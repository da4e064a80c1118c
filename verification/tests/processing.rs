//! Working through a register as a document asks.

use svdpatch::error::{PatchError, Step};
use svdpatch::svd::{BitRange, Field, FieldInfo, Register, RegisterInfo, Usage};
use svdpatch::yaml::{Mapping, Yaml};

fn string(s: &str) -> Yaml {
    Yaml::String(s.to_string())
}

fn map(entries: Vec<(&str, Yaml)>) -> Mapping {
    Mapping { entries: entries.into_iter().map(|(k, v)| (string(k), v)).collect() }
}

fn hash(entries: Vec<(&str, Yaml)>) -> Yaml {
    Yaml::Hash(map(entries))
}

fn place(offset: i64, width: i64) -> Yaml {
    hash(vec![("bitOffset", Yaml::Integer(offset)), ("bitWidth", Yaml::Integer(width))])
}

fn value(number: i64, description: &str) -> Yaml {
    Yaml::Array(vec![Yaml::Integer(number), string(description)])
}

fn field(name: &str, offset: u32, width: u32) -> Field {
    FieldInfo {
        name: name.to_string(),
        description: None,
        bit_range: BitRange::from_offset_width(offset, width),
        access: None,
        modified_write_values: None,
        write_constraint: None,
        read_action: None,
        enumerated_values: Vec::new(),
        derived_from: None,
    }
    .single()
}

fn register(fields: Vec<Field>) -> Register {
    Register { info: RegisterInfo { name: "CR".to_string(), fields: Some(fields) }, dim: None }
}

fn during(step: Step, error: PatchError) -> PatchError {
    PatchError::During { step, error: Box::new(error) }
}

fn names(reg: &Register) -> Vec<&str> {
    reg.info.fields.as_ref().unwrap().iter().map(|f| f.info.name.as_str()).collect()
}

#[test]
fn empty_document() {
    let mut reg = register(vec![field("A", 0, 1)]);
    let before = reg.clone();
    assert_eq!(reg.try_process(&map(vec![]), "P", true), Some(Ok(())));
    assert_eq!(reg, before);
}

#[test]
fn all_groups_in_order() {
    let mut reg = register(vec![
        field("OLD", 0, 1),
        field("PRE_LO", 1, 1),
        field("PRE_HI", 2, 1),
        field("MODE_SUF", 4, 2),
    ]);
    let document = map(vec![
        ("_array", hash(vec![("CH*", hash(vec![]))])),
        ("EN", hash(vec![("Off", value(0, "off")), ("On", value(1, "on"))])),
        ("_strip", string("PRE_")),
        ("_strip_end", Yaml::Array(vec![string("_SUF"), Yaml::Integer(1)])),
        ("_split", Yaml::Array(vec![string("WIDE")])),
        ("_merge", hash(vec![("PRE_ALL", string("PRE_*"))])),
        ("_add", hash(vec![("WIDE", place(8, 2)), ("CH1", place(16, 1)), ("CH2", place(20, 1))])),
        ("_modify", hash(vec![("MODE*", hash(vec![("description", string("mode"))]))])),
        ("_clear", string("*")),
        ("_delete", string("OLD")),
        ("_unknown", Yaml::Null),
    ]);
    let mut with_field = reg.clone();
    with_field.info.fields.as_mut().unwrap().push(field("EN", 30, 1));
    assert_eq!(with_field.try_process(&document, "P", true), Some(Ok(())));
    assert_eq!(names(&with_field), vec!["MODE", "EN", "CH%s", "ALL", "WIDE0", "WIDE1"]);
    let fields = with_field.info.fields.as_ref().unwrap();
    assert_eq!(fields[0].info.description, Some("mode".to_string()));
    assert_eq!(fields[1].info.enumerated_values[0].name, Some("EN".to_string()));
    assert_eq!(fields[1].info.enumerated_values[0].usage, Some(Usage::ReadWrite));
    assert_eq!(fields[2].dim.as_ref().unwrap().dim, 2);
    assert_eq!(fields[2].dim.as_ref().unwrap().dim_increment, 4);
    assert_eq!(fields[3].info.bit_range, BitRange::from_offset_width(1, 2));

    assert_eq!(reg.try_process(&document, "P", false), Some(Ok(())));
    assert_eq!(names(&reg), vec!["MODE", "CH%s", "ALL", "WIDE0", "WIDE1"]);
    assert_eq!(reg.info.name, "CR");
    assert!(reg.dim.is_none());
}

#[test]
fn fields_are_only_updated_if_asked_for() {
    let document = map(vec![("EN", hash(vec![("On", value(1, "on"))]))]);
    let mut reg = register(vec![field("EN", 0, 1)]);
    let before = reg.clone();
    assert_eq!(reg.try_process(&document, "P", false), Some(Ok(())));
    assert_eq!(reg, before);
    assert_eq!(reg.try_process(&document, "P", true), Some(Ok(())));
    assert_eq!(reg.info.fields.as_ref().unwrap()[0].info.enumerated_values.len(), 1);
}

#[test]
fn missing_field_is_reported_with_its_peripheral() {
    let document = map(vec![("EN", hash(vec![("On", value(1, "on"))]))]);
    let mut reg = register(vec![field("A", 0, 1)]);
    assert_eq!(
        reg.try_process(&document, "TIM1", true),
        Some(Err(during(
            Step::Processing("EN".to_string()),
            during(
                Step::AddingValues(Usage::ReadWrite),
                PatchError::FieldNotFound {
                    peripheral: "TIM1".to_string(),
                    register: "CR".to_string(),
                    spec: "EN".to_string(),
                },
            ),
        )))
    );
}

#[test]
fn first_failure_ends_the_work() {
    let mut reg = register(vec![field("A", 0, 1), field("B", 1, 1)]);
    let document = map(vec![
        ("_delete", string("A")),
        ("_add", hash(vec![("C", place(2, 1)), ("B", place(1, 1)), ("D", place(3, 1))])),
        ("_merge", Yaml::Array(vec![string("*")])),
    ]);
    assert_eq!(
        reg.try_process(&document, "P", true),
        Some(Err(during(
            Step::Adding("B".to_string()),
            PatchError::FieldExists { register: "CR".to_string(), field: "B".to_string() },
        )))
    );
    assert_eq!(names(&reg), vec!["B", "C"]);
}

#[test]
fn merges_and_splits_as_lists_and_mappings() {
    let mut reg = register(vec![field("A0", 0, 1), field("A1", 1, 1), field("W", 4, 2)]);
    let document = map(vec![
        ("_merge", Yaml::Array(vec![string("A*")])),
        ("_split", hash(vec![("W", hash(vec![("name", string("W%s_"))]))])),
    ]);
    assert_eq!(reg.try_process(&document, "P", true), Some(Ok(())));
    assert_eq!(names(&reg), vec!["A", "W0_", "W1_"]);
}

#[test]
fn keys_and_values_of_the_wrong_kind() {
    let bad_key = |value: Yaml| Yaml::Hash(Mapping { entries: vec![(Yaml::Integer(1), value)] });
    let cases = vec![
        ("_modify", bad_key(hash(vec![])), PatchError::NotString),
        ("_modify", hash(vec![("A", Yaml::Null)]), PatchError::NotHash),
        ("_add", bad_key(hash(vec![])), PatchError::NotString),
        ("_add", hash(vec![("B", Yaml::Null)]), PatchError::NotHash),
        ("_merge", bad_key(string("A")), PatchError::NotString),
        ("_merge", Yaml::Array(vec![Yaml::Null]), PatchError::NotString),
        ("_split", bad_key(hash(vec![])), PatchError::NotString),
        ("_split", hash(vec![("A", Yaml::Null)]), PatchError::NotHash),
        ("_split", Yaml::Array(vec![Yaml::Null]), PatchError::NotString),
        ("_array", bad_key(hash(vec![])), PatchError::NotString),
        ("_array", hash(vec![("A", Yaml::Null)]), PatchError::NotHash),
    ];
    for (key, value, error) in cases {
        let mut reg = register(vec![field("A", 0, 1)]);
        let before = reg.clone();
        assert_eq!(reg.try_process(&map(vec![(key, value)]), "P", true), Some(Err(error)));
        assert_eq!(reg, before);
    }
    let mut reg = register(vec![field("A", 0, 1)]);
    let document = Mapping { entries: vec![(Yaml::Boolean(true), Yaml::Null)] };
    assert_eq!(reg.try_process(&document, "P", true), Some(Err(PatchError::NotString)));
    assert_eq!(reg.try_process(&document, "P", false), Some(Ok(())));
}

#[test]
fn commands_of_another_kind_are_skipped() {
    let mut reg = register(vec![field("A", 0, 1)]);
    let before = reg.clone();
    for key in ["_delete", "_clear", "_modify", "_add", "_merge", "_split", "_strip", "_strip_end", "_array"] {
        assert_eq!(
            reg.try_process(&map(vec![(key, Yaml::Integer(1))]), "P", true),
            Some(Ok(()))
        );
    }
    assert_eq!(reg, before);
}

#[test]
fn work_that_cannot_be_carried_out_changes_nothing() {
    let mut reg = register(vec![field("A", 0, 1), field("B", u32::MAX, 2)]);
    let before = reg.clone();
    let document = map(vec![("_delete", string("A")), ("_split", Yaml::Array(vec![string("B")]))]);
    assert_eq!(reg.try_process(&document, "P", true), None);
    assert_eq!(reg, before);
}

#[test]
fn refused_pattern_ends_the_work() {
    let mut reg = register(vec![field("A", 0, 1)]);
    let document = map(vec![("_strip", string("["))]);
    match reg.try_process(&document, "P", true) {
        Some(Err(PatchError::During { step, error })) => {
            assert_eq!(step, Step::StrippingStart("[".to_string()));
            assert!(matches!(*error, PatchError::Glob(_)));
        }
        other => panic!("{:?}", other),
    }
}

#[test]
fn errors_name_the_step() {
    let none = || PatchError::NothingToSplit { register: "CR".to_string(), spec: "X".to_string() };
    let cases = vec![
        (
            ("_modify", hash(vec![("A", hash(vec![("_write_constraint", string("x"))]))])),
            during(
                Step::Modifying("A".to_string()),
                PatchError::UnknownWriteConstraint { constraint: string("x") },
            ),
        ),
        (
            ("_merge", Yaml::Array(vec![string("X")])),
            during(
                Step::Merging("X".to_string()),
                PatchError::NothingToMerge { register: "CR".to_string(), key: "X".to_string() },
            ),
        ),
        (
            ("_merge", hash(vec![("X", Yaml::Null)])),
            during(
                Step::Merging("X".to_string()),
                PatchError::InvalidMerge { register: "CR".to_string(), key: "X".to_string() },
            ),
        ),
        (
            ("_split", Yaml::Array(vec![string("X")])),
            during(Step::Splitting("X".to_string()), none()),
        ),
        (
            ("_split", hash(vec![("X", hash(vec![]))])),
            during(Step::Splitting("X".to_string()), none()),
        ),
        (
            ("_array", hash(vec![("X", hash(vec![]))])),
            during(
                Step::Collecting("X".to_string()),
                PatchError::NothingToCollect { register: "CR".to_string(), spec: "X".to_string() },
            ),
        ),
        (
            ("A", Yaml::Array(vec![Yaml::Null, Yaml::Null])),
            during(
                Step::Processing("A".to_string()),
                during(Step::AddingRange, PatchError::NotInteger),
            ),
        ),
        (
            ("A", hash(vec![("_write", hash(vec![]))])),
            during(
                Step::Processing("A".to_string()),
                during(Step::AddingValues(Usage::Write), PatchError::NoValues),
            ),
        ),
    ];
    for ((key, value), error) in cases {
        let mut reg = register(vec![field("A", 0, 1)]);
        assert_eq!(reg.try_process(&map(vec![(key, value)]), "P", true), Some(Err(error)));
    }
    let deep = format!("{}{}", "{".repeat(251), "}".repeat(251));
    let mut reg = register(vec![field("A", 0, 1)]);
    assert_eq!(
        reg.try_process(&map(vec![("_strip_end", string(&deep))]), "P", true),
        Some(Err(during(
            Step::StrippingEnd(deep.clone()),
            PatchError::PatternTooDeep { pattern: format!("*{}", deep) },
        )))
    );
}
