//! Deleting, clearing, renaming, changing and adding fields.

use svdpatch::error::PatchError;
use svdpatch::register::{RegisterExt, RegisterInfoExt};
use svdpatch::svd::{
    Access, BitRange, EnumeratedValue, EnumeratedValues, Field, FieldInfo, ModifiedWriteValues,
    ReadAction, Register, RegisterInfo, Usage, WriteConstraint, WriteConstraintRange,
};
use svdpatch::yaml::{Mapping, Yaml};

fn string(s: &str) -> Yaml {
    Yaml::String(s.to_string())
}

fn map(entries: Vec<(&str, Yaml)>) -> Mapping {
    Mapping { entries: entries.into_iter().map(|(k, v)| (string(k), v)).collect() }
}

fn field(name: &str, offset: u32, width: u32) -> Field {
    FieldInfo {
        name: name.to_string(),
        description: Some(format!("field {}", name)),
        bit_range: BitRange::from_offset_width(offset, width),
        access: None,
        modified_write_values: None,
        write_constraint: None,
        read_action: None,
        enumerated_values: Vec::new(),
        derived_from: None,
    }
    .single()
}

fn register(fields: Vec<Field>) -> Register {
    Register { info: RegisterInfo { name: "CR".to_string(), fields: Some(fields) }, dim: None }
}

fn bare() -> Register {
    Register { info: RegisterInfo { name: "CR".to_string(), fields: None }, dim: None }
}

fn fields(reg: &Register) -> &Vec<Field> {
    reg.info.fields.as_ref().unwrap()
}

fn names(reg: &Register) -> Vec<&str> {
    fields(reg).iter().map(|f| f.info.name.as_str()).collect()
}

fn values(usage: Usage, number: u64) -> EnumeratedValues {
    EnumeratedValues {
        name: Some("V".to_string()),
        usage: Some(usage),
        derived_from: None,
        values: vec![EnumeratedValue {
            name: "On".to_string(),
            description: None,
            value: Some(number),
            is_default: None,
        }],
    }
}

#[test]
fn bitmask_of_fields() {
    let reg = register(vec![field("A", 0, 1), field("B", 4, 4), field("C", 63, 1)]);
    assert_eq!(reg.info.get_bitmask(), 0x8000_0000_0000_00f1);
}

#[test]
fn bitmask_of_whole_register_and_of_nothing() {
    assert_eq!(register(vec![field("A", 0, 64)]).info.get_bitmask(), u64::MAX);
    assert_eq!(register(vec![]).info.get_bitmask(), 0);
    assert_eq!(bare().info.get_bitmask(), 0);
}

#[test]
fn bitmask_drops_bits_beyond_the_register() {
    assert_eq!(register(vec![field("A", 60, 8)]).info.get_bitmask(), 0xf000_0000_0000_0000);
}

#[test]
fn delete_by_pattern() {
    let mut reg = register(vec![field("EN1", 0, 1), field("MODE", 1, 2), field("EN2", 3, 1)]);
    assert_eq!(reg.delete_field("EN?"), Ok(()));
    assert_eq!(names(&reg), vec!["MODE"]);
    assert_eq!(reg.delete_field("EN?"), Ok(()));
    assert_eq!(names(&reg), vec!["MODE"]);
}

#[test]
fn delete_by_list_of_patterns() {
    let mut reg = register(vec![field("A", 0, 1), field("B1", 1, 1), field("B2", 2, 1), field("C", 3, 1)]);
    assert_eq!(reg.delete_field("A,B*"), Ok(()));
    assert_eq!(names(&reg), vec!["C"]);
}

#[test]
fn delete_with_character_class() {
    let mut reg = register(vec![field("A0", 0, 1), field("A5", 1, 1), field("AX", 2, 1)]);
    assert_eq!(reg.delete_field("A[0-9]"), Ok(()));
    assert_eq!(names(&reg), vec!["AX"]);
}

#[test]
fn delete_with_underscore_or_invalid_pattern_changes_nothing() {
    let mut reg = register(vec![field("_A", 0, 1), field("B", 1, 1)]);
    assert_eq!(reg.delete_field("_A"), Ok(()));
    assert_eq!(reg.delete_field("[B"), Ok(()));
    assert_eq!(names(&reg), vec!["_A", "B"]);
    let mut none = bare();
    assert_eq!(none.delete_field("*"), Ok(()));
    assert_eq!(none, bare());
}

#[test]
fn clear_takes_values_and_constraint() {
    let mut f = field("A", 0, 2);
    f.info.enumerated_values = vec![values(Usage::ReadWrite, 1)];
    f.info.write_constraint = Some(WriteConstraint::UseEnumeratedValues(true));
    let kept = f.clone();
    let mut other = f.clone();
    other.info.name = "B".to_string();
    let mut reg = register(vec![f, other.clone()]);
    assert_eq!(reg.clear_field("A"), Ok(()));
    let mut cleared = kept;
    cleared.info.enumerated_values = Vec::new();
    cleared.info.write_constraint = None;
    assert_eq!(fields(&reg), &vec![cleared, other]);
    let once = reg.clone();
    assert_eq!(reg.clear_field("A"), Ok(()));
    assert_eq!(reg, once);
}

#[test]
fn walk_over_matching_fields() {
    let reg = register(vec![field("A1", 0, 1), field("B", 1, 1), field("A2", 2, 1)]);
    assert_eq!(reg.iter_fields("A*"), vec![0, 2]);
    assert_eq!(reg.iter_fields("*"), vec![0, 1, 2]);
    assert_eq!(reg.iter_fields("C"), Vec::<usize>::new());
    assert_eq!(bare().iter_fields("*"), Vec::<usize>::new());
}

#[test]
fn strip_prefix() {
    let mut reg = register(vec![field("CR_EN", 0, 1), field("MODE", 1, 1), field("CR_", 2, 1)]);
    assert_eq!(reg.try_strip_start("CR_"), Some(Ok(())));
    assert_eq!(names(&reg), vec!["EN", "MODE", ""]);
}

#[test]
fn strip_suffix() {
    let mut reg = register(vec![field("EN_CR", 0, 1), field("MODE", 1, 1)]);
    assert_eq!(reg.try_strip_end("_CR"), Some(Ok(())));
    assert_eq!(names(&reg), vec!["EN", "MODE"]);
    assert_eq!(fields(&reg)[0].info.bit_range, BitRange::from_offset_width(0, 1));
}

#[test]
fn strip_counts_bytes_of_the_pattern() {
    let mut reg = register(vec![field("AB1_X", 0, 1)]);
    assert_eq!(reg.try_strip_start("??"), Some(Ok(())));
    assert_eq!(names(&reg), vec!["1_X"]);
    assert_eq!(reg.try_strip_end("?"), Some(Ok(())));
    assert_eq!(names(&reg), vec!["1_"]);
}

#[test]
fn strip_with_refused_pattern() {
    let mut reg = register(vec![field("A", 0, 1)]);
    let before = reg.clone();
    assert!(matches!(reg.try_strip_start("[A"), Some(Err(PatchError::Glob(_)))));
    assert!(matches!(reg.try_strip_end("[A"), Some(Err(PatchError::Glob(_)))));
    assert_eq!(reg, before);
}

#[test]
fn strip_that_would_cut_too_much_has_no_answer() {
    let mut reg = register(vec![field("A", 0, 1)]);
    let before = reg.clone();
    assert_eq!(reg.try_strip_start("[ABC]"), None);
    assert_eq!(reg.try_strip_end("{A,B}"), None);
    assert_eq!(reg, before);
}

#[test]
fn modify_parts_of_a_field() {
    let mut reg = register(vec![field("A", 0, 1), field("B", 1, 1)]);
    let change = map(vec![
        ("name", string("AA")),
        ("description", string("new")),
        ("bitOffset", Yaml::Integer(8)),
        ("bitWidth", Yaml::Integer(4)),
        ("access", string("read-only")),
        ("modifiedWriteValues", string("oneToClear")),
        ("readAction", string("clear")),
    ]);
    assert_eq!(reg.try_modify_field("A", &change), Some(Ok(())));
    let f = &fields(&reg)[0].info;
    assert_eq!(f.name, "AA");
    assert_eq!(f.description, Some("new".to_string()));
    assert_eq!(f.bit_range, BitRange::from_offset_width(8, 4));
    assert_eq!(f.access, Some(Access::ReadOnly));
    assert_eq!(f.modified_write_values, Some(ModifiedWriteValues::OneToClear));
    assert_eq!(f.read_action, Some(ReadAction::Clear));
    assert_eq!(fields(&reg)[1], field("B", 1, 1));
}

#[test]
fn modify_with_unknown_words_keeps_what_is_there() {
    let mut reg = register(vec![field("A", 0, 1)]);
    let change = map(vec![
        ("access", string("sometimes")),
        ("modifiedWriteValues", string("never")),
        ("readAction", string("explode")),
        ("description", string("")),
    ]);
    assert_eq!(reg.try_modify_field("A", &change), Some(Ok(())));
    let f = &fields(&reg)[0].info;
    assert_eq!(f.access, None);
    assert_eq!(f.modified_write_values, None);
    assert_eq!(f.read_action, None);
    assert_eq!(f.description, None);
}

#[test]
fn modify_to_copy_drops_contents() {
    let mut f = field("A", 0, 2);
    f.info.enumerated_values = vec![values(Usage::ReadWrite, 1)];
    f.info.write_constraint = Some(WriteConstraint::UseEnumeratedValues(true));
    f.info.modified_write_values = Some(ModifiedWriteValues::OneToSet);
    let mut reg = register(vec![f]);
    let change = map(vec![("derivedFrom", string("B"))]);
    assert_eq!(reg.try_modify_field("A", &change), Some(Ok(())));
    let f = &fields(&reg)[0].info;
    assert_eq!(f.derived_from, Some("B".to_string()));
    assert_eq!(f.modified_write_values, None);
    assert_eq!(f.write_constraint, None);
    assert!(f.enumerated_values.is_empty());
}

#[test]
fn modify_write_constraint() {
    let mut reg = register(vec![field("A", 0, 8), field("B", 8, 8)]);
    let range = map(vec![(
        "_write_constraint",
        Yaml::Array(vec![Yaml::Integer(1), Yaml::Integer(200)]),
    )]);
    assert_eq!(reg.try_modify_field("*", &range), Some(Ok(())));
    let expected = WriteConstraint::Range(WriteConstraintRange { min: 1, max: 200 });
    assert_eq!(fields(&reg)[0].info.write_constraint, Some(expected));
    assert_eq!(fields(&reg)[1].info.write_constraint, Some(expected));
    let listed = map(vec![("writeConstraint", string("enum"))]);
    assert_eq!(reg.try_modify_field("A", &listed), Some(Ok(())));
    assert_eq!(
        fields(&reg)[0].info.write_constraint,
        Some(WriteConstraint::UseEnumeratedValues(true))
    );
    let none = map(vec![("_write_constraint", string("none")), ("writeConstraint", string("enum"))]);
    assert_eq!(reg.try_modify_field("A", &none), Some(Ok(())));
    assert_eq!(fields(&reg)[0].info.write_constraint, None);
    assert_eq!(fields(&reg)[1].info.write_constraint, Some(expected));
}

#[test]
fn modify_with_unknown_write_constraint() {
    let mut reg = register(vec![field("A", 0, 8)]);
    let before = reg.clone();
    let word = map(vec![("_write_constraint", string("some"))]);
    assert_eq!(
        reg.try_modify_field("A", &word),
        Some(Err(PatchError::UnknownWriteConstraint { constraint: string("some") }))
    );
    let number = map(vec![("_write_constraint", Yaml::Integer(3))]);
    assert_eq!(
        reg.try_modify_field("A", &number),
        Some(Err(PatchError::UnknownWriteConstraint { constraint: Yaml::Integer(3) }))
    );
    let nested = || {
        Yaml::Hash(map(vec![("a", Yaml::Array(vec![Yaml::Null, string("b")])), ("c", Yaml::Boolean(true))]))
    };
    assert_eq!(
        reg.try_modify_field("A", &map(vec![("writeConstraint", nested())])),
        Some(Err(PatchError::UnknownWriteConstraint { constraint: nested() }))
    );
    let bounds = map(vec![("_write_constraint", Yaml::Array(vec![Yaml::Integer(3), Yaml::Null]))]);
    assert_eq!(reg.try_modify_field("A", &bounds), Some(Err(PatchError::NotInteger)));
    assert_eq!(reg, before);
}

#[test]
fn modify_with_half_a_range_has_no_answer() {
    let mut reg = register(vec![field("A", 0, 8)]);
    let before = reg.clone();
    let half = map(vec![("_write_constraint", Yaml::Array(vec![Yaml::Integer(3)]))]);
    assert_eq!(reg.try_modify_field("A", &half), None);
    assert_eq!(reg.try_modify_field("B", &half), Some(Ok(())));
    assert_eq!(reg, before);
}

#[test]
fn modify_that_does_not_fit_is_refused_after_the_change() {
    let mut reg = register(vec![field("A", 0, 4), field("AB", 4, 4)]);
    let range = map(vec![(
        "_write_constraint",
        Yaml::Array(vec![Yaml::Integer(0), Yaml::Integer(16)]),
    )]);
    assert!(matches!(reg.try_modify_field("A*", &range), Some(Err(PatchError::Svd(_)))));
    assert_eq!(
        fields(&reg)[0].info.write_constraint,
        Some(WriteConstraint::Range(WriteConstraintRange { min: 0, max: 16 }))
    );
    assert_eq!(fields(&reg)[1], field("AB", 4, 4));
    let fitting = map(vec![(
        "_write_constraint",
        Yaml::Array(vec![Yaml::Integer(0), Yaml::Integer(15)]),
    )]);
    assert_eq!(reg.try_modify_field("A*", &fitting), Some(Ok(())));
    let upside_down = map(vec![(
        "_write_constraint",
        Yaml::Array(vec![Yaml::Integer(2), Yaml::Integer(1)]),
    )]);
    assert!(matches!(reg.try_modify_field("A*", &upside_down), Some(Err(PatchError::Svd(_)))));
    let empty = map(vec![("bitWidth", Yaml::Integer(0))]);
    assert!(matches!(reg.try_modify_field("AB", &empty), Some(Err(PatchError::Svd(_)))));
}

#[test]
fn modify_refuses_values_that_do_not_fit() {
    let mut f = field("A", 0, 4);
    f.info.enumerated_values = vec![values(Usage::ReadWrite, 9)];
    let mut reg = register(vec![f]);
    let narrow = map(vec![("bitWidth", Yaml::Integer(3))]);
    assert!(matches!(reg.try_modify_field("A", &narrow), Some(Err(PatchError::Svd(_)))));
    let wide = map(vec![("bitWidth", Yaml::Integer(64))]);
    assert_eq!(reg.try_modify_field("A", &wide), Some(Ok(())));
}

#[test]
fn modify_with_parts_of_the_wrong_kind() {
    let mut reg = register(vec![field("A", 0, 4)]);
    let before = reg.clone();
    let name = map(vec![("description", Yaml::Integer(1))]);
    assert_eq!(reg.try_modify_field("A", &name), Some(Err(PatchError::NotString)));
    let width = map(vec![("bitWidth", string("4"))]);
    assert_eq!(reg.try_modify_field("A", &width), Some(Err(PatchError::NotInteger)));
    assert_eq!(reg, before);
}

#[test]
fn add_a_field() {
    let mut reg = register(vec![field("A", 0, 4)]);
    let new = map(vec![
        ("description", string("new")),
        ("bitOffset", Yaml::Integer(4)),
        ("bitWidth", Yaml::Integer(2)),
        ("access", string("write-only")),
    ]);
    assert_eq!(reg.add_field("B", &new), Ok(()));
    assert_eq!(names(&reg), vec!["A", "B"]);
    let f = &fields(&reg)[1];
    assert_eq!(f.info.bit_range, BitRange::from_offset_width(4, 2));
    assert_eq!(f.info.description, Some("new".to_string()));
    assert_eq!(f.info.access, Some(Access::WriteOnly));
    assert!(f.dim.is_none());
    let once = reg.clone();
    assert_eq!(
        reg.add_field("B", &new),
        Err(PatchError::FieldExists { register: "CR".to_string(), field: "B".to_string() })
    );
    assert_eq!(reg, once);
    assert_eq!(reg.delete_field("B"), Ok(()));
    assert_eq!(fields(&reg), &vec![field("A", 0, 4)]);
}

#[test]
fn add_the_first_field() {
    let mut reg = bare();
    let new = map(vec![("bitOffset", Yaml::Integer(0)), ("bitWidth", Yaml::Integer(1))]);
    assert_eq!(reg.add_field("A", &new), Ok(()));
    assert_eq!(names(&reg), vec!["A"]);
}

#[test]
fn add_is_refused() {
    let mut reg = register(vec![]);
    let before = reg.clone();
    let nowhere = map(vec![("bitWidth", Yaml::Integer(1))]);
    assert_eq!(reg.add_field("A", &nowhere), Err(PatchError::NoBitRange));
    let empty = map(vec![("bitOffset", Yaml::Integer(0)), ("bitWidth", Yaml::Integer(0))]);
    assert!(matches!(reg.add_field("A", &empty), Err(PatchError::Svd(_))));
    let kind = map(vec![("bitOffset", string("0")), ("bitWidth", Yaml::Integer(1))]);
    assert_eq!(reg.add_field("A", &kind), Err(PatchError::NotInteger));
    assert_eq!(reg, before);
}

#[test]
fn range_for_matching_fields() {
    let mut reg = register(vec![field("A1", 0, 4), field("B", 4, 4), field("A2", 8, 4)]);
    let parts = vec![Yaml::Integer(0), Yaml::Integer(-1)];
    assert_eq!(reg.try_process_field_range("P", "A*", &parts), Some(Ok(())));
    let expected = Some(WriteConstraint::Range(WriteConstraintRange { min: 0, max: u64::MAX }));
    assert_eq!(fields(&reg)[0].info.write_constraint, expected);
    assert_eq!(fields(&reg)[1].info.write_constraint, None);
    assert_eq!(fields(&reg)[2].info.write_constraint, expected);
    let once = reg.clone();
    assert_eq!(reg.try_process_field_range("P", "A*", &parts), Some(Ok(())));
    assert_eq!(reg, once);
}

#[test]
fn range_is_refused() {
    let mut reg = register(vec![field("A", 0, 4)]);
    let before = reg.clone();
    let parts = vec![Yaml::Integer(0), Yaml::Integer(3)];
    assert_eq!(
        reg.try_process_field_range("P", "B", &parts),
        Some(Err(PatchError::FieldNotFound {
            peripheral: "P".to_string(),
            register: "CR".to_string(),
            spec: "B".to_string(),
        }))
    );
    let words = vec![string("0"), Yaml::Integer(3)];
    assert_eq!(
        reg.try_process_field_range("P", "A", &words),
        Some(Err(PatchError::NotInteger))
    );
    assert_eq!(reg.try_process_field_range("P", "A", &[Yaml::Integer(0)]), None);
    assert_eq!(reg, before);
}
