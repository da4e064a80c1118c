//! Giving fields their enumerated values.

use svdpatch::error::{PatchError, Step};
use svdpatch::make::{make_ev_array, make_ev_name, make_field};
use svdpatch::matching::{matchname, spec_affixes};
use svdpatch::svd::{
    Access, BitRange, EnumeratedValue, EnumeratedValues, Field, FieldInfo, ModifiedWriteValues,
    ReadAction, Register, RegisterInfo, Usage, WriteConstraint, WriteConstraintRange,
};
use svdpatch::yaml::{Mapping, Yaml};

fn string(s: &str) -> Yaml {
    Yaml::String(s.to_string())
}

fn map(entries: Vec<(&str, Yaml)>) -> Mapping {
    Mapping { entries: entries.into_iter().map(|(k, v)| (string(k), v)).collect() }
}

fn value(number: i64, description: &str) -> Yaml {
    Yaml::Array(vec![Yaml::Integer(number), string(description)])
}

fn on_off() -> Mapping {
    map(vec![("On", value(1, "It is on")), ("Off", value(0, "It is off"))])
}

fn named(name: &str, number: u64, description: &str) -> EnumeratedValue {
    EnumeratedValue {
        name: name.to_string(),
        description: Some(description.to_string()),
        value: Some(number),
        is_default: None,
    }
}

fn listed(name: &str, usage: Usage) -> EnumeratedValues {
    EnumeratedValues {
        name: Some(name.to_string()),
        usage: Some(usage),
        derived_from: None,
        values: vec![named("Off", 0, "It is off"), named("On", 1, "It is on")],
    }
}

fn copied(name: &str) -> EnumeratedValues {
    EnumeratedValues {
        name: None,
        usage: None,
        derived_from: Some(name.to_string()),
        values: Vec::new(),
    }
}

fn field(name: &str, offset: u32, width: u32) -> Field {
    FieldInfo {
        name: name.to_string(),
        description: None,
        bit_range: BitRange::from_offset_width(offset, width),
        access: None,
        modified_write_values: None,
        write_constraint: None,
        read_action: None,
        enumerated_values: Vec::new(),
        derived_from: None,
    }
    .single()
}

fn register(fields: Vec<Field>) -> Register {
    Register { info: RegisterInfo { name: "CR".to_string(), fields: Some(fields) }, dim: None }
}

fn bare() -> Register {
    Register { info: RegisterInfo { name: "CR".to_string(), fields: None }, dim: None }
}

fn enums(reg: &Register, i: usize) -> &Vec<EnumeratedValues> {
    &reg.info.fields.as_ref().unwrap()[i].info.enumerated_values
}

#[test]
fn values_for_all_accesses() {
    let mut reg = register(vec![field("EN", 0, 1), field("X", 1, 1)]);
    assert_eq!(
        reg.try_process_field_enum("P", "EN", &on_off(), Usage::ReadWrite),
        Some(Ok(()))
    );
    assert_eq!(enums(&reg, 0), &vec![listed("EN", Usage::ReadWrite)]);
    assert!(enums(&reg, 1).is_empty());
}

#[test]
fn values_for_several_fields_are_copied() {
    let mut reg = register(vec![field("EN2", 2, 1), field("EN1", 1, 1), field("EN3", 3, 1)]);
    assert_eq!(
        reg.try_process_field_enum("P", "EN?", &on_off(), Usage::ReadWrite),
        Some(Ok(()))
    );
    assert_eq!(enums(&reg, 0), &vec![copied("EN1")]);
    assert_eq!(enums(&reg, 1), &vec![listed("EN1", Usage::ReadWrite)]);
    assert_eq!(enums(&reg, 2), &vec![copied("EN1")]);
}

#[test]
fn values_of_fields_at_one_offset_are_listed_for_each() {
    let mut reg = register(vec![field("A1", 2, 1), field("A2", 2, 1)]);
    assert_eq!(
        reg.try_process_field_enum("P", "A?", &on_off(), Usage::Read),
        Some(Ok(()))
    );
    assert_eq!(enums(&reg, 0), &vec![listed("A1R", Usage::Read)]);
    assert_eq!(enums(&reg, 1), &vec![listed("A1R", Usage::Read)]);
}

#[test]
fn values_are_named_without_placeholder() {
    let mut reg = register(vec![field("CH%sEN", 0, 1)]);
    assert_eq!(
        reg.try_process_field_enum("P", "CH*", &on_off(), Usage::Write),
        Some(Ok(()))
    );
    assert_eq!(enums(&reg, 0), &vec![listed("CHENW", Usage::Write)]);
}

#[test]
fn values_are_not_overwritten() {
    let mut reg = register(vec![field("EN", 0, 1)]);
    assert_eq!(
        reg.try_process_field_enum("P", "EN", &on_off(), Usage::ReadWrite),
        Some(Ok(()))
    );
    let once = reg.clone();
    assert_eq!(
        reg.try_process_field_enum("P", "EN", &on_off(), Usage::ReadWrite),
        Some(Err(PatchError::EnumExists { field: "EN".to_string(), usage: Usage::ReadWrite }))
    );
    assert_eq!(
        reg.try_process_field_enum("P", "EN", &on_off(), Usage::Read),
        Some(Err(PatchError::EnumExists { field: "EN".to_string(), usage: Usage::Read }))
    );
    assert_eq!(reg, once);
}

#[test]
fn values_are_replaced_if_asked_for() {
    let mut reg = register(vec![field("EN", 0, 1)]);
    let first = map(vec![("Yes", value(1, "yes"))]);
    assert_eq!(reg.try_process_field_enum("P", "EN", &first, Usage::ReadWrite), Some(Ok(())));
    let replacing = map(vec![("_replace_enum", Yaml::Hash(on_off()))]);
    assert_eq!(
        reg.try_process_field_enum("P", "EN", &replacing, Usage::ReadWrite),
        Some(Ok(()))
    );
    assert_eq!(enums(&reg, 0), &vec![listed("EN", Usage::ReadWrite)]);
    let once = reg.clone();
    assert_eq!(
        reg.try_process_field_enum("P", "EN", &replacing, Usage::ReadWrite),
        Some(Ok(()))
    );
    assert_eq!(reg, once);
}

#[test]
fn values_for_reads_and_writes_side_by_side() {
    let mut reg = register(vec![field("EN", 0, 1)]);
    let both = map(vec![("_write", Yaml::Hash(on_off())), ("_read", Yaml::Hash(on_off()))]);
    assert_eq!(reg.try_process_field("P", "EN", &Yaml::Hash(both)), Some(Ok(())));
    assert_eq!(enums(&reg, 0), &vec![listed("ENR", Usage::Read), listed("ENW", Usage::Write)]);
    let once = reg.clone();
    assert_eq!(
        reg.try_process_field_enum("P", "EN", &on_off(), Usage::Write),
        Some(Err(PatchError::EnumExists { field: "EN".to_string(), usage: Usage::Write }))
    );
    assert_eq!(reg, once);
    let other = map(vec![("_replace_enum", Yaml::Hash(map(vec![("Go", value(1, "go"))])))]);
    assert_eq!(reg.try_process_field_enum("P", "EN", &other, Usage::Write), Some(Ok(())));
    assert_eq!(enums(&reg, 0)[0], listed("ENR", Usage::Read));
    assert_eq!(enums(&reg, 0)[1].values, vec![named("Go", 1, "go")]);
}

#[test]
fn too_many_sets_of_values() {
    let mut f = field("EN", 0, 1);
    f.info.enumerated_values = vec![
        listed("A", Usage::Read),
        listed("B", Usage::Write),
        listed("C", Usage::Write),
    ];
    let mut reg = register(vec![f]);
    assert_eq!(
        reg.try_process_field_enum("P", "EN", &on_off(), Usage::Read),
        Some(Err(PatchError::IncorrectEnumeratedValues))
    );
}

#[test]
fn values_for_missing_fields() {
    let mut reg = register(vec![field("EN", 0, 1)]);
    let missing = Some(Err(PatchError::FieldNotFound {
        peripheral: "P".to_string(),
        register: "CR".to_string(),
        spec: "B".to_string(),
    }));
    assert_eq!(reg.try_process_field_enum("P", "B", &on_off(), Usage::Read), missing);
    assert_eq!(bare().try_process_field_enum("P", "B", &on_off(), Usage::Read), missing);
}

#[test]
fn values_copied_by_name() {
    let mut reg = register(vec![field("EN", 0, 1), field("DIS", 1, 1)]);
    assert_eq!(
        reg.try_process_field_enum("P", "EN", &on_off(), Usage::ReadWrite),
        Some(Ok(()))
    );
    let copy = map(vec![("_derivedFrom", string("EN"))]);
    assert_eq!(reg.try_process_field_enum("P", "DIS", &copy, Usage::ReadWrite), Some(Ok(())));
    assert_eq!(enums(&reg, 1), &vec![copied("EN")]);
    assert_eq!(
        reg.try_process_field_enum("P", "EN", &copy, Usage::ReadWrite),
        Some(Err(PatchError::SelfDerived))
    );
    assert_eq!(
        reg.try_process_field_enum("P", "DIS", &copy, Usage::Read),
        Some(Err(PatchError::UsageMismatch { usage: Usage::Read, found: Usage::ReadWrite }))
    );
}

#[test]
fn values_that_cannot_be_copied() {
    let copy = map(vec![("_derivedFrom", string("EN"))]);
    let mut reg = register(vec![field("A", 0, 1)]);
    assert_eq!(
        reg.try_process_field_enum("P", "A", &copy, Usage::ReadWrite),
        Some(Err(PatchError::EnumNotFound { peripheral: "P".to_string(), name: "EN".to_string() }))
    );
    let mut twice = field("B", 1, 1);
    twice.info.enumerated_values = vec![listed("EN", Usage::Read), listed("EN", Usage::Write)];
    let mut reg = register(vec![field("A", 0, 1), twice]);
    assert_eq!(
        reg.try_process_field_enum("P", "A", &copy, Usage::ReadWrite),
        Some(Err(PatchError::EnumAmbiguous { peripheral: "P".to_string(), name: "EN".to_string() }))
    );
    let mut chained = field("B", 1, 1);
    chained.info.enumerated_values = vec![EnumeratedValues {
        name: Some("EN".to_string()),
        usage: None,
        derived_from: Some("OTHER".to_string()),
        values: Vec::new(),
    }];
    let mut reg = register(vec![field("A", 0, 1), chained]);
    assert_eq!(
        reg.try_process_field_enum("P", "A", &copy, Usage::ReadWrite),
        Some(Err(PatchError::MultilevelDerive {
            peripheral: "P".to_string(),
            name: "EN".to_string(),
        }))
    );
}

#[test]
fn values_to_copy_in_register_without_fields_have_no_answer() {
    let copy = map(vec![("_derivedFrom", string("EN"))]);
    let mut reg = bare();
    assert_eq!(reg.try_process_field_enum("P", "A", &copy, Usage::ReadWrite), None);
    assert_eq!(reg.try_process_field("P", "A", &Yaml::Hash(copy)), None);
    assert_eq!(reg, bare());
}

#[test]
fn values_are_read_in_the_order_of_their_numbers() {
    let values = map(vec![
        ("C", value(7, "seven")),
        ("_x", Yaml::Null),
        ("A", value(-1, "minus one")),
        ("B", value(0, "")),
    ]);
    let read = make_ev_array(&values).unwrap();
    assert_eq!(
        read,
        vec![
            named("A", u64::MAX, "minus one"),
            EnumeratedValue {
                name: "B".to_string(),
                description: None,
                value: Some(0),
                is_default: None,
            },
            named("C", 7, "seven"),
        ]
    );
}

#[test]
fn values_that_cannot_be_read() {
    let refused = |entries: Vec<(&str, Yaml)>| make_ev_array(&map(entries)).unwrap_err();
    assert_eq!(
        refused(vec![("A", value(1, "a")), ("B", value(1, "b"))]),
        PatchError::DuplicateValue { name: "B".to_string(), value: 1 }
    );
    assert_eq!(
        refused(vec![("1A", value(1, "a"))]),
        PatchError::ValueNameDigit { name: "1A".to_string() }
    );
    assert_eq!(
        refused(vec![("A", Yaml::Array(vec![]))]),
        PatchError::IncompleteValue { name: "A".to_string() }
    );
    assert_eq!(
        refused(vec![("A", Yaml::Array(vec![Yaml::Integer(1)]))]),
        PatchError::IncompleteValue { name: "A".to_string() }
    );
    assert_eq!(refused(vec![("A", Yaml::Integer(1))]), PatchError::NotArray);
    assert_eq!(
        refused(vec![("A", Yaml::Array(vec![string("1"), string("a")]))]),
        PatchError::NotInteger
    );
    assert_eq!(
        refused(vec![("A", Yaml::Array(vec![Yaml::Integer(1), Yaml::Null]))]),
        PatchError::NotString
    );
    let keys = Mapping { entries: vec![(Yaml::Integer(1), value(1, "a"))] };
    assert_eq!(make_ev_array(&keys).unwrap_err(), PatchError::NotString);
}

#[test]
fn no_values_at_all() {
    let mut reg = register(vec![field("EN", 0, 1)]);
    assert_eq!(
        reg.try_process_field_enum("P", "EN", &map(vec![]), Usage::ReadWrite),
        Some(Err(PatchError::NoValues))
    );
    assert!(enums(&reg, 0).is_empty());
}

#[test]
fn names_of_values() {
    assert_eq!(make_ev_name("EN", Usage::Read), Ok("ENR".to_string()));
    assert_eq!(make_ev_name("EN", Usage::Write), Ok("ENW".to_string()));
    assert_eq!(make_ev_name("EN", Usage::ReadWrite), Ok("EN".to_string()));
    assert_eq!(
        make_ev_name("1EN", Usage::Read),
        Err(PatchError::EnumNameDigit { name: "1EN".to_string() })
    );
    let mut reg = register(vec![field("1EN", 0, 1)]);
    assert!(matches!(
        reg.try_process_field_enum("P", "*", &on_off(), Usage::Read),
        Some(Err(PatchError::EnumNameDigit { .. }))
    ));
}

#[test]
fn sources_of_the_wrong_kind() {
    let mut reg = register(vec![field("EN", 0, 1)]);
    let replace = map(vec![("_replace_enum", Yaml::Integer(1))]);
    assert_eq!(
        reg.try_process_field_enum("P", "EN", &replace, Usage::Read),
        Some(Err(PatchError::NotHash))
    );
    let copy = map(vec![("_derivedFrom", Yaml::Integer(1))]);
    assert_eq!(
        reg.try_process_field_enum("P", "EN", &copy, Usage::Read),
        Some(Err(PatchError::NotString))
    );
    let read = map(vec![("_read", Yaml::Integer(1))]);
    assert_eq!(
        reg.try_process_field("P", "EN", &Yaml::Hash(read)),
        Some(Err(PatchError::NotHash))
    );
}

#[test]
fn process_field_as_range_or_not_at_all() {
    let mut reg = register(vec![field("EN", 0, 4)]);
    let range = Yaml::Array(vec![Yaml::Integer(1), Yaml::Integer(9)]);
    assert_eq!(reg.try_process_field("P", "EN", &range), Some(Ok(())));
    assert_eq!(
        reg.info.fields.as_ref().unwrap()[0].info.write_constraint,
        Some(WriteConstraint::Range(WriteConstraintRange { min: 1, max: 9 }))
    );
    let before = reg.clone();
    assert_eq!(reg.try_process_field("P", "EN", &Yaml::Array(vec![])), Some(Ok(())));
    assert_eq!(reg.try_process_field("P", "EN", &string("x")), Some(Ok(())));
    assert_eq!(reg, before);
}

#[test]
fn failed_reads_keep_writes_away() {
    let mut reg = register(vec![field("EN", 0, 1)]);
    let both = map(vec![
        ("_read", Yaml::Hash(map(vec![]))),
        ("_write", Yaml::Hash(on_off())),
    ]);
    assert_eq!(
        reg.try_process_field("P", "EN", &Yaml::Hash(both)),
        Some(Err(PatchError::During {
            step: Step::AddingValues(Usage::Read),
            error: Box::new(PatchError::NoValues),
        }))
    );
    assert!(enums(&reg, 0).is_empty());
}

#[test]
fn specifications() {
    assert!(matchname("CH1EN", "CH?EN"));
    assert!(!matchname("CH10EN", "CH?EN"));
    assert!(matchname("B", "A,B"));
    assert!(!matchname("A,B", "A,B"));
    assert!(!matchname("_A", "_A"));
    assert!(matchname("_A", "?A"));
    assert!(!matchname("a", "A"));
    assert!(!matchname("A", ""));
    assert!(matchname("", ""));
}

#[test]
fn specifications_around_their_token() {
    let affixes = |s: &str| spec_affixes(s);
    assert_eq!(affixes("CH*EN"), ("CH".to_string(), "EN".to_string()));
    assert_eq!(affixes("CH??EN"), ("CH".to_string(), "EN".to_string()));
    assert_eq!(affixes("CH[0-9]EN"), ("CH".to_string(), "EN".to_string()));
    assert_eq!(affixes("CH?*EN"), ("CH?".to_string(), "EN".to_string()));
    assert_eq!(affixes("CHEN"), ("CHEN".to_string(), "".to_string()));
}

#[test]
fn parts_of_a_field() {
    let parts = make_field(&map(vec![
        ("bitOffset", Yaml::Integer(0x1_0000_0003)),
        ("bitWidth", Yaml::Integer(2)),
        ("name", string("A")),
    ]))
    .unwrap();
    assert_eq!(parts.bit_offset, Some(3));
    assert_eq!(parts.bit_width, Some(2));
    assert_eq!(parts.name, Some("A".to_string()));
    assert_eq!(parts.description, None);
    let f = parts.build("B".to_string()).unwrap();
    assert_eq!(f.name, "B");
    assert_eq!(f.bit_range, BitRange::from_offset_width(3, 2));
}

#[test]
fn words_for_accesses_and_effects() {
    let part = |key: &str, word: &str| make_field(&map(vec![(key, string(word))])).unwrap();
    let accesses = vec![
        ("read-only", Some(Access::ReadOnly)),
        ("read-write", Some(Access::ReadWrite)),
        ("read-writeOnce", Some(Access::ReadWriteOnce)),
        ("write-only", Some(Access::WriteOnly)),
        ("writeOnce", Some(Access::WriteOnce)),
        ("Read-only", None),
        ("", None),
    ];
    for (word, expected) in accesses {
        assert_eq!(part("access", word).access, expected);
    }
    let writes = vec![
        ("oneToClear", Some(ModifiedWriteValues::OneToClear)),
        ("oneToSet", Some(ModifiedWriteValues::OneToSet)),
        ("oneToToggle", Some(ModifiedWriteValues::OneToToggle)),
        ("zeroToClear", Some(ModifiedWriteValues::ZeroToClear)),
        ("zeroToSet", Some(ModifiedWriteValues::ZeroToSet)),
        ("zeroToToggle", Some(ModifiedWriteValues::ZeroToToggle)),
        ("clear", Some(ModifiedWriteValues::Clear)),
        ("set", Some(ModifiedWriteValues::SetAll)),
        ("modify", Some(ModifiedWriteValues::Modify)),
        ("modifyExternal", None),
    ];
    for (word, expected) in writes {
        assert_eq!(part("modifiedWriteValues", word).modified_write_values, expected);
    }
    let reads = vec![
        ("clear", Some(ReadAction::Clear)),
        ("set", Some(ReadAction::SetAll)),
        ("modify", Some(ReadAction::Modify)),
        ("modifyExternal", Some(ReadAction::ModifyExternal)),
        ("oneToClear", None),
    ];
    for (word, expected) in reads {
        assert_eq!(part("readAction", word).read_action, expected);
    }
}
