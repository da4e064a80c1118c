//! Operations on the fields of given names, and specifications without special characters.

use svdpatch::collect::collect_named;
use svdpatch::edit::{clear_named, cut_ends, cut_starts, delete_named, modify_named, range_named};
use svdpatch::enums::{enumerate_named, process_field_named};
use svdpatch::error::PatchError;
use svdpatch::matching::matchname;
use svdpatch::merge::merge_named;
use svdpatch::register::RegisterExt;
use svdpatch::split::split_all_named;
use svdpatch::svd::{
    BitRange, Field, FieldInfo, Register, RegisterInfo, Usage, WriteConstraint,
    WriteConstraintRange,
};
use svdpatch::yaml::{Mapping, Yaml};

fn string(s: &str) -> Yaml {
    Yaml::String(s.to_string())
}

fn map(entries: Vec<(&str, Yaml)>) -> Mapping {
    Mapping { entries: entries.into_iter().map(|(k, v)| (string(k), v)).collect() }
}

fn list(names: Vec<&str>) -> Vec<String> {
    names.into_iter().map(|n| n.to_string()).collect()
}

fn field(name: &str, offset: u32, width: u32) -> Field {
    FieldInfo {
        name: name.to_string(),
        description: None,
        bit_range: BitRange::from_offset_width(offset, width),
        access: None,
        modified_write_values: None,
        write_constraint: None,
        read_action: None,
        enumerated_values: Vec::new(),
        derived_from: None,
    }
    .single()
}

fn register(fields: Vec<Field>) -> Register {
    Register { info: RegisterInfo { name: "CR".to_string(), fields: Some(fields) }, dim: None }
}

fn fields(reg: &Register) -> &Vec<Field> {
    reg.info.fields.as_ref().unwrap()
}

fn names(reg: &Register) -> Vec<&str> {
    fields(reg).iter().map(|f| f.info.name.as_str()).collect()
}

#[test]
fn plain_specifications() {
    for name in ["A", "EN", "a-b", "X]", "!x", "\u{e9}t\u{e9}", "A B", "a.b", "a/b", "..", "x/..", "."] {
        assert!(matchname(name, name));
        assert!(!matchname(name, "EN2"));
        assert!(matchname(&format!("{}_1", name), &format!("{}*", name)));
        assert!(matchname(name, &format!("{}*", name)));
        assert!(!matchname(&format!("_{}", name), &format!("{}*", name)));
        assert!(matchname(&format!("1_{}", name), &format!("*{}", name)));
        assert!(matchname(name, &format!("*{}", name)));
        assert!(!matchname(&format!("{}_", name), &format!("*{}", name)));
    }
    assert!(matchname("", "*"));
    assert!(matchname("a/b.c\n", "*"));
    assert!(matchname("a.b/c", "a*"));
    assert!(matchname("a.b/c", "*c"));
}

#[test]
fn star_inside_a_specification() {
    assert!(matchname("CH1EN", "CH*EN"));
    assert!(matchname("CHEN", "CH*EN"));
    assert!(!matchname("CHN", "CH*HN"));
    assert!(!matchname("CH1", "CH*EN"));
    assert!(!matchname("XCH1EN", "CH*EN"));
    assert!(matchname("a/..", "a*."));
    assert!(matchname("..", "*."));
    assert!(matchname("\u{e9}\u{e9}", "\u{e9}*\u{e9}"));
    assert!(!matchname("\u{e9}", "\u{e9}*\u{e9}"));
}

#[test]
fn long_specifications() {
    let long = "ab/c".repeat(60);
    assert!(matchname(&long, &long));
    assert!(!matchname(&long[1..], &long));
    assert!(matchname(&format!("{}.x", long), &format!("{}*", long)));
    assert!(!matchname(&format!("x{}", long), &format!("{}*", long)));
    assert!(matchname(&format!("x.{}", long), &format!("*{}", long)));
    assert!(!matchname(&format!("{}x", long), &format!("*{}", long)));
    assert!(matchname(&format!("{}.{}", long, long), &format!("{}?{}", long, long)));
    assert!(!matchname(&long, &format!("{}?", long)));
    assert!(!matchname(&long, &format!("{}[", long)));
    assert!(matchname(&format!("{}/..", "x".repeat(200)), &format!("{}/..", "?".repeat(200))));
    assert!(matchname(&format!("{}.{}.", long, long), &format!("{}*{}.", long, long)));
    assert!(!matchname(&format!("{}{}", long, &long[1..]), &format!("{}*{}", long, long)));
    let mut reg = register(vec![field(&format!("{}EN", long), 0, 1)]);
    assert_eq!(reg.try_strip_start(&long), Some(Ok(())));
    assert_eq!(names(&reg), vec!["EN"]);
    assert!(matches!(
        reg.try_strip_start(&format!("{}{{", long)),
        Some(Err(PatchError::Glob(_)))
    ));
}

#[test]
fn strip_long_suffix_with_full_stops() {
    let long = ".x".repeat(150);
    let mut reg = register(vec![field(&format!("EN{}", long), 0, 1), field("X", 1, 1)]);
    assert_eq!(reg.try_strip_end(&long), Some(Ok(())));
    assert_eq!(names(&reg), vec!["EN", "X"]);
    let stops = ".".repeat(300);
    let mut reg = register(vec![field(&format!(".{}", stops), 0, 1), field("..", 1, 1)]);
    assert_eq!(reg.try_strip_end(&stops), Some(Ok(())));
    assert_eq!(names(&reg), vec![".", ".."]);
}

#[test]
fn specifications_that_are_too_large() {
    let large = "?".repeat(400_000);
    assert!(!matchname(&"x".repeat(400_000), &large));
    let mut reg = register(vec![field("X", 0, 1)]);
    assert!(matches!(reg.try_strip_start(&large), Some(Err(PatchError::Glob(_)))));
    let plain = "x".repeat(400_000);
    assert!(matchname(&plain, &plain));
}

#[test]
fn specifications_that_are_nested_too_deeply() {
    let nested = |n: usize| format!("{}{}", "{".repeat(n), "}".repeat(n));
    assert!(matchname("", &nested(250)));
    for n in [251, 1000, 100_000] {
        assert!(!matchname("", &nested(n)));
        let mut reg = register(vec![field("X", 0, 1)]);
        assert_eq!(
            reg.try_strip_start(&nested(n)),
            Some(Err(PatchError::PatternTooDeep { pattern: format!("{}*", nested(n)) }))
        );
        assert_eq!(names(&reg), vec!["X"]);
    }
    assert!(matchname(&"a".repeat(300), &"{a}".repeat(300)));
    assert!(!matchname("", &"{\\}".repeat(300)));
    let mut reg = register(vec![field("X", 0, 1)]);
    let ever_deeper = "{\\}".repeat(100_000);
    assert!(matches!(
        reg.try_strip_end(&ever_deeper),
        Some(Err(PatchError::PatternTooDeep { .. }))
    ));
    let nested = format!("{}{}", "{a".repeat(240), "}".repeat(240));
    assert!(!matchname("X", &nested));
}

#[test]
fn deeply_nested_specifications() {
    let nested = format!("{}{}", "{".repeat(100), "}".repeat(100));
    assert!(matchname("", &nested));
    assert!(!matchname("{", &nested));
    let nested = format!("{}{}", "{a".repeat(66), "}".repeat(66));
    assert!(matchname(&"a".repeat(66), &nested));
    assert!(!matchname(&"a".repeat(65), &nested));
    let mut reg = register(vec![field("X", 0, 1)]);
    let nested = format!("{}{}", "{a".repeat(39), ",b}".repeat(39));
    assert_eq!(reg.try_strip_start(&nested), Some(Ok(())));
    assert_eq!(names(&reg), vec!["X"]);
}

#[test]
fn delete_by_plain_name() {
    let mut reg = register(vec![field("A", 0, 1), field("AB", 1, 1), field("A", 2, 1)]);
    assert_eq!(reg.delete_field("A"), Ok(()));
    assert_eq!(fields(&reg), &vec![field("AB", 1, 1)]);
}

#[test]
fn strip_plain_substrings() {
    let mut reg = register(vec![field("\u{e9}_EN", 0, 1), field("EN_\u{e9}", 1, 1)]);
    assert_eq!(reg.try_strip_start("\u{e9}_"), Some(Ok(())));
    assert_eq!(names(&reg), vec!["EN", "EN_\u{e9}"]);
    assert_eq!(reg.try_strip_end("_\u{e9}"), Some(Ok(())));
    assert_eq!(names(&reg), vec!["EN", "EN"]);
    assert_eq!(reg.try_strip_start(""), Some(Ok(())));
    assert_eq!(reg.try_strip_end(""), Some(Ok(())));
    assert_eq!(names(&reg), vec!["EN", "EN"]);
}

#[test]
fn strip_full_stops_and_slashes() {
    let mut reg = register(vec![field("..", 0, 1), field("a/b.", 1, 1), field("a/", 2, 1)]);
    assert_eq!(reg.try_strip_end("."), Some(Ok(())));
    assert_eq!(names(&reg), vec![".", "a/b", "a/"]);
    assert_eq!(reg.try_strip_start("a/"), Some(Ok(())));
    assert_eq!(names(&reg), vec![".", "b", ""]);
}

#[test]
fn strip_substring_with_comma() {
    let mut reg = register(vec![field("A,B", 0, 1), field("A", 1, 1)]);
    assert_eq!(reg.try_strip_start("A,"), Some(Ok(())));
    assert_eq!(names(&reg), vec!["B", "A"]);
}

#[test]
fn delete_and_clear_by_list_of_names() {
    let mut reg = register(vec![field("A", 0, 1), field("B", 1, 1), field("C", 2, 1)]);
    delete_named(&mut reg, &list(vec!["C", "A", "X"]));
    assert_eq!(names(&reg), vec!["B"]);
    let constraint = WriteConstraint::UseEnumeratedValues(true);
    reg.info.fields.as_mut().unwrap()[0].info.write_constraint = Some(constraint);
    clear_named(&mut reg, &list(vec!["A"]));
    assert_eq!(fields(&reg)[0].info.write_constraint, Some(constraint));
    clear_named(&mut reg, &list(vec!["B"]));
    assert_eq!(fields(&reg)[0].info.write_constraint, None);
}

#[test]
fn cut_names() {
    let mut reg = register(vec![field("XXA", 0, 1), field("XXB", 1, 1)]);
    cut_starts(&mut reg, &list(vec!["XXB"]), "YY");
    assert_eq!(names(&reg), vec!["XXA", "B"]);
    cut_ends(&mut reg, &list(vec!["XXA", "C"]), "Z");
    assert_eq!(names(&reg), vec!["XX", "B"]);
}

#[test]
fn modify_and_range_by_names() {
    let mut reg = register(vec![field("A", 0, 4), field("B", 4, 4)]);
    let change = map(vec![("description", string("b"))]);
    assert_eq!(modify_named(&mut reg, &list(vec!["B"]), &change), Ok(()));
    assert_eq!(fields(&reg)[0].info.description, None);
    assert_eq!(fields(&reg)[1].info.description, Some("b".to_string()));
    let parts = vec![Yaml::Integer(1), Yaml::Integer(2)];
    assert_eq!(range_named(&mut reg, &list(vec!["A"]), "P", "s", &parts), Ok(()));
    assert_eq!(
        fields(&reg)[0].info.write_constraint,
        Some(WriteConstraint::Range(WriteConstraintRange { min: 1, max: 2 }))
    );
    assert_eq!(
        range_named(&mut reg, &list(vec![]), "P", "s", &parts),
        Err(PatchError::FieldNotFound {
            peripheral: "P".to_string(),
            register: "CR".to_string(),
            spec: "s".to_string(),
        })
    );
}

#[test]
fn merge_and_split_by_names() {
    let mut reg = register(vec![field("HI", 4, 4), field("X", 8, 1), field("LO", 0, 4)]);
    assert_eq!(merge_named(&mut reg, "ALL", &list(vec!["LO", "HI"])), Ok(()));
    assert_eq!(fields(&reg), &vec![field("X", 8, 1), field("ALL", 0, 8)]);
    assert_eq!(split_all_named(&mut reg, &list(vec!["X"]), "s", &map(vec![])), Ok(()));
    assert_eq!(names(&reg), vec!["ALL", "X0"]);
    assert_eq!(
        split_all_named(&mut reg, &list(vec!["X"]), "s", &map(vec![])),
        Err(PatchError::NothingToSplit { register: "CR".to_string(), spec: "s".to_string() })
    );
    let mut reg = register(vec![field("B", 4, 2), field("C", 9, 1), field("A", 0, 2)]);
    assert_eq!(split_all_named(&mut reg, &list(vec!["A", "B"]), "s", &map(vec![])), Ok(()));
    assert_eq!(names(&reg), vec!["C", "B0", "B1", "A0", "A1"]);
}

#[test]
fn collect_by_names() {
    let mut reg = register(vec![field("C2", 2, 1), field("C1", 1, 1), field("C3", 3, 1)]);
    assert_eq!(collect_named(&mut reg, &list(vec!["C1", "C2"]), "C*", &map(vec![])), Ok(()));
    assert_eq!(names(&reg), vec!["C%s", "C3"]);
    let dim = fields(&reg)[0].dim.as_ref().unwrap();
    assert_eq!((dim.dim, dim.dim_increment), (2, 1));
    assert_eq!(dim.dim_index, Some(list(vec!["1", "2"])));
}

#[test]
fn values_by_names() {
    let mut reg = register(vec![field("A", 1, 1), field("B", 0, 1), field("C", 2, 1)]);
    let values = map(vec![("On", Yaml::Array(vec![Yaml::Integer(1), string("on")]))]);
    assert_eq!(
        enumerate_named(&mut reg, &list(vec!["A", "B"]), "P", "s", &values, Usage::ReadWrite),
        Ok(())
    );
    assert_eq!(
        fields(&reg)[0].info.enumerated_values[0].derived_from,
        Some("B".to_string())
    );
    assert_eq!(fields(&reg)[1].info.enumerated_values[0].name, Some("B".to_string()));
    assert!(fields(&reg)[2].info.enumerated_values.is_empty());
    let both = Yaml::Hash(map(vec![("_read", Yaml::Hash(values))]));
    assert_eq!(process_field_named(&mut reg, &list(vec!["C"]), "P", "s", &both), Ok(()));
    assert_eq!(fields(&reg)[2].info.enumerated_values[0].name, Some("CR".to_string()));
}
