//! Merging, splitting and collecting fields.

use svdpatch::error::PatchError;
use svdpatch::register::{RegisterExt, RegisterInfoExt};
use svdpatch::svd::{BitRange, DimElement, Field, FieldInfo, Register, RegisterInfo};
use svdpatch::yaml::{Mapping, Yaml};

fn string(s: &str) -> Yaml {
    Yaml::String(s.to_string())
}

fn map(entries: Vec<(&str, Yaml)>) -> Mapping {
    Mapping { entries: entries.into_iter().map(|(k, v)| (string(k), v)).collect() }
}

fn described(name: &str, description: Option<&str>, offset: u32, width: u32) -> Field {
    FieldInfo {
        name: name.to_string(),
        description: description.map(|d| d.to_string()),
        bit_range: BitRange::from_offset_width(offset, width),
        access: None,
        modified_write_values: None,
        write_constraint: None,
        read_action: None,
        enumerated_values: Vec::new(),
        derived_from: None,
    }
    .single()
}

fn field(name: &str, offset: u32, width: u32) -> Field {
    described(name, Some(name), offset, width)
}

fn register(fields: Vec<Field>) -> Register {
    Register { info: RegisterInfo { name: "CR".to_string(), fields: Some(fields) }, dim: None }
}

fn bare() -> Register {
    Register { info: RegisterInfo { name: "CR".to_string(), fields: None }, dim: None }
}

fn fields(reg: &Register) -> &Vec<Field> {
    reg.info.fields.as_ref().unwrap()
}

fn names(reg: &Register) -> Vec<&str> {
    fields(reg).iter().map(|f| f.info.name.as_str()).collect()
}

#[test]
fn merge_by_common_start() {
    let mut reg = register(vec![
        field("DATA_1", 4, 4),
        field("X", 16, 1),
        field("DATA_0", 0, 4),
    ]);
    let mask = reg.info.get_bitmask();
    assert_eq!(reg.try_merge_fields("DATA_*", None), Some(Ok(())));
    assert_eq!(fields(&reg), &vec![field("X", 16, 1), described("DATA_", Some("DATA_1"), 0, 8)]);
    assert_eq!(reg.info.get_bitmask(), mask);
}

#[test]
fn merge_of_one_field_keeps_its_name() {
    let mut reg = register(vec![field("DATA", 4, 4)]);
    assert_eq!(reg.try_merge_fields("DATA", None), Some(Ok(())));
    assert_eq!(fields(&reg), &vec![field("DATA", 4, 4)]);
}

#[test]
fn merge_without_common_start_has_no_name() {
    let mut reg = register(vec![field("A", 0, 1), field("B", 1, 1)]);
    assert_eq!(reg.try_merge_fields("*", None), Some(Ok(())));
    assert_eq!(fields(&reg), &vec![described("", Some("A"), 0, 2)]);
}

#[test]
fn merge_under_a_name() {
    let mut reg = register(vec![field("LO", 0, 4), field("HI", 8, 4), field("X", 16, 1)]);
    assert_eq!(reg.try_merge_fields("ALL", Some(&string("LO,HI"))), Some(Ok(())));
    assert_eq!(fields(&reg), &vec![field("X", 16, 1), described("ALL", Some("LO"), 0, 8)]);
}

#[test]
fn merge_of_a_list() {
    let mut reg = register(vec![field("HI", 8, 4), field("LO", 0, 4), field("X", 16, 1)]);
    let list = Yaml::Array(vec![string("LO"), string("HI")]);
    assert_eq!(reg.try_merge_fields("ALL", Some(&list)), Some(Ok(())));
    assert_eq!(fields(&reg), &vec![field("X", 16, 1), described("ALL", Some("HI"), 0, 8)]);
}

#[test]
fn merge_is_refused_with_nothing_changed() {
    let mut reg = register(vec![field("A", 0, 1)]);
    let before = reg.clone();
    let nothing = Some(Err(PatchError::NothingToMerge {
        register: "CR".to_string(),
        key: "B*".to_string(),
    }));
    assert_eq!(reg.try_merge_fields("B*", None), nothing);
    assert_eq!(reg.try_merge_fields("B*", Some(&string("C"))), nothing);
    assert_eq!(
        reg.try_merge_fields("B", Some(&Yaml::Integer(1))),
        Some(Err(PatchError::InvalidMerge { register: "CR".to_string(), key: "B".to_string() }))
    );
    let list = Yaml::Array(vec![string("A"), Yaml::Integer(1)]);
    assert_eq!(reg.try_merge_fields("B", Some(&list)), Some(Err(PatchError::NotString)));
    assert_eq!(reg, before);
    let mut none = bare();
    assert!(matches!(none.try_merge_fields("*", None), Some(Err(PatchError::NothingToMerge { .. }))));
    assert_eq!(none, bare());
}

#[test]
fn merge_of_fields_without_width_drops_them() {
    let mut reg = register(vec![field("A", 0, 0), field("B", 1, 1)]);
    assert!(matches!(reg.try_merge_fields("A", None), Some(Err(PatchError::Svd(_)))));
    assert_eq!(names(&reg), vec!["B"]);
}

#[test]
fn merge_that_is_too_wide_has_no_answer() {
    let mut reg = register(vec![field("A1", 0, u32::MAX), field("A2", 1, 1)]);
    let before = reg.clone();
    assert_eq!(reg.try_merge_fields("A*", None), None);
    assert_eq!(reg, before);
}

#[test]
fn merge_whose_start_is_no_text_has_no_answer() {
    let mut reg = register(vec![field("\u{e9}", 0, 1), field("\u{e8}", 1, 1)]);
    let before = reg.clone();
    assert_eq!(reg.try_merge_fields("*", None), None);
    assert_eq!(reg, before);
    assert_eq!(reg.try_merge_fields("E", Some(&string("*"))), Some(Ok(())));
    assert_eq!(names(&reg), vec!["E"]);
}

#[test]
fn merge_takes_shorter_name_as_start() {
    let mut reg = register(vec![field("DATA10", 1, 1), field("DATA1", 0, 1), field("DATA12", 2, 1)]);
    assert_eq!(reg.try_merge_fields("DATA*", None), Some(Ok(())));
    assert_eq!(names(&reg), vec!["DATA1"]);
}

#[test]
fn split_into_bits() {
    let mut reg = register(vec![field("MODE", 3, 3), field("X", 16, 1)]);
    let mask = reg.info.get_bitmask();
    assert_eq!(reg.try_split_fields("MODE", &map(vec![])), Some(Ok(())));
    assert_eq!(
        fields(&reg),
        &vec![
            field("X", 16, 1),
            described("MODE0", Some("MODE"), 3, 1),
            described("MODE1", Some("MODE"), 4, 1),
            described("MODE2", Some("MODE"), 5, 1),
        ]
    );
    assert_eq!(reg.info.get_bitmask(), mask);
    assert_eq!(reg.try_merge_fields("MODE", Some(&string("MODE?"))), Some(Ok(())));
    assert_eq!(fields(&reg), &vec![field("X", 16, 1), field("MODE", 3, 3)]);
}

#[test]
fn merge_of_bits_undoes_split() {
    let before = vec![field("A", 16, 1), described("MODE", Some("Mode 0"), 3, 3), field("MODEX", 20, 2)];
    let mut reg = register(before);
    assert_eq!(reg.try_split_fields("MODE", &map(vec![])), Some(Ok(())));
    let bits = Yaml::Array(vec![string("MODE0"), string("MODE1"), string("MODE2")]);
    assert_eq!(reg.try_merge_fields("MODE", Some(&bits)), Some(Ok(())));
    assert_eq!(
        fields(&reg),
        &vec![field("A", 16, 1), field("MODEX", 20, 2), described("MODE", Some("Mode 0"), 3, 3)]
    );
    let mut reg = register(vec![described("E", Some(""), 0, 1)]);
    assert_eq!(reg.try_split_fields("E", &map(vec![])), Some(Ok(())));
    assert_eq!(reg.try_merge_fields("E", Some(&Yaml::Array(vec![string("E0")]))), Some(Ok(())));
    assert_eq!(fields(&reg), &vec![described("E", None, 0, 1)]);
}

#[test]
fn array_keeps_names() {
    for (spec, parts) in [
        ("CH*EN", vec!["CH1EN", "CH22EN", "CHEN"]),
        ("*_\u{e9}", vec!["A_\u{e9}", "\u{e9}_\u{e9}"]),
        ("IN.*", vec!["IN.x", "IN./"]),
    ] {
        let list = parts.iter().enumerate().map(|(i, n)| field(n, 4 * i as u32, 2)).collect();
        let mut reg = register(list);
        assert_eq!(reg.try_collect_fields_in_array(spec, &map(vec![])), Some(Ok(())));
        let array = &fields(&reg)[0];
        let indexes = array.dim.as_ref().unwrap().dim_index.as_ref().unwrap();
        let back: Vec<String> = indexes.iter().map(|i| array.info.name.replace("%s", i)).collect();
        assert_eq!(back, parts);
    }
}

#[test]
fn split_of_all_fields_picked_out() {
    let mut reg = register(vec![field("A0", 0, 2), field("X", 8, 1), field("A1", 2, 2)]);
    let mask = reg.info.get_bitmask();
    assert_eq!(reg.try_split_fields("A*", &map(vec![])), Some(Ok(())));
    assert_eq!(
        fields(&reg),
        &vec![
            field("X", 8, 1),
            described("A00", Some("A0"), 0, 1),
            described("A01", Some("A0"), 1, 1),
            described("A10", Some("A1"), 2, 1),
            described("A11", Some("A1"), 3, 1),
        ]
    );
    assert_eq!(reg.info.get_bitmask(), mask);
}

#[test]
fn split_with_name_and_description() {
    let mut reg = register(vec![field("MODE", 0, 2)]);
    let texts = map(vec![("name", string("M%s_%s")), ("description", string("Bit %s"))]);
    assert_eq!(reg.try_split_fields("M*", &texts), Some(Ok(())));
    assert_eq!(
        fields(&reg),
        &vec![
            described("M0_0", Some("Bit 0"), 0, 1),
            described("M1_1", Some("Bit 1"), 1, 1),
        ]
    );
}

#[test]
fn split_of_wide_field_numbers_in_decimal() {
    let mut reg = register(vec![described("D", None, 0, 12)]);
    assert_eq!(reg.try_split_fields("D", &map(vec![])), Some(Ok(())));
    assert_eq!(fields(&reg).len(), 12);
    assert_eq!(fields(&reg)[11], described("D11", None, 11, 1));
}

#[test]
fn split_of_field_without_width_drops_it() {
    let mut reg = register(vec![field("A", 0, 0)]);
    assert_eq!(reg.try_split_fields("A", &map(vec![])), Some(Ok(())));
    assert!(fields(&reg).is_empty());
}

#[test]
fn split_is_refused() {
    let mut reg = register(vec![field("A1", 0, 2), field("A2", 2, 2)]);
    let before = reg.clone();
    assert_eq!(
        reg.try_split_fields("B", &map(vec![])),
        Some(Err(PatchError::NothingToSplit { register: "CR".to_string(), spec: "B".to_string() }))
    );
    assert_eq!(
        reg.try_split_fields("A1", &map(vec![("name", Yaml::Integer(1))])),
        Some(Err(PatchError::NotString))
    );
    assert_eq!(
        reg.try_split_fields("A*", &map(vec![("description", Yaml::Null)])),
        Some(Err(PatchError::NotString))
    );
    assert_eq!(reg, before);
    assert!(matches!(
        bare().try_split_fields("A", &map(vec![])),
        Some(Err(PatchError::NothingToSplit { .. }))
    ));
}

#[test]
fn split_beyond_the_last_bit_has_no_answer() {
    let mut reg = register(vec![field("A", u32::MAX, 2)]);
    assert_eq!(reg.try_split_fields("A", &map(vec![])), None);
    assert_eq!(fields(&reg), &vec![field("A", u32::MAX, 2)]);
    let mut both = register(vec![field("A", 0, 2), field("AB", u32::MAX, 2)]);
    assert_eq!(both.try_split_fields("A*", &map(vec![])), None);
    assert_eq!(names(&both), vec!["A", "AB"]);
    let mut last = register(vec![field("A", u32::MAX, 1)]);
    assert_eq!(last.try_split_fields("A", &map(vec![])), Some(Ok(())));
    assert_eq!(names(&last), vec!["A0"]);
}

fn dim(dim: u32, dim_increment: u32, indexes: Vec<&str>) -> Option<DimElement> {
    Some(DimElement {
        dim,
        dim_increment,
        dim_index: Some(indexes.into_iter().map(|s| s.to_string()).collect()),
        dim_name: None,
        dim_array_index: None,
    })
}

#[test]
fn collect_into_array() {
    let mut reg = register(vec![
        field("X", 16, 1),
        field("CH2EN", 4, 1),
        field("CH1EN", 2, 1),
        field("Y", 17, 1),
        field("CH3EN", 6, 1),
    ]);
    assert_eq!(reg.try_collect_fields_in_array("CH*EN", &map(vec![])), Some(Ok(())));
    assert_eq!(names(&reg), vec!["X", "CH%sEN", "Y"]);
    let array = &fields(&reg)[1];
    assert_eq!(array.info.bit_range, BitRange::from_offset_width(2, 1));
    assert_eq!(array.info.description, Some("CH1EN".to_string()));
    assert_eq!(array.dim, dim(3, 2, vec!["1", "2", "3"]));
    let once = reg.clone();
    assert_eq!(
        reg.try_collect_fields_in_array("CH*EN", &map(vec![])),
        Some(Err(PatchError::NothingToCollect {
            register: "CR".to_string(),
            spec: "CH*EN".to_string(),
        }))
    );
    assert_eq!(reg, once);
}

#[test]
fn collect_with_name_and_numbers() {
    let mut reg = register(vec![
        described("CHA", Some("Channel A 0"), 0, 1),
        described("CHB", Some("Channel B"), 1, 1),
    ]);
    let change = map(vec![("name", string("C%s")), ("_start_from_zero", Yaml::Boolean(true))]);
    assert_eq!(reg.try_collect_fields_in_array("CH?", &change), Some(Ok(())));
    assert_eq!(names(&reg), vec!["C%s"]);
    assert_eq!(fields(&reg)[0].dim, dim(2, 1, vec!["0", "1"]));
    assert_eq!(fields(&reg)[0].info.description, Some("Channel A %s".to_string()));
}

#[test]
fn collect_replaces_zeros_in_the_description() {
    let make = || register(vec![
        described("CH0", Some("Channel 0 of 10"), 0, 1),
        described("CH1", Some("Channel 1 of 10"), 1, 1),
    ]);
    let mut reg = make();
    assert_eq!(reg.try_collect_fields_in_array("CH[01]", &map(vec![])), Some(Ok(())));
    assert_eq!(fields(&reg)[0].info.name, "CH%s");
    assert_eq!(fields(&reg)[0].info.description, Some("Channel %s of 1%s".to_string()));
    assert_eq!(fields(&reg)[0].dim, dim(2, 1, vec!["0", "1"]));
    let mut reg = make();
    let original = map(vec![("description", string("_original"))]);
    assert_eq!(reg.try_collect_fields_in_array("CH*", &original), Some(Ok(())));
    assert_eq!(fields(&reg)[0].info.description, Some("Channel 0 of 10".to_string()));
    let mut reg = make();
    let other = map(vec![("description", string("Channels"))]);
    assert_eq!(reg.try_collect_fields_in_array("CH*", &other), Some(Ok(())));
    assert_eq!(fields(&reg)[0].info.description, Some("Channels".to_string()));
}

#[test]
fn collect_one_field() {
    let mut reg = register(vec![field("CH7", 5, 2)]);
    assert_eq!(reg.try_collect_fields_in_array("CH*", &map(vec![])), Some(Ok(())));
    assert_eq!(fields(&reg)[0].dim, dim(1, 0, vec!["7"]));
    assert_eq!(fields(&reg)[0].info.bit_range, BitRange::from_offset_width(5, 2));
}

#[test]
fn collect_uneven_fields_drops_them() {
    let mut reg = register(vec![
        field("CH0", 0, 1),
        field("X", 9, 1),
        field("CH1", 1, 1),
        field("CH2", 3, 1),
    ]);
    assert_eq!(
        reg.try_collect_fields_in_array("CH*", &map(vec![])),
        Some(Err(PatchError::NotCollectable {
            register: "CR".to_string(),
            spec: "CH*".to_string(),
        }))
    );
    assert_eq!(names(&reg), vec!["X"]);
}

#[test]
fn collect_with_name_of_the_wrong_kind() {
    let mut reg = register(vec![field("CH0", 0, 1)]);
    let change = map(vec![("name", Yaml::Integer(0))]);
    assert_eq!(
        reg.try_collect_fields_in_array("CH*", &change),
        Some(Err(PatchError::NotString))
    );
    assert!(fields(&reg).is_empty());
}

#[test]
fn collect_in_register_without_fields() {
    let mut reg = bare();
    assert_eq!(reg.try_collect_fields_in_array("CH*", &map(vec![])), Some(Ok(())));
    assert_eq!(reg, bare());
}

#[test]
fn collect_whose_indexes_cannot_be_cut_has_no_answer() {
    let mut reg = register(vec![field("AB", 0, 1), field("ABC", 1, 1)]);
    let before = reg.clone();
    assert_eq!(reg.try_collect_fields_in_array("[A]B*", &map(vec![])), None);
    assert_eq!(reg, before);
}

#[test]
fn collect_keeps_order_of_equal_offsets() {
    let mut reg = register(vec![field("CH1", 0, 1), field("CH0", 0, 1)]);
    assert_eq!(reg.try_collect_fields_in_array("CH*", &map(vec![])), Some(Ok(())));
    assert_eq!(fields(&reg)[0].dim, dim(2, 0, vec!["1", "0"]));
}
