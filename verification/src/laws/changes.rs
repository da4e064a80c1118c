//! What holds of the parts of fields that are changed, added, cleared or constrained.

use crate::builder::{all_numbers, bounds_of, fits, numbers_of, validity};
use crate::edit::{added, changed, cleared, has_field, modified_fields, ranged};
use crate::error::ErrorView;
use crate::fields::{
    bears, lemma_matched_names, lemma_named_indices, matched_names, named_indices, picks,
    update_named,
};
use crate::laws::edits::{lemma_fields_after, lemma_update_went_well};
use crate::make::{access_named, read_action_named, write_effect_named};
use crate::svd::{
    BitRange, BitRangeType, EnumeratedValueView, EnumeratedValuesView, FieldInfoView, FieldView,
    RegisterView, WriteConstraint, WriteConstraintRange,
};
use crate::yaml::{lookup, lookup_number, lookup_text, Yaml};
use vstd::arithmetic::power2::pow2;
use vstd::prelude::*;

verus! {

/// Whether a field is right: it has a width, and unless it is as wide as a number, each of its
/// values and the bounds of what may be written to it, which are in order, fit into it.
pub open spec fn is_right(f: FieldInfoView) -> bool {
    let width = f.bit_range.width;
    &&& width != 0
    &&& width < 64 ==> {
        &&& forall|k: int, m: int|
            0 <= k < f.enumerated_values.len() && 0 <= m < f.enumerated_values[k].values.len()
                ==> ((#[trigger] f.enumerated_values[k].values[m]).value matches Some(n) ==> n
                < pow2(width as nat))
        &&& f.write_constraint matches Some(WriteConstraint::Range(range)) ==> range.min
            <= range.max && range.max < pow2(width as nat)
    }
}

proof fn lemma_numbers_of(values: Seq<EnumeratedValueView>, n: u64)
    ensures
        numbers_of(values).contains(n) <==> exists|m: int|
            0 <= m < values.len() && (#[trigger] values[m]).value == Some(n),
    decreases values.len(),
{
    if values.len() > 0 {
        let shorter = values.drop_last();
        lemma_numbers_of(shorter, n);
        let before = numbers_of(shorter);
        let all = numbers_of(values);
        assert(forall|m: int| 0 <= m < shorter.len() ==> shorter[m] == #[trigger] values[m]);
        if all.contains(n) {
            let i = choose|i: int| 0 <= i < all.len() && all[i] == n;
            if i < before.len() {
                assert(before[i] == n);
                let m = choose|m: int|
                    0 <= m < shorter.len() && (#[trigger] shorter[m]).value == Some(n);
                assert(values[m].value == Some(n));
            } else {
                assert(values[values.len() - 1].value == Some(n));
            }
        }
        if exists|m: int| 0 <= m < values.len() && (#[trigger] values[m]).value == Some(n) {
            let m = choose|m: int| 0 <= m < values.len() && (#[trigger] values[m]).value == Some(n);
            if m < shorter.len() {
                assert(shorter[m].value == Some(n));
                let i = choose|i: int| 0 <= i < before.len() && before[i] == n;
                assert(all[i] == n);
            } else {
                assert(all[all.len() - 1] == n);
            }
        }
    }
}

proof fn lemma_all_numbers(enums: Seq<EnumeratedValuesView>, n: u64)
    ensures
        all_numbers(enums).contains(n) <==> exists|k: int, m: int|
            0 <= k < enums.len() && 0 <= m < enums[k].values.len() && (
            #[trigger] enums[k].values[m]).value == Some(n),
    decreases enums.len(),
{
    if enums.len() > 0 {
        let shorter = enums.drop_last();
        let last = enums.last();
        lemma_all_numbers(shorter, n);
        lemma_numbers_of(last.values, n);
        let before = all_numbers(shorter);
        let more = numbers_of(last.values);
        let all = all_numbers(enums);
        if all.contains(n) {
            let i = choose|i: int| 0 <= i < all.len() && all[i] == n;
            if i < before.len() {
                assert(before[i] == n);
                let (k, m) = choose|k: int, m: int|
                    0 <= k < shorter.len() && 0 <= m < shorter[k].values.len() && (
                    #[trigger] shorter[k].values[m]).value == Some(n);
                assert(enums[k].values[m].value == Some(n));
            } else {
                assert(more[i - before.len()] == n);
                let m = choose|m: int|
                    0 <= m < last.values.len() && (#[trigger] last.values[m]).value == Some(n);
                assert(enums[enums.len() - 1].values[m].value == Some(n));
            }
        }
        if exists|k: int, m: int|
            0 <= k < enums.len() && 0 <= m < enums[k].values.len() && (
            #[trigger] enums[k].values[m]).value == Some(n) {
            let (k, m) = choose|k: int, m: int|
                0 <= k < enums.len() && 0 <= m < enums[k].values.len() && (
                #[trigger] enums[k].values[m]).value == Some(n);
            if k < shorter.len() {
                assert(shorter[k].values[m].value == Some(n));
                let i = choose|i: int| 0 <= i < before.len() && before[i] == n;
                assert(all[i] == n);
            } else {
                assert(last.values[m].value == Some(n));
                let i = choose|i: int| 0 <= i < more.len() && more[i] == n;
                assert(all[before.len() + i] == n);
            }
        }
    }
}

/// A field is accepted exactly where it is right.
pub proof fn law_right_fields_are_accepted(f: FieldInfoView)
    ensures
        validity(f) is Ok <==> is_right(f),
{
    let numbers = all_numbers(f.enumerated_values);
    let width = f.bit_range.width;
    if width < 64 {
        if is_right(f) {
            assert forall|i: int| 0 <= i < numbers.len() implies #[trigger] numbers[i] < pow2(
                width as nat,
            ) by {
                lemma_all_numbers(f.enumerated_values, numbers[i]);
                assert(numbers.contains(numbers[i]));
            }
        }
        if fits(width, numbers, bounds_of(f.write_constraint)) {
            assert forall|k: int, m: int|
                0 <= k < f.enumerated_values.len() && 0 <= m < f.enumerated_values[k].values.len()
                implies ((#[trigger] f.enumerated_values[k].values[m]).value matches Some(n) ==> n
                < pow2(width as nat)) by {
                if let Some(n) = f.enumerated_values[k].values[m].value {
                    lemma_all_numbers(f.enumerated_values, n);
                    let i = choose|i: int| 0 <= i < numbers.len() && numbers[i] == n;
                    assert(numbers[i] < pow2(width as nat));
                }
            }
        }
    }
}

/// A description that is given, where an empty one counts as none.
pub open spec fn description_given(d: Seq<char>) -> Option<Seq<char>> {
    if d.len() == 0 {
        None
    } else {
        Some(d)
    }
}

/// Whether the string under a key, if there is one, is what a part of a field has become, and the
/// part is as it was if there is none.
pub open spec fn text_taken_over(
    entries: Seq<(Yaml, Yaml)>,
    key: Seq<char>,
    before: Option<Seq<char>>,
    after: Option<Seq<char>>,
) -> bool {
    match lookup_text(entries, key) {
        Ok(Some(s)) => after == Some(s),
        Ok(None) => after == before,
        Err(_) => false,
    }
}

/// Whether the number under a key, if there is one, is what a part of a field has become, and the
/// part is as it was if there is none.
pub open spec fn number_taken_over(
    entries: Seq<(Yaml, Yaml)>,
    key: Seq<char>,
    before: u32,
    after: u32,
) -> bool {
    match lookup_number(entries, key) {
        Ok(Some(n)) => after == n as u32,
        Ok(None) => after == before,
        Err(_) => false,
    }
}

/// What a word under a key stands for, if there is a word and it stands for something.
pub open spec fn word_under<T>(
    entries: Seq<(Yaml, Yaml)>,
    key: Seq<char>,
    meaning: spec_fn(Seq<char>) -> Option<T>,
) -> Option<T> {
    match lookup_text(entries, key) {
        Ok(Some(word)) => meaning(word),
        _ => None,
    }
}

/// A modification that goes well has given each field that is picked out every part that the
/// mapping gives, whatever other parts it gives; parts that are not given are as they were. A
/// field that is to be copied from another has lost what a copy brings along: its values, its
/// write constraint and the effect of writes; the effect of reads is then not touched. The field is
/// right.
pub proof fn law_modify_sets_parts(
    reg: RegisterView,
    spec: Seq<char>,
    entries: Seq<(Yaml, Yaml)>,
    i: int,
)
    requires
        modified_fields(reg, spec, entries).1 is Ok,
        0 <= i < reg.fields().len(),
        picks(reg.fields()[i], spec),
    ensures
        ({
            let before = reg.fields()[i].info;
            let after = modified_fields(reg, spec, entries).0.fields()[i].info;
            let access = word_under(entries, "access"@, |w: Seq<char>| access_named(w));
            let write = word_under(
                entries,
                "modifiedWriteValues"@,
                |w: Seq<char>| write_effect_named(w),
            );
            let read = word_under(entries, "readAction"@, |w: Seq<char>| read_action_named(w));
            let copied = lookup(entries, "derivedFrom"@) is Some;
            &&& modified_fields(reg, spec, entries).0.fields().len() == reg.fields().len()
            &&& modified_fields(reg, spec, entries).0.fields()[i].dim == reg.fields()[i].dim
            &&& text_taken_over(entries, "name"@, Some(before.name), Some(after.name))
            &&& match lookup_text(entries, "description"@) {
                Ok(Some(d)) => after.description == description_given(d),
                Ok(None) => after.description == before.description,
                Err(_) => false,
            }
            &&& text_taken_over(entries, "derivedFrom"@, before.derived_from, after.derived_from)
            &&& number_taken_over(
                entries,
                "bitOffset"@,
                before.bit_range.offset,
                after.bit_range.offset,
            )
            &&& number_taken_over(
                entries,
                "bitWidth"@,
                before.bit_range.width,
                after.bit_range.width,
            )
            &&& after.bit_range.range_type == if lookup(entries, "bitOffset"@) is Some && lookup(
                entries,
                "bitWidth"@,
            ) is Some {
                BitRangeType::OffsetWidth
            } else {
                before.bit_range.range_type
            }
            &&& after.access == if access is Some {
                access
            } else {
                before.access
            }
            &&& after.modified_write_values == if copied {
                None
            } else if write is Some {
                write
            } else {
                before.modified_write_values
            }
            &&& after.read_action == if !copied && read is Some {
                read
            } else {
                before.read_action
            }
            &&& after.enumerated_values == if copied {
                Seq::empty()
            } else {
                before.enumerated_values
            }
            &&& is_right(after)
        }),
{
    let fields = reg.fields();
    let names = matched_names(fields, spec);
    let step = |f: FieldView| changed(f, entries);
    lemma_matched_names(fields, spec);
    crate::laws::edits::lemma_update_length(fields, names, step);
    lemma_update_went_well(fields, names, step, i);
    lemma_fields_after(reg, update_named(fields, names, step).0);
    let after = modified_fields(reg, spec, entries).0.fields()[i].info;
    law_right_fields_are_accepted(after);
}

/// A modification that goes well has given each field that is picked out the write constraint that
/// the mapping asks for: none, one by the enumerated values, or a range between two numbers. The
/// key with the underscore comes first. Without either key the constraint is as it was; in a field
/// that is copied from another there is none.
pub proof fn law_modify_sets_constraint(
    reg: RegisterView,
    spec: Seq<char>,
    entries: Seq<(Yaml, Yaml)>,
    i: int,
)
    requires
        modified_fields(reg, spec, entries).1 is Ok,
        0 <= i < reg.fields().len(),
        picks(reg.fields()[i], spec),
    ensures
        ({
            let before = reg.fields()[i].info;
            let after = modified_fields(reg, spec, entries).0.fields()[i].info;
            let asked = if lookup(entries, "_write_constraint"@) is Some {
                lookup(entries, "_write_constraint"@)
            } else {
                lookup(entries, "writeConstraint"@)
            };
            if lookup(entries, "derivedFrom"@) is Some {
                after.write_constraint is None
            } else {
                match asked {
                    None => after.write_constraint == before.write_constraint,
                    Some(Yaml::String(s)) => {
                        ||| s@ == "none"@ && after.write_constraint is None
                        ||| s@ == "enum"@ && after.write_constraint == Some(
                            WriteConstraint::UseEnumeratedValues(true),
                        )
                    },
                    Some(Yaml::Array(a)) => {
                        a@[0] matches Yaml::Integer(min) && a@[1] matches Yaml::Integer(max)
                            && after.write_constraint == Some(
                            WriteConstraint::Range(
                                WriteConstraintRange { min: min as u64, max: max as u64 },
                            ),
                        )
                    },
                    _ => false,
                }
            }
        }),
{
    let fields = reg.fields();
    let names = matched_names(fields, spec);
    let step = |f: FieldView| changed(f, entries);
    lemma_matched_names(fields, spec);
    crate::laws::edits::lemma_update_length(fields, names, step);
    lemma_update_went_well(fields, names, step, i);
    lemma_fields_after(reg, update_named(fields, names, step).0);
}

/// A modification that asks for no write constraint and no copy goes well where everything that it
/// gives is of the right kind, and each field that is picked out is right with the width that is
/// given, or with its own.
pub proof fn law_modify_goes_well(reg: RegisterView, spec: Seq<char>, entries: Seq<(Yaml, Yaml)>)
    requires
        lookup(entries, "_write_constraint"@) is None,
        lookup(entries, "writeConstraint"@) is None,
        lookup(entries, "derivedFrom"@) is None,
        lookup_text(entries, "name"@) is Ok,
        lookup_text(entries, "description"@) is Ok,
        lookup_text(entries, "access"@) is Ok,
        lookup_text(entries, "modifiedWriteValues"@) is Ok,
        lookup_text(entries, "readAction"@) is Ok,
        lookup_number(entries, "bitOffset"@) is Ok,
        lookup_number(entries, "bitWidth"@) is Ok,
        forall|i: int|
            0 <= i < reg.fields().len() && picks(#[trigger] reg.fields()[i], spec) ==> ({
                let f = reg.fields()[i].info;
                let width = match lookup_number(entries, "bitWidth"@) {
                    Ok(Some(n)) => n as u32,
                    _ => f.bit_range.width,
                };
                is_right(
                    FieldInfoView { bit_range: BitRange { width, ..f.bit_range }, ..f },
                )
            }),
    ensures
        modified_fields(reg, spec, entries).1 is Ok,
{
    let fields = reg.fields();
    let names = matched_names(fields, spec);
    let step = |f: FieldView| changed(f, entries);
    lemma_matched_names(fields, spec);
    assert forall|i: int| 0 <= i < fields.len() && bears(#[trigger] fields[i], names) implies step(
        fields[i],
    ).1 is Ok by {
        assert(picks(fields[i], spec));
        let f = fields[i].info;
        let width = match lookup_number(entries, "bitWidth"@) {
            Ok(Some(n)) => n as u32,
            _ => f.bit_range.width,
        };
        let resized = FieldInfoView { bit_range: BitRange { width, ..f.bit_range }, ..f };
        let done = step(fields[i]).0.info;
        law_right_fields_are_accepted(done);
        assert(is_right(resized));
        assert(done.bit_range.width == width);
        assert(done.enumerated_values == f.enumerated_values);
        assert(done.write_constraint == f.write_constraint);
        assert(is_right(done)) by {
            if width < 64 {
                assert forall|k: int, m: int|
                    0 <= k < done.enumerated_values.len() && 0 <= m
                        < done.enumerated_values[k].values.len() implies ((
                #[trigger] done.enumerated_values[k].values[m]).value matches Some(n) ==> n < pow2(
                    width as nat,
                )) by {
                    assert(done.enumerated_values[k].values[m]
                        == resized.enumerated_values[k].values[m]);
                }
            }
        }
    }
    lemma_update_goes_well(fields, names, step);
}

/// Where each step goes well, all of them together do.
pub(crate) proof fn lemma_update_goes_well(
    fields: Seq<FieldView>,
    names: Seq<Seq<char>>,
    step: spec_fn(FieldView) -> (FieldView, Result<(), ErrorView>),
)
    requires
        forall|i: int|
            0 <= i < fields.len() && bears(#[trigger] fields[i], names) ==> step(fields[i]).1 is Ok,
    ensures
        update_named(fields, names, step).1 is Ok,
    decreases fields.len(),
{
    if fields.len() > 0 {
        let rest = fields.skip(1);
        assert forall|i: int| 0 <= i < rest.len() && bears(#[trigger] rest[i], names) implies step(
            rest[i],
        ).1 is Ok by {
            assert(rest[i] == fields[i + 1]);
        }
        assert(bears(fields[0], names) ==> step(fields[0]).1 is Ok);
        lemma_update_goes_well(rest, names, step);
    }
}

/// A field that is added has every part that the mapping gives, under the name that is given with
/// it, and no other part.
pub proof fn law_add_sets_parts(reg: RegisterView, name: Seq<char>, entries: Seq<(Yaml, Yaml)>)
    requires
        added(reg, name, entries).1 is Ok,
    ensures
        ({
            let f = added(reg, name, entries).0.fields().last().info;
            &&& added(reg, name, entries).0.fields() == reg.fields().push(
                FieldView { info: f, dim: None },
            )
            &&& f.name == name
            &&& match lookup_text(entries, "description"@) {
                Ok(Some(d)) => f.description == description_given(d),
                Ok(None) => f.description is None,
                Err(_) => false,
            }
            &&& text_taken_over(entries, "derivedFrom"@, None, f.derived_from)
            &&& lookup_number(entries, "bitOffset"@) matches Ok(Some(n)) && f.bit_range.offset
                == n as u32
            &&& lookup_number(entries, "bitWidth"@) matches Ok(Some(n)) && f.bit_range.width
                == n as u32
            &&& f.bit_range.width != 0
            &&& f.bit_range.range_type == BitRangeType::OffsetWidth
            &&& f.access == word_under(entries, "access"@, |w: Seq<char>| access_named(w))
            &&& f.modified_write_values == word_under(
                entries,
                "modifiedWriteValues"@,
                |w: Seq<char>| write_effect_named(w),
            )
            &&& f.read_action == word_under(
                entries,
                "readAction"@,
                |w: Seq<char>| read_action_named(w),
            )
            &&& f.write_constraint is None
            &&& f.enumerated_values.len() == 0
        }),
{
    let f = added(reg, name, entries).0.fields().last().info;
    law_right_fields_are_accepted(f);
    assert(added(reg, name, entries).0.fields() =~= reg.fields().push(
        FieldView { info: f, dim: None },
    ));
}

/// A field is added exactly where no field of the name is there, everything that the mapping gives
/// is of the right kind, and it gives an offset and a width that is not zero.
pub proof fn law_add_answers(reg: RegisterView, name: Seq<char>, entries: Seq<(Yaml, Yaml)>)
    ensures
        added(reg, name, entries).1 is Ok <==> {
            &&& forall|i: int|
                0 <= i < reg.fields().len() ==> (#[trigger] reg.fields()[i]).info.name != name
            &&& lookup_text(entries, "name"@) is Ok
            &&& lookup_text(entries, "description"@) is Ok
            &&& lookup_text(entries, "derivedFrom"@) is Ok
            &&& lookup_text(entries, "access"@) is Ok
            &&& lookup_text(entries, "modifiedWriteValues"@) is Ok
            &&& lookup_text(entries, "readAction"@) is Ok
            &&& lookup_number(entries, "bitOffset"@) matches Ok(Some(_))
            &&& lookup_number(entries, "bitWidth"@) matches Ok(Some(n)) && n as u32 != 0
        },
        added(reg, name, entries).1 is Err ==> added(reg, name, entries).0 == reg,
{
    if let Ok(parts) = crate::make::field_parts(entries) {
        if let (Some(offset), Some(width)) = (parts.bit_offset, parts.bit_width) {
            let f = FieldInfoView {
                name,
                description: crate::builder::nonempty(parts.description),
                bit_range: BitRange::from_offset_width(offset, width),
                access: parts.access,
                modified_write_values: parts.modified_write_values,
                write_constraint: None,
                read_action: parts.read_action,
                enumerated_values: Seq::empty(),
                derived_from: parts.derived_from,
            };
            law_right_fields_are_accepted(f);
        }
    }
    if exists|i: int| 0 <= i < reg.fields().len() && (#[trigger] reg.fields()[i]).info.name == name {
        assert(has_field(reg.fields(), name));
    }
}

/// A clearing takes the values and the write constraint from each field that is picked out, and
/// nothing else; the other fields are not touched, and no field comes or goes.
pub proof fn law_clear_takes_contents(reg: RegisterView, spec: Seq<char>, i: int)
    requires
        0 <= i < reg.fields().len(),
    ensures
        ({
            let before = reg.fields()[i];
            let after = cleared(reg, spec).fields()[i];
            &&& cleared(reg, spec).fields().len() == reg.fields().len()
            &&& if picks(before, spec) {
                &&& after.info.enumerated_values.len() == 0
                &&& after.info.write_constraint is None
                &&& after.dim == before.dim
                &&& after.info.name == before.info.name
                &&& after.info.description == before.info.description
                &&& after.info.bit_range == before.info.bit_range
                &&& after.info.access == before.info.access
                &&& after.info.modified_write_values == before.info.modified_write_values
                &&& after.info.read_action == before.info.read_action
                &&& after.info.derived_from == before.info.derived_from
            } else {
                after == before
            }
        }),
{
    lemma_matched_names(reg.fields(), spec);
}

/// A range of two numbers is what may be written to each field that is picked out, and nothing
/// else about it changes; the other fields are not touched. It is refused where no field is picked
/// out, and where one of the two is no number, and nowhere else.
pub proof fn law_range_sets_bounds(
    reg: RegisterView,
    pname: Seq<char>,
    spec: Seq<char>,
    parts: Seq<Yaml>,
    i: int,
)
    requires
        parts.len() >= 2,
        0 <= i < reg.fields().len(),
    ensures
        ranged(reg, pname, spec, parts).1 is Ok <==> {
            &&& exists|j: int|
                0 <= j < reg.fields().len() && picks(#[trigger] reg.fields()[j], spec)
            &&& parts[0] is Integer
            &&& parts[1] is Integer
        },
        ranged(reg, pname, spec, parts).1 is Ok ==> ({
            let before = reg.fields()[i];
            let after = ranged(reg, pname, spec, parts).0.fields()[i];
            &&& ranged(reg, pname, spec, parts).0.fields().len() == reg.fields().len()
            &&& if picks(before, spec) {
                &&& after.info.write_constraint == Some(
                    WriteConstraint::Range(
                        WriteConstraintRange {
                            min: parts[0]->Integer_0 as u64,
                            max: parts[1]->Integer_0 as u64,
                        },
                    ),
                )
                &&& after.dim == before.dim
                &&& after.info == FieldInfoView {
                    write_constraint: after.info.write_constraint,
                    ..before.info
                }
            } else {
                after == before
            }
        }),
        ranged(reg, pname, spec, parts).1 is Err ==> ranged(reg, pname, spec, parts).0 == reg,
{
    let fields = reg.fields();
    let names = matched_names(fields, spec);
    let found = named_indices(fields, names);
    lemma_matched_names(fields, spec);
    lemma_named_indices(fields, names);
    if exists|j: int| 0 <= j < fields.len() && picks(#[trigger] fields[j], spec) {
        let j = choose|j: int| 0 <= j < fields.len() && picks(#[trigger] fields[j], spec);
        assert(bears(fields[j], names));
        assert(found.contains(j));
    }
    if found.len() > 0 {
        assert(bears(fields[found[0]], names));
        assert(picks(fields[found[0]], spec));
    }
}

} // verus!
