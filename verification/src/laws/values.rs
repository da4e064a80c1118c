//! What holds of giving fields their values.

use crate::builder::built_enum;
use crate::edit::ranged;
use crate::enums::{
    derive_step, derived, enum_set, enumerated, enumerated_named, field_processed, lead, list_step,
    listed, origin_usage,
};
use crate::error::ErrorView;
use crate::fields::{
    bears, lemma_matched_indices, lemma_matched_names, lemma_named_indices, matched_indices,
    matched_names, named_indices, picks, update_named,
};
use crate::laws::edits::{
    lemma_fields_after, lemma_same_names_same_matches, lemma_update_length, lemma_update_went_well,
};
use crate::make::{derived_enum, enum_name, lemma_rank, rank, value_table, with_value};
use crate::split::placeholder;
use crate::svd::{EnumeratedValuesView, FieldInfoView, FieldView, RegisterView, Usage};
use crate::text::replaced;
use crate::yaml::Yaml;
use vstd::prelude::*;

verus! {

/// The values that a mapping lists are in the order of their numbers, and no number occurs
/// twice.
pub proof fn law_values_are_ordered(entries: Seq<(Yaml, Yaml)>)
    requires
        value_table(entries) is Ok,
    ensures
        ({
            let table = value_table(entries)->Ok_0;
            &&& table.values.len() == table.numbers.len()
            &&& table.values.len() <= entries.len()
            &&& forall|i: int, j: int|
                #![trigger table.numbers[i], table.numbers[j]]
                0 <= i < j < table.numbers.len() ==> table.numbers[i] < table.numbers[j]
            &&& forall|i: int|
                0 <= i < table.values.len() ==> (#[trigger] table.values[i]).value == Some(
                    table.numbers[i] as u64,
                )
        }),
    decreases entries.len(),
{
    if entries.len() > 0 {
        let before = value_table(entries.drop_last())->Ok_0;
        let after = value_table(entries)->Ok_0;
        law_values_are_ordered(entries.drop_last());
        let (key, value) = (entries.last().0, entries.last().1);
        assert(with_value(before, key, value) == Ok::<_, ErrorView>(after));
        if after != before {
            let number = match value {
                Yaml::Array(parts) => parts@[0].as_number()->Ok_0,
                _ => 0i64,
            };
            let k = rank(before.numbers, number);
            lemma_rank(before.numbers, number);
            assert(!before.numbers.contains(number));
            assert(after.numbers == before.numbers.insert(k, number));
            assert forall|i: int, j: int|
                #![trigger after.numbers[i], after.numbers[j]]
                0 <= i < j < after.numbers.len() implies after.numbers[i] < after.numbers[j] by {
                if i != k {
                    assert(after.numbers[i] == before.numbers[if i < k {
                        i
                    } else {
                        i - 1
                    }]);
                }
                if j != k {
                    assert(after.numbers[j] == before.numbers[if j < k {
                        j
                    } else {
                        j - 1
                    }]);
                }
                if i == k {
                    assert(before.numbers[k] != number);
                    assert(before.numbers[k] <= before.numbers[j - 1]);
                }
            }
            assert forall|i: int| 0 <= i < after.values.len() implies (
            #[trigger] after.values[i]).value == Some(after.numbers[i] as u64) by {
                if i < k {
                    assert(after.values[i] == before.values[i]);
                } else if i > k {
                    assert(after.values[i] == before.values[i - 1]);
                }
            }
        }
    }
}

/// Whether two fields differ in nothing but their values.
pub open spec fn same_but_values(a: FieldView, b: FieldView) -> bool {
    a == FieldView {
        info: FieldInfoView { enumerated_values: a.info.enumerated_values, ..b.info },
        ..b
    }
}

/// Whether two fields differ in nothing but their values and their write constraints.
pub open spec fn same_but_contents(a: FieldView, b: FieldView) -> bool {
    a == FieldView {
        info: FieldInfoView {
            enumerated_values: a.info.enumerated_values,
            write_constraint: a.info.write_constraint,
            ..b.info
        },
        ..b
    }
}

/// A step of an update that keeps something of each field keeps it of all of them, whether it
/// goes well or not.
proof fn lemma_update_keeps(
    fields: Seq<FieldView>,
    names: Seq<Seq<char>>,
    step: spec_fn(FieldView) -> (FieldView, Result<(), ErrorView>),
    i: int,
)
    requires
        0 <= i < fields.len(),
        forall|f: FieldView| same_but_values(#[trigger] step(f).0, f),
    ensures
        update_named(fields, names, step).0.len() == fields.len(),
        same_but_values(update_named(fields, names, step).0[i], fields[i]),
        !bears(fields[i], names) ==> update_named(fields, names, step).0[i] == fields[i],
    decreases fields.len(),
{
    lemma_update_length(fields, names, step);
    let rest = update_named(fields.skip(1), names, step);
    let first = if bears(fields[0], names) {
        step(fields[0])
    } else {
        (fields[0], Ok(()))
    };
    assert(same_but_values(step(fields[0]).0, fields[0]));
    assert(same_but_values(fields[i], fields[i]));
    if i > 0 {
        if first.1 is Err {
            assert(update_named(fields, names, step).0[i] == fields.skip(1)[i - 1]);
        } else {
            lemma_update_keeps(fields.skip(1), names, step, i - 1);
            assert(update_named(fields, names, step).0[i] == rest.0[i - 1]);
            assert(fields.skip(1)[i - 1] == fields[i]);
        }
    } else {
        assert(update_named(fields, names, step).0[0] == first.0);
    }
}

proof fn lemma_values_keep(
    reg: RegisterView,
    names: Seq<Seq<char>>,
    pname: Seq<char>,
    spec: Seq<char>,
    entries: Seq<(Yaml, Yaml)>,
    usage: Usage,
    i: int,
)
    requires
        0 <= i < reg.fields().len(),
    ensures
        ({
            let after = enumerated_named(reg, names, pname, spec, entries, usage).0.fields();
            &&& after.len() == reg.fields().len()
            &&& same_but_values(after[i], reg.fields()[i])
            &&& !bears(reg.fields()[i], names) ==> after[i] == reg.fields()[i]
        }),
{
    let fields = reg.fields();
    assert(same_but_values(fields[i], fields[i]));
    match crate::enums::enum_source(entries) {
        Err(_) => {},
        Ok((source, replace)) => match crate::yaml::lookup_text(source, "_derivedFrom"@) {
            Err(_) => {},
            Ok(Some(name)) => {
                let step = |f: FieldView| derive_step(f, name, usage);
                assert forall|f: FieldView| same_but_values(#[trigger] step(f).0, f) by {}
                lemma_update_keeps(fields, names, step, i);
                lemma_fields_after(reg, update_named(fields, names, step).0);
            },
            Ok(None) => {
                let first = fields[lead(fields, named_indices(fields, names))].info;
                match enum_name(replaced(first.name, placeholder(), Seq::empty()), usage) {
                    Err(_) => {},
                    Ok(name) => {
                        let step = |f: FieldView|
                            list_step(f, first.bit_range.offset, name, source, usage, replace);
                        assert forall|f: FieldView| same_but_values(#[trigger] step(f).0, f) by {}
                        lemma_update_keeps(fields, names, step, i);
                        lemma_fields_after(reg, update_named(fields, names, step).0);
                    },
                }
            },
        },
    }
}

/// Giving values to fields keeps every field where it is, and everything about it but its
/// values, whether it goes well or not. Fields that are not picked out are not touched at all.
pub proof fn law_values_keep_fields(
    reg: RegisterView,
    pname: Seq<char>,
    spec: Seq<char>,
    entries: Seq<(Yaml, Yaml)>,
    usage: Usage,
    i: int,
)
    requires
        0 <= i < reg.fields().len(),
    ensures
        enumerated(reg, pname, spec, entries, usage).0.fields().len() == reg.fields().len(),
        same_but_values(
            enumerated(reg, pname, spec, entries, usage).0.fields()[i],
            reg.fields()[i],
        ),
        !picks(reg.fields()[i], spec) ==> enumerated(reg, pname, spec, entries, usage).0.fields()[i]
            == reg.fields()[i],
{
    let names = matched_names(reg.fields(), spec);
    lemma_matched_names(reg.fields(), spec);
    lemma_values_keep(reg, names, pname, spec, entries, usage, i);
}

/// Processing what a document says of some fields keeps every field where it is, and everything
/// about it but its values and its write constraint. Fields that are not picked out are not
/// touched at all.
pub proof fn law_process_field_keeps_fields(
    reg: RegisterView,
    pname: Seq<char>,
    spec: Seq<char>,
    fmod: Yaml,
    i: int,
)
    requires
        0 <= i < reg.fields().len(),
    ensures
        field_processed(reg, pname, spec, fmod).0.fields().len() == reg.fields().len(),
        same_but_contents(
            field_processed(reg, pname, spec, fmod).0.fields()[i],
            reg.fields()[i],
        ),
        !picks(reg.fields()[i], spec) ==> field_processed(reg, pname, spec, fmod).0.fields()[i]
            == reg.fields()[i],
{
    let names = matched_names(reg.fields(), spec);
    lemma_matched_names(reg.fields(), spec);
    assert(bears(reg.fields()[i], names) == picks(reg.fields()[i], spec));
    match fmod {
        Yaml::Hash(h) => {
            let read = crate::yaml::lookup_entries(h@, "_read"@);
            let write = crate::yaml::lookup_entries(h@, "_write"@);
            lemma_values_keep(reg, names, pname, spec, h@, Usage::ReadWrite, i);
            match read {
                Ok(Some(r)) => {
                    lemma_values_keep(reg, names, pname, spec, r, Usage::Read, i);
                    let between = enumerated_named(reg, names, pname, spec, r, Usage::Read).0;
                    match write {
                        Ok(Some(w)) => {
                            lemma_values_keep(between, names, pname, spec, w, Usage::Write, i);
                        },
                        _ => {},
                    }
                },
                _ => {
                    match write {
                        Ok(Some(w)) => {
                            lemma_values_keep(reg, names, pname, spec, w, Usage::Write, i);
                        },
                        _ => {},
                    }
                },
            }
        },
        Yaml::Array(parts) => {
            if parts@.len() == 2 && ranged(reg, pname, spec, parts@).1 is Ok {
                crate::laws::edits::law_range_is_exact(reg, pname, spec, parts@, i);
            }
        },
        _ => {},
    }
}

/// Values for reads leave what a specification picks out as it was, so that values for writes
/// that follow reach the same fields.
pub proof fn law_values_keep_matches(
    reg: RegisterView,
    pname: Seq<char>,
    spec: Seq<char>,
    entries: Seq<(Yaml, Yaml)>,
    usage: Usage,
)
    ensures
        matched_names(enumerated(reg, pname, spec, entries, usage).0.fields(), spec)
            == matched_names(reg.fields(), spec),
{
    let after = enumerated(reg, pname, spec, entries, usage).0.fields();
    let fields = reg.fields();
    if fields.len() == 0 {
        lemma_no_fields_kept(reg, pname, spec, entries, usage);
        assert(after =~= fields);
    } else {
        law_values_keep_fields(reg, pname, spec, entries, usage, 0);
        assert forall|i: int| 0 <= i < fields.len() implies (#[trigger] fields[i]).info.name
            == after[i].info.name by {
            law_values_keep_fields(reg, pname, spec, entries, usage, i);
        }
        lemma_same_names_same_matches(fields, after, spec);
        lemma_matched_indices(fields, spec);
        assert(matched_names(after, spec) =~= matched_names(fields, spec)) by {
            assert forall|k: int| 0 <= k < matched_indices(fields, spec).len() implies fields[
            #[trigger] matched_indices(fields, spec)[k]].info.name == after[matched_indices(
                fields,
                spec,
            )[k]].info.name by {}
        }
    }
}

proof fn lemma_no_fields_kept(
    reg: RegisterView,
    pname: Seq<char>,
    spec: Seq<char>,
    entries: Seq<(Yaml, Yaml)>,
    usage: Usage,
)
    requires
        reg.fields().len() == 0,
    ensures
        enumerated(reg, pname, spec, entries, usage).0.fields().len() == 0,
{
}

/// The first field of the least offset bears one of the names, and no other field that does starts
/// before it.
pub proof fn law_lead_is_least(fields: Seq<FieldView>, names: Seq<Seq<char>>, i: int)
    requires
        named_indices(fields, names).len() > 0,
        0 <= i < fields.len(),
        bears(fields[i], names),
    ensures
        0 <= lead(fields, named_indices(fields, names)) < fields.len(),
        bears(fields[lead(fields, named_indices(fields, names))], names),
        fields[lead(fields, named_indices(fields, names))].info.bit_range.offset
            <= fields[i].info.bit_range.offset,
        fields[i].info.bit_range.offset == fields[lead(
            fields,
            named_indices(fields, names),
        )].info.bit_range.offset ==> lead(fields, named_indices(fields, names)) <= i,
{
    let found = named_indices(fields, names);
    lemma_named_indices(fields, names);
    assert(found.contains(i));
    let k = choose|k: int| 0 <= k < found.len() && found[k] == i;
    lemma_lead(fields, found, k);
    let j = choose|j: int| 0 <= j < found.len() && found[j] == lead(fields, found);
}

proof fn lemma_lead(fields: Seq<FieldView>, indices: Seq<int>, k: int)
    requires
        0 <= k < indices.len(),
        forall|a: int, b: int| 0 <= a < b < indices.len() ==> indices[a] < indices[b],
    ensures
        indices.contains(lead(fields, indices)),
        fields[lead(fields, indices)].info.bit_range.offset
            <= fields[indices[k]].info.bit_range.offset,
        fields[lead(fields, indices)].info.bit_range.offset
            == fields[indices[k]].info.bit_range.offset ==> lead(fields, indices) <= indices[k],
    decreases indices.len(),
{
    if indices.len() == 1 {
        assert(indices[0] == lead(fields, indices));
    } else {
        let shorter = indices.drop_last();
        assert forall|a: int, b: int| 0 <= a < b < shorter.len() implies shorter[a] < shorter[b] by {
            assert(shorter[a] == indices[a] && shorter[b] == indices[b]);
        }
        let j = if k < shorter.len() {
            k
        } else {
            0
        };
        lemma_lead(fields, shorter, j);
        let before = lead(fields, shorter);
        let b = choose|b: int| 0 <= b < shorter.len() && shorter[b] == before;
        assert(indices[b] == before);
        assert(indices[indices.len() - 1] == indices.last());
        if k < shorter.len() {
            assert(shorter[k] == indices[k]);
        }
    }
}

/// The set of values for all accesses that a listing gives to the fields of the least offset.
pub open spec fn listed_values(
    name: Seq<char>,
    entries: Seq<(Yaml, Yaml)>,
) -> EnumeratedValuesView {
    built_enum(
        Some(name),
        Some(Usage::ReadWrite),
        None,
        value_table(entries)->Ok_0.values,
    )->Ok_0
}

/// The name of the values that a listing for all accesses gives to the fields that bear one of
/// the given names.
pub open spec fn listed_name(reg: RegisterView, names: Seq<Seq<char>>) -> Seq<char> {
    enum_name(
        replaced(
            reg.fields()[lead(reg.fields(), named_indices(reg.fields(), names))].info.name,
            placeholder(),
            Seq::empty(),
        ),
        Usage::ReadWrite,
    )->Ok_0
}

/// After a listing for all accesses each field that bears one of the names has one set of values:
/// the listed ones if it starts where the lowest of them starts, else a copy of those.
pub proof fn law_listing_is_exact(
    reg: RegisterView,
    names: Seq<Seq<char>>,
    pname: Seq<char>,
    spec: Seq<char>,
    entries: Seq<(Yaml, Yaml)>,
    replace: bool,
    i: int,
)
    requires
        listed(reg, names, pname, spec, entries, Usage::ReadWrite, replace).1 is Ok,
        0 <= i < reg.fields().len(),
    ensures
        ({
            let after = listed(reg, names, pname, spec, entries, Usage::ReadWrite, replace).0.fields();
            let first = reg.fields()[lead(reg.fields(), named_indices(reg.fields(), names))];
            let name = listed_name(reg, names);
            &&& after.len() == reg.fields().len()
            &&& same_but_values(after[i], reg.fields()[i])
            &&& !bears(reg.fields()[i], names) ==> after[i] == reg.fields()[i]
            &&& bears(reg.fields()[i], names) ==> after[i].info.enumerated_values == if reg.fields()[i].info.bit_range.offset
                == first.info.bit_range.offset {
                seq![listed_values(name, entries)]
            } else {
                seq![derived_enum(name)]
            }
        }),
{
    let fields = reg.fields();
    let first = fields[lead(fields, named_indices(fields, names))].info;
    let name = listed_name(reg, names);
    let step = |f: FieldView|
        list_step(f, first.bit_range.offset, name, entries, Usage::ReadWrite, replace);
    assert forall|f: FieldView| same_but_values(#[trigger] step(f).0, f) by {}
    lemma_update_keeps(fields, names, step, i);
    lemma_update_went_well(fields, names, step, i);
    lemma_fields_after(reg, update_named(fields, names, step).0);
}

/// A listing for all accesses that replaces what is there can be repeated without changing
/// anything more.
pub proof fn law_listing_twice(
    reg: RegisterView,
    names: Seq<Seq<char>>,
    pname: Seq<char>,
    spec: Seq<char>,
    entries: Seq<(Yaml, Yaml)>,
    replace: bool,
)
    requires
        listed(reg, names, pname, spec, entries, Usage::ReadWrite, replace).1 is Ok,
    ensures
        ({
            let once = listed(reg, names, pname, spec, entries, Usage::ReadWrite, replace).0;
            listed(once, names, pname, spec, entries, Usage::ReadWrite, true) == (
                once,
                Ok::<(), ErrorView>(()),
            )
        }),
{
    let once = listed(reg, names, pname, spec, entries, Usage::ReadWrite, replace).0;
    let fields = reg.fields();
    let found = named_indices(fields, names);
    let first = fields[lead(fields, found)].info;
    let name = listed_name(reg, names);
    lemma_named_indices(fields, names);
    assert forall|i: int| 0 <= i < fields.len() implies once.fields().len() == fields.len()
        && same_but_values(#[trigger] once.fields()[i], fields[i]) by {
        law_listing_is_exact(reg, names, pname, spec, entries, replace, i);
    }
    law_listing_is_exact(reg, names, pname, spec, entries, replace, found[0]);
    assert forall|i: int| 0 <= i < fields.len() implies (#[trigger] fields[i]).info.name
        == once.fields()[i].info.name by {
        assert(same_but_values(once.fields()[i], fields[i]));
    }
    lemma_same_names_same_indices(fields, once.fields(), names);
    assert forall|i: int| 0 <= i < fields.len() implies (
    #[trigger] fields[i]).info.bit_range.offset == once.fields()[i].info.bit_range.offset by {
        assert(same_but_values(once.fields()[i], fields[i]));
    }
    lemma_lead_of_same_offsets(fields, once.fields(), found);
    lemma_lead(fields, found, 0);
    let step = |f: FieldView|
        list_step(f, first.bit_range.offset, name, entries, Usage::ReadWrite, true);
    let f = fields[lead(fields, found)];
    law_lead_is_least(fields, names, found[0]);
    assert(list_step(f, first.bit_range.offset, name, entries, Usage::ReadWrite, replace).1 is Ok)
        by {
        let old_step = |f: FieldView|
            list_step(f, first.bit_range.offset, name, entries, Usage::ReadWrite, replace);
        lemma_update_went_well(fields, names, old_step, lead(fields, found));
    }
    assert forall|i: int|
        0 <= i < once.fields().len() && bears(#[trigger] once.fields()[i], names) implies step(
        once.fields()[i],
    ) == (once.fields()[i], Ok::<(), ErrorView>(())) by {
        law_listing_is_exact(reg, names, pname, spec, entries, replace, i);
        assert(same_but_values(once.fields()[i], fields[i]));
        assert(bears(fields[i], names));
    }
    lemma_update_that_changes_nothing(once.fields(), names, step);
}

/// Which fields bear one of some names depends on their names alone.
proof fn lemma_same_names_same_indices(
    a: Seq<FieldView>,
    b: Seq<FieldView>,
    names: Seq<Seq<char>>,
)
    requires
        a.len() == b.len(),
        forall|i: int| 0 <= i < a.len() ==> (#[trigger] a[i]).info.name == b[i].info.name,
    ensures
        named_indices(a, names) == named_indices(b, names),
    decreases a.len(),
{
    if a.len() > 0 {
        assert forall|i: int| 0 <= i < a.len() - 1 implies (#[trigger] a.drop_last()[i]).info.name
            == b.drop_last()[i].info.name by {
            assert(a.drop_last()[i] == a[i]);
        }
        lemma_same_names_same_indices(a.drop_last(), b.drop_last(), names);
        assert(a[a.len() - 1].info.name == b[a.len() - 1].info.name);
    }
}

/// Where each step leaves its field as it is, an update changes nothing.
proof fn lemma_update_that_changes_nothing(
    fields: Seq<FieldView>,
    names: Seq<Seq<char>>,
    step: spec_fn(FieldView) -> (FieldView, Result<(), ErrorView>),
)
    requires
        forall|i: int|
            0 <= i < fields.len() && bears(#[trigger] fields[i], names) ==> step(fields[i]) == (
                fields[i],
                Ok::<(), ErrorView>(()),
            ),
    ensures
        update_named(fields, names, step) == (fields, Ok::<(), ErrorView>(())),
    decreases fields.len(),
{
    if fields.len() > 0 {
        let rest = fields.skip(1);
        assert forall|i: int| 0 <= i < rest.len() && bears(#[trigger] rest[i], names) implies step(
            rest[i],
        ) == (rest[i], Ok::<(), ErrorView>(())) by {
            assert(rest[i] == fields[i + 1]);
        }
        lemma_update_that_changes_nothing(rest, names, step);
        assert(seq![fields[0]] + rest =~= fields);
    }
}

/// Which field leads depends on the offsets alone.
proof fn lemma_lead_of_same_offsets(a: Seq<FieldView>, b: Seq<FieldView>, indices: Seq<int>)
    requires
        a.len() == b.len(),
        indices.len() > 0,
        forall|i: int|
            0 <= i < a.len() ==> (#[trigger] a[i]).info.bit_range.offset
                == b[i].info.bit_range.offset,
        forall|k: int| 0 <= k < indices.len() ==> 0 <= #[trigger] indices[k] < a.len(),
    ensures
        lead(a, indices) == lead(b, indices),
        0 <= lead(a, indices) < a.len(),
    decreases indices.len(),
{
    if indices.len() > 1 {
        let shorter = indices.drop_last();
        assert forall|k: int| 0 <= k < shorter.len() implies 0 <= #[trigger] shorter[k] < a.len() by {
            assert(shorter[k] == indices[k]);
        }
        lemma_lead_of_same_offsets(a, b, shorter);
        assert(0 <= indices[indices.len() - 1] < a.len());
        assert(a[indices.last()].info.bit_range.offset == b[indices.last()].info.bit_range.offset);
        assert(a[lead(a, shorter)].info.bit_range.offset == b[lead(
            a,
            shorter,
        )].info.bit_range.offset);
    } else {
        assert(0 <= indices[0] < a.len());
    }
}

/// A listing for all accesses that does not replace what is there is refused where the fields
/// have values already.
pub proof fn law_listing_does_not_overwrite(
    reg: RegisterView,
    names: Seq<Seq<char>>,
    pname: Seq<char>,
    spec: Seq<char>,
    entries: Seq<(Yaml, Yaml)>,
)
    requires
        named_indices(reg.fields(), names).len() > 0,
        reg.fields()[lead(
            reg.fields(),
            named_indices(reg.fields(), names),
        )].info.enumerated_values.len() > 0,
    ensures
        listed(reg, names, pname, spec, entries, Usage::ReadWrite, false).1 is Err,
{
    let fields = reg.fields();
    let found = named_indices(fields, names);
    let l = lead(fields, found);
    lemma_named_indices(fields, names);
    law_lead_is_least(fields, names, found[0]);
    if listed(reg, names, pname, spec, entries, Usage::ReadWrite, false).1 is Ok {
        let first = fields[l].info;
        let name = listed_name(reg, names);
        let step = |f: FieldView|
            list_step(f, first.bit_range.offset, name, entries, Usage::ReadWrite, false);
        lemma_update_went_well(fields, names, step, l);
    }
}

/// Copies for all accesses reach each field that bears one of the given names: it has one set of
/// values, which is a copy of the set of the given name. That set is one of the register, for
/// all accesses, and no field of its own name gets it.
pub proof fn law_copying_is_exact(
    reg: RegisterView,
    names: Seq<Seq<char>>,
    pname: Seq<char>,
    name: Seq<char>,
    i: int,
)
    requires
        derived(reg, names, pname, name, Usage::ReadWrite).1 is Ok,
        0 <= i < reg.fields().len(),
    ensures
        origin_usage(reg.fields(), pname, name) == Ok::<Usage, ErrorView>(Usage::ReadWrite),
        ({
            let after = derived(reg, names, pname, name, Usage::ReadWrite).0.fields();
            &&& after.len() == reg.fields().len()
            &&& same_but_values(after[i], reg.fields()[i])
            &&& !bears(reg.fields()[i], names) ==> after[i] == reg.fields()[i]
            &&& bears(reg.fields()[i], names) ==> after[i].info.enumerated_values == seq![
                derived_enum(name),
            ] && reg.fields()[i].info.name != name
        }),
{
    let fields = reg.fields();
    let step = |f: FieldView| derive_step(f, name, Usage::ReadWrite);
    assert forall|f: FieldView| same_but_values(#[trigger] step(f).0, f) by {}
    lemma_update_keeps(fields, names, step, i);
    lemma_update_went_well(fields, names, step, i);
    lemma_fields_after(reg, update_named(fields, names, step).0);
}

/// Values for reads and values for writes can stand side by side in a field without values, in
/// either order.
pub proof fn law_reads_and_writes_side_by_side(
    f: FieldInfoView,
    read: EnumeratedValuesView,
    write: EnumeratedValuesView,
)
    requires
        f.enumerated_values.len() == 0,
        read.usage == Some(Usage::Read),
        write.usage == Some(Usage::Write),
    ensures
        ({
            let (half, first) = enum_set(f, read, Usage::Read, false);
            let (full, second) = enum_set(half, write, Usage::Write, false);
            first is Ok && second is Ok && full.enumerated_values == seq![read, write]
        }),
        ({
            let (half, first) = enum_set(f, write, Usage::Write, false);
            let (full, second) = enum_set(half, read, Usage::Read, false);
            first is Ok && second is Ok && full.enumerated_values == seq![write, read]
        }),
{
    assert(seq![read].push(write) =~= seq![read, write]);
    assert(seq![write].push(read) =~= seq![write, read]);
}

/// Values that are there are kept unless they are to be replaced: to set values without
/// replacing never drops any.
pub proof fn law_setting_never_drops(
    f: FieldInfoView,
    val: EnumeratedValuesView,
    usage: Usage,
)
    ensures
        f.enumerated_values.is_prefix_of(enum_set(f, val, usage, false).0.enumerated_values),
        enum_set(f, val, usage, false).1 is Ok ==> enum_set(
            f,
            val,
            usage,
            false,
        ).0.enumerated_values == f.enumerated_values.push(val),
        enum_set(f, val, usage, false).1 is Err ==> enum_set(f, val, usage, false).0 == f,
{
    let after = enum_set(f, val, usage, false).0.enumerated_values;
    if f.enumerated_values.len() == 0 {
        assert(f.enumerated_values.push(val) =~= seq![val]);
    }
}

} // verus!
