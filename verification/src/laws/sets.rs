//! What holds of the sets of values that fields are given.

use crate::enums::{
    derive_step, derived, enum_set, enumerated, field_processed, lead, list_step, listed,
    named_enums, origin_usage,
};
use crate::edit::ranged;
use crate::error::{ErrorView, StepView};
use crate::fields::{
    bears, lemma_matched_names, lemma_named_indices, matched_names, named_indices, picks,
    update_named,
};
use crate::laws::changes::description_given;
use crate::laws::edits::{lemma_fields_after, lemma_update_length, lemma_update_went_well};
use crate::laws::parts::{law_steps_stop_at_failure, stops_at};
use crate::laws::values::law_lead_is_least;
use crate::make::{lemma_rank, rank, value_table, with_value};
use crate::split::placeholder;
use crate::svd::{
    EnumeratedValueView, EnumeratedValuesView, FieldInfoView, FieldView, RegisterView, Usage,
};
use crate::text::{begins_with, begins_with_digit, replaced};
use crate::yaml::{lookup, lookup_text, Yaml};
use vstd::prelude::*;

verus! {

/// Whether a set of values is meant for a usage, or for all accesses.
pub open spec fn serves(e: EnumeratedValuesView, usage: Usage) -> bool {
    e.usage == Some(usage) || e.usage == Some(Usage::ReadWrite)
}

/// A set of values changes nothing about a field but its sets. One for all accesses stands alone,
/// and is refused where there are others and they are not to be replaced. One for reads or for
/// writes comes after the set that is there, if that one serves other accesses, and takes its
/// place if not, which has to be asked for. Where two sets are there, it takes the place of those
/// of its own usage, which has to be asked for as well. Where it is refused, nothing changes.
pub proof fn law_set_of_values(
    f: FieldInfoView,
    val: EnumeratedValuesView,
    usage: Usage,
    replace: bool,
    k: int,
)
    ensures
        ({
            let (after, answer) = enum_set(f, val, usage, replace);
            let old = f.enumerated_values;
            let new = after.enumerated_values;
            &&& after == FieldInfoView { enumerated_values: new, ..f }
            &&& answer is Err ==> new == old
            &&& usage == Usage::ReadWrite ==> {
                &&& answer is Ok <==> old.len() == 0 || replace
                &&& answer is Ok ==> new == seq![val]
            }
            &&& usage != Usage::ReadWrite ==> {
                &&& answer is Ok <==> {
                    ||| old.len() == 0
                    ||| old.len() == 1 && (replace || !serves(old[0], usage))
                    ||| old.len() == 2 && replace
                }
                &&& answer is Ok && old.len() <= 1 ==> new == old.filter(
                    |e: EnumeratedValuesView| !serves(e, usage),
                ).push(val)
                &&& answer is Ok && old.len() == 2 ==> new.len() == 2 && (0 <= k < 2 ==> new[k]
                    == if old[k].usage == Some(usage) {
                    val
                } else {
                    old[k]
                })
            }
            &&& answer matches Err(e) ==> e == if usage != Usage::ReadWrite && old.len() > 2 {
                ErrorView::IncorrectEnumeratedValues
            } else {
                ErrorView::EnumExists { field: f.name, usage }
            }
        }),
{
    let old = f.enumerated_values;
    let kept = |e: EnumeratedValuesView| !serves(e, usage);
    reveal(Seq::filter);
    if old.len() == 0 {
        assert(old.filter(kept).push(val) =~= seq![val]);
    } else if old.len() == 1 {
        assert(old.drop_last() =~= Seq::<EnumeratedValuesView>::empty());
        assert(old.drop_last().filter(kept) =~= Seq::<EnumeratedValuesView>::empty());
        if kept(old[0]) {
            assert(old.filter(kept) =~= old);
        } else {
            assert(old.filter(kept) =~= Seq::<EnumeratedValuesView>::empty());
            assert(old.filter(kept).push(val) =~= seq![val]);
        }
    }
}

/// After values for reads or for writes have been set with replacement in a field with at most one
/// set, that went well, and just one set serves this usage, which is the new one. The number of
/// sets does not grow where a set of the usage was there, and setting them once more changes
/// nothing.
pub proof fn law_replaced_values_serve_alone(
    f: FieldInfoView,
    val: EnumeratedValuesView,
    usage: Usage,
    k: int,
)
    requires
        f.enumerated_values.len() <= 1,
        val.usage == Some(usage),
    ensures
        ({
            let (after, answer) = enum_set(f, val, usage, true);
            let new = after.enumerated_values;
            &&& answer is Ok
            &&& new.len() > 0
            &&& new.last() == val
            &&& 0 <= k < new.len() - 1 ==> !serves(new[k], usage)
            &&& f.enumerated_values.len() == 1 && serves(f.enumerated_values[0], usage) ==> new.len()
                == 1
            &&& enum_set(after, val, usage, true) == (after, Ok::<(), ErrorView>(()))
        }),
{
    let after = enum_set(f, val, usage, true).0;
    law_set_of_values(f, val, usage, true, 0);
    let new = after.enumerated_values;
    let again = enum_set(after, val, usage, true).0;
    assert(again.enumerated_values =~= new);
}

/// Values that replace those of their usage in a field with two sets replace them once and for
/// all.
pub proof fn law_replacing_twice(f: FieldInfoView, val: EnumeratedValuesView, usage: Usage)
    requires
        f.enumerated_values.len() <= 2,
        val.usage == Some(usage),
    ensures
        ({
            let (once, _) = enum_set(f, val, usage, true);
            enum_set(once, val, usage, true) == (once, Ok::<(), ErrorView>(()))
        }),
{
    let once = enum_set(f, val, usage, true).0;
    if f.enumerated_values.len() <= 1 {
        law_replaced_values_serve_alone(f, val, usage, 0);
    } else {
        let twice = enum_set(once, val, usage, true).0;
        assert(twice.enumerated_values =~= once.enumerated_values);
    }
}

/// Whether an entry of a mapping lists a value: a name that begins neither with an underscore nor
/// with a digit, and a number with a description.
pub open spec fn lists_value(
    entry: (Yaml, Yaml),
    name: Seq<char>,
    number: i64,
    description: Seq<char>,
) -> bool {
    &&& entry.0 matches Yaml::String(s) && s@ == name
    &&& !begins_with(name, '_')
    &&& !begins_with_digit(name)
    &&& entry.1 matches Yaml::Array(a) && a@.len() >= 2 && a@[0] == Yaml::Integer(number) && (
    a@[1] matches Yaml::String(d) && d@ == description)
}

/// Whether an entry of a mapping is passed over: its key begins with an underscore.
pub open spec fn is_passed_over(entry: (Yaml, Yaml)) -> bool {
    entry.0 matches Yaml::String(s) && begins_with(s@, '_')
}

/// The value that an entry of a mapping stands for.
pub open spec fn value_listed(
    name: Seq<char>,
    number: i64,
    description: Seq<char>,
) -> EnumeratedValueView {
    EnumeratedValueView {
        name,
        description: description_given(description),
        value: Some(number as u64),
        is_default: None,
    }
}

/// Whether the value that an entry lists is among some values.
pub open spec fn is_listed_among(entry: (Yaml, Yaml), values: Seq<EnumeratedValueView>) -> bool {
    exists|name: Seq<char>, number: i64, description: Seq<char>| #[trigger]
        lists_value(entry, name, number, description) && values.contains(
            value_listed(name, number, description),
        )
}

/// Whether some entry of a mapping lists a value.
pub open spec fn comes_from(v: EnumeratedValueView, entries: Seq<(Yaml, Yaml)>) -> bool {
    exists|j: int, name: Seq<char>, number: i64, description: Seq<char>|
        0 <= j < entries.len() && #[trigger] lists_value(entries[j], name, number, description) && v
            == value_listed(name, number, description)
}

/// The values that a mapping lists are just those of its entries: each entry that is not passed
/// over is one of them, with its name, its number and its description, and there is no other.
pub proof fn law_values_are_listed(entries: Seq<(Yaml, Yaml)>)
    requires
        value_table(entries) is Ok,
    ensures
        ({
            let values = value_table(entries)->Ok_0.values;
            &&& forall|j: int|
                0 <= j < entries.len() ==> is_passed_over(#[trigger] entries[j])
                    || is_listed_among(entries[j], values)
            &&& forall|m: int|
                0 <= m < values.len() ==> comes_from(#[trigger] values[m], entries)
        }),
    decreases entries.len(),
{
    if entries.len() > 0 {
        let shorter = entries.drop_last();
        let last = entries.last();
        let n = shorter.len() as int;
        let before = value_table(shorter)->Ok_0;
        let after = value_table(entries)->Ok_0;
        law_values_are_listed(shorter);
        crate::laws::values::law_values_are_ordered(shorter);
        assert(with_value(before, last.0, last.1) == Ok::<_, ErrorView>(after));
        assert(entries[n] == last);
        assert forall|v: EnumeratedValueView| #[trigger] comes_from(v, shorter) implies comes_from(
            v,
            entries,
        ) by {
            let (j, a, b, c) = choose|j: int, a: Seq<char>, b: i64, c: Seq<char>|
                0 <= j < shorter.len() && #[trigger] lists_value(shorter[j], a, b, c) && v
                    == value_listed(a, b, c);
            assert(shorter[j] == entries[j]);
            assert(lists_value(entries[j], a, b, c));
        }
        if is_passed_over(last) {
            assert(after == before);
            assert forall|j: int| 0 <= j < entries.len() implies is_passed_over(
                #[trigger] entries[j],
            ) || is_listed_among(entries[j], after.values) by {
                if j < n {
                    assert(shorter[j] == entries[j]);
                }
            }
        } else {
            let name = last.0->String_0@;
            let parts = last.1->Array_0@;
            let number = parts[0]->Integer_0;
            let description = parts[1]->String_0@;
            assert(lists_value(last, name, number, description));
            let new = value_listed(name, number, description);
            let k = rank(before.numbers, number);
            lemma_rank(before.numbers, number);
            assert(after.values == before.values.insert(k, new));
            assert(after.values[k] == new);
            assert forall|j: int| 0 <= j < entries.len() implies is_passed_over(
                #[trigger] entries[j],
            ) || is_listed_among(entries[j], after.values) by {
                if j < n {
                    assert(shorter[j] == entries[j]);
                    if !is_passed_over(entries[j]) {
                        assert(is_listed_among(shorter[j], before.values));
                        let (a, b, c) = choose|a: Seq<char>, b: i64, c: Seq<char>| #[trigger]
                            lists_value(shorter[j], a, b, c) && before.values.contains(
                                value_listed(a, b, c),
                            );
                        let m = before.values.index_of(value_listed(a, b, c));
                        if m < k {
                            assert(after.values[m] == before.values[m]);
                        } else {
                            assert(after.values[m + 1] == before.values[m]);
                        }
                        assert(lists_value(entries[j], a, b, c));
                    }
                }
            }
            assert forall|m: int| 0 <= m < after.values.len() implies comes_from(
                #[trigger] after.values[m],
                entries,
            ) by {
                if m == k {
                    assert(lists_value(entries[n], name, number, description));
                } else if m < k {
                    assert(after.values[m] == before.values[m]);
                } else {
                    assert(after.values[m] == before.values[m - 1]);
                }
            }
        }
    }
}

/// Whether the numbers of the entries of a mapping that list values differ from each other.
pub open spec fn numbers_differ(entries: Seq<(Yaml, Yaml)>) -> bool {
    forall|
        i: int,
        j: int,
        a: Seq<char>,
        b: Seq<char>,
        number: i64,
        c: Seq<char>,
        d: Seq<char>,
    |
        0 <= i < j < entries.len() && #[trigger] lists_value(entries[i], a, number, c)
            ==> !#[trigger] lists_value(entries[j], b, number, d)
}

/// Whether an entry of a mapping lists a value.
pub open spec fn lists_some_value(entry: (Yaml, Yaml)) -> bool {
    exists|name: Seq<char>, number: i64, description: Seq<char>| #[trigger]
        lists_value(entry, name, number, description)
}

/// The values of a mapping can be read exactly where each of its entries lists a value or is
/// passed over, and no two of them have the same number.
pub proof fn law_values_can_be_read(entries: Seq<(Yaml, Yaml)>)
    ensures
        value_table(entries) is Ok <==> {
            &&& forall|j: int|
                0 <= j < entries.len() ==> is_passed_over(#[trigger] entries[j])
                    || lists_some_value(entries[j])
            &&& numbers_differ(entries)
        },
    decreases entries.len(),
{
    if entries.len() > 0 {
        let shorter = entries.drop_last();
        let last = entries.last();
        let n = shorter.len() as int;
        law_values_can_be_read(shorter);
        assert(entries[n] == last);
        assert(forall|j: int| 0 <= j < n ==> #[trigger] shorter[j] == entries[j]);
        if value_table(entries) is Ok {
            law_values_are_listed(entries);
            assert forall|j: int| 0 <= j < entries.len() implies is_passed_over(
                #[trigger] entries[j],
            ) || lists_some_value(entries[j]) by {
                if !is_passed_over(entries[j]) {
                    assert(is_listed_among(entries[j], value_table(entries)->Ok_0.values));
                }
            }
            assert forall|
                i: int,
                j: int,
                a: Seq<char>,
                b: Seq<char>,
                number: i64,
                c: Seq<char>,
                d: Seq<char>,
            |
                0 <= i < j < entries.len() && #[trigger] lists_value(entries[i], a, number, c)
                implies !#[trigger] lists_value(entries[j], b, number, d) by {
                if lists_value(entries[j], b, number, d) {
                    if j < n {
                        assert(lists_value(shorter[i], a, number, c));
                        assert(lists_value(shorter[j], b, number, d));
                    } else {
                        assert(lists_value(shorter[i], a, number, c));
                        lemma_number_is_taken(shorter, i, a, number, c);
                    }
                }
            }
        }
        if (forall|j: int|
            0 <= j < entries.len() ==> is_passed_over(#[trigger] entries[j]) || lists_some_value(
                entries[j],
            )) && numbers_differ(entries) {
            assert forall|j: int| 0 <= j < shorter.len() implies is_passed_over(
                #[trigger] shorter[j],
            ) || lists_some_value(shorter[j]) by {
                assert(is_passed_over(entries[j]) || lists_some_value(entries[j]));
            }
            assert(numbers_differ(shorter)) by {
                assert forall|
                    i: int,
                    j: int,
                    a: Seq<char>,
                    b: Seq<char>,
                    number: i64,
                    c: Seq<char>,
                    d: Seq<char>,
                |
                    0 <= i < j < shorter.len() && #[trigger] lists_value(shorter[i], a, number, c)
                    implies !#[trigger] lists_value(shorter[j], b, number, d) by {
                    assert(lists_value(entries[i], a, number, c));
                    assert(!lists_value(entries[j], b, number, d));
                }
            }
            let before = value_table(shorter)->Ok_0;
            assert(is_passed_over(entries[n]) || lists_some_value(entries[n]));
            if !is_passed_over(last) {
                let (name, number, description) = choose|
                    name: Seq<char>,
                    number: i64,
                    description: Seq<char>,
                | #[trigger] lists_value(last, name, number, description);
                if before.numbers.contains(number) {
                    lemma_number_comes_from(shorter, number);
                    let (i, a, c) = choose|i: int, a: Seq<char>, c: Seq<char>|
                        0 <= i < shorter.len() && #[trigger] lists_value(shorter[i], a, number, c);
                    assert(lists_value(entries[i], a, number, c));
                    assert(lists_value(entries[n], name, number, description));
                    assert(false);
                }
            }
        }
    }
}

/// The number of an entry is among the numbers of the values.
proof fn lemma_number_is_taken(
    entries: Seq<(Yaml, Yaml)>,
    i: int,
    name: Seq<char>,
    number: i64,
    description: Seq<char>,
)
    requires
        value_table(entries) is Ok,
        0 <= i < entries.len(),
        lists_value(entries[i], name, number, description),
    ensures
        value_table(entries)->Ok_0.numbers.contains(number),
    decreases entries.len(),
{
    let shorter = entries.drop_last();
    let last = entries.last();
    let before = value_table(shorter)->Ok_0;
    let after = value_table(entries)->Ok_0;
    crate::laws::values::law_values_are_ordered(shorter);
    assert(with_value(before, last.0, last.1) == Ok::<_, ErrorView>(after));
    if i < shorter.len() {
        assert(shorter[i] == entries[i]);
        lemma_number_is_taken(shorter, i, name, number, description);
        let m = before.numbers.index_of(number);
        if after != before {
            let new = last.1->Array_0@[0]->Integer_0;
            let k = rank(before.numbers, new);
            lemma_rank(before.numbers, new);
            assert(after.numbers == before.numbers.insert(k, new));
            if m < k {
                assert(after.numbers[m] == number);
            } else {
                assert(after.numbers[m + 1] == number);
            }
        }
    } else {
        let k = rank(before.numbers, number);
        lemma_rank(before.numbers, number);
        assert(after.numbers == before.numbers.insert(k, number));
        assert(after.numbers[k] == number);
    }
}

/// The numbers of the values are numbers of entries.
proof fn lemma_number_comes_from(entries: Seq<(Yaml, Yaml)>, number: i64)
    requires
        value_table(entries) is Ok,
        value_table(entries)->Ok_0.numbers.contains(number),
    ensures
        exists|i: int, a: Seq<char>, c: Seq<char>|
            0 <= i < entries.len() && #[trigger] lists_value(entries[i], a, number, c),
    decreases entries.len(),
{
    if entries.len() > 0 {
        let shorter = entries.drop_last();
        let last = entries.last();
        let before = value_table(shorter)->Ok_0;
        let after = value_table(entries)->Ok_0;
        assert(with_value(before, last.0, last.1) == Ok::<_, ErrorView>(after));
        if before.numbers.contains(number) {
            lemma_number_comes_from(shorter, number);
            let (i, a, c) = choose|i: int, a: Seq<char>, c: Seq<char>|
                0 <= i < shorter.len() && #[trigger] lists_value(shorter[i], a, number, c);
            assert(shorter[i] == entries[i]);
            assert(lists_value(entries[i], a, number, c));
        } else {
            let new = last.1->Array_0@[0]->Integer_0;
            let k = rank(before.numbers, new);
            lemma_rank(before.numbers, new);
            let m = after.numbers.index_of(number);
            if m < k {
                assert(before.numbers[m] == number);
            } else if m > k {
                assert(before.numbers[m - 1] == number);
            }
            let name = last.0->String_0@;
            let description = last.1->Array_0@[1]->String_0@;
            assert(lists_value(entries[entries.len() - 1], name, number, description));
        }
    }
}

/// Whether the field at a position leads those that a specification picks out: none of them starts
/// before it, and none that starts there stands before it.
pub open spec fn leads(fields: Seq<FieldView>, spec: Seq<char>, l: int) -> bool {
    &&& 0 <= l < fields.len()
    &&& picks(fields[l], spec)
    &&& forall|m: int|
        0 <= m < fields.len() && picks(#[trigger] fields[m], spec)
            ==> fields[l].info.bit_range.offset <= fields[m].info.bit_range.offset && (
        fields[l].info.bit_range.offset == fields[m].info.bit_range.offset ==> l <= m)
}

/// What a set of values is called after a field: its name without placeholders, with a letter
/// behind it if the values are for reads or for writes alone.
pub open spec fn set_name(field: Seq<char>, usage: Usage) -> Seq<char> {
    replaced(field, seq!['%', 's'], Seq::empty()) + match usage {
        Usage::Read => seq!['R'],
        Usage::Write => seq!['W'],
        Usage::ReadWrite => Seq::empty(),
    }
}

/// A copy of the set of values of some name.
pub open spec fn copy_of(name: Seq<char>) -> EnumeratedValuesView {
    EnumeratedValuesView {
        name: None,
        usage: None,
        derived_from: Some(name),
        values: Seq::empty(),
    }
}

/// The entries that values are taken from, and whether they replace others: those under
/// `_replace_enum`, or else all of them.
pub open spec fn taken_from(entries: Seq<(Yaml, Yaml)>) -> (Seq<(Yaml, Yaml)>, bool) {
    match lookup(entries, "_replace_enum"@) {
        Some(Yaml::Hash(h)) => (h.entries@, true),
        _ => (entries, false),
    }
}

proof fn lemma_lead_leads(fields: Seq<FieldView>, spec: Seq<char>)
    ensures
        ({
            let found = named_indices(fields, matched_names(fields, spec));
            &&& found.len() > 0 ==> leads(fields, spec, lead(fields, found))
            &&& found.len() == 0 <==> forall|m: int|
                0 <= m < fields.len() ==> !picks(#[trigger] fields[m], spec)
        }),
{
    let names = matched_names(fields, spec);
    let found = named_indices(fields, names);
    lemma_matched_names(fields, spec);
    lemma_named_indices(fields, names);
    if found.len() > 0 {
        let l = lead(fields, found);
        assert(bears(fields[found[0]], names));
        law_lead_is_least(fields, names, found[0]);
        assert(picks(fields[found[0]], spec));
        assert forall|m: int| 0 <= m < fields.len() && picks(#[trigger] fields[m], spec) implies fields[l].info.bit_range.offset
            <= fields[m].info.bit_range.offset && (fields[l].info.bit_range.offset
            == fields[m].info.bit_range.offset ==> l <= m) by {
            assert(bears(fields[m], names));
            law_lead_is_least(fields, names, m);
        }
    } else {
        assert forall|m: int| 0 <= m < fields.len() implies !picks(#[trigger] fields[m], spec) by {
            if picks(fields[m], spec) {
                assert(bears(fields[m], names));
                assert(found.contains(m));
            }
        }
    }
}

/// Values that a mapping lists, where that goes well, are given to each field that is picked out.
/// The set is named after the field that leads them, for the usage that is asked for; fields that
/// start where that one starts get the set itself, and the others a copy of it. It is set as sets
/// are set: with replacement where that is asked for, and copies always.
pub proof fn law_listing_gives_sets(
    reg: RegisterView,
    pname: Seq<char>,
    spec: Seq<char>,
    entries: Seq<(Yaml, Yaml)>,
    usage: Usage,
    l: int,
    i: int,
)
    requires
        enumerated(reg, pname, spec, entries, usage).1 is Ok,
        lookup(taken_from(entries).0, "_derivedFrom"@) is None,
        leads(reg.fields(), spec, l),
        0 <= i < reg.fields().len(),
        picks(reg.fields()[i], spec),
    ensures
        ({
            let (source, replace) = taken_from(entries);
            let before = reg.fields()[i];
            let after = enumerated(reg, pname, spec, entries, usage).0.fields()[i];
            let name = set_name(reg.fields()[l].info.name, usage);
            let table = value_table(source);
            &&& !begins_with_digit(replaced(reg.fields()[l].info.name, seq!['%', 's'], Seq::empty()))
            &&& after.dim == before.dim
            &&& table is Ok
            &&& table->Ok_0.values.len() > 0
            &&& if before.info.bit_range.offset == reg.fields()[l].info.bit_range.offset {
                enum_set(
                    before.info,
                    EnumeratedValuesView {
                        name: description_given(name),
                        usage: Some(usage),
                        derived_from: None,
                        values: table->Ok_0.values,
                    },
                    usage,
                    replace,
                ) == (after.info, Ok::<(), ErrorView>(()))
            } else {
                enum_set(before.info, copy_of(name), usage, true) == (
                    after.info,
                    Ok::<(), ErrorView>(()),
                )
            }
        }),
{
    let fields = reg.fields();
    let names = matched_names(fields, spec);
    let found = named_indices(fields, names);
    let (source, replace) = taken_from(entries);
    lemma_matched_names(fields, spec);
    lemma_lead_leads(fields, spec);
    let first = lead(fields, found);
    assert(leads(fields, spec, first));
    assert(picks(fields[first], spec));
    assert(first == l);
    let info = fields[l].info;
    assert(placeholder() =~= seq!['%', 's']);
    let name = set_name(info.name, usage);
    assert(listed(reg, names, pname, spec, source, usage, replace) == enumerated(
        reg,
        pname,
        spec,
        entries,
        usage,
    ));
    let step = |f: FieldView|
        list_step(f, info.bit_range.offset, name, source, usage, replace);
    lemma_update_length(fields, names, step);
    lemma_update_went_well(fields, names, step, i);
    lemma_update_went_well(fields, names, step, l);
    lemma_fields_after(reg, update_named(fields, names, step).0);
}

/// Values that a mapping lists are refused where no field is picked out, with nothing changed. They
/// are given where all of them can be read and there is one, no field that is picked out has values
/// already, and the name of the field that leads does not begin with a digit.
pub proof fn law_listing_answers(
    reg: RegisterView,
    pname: Seq<char>,
    spec: Seq<char>,
    entries: Seq<(Yaml, Yaml)>,
    usage: Usage,
    l: int,
)
    requires
        lookup(entries, "_replace_enum"@) is None,
        lookup(entries, "_derivedFrom"@) is None,
    ensures
        (forall|m: int| 0 <= m < reg.fields().len() ==> !picks(#[trigger] reg.fields()[m], spec))
            ==> enumerated(reg, pname, spec, entries, usage) == (
            reg,
            Err::<(), ErrorView>(
                ErrorView::FieldNotFound { peripheral: pname, register: reg.info.name, spec },
            ),
        ),
        leads(reg.fields(), spec, l) && value_table(entries) is Ok && value_table(
            entries,
        )->Ok_0.values.len() > 0 && !begins_with_digit(
            replaced(reg.fields()[l].info.name, seq!['%', 's'], Seq::empty()),
        ) && (forall|m: int|
            0 <= m < reg.fields().len() && picks(#[trigger] reg.fields()[m], spec)
                ==> reg.fields()[m].info.enumerated_values.len() == 0) ==> enumerated(
            reg,
            pname,
            spec,
            entries,
            usage,
        ).1 is Ok,
{
    let fields = reg.fields();
    let names = matched_names(fields, spec);
    let found = named_indices(fields, names);
    lemma_matched_names(fields, spec);
    lemma_lead_leads(fields, spec);
    assert(placeholder() =~= seq!['%', 's']);
    if leads(fields, spec, l) && value_table(entries) is Ok && value_table(
        entries,
    )->Ok_0.values.len() > 0 && !begins_with_digit(
        replaced(fields[l].info.name, seq!['%', 's'], Seq::empty()),
    ) && (forall|m: int|
        0 <= m < fields.len() && picks(#[trigger] fields[m], spec)
            ==> fields[m].info.enumerated_values.len() == 0) {
        let first = lead(fields, found);
        assert(picks(fields[first], spec));
        assert(first == l);
        let info = fields[l].info;
        let name = set_name(info.name, usage);
        let step = |f: FieldView|
            list_step(f, info.bit_range.offset, name, entries, usage, false);
        assert forall|m: int| 0 <= m < fields.len() && bears(#[trigger] fields[m], names) implies step(
            fields[m],
        ).1 is Ok by {
            assert(picks(fields[m], spec));
        }
        crate::laws::changes::lemma_update_goes_well(fields, names, step);
    }
}

/// Whether a set of values of some name is one of those of a field.
pub open spec fn is_set_named(
    fields: Seq<FieldView>,
    name: Seq<char>,
    k: int,
    m: int,
) -> bool {
    &&& 0 <= k < fields.len()
    &&& 0 <= m < fields[k].info.enumerated_values.len()
    &&& fields[k].info.enumerated_values[m].name == Some(name)
}

proof fn lemma_sets_counted(
    sets: Seq<EnumeratedValuesView>,
    name: Seq<char>,
    a: int,
    b: int,
)
    requires
        0 <= a < b < sets.len(),
        sets[a].name == Some(name),
        sets[b].name == Some(name),
    ensures
        sets.filter(|e: EnumeratedValuesView| e.name == Some(name)).len() >= 2,
    decreases sets.len(),
{
    let wanted = |e: EnumeratedValuesView| e.name == Some(name);
    reveal(Seq::filter);
    let shorter = sets.drop_last();
    if b < shorter.len() {
        assert(shorter[a] == sets[a] && shorter[b] == sets[b]);
        lemma_sets_counted(shorter, name, a, b);
    } else {
        assert(shorter[a] == sets[a]);
        shorter.lemma_filter_contains(wanted, a);
        assert(shorter.filter(wanted).len() >= 1);
    }
}

proof fn lemma_one_set(
    fields: Seq<FieldView>,
    name: Seq<char>,
    k: int,
    m: int,
    k2: int,
    m2: int,
)
    requires
        is_set_named(fields, name, k, m),
        is_set_named(fields, name, k2, m2),
        named_enums(fields, name).len() <= 1,
    ensures
        k == k2 && m == m2,
        named_enums(fields, name).len() == 1,
        named_enums(fields, name)[0] == fields[k].info.enumerated_values[m],
    decreases fields.len(),
{
    let shorter = fields.drop_last();
    let n = shorter.len() as int;
    let before = named_enums(shorter, name);
    let wanted = |e: EnumeratedValuesView| e.name == Some(name);
    let sets = fields.last().info.enumerated_values;
    let more = sets.filter(wanted);
    assert(named_enums(fields, name) == before + more);
    if k < n && k2 < n {
        assert(shorter[k] == fields[k] && shorter[k2] == fields[k2]);
        lemma_one_set(shorter, name, k, m, k2, m2);
        assert((before + more)[0] == before[0]);
    } else if k == n && k2 == n {
        sets.lemma_filter_contains(wanted, m);
        if m < m2 {
            lemma_sets_counted(sets, name, m, m2);
        } else if m2 < m {
            lemma_sets_counted(sets, name, m2, m);
        }
        assert(more.contains(sets[m]));
        let j = more.index_of(sets[m]);
        assert((before + more)[before.len() + j] == sets[m]);
    } else {
        let (a, b) = if k < n {
            (k, m)
        } else {
            (k2, m2)
        };
        let c = if k < n {
            m2
        } else {
            m
        };
        assert(shorter[a] == fields[a]);
        lemma_some_set(shorter, name, a, b);
        sets.lemma_filter_contains(wanted, c);
        assert(more.len() >= 1);
        assert(before.len() >= 1);
    }
}

proof fn lemma_some_set(fields: Seq<FieldView>, name: Seq<char>, k: int, m: int)
    requires
        is_set_named(fields, name, k, m),
    ensures
        named_enums(fields, name).len() >= 1,
    decreases fields.len(),
{
    let shorter = fields.drop_last();
    let wanted = |e: EnumeratedValuesView| e.name == Some(name);
    if k < shorter.len() {
        assert(shorter[k] == fields[k]);
        lemma_some_set(shorter, name, k, m);
    } else {
        fields.last().info.enumerated_values.lemma_filter_contains(wanted, m);
    }
}

proof fn lemma_found_set(fields: Seq<FieldView>, name: Seq<char>)
    requires
        named_enums(fields, name).len() >= 1,
    ensures
        exists|k: int, m: int| #[trigger] is_set_named(fields, name, k, m),
    decreases fields.len(),
{
    if fields.len() > 0 {
        let shorter = fields.drop_last();
        let wanted = |e: EnumeratedValuesView| e.name == Some(name);
        let sets = fields.last().info.enumerated_values;
        if named_enums(shorter, name).len() >= 1 {
            lemma_found_set(shorter, name);
            let (k, m) = choose|k: int, m: int| #[trigger] is_set_named(shorter, name, k, m);
            assert(shorter[k] == fields[k]);
            assert(is_set_named(fields, name, k, m));
        } else {
            let e = sets.filter(wanted)[0];
            sets.lemma_filter_pred(wanted, 0);
            assert(sets.filter(wanted).contains(e));
            sets.lemma_filter_contains_rev(wanted, e);
            let m = sets.index_of(e);
            assert(is_set_named(fields, name, fields.len() - 1, m));
        }
    }
}

/// Copies of the values of some name, where that goes well, are given to each field that is picked
/// out, none of which bears that name. Just one set of the register has the name; it is no copy
/// itself, and is meant for the usage that is asked for, or for all accesses where it does not say
/// for which. The copies are set with replacement.
pub proof fn law_copying_gives_sets(
    reg: RegisterView,
    pname: Seq<char>,
    spec: Seq<char>,
    entries: Seq<(Yaml, Yaml)>,
    usage: Usage,
    i: int,
)
    requires
        enumerated(reg, pname, spec, entries, usage).1 is Ok,
        lookup(taken_from(entries).0, "_derivedFrom"@) is Some,
        0 <= i < reg.fields().len(),
        picks(reg.fields()[i], spec),
    ensures
        lookup(taken_from(entries).0, "_derivedFrom"@) matches Some(Yaml::String(s)) && {
            let name = s@;
            let before = reg.fields()[i];
            let after = enumerated(reg, pname, spec, entries, usage).0.fields()[i];
            &&& before.info.name != name
            &&& after.dim == before.dim
            &&& enum_set(before.info, copy_of(name), usage, true) == (
                after.info,
                Ok::<(), ErrorView>(()),
            )
            &&& exists|k: int, m: int| #[trigger]
                is_set_named(reg.fields(), name, k, m) && {
                    let e = reg.fields()[k].info.enumerated_values[m];
                    e.derived_from is None && (e.usage == Some(usage) || e.usage is None && usage
                        == Usage::ReadWrite)
                }
            &&& forall|k: int, m: int, k2: int, m2: int|
                #![trigger is_set_named(reg.fields(), name, k, m), is_set_named(reg.fields(), name, k2, m2)]
                is_set_named(reg.fields(), name, k, m) && is_set_named(reg.fields(), name, k2, m2)
                    ==> k == k2 && m == m2
        },
{
    let fields = reg.fields();
    let names = matched_names(fields, spec);
    let (source, _) = taken_from(entries);
    lemma_matched_names(fields, spec);
    let name = lookup_text(source, "_derivedFrom"@)->Ok_0->Some_0;
    assert(derived(reg, names, pname, name, usage) == enumerated(reg, pname, spec, entries, usage));
    let step = |f: FieldView| derive_step(f, name, usage);
    lemma_update_length(fields, names, step);
    lemma_update_went_well(fields, names, step, i);
    lemma_fields_after(reg, update_named(fields, names, step).0);
    assert(origin_usage(fields, pname, name) == Ok::<Usage, ErrorView>(usage));
    lemma_found_set(fields, name);
    let (k, m) = choose|k: int, m: int| #[trigger] is_set_named(fields, name, k, m);
    lemma_one_set(fields, name, k, m, k, m);
    assert forall|k: int, m: int, k2: int, m2: int|
        #![trigger is_set_named(fields, name, k, m), is_set_named(fields, name, k2, m2)]
        is_set_named(fields, name, k, m) && is_set_named(fields, name, k2, m2) implies k == k2 && m
        == m2 by {
        lemma_one_set(fields, name, k, m, k2, m2);
    }
}

/// The answer of a step within another: where it does not go well, it tells which step it was.
pub open spec fn told(step: StepView, answer: Result<(), ErrorView>) -> Result<(), ErrorView> {
    match answer {
        Ok(_) => Ok(()),
        Err(e) => Err(ErrorView::During { step, error: Box::new(e) }),
    }
}

/// A mapping gives a field values for all accesses, unless it tells reads and writes apart: then
/// values for reads are given first, and after that, if it went well, values for writes. A list of
/// two is a range of what may be written. Anything else changes nothing. Where it does not go well,
/// the answer tells which of these steps it was.
pub proof fn law_description_is_followed(
    reg: RegisterView,
    pname: Seq<char>,
    spec: Seq<char>,
    fmod: Yaml,
)
    ensures
        ({
            let (after, answer) = field_processed(reg, pname, spec, fmod);
            match fmod {
                Yaml::Hash(h) => match (
                    lookup(h.entries@, "_read"@),
                    lookup(h.entries@, "_write"@),
                ) {
                    (None, None) => {
                        let all = enumerated(reg, pname, spec, h.entries@, Usage::ReadWrite);
                        after == all.0 && answer == told(
                            StepView::AddingValues(Usage::ReadWrite),
                            all.1,
                        )
                    },
                    (Some(Yaml::Hash(r)), None) => {
                        let reads = enumerated(reg, pname, spec, r.entries@, Usage::Read);
                        after == reads.0 && answer == told(
                            StepView::AddingValues(Usage::Read),
                            reads.1,
                        )
                    },
                    (None, Some(Yaml::Hash(w))) => {
                        let writes = enumerated(reg, pname, spec, w.entries@, Usage::Write);
                        after == writes.0 && answer == told(
                            StepView::AddingValues(Usage::Write),
                            writes.1,
                        )
                    },
                    (Some(Yaml::Hash(r)), Some(Yaml::Hash(w))) => {
                        let reads = enumerated(reg, pname, spec, r.entries@, Usage::Read);
                        let writes = enumerated(reads.0, pname, spec, w.entries@, Usage::Write);
                        if reads.1 is Ok {
                            after == writes.0 && answer == told(
                                StepView::AddingValues(Usage::Write),
                                writes.1,
                            )
                        } else {
                            after == reads.0 && answer == told(
                                StepView::AddingValues(Usage::Read),
                                reads.1,
                            )
                        }
                    },
                    _ => after == reg && answer == Err::<(), ErrorView>(ErrorView::NotHash),
                },
                Yaml::Array(a) => if a@.len() == 2 {
                    let range = ranged(reg, pname, spec, a@);
                    after == range.0 && answer == told(StepView::AddingRange, range.1)
                } else {
                    after == reg && answer is Ok
                },
                _ => after == reg && answer is Ok,
            }
        }),
{
    if let Yaml::Hash(h) = fmod {
        if let Some(Yaml::Hash(r)) = lookup(h@, "_read"@) {
            crate::laws::values::law_values_keep_matches(reg, pname, spec, r@, Usage::Read);
        }
    }
}

/// Values are refused with nothing changed where `_replace_enum` is there and is no mapping, and
/// where `_derivedFrom` is there and is no string.
pub proof fn law_values_have_to_be_given_right(
    reg: RegisterView,
    pname: Seq<char>,
    spec: Seq<char>,
    entries: Seq<(Yaml, Yaml)>,
    usage: Usage,
)
    ensures
        (lookup(entries, "_replace_enum"@) matches Some(v) && v !is Hash) ==> enumerated(
            reg,
            pname,
            spec,
            entries,
            usage,
        ) == (reg, Err::<(), ErrorView>(ErrorView::NotHash)),
        (lookup(entries, "_replace_enum"@) matches Some(v) ==> v is Hash) && (lookup(
            taken_from(entries).0,
            "_derivedFrom"@,
        ) matches Some(v) && v !is String) ==> enumerated(reg, pname, spec, entries, usage) == (
            reg,
            Err::<(), ErrorView>(ErrorView::NotString),
        ),
{
}

/// The set of values that a listing gives to the fields that start where the leading field starts.
pub open spec fn set_listed(
    field: Seq<char>,
    source: Seq<(Yaml, Yaml)>,
    usage: Usage,
) -> EnumeratedValuesView {
    EnumeratedValuesView {
        name: description_given(set_name(field, usage)),
        usage: Some(usage),
        derived_from: None,
        values: value_table(source)->Ok_0.values,
    }
}

/// A listing goes well exactly where a field is picked out, the name of the field that leads does
/// not begin with a digit, the values can be read and there is one, and each field that is picked
/// out can be given its set: the listed one with replacement where that is asked for, and a copy
/// with replacement always. A name that begins with a digit is told before values that cannot be
/// read, and leaves the fields as they were.
pub proof fn law_listing_goes_well(
    reg: RegisterView,
    pname: Seq<char>,
    spec: Seq<char>,
    entries: Seq<(Yaml, Yaml)>,
    usage: Usage,
    l: int,
)
    requires
        lookup(entries, "_replace_enum"@) matches Some(v) ==> v is Hash,
        lookup(taken_from(entries).0, "_derivedFrom"@) is None,
        leads(reg.fields(), spec, l),
    ensures
        ({
            let (source, replace) = taken_from(entries);
            let first = reg.fields()[l].info;
            let base = replaced(first.name, seq!['%', 's'], Seq::empty());
            let (after, answer) = enumerated(reg, pname, spec, entries, usage);
            let table = value_table(source);
            &&& answer is Ok <==> {
                &&& !begins_with_digit(base)
                &&& table is Ok
                &&& table->Ok_0.values.len() > 0
                &&& forall|m: int|
                    0 <= m < reg.fields().len() && picks(#[trigger] reg.fields()[m], spec)
                        ==> can_be_set(reg.fields()[m], first, source, usage, replace)
            }
            &&& begins_with_digit(base) ==> after == reg && answer == Err::<(), ErrorView>(
                ErrorView::EnumNameDigit { name: base },
            )
        }),
{
    let (source, replace) = taken_from(entries);
    let fields = reg.fields();
    let names = matched_names(fields, spec);
    let found = named_indices(fields, names);
    lemma_matched_names(fields, spec);
    lemma_lead_leads(fields, spec);
    assert(placeholder() =~= seq!['%', 's']);
    let first = lead(fields, found);
    assert(picks(fields[l], spec));
    assert(found.len() > 0);
    assert(picks(fields[first], spec));
    assert(first == l);
    let info = fields[l].info;
    let base = replaced(info.name, seq!['%', 's'], Seq::empty());
    if !begins_with_digit(base) {
        let name = set_name(info.name, usage);
        let offset = info.bit_range.offset;
        let step = |f: FieldView| list_step(f, offset, name, source, usage, replace);
        law_steps_stop_at_failure(fields, names, step);
        assert forall|m: int| 0 <= m < fields.len() implies (bears(#[trigger] fields[m], names)
            == picks(fields[m], spec)) by {}
        let table = value_table(source);
        let answer = update_named(fields, names, step).1;
        assert(enumerated(reg, pname, spec, entries, usage).1 == answer);
        if answer is Ok {
            assert(bears(fields[l], names));
            assert(step(fields[l]).1 is Ok);
            assert(table is Ok && table->Ok_0.values.len() > 0);
            assert forall|m: int| 0 <= m < fields.len() && picks(#[trigger] fields[m], spec) implies can_be_set(
                fields[m],
                info,
                source,
                usage,
                replace,
            ) by {
                assert(step(fields[m]).1 is Ok);
            }
        } else if table is Ok && table->Ok_0.values.len() > 0 && (forall|m: int|
            0 <= m < fields.len() && picks(#[trigger] fields[m], spec) ==> can_be_set(
                fields[m],
                info,
                source,
                usage,
                replace,
            )) {
            assert forall|m: int| 0 <= m < fields.len() && bears(#[trigger] fields[m], names) implies step(
                fields[m],
            ).1 is Ok by {
                assert(picks(fields[m], spec));
            }
        }
    }
}

/// Whether a field can be given its set of a listing that is led by another field.
pub open spec fn can_be_set(
    f: FieldView,
    first: FieldInfoView,
    source: Seq<(Yaml, Yaml)>,
    usage: Usage,
    replace: bool,
) -> bool {
    if f.info.bit_range.offset == first.bit_range.offset {
        enum_set(f.info, set_listed(first.name, source, usage), usage, replace).1 is Ok
    } else {
        enum_set(f.info, copy_of(set_name(first.name, usage)), usage, true).1 is Ok
    }
}

/// Whether just one set of values of some name is there, at a place.
pub open spec fn is_only_set_named(
    fields: Seq<FieldView>,
    name: Seq<char>,
    k: int,
    m: int,
) -> bool {
    &&& is_set_named(fields, name, k, m)
    &&& forall|k2: int, m2: int| #[trigger]
        is_set_named(fields, name, k2, m2) ==> k2 == k && m2 == m
}

/// Copies are refused with nothing changed where no set has the name, where several have it, where
/// the one that has it is a copy, and where it is meant for other accesses. If none of these is
/// the case, they are given exactly where no field that is picked out bears the name itself, and
/// each of them can be given a copy with replacement.
pub proof fn law_copying_answers(
    reg: RegisterView,
    pname: Seq<char>,
    spec: Seq<char>,
    entries: Seq<(Yaml, Yaml)>,
    usage: Usage,
    name: Seq<char>,
    k: int,
    m: int,
)
    requires
        lookup(entries, "_replace_enum"@) matches Some(v) ==> v is Hash,
        lookup(taken_from(entries).0, "_derivedFrom"@) matches Some(Yaml::String(s)) && s@ == name,
    ensures
        ({
            let fields = reg.fields();
            let (after, answer) = enumerated(reg, pname, spec, entries, usage);
            &&& (forall|a: int, b: int| !#[trigger] is_set_named(fields, name, a, b)) ==> after
                == reg && answer == Err::<(), ErrorView>(
                ErrorView::EnumNotFound { peripheral: pname, name },
            )
            &&& is_set_named(fields, name, k, m) && !is_only_set_named(fields, name, k, m)
                ==> after == reg && answer == Err::<(), ErrorView>(
                ErrorView::EnumAmbiguous { peripheral: pname, name },
            )
            &&& is_only_set_named(fields, name, k, m) ==> {
                let e = fields[k].info.enumerated_values[m];
                let meant = match e.usage {
                    Some(u) => u,
                    None => Usage::ReadWrite,
                };
                if e.derived_from is Some {
                    after == reg && answer == Err::<(), ErrorView>(
                        ErrorView::MultilevelDerive { peripheral: pname, name },
                    )
                } else if meant != usage {
                    after == reg && answer == Err::<(), ErrorView>(
                        ErrorView::UsageMismatch { usage, found: meant },
                    )
                } else {
                    answer is Ok <==> forall|i: int|
                        0 <= i < fields.len() && picks(#[trigger] fields[i], spec)
                            ==> fields[i].info.name != name && enum_set(
                            fields[i].info,
                            copy_of(name),
                            usage,
                            true,
                        ).1 is Ok
                }
            }
        }),
{
    let fields = reg.fields();
    let names = matched_names(fields, spec);
    let step = |f: FieldView| derive_step(f, name, usage);
    lemma_matched_names(fields, spec);
    let found = named_enums(fields, name);
    if forall|a: int, b: int| !#[trigger] is_set_named(fields, name, a, b) {
        if found.len() >= 1 {
            lemma_found_set(fields, name);
        }
    }
    if is_set_named(fields, name, k, m) {
        lemma_some_set(fields, name, k, m);
        if is_only_set_named(fields, name, k, m) {
            lemma_only_set(fields, name, k, m);
            law_steps_stop_at_failure(fields, names, step);
            let answer = update_named(fields, names, step).1;
            assert forall|i: int| 0 <= i < fields.len() implies (bears(#[trigger] fields[i], names)
                == picks(fields[i], spec)) by {}
            if answer is Ok {
                assert forall|i: int| 0 <= i < fields.len() && picks(#[trigger] fields[i], spec) implies fields[i].info.name
                    != name && enum_set(fields[i].info, copy_of(name), usage, true).1 is Ok by {
                    assert(step(fields[i]).1 is Ok);
                }
            } else if forall|i: int|
                0 <= i < fields.len() && picks(#[trigger] fields[i], spec) ==> fields[i].info.name
                    != name && enum_set(fields[i].info, copy_of(name), usage, true).1 is Ok {
                assert forall|i: int| 0 <= i < fields.len() && bears(#[trigger] fields[i], names) implies step(
                    fields[i],
                ).1 is Ok by {
                    assert(picks(fields[i], spec));
                }
            }
        } else if found.len() <= 1 {
            let (k2, m2) = choose|k2: int, m2: int| #[trigger]
                is_set_named(fields, name, k2, m2) && !(k2 == k && m2 == m);
            lemma_one_set(fields, name, k, m, k2, m2);
        }
    }
}

proof fn lemma_only_set(fields: Seq<FieldView>, name: Seq<char>, k: int, m: int)
    requires
        is_only_set_named(fields, name, k, m),
    ensures
        named_enums(fields, name) == seq![fields[k].info.enumerated_values[m]],
    decreases fields.len(),
{
    let shorter = fields.drop_last();
    let n = shorter.len() as int;
    let wanted = |e: EnumeratedValuesView| e.name == Some(name);
    let sets = fields.last().info.enumerated_values;
    let before = named_enums(shorter, name);
    let more = sets.filter(wanted);
    assert(named_enums(fields, name) == before + more);
    if k < n {
        assert forall|k2: int, m2: int| #[trigger] is_set_named(shorter, name, k2, m2) implies k2 == k
            && m2 == m by {
            assert(shorter[k2] == fields[k2]);
            assert(is_set_named(fields, name, k2, m2));
        }
        assert(shorter[k] == fields[k]);
        assert(is_set_named(shorter, name, k, m));
        lemma_only_set(shorter, name, k, m);
        if more.len() > 0 {
            sets.lemma_filter_pred(wanted, 0);
            assert(more.contains(more[0]));
            sets.lemma_filter_contains_rev(wanted, more[0]);
            let j = sets.index_of(more[0]);
            assert(is_set_named(fields, name, n, j));
        }
        assert(before + more =~= before);
    } else {
        if before.len() >= 1 {
            lemma_found_set(shorter, name);
            let (k2, m2) = choose|k2: int, m2: int| #[trigger] is_set_named(shorter, name, k2, m2);
            assert(shorter[k2] == fields[k2]);
            assert(is_set_named(fields, name, k2, m2));
        }
        assert forall|j: int| 0 <= j < sets.len() && wanted(#[trigger] sets[j]) implies j == m by {
            assert(is_set_named(fields, name, n, j));
        }
        lemma_filter_of_single(sets, wanted, m);
        assert(before + more =~= seq![sets[m]]);
    }
}

proof fn lemma_filter_of_single(
    sets: Seq<EnumeratedValuesView>,
    wanted: spec_fn(EnumeratedValuesView) -> bool,
    m: int,
)
    requires
        0 <= m < sets.len(),
        wanted(sets[m]),
        forall|j: int| 0 <= j < sets.len() && wanted(#[trigger] sets[j]) ==> j == m,
    ensures
        sets.filter(wanted) == seq![sets[m]],
{
    let front = sets.take(m);
    let one = seq![sets[m]];
    let back = sets.skip(m + 1);
    assert(sets =~= front + one + back);
    Seq::filter_distributes_over_add(front + one, back, wanted);
    Seq::filter_distributes_over_add(front, one, wanted);
    assert(front.filter(wanted).len() == 0) by {
        if front.filter(wanted).len() > 0 {
            let e = front.filter(wanted)[0];
            front.lemma_filter_pred(wanted, 0);
            assert(front.filter(wanted).contains(e));
            front.lemma_filter_contains_rev(wanted, e);
            assert(wanted(sets[front.index_of(e)]));
        }
    }
    assert(back.filter(wanted).len() == 0) by {
        if back.filter(wanted).len() > 0 {
            let e = back.filter(wanted)[0];
            back.lemma_filter_pred(wanted, 0);
            assert(back.filter(wanted).contains(e));
            back.lemma_filter_contains_rev(wanted, e);
            assert(wanted(sets[m + 1 + back.index_of(e)]));
        }
    }
    assert(one.filter(wanted) =~= one) by {
        reveal_with_fuel(Seq::filter, 2);
        assert(one.drop_last().len() == 0);
    }
    assert(sets.filter(wanted) =~= one);
}

/// The first entry of a mapping that is wrong tells what is wrong with it: its name is no string or
/// begins with a digit, its value is no list, lacks the number or the description, or has something
/// else in the place of one of them, or its number is there already. What comes behind it does not
/// matter.
pub proof fn law_first_wrong_value_is_told(entries: Seq<(Yaml, Yaml)>, j: int)
    requires
        0 <= j < entries.len(),
        value_table(entries.take(j)) is Ok,
    ensures
        value_table(entries.take(j + 1)) is Err ==> value_table(entries) == value_table(
            entries.take(j + 1),
        ),
        value_table(entries.take(j + 1)) matches Err(e) ==> match entries[j].0 {
            Yaml::String(s) => {
                if begins_with_digit(s@) {
                    e == (ErrorView::ValueNameDigit { name: s@ })
                } else {
                    match entries[j].1 {
                        Yaml::Array(a) => if a@.len() == 0 {
                            e == (ErrorView::IncompleteValue { name: s@ })
                        } else {
                            match a@[0] {
                                Yaml::Integer(n) => if a@.len() == 1 {
                                    e == (ErrorView::IncompleteValue { name: s@ })
                                } else if a@[1] is String {
                                    e == (ErrorView::DuplicateValue { name: s@, value: n })
                                } else {
                                    e == ErrorView::NotString
                                },
                                _ => e == ErrorView::NotInteger,
                            }
                        },
                        _ => e == ErrorView::NotArray,
                    }
                }
            },
            _ => e == ErrorView::NotString,
        },
    decreases entries.len(),
{
    let head = entries.take(j + 1);
    assert(head.drop_last() =~= entries.take(j));
    assert(head.last() == entries[j]);
    if value_table(head) is Err {
        if j + 1 == entries.len() {
            assert(head =~= entries);
        } else {
            let shorter = entries.drop_last();
            assert(shorter.take(j) =~= entries.take(j));
            assert(shorter.take(j + 1) =~= head);
            law_first_wrong_value_is_told(shorter, j);
        }
    }
}

/// A field with the set that a listing which is led by another field gives it.
pub open spec fn field_listed(
    f: FieldView,
    first: FieldInfoView,
    source: Seq<(Yaml, Yaml)>,
    usage: Usage,
    replace: bool,
) -> FieldView {
    let info = if f.info.bit_range.offset == first.bit_range.offset {
        enum_set(f.info, set_listed(first.name, source, usage), usage, replace).0
    } else {
        enum_set(f.info, copy_of(set_name(first.name, usage)), usage, true).0
    };
    FieldView { info, dim: f.dim }
}

/// Whether a listing has stopped at the field at a position: those that are picked out before it
/// have their sets, it is as it was, and so is everything behind it.
pub open spec fn listing_stops_at(
    fields: Seq<FieldView>,
    spec: Seq<char>,
    first: FieldInfoView,
    source: Seq<(Yaml, Yaml)>,
    usage: Usage,
    replace: bool,
    after: Seq<FieldView>,
    k: int,
) -> bool {
    &&& 0 <= k < fields.len()
    &&& picks(fields[k], spec)
    &&& after.len() == fields.len()
    &&& forall|i: int|
        0 <= i < k ==> #[trigger] after[i] == if picks(fields[i], spec) {
            field_listed(fields[i], first, source, usage, replace)
        } else {
            fields[i]
        }
    &&& forall|i: int| k <= i < fields.len() ==> #[trigger] after[i] == fields[i]
}

/// A listing that does not go well, though the field that leads has a name for its values, stops at
/// one of the fields: those before it keep the sets that they have been given.
pub proof fn law_listing_stops_at_failure(
    reg: RegisterView,
    pname: Seq<char>,
    spec: Seq<char>,
    entries: Seq<(Yaml, Yaml)>,
    usage: Usage,
    l: int,
)
    requires
        lookup(entries, "_replace_enum"@) matches Some(v) ==> v is Hash,
        lookup(taken_from(entries).0, "_derivedFrom"@) is None,
        leads(reg.fields(), spec, l),
        !begins_with_digit(replaced(reg.fields()[l].info.name, seq!['%', 's'], Seq::empty())),
        enumerated(reg, pname, spec, entries, usage).1 is Err,
    ensures
        exists|k: int| #[trigger]
            listing_stops_at(
                reg.fields(),
                spec,
                reg.fields()[l].info,
                taken_from(entries).0,
                usage,
                taken_from(entries).1,
                enumerated(reg, pname, spec, entries, usage).0.fields(),
                k,
            ),
{
    let (source, replace) = taken_from(entries);
    let fields = reg.fields();
    let names = matched_names(fields, spec);
    let found = named_indices(fields, names);
    lemma_matched_names(fields, spec);
    lemma_lead_leads(fields, spec);
    assert(placeholder() =~= seq!['%', 's']);
    let first = lead(fields, found);
    assert(picks(fields[l], spec));
    assert(found.len() > 0);
    assert(picks(fields[first], spec));
    assert(first == l);
    let info = fields[l].info;
    let name = set_name(info.name, usage);
    let offset = info.bit_range.offset;
    let step = |f: FieldView| list_step(f, offset, name, source, usage, replace);
    let (after, answer) = update_named(fields, names, step);
    law_steps_stop_at_failure(fields, names, step);
    lemma_update_length(fields, names, step);
    lemma_fields_after(reg, after);
    assert(enumerated(reg, pname, spec, entries, usage) == (reg.with_fields(after), answer));
    let k = choose|k: int| #[trigger] stops_at(fields, names, step, after, answer, k);
    assert(picks(fields[k], spec));
    assert forall|i: int| 0 <= i < k implies #[trigger] after[i] == if picks(fields[i], spec) {
        field_listed(fields[i], info, source, usage, replace)
    } else {
        fields[i]
    } by {
        assert(bears(fields[i], names) == picks(fields[i], spec));
        if picks(fields[i], spec) {
            assert(step(fields[i]).1 is Ok && after[i] == step(fields[i]).0);
        }
    }
    assert(after[k] == fields[k]) by {
        assert(step(fields[k]) == (after[k], answer));
        if value_table(source) is Ok {
            law_set_of_values(
                fields[k].info,
                set_listed(info.name, source, usage),
                usage,
                replace,
                0,
            );
        }
        law_set_of_values(fields[k].info, copy_of(name), usage, true, 0);
    }
    assert forall|i: int| k <= i < fields.len() implies #[trigger] after[i] == fields[i] by {
        if i > k {
            assert(after[i] == fields[i]);
        }
    }
    assert(enumerated(reg, pname, spec, entries, usage).0.fields() == after);
    assert(listing_stops_at(fields, spec, info, source, usage, replace, after, k));
}

/// Whether copying has stopped at the field at a position: those that are picked out before it have
/// their copies, it is as it was, and so is everything behind it.
pub open spec fn copying_stops_at(
    fields: Seq<FieldView>,
    spec: Seq<char>,
    name: Seq<char>,
    usage: Usage,
    after: Seq<FieldView>,
    answer: Result<(), ErrorView>,
    k: int,
) -> bool {
    &&& 0 <= k < fields.len()
    &&& picks(fields[k], spec)
    &&& after.len() == fields.len()
    &&& fields[k].info.name == name ==> answer == Err::<(), ErrorView>(ErrorView::SelfDerived)
    &&& forall|i: int|
        0 <= i < k ==> #[trigger] after[i] == if picks(fields[i], spec) {
            FieldView {
                info: enum_set(fields[i].info, copy_of(name), usage, true).0,
                dim: fields[i].dim,
            }
        } else {
            fields[i]
        }
    &&& forall|i: int| k <= i < fields.len() ==> #[trigger] after[i] == fields[i]
}

/// Copying that does not go well, though there is one set to copy, stops at one of the fields:
/// those before it keep the copies that they have been given. A field that bears the name of the
/// set is told to be copied from itself.
pub proof fn law_copying_stops_at_failure(
    reg: RegisterView,
    pname: Seq<char>,
    spec: Seq<char>,
    entries: Seq<(Yaml, Yaml)>,
    usage: Usage,
    name: Seq<char>,
    k: int,
    m: int,
)
    requires
        lookup(entries, "_replace_enum"@) matches Some(v) ==> v is Hash,
        lookup(taken_from(entries).0, "_derivedFrom"@) matches Some(Yaml::String(s)) && s@ == name,
        is_only_set_named(reg.fields(), name, k, m),
        reg.fields()[k].info.enumerated_values[m].derived_from is None,
        reg.fields()[k].info.enumerated_values[m].usage == Some(usage)
            || reg.fields()[k].info.enumerated_values[m].usage is None && usage == Usage::ReadWrite,
        enumerated(reg, pname, spec, entries, usage).1 is Err,
    ensures
        exists|j: int| #[trigger]
            copying_stops_at(
                reg.fields(),
                spec,
                name,
                usage,
                enumerated(reg, pname, spec, entries, usage).0.fields(),
                enumerated(reg, pname, spec, entries, usage).1,
                j,
            ),
{
    let fields = reg.fields();
    let names = matched_names(fields, spec);
    let step = |f: FieldView| derive_step(f, name, usage);
    lemma_matched_names(fields, spec);
    lemma_only_set(fields, name, k, m);
    let (after, answer) = update_named(fields, names, step);
    law_steps_stop_at_failure(fields, names, step);
    lemma_update_length(fields, names, step);
    lemma_fields_after(reg, after);
    assert(enumerated(reg, pname, spec, entries, usage) == (reg.with_fields(after), answer));
    let j = choose|j: int| #[trigger] stops_at(fields, names, step, after, answer, j);
    assert(picks(fields[j], spec));
    assert forall|i: int| 0 <= i < j implies #[trigger] after[i] == if picks(fields[i], spec) {
        FieldView {
            info: enum_set(fields[i].info, copy_of(name), usage, true).0,
            dim: fields[i].dim,
        }
    } else {
        fields[i]
    } by {
        assert(bears(fields[i], names) == picks(fields[i], spec));
        if picks(fields[i], spec) {
            assert(step(fields[i]).1 is Ok && after[i] == step(fields[i]).0);
        }
    }
    assert(after[j] == fields[j]) by {
        assert(step(fields[j]) == (after[j], answer));
        law_set_of_values(fields[j].info, copy_of(name), usage, true, 0);
    }
    assert forall|i: int| j <= i < fields.len() implies #[trigger] after[i] == fields[i] by {
        if i > j {
            assert(after[i] == fields[i]);
        }
    }
    assert(enumerated(reg, pname, spec, entries, usage).0.fields() == after);
    assert(copying_stops_at(fields, spec, name, usage, after, answer, j));
}

} // verus!
