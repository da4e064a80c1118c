//! What holds of the array that fields are collected into, and of what stands for an index.

use crate::collect::{
    by_offset, collected, collected_infos, collects, evenly_spaced, field_array, first_place,
    increment, index_texts, lemma_by_offset, lemma_place, lemma_slot, slot, uncollected,
};
use crate::error::ErrorView;
use crate::fields::{lemma_matched_names, matched_names, picks};
use crate::laws::collecting::{law_collect_makes_array, law_order_keeps_all};
use crate::laws::edits::lemma_same_filter;
use crate::laws::texts::law_cut_out;
use crate::matching::{affixes, after_last, before_first};
use crate::split::placeholder;
use crate::svd::{FieldInfoView, FieldView, RegisterView};
use crate::text::{byte_len, decimal, replaced};
use crate::yaml::{lookup, lookup_text, Yaml};
use vstd::prelude::*;

verus! {

/// Whether a field can become an element of an array: it is no array itself, and is picked out.
pub open spec fn is_single(f: FieldView, spec: Seq<char>) -> bool {
    f.dim is None && picks(f, spec)
}

/// Whether the field at a position is the lowest of those that can become elements, and the first
/// of these that stand at its offset.
pub open spec fn is_lowest(fields: Seq<FieldView>, spec: Seq<char>, l: int) -> bool {
    &&& 0 <= l < fields.len()
    &&& is_single(fields[l], spec)
    &&& forall|m: int|
        0 <= m < fields.len() && is_single(#[trigger] fields[m], spec)
            ==> fields[l].info.bit_range.offset <= fields[m].info.bit_range.offset && (
        fields[l].info.bit_range.offset == fields[m].info.bit_range.offset ==> l <= m)
}

/// The first of the fields of the least offset comes first in the order of the offsets.
proof fn lemma_lowest_first(infos: Seq<FieldInfoView>, p: int)
    requires
        0 <= p < infos.len(),
        forall|m: int|
            0 <= m < p ==> (#[trigger] infos[m]).bit_range.offset > infos[p].bit_range.offset,
        forall|m: int|
            p <= m < infos.len() ==> (#[trigger] infos[m]).bit_range.offset
                >= infos[p].bit_range.offset,
    ensures
        by_offset(infos).len() == infos.len(),
        by_offset(infos)[0] == infos[p],
    decreases infos.len(),
{
    let shorter = infos.drop_last();
    let last = infos.last();
    let before = by_offset(shorter);
    lemma_by_offset(infos);
    lemma_by_offset(shorter);
    lemma_slot(before, last.bit_range.offset);
    let k = slot(before, last.bit_range.offset);
    assert forall|m: int| 0 <= m < shorter.len() implies #[trigger] shorter[m] == infos[m] by {}
    if p < shorter.len() {
        assert forall|m: int| p <= m < shorter.len() implies (
        #[trigger] shorter[m]).bit_range.offset >= shorter[p].bit_range.offset by {
            assert(infos[m].bit_range.offset >= infos[p].bit_range.offset);
        }
        lemma_lowest_first(shorter, p);
        assert(infos[infos.len() - 1].bit_range.offset >= infos[p].bit_range.offset);
        if k == 0 {
            assert(before[0].bit_range.offset > last.bit_range.offset);
        }
    } else {
        if k > 0 {
            law_order_keeps_all(shorter);
            let e = before[k - 1];
            before.to_multiset_ensures();
            shorter.to_multiset_ensures();
            assert(before.contains(e));
            assert(before.to_multiset().count(e) > 0);
            assert(shorter.to_multiset().count(e) > 0);
            let m = shorter.index_of(e);
            assert(infos[m].bit_range.offset > infos[p].bit_range.offset);
        }
    }
}

/// The lowest of the fields to collect comes first in the order of the offsets.
proof fn lemma_lowest_is_collected_first(fields: Seq<FieldView>, spec: Seq<char>, l: int)
    requires
        is_lowest(fields, spec, l),
    ensures
        ({
            let infos = by_offset(collected_infos(fields, matched_names(fields, spec)));
            infos.len() > 0 && infos[0] == fields[l].info
        }),
{
    let names = matched_names(fields, spec);
    let wanted = |f: FieldView| collects(f, names);
    lemma_matched_names(fields, spec);
    assert forall|m: int| 0 <= m < fields.len() implies wanted(#[trigger] fields[m]) == is_single(
        fields[m],
        spec,
    ) by {}
    let front = fields.take(l);
    let one = seq![fields[l]];
    let back = fields.skip(l + 1);
    assert(fields =~= front + one + back);
    Seq::filter_distributes_over_add(front + one, back, wanted);
    Seq::filter_distributes_over_add(front, one, wanted);
    assert(one.filter(wanted) =~= one) by {
        reveal_with_fuel(Seq::filter, 2);
        assert(one.drop_last().len() == 0);
        assert(wanted(one[0]));
    }
    let taken = fields.filter(wanted);
    let p = front.filter(wanted).len() as int;
    assert(taken[p] == fields[l]);
    let infos = collected_infos(fields, names);
    assert forall|m: int| 0 <= m < p implies (#[trigger] infos[m]).bit_range.offset
        > infos[p].bit_range.offset by {
        let f = front.filter(wanted)[m];
        assert(taken[m] == f);
        front.lemma_filter_pred(wanted, m);
        assert(front.filter(wanted).contains(f));
        front.lemma_filter_contains_rev(wanted, f);
        let j = front.index_of(f);
        assert(fields[j] == f);
        assert(is_single(fields[j], spec));
    }
    assert forall|m: int| p <= m < infos.len() implies (#[trigger] infos[m]).bit_range.offset
        >= infos[p].bit_range.offset by {
        let f = taken[m];
        fields.lemma_filter_pred(wanted, m);
        assert(taken.contains(f));
        fields.lemma_filter_contains_rev(wanted, f);
        let j = fields.index_of(f);
        assert(is_single(fields[j], spec));
    }
    lemma_lowest_first(infos, p);
}

/// The place of the first collected field is the place where it stood, and nothing changes before
/// it.
proof fn lemma_first_place(fields: Seq<FieldView>, names: Seq<Seq<char>>)
    requires
        exists|m: int| 0 <= m < fields.len() && collects(#[trigger] fields[m], names),
    ensures
        ({
            let place = first_place(fields, names);
            &&& 0 <= place < fields.len()
            &&& place <= uncollected(fields, names).len()
            &&& collects(fields[place], names)
            &&& forall|m: int|
                0 <= m < place ==> !collects(#[trigger] fields[m], names) && uncollected(
                    fields,
                    names,
                )[m] == fields[m]
        }),
    decreases fields.len(),
{
    let kept = |f: FieldView| !collects(f, names);
    lemma_place(fields, names);
    if !collects(fields[0], names) {
        let head = fields.take(1);
        let tail = fields.skip(1);
        assert(fields =~= head + tail);
        Seq::filter_distributes_over_add(head, tail, kept);
        assert(head.filter(kept) =~= seq![fields[0]]) by {
            reveal_with_fuel(Seq::filter, 2);
            assert(head.drop_last().len() == 0);
        }
        let m = choose|m: int| 0 <= m < fields.len() && collects(#[trigger] fields[m], names);
        assert(tail[m - 1] == fields[m]);
        lemma_first_place(tail, names);
        let place = first_place(fields, names);
        assert(fields[place] == tail[place - 1]);
        assert forall|m: int| 0 <= m < place implies !collects(#[trigger] fields[m], names)
            && uncollected(fields, names)[m] == fields[m] by {
            if m > 0 {
                assert(tail[m - 1] == fields[m]);
                assert(uncollected(fields, names)[m] == uncollected(tail, names)[m - 1]);
            }
        }
    }
}

/// A collection that goes well leaves the fields that were not collected, in order. One array
/// comes in, where the first collected field stood. It is the collected field of the least offset
/// in everything but its name and its description: its place, its access rights, the effects of
/// reads and writes, its write constraint, its values and what it is copied from. Its name and its
/// description are those that are asked for. Without a name being asked for, a placeholder takes
/// the place of what varies in the specification; without a description, or with the original one
/// being asked for, it keeps that of the field, in which placeholders take the place of zeros if
/// the first index is zero and nothing is asked for.
pub proof fn law_array_is_lowest_field(
    reg: RegisterView,
    spec: Seq<char>,
    entries: Seq<(Yaml, Yaml)>,
    l: int,
)
    requires
        reg.info.fields is Some,
        reg.fields().len() <= u32::MAX,
        collected(reg, spec, entries).1 is Ok,
        is_lowest(reg.fields(), spec, l),
    ensures
        exists|place: int| #[trigger]
            is_array_at(reg, spec, entries, l, place),
{
    let fields = reg.fields();
    let names = matched_names(fields, spec);
    let infos = by_offset(collected_infos(fields, names));
    let after = collected(reg, spec, entries).0.fields();
    let place = first_place(fields, names);
    lemma_matched_names(fields, spec);
    lemma_lowest_is_collected_first(fields, spec, l);
    assert(collects(fields[l], names));
    lemma_first_place(fields, names);
    law_collect_makes_array(reg, spec, entries, 0);
    let array = field_array(infos, spec, entries)->Ok_0;
    let rest = uncollected(fields, names);
    assert(after == rest.insert(place, array));
    lemma_same_filter(
        fields,
        |f: FieldView| !collects(f, names),
        |f: FieldView| !is_single(f, spec),
    );
    assert(after.remove(place) =~= rest);
    assert(placeholder() =~= seq!['%', 's']);
    assert(index_texts(infos, spec, entries).len() == infos.len());
    assert(is_array_at(reg, spec, entries, l, place));
}

/// Whether the array that a collection makes of the field at `l` and others stands at a place.
pub open spec fn is_array_at(
    reg: RegisterView,
    spec: Seq<char>,
    entries: Seq<(Yaml, Yaml)>,
    l: int,
    place: int,
) -> bool {
    let fields = reg.fields();
    let after = collected(reg, spec, entries).0.fields();
    let first = fields[l].info;
    let array = after[place];
    &&& 0 <= place < after.len()
    &&& after.remove(place) == fields.filter(|f: FieldView| !is_single(f, spec))
    &&& place < fields.len()
    &&& is_single(fields[place], spec)
    &&& forall|m: int| 0 <= m < place ==> !is_single(#[trigger] fields[m], spec)
    &&& array.info == FieldInfoView {
        name: array.info.name,
        description: array.info.description,
        ..first
    }
    &&& match lookup_text(entries, "name"@) {
        Ok(Some(name)) => array.info.name == name,
        Ok(None) => array.info.name == affixes(spec).0 + seq!['%', 's'] + affixes(spec).1,
        Err(_) => false,
    }
    &&& array.dim matches Some(dim) && dim.dim_index matches Some(indexes) && {
        &&& indexes.len() == dim.dim
        &&& dim.dim_name is None
        &&& dim.dim_array_index is None
        &&& match lookup_text(entries, "description"@) {
            Ok(Some(d)) => array.info.description == if d == "_original"@ {
                first.description
            } else {
                Some(d)
            },
            Ok(None) => array.info.description == if indexes[0] == seq!['0'] {
                match first.description {
                    Some(d) => Some(replaced(d, seq!['0'], seq!['%', 's'])),
                    None => None,
                }
            } else {
                first.description
            },
            Err(_) => false,
        }
    }
}

/// Each field that is collected becomes an element of the array: it starts where that element is.
/// The text for its index is the number of the element where that is asked for, and else what the
/// name has in place of what varies in the specification.
pub proof fn law_fields_become_elements(
    reg: RegisterView,
    spec: Seq<char>,
    entries: Seq<(Yaml, Yaml)>,
    l: int,
    m: int,
    place: int,
    start: Seq<char>,
    middle: Seq<char>,
    end: Seq<char>,
)
    requires
        reg.info.fields is Some,
        reg.fields().len() <= u32::MAX,
        collected(reg, spec, entries).1 is Ok,
        is_lowest(reg.fields(), spec, l),
        0 <= m < reg.fields().len(),
        is_single(reg.fields()[m], spec),
        is_array_at(reg, spec, entries, l, place),
        reg.fields()[m].info.name == start + middle + end,
        byte_len(start) == byte_len(affixes(spec).0),
        byte_len(end) == byte_len(affixes(spec).1),
    ensures
        ({
            let dim = collected(reg, spec, entries).0.fields()[place].dim->Some_0;
            let indexes = dim.dim_index->Some_0;
            &&& dim.dim == reg.fields().filter(|f: FieldView| is_single(f, spec)).len()
            &&& dim.dim == 1 ==> dim.dim_increment == 0
            &&& exists|k: int|
                0 <= k < dim.dim && reg.fields()[m].info.bit_range.offset
                    == reg.fields()[l].info.bit_range.offset + k * dim.dim_increment
                    && #[trigger] indexes[k] == if lookup(entries, "_start_from_zero"@) is Some {
                    decimal(k as nat)
                } else {
                    middle
                }
        }),
{
    let fields = reg.fields();
    let names = matched_names(fields, spec);
    let wanted = |f: FieldView| collects(f, names);
    let taken = collected_infos(fields, names);
    let infos = by_offset(taken);
    let after = collected(reg, spec, entries).0.fields();
    lemma_matched_names(fields, spec);
    lemma_lowest_is_collected_first(fields, spec, l);
    assert(collects(fields[l], names));
    lemma_first_place(fields, names);
    lemma_by_offset(taken);
    lemma_same_filter(fields, wanted, |f: FieldView| is_single(f, spec));
    law_array_is_lowest_field(reg, spec, entries, l);
    let first = first_place(fields, names);
    law_collect_makes_array(reg, spec, entries, 0);
    assert(place == first) by {
        if place < first {
            assert(!collects(fields[place], names));
        }
        if first < place {
            assert(!is_single(fields[first], spec));
        }
    }
    law_order_keeps_all(taken);
    let info = fields[m].info;
    fields.lemma_filter_contains(wanted, m);
    let q = fields.filter(wanted).index_of(fields[m]);
    assert(taken[q] == info);
    infos.to_multiset_ensures();
    taken.to_multiset_ensures();
    assert(taken.contains(info));
    assert(taken.to_multiset().count(info) > 0);
    assert(infos.to_multiset().count(info) > 0);
    let k = infos.index_of(info);
    law_collect_makes_array(reg, spec, entries, k);
    law_cut_out(start, middle, end);
    assert(index_texts(infos, spec, entries)[k] == if lookup(entries, "_start_from_zero"@) is Some {
        decimal(k as nat)
    } else {
        middle
    });
}

/// Fields are evenly spaced exactly where each stands as many times the distance from the first as
/// its place in the list says.
pub proof fn law_even_spacing(infos: Seq<FieldInfoView>, distance: int)
    ensures
        evenly_spaced(infos, distance) <==> forall|k: int|
            0 <= k < infos.len() ==> (#[trigger] infos[k]).bit_range.offset
                == infos[0].bit_range.offset + k * distance,
{
    if evenly_spaced(infos, distance) {
        assert forall|k: int| 0 <= k < infos.len() implies (#[trigger] infos[k]).bit_range.offset
            == infos[0].bit_range.offset + k * distance by {
            lemma_even_offset(infos, distance, k);
        }
    } else {
        if forall|k: int|
            0 <= k < infos.len() ==> (#[trigger] infos[k]).bit_range.offset
                == infos[0].bit_range.offset + k * distance {
            assert forall|i: int, j: int|
                #![trigger infos[i], infos[j]]
                0 <= i && j == i + 1 && j < infos.len() implies infos[j].bit_range.offset
                - infos[i].bit_range.offset == distance by {
                assert(infos[i].bit_range.offset == infos[0].bit_range.offset + i * distance);
                assert(infos[j].bit_range.offset == infos[0].bit_range.offset + j * distance);
                assert(j * distance == i * distance + distance) by (nonlinear_arith)
                    requires
                        j == i + 1,
                ;
            }
        }
    }
}

proof fn lemma_even_offset(infos: Seq<FieldInfoView>, distance: int, k: int)
    requires
        evenly_spaced(infos, distance),
        0 <= k < infos.len(),
    ensures
        infos[k].bit_range.offset == infos[0].bit_range.offset + k * distance,
    decreases k,
{
    if k > 0 {
        lemma_even_offset(infos, distance, k - 1);
        assert(infos[k].bit_range.offset - infos[k - 1].bit_range.offset == distance);
        assert(k * distance == (k - 1) * distance + distance) by (nonlinear_arith);
    } else {
        assert(k * distance == 0) by (nonlinear_arith)
            requires
                k == 0,
        ;
    }
}

/// A collection in a register that lists its fields is refused as one of nothing where there is no
/// field to collect, and otherwise as one of fields that cannot be collected where they are not
/// evenly spaced in the order of their offsets. It is refused as no string where the name or the
/// description that is asked for is none. In every other case it goes well. The fields to collect
/// are gone wherever there are any.
pub proof fn law_collect_answers(reg: RegisterView, spec: Seq<char>, entries: Seq<(Yaml, Yaml)>)
    requires
        reg.info.fields is Some,
    ensures
        ({
            let fields = reg.fields();
            let (after, answer) = collected(reg, spec, entries);
            let infos = by_offset(
                fields.filter(|f: FieldView| is_single(f, spec)).map_values(|f: FieldView| f.info),
            );
            let even = forall|k: int|
                0 <= k < infos.len() ==> (#[trigger] infos[k]).bit_range.offset
                    == infos[0].bit_range.offset + k * (if infos.len() > 1 {
                    infos[1].bit_range.offset - infos[0].bit_range.offset
                } else {
                    0
                });
            if infos.len() == 0 {
                after == reg && answer == Err::<(), ErrorView>(
                    ErrorView::NothingToCollect { register: reg.info.name, spec },
                )
            } else {
                &&& answer is Err ==> after == reg.with_fields(
                    fields.filter(|f: FieldView| !is_single(f, spec)),
                )
                &&& !even ==> answer == Err::<(), ErrorView>(
                    ErrorView::NotCollectable { register: reg.info.name, spec },
                )
                &&& even ==> if lookup_text(entries, "name"@) is Ok && lookup_text(
                    entries,
                    "description"@,
                ) is Ok {
                    answer is Ok
                } else {
                    answer == Err::<(), ErrorView>(ErrorView::NotString)
                }
            }
        }),
{
    let fields = reg.fields();
    let names = matched_names(fields, spec);
    lemma_matched_names(fields, spec);
    lemma_same_filter(
        fields,
        |f: FieldView| collects(f, names),
        |f: FieldView| is_single(f, spec),
    );
    lemma_same_filter(
        fields,
        |f: FieldView| !collects(f, names),
        |f: FieldView| !is_single(f, spec),
    );
    let infos = by_offset(collected_infos(fields, names));
    assert(collected_infos(fields, names) == fields.filter(
        |f: FieldView| is_single(f, spec),
    ).map_values(|f: FieldView| f.info));
    law_even_spacing(infos, increment(infos));
}

proof fn lemma_before_first(s: Seq<char>, c: char)
    ensures
        !before_first(s, c).contains(c),
        before_first(s, c).is_prefix_of(s),
        s.contains(c) ==> before_first(s, c).len() < s.len() && s[before_first(s, c).len() as int]
            == c,
        !s.contains(c) ==> before_first(s, c) == s,
    decreases s.len(),
{
    let a = before_first(s, c);
    if s.len() > 0 && s[0] != c {
        let rest = s.skip(1);
        let b = before_first(rest, c);
        lemma_before_first(rest, c);
        assert(a == seq![s[0]] + b);
        assert(a =~= s.subrange(0, a.len() as int)) by {
            assert(b =~= rest.subrange(0, b.len() as int));
            assert forall|i: int| 0 <= i < a.len() implies a[i] == s[i] by {
                if i > 0 {
                    assert(b[i - 1] == rest[i - 1]);
                }
            }
        }
        if a.contains(c) {
            let i = a.index_of(c);
            assert(b[i - 1] == c);
        }
        if s.contains(c) {
            let i = s.index_of(c);
            assert(rest[i - 1] == c);
        } else {
            if rest.contains(c) {
                assert(s[rest.index_of(c) + 1] == c);
            }
            assert(a =~= s);
        }
    } else {
        assert(a =~= s.subrange(0, 0));
        if s.len() > 0 {
            assert(s.contains(s[0]));
        } else {
            assert(a =~= s);
        }
    }
}

proof fn lemma_after_last(s: Seq<char>, c: char)
    ensures
        !after_last(s, c).contains(c),
        after_last(s, c).is_suffix_of(s),
        s.contains(c) ==> after_last(s, c).len() < s.len() && s[s.len() - after_last(s, c).len()
            - 1] == c,
        !s.contains(c) ==> after_last(s, c).len() == 0,
    decreases s.len(),
{
    let a = after_last(s, c);
    if s.len() > 0 && s.contains(c) && s.last() != c {
        let rest = s.drop_last();
        let b = after_last(rest, c);
        let i = s.index_of(c);
        assert(rest[i] == c);
        lemma_after_last(rest, c);
        assert(a == b.push(s.last()));
        assert(a =~= s.subrange(s.len() - a.len(), s.len() as int)) by {
            assert(b =~= rest.subrange(rest.len() - b.len(), rest.len() as int));
            assert forall|i: int| 0 <= i < a.len() implies a[i] == s[s.len() - a.len() + i] by {
                if i < b.len() {
                    assert(b[i] == rest[rest.len() - b.len() + i]);
                }
            }
        }
        if a.contains(c) {
            let i = a.index_of(c);
            assert(b[i] == c);
        }
    } else {
        assert(a =~= s.subrange(s.len() as int, s.len() as int));
    }
}

/// What varies in a specification reaches from its first star to its last. Without stars, it
/// reaches from the first question mark to the last; without these, from the first opening bracket
/// to the last closing one; and without any of them, all of the specification stands before it.
pub proof fn law_what_varies(spec: Seq<char>)
    ensures
        ({
            let (start, end) = affixes(spec);
            let token = if spec.contains('*') {
                Some(('*', '*'))
            } else if spec.contains('?') {
                Some(('?', '?'))
            } else if spec.contains('[') {
                Some(('[', ']'))
            } else {
                None
            };
            match token {
                Some((open, close)) => {
                    &&& !start.contains(open)
                    &&& start.is_prefix_of(spec)
                    &&& start.len() < spec.len()
                    &&& spec[start.len() as int] == open
                    &&& !end.contains(close)
                    &&& end.is_suffix_of(spec)
                    &&& spec.contains(close) ==> end.len() < spec.len() && spec[spec.len()
                        - end.len() - 1] == close
                    &&& !spec.contains(close) ==> end.len() == 0
                },
                None => start == spec && end.len() == 0,
            }
        }),
{
    lemma_before_first(spec, '*');
    lemma_after_last(spec, '*');
    lemma_before_first(spec, '?');
    lemma_after_last(spec, '?');
    lemma_before_first(spec, '[');
    lemma_after_last(spec, ']');
}

} // verus!
