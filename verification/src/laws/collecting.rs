//! What holds of collecting fields into an array.

use crate::collect::{
    ascending, by_offset, collected, collected_infos, collects, evenly_spaced, field_array,
    first_place, increment, index_texts, lemma_by_offset, lemma_nothing_collected, lemma_place,
    lemma_slot, slot, uncollected,
};
use crate::error::ErrorView;
use crate::fields::{bears, lemma_matched_names, matched_names, picks};
use crate::svd::{FieldInfoView, FieldView, RegisterView};
use crate::yaml::Yaml;
use vstd::prelude::*;

verus! {

/// Putting fields in the order of their offsets keeps each of them, and no field starts before
/// the one in front of it.
pub proof fn law_order_keeps_all(fields: Seq<FieldInfoView>)
    ensures
        ascending(by_offset(fields)),
        by_offset(fields).to_multiset() == fields.to_multiset(),
    decreases fields.len(),
{
    lemma_by_offset(fields);
    if fields.len() > 0 {
        let shorter = fields.drop_last();
        let before = by_offset(shorter);
        let f = fields.last();
        let k = slot(before, f.bit_range.offset);
        law_order_keeps_all(shorter);
        lemma_slot(before, f.bit_range.offset);
        let all = before.insert(k, f);
        assert(all.remove(k) =~= before);
        assert(all[k] == f);
        assert(all.contains(f));
        all.to_multiset_ensures();
        shorter.to_multiset_ensures();
        assert(shorter.push(f) =~= fields);
        assert(all.to_multiset() =~= before.to_multiset().insert(f));
    }
}

/// Fields of one offset stay in the order that they had.
pub proof fn law_order_is_stable(fields: Seq<FieldInfoView>, offset: u32)
    ensures
        by_offset(fields).filter(|f: FieldInfoView| f.bit_range.offset == offset)
            == fields.filter(|f: FieldInfoView| f.bit_range.offset == offset),
    decreases fields.len(),
{
    let here = |f: FieldInfoView| f.bit_range.offset == offset;
    if fields.len() > 0 {
        let shorter = fields.drop_last();
        let before = by_offset(shorter);
        let f = fields.last();
        let k = slot(before, f.bit_range.offset);
        law_order_is_stable(shorter, offset);
        lemma_slot(before, f.bit_range.offset);
        let front = before.take(k);
        let back = before.skip(k);
        assert(before =~= front + back);
        assert(by_offset(fields) =~= front.push(f) + back);
        Seq::filter_distributes_over_add(front, back, here);
        Seq::filter_distributes_over_add(front.push(f), back, here);
        assert(front.push(f).drop_last() =~= front);
        assert(front.push(f).filter(here) == if here(f) {
            front.filter(here).push(f)
        } else {
            front.filter(here)
        }) by {
            reveal(Seq::filter);
        }
        assert(fields.filter(here) == if here(f) {
            shorter.filter(here).push(f)
        } else {
            shorter.filter(here)
        }) by {
            reveal(Seq::filter);
        }
        if here(f) {
            assert forall|i: int| 0 <= i < back.len() implies !here(#[trigger] back[i]) by {
                assert(back[i] == before[k + i]);
            }
            back.lemma_all_neg_filter_empty(here);
            assert(front.filter(here) + back.filter(here) =~= front.filter(here));
            assert(front.filter(here).push(f) + back.filter(here) =~= front.filter(here).push(f));
        }
    } else {
        assert(by_offset(fields) == fields);
    }
}

/// A collection that goes well leaves the other fields in order, with one array in the place of
/// the first field that was collected. The array has an element for each collected field. Its
/// first element is where the lowest of them is, and its other elements are where the others
/// are, each one increment from the one before.
pub proof fn law_collect_makes_array(
    reg: RegisterView,
    spec: Seq<char>,
    entries: Seq<(Yaml, Yaml)>,
    i: int,
)
    requires
        reg.info.fields is Some,
        reg.fields().len() <= u32::MAX,
        collected(reg, spec, entries).1 is Ok,
    ensures
        ({
            let names = matched_names(reg.fields(), spec);
            let infos = by_offset(collected_infos(reg.fields(), names));
            let after = collected(reg, spec, entries).0.fields();
            let place = first_place(reg.fields(), names);
            let array = after[place];
            &&& 0 <= place < after.len()
            &&& after.remove(place) == uncollected(reg.fields(), names)
            &&& after.len() + infos.len() == reg.fields().len() + 1
            &&& array.info.bit_range == infos[0].bit_range
            &&& array.dim matches Some(dim) && {
                &&& dim.dim == infos.len()
                &&& dim.dim_index == Some(index_texts(infos, spec, entries))
                &&& 0 <= i < infos.len() ==> infos[i].bit_range.offset
                    == array.info.bit_range.offset + i * dim.dim_increment
            }
        }),
{
    let fields = reg.fields();
    let names = matched_names(fields, spec);
    let taken = collected_infos(fields, names);
    let infos = by_offset(taken);
    let rest = uncollected(fields, names);
    let after = collected(reg, spec, entries).0.fields();
    let place = first_place(fields, names);
    let wanted = |f: FieldView| collects(f, names);
    let kept = |f: FieldView| !collects(f, names);
    lemma_place(fields, names);
    lemma_by_offset(taken);
    lemma_filter_lengths(fields, wanted, kept);
    let array = field_array(infos, spec, entries)->Ok_0;
    assert(after == rest.insert(place, array));
    assert(after.remove(place) =~= rest);
    assert(index_texts(infos, spec, entries).len() == infos.len());
    if infos.len() > 1 {
        assert(infos[0].bit_range.offset <= infos[1].bit_range.offset);
    }
    if 0 <= i < infos.len() {
        lemma_evenly_spaced_offsets(infos, increment(infos), i);
    }
}

/// A filter and its opposite share the fields between them.
proof fn lemma_filter_lengths(
    fields: Seq<FieldView>,
    wanted: spec_fn(FieldView) -> bool,
    kept: spec_fn(FieldView) -> bool,
)
    requires
        forall|f: FieldView| #[trigger] kept(f) == !wanted(f),
    ensures
        fields.filter(wanted).len() + fields.filter(kept).len() == fields.len(),
    decreases fields.len(),
{
    reveal(Seq::filter);
    if fields.len() > 0 {
        lemma_filter_lengths(fields.drop_last(), wanted, kept);
        assert(kept(fields.last()) == !wanted(fields.last()));
    }
}

/// Fields that are evenly spaced start at multiples of the distance from the first.
proof fn lemma_evenly_spaced_offsets(fields: Seq<FieldInfoView>, distance: int, i: int)
    requires
        evenly_spaced(fields, distance),
        0 <= i < fields.len(),
    ensures
        fields[i].bit_range.offset == fields[0].bit_range.offset + i * distance,
    decreases i,
{
    if i > 0 {
        lemma_evenly_spaced_offsets(fields, distance, i - 1);
        assert(fields[i].bit_range.offset - fields[i - 1].bit_range.offset == distance);
        assert(i * distance == (i - 1) * distance + distance) by (nonlinear_arith);
    } else {
        assert(0 * distance == 0);
    }
}

/// A collection that finds no fields changes nothing; nor does one in a register that does not
/// list its fields, which is no error. Any other collection that is refused has dropped the
/// fields that it found.
pub proof fn law_collect_refused(reg: RegisterView, spec: Seq<char>, entries: Seq<(Yaml, Yaml)>)
    ensures
        reg.info.fields is None ==> collected(reg, spec, entries) == (reg, Ok::<(), ErrorView>(())),
        collected(reg, spec, entries).1 is Err ==> collected(reg, spec, entries).0.fields()
            == uncollected(reg.fields(), matched_names(reg.fields(), spec)),
        reg.info.fields is Some && collected_infos(
            reg.fields(),
            matched_names(reg.fields(), spec),
        ).len() == 0 ==> collected(
            reg,
            spec,
            entries,
        ) == (
            reg,
            Err::<(), ErrorView>(
                ErrorView::NothingToCollect { register: reg.info.name, spec },
            ),
        ),
{
    let names = matched_names(reg.fields(), spec);
    lemma_by_offset(collected_infos(reg.fields(), names));
    if collected_infos(reg.fields(), names).len() == 0 {
        lemma_nothing_collected(reg.fields(), names);
    }
}

/// Fields that have been collected into an array are not collected again by the same
/// specification: what it picks out there is no single field any more.
pub proof fn law_collect_twice(
    reg: RegisterView,
    spec: Seq<char>,
    entries: Seq<(Yaml, Yaml)>,
    others: Seq<(Yaml, Yaml)>,
)
    requires
        reg.info.fields is Some,
        collected(reg, spec, entries).1 is Ok,
    ensures
        ({
            let once = collected(reg, spec, entries).0;
            collected(once, spec, others) == (
                once,
                Err::<(), ErrorView>(
                    ErrorView::NothingToCollect { register: reg.info.name, spec },
                ),
            )
        }),
{
    let fields = reg.fields();
    let names = matched_names(fields, spec);
    let kept = |f: FieldView| !collects(f, names);
    let once = collected(reg, spec, entries).0;
    let again = matched_names(once.fields(), spec);
    let wanted = |f: FieldView| collects(f, again);
    let rest = uncollected(fields, names);
    let place = first_place(fields, names);
    lemma_place(fields, names);
    lemma_matched_names(fields, spec);
    lemma_matched_names(once.fields(), spec);
    let array = field_array(by_offset(collected_infos(fields, names)), spec, entries)->Ok_0;
    assert(once.fields() == rest.insert(place, array));
    assert forall|i: int| 0 <= i < once.fields().len() implies !wanted(
        #[trigger] once.fields()[i],
    ) by {
        let f = once.fields()[i];
        assert(bears(f, again) == picks(f, spec));
        if i != place {
            let j = if i < place {
                i
            } else {
                i - 1
            };
            assert(f == rest[j]);
            fields.lemma_filter_pred(kept, j);
            assert(rest.contains(f));
            fields.lemma_filter_contains_rev(kept, f);
            let k = fields.index_of(f);
            assert(bears(fields[k], names) == picks(fields[k], spec));
        }
    }
    once.fields().lemma_all_neg_filter_empty(wanted);
    assert(collected_infos(once.fields(), again).len() == 0);
    law_collect_refused(once, spec, others);
}

/// The fields that a collection drops from the list are the single fields that the specification
/// picks out.
pub proof fn law_collect_takes_picked(reg: RegisterView, spec: Seq<char>, i: int)
    requires
        0 <= i < reg.fields().len(),
    ensures
        collects(reg.fields()[i], matched_names(reg.fields(), spec)) <==> reg.fields()[i].dim is None
            && picks(reg.fields()[i], spec),
{
    lemma_matched_names(reg.fields(), spec);
}

} // verus!
