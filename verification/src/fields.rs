//! Picking out, dropping and updating fields in a list of fields.

use crate::error::ErrorView;
use crate::matching::{matchname, name_matches};
use crate::svd::{field_views, Field, FieldView, Register};
use crate::text::{holds, texts};
use vstd::prelude::*;

verus! {

/// Whether a specification picks out a field.
pub open spec fn picks(f: FieldView, spec: Seq<char>) -> bool {
    name_matches(f.info.name, spec)
}

/// The positions of the fields that a specification picks out, in ascending order.
pub open spec fn matched_indices(fields: Seq<FieldView>, spec: Seq<char>) -> Seq<int>
    decreases fields.len(),
{
    if fields.len() == 0 {
        Seq::empty()
    } else {
        let before = matched_indices(fields.drop_last(), spec);
        if picks(fields.last(), spec) {
            before.push(fields.len() - 1)
        } else {
            before
        }
    }
}

/// The names of the fields that a specification picks out, in the order of the fields.
pub open spec fn matched_names(fields: Seq<FieldView>, spec: Seq<char>) -> Seq<Seq<char>> {
    matched_indices(fields, spec).map_values(|i: int| fields[i].info.name)
}

/// Whether a field bears one of the given names.
pub open spec fn bears(f: FieldView, names: Seq<Seq<char>>) -> bool {
    names.contains(f.info.name)
}

/// The fields that bear one of the given names.
pub open spec fn named(fields: Seq<FieldView>, names: Seq<Seq<char>>) -> Seq<FieldView> {
    fields.filter(|f: FieldView| bears(f, names))
}

/// The fields that bear none of the given names.
pub open spec fn others(fields: Seq<FieldView>, names: Seq<Seq<char>>) -> Seq<FieldView> {
    fields.filter(|f: FieldView| !bears(f, names))
}

/// The positions of the fields that bear one of the given names, in ascending order.
pub open spec fn named_indices(fields: Seq<FieldView>, names: Seq<Seq<char>>) -> Seq<int>
    decreases fields.len(),
{
    if fields.len() == 0 {
        Seq::empty()
    } else {
        let before = named_indices(fields.drop_last(), names);
        if bears(fields.last(), names) {
            before.push(fields.len() - 1)
        } else {
            before
        }
    }
}

/// Positions as mathematical integers.
pub open spec fn positions(indices: Seq<usize>) -> Seq<int> {
    indices.map_values(|i: usize| i as int)
}

/// The matched positions are the positions of the fields that are picked out, each once and in
/// ascending order.
pub proof fn lemma_matched_indices(fields: Seq<FieldView>, spec: Seq<char>)
    ensures
        forall|k: int|
            0 <= k < matched_indices(fields, spec).len() ==> 0 <= #[trigger] matched_indices(
                fields,
                spec,
            )[k] < fields.len() && picks(fields[matched_indices(fields, spec)[k]], spec),
        forall|j: int, k: int|
            0 <= j < k < matched_indices(fields, spec).len() ==> matched_indices(fields, spec)[j]
                < matched_indices(fields, spec)[k],
        forall|i: int|
            0 <= i < fields.len() && picks(#[trigger] fields[i], spec) ==> matched_indices(
                fields,
                spec,
            ).contains(i),
    decreases fields.len(),
{
    if fields.len() > 0 {
        let shorter = fields.drop_last();
        lemma_matched_indices(shorter, spec);
        let before = matched_indices(shorter, spec);
        let all = matched_indices(fields, spec);
        assert forall|k: int| 0 <= k < all.len() implies 0 <= #[trigger] all[k] < fields.len()
            && picks(fields[all[k]], spec) by {
            if k < before.len() {
                assert(all[k] == before[k]);
                assert(fields[all[k]] == shorter[before[k]]);
            }
        }
        assert forall|i: int| 0 <= i < fields.len() && picks(#[trigger] fields[i], spec) implies all.contains(
            i,
        ) by {
            if i < shorter.len() {
                assert(fields[i] == shorter[i]);
                let k = choose|k: int| 0 <= k < before.len() && before[k] == i;
                assert(all[k] == i);
            } else {
                assert(all[all.len() - 1] == i);
            }
        }
    }
}

/// The named positions are the positions of the fields that bear one of the names, each once and in
/// ascending order.
pub proof fn lemma_named_indices(fields: Seq<FieldView>, names: Seq<Seq<char>>)
    ensures
        forall|k: int|
            0 <= k < named_indices(fields, names).len() ==> 0 <= #[trigger] named_indices(
                fields,
                names,
            )[k] < fields.len() && bears(fields[named_indices(fields, names)[k]], names),
        forall|j: int, k: int|
            0 <= j < k < named_indices(fields, names).len() ==> named_indices(fields, names)[j]
                < named_indices(fields, names)[k],
        forall|i: int|
            0 <= i < fields.len() && bears(#[trigger] fields[i], names) ==> named_indices(
                fields,
                names,
            ).contains(i),
    decreases fields.len(),
{
    if fields.len() > 0 {
        let shorter = fields.drop_last();
        lemma_named_indices(shorter, names);
        let before = named_indices(shorter, names);
        let all = named_indices(fields, names);
        assert forall|k: int| 0 <= k < all.len() implies 0 <= #[trigger] all[k] < fields.len()
            && bears(fields[all[k]], names) by {
            if k < before.len() {
                assert(all[k] == before[k]);
                assert(fields[all[k]] == shorter[before[k]]);
            }
        }
        assert forall|i: int| 0 <= i < fields.len() && bears(#[trigger] fields[i], names) implies all.contains(
            i,
        ) by {
            if i < shorter.len() {
                assert(fields[i] == shorter[i]);
                let k = choose|k: int| 0 <= k < before.len() && before[k] == i;
                assert(all[k] == i);
            } else {
                assert(all[all.len() - 1] == i);
            }
        }
    }
}

/// Exactly those fields bear one of the names that a specification picks out which it picks out
/// themselves.
pub proof fn lemma_matched_names(fields: Seq<FieldView>, spec: Seq<char>)
    ensures
        forall|i: int|
            0 <= i < fields.len() ==> bears(#[trigger] fields[i], matched_names(fields, spec))
                == picks(fields[i], spec),
        named_indices(fields, matched_names(fields, spec)) == matched_indices(fields, spec),
{
    let names = matched_names(fields, spec);
    let found = matched_indices(fields, spec);
    lemma_matched_indices(fields, spec);
    assert forall|i: int| 0 <= i < fields.len() implies bears(#[trigger] fields[i], names) == picks(
        fields[i],
        spec,
    ) by {
        if bears(fields[i], names) {
            let k = choose|k: int| 0 <= k < names.len() && names[k] == fields[i].info.name;
            assert(picks(fields[found[k]], spec));
        }
        if picks(fields[i], spec) {
            let k = choose|k: int| 0 <= k < found.len() && found[k] == i;
            assert(names[k] == fields[i].info.name);
        }
    }
    lemma_same_indices(fields, names, spec);
}

proof fn lemma_same_indices(fields: Seq<FieldView>, names: Seq<Seq<char>>, spec: Seq<char>)
    requires
        forall|i: int|
            0 <= i < fields.len() ==> bears(#[trigger] fields[i], names) == picks(fields[i], spec),
    ensures
        named_indices(fields, names) == matched_indices(fields, spec),
    decreases fields.len(),
{
    if fields.len() > 0 {
        let shorter = fields.drop_last();
        assert forall|i: int| 0 <= i < shorter.len() implies bears(#[trigger] shorter[i], names)
            == picks(shorter[i], spec) by {
            assert(shorter[i] == fields[i]);
        }
        lemma_same_indices(shorter, names, spec);
        assert(bears(fields[fields.len() - 1], names) == picks(fields[fields.len() - 1], spec));
    }
}

/// Finds the positions of the fields of a register that a specification picks out.
pub(crate) fn find_in(reg: &Register, spec: &str) -> (r: Vec<usize>)
    ensures
        positions(r@) == matched_indices(reg@.fields(), spec@),
{
    let mut r: Vec<usize> = Vec::new();
    let ghost views = reg@.fields();
    assert(positions(r@) =~= matched_indices(views.take(0), spec@));
    if let Some(fields) = &reg.info.fields {
        let n = fields.len();
        for i in 0..n
            invariant
                n == fields@.len(),
                views == field_views(fields@),
                positions(r@) == matched_indices(views.take(i as int), spec@),
        {
            assert(views.take(i + 1).drop_last() =~= views.take(i as int));
            assert(views.take(i + 1).last() == fields@[i as int]@);
            if matchname(fields[i].info.name.as_str(), spec) {
                let ghost before = r@;
                r.push(i);
                assert(positions(r@) =~= positions(before).push(i as int));
            }
        }
        assert(views.take(n as int) =~= views);
    } else {
        assert(views =~= views.take(0));
    }
    r
}

/// Finds the positions of the fields of a register that bear one of the given names.
pub(crate) fn find_named(reg: &Register, names: &Vec<String>) -> (r: Vec<usize>)
    ensures
        positions(r@) == named_indices(reg@.fields(), texts(names@)),
{
    let mut r: Vec<usize> = Vec::new();
    let ghost views = reg@.fields();
    assert(positions(r@) =~= named_indices(views.take(0), texts(names@)));
    if let Some(fields) = &reg.info.fields {
        let n = fields.len();
        for i in 0..n
            invariant
                n == fields@.len(),
                views == field_views(fields@),
                positions(r@) == named_indices(views.take(i as int), texts(names@)),
        {
            assert(views.take(i + 1).drop_last() =~= views.take(i as int));
            assert(views.take(i + 1).last() == fields@[i as int]@);
            if holds(names, &fields[i].info.name) {
                let ghost before = r@;
                r.push(i);
                assert(positions(r@) =~= positions(before).push(i as int));
            }
        }
        assert(views.take(n as int) =~= views);
    } else {
        assert(views =~= views.take(0));
    }
    r
}

/// Finds the names of the fields of a register that a specification picks out.
pub(crate) fn names_in(reg: &Register, spec: &str) -> (r: Vec<String>)
    ensures
        texts(r@) == matched_names(reg@.fields(), spec@),
{
    let found = find_in(reg, spec);
    let mut r: Vec<String> = Vec::new();
    let n = found.len();
    proof {
        lemma_matched_indices(reg@.fields(), spec@);
    }
    let ghost fields = reg@.fields();
    let ghost indices = matched_indices(fields, spec@);
    match &reg.info.fields {
        Some(list) => {
            for k in 0..n
                invariant
                    n == found@.len(),
                    fields == field_views(list@),
                    positions(found@) == indices,
                    forall|k: int| 0 <= k < n ==> 0 <= #[trigger] indices[k] < fields.len(),
                    r@.len() == k,
                    forall|j: int|
                        0 <= j < k ==> #[trigger] r@[j]@ == fields[indices[j]].info.name,
            {
                assert(positions(found@)[k as int] == indices[k as int]);
                r.push(list[found[k]].info.name.clone());
            }
        },
        None => {
            assert(indices.len() == 0);
            assert(positions(found@).len() == 0);
        },
    }
    assert(positions(found@).len() == n);
    assert(texts(r@) =~= matched_names(fields, spec@));
    r
}

/// Drops the fields that bear one of the given names; the others stay in order.
pub(crate) fn drop_named(fields: &mut Vec<Field>, names: &Vec<String>)
    ensures
        field_views(final(fields)@) == others(field_views(old(fields)@), texts(names@)),
{
    let ghost views = field_views(fields@);
    let ghost kept = |f: FieldView| !bears(f, texts(names@));
    let mut i: usize = 0;
    let ghost mut seen: int = 0;
    assert(views.take(0).filter(kept) =~= Seq::empty()) by {
        reveal(Seq::filter);
    }
    assert(field_views(fields@) =~= views.take(0).filter(kept) + views.skip(0));
    while i < fields.len()
        invariant
            0 <= seen <= views.len(),
            kept == (|f: FieldView| !bears(f, texts(names@))),
            i == views.take(seen).filter(kept).len(),
            field_views(fields@) == views.take(seen).filter(kept) + views.skip(seen),
        decreases views.len() - seen,
    {
        let ghost done = views.take(seen).filter(kept);
        let ghost now = field_views(fields@);
        assert(now[i as int] == views.skip(seen)[0]);
        assert(now[i as int] == fields@[i as int]@);
        assert(views.take(seen + 1).drop_last() =~= views.take(seen));
        assert(views.take(seen + 1).last() == views[seen]);
        if holds(names, &fields[i].info.name) {
            assert(views.take(seen + 1).filter(kept) =~= done) by {
                reveal(Seq::filter);
            }
            fields.remove(i);
            assert(field_views(fields@) =~= now.remove(i as int));
            assert(now.remove(i as int) =~= done + views.skip(seen + 1));
        } else {
            assert(views.take(seen + 1).filter(kept) =~= done.push(views[seen])) by {
                reveal(Seq::filter);
            }
            i = i + 1;
            assert(field_views(fields@) =~= done.push(views[seen]) + views.skip(seen + 1));
        }
        proof {
            seen = seen + 1;
        }
    }
    assert(views.take(seen).filter(kept).len() == field_views(fields@).len());
    assert(views.skip(seen).len() == 0);
    assert(views.take(seen) =~= views);
    assert(field_views(fields@) =~= views.filter(kept));
}

/// The fields after a step has been applied, in order, to each field that bears one of the
/// given names, up to the first step that fails; and what that step answered.
pub open spec fn update_named(
    fields: Seq<FieldView>,
    names: Seq<Seq<char>>,
    step: spec_fn(FieldView) -> (FieldView, Result<(), ErrorView>),
) -> (Seq<FieldView>, Result<(), ErrorView>)
    decreases fields.len(),
{
    if fields.len() == 0 {
        (fields, Ok(()))
    } else {
        let (first, answer) = if bears(fields[0], names) {
            step(fields[0])
        } else {
            (fields[0], Ok(()))
        };
        if answer is Err {
            (seq![first] + fields.skip(1), answer)
        } else {
            let (rest, last) = update_named(fields.skip(1), names, step);
            (seq![first] + rest, last)
        }
    }
}

/// Whether the first `n` fields have been updated, and nothing else.
pub open spec fn updated_up_to(
    before: Seq<FieldView>,
    now: Seq<FieldView>,
    n: int,
    names: Seq<Seq<char>>,
    step: spec_fn(FieldView) -> (FieldView, Result<(), ErrorView>),
) -> bool {
    let rest = update_named(before.skip(n), names, step);
    &&& now.len() == before.len()
    &&& now.skip(n) == before.skip(n)
    &&& update_named(before, names, step) == (now.take(n) + rest.0, rest.1)
}

/// Nothing has been updated at the start.
pub(crate) proof fn lemma_update_start(
    before: Seq<FieldView>,
    names: Seq<Seq<char>>,
    step: spec_fn(FieldView) -> (FieldView, Result<(), ErrorView>),
)
    ensures
        updated_up_to(before, before, 0, names, step),
{
    assert(before.skip(0) =~= before);
    assert(before.take(0) + update_named(before, names, step).0 =~= update_named(
        before,
        names,
        step,
    ).0);
}

/// The update of one more field, whether it bears one of the names or not.
pub(crate) proof fn lemma_update_next(
    before: Seq<FieldView>,
    now: Seq<FieldView>,
    next: Seq<FieldView>,
    n: int,
    names: Seq<Seq<char>>,
    step: spec_fn(FieldView) -> (FieldView, Result<(), ErrorView>),
)
    requires
        updated_up_to(before, now, n, names, step),
        0 <= n < before.len(),
        bears(now[n], names) ==> next == now.update(n, step(now[n]).0),
        !bears(now[n], names) ==> next == now,
    ensures
        now[n] == before[n],
        bears(now[n], names) && step(now[n]).1 is Err ==> update_named(before, names, step) == (
            next,
            step(now[n]).1,
        ),
        !(bears(now[n], names) && step(now[n]).1 is Err) ==> updated_up_to(
            before,
            next,
            n + 1,
            names,
            step,
        ),
{
    let tail = before.skip(n);
    assert(now.skip(n)[0] == now[n]);
    assert(tail[0] == before[n]);
    assert(tail.skip(1) =~= before.skip(n + 1));
    let first = if bears(now[n], names) {
        step(now[n]).0
    } else {
        now[n]
    };
    assert(next =~= now.update(n, first));
    if bears(now[n], names) && step(now[n]).1 is Err {
        assert(now.take(n) + (seq![first] + tail.skip(1)) =~= next) by {
            assert(now.skip(n) =~= tail);
            assert forall|j: int| n < j < now.len() implies now[j] == #[trigger] before[j] by {
                assert(now.skip(n)[j - n] == before.skip(n)[j - n]);
            }
        }
    } else {
        let rest = update_named(before.skip(n + 1), names, step).0;
        assert(now.take(n) + (seq![first] + rest) =~= next.take(n + 1) + rest);
        assert(next.skip(n + 1) =~= before.skip(n + 1)) by {
            assert forall|j: int| n < j < now.len() implies now[j] == #[trigger] before[j] by {
                assert(now.skip(n)[j - n] == before.skip(n)[j - n]);
            }
        }
    }
}

/// All fields have been updated at the end.
pub(crate) proof fn lemma_update_end(
    before: Seq<FieldView>,
    now: Seq<FieldView>,
    names: Seq<Seq<char>>,
    step: spec_fn(FieldView) -> (FieldView, Result<(), ErrorView>),
)
    requires
        updated_up_to(before, now, before.len() as int, names, step),
    ensures
        update_named(before, names, step) == (now, Ok::<(), ErrorView>(())),
{
    let n = before.len() as int;
    assert(before.skip(n).len() == 0);
    assert(now.take(n) + before.skip(n) =~= now);
}

} // verus!
