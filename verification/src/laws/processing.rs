//! What holds of working through a register as a whole.

use crate::enums::{field_processed, process_field_defined};
use crate::error::{ErrorView, StepView};
use crate::process::{
    additions, chain, clearings, collection, collections, deletions, end_strips, field_entries,
    field_entry, guarded, in_step, merge_entry, merge_item, merges, modification, modifications,
    processed, run_all, split_entry, split_item, splits, start_strips, unchanged, went_well,
    Progress,
};
use crate::svd::RegisterView;
use crate::yaml::{entries_under, lookup, strings_under, Yaml};
use vstd::prelude::*;

verus! {

/// Whether two registers differ in nothing but their fields.
pub open spec fn same_but_fields(a: RegisterView, b: RegisterView) -> bool {
    a.info.name == b.info.name && a.dim == b.dim
}

/// Steps that keep a register but for its fields do so one after the other.
proof fn lemma_run_keeps_register<T>(
    reg: RegisterView,
    items: Seq<T>,
    step: spec_fn(RegisterView, T) -> Progress,
)
    requires
        forall|r: RegisterView, item: T| same_but_fields(#[trigger] step(r, item).0, r),
    ensures
        same_but_fields(run_all(reg, items, step).0, reg),
    decreases items.len(),
{
    if items.len() > 0 {
        let first = step(reg, items[0]);
        assert(same_but_fields(first.0, reg));
        if went_well(first) {
            lemma_run_keeps_register(first.0, items.skip(1), step);
        }
    }
}

/// Working through a register changes nothing about it but its fields: neither its name nor
/// whether it is an array, however far the work gets.
pub proof fn law_process_keeps_register(
    reg: RegisterView,
    rmod: Seq<(Yaml, Yaml)>,
    pname: Seq<char>,
    update_fields: bool,
)
    ensures
        same_but_fields(processed(reg, rmod, pname, update_fields).0, reg),
{
    let p = deletions(reg, rmod);
    lemma_strings_keep(reg, rmod);
    let p = chain(p, |r: RegisterView| clearings(r, rmod));
    lemma_strings_keep(deletions(reg, rmod).0, rmod);
    assert(same_but_fields(p.0, reg));
    let q = chain(p, |r: RegisterView| modifications(r, rmod));
    lemma_entries_keep(p.0, rmod);
    assert(same_but_fields(q.0, reg));
    let p = chain(q, |r: RegisterView| additions(r, rmod));
    lemma_entries_keep(q.0, rmod);
    assert(same_but_fields(p.0, reg));
    let q = chain(p, |r: RegisterView| merges(r, rmod));
    lemma_merges_keep(p.0, rmod);
    assert(same_but_fields(q.0, reg));
    let p = chain(q, |r: RegisterView| splits(r, rmod));
    lemma_splits_keep(q.0, rmod);
    assert(same_but_fields(p.0, reg));
    let q = chain(p, |r: RegisterView| start_strips(r, rmod));
    lemma_strings_keep(p.0, rmod);
    assert(same_but_fields(q.0, reg));
    let p = chain(q, |r: RegisterView| end_strips(r, rmod));
    lemma_strings_keep(q.0, rmod);
    assert(same_but_fields(p.0, reg));
    let q = chain(p, |r: RegisterView| field_entries(r, rmod, pname, update_fields));
    lemma_values_keep(p.0, rmod, pname, update_fields);
    assert(same_but_fields(q.0, reg));
    lemma_entries_keep(q.0, rmod);
}

proof fn lemma_strings_keep(reg: RegisterView, rmod: Seq<(Yaml, Yaml)>)
    ensures
        same_but_fields(deletions(reg, rmod).0, reg),
        same_but_fields(clearings(reg, rmod).0, reg),
        same_but_fields(start_strips(reg, rmod).0, reg),
        same_but_fields(end_strips(reg, rmod).0, reg),
{
    lemma_run_keeps_register(
        reg,
        strings_under(rmod, "_delete"@),
        |r: RegisterView, spec: Seq<char>| unchanged(crate::edit::deleted(r, spec)),
    );
    lemma_run_keeps_register(
        reg,
        strings_under(rmod, "_clear"@),
        |r: RegisterView, spec: Seq<char>| unchanged(crate::edit::cleared(r, spec)),
    );
    lemma_run_keeps_register(
        reg,
        strings_under(rmod, "_strip"@),
        |r: RegisterView, prefix: Seq<char>|
            guarded(
                crate::edit::start_can_be_stripped(r, prefix),
                r,
                in_step(StepView::StrippingStart(prefix), crate::edit::start_stripped(r, prefix)),
            ),
    );
    lemma_run_keeps_register(
        reg,
        strings_under(rmod, "_strip_end"@),
        |r: RegisterView, suffix: Seq<char>|
            guarded(
                crate::edit::end_can_be_stripped(r, suffix),
                r,
                in_step(StepView::StrippingEnd(suffix), crate::edit::end_stripped(r, suffix)),
            ),
    );
}

proof fn lemma_entries_keep(reg: RegisterView, rmod: Seq<(Yaml, Yaml)>)
    ensures
        same_but_fields(modifications(reg, rmod).0, reg),
        same_but_fields(additions(reg, rmod).0, reg),
        same_but_fields(collections(reg, rmod).0, reg),
{
    lemma_run_keeps_register(
        reg,
        entries_under(rmod, "_modify"@),
        |r: RegisterView, entry: (Yaml, Yaml)| modification(r, entry),
    );
    lemma_run_keeps_register(
        reg,
        entries_under(rmod, "_add"@),
        |r: RegisterView, entry: (Yaml, Yaml)| crate::process::addition(r, entry),
    );
    lemma_run_keeps_register(
        reg,
        entries_under(rmod, "_array"@),
        |r: RegisterView, entry: (Yaml, Yaml)| collection(r, entry),
    );
}

proof fn lemma_merges_keep(reg: RegisterView, rmod: Seq<(Yaml, Yaml)>)
    ensures
        same_but_fields(merges(reg, rmod).0, reg),
{
    match lookup(rmod, "_merge"@) {
        Some(Yaml::Hash(h)) => {
            lemma_run_keeps_register(
                reg,
                h@,
                |r: RegisterView, entry: (Yaml, Yaml)| merge_entry(r, entry),
            );
        },
        Some(Yaml::Array(a)) => {
            lemma_run_keeps_register(reg, a@, |r: RegisterView, item: Yaml| merge_item(r, item));
        },
        _ => {},
    }
}

proof fn lemma_splits_keep(reg: RegisterView, rmod: Seq<(Yaml, Yaml)>)
    ensures
        same_but_fields(splits(reg, rmod).0, reg),
{
    match lookup(rmod, "_split"@) {
        Some(Yaml::Hash(h)) => {
            lemma_run_keeps_register(
                reg,
                h@,
                |r: RegisterView, entry: (Yaml, Yaml)| split_entry(r, entry),
            );
        },
        Some(Yaml::Array(a)) => {
            lemma_run_keeps_register(reg, a@, |r: RegisterView, item: Yaml| split_item(r, item));
        },
        _ => {},
    }
}

proof fn lemma_values_keep(
    reg: RegisterView,
    rmod: Seq<(Yaml, Yaml)>,
    pname: Seq<char>,
    update_fields: bool,
)
    ensures
        same_but_fields(field_entries(reg, rmod, pname, update_fields).0, reg),
{
    if update_fields {
        lemma_run_keeps_register(
            reg,
            rmod,
            |r: RegisterView, entry: (Yaml, Yaml)| field_entry(r, entry, pname),
        );
    }
}

/// A document that says nothing changes nothing.
pub proof fn law_process_of_nothing(reg: RegisterView, pname: Seq<char>, update_fields: bool)
    ensures
        processed(reg, Seq::empty(), pname, update_fields) == (
            reg,
            Some(Ok::<(), ErrorView>(())),
        ),
{
}

/// Steps for a list of items are the steps for its first part and, if those go well, the steps
/// for the rest: they are carried out in order, and the first that does not go well is the last.
pub proof fn law_steps_in_order<T>(
    reg: RegisterView,
    first: Seq<T>,
    rest: Seq<T>,
    step: spec_fn(RegisterView, T) -> Progress,
)
    ensures
        run_all(reg, first + rest, step) == chain(
            run_all(reg, first, step),
            |r: RegisterView| run_all(r, rest, step),
        ),
    decreases first.len(),
{
    if first.len() == 0 {
        assert(first + rest =~= rest);
    } else {
        let next = step(reg, first[0]);
        assert((first + rest)[0] == first[0]);
        assert((first + rest).skip(1) =~= first.skip(1) + rest);
        if went_well(next) {
            law_steps_in_order(next.0, first.skip(1), rest, step);
        }
    }
}

/// Whether two documents ask for the same changes of the list of fields.
pub open spec fn same_commands(a: Seq<(Yaml, Yaml)>, b: Seq<(Yaml, Yaml)>) -> bool {
    &&& lookup(a, "_delete"@) == lookup(b, "_delete"@)
    &&& lookup(a, "_clear"@) == lookup(b, "_clear"@)
    &&& lookup(a, "_modify"@) == lookup(b, "_modify"@)
    &&& lookup(a, "_add"@) == lookup(b, "_add"@)
    &&& lookup(a, "_merge"@) == lookup(b, "_merge"@)
    &&& lookup(a, "_split"@) == lookup(b, "_split"@)
    &&& lookup(a, "_strip"@) == lookup(b, "_strip"@)
    &&& lookup(a, "_strip_end"@) == lookup(b, "_strip_end"@)
    &&& lookup(a, "_array"@) == lookup(b, "_array"@)
}

/// Unless fields are to be updated, nothing counts but the commands: neither what a document
/// says of single fields nor the name of the peripheral.
pub proof fn law_without_update_only_commands_count(
    reg: RegisterView,
    a: Seq<(Yaml, Yaml)>,
    b: Seq<(Yaml, Yaml)>,
    pname: Seq<char>,
    other: Seq<char>,
)
    requires
        same_commands(a, b),
    ensures
        processed(reg, a, pname, false) == processed(reg, b, other, false),
{
    assert forall|r: RegisterView| #[trigger] clearings(r, a) == clearings(r, b) by {}
    let p = chain(deletions(reg, a), |r: RegisterView| clearings(r, a));
    assert(p == chain(deletions(reg, b), |r: RegisterView| clearings(r, b)));
    let q = chain(p, |r: RegisterView| modifications(r, a));
    assert(q == chain(p, |r: RegisterView| modifications(r, b)));
    let p = chain(q, |r: RegisterView| additions(r, a));
    assert(p == chain(q, |r: RegisterView| additions(r, b)));
    let q = chain(p, |r: RegisterView| merges(r, a));
    assert(q == chain(p, |r: RegisterView| merges(r, b)));
    let p = chain(q, |r: RegisterView| splits(r, a));
    assert(p == chain(q, |r: RegisterView| splits(r, b)));
    let q = chain(p, |r: RegisterView| start_strips(r, a));
    assert(q == chain(p, |r: RegisterView| start_strips(r, b)));
    let p = chain(q, |r: RegisterView| end_strips(r, a));
    assert(p == chain(q, |r: RegisterView| end_strips(r, b)));
    let q = chain(p, |r: RegisterView| field_entries(r, a, pname, false));
    assert(q == chain(p, |r: RegisterView| field_entries(r, b, other, false)));
    assert(chain(q, |r: RegisterView| collections(r, a)) == chain(
        q,
        |r: RegisterView| collections(r, b),
    ));
}

/// A document without commands, whose keys are strings that begin with an underscore, changes
/// nothing even where fields are to be updated.
pub proof fn law_other_underscore_keys_are_ignored(
    reg: RegisterView,
    rmod: Seq<(Yaml, Yaml)>,
    pname: Seq<char>,
    update_fields: bool,
)
    requires
        same_commands(rmod, Seq::empty()),
        forall|i: int|
            0 <= i < rmod.len() ==> ((#[trigger] rmod[i]).0.as_text() matches Ok(key)
                && crate::text::begins_with(key, '_')),
    ensures
        processed(reg, rmod, pname, update_fields) == (reg, Some(Ok::<(), ErrorView>(()))),
{
    let nothing = Seq::<(Yaml, Yaml)>::empty();
    lemma_underscore_entries(reg, rmod, pname);
    assert(field_entries(reg, rmod, pname, update_fields) == unchanged(reg));
    assert(lookup(nothing, "_delete"@) is None);
    assert(deletions(reg, rmod) == unchanged(reg));
    assert(clearings(reg, rmod) == unchanged(reg));
    assert(modifications(reg, rmod) == unchanged(reg));
    assert(additions(reg, rmod) == unchanged(reg));
    assert(merges(reg, rmod) == unchanged(reg));
    assert(splits(reg, rmod) == unchanged(reg));
    assert(start_strips(reg, rmod) == unchanged(reg));
    assert(end_strips(reg, rmod) == unchanged(reg));
    assert(collections(reg, rmod) == unchanged(reg));
}

/// A document with a single command does what that command says, and nothing else.
pub proof fn law_single_command(
    reg: RegisterView,
    rmod: Seq<(Yaml, Yaml)>,
    pname: Seq<char>,
    update_fields: bool,
)
    requires
        rmod.len() == 1,
    ensures
        rmod[0].0.as_text() == Ok::<Seq<char>, ErrorView>("_delete"@) ==> processed(
            reg,
            rmod,
            pname,
            update_fields,
        ) == deletions(reg, rmod),
        rmod[0].0.as_text() == Ok::<Seq<char>, ErrorView>("_clear"@) ==> processed(
            reg,
            rmod,
            pname,
            update_fields,
        ) == clearings(reg, rmod),
        rmod[0].0.as_text() == Ok::<Seq<char>, ErrorView>("_modify"@) ==> processed(
            reg,
            rmod,
            pname,
            update_fields,
        ) == modifications(reg, rmod),
        rmod[0].0.as_text() == Ok::<Seq<char>, ErrorView>("_add"@) ==> processed(
            reg,
            rmod,
            pname,
            update_fields,
        ) == additions(reg, rmod),
        rmod[0].0.as_text() == Ok::<Seq<char>, ErrorView>("_merge"@) ==> processed(
            reg,
            rmod,
            pname,
            update_fields,
        ) == merges(reg, rmod),
        rmod[0].0.as_text() == Ok::<Seq<char>, ErrorView>("_split"@) ==> processed(
            reg,
            rmod,
            pname,
            update_fields,
        ) == splits(reg, rmod),
        rmod[0].0.as_text() == Ok::<Seq<char>, ErrorView>("_strip"@) ==> processed(
            reg,
            rmod,
            pname,
            update_fields,
        ) == start_strips(reg, rmod),
        rmod[0].0.as_text() == Ok::<Seq<char>, ErrorView>("_strip_end"@) ==> processed(
            reg,
            rmod,
            pname,
            update_fields,
        ) == end_strips(reg, rmod),
        rmod[0].0.as_text() == Ok::<Seq<char>, ErrorView>("_array"@) ==> processed(
            reg,
            rmod,
            pname,
            update_fields,
        ) == collections(reg, rmod),
{
    lemma_commands_differ();
    assert(rmod.skip(1).len() == 0);
    assert forall|key: Seq<char>| #[trigger] lookup(rmod, key) == if rmod[0].0.as_text() == Ok::<
        Seq<char>,
        ErrorView,
    >(key) {
        Some(rmod[0].1)
    } else {
        None
    } by {
        assert(lookup(rmod.skip(1), key) is None);
    }
    assert forall|r: RegisterView| rmod[0].0.as_text() matches Ok(key) && crate::text::begins_with(
        key,
        '_',
    ) implies #[trigger] field_entries(r, rmod, pname, update_fields) == unchanged(r) by {
        lemma_underscore_entries(r, rmod, pname);
    }
}

/// A document that describes the fields of one specification gives them what it describes, if
/// fields are to be updated, and does nothing else.
pub proof fn law_single_description(
    reg: RegisterView,
    rmod: Seq<(Yaml, Yaml)>,
    pname: Seq<char>,
    spec: Seq<char>,
    update_fields: bool,
)
    requires
        rmod.len() == 1,
        rmod[0].0.as_text() == Ok::<Seq<char>, ErrorView>(spec),
        !crate::text::begins_with(spec, '_'),
    ensures
        processed(reg, rmod, pname, update_fields) == if update_fields {
            guarded(
                process_field_defined(reg, rmod[0].1),
                reg,
                in_step(StepView::Processing(spec), field_processed(reg, pname, spec, rmod[0].1)),
            )
        } else {
            unchanged(reg)
        },
{
    lemma_commands_differ();
    assert(rmod.skip(1).len() == 0);
    assert forall|key: Seq<char>| #[trigger]
        crate::text::begins_with(key, '_') implies lookup(rmod, key) is None by {
        assert(lookup(rmod.skip(1), key) is None);
    }
    let step = |r: RegisterView, entry: (Yaml, Yaml)| field_entry(r, entry, pname);
    let first = step(reg, rmod[0]);
    assert(run_all(first.0, rmod.skip(1), step) == unchanged(first.0));
    assert(update_fields ==> field_entries(reg, rmod, pname, update_fields) == first);
}

/// The keys of the commands are different from each other, and begin with an underscore.
pub(crate) proof fn lemma_commands_differ()
    ensures
        "_delete"@ != "_clear"@,
        "_delete"@ != "_modify"@,
        "_delete"@ != "_add"@,
        "_delete"@ != "_merge"@,
        "_delete"@ != "_split"@,
        "_delete"@ != "_strip"@,
        "_delete"@ != "_strip_end"@,
        "_delete"@ != "_array"@,
        "_clear"@ != "_modify"@,
        "_clear"@ != "_add"@,
        "_clear"@ != "_merge"@,
        "_clear"@ != "_split"@,
        "_clear"@ != "_strip"@,
        "_clear"@ != "_strip_end"@,
        "_clear"@ != "_array"@,
        "_modify"@ != "_add"@,
        "_modify"@ != "_merge"@,
        "_modify"@ != "_split"@,
        "_modify"@ != "_strip"@,
        "_modify"@ != "_strip_end"@,
        "_modify"@ != "_array"@,
        "_add"@ != "_merge"@,
        "_add"@ != "_split"@,
        "_add"@ != "_strip"@,
        "_add"@ != "_strip_end"@,
        "_add"@ != "_array"@,
        "_merge"@ != "_split"@,
        "_merge"@ != "_strip"@,
        "_merge"@ != "_strip_end"@,
        "_merge"@ != "_array"@,
        "_split"@ != "_strip"@,
        "_split"@ != "_strip_end"@,
        "_split"@ != "_array"@,
        "_strip"@ != "_strip_end"@,
        "_strip"@ != "_array"@,
        "_strip_end"@ != "_array"@,
        crate::text::begins_with("_delete"@, '_'),
        crate::text::begins_with("_clear"@, '_'),
        crate::text::begins_with("_modify"@, '_'),
        crate::text::begins_with("_add"@, '_'),
        crate::text::begins_with("_merge"@, '_'),
        crate::text::begins_with("_split"@, '_'),
        crate::text::begins_with("_strip"@, '_'),
        crate::text::begins_with("_strip_end"@, '_'),
        crate::text::begins_with("_array"@, '_'),
{
    reveal_strlit("_delete");
    reveal_strlit("_clear");
    reveal_strlit("_modify");
    reveal_strlit("_add");
    reveal_strlit("_merge");
    reveal_strlit("_split");
    reveal_strlit("_strip");
    reveal_strlit("_strip_end");
    reveal_strlit("_array");
    assert("_delete"@.len() == 7);
    assert("_clear"@.len() == 6);
    assert("_modify"@.len() == 7);
    assert("_add"@.len() == 4);
    assert("_merge"@.len() == 6);
    assert("_split"@.len() == 6);
    assert("_strip"@.len() == 6);
    assert("_strip_end"@.len() == 10);
    assert("_array"@.len() == 6);
    assert("_delete"@[1] == 'd' && "_modify"@[1] == 'm');
    assert("_clear"@[1] == 'c' && "_merge"@[1] == 'm' && "_array"@[1] == 'a');
    assert("_split"@[1] == 's' && "_strip"@[1] == 's');
    assert("_split"@[2] == 'p' && "_strip"@[2] == 't');
}

proof fn lemma_underscore_entries(reg: RegisterView, rmod: Seq<(Yaml, Yaml)>, pname: Seq<char>)
    requires
        forall|i: int|
            0 <= i < rmod.len() ==> ((#[trigger] rmod[i]).0.as_text() matches Ok(key)
                && crate::text::begins_with(key, '_')),
    ensures
        run_all(
            reg,
            rmod,
            |r: RegisterView, entry: (Yaml, Yaml)| field_entry(r, entry, pname),
        ) == unchanged(reg),
    decreases rmod.len(),
{
    if rmod.len() > 0 {
        let rest = rmod.skip(1);
        assert(rmod[0].0.as_text() is Ok);
        assert forall|i: int| 0 <= i < rest.len() implies ((
        #[trigger] rest[i]).0.as_text() matches Ok(key) && crate::text::begins_with(key, '_')) by {
            assert(rest[i] == rmod[i + 1]);
        }
        lemma_underscore_entries(reg, rest, pname);
    }
}

} // verus!
