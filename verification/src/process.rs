//! Carrying out all that a document says of the fields of a register.

use crate::collect::{can_collect, collect_defined, collect_fields_in_array, collected};
use crate::edit::{
    add_field, added, can_modify, can_strip_end, can_strip_start, clear_field, cleared,
    delete_field, deleted, end_can_be_stripped, end_stripped, modified_fields, modify_defined,
    modify_field, start_can_be_stripped, start_stripped, strip_end, strip_start,
};
use crate::enums::{can_process_field, field_processed, process_field, process_field_defined};
use crate::error::{during, outcome, within, ErrorView, PatchResult, Step, StepView};
use crate::merge::{can_merge, merge_defined, merge_fields, merged};
use crate::split::{can_split, split, split_defined, split_fields};
use crate::svd::{Register, RegisterView};
use crate::text::{begins_with, starts_with};
use crate::yaml::{entries_under, lookup, slices, strings_under, Mapping, Yaml};
use vstd::prelude::*;

verus! {

/// A register after some steps, and what they answered; nothing where a step could not be
/// carried out.
pub type Progress = (RegisterView, Option<Result<(), ErrorView>>);

/// The model of an answer that may be missing.
pub open spec fn attempted(r: Option<PatchResult>) -> Option<Result<(), ErrorView>> {
    match r {
        Some(answer) => Some(outcome(answer)),
        None => None,
    }
}

/// Whether the steps so far went well.
pub open spec fn went_well(p: Progress) -> bool {
    p.1 == Some(Ok::<(), ErrorView>(()))
}

/// A step that changes nothing.
pub open spec fn unchanged(reg: RegisterView) -> Progress {
    (reg, Some(Ok(())))
}

/// A step that is refused with an error.
pub open spec fn refused(reg: RegisterView, e: ErrorView) -> Progress {
    (reg, Some(Err(e)))
}

/// A step that can be carried out under a condition.
pub open spec fn guarded(
    defined: bool,
    reg: RegisterView,
    step: (RegisterView, Result<(), ErrorView>),
) -> Progress {
    if defined {
        (step.0, Some(step.1))
    } else {
        (reg, None)
    }
}

/// A step of a document: where it fails, the error says which step it was.
pub open spec fn in_step(step: StepView, p: (RegisterView, Result<(), ErrorView>)) -> (
    RegisterView,
    Result<(), ErrorView>,
) {
    (p.0, during(step, p.1))
}

/// Steps for each of several items, in order, up to the first that does not go well.
pub open spec fn run_all<T>(
    reg: RegisterView,
    items: Seq<T>,
    step: spec_fn(RegisterView, T) -> Progress,
) -> Progress
    decreases items.len(),
{
    if items.len() == 0 {
        unchanged(reg)
    } else {
        let first = step(reg, items[0]);
        if went_well(first) {
            run_all(first.0, items.skip(1), step)
        } else {
            first
        }
    }
}

/// One group of steps after another, if that one went well.
pub open spec fn chain(p: Progress, next: spec_fn(RegisterView) -> Progress) -> Progress {
    if went_well(p) {
        next(p.0)
    } else {
        p
    }
}

/// A step that a key, which has to be a string, and a value ask for.
pub open spec fn keyed(
    reg: RegisterView,
    entry: (Yaml, Yaml),
    step: spec_fn(RegisterView, Seq<char>, Yaml) -> Progress,
) -> Progress {
    match entry.0.as_text() {
        Err(e) => refused(reg, e),
        Ok(key) => step(reg, key, entry.1),
    }
}

/// A step that a key and a mapping ask for.
pub open spec fn mapped(
    reg: RegisterView,
    entry: (Yaml, Yaml),
    step: spec_fn(RegisterView, Seq<char>, Seq<(Yaml, Yaml)>) -> Progress,
) -> Progress {
    match entry.0.as_text() {
        Err(e) => refused(reg, e),
        Ok(key) => match entry.1.as_entries() {
            Err(e) => refused(reg, e),
            Ok(entries) => step(reg, key, entries),
        },
    }
}

/// Deletes the fields under `_delete`.
pub open spec fn deletions(reg: RegisterView, rmod: Seq<(Yaml, Yaml)>) -> Progress {
    run_all(
        reg,
        strings_under(rmod, "_delete"@),
        |r: RegisterView, spec: Seq<char>| unchanged(deleted(r, spec)),
    )
}

/// Clears the fields under `_clear`.
pub open spec fn clearings(reg: RegisterView, rmod: Seq<(Yaml, Yaml)>) -> Progress {
    run_all(
        reg,
        strings_under(rmod, "_clear"@),
        |r: RegisterView, spec: Seq<char>| unchanged(cleared(r, spec)),
    )
}

/// One entry under `_modify`.
pub open spec fn modification(reg: RegisterView, entry: (Yaml, Yaml)) -> Progress {
    mapped(
        reg,
        entry,
        |r: RegisterView, spec: Seq<char>, fmod: Seq<(Yaml, Yaml)>|
            guarded(
                modify_defined(r, spec, fmod),
                r,
                in_step(StepView::Modifying(spec), modified_fields(r, spec, fmod)),
            ),
    )
}

/// Modifies the fields under `_modify`.
pub open spec fn modifications(reg: RegisterView, rmod: Seq<(Yaml, Yaml)>) -> Progress {
    run_all(
        reg,
        entries_under(rmod, "_modify"@),
        |r: RegisterView, entry: (Yaml, Yaml)| modification(r, entry),
    )
}

/// One entry under `_add`.
pub open spec fn addition(reg: RegisterView, entry: (Yaml, Yaml)) -> Progress {
    mapped(
        reg,
        entry,
        |r: RegisterView, name: Seq<char>, fadd: Seq<(Yaml, Yaml)>|
            guarded(true, r, in_step(StepView::Adding(name), added(r, name, fadd))),
    )
}

/// Adds the fields under `_add`.
pub open spec fn additions(reg: RegisterView, rmod: Seq<(Yaml, Yaml)>) -> Progress {
    run_all(
        reg,
        entries_under(rmod, "_add"@),
        |r: RegisterView, entry: (Yaml, Yaml)| addition(r, entry),
    )
}

/// One merge.
pub open spec fn one_merge(reg: RegisterView, key: Seq<char>, value: Option<Yaml>) -> Progress {
    guarded(
        merge_defined(reg, key, value),
        reg,
        in_step(StepView::Merging(key), merged(reg, key, value)),
    )
}

/// One entry of a mapping under `_merge`.
pub open spec fn merge_entry(reg: RegisterView, entry: (Yaml, Yaml)) -> Progress {
    keyed(
        reg,
        entry,
        |r: RegisterView, key: Seq<char>, value: Yaml| one_merge(r, key, Some(value)),
    )
}

/// One item of a list under `_merge`.
pub open spec fn merge_item(reg: RegisterView, item: Yaml) -> Progress {
    match item.as_text() {
        Err(e) => refused(reg, e),
        Ok(key) => one_merge(reg, key, None),
    }
}

/// Merges the fields under `_merge`, which is a mapping or a list.
pub open spec fn merges(reg: RegisterView, rmod: Seq<(Yaml, Yaml)>) -> Progress {
    match lookup(rmod, "_merge"@) {
        Some(Yaml::Hash(h)) => run_all(
            reg,
            h@,
            |r: RegisterView, entry: (Yaml, Yaml)| merge_entry(r, entry),
        ),
        Some(Yaml::Array(a)) => run_all(reg, a@, |r: RegisterView, item: Yaml| merge_item(r, item)),
        _ => unchanged(reg),
    }
}

/// One split.
pub open spec fn one_split(
    reg: RegisterView,
    spec: Seq<char>,
    fsplit: Seq<(Yaml, Yaml)>,
) -> Progress {
    guarded(
        split_defined(reg, spec, fsplit),
        reg,
        in_step(StepView::Splitting(spec), split(reg, spec, fsplit)),
    )
}

/// One entry of a mapping under `_split`.
pub open spec fn split_entry(reg: RegisterView, entry: (Yaml, Yaml)) -> Progress {
    mapped(
        reg,
        entry,
        |r: RegisterView, spec: Seq<char>, fsplit: Seq<(Yaml, Yaml)>| one_split(r, spec, fsplit),
    )
}

/// One item of a list under `_split`.
pub open spec fn split_item(reg: RegisterView, item: Yaml) -> Progress {
    match item.as_text() {
        Err(e) => refused(reg, e),
        Ok(spec) => one_split(reg, spec, Seq::empty()),
    }
}

/// Splits the fields under `_split`, which is a mapping or a list.
pub open spec fn splits(reg: RegisterView, rmod: Seq<(Yaml, Yaml)>) -> Progress {
    match lookup(rmod, "_split"@) {
        Some(Yaml::Hash(h)) => run_all(
            reg,
            h@,
            |r: RegisterView, entry: (Yaml, Yaml)| split_entry(r, entry),
        ),
        Some(Yaml::Array(a)) => run_all(reg, a@, |r: RegisterView, item: Yaml| split_item(r, item)),
        _ => unchanged(reg),
    }
}

/// Strips the starts of names under `_strip`.
pub open spec fn start_strips(reg: RegisterView, rmod: Seq<(Yaml, Yaml)>) -> Progress {
    run_all(
        reg,
        strings_under(rmod, "_strip"@),
        |r: RegisterView, prefix: Seq<char>|
            guarded(
                start_can_be_stripped(r, prefix),
                r,
                in_step(StepView::StrippingStart(prefix), start_stripped(r, prefix)),
            ),
    )
}

/// Strips the ends of names under `_strip_end`.
pub open spec fn end_strips(reg: RegisterView, rmod: Seq<(Yaml, Yaml)>) -> Progress {
    run_all(
        reg,
        strings_under(rmod, "_strip_end"@),
        |r: RegisterView, suffix: Seq<char>|
            guarded(
                end_can_be_stripped(r, suffix),
                r,
                in_step(StepView::StrippingEnd(suffix), end_stripped(r, suffix)),
            ),
    )
}

/// One entry that may describe fields: one whose key begins with an underscore does not.
pub open spec fn field_entry(reg: RegisterView, entry: (Yaml, Yaml), pname: Seq<char>) -> Progress {
    keyed(
        reg,
        entry,
        |r: RegisterView, spec: Seq<char>, fmod: Yaml|
            if begins_with(spec, '_') {
                unchanged(r)
            } else {
                guarded(
                    process_field_defined(r, fmod),
                    r,
                    in_step(StepView::Processing(spec), field_processed(r, pname, spec, fmod)),
                )
            },
    )
}

/// Gives fields what the entries describe, if that is asked for.
pub open spec fn field_entries(
    reg: RegisterView,
    rmod: Seq<(Yaml, Yaml)>,
    pname: Seq<char>,
    update_fields: bool,
) -> Progress {
    if update_fields {
        run_all(
            reg,
            rmod,
            |r: RegisterView, entry: (Yaml, Yaml)| field_entry(r, entry, pname),
        )
    } else {
        unchanged(reg)
    }
}

/// One entry under `_array`.
pub open spec fn collection(reg: RegisterView, entry: (Yaml, Yaml)) -> Progress {
    mapped(
        reg,
        entry,
        |r: RegisterView, spec: Seq<char>, fmod: Seq<(Yaml, Yaml)>|
            guarded(
                collect_defined(r, spec, fmod),
                r,
                in_step(StepView::Collecting(spec), collected(r, spec, fmod)),
            ),
    )
}

/// Collects the fields under `_array`.
pub open spec fn collections(reg: RegisterView, rmod: Seq<(Yaml, Yaml)>) -> Progress {
    run_all(
        reg,
        entries_under(rmod, "_array"@),
        |r: RegisterView, entry: (Yaml, Yaml)| collection(r, entry),
    )
}

/// All that a document says of the fields of a register, group by group.
pub open spec fn processed(
    reg: RegisterView,
    rmod: Seq<(Yaml, Yaml)>,
    pname: Seq<char>,
    update_fields: bool,
) -> Progress {
    let p = deletions(reg, rmod);
    let p = chain(p, |r: RegisterView| clearings(r, rmod));
    let p = chain(p, |r: RegisterView| modifications(r, rmod));
    let p = chain(p, |r: RegisterView| additions(r, rmod));
    let p = chain(p, |r: RegisterView| merges(r, rmod));
    let p = chain(p, |r: RegisterView| splits(r, rmod));
    let p = chain(p, |r: RegisterView| start_strips(r, rmod));
    let p = chain(p, |r: RegisterView| end_strips(r, rmod));
    let p = chain(p, |r: RegisterView| field_entries(r, rmod, pname, update_fields));
    chain(p, |r: RegisterView| collections(r, rmod))
}

fn is_fine(r: &Option<PatchResult>) -> (b: bool)
    ensures
        b == (attempted(*r) == Some(Ok::<(), ErrorView>(()))),
{
    match r {
        Some(Ok(_)) => true,
        _ => false,
    }
}

fn run_deletions(reg: &mut Register, rmod: &Mapping) -> (r: Option<PatchResult>)
    ensures
        (final(reg)@, attempted(r)) == deletions(old(reg)@, rmod@),
{
    let specs = rmod.str_vec("_delete");
    let ghost items = slices(specs@);
    let ghost step = |r: RegisterView, spec: Seq<char>| unchanged(deleted(r, spec));
    assert(items.skip(0) =~= items);
    for i in 0..specs.len()
        invariant
            items == slices(specs@),
            step == (|r: RegisterView, spec: Seq<char>| unchanged(deleted(r, spec))),
            run_all(old(reg)@, items, step) == run_all(reg@, items.skip(i as int), step),
    {
        assert(items.skip(i as int)[0] == specs@[i as int]@);
        assert(items.skip(i as int).skip(1) =~= items.skip(i + 1));
        let _ = delete_field(reg, specs[i]);
    }
    Some(Ok(()))
}

fn run_clearings(reg: &mut Register, rmod: &Mapping) -> (r: Option<PatchResult>)
    ensures
        (final(reg)@, attempted(r)) == clearings(old(reg)@, rmod@),
{
    let specs = rmod.str_vec("_clear");
    let ghost items = slices(specs@);
    let ghost step = |r: RegisterView, spec: Seq<char>| unchanged(cleared(r, spec));
    assert(items.skip(0) =~= items);
    for i in 0..specs.len()
        invariant
            items == slices(specs@),
            step == (|r: RegisterView, spec: Seq<char>| unchanged(cleared(r, spec))),
            run_all(old(reg)@, items, step) == run_all(reg@, items.skip(i as int), step),
    {
        assert(items.skip(i as int)[0] == specs@[i as int]@);
        assert(items.skip(i as int).skip(1) =~= items.skip(i + 1));
        let _ = clear_field(reg, specs[i]);
    }
    Some(Ok(()))
}

fn run_start_strips(reg: &mut Register, rmod: &Mapping) -> (r: Option<PatchResult>)
    ensures
        (final(reg)@, attempted(r)) == start_strips(old(reg)@, rmod@),
{
    let prefixes = rmod.str_vec("_strip");
    let ghost items = slices(prefixes@);
    let ghost step = |r: RegisterView, prefix: Seq<char>|
        guarded(
            start_can_be_stripped(r, prefix),
            r,
            in_step(StepView::StrippingStart(prefix), start_stripped(r, prefix)),
        );
    assert(items.skip(0) =~= items);
    for i in 0..prefixes.len()
        invariant
            items == slices(prefixes@),
            items == strings_under(rmod@, "_strip"@),
            step == (|r: RegisterView, prefix: Seq<char>|
                guarded(
                    start_can_be_stripped(r, prefix),
                    r,
                    in_step(StepView::StrippingStart(prefix), start_stripped(r, prefix)),
                )),
            start_strips(old(reg)@, rmod@) == run_all(reg@, items.skip(i as int), step),
    {
        assert(items.skip(i as int)[0] == prefixes@[i as int]@);
        assert(items.skip(i as int).skip(1) =~= items.skip(i + 1));
        if !can_strip_start(reg, prefixes[i]) {
            return None;
        }
        let r = within(Step::StrippingStart(prefixes[i].to_owned()), strip_start(reg, prefixes[i]));
        if r.is_err() {
            return Some(r);
        }
    }
    Some(Ok(()))
}

fn run_end_strips(reg: &mut Register, rmod: &Mapping) -> (r: Option<PatchResult>)
    ensures
        (final(reg)@, attempted(r)) == end_strips(old(reg)@, rmod@),
{
    let suffixes = rmod.str_vec("_strip_end");
    let ghost items = slices(suffixes@);
    let ghost step = |r: RegisterView, suffix: Seq<char>|
        guarded(
            end_can_be_stripped(r, suffix),
            r,
            in_step(StepView::StrippingEnd(suffix), end_stripped(r, suffix)),
        );
    assert(items.skip(0) =~= items);
    for i in 0..suffixes.len()
        invariant
            items == slices(suffixes@),
            items == strings_under(rmod@, "_strip_end"@),
            step == (|r: RegisterView, suffix: Seq<char>|
                guarded(
                    end_can_be_stripped(r, suffix),
                    r,
                    in_step(StepView::StrippingEnd(suffix), end_stripped(r, suffix)),
                )),
            end_strips(old(reg)@, rmod@) == run_all(reg@, items.skip(i as int), step),
    {
        assert(items.skip(i as int)[0] == suffixes@[i as int]@);
        assert(items.skip(i as int).skip(1) =~= items.skip(i + 1));
        if !can_strip_end(reg, suffixes[i]) {
            return None;
        }
        let r = within(Step::StrippingEnd(suffixes[i].to_owned()), strip_end(reg, suffixes[i]));
        if r.is_err() {
            return Some(r);
        }
    }
    Some(Ok(()))
}

fn run_modification(reg: &mut Register, key: &Yaml, value: &Yaml) -> (r: Option<PatchResult>)
    ensures
        (final(reg)@, attempted(r)) == modification(old(reg)@, (*key, *value)),
{
    let fspec = match key.str() {
        Ok(s) => s,
        Err(e) => {
            return Some(Err(e));
        },
    };
    let fmod = match value.hash() {
        Ok(h) => h,
        Err(e) => {
            return Some(Err(e));
        },
    };
    if !can_modify(reg, fspec, fmod) {
        return None;
    }
    Some(within(Step::Modifying(fspec.to_owned()), modify_field(reg, fspec, fmod)))
}

fn run_addition(reg: &mut Register, key: &Yaml, value: &Yaml) -> (r: Option<PatchResult>)
    ensures
        (final(reg)@, attempted(r)) == addition(old(reg)@, (*key, *value)),
{
    let fname = match key.str() {
        Ok(s) => s,
        Err(e) => {
            return Some(Err(e));
        },
    };
    let fadd = match value.hash() {
        Ok(h) => h,
        Err(e) => {
            return Some(Err(e));
        },
    };
    Some(within(Step::Adding(fname.to_owned()), add_field(reg, fname, fadd)))
}

fn run_merge_entry(reg: &mut Register, key: &Yaml, value: &Yaml) -> (r: Option<PatchResult>)
    ensures
        (final(reg)@, attempted(r)) == merge_entry(old(reg)@, (*key, *value)),
{
    let fspec = match key.str() {
        Ok(s) => s,
        Err(e) => {
            return Some(Err(e));
        },
    };
    if !can_merge(reg, fspec, Some(value)) {
        return None;
    }
    Some(within(Step::Merging(fspec.to_owned()), merge_fields(reg, fspec, Some(value))))
}

fn run_merge_item(reg: &mut Register, item: &Yaml) -> (r: Option<PatchResult>)
    ensures
        (final(reg)@, attempted(r)) == merge_item(old(reg)@, *item),
{
    let fspec = match item.str() {
        Ok(s) => s,
        Err(e) => {
            return Some(Err(e));
        },
    };
    if !can_merge(reg, fspec, None) {
        return None;
    }
    Some(within(Step::Merging(fspec.to_owned()), merge_fields(reg, fspec, None)))
}

fn run_split_entry(reg: &mut Register, key: &Yaml, value: &Yaml) -> (r: Option<PatchResult>)
    ensures
        (final(reg)@, attempted(r)) == split_entry(old(reg)@, (*key, *value)),
{
    let fspec = match key.str() {
        Ok(s) => s,
        Err(e) => {
            return Some(Err(e));
        },
    };
    let fsplit = match value.hash() {
        Ok(h) => h,
        Err(e) => {
            return Some(Err(e));
        },
    };
    if !can_split(reg, fspec, fsplit) {
        return None;
    }
    Some(within(Step::Splitting(fspec.to_owned()), split_fields(reg, fspec, fsplit)))
}

fn run_split_item(reg: &mut Register, item: &Yaml) -> (r: Option<PatchResult>)
    ensures
        (final(reg)@, attempted(r)) == split_item(old(reg)@, *item),
{
    let fspec = match item.str() {
        Ok(s) => s,
        Err(e) => {
            return Some(Err(e));
        },
    };
    let nothing = Mapping { entries: Vec::new() };
    assert(nothing@ =~= Seq::empty());
    if !can_split(reg, fspec, &nothing) {
        return None;
    }
    Some(within(Step::Splitting(fspec.to_owned()), split_fields(reg, fspec, &nothing)))
}

fn run_field_entry(reg: &mut Register, key: &Yaml, value: &Yaml, pname: &str) -> (r: Option<
    PatchResult,
>)
    ensures
        (final(reg)@, attempted(r)) == field_entry(old(reg)@, (*key, *value), pname@),
{
    let fspec = match key.str() {
        Ok(s) => s,
        Err(e) => {
            return Some(Err(e));
        },
    };
    if starts_with(fspec, '_') {
        return Some(Ok(()));
    }
    if !can_process_field(reg, value) {
        return None;
    }
    Some(within(Step::Processing(fspec.to_owned()), process_field(reg, pname, fspec, value)))
}

fn run_collection(reg: &mut Register, key: &Yaml, value: &Yaml) -> (r: Option<PatchResult>)
    ensures
        (final(reg)@, attempted(r)) == collection(old(reg)@, (*key, *value)),
{
    let fspec = match key.str() {
        Ok(s) => s,
        Err(e) => {
            return Some(Err(e));
        },
    };
    let fmod = match value.hash() {
        Ok(h) => h,
        Err(e) => {
            return Some(Err(e));
        },
    };
    if !can_collect(reg, fspec, fmod) {
        return None;
    }
    Some(within(Step::Collecting(fspec.to_owned()), collect_fields_in_array(reg, fspec, fmod)))
}

fn run_modifications(reg: &mut Register, rmod: &Mapping) -> (r: Option<PatchResult>)
    ensures
        (final(reg)@, attempted(r)) == modifications(old(reg)@, rmod@),
{
    let ghost step = |r: RegisterView, entry: (Yaml, Yaml)| modification(r, entry);
    if let Some(Yaml::Hash(h)) = rmod.get("_modify") {
        assert(h@.skip(0) =~= h@);
        for i in 0..h.entries.len()
            invariant
                step == (|r: RegisterView, entry: (Yaml, Yaml)| modification(r, entry)),
                modifications(old(reg)@, rmod@) == run_all(reg@, h@.skip(i as int), step),
        {
            assert(h@.skip(i as int)[0] == h.entries@[i as int]);
            assert(h@.skip(i as int).skip(1) =~= h@.skip(i + 1));
            let r = run_modification(reg, &h.entries[i].0, &h.entries[i].1);
            if !is_fine(&r) {
                return r;
            }
        }
    }
    Some(Ok(()))
}

fn run_additions(reg: &mut Register, rmod: &Mapping) -> (r: Option<PatchResult>)
    ensures
        (final(reg)@, attempted(r)) == additions(old(reg)@, rmod@),
{
    let ghost step = |r: RegisterView, entry: (Yaml, Yaml)| addition(r, entry);
    if let Some(Yaml::Hash(h)) = rmod.get("_add") {
        assert(h@.skip(0) =~= h@);
        for i in 0..h.entries.len()
            invariant
                step == (|r: RegisterView, entry: (Yaml, Yaml)| addition(r, entry)),
                additions(old(reg)@, rmod@) == run_all(reg@, h@.skip(i as int), step),
        {
            assert(h@.skip(i as int)[0] == h.entries@[i as int]);
            assert(h@.skip(i as int).skip(1) =~= h@.skip(i + 1));
            let r = run_addition(reg, &h.entries[i].0, &h.entries[i].1);
            if !is_fine(&r) {
                return r;
            }
        }
    }
    Some(Ok(()))
}

fn run_merges(reg: &mut Register, rmod: &Mapping) -> (r: Option<PatchResult>)
    ensures
        (final(reg)@, attempted(r)) == merges(old(reg)@, rmod@),
{
    match rmod.get("_merge") {
        Some(Yaml::Hash(h)) => {
            let ghost step = |r: RegisterView, entry: (Yaml, Yaml)| merge_entry(r, entry);
            assert(h@.skip(0) =~= h@);
            for i in 0..h.entries.len()
                invariant
                    step == (|r: RegisterView, entry: (Yaml, Yaml)| merge_entry(r, entry)),
                    merges(old(reg)@, rmod@) == run_all(reg@, h@.skip(i as int), step),
            {
                assert(h@.skip(i as int)[0] == h.entries@[i as int]);
                assert(h@.skip(i as int).skip(1) =~= h@.skip(i + 1));
                let r = run_merge_entry(reg, &h.entries[i].0, &h.entries[i].1);
                if !is_fine(&r) {
                    return r;
                }
            }
            Some(Ok(()))
        },
        Some(Yaml::Array(a)) => {
            let ghost step = |r: RegisterView, item: Yaml| merge_item(r, item);
            assert(a@.skip(0) =~= a@);
            for i in 0..a.len()
                invariant
                    step == (|r: RegisterView, item: Yaml| merge_item(r, item)),
                    merges(old(reg)@, rmod@) == run_all(reg@, a@.skip(i as int), step),
            {
                assert(a@.skip(i as int)[0] == a@[i as int]);
                assert(a@.skip(i as int).skip(1) =~= a@.skip(i + 1));
                let r = run_merge_item(reg, &a[i]);
                if !is_fine(&r) {
                    return r;
                }
            }
            Some(Ok(()))
        },
        _ => Some(Ok(())),
    }
}

fn run_splits(reg: &mut Register, rmod: &Mapping) -> (r: Option<PatchResult>)
    ensures
        (final(reg)@, attempted(r)) == splits(old(reg)@, rmod@),
{
    match rmod.get("_split") {
        Some(Yaml::Hash(h)) => {
            let ghost step = |r: RegisterView, entry: (Yaml, Yaml)| split_entry(r, entry);
            assert(h@.skip(0) =~= h@);
            for i in 0..h.entries.len()
                invariant
                    step == (|r: RegisterView, entry: (Yaml, Yaml)| split_entry(r, entry)),
                    splits(old(reg)@, rmod@) == run_all(reg@, h@.skip(i as int), step),
            {
                assert(h@.skip(i as int)[0] == h.entries@[i as int]);
                assert(h@.skip(i as int).skip(1) =~= h@.skip(i + 1));
                let r = run_split_entry(reg, &h.entries[i].0, &h.entries[i].1);
                if !is_fine(&r) {
                    return r;
                }
            }
            Some(Ok(()))
        },
        Some(Yaml::Array(a)) => {
            let ghost step = |r: RegisterView, item: Yaml| split_item(r, item);
            assert(a@.skip(0) =~= a@);
            for i in 0..a.len()
                invariant
                    step == (|r: RegisterView, item: Yaml| split_item(r, item)),
                    splits(old(reg)@, rmod@) == run_all(reg@, a@.skip(i as int), step),
            {
                assert(a@.skip(i as int)[0] == a@[i as int]);
                assert(a@.skip(i as int).skip(1) =~= a@.skip(i + 1));
                let r = run_split_item(reg, &a[i]);
                if !is_fine(&r) {
                    return r;
                }
            }
            Some(Ok(()))
        },
        _ => Some(Ok(())),
    }
}

fn run_field_entries(reg: &mut Register, rmod: &Mapping, pname: &str, update_fields: bool) -> (r:
    Option<PatchResult>)
    ensures
        (final(reg)@, attempted(r)) == field_entries(old(reg)@, rmod@, pname@, update_fields),
{
    if !update_fields {
        return Some(Ok(()));
    }
    let ghost step = |r: RegisterView, entry: (Yaml, Yaml)| field_entry(r, entry, pname@);
    assert(rmod@.skip(0) =~= rmod@);
    for i in 0..rmod.entries.len()
        invariant
            step == (|r: RegisterView, entry: (Yaml, Yaml)| field_entry(r, entry, pname@)),
            field_entries(old(reg)@, rmod@, pname@, true) == run_all(
                reg@,
                rmod@.skip(i as int),
                step,
            ),
            update_fields,
    {
        assert(rmod@.skip(i as int)[0] == rmod.entries@[i as int]);
        assert(rmod@.skip(i as int).skip(1) =~= rmod@.skip(i + 1));
        let r = run_field_entry(reg, &rmod.entries[i].0, &rmod.entries[i].1, pname);
        if !is_fine(&r) {
            return r;
        }
    }
    Some(Ok(()))
}

fn run_collections(reg: &mut Register, rmod: &Mapping) -> (r: Option<PatchResult>)
    ensures
        (final(reg)@, attempted(r)) == collections(old(reg)@, rmod@),
{
    let ghost step = |r: RegisterView, entry: (Yaml, Yaml)| collection(r, entry);
    if let Some(Yaml::Hash(h)) = rmod.get("_array") {
        assert(h@.skip(0) =~= h@);
        for i in 0..h.entries.len()
            invariant
                step == (|r: RegisterView, entry: (Yaml, Yaml)| collection(r, entry)),
                collections(old(reg)@, rmod@) == run_all(reg@, h@.skip(i as int), step),
        {
            assert(h@.skip(i as int)[0] == h.entries@[i as int]);
            assert(h@.skip(i as int).skip(1) =~= h@.skip(i + 1));
            let r = run_collection(reg, &h.entries[i].0, &h.entries[i].1);
            if !is_fine(&r) {
                return r;
            }
        }
    }
    Some(Ok(()))
}

/// Carries out all that a document says, up to the first step that fails or cannot be carried
/// out.
pub(crate) fn run(reg: &mut Register, rmod: &Mapping, pname: &str, update_fields: bool) -> (r:
    Option<PatchResult>)
    ensures
        (final(reg)@, attempted(r)) == processed(old(reg)@, rmod@, pname@, update_fields),
{
    let r = run_deletions(reg, rmod);
    if !is_fine(&r) {
        return r;
    }
    let r = run_clearings(reg, rmod);
    if !is_fine(&r) {
        return r;
    }
    let r = run_modifications(reg, rmod);
    if !is_fine(&r) {
        return r;
    }
    let r = run_additions(reg, rmod);
    if !is_fine(&r) {
        return r;
    }
    let r = run_merges(reg, rmod);
    if !is_fine(&r) {
        return r;
    }
    let r = run_splits(reg, rmod);
    if !is_fine(&r) {
        return r;
    }
    let r = run_start_strips(reg, rmod);
    if !is_fine(&r) {
        return r;
    }
    let r = run_end_strips(reg, rmod);
    if !is_fine(&r) {
        return r;
    }
    let r = run_field_entries(reg, rmod, pname, update_fields);
    if !is_fine(&r) {
        return r;
    }
    run_collections(reg, rmod)
}

} // verus!
