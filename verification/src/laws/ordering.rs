//! What holds of the order in which a document is worked through.

use crate::collect::{collect_defined, collected};
use crate::edit::{
    added, cleared, deleted, end_can_be_stripped, end_stripped, modified_fields, modify_defined,
    start_can_be_stripped, start_stripped,
};
use crate::enums::{field_processed, process_field_defined};
use crate::error::{ErrorView, StepView};
use crate::laws::documents::{is_key, law_lookup_finds_first};
use crate::laws::processing::{law_single_command, law_steps_in_order, lemma_commands_differ};
use crate::merge::{merge_defined, merged};
use crate::process::{
    addition, additions, chain, clearings, collection, collections, deletions, end_strips,
    field_entries, field_entry, guarded, in_step, merge_entry, merge_item, merges, modification,
    modifications, processed, run_all, split_entry, split_item, splits, start_strips, unchanged,
    went_well, Progress,
};
use crate::split::{split, split_defined};
use crate::svd::RegisterView;
use crate::text::begins_with;
use crate::yaml::{lookup, strings_of, Mapping, Yaml};
use vstd::prelude::*;

verus! {

/// One change of the fields of a register that a document asks for.
pub enum Command {
    Delete(Seq<char>),
    Clear(Seq<char>),
    Modify(Seq<char>, Seq<(Yaml, Yaml)>),
    Add(Seq<char>, Seq<(Yaml, Yaml)>),
    Merge(Seq<char>, Option<Yaml>),
    Split(Seq<char>, Seq<(Yaml, Yaml)>),
    StripStart(Seq<char>),
    StripEnd(Seq<char>),
    Describe(Seq<char>, Yaml),
    Collect(Seq<char>, Seq<(Yaml, Yaml)>),
}

/// A register after a step that may not be possible; where it fails, the error says which step it
/// was.
pub open spec fn taken(
    possible: bool,
    reg: RegisterView,
    step: StepView,
    result: (RegisterView, Result<(), ErrorView>),
) -> Progress {
    if possible {
        (
            result.0,
            match result.1 {
                Ok(_) => Some(Ok(())),
                Err(e) => Some(Err(ErrorView::During { step, error: Box::new(e) })),
            },
        )
    } else {
        (reg, None)
    }
}

/// A register after a single command.
pub open spec fn commanded(reg: RegisterView, command: Command, pname: Seq<char>) -> Progress {
    match command {
        Command::Delete(spec) => (deleted(reg, spec), Some(Ok(()))),
        Command::Clear(spec) => (cleared(reg, spec), Some(Ok(()))),
        Command::Modify(spec, fmod) => taken(
            modify_defined(reg, spec, fmod),
            reg,
            StepView::Modifying(spec),
            modified_fields(reg, spec, fmod),
        ),
        Command::Add(name, fadd) => taken(
            true,
            reg,
            StepView::Adding(name),
            added(reg, name, fadd),
        ),
        Command::Merge(key, value) => taken(
            merge_defined(reg, key, value),
            reg,
            StepView::Merging(key),
            merged(reg, key, value),
        ),
        Command::Split(spec, fsplit) => taken(
            split_defined(reg, spec, fsplit),
            reg,
            StepView::Splitting(spec),
            split(reg, spec, fsplit),
        ),
        Command::StripStart(prefix) => taken(
            start_can_be_stripped(reg, prefix),
            reg,
            StepView::StrippingStart(prefix),
            start_stripped(reg, prefix),
        ),
        Command::StripEnd(suffix) => taken(
            end_can_be_stripped(reg, suffix),
            reg,
            StepView::StrippingEnd(suffix),
            end_stripped(reg, suffix),
        ),
        Command::Describe(spec, fmod) => taken(
            process_field_defined(reg, fmod),
            reg,
            StepView::Processing(spec),
            field_processed(reg, pname, spec, fmod),
        ),
        Command::Collect(spec, fmod) => taken(
            collect_defined(reg, spec, fmod),
            reg,
            StepView::Collecting(spec),
            collected(reg, spec, fmod),
        ),
    }
}

/// A register after commands in turn, up to the first that does not go well. An error in the place
/// of a command is the answer when its turn comes.
pub open spec fn commanded_all(
    reg: RegisterView,
    commands: Seq<Result<Command, ErrorView>>,
    pname: Seq<char>,
) -> Progress
    decreases commands.len(),
{
    if commands.len() == 0 {
        (reg, Some(Ok(())))
    } else {
        match commands[0] {
            Err(e) => (reg, Some(Err(e))),
            Ok(command) => {
                let first = commanded(reg, command, pname);
                if first.1 == Some(Ok::<(), ErrorView>(())) {
                    commanded_all(first.0, commands.skip(1), pname)
                } else {
                    first
                }
            },
        }
    }
}

/// The strings that a value gives: itself if it is a string, those of its items if it is a list.
pub open spec fn texts(value: Yaml) -> Seq<Seq<char>> {
    match value {
        Yaml::String(s) => seq![s@],
        Yaml::Array(a) => strings_of(a@),
        _ => Seq::empty(),
    }
}

/// The entries that a value gives: its own if it is a mapping.
pub open spec fn pairs(value: Yaml) -> Seq<(Yaml, Yaml)> {
    match value {
        Yaml::Hash(h) => h.entries@,
        _ => Seq::empty(),
    }
}

/// What an entry asks for whose key has to be a string and whose value has to be a mapping.
pub open spec fn with_mapping(
    entry: (Yaml, Yaml),
    command: spec_fn(Seq<char>, Seq<(Yaml, Yaml)>) -> Command,
) -> Result<Command, ErrorView> {
    match entry {
        (Yaml::String(key), Yaml::Hash(h)) => Ok(command(key@, h.entries@)),
        (Yaml::String(_), _) => Err(ErrorView::NotHash),
        _ => Err(ErrorView::NotString),
    }
}

/// What an item asks for that has to be a string.
pub open spec fn with_text(item: Yaml, command: spec_fn(Seq<char>) -> Command) -> Result<
    Command,
    ErrorView,
> {
    match item {
        Yaml::String(s) => Ok(command(s@)),
        _ => Err(ErrorView::NotString),
    }
}

/// The commands that an entry of a document asks for, in order.
pub open spec fn commands_of(entry: (Yaml, Yaml), update_fields: bool) -> Seq<
    Result<Command, ErrorView>,
> {
    let (key, value) = entry;
    if is_key(key, "_delete"@) {
        texts(value).map_values(|s: Seq<char>| Ok(Command::Delete(s)))
    } else if is_key(key, "_clear"@) {
        texts(value).map_values(|s: Seq<char>| Ok(Command::Clear(s)))
    } else if is_key(key, "_modify"@) {
        pairs(value).map_values(
            |e: (Yaml, Yaml)|
                with_mapping(e, |s: Seq<char>, h: Seq<(Yaml, Yaml)>| Command::Modify(s, h)),
        )
    } else if is_key(key, "_add"@) {
        pairs(value).map_values(
            |e: (Yaml, Yaml)|
                with_mapping(e, |s: Seq<char>, h: Seq<(Yaml, Yaml)>| Command::Add(s, h)),
        )
    } else if is_key(key, "_merge"@) {
        match value {
            Yaml::Array(a) => a@.map_values(
                |item: Yaml| with_text(item, |s: Seq<char>| Command::Merge(s, None)),
            ),
            _ => pairs(value).map_values(
                |e: (Yaml, Yaml)| with_text(e.0, |s: Seq<char>| Command::Merge(s, Some(e.1))),
            ),
        }
    } else if is_key(key, "_split"@) {
        match value {
            Yaml::Array(a) => a@.map_values(
                |item: Yaml| with_text(item, |s: Seq<char>| Command::Split(s, Seq::empty())),
            ),
            _ => pairs(value).map_values(
                |e: (Yaml, Yaml)|
                    with_mapping(e, |s: Seq<char>, h: Seq<(Yaml, Yaml)>| Command::Split(s, h)),
            ),
        }
    } else if is_key(key, "_strip"@) {
        texts(value).map_values(|s: Seq<char>| Ok(Command::StripStart(s)))
    } else if is_key(key, "_strip_end"@) {
        texts(value).map_values(|s: Seq<char>| Ok(Command::StripEnd(s)))
    } else if is_key(key, "_array"@) {
        pairs(value).map_values(
            |e: (Yaml, Yaml)|
                with_mapping(e, |s: Seq<char>, h: Seq<(Yaml, Yaml)>| Command::Collect(s, h)),
        )
    } else {
        match key {
            Yaml::String(s) => if update_fields && !begins_with(s@, '_') {
                seq![Ok(Command::Describe(s@, value))]
            } else {
                Seq::empty()
            },
            _ => if update_fields {
                seq![Err(ErrorView::NotString)]
            } else {
                Seq::empty()
            },
        }
    }
}

/// When the turn of an entry comes: deletions come first, then clearings, modifications, additions,
/// merges, splits, the starts of names and the ends of names, then what describes fields, and
/// arrays at last.
pub open spec fn turn(entry: (Yaml, Yaml)) -> int {
    let key = entry.0;
    if is_key(key, "_delete"@) {
        0
    } else if is_key(key, "_clear"@) {
        1
    } else if is_key(key, "_modify"@) {
        2
    } else if is_key(key, "_add"@) {
        3
    } else if is_key(key, "_merge"@) {
        4
    } else if is_key(key, "_split"@) {
        5
    } else if is_key(key, "_strip"@) {
        6
    } else if is_key(key, "_strip_end"@) {
        7
    } else if is_key(key, "_array"@) {
        9
    } else {
        8
    }
}

proof fn lemma_run_commands<T>(
    reg: RegisterView,
    items: Seq<T>,
    step: spec_fn(RegisterView, T) -> Progress,
    command: spec_fn(T) -> Result<Command, ErrorView>,
    pname: Seq<char>,
)
    requires
        forall|r: RegisterView, item: T| #[trigger]
            step(r, item) == match command(item) {
                Err(e) => (r, Some(Err::<(), ErrorView>(e))),
                Ok(c) => commanded(r, c, pname),
            },
    ensures
        run_all(reg, items, step) == commanded_all(reg, items.map_values(command), pname),
    decreases items.len(),
{
    let commands = items.map_values(command);
    if items.len() > 0 {
        let first = step(reg, items[0]);
        assert(commands[0] == command(items[0]));
        assert(commands.skip(1) =~= items.skip(1).map_values(command));
        if went_well(first) {
            lemma_run_commands(first.0, items.skip(1), step, command, pname);
        }
    }
}

proof fn lemma_single_lookup(rmod: Seq<(Yaml, Yaml)>, key: Seq<char>)
    requires
        rmod.len() == 1,
    ensures
        lookup(rmod, key) == if is_key(rmod[0].0, key) {
            Some(rmod[0].1)
        } else {
            None
        },
{
    assert(rmod.skip(1).len() == 0);
    assert(lookup(rmod.skip(1), key) is None);
}

/// A document of a single entry does what the commands say that the entry asks for, in their
/// order.
#[verifier::rlimit(60)]
pub proof fn law_single_entry(
    reg: RegisterView,
    entry: (Yaml, Yaml),
    pname: Seq<char>,
    update_fields: bool,
)
    ensures
        processed(reg, seq![entry], pname, update_fields) == commanded_all(
            reg,
            commands_of(entry, update_fields),
            pname,
        ),
{
    let rmod = seq![entry];
    let (key, value) = entry;
    let t = turn(entry);
    lemma_commands_differ();
    law_single_command(reg, rmod, pname, update_fields);
    if t == 0 {
        lemma_single_lookup(rmod, "_delete"@);
        lemma_run_commands(
            reg,
            texts(value),
            |r: RegisterView, spec: Seq<char>| unchanged(deleted(r, spec)),
            |s: Seq<char>| Ok(Command::Delete(s)),
            pname,
        );
    } else if t == 1 {
        lemma_single_lookup(rmod, "_clear"@);
        lemma_run_commands(
            reg,
            texts(value),
            |r: RegisterView, spec: Seq<char>| unchanged(cleared(r, spec)),
            |s: Seq<char>| Ok(Command::Clear(s)),
            pname,
        );
    } else if t == 2 {
        lemma_single_lookup(rmod, "_modify"@);
        lemma_run_commands(
            reg,
            pairs(value),
            |r: RegisterView, e: (Yaml, Yaml)| modification(r, e),
            |e: (Yaml, Yaml)|
                with_mapping(e, |s: Seq<char>, h: Seq<(Yaml, Yaml)>| Command::Modify(s, h)),
            pname,
        );
    } else if t == 3 {
        lemma_single_lookup(rmod, "_add"@);
        lemma_run_commands(
            reg,
            pairs(value),
            |r: RegisterView, e: (Yaml, Yaml)| addition(r, e),
            |e: (Yaml, Yaml)|
                with_mapping(e, |s: Seq<char>, h: Seq<(Yaml, Yaml)>| Command::Add(s, h)),
            pname,
        );
    } else if t == 4 {
        lemma_single_lookup(rmod, "_merge"@);
        if let Yaml::Array(a) = value {
            lemma_run_commands(
                reg,
                a@,
                |r: RegisterView, item: Yaml| merge_item(r, item),
                |item: Yaml| with_text(item, |s: Seq<char>| Command::Merge(s, None)),
                pname,
            );
        } else {
            lemma_run_commands(
                reg,
                pairs(value),
                |r: RegisterView, e: (Yaml, Yaml)| merge_entry(r, e),
                |e: (Yaml, Yaml)| with_text(e.0, |s: Seq<char>| Command::Merge(s, Some(e.1))),
                pname,
            );
        }
    } else if t == 5 {
        lemma_single_lookup(rmod, "_split"@);
        if let Yaml::Array(a) = value {
            lemma_run_commands(
                reg,
                a@,
                |r: RegisterView, item: Yaml| split_item(r, item),
                |item: Yaml| with_text(item, |s: Seq<char>| Command::Split(s, Seq::empty())),
                pname,
            );
        } else {
            lemma_run_commands(
                reg,
                pairs(value),
                |r: RegisterView, e: (Yaml, Yaml)| split_entry(r, e),
                |e: (Yaml, Yaml)|
                    with_mapping(e, |s: Seq<char>, h: Seq<(Yaml, Yaml)>| Command::Split(s, h)),
                pname,
            );
        }
    } else if t == 6 {
        lemma_single_lookup(rmod, "_strip"@);
        lemma_run_commands(
            reg,
            texts(value),
            |r: RegisterView, prefix: Seq<char>|
                guarded(
                    start_can_be_stripped(r, prefix),
                    r,
                    in_step(StepView::StrippingStart(prefix), start_stripped(r, prefix)),
                ),
            |s: Seq<char>| Ok(Command::StripStart(s)),
            pname,
        );
    } else if t == 7 {
        lemma_single_lookup(rmod, "_strip_end"@);
        lemma_run_commands(
            reg,
            texts(value),
            |r: RegisterView, suffix: Seq<char>|
                guarded(
                    end_can_be_stripped(r, suffix),
                    r,
                    in_step(StepView::StrippingEnd(suffix), end_stripped(r, suffix)),
                ),
            |s: Seq<char>| Ok(Command::StripEnd(s)),
            pname,
        );
    } else if t == 9 {
        lemma_single_lookup(rmod, "_array"@);
        lemma_run_commands(
            reg,
            pairs(value),
            |r: RegisterView, e: (Yaml, Yaml)| collection(r, e),
            |e: (Yaml, Yaml)|
                with_mapping(e, |s: Seq<char>, h: Seq<(Yaml, Yaml)>| Command::Collect(s, h)),
            pname,
        );
    } else {
        lemma_other_entry(reg, entry, pname, update_fields);
    }
}

proof fn lemma_other_entry(
    reg: RegisterView,
    entry: (Yaml, Yaml),
    pname: Seq<char>,
    update_fields: bool,
)
    requires
        turn(entry) == 8,
    ensures
        processed(reg, seq![entry], pname, update_fields) == commanded_all(
            reg,
            commands_of(entry, update_fields),
            pname,
        ),
{
    let rmod = seq![entry];
    lemma_single_lookup(rmod, "_delete"@);
    lemma_single_lookup(rmod, "_clear"@);
    lemma_single_lookup(rmod, "_modify"@);
    lemma_single_lookup(rmod, "_add"@);
    lemma_single_lookup(rmod, "_merge"@);
    lemma_single_lookup(rmod, "_split"@);
    lemma_single_lookup(rmod, "_strip"@);
    lemma_single_lookup(rmod, "_strip_end"@);
    lemma_single_lookup(rmod, "_array"@);
    let step = |r: RegisterView, e: (Yaml, Yaml)| field_entry(r, e, pname);
    let first = step(reg, entry);
    let commands = commands_of(entry, update_fields);
    assert(rmod.skip(1).len() == 0);
    assert(run_all(first.0, rmod.skip(1), step) == unchanged(first.0));
    assert(update_fields ==> field_entries(reg, rmod, pname, update_fields) == first);
    if commands.len() > 0 {
        assert(commands.skip(1).len() == 0);
        assert(commanded_all(first.0, commands.skip(1), pname) == unchanged(first.0));
    }
    assert(field_entries(reg, rmod, pname, update_fields) == commanded_all(reg, commands, pname));
}

spec fn group(
    t: int,
    reg: RegisterView,
    rmod: Seq<(Yaml, Yaml)>,
    pname: Seq<char>,
    update_fields: bool,
) -> Progress {
    if t == 0 {
        deletions(reg, rmod)
    } else if t == 1 {
        clearings(reg, rmod)
    } else if t == 2 {
        modifications(reg, rmod)
    } else if t == 3 {
        additions(reg, rmod)
    } else if t == 4 {
        merges(reg, rmod)
    } else if t == 5 {
        splits(reg, rmod)
    } else if t == 6 {
        start_strips(reg, rmod)
    } else if t == 7 {
        end_strips(reg, rmod)
    } else if t == 8 {
        field_entries(reg, rmod, pname, update_fields)
    } else {
        collections(reg, rmod)
    }
}

spec fn groups_from(
    t: int,
    reg: RegisterView,
    rmod: Seq<(Yaml, Yaml)>,
    pname: Seq<char>,
    update_fields: bool,
) -> Progress
    decreases 10 - t,
{
    if t >= 10 {
        unchanged(reg)
    } else {
        chain(
            group(t, reg, rmod, pname, update_fields),
            |r: RegisterView| groups_from(t + 1, r, rmod, pname, update_fields),
        )
    }
}

proof fn lemma_groups(
    reg: RegisterView,
    rmod: Seq<(Yaml, Yaml)>,
    pname: Seq<char>,
    update_fields: bool,
)
    ensures
        processed(reg, rmod, pname, update_fields) == groups_from(
            0,
            reg,
            rmod,
            pname,
            update_fields,
        ),
{
    let all = groups_from(0, reg, rmod, pname, update_fields);
    let p = deletions(reg, rmod);
    assert(chain(p, |r: RegisterView| groups_from(1, r, rmod, pname, update_fields)) == all);
    let p = chain(p, |r: RegisterView| clearings(r, rmod));
    assert(chain(p, |r: RegisterView| groups_from(2, r, rmod, pname, update_fields)) == all);
    let p = chain(p, |r: RegisterView| modifications(r, rmod));
    assert(chain(p, |r: RegisterView| groups_from(3, r, rmod, pname, update_fields)) == all);
    let p = chain(p, |r: RegisterView| additions(r, rmod));
    assert(chain(p, |r: RegisterView| groups_from(4, r, rmod, pname, update_fields)) == all);
    let p = chain(p, |r: RegisterView| merges(r, rmod));
    assert(chain(p, |r: RegisterView| groups_from(5, r, rmod, pname, update_fields)) == all);
    let p = chain(p, |r: RegisterView| splits(r, rmod));
    assert(chain(p, |r: RegisterView| groups_from(6, r, rmod, pname, update_fields)) == all);
    let p = chain(p, |r: RegisterView| start_strips(r, rmod));
    assert(chain(p, |r: RegisterView| groups_from(7, r, rmod, pname, update_fields)) == all);
    let p = chain(p, |r: RegisterView| end_strips(r, rmod));
    assert(chain(p, |r: RegisterView| groups_from(8, r, rmod, pname, update_fields)) == all);
    let p = chain(p, |r: RegisterView| field_entries(r, rmod, pname, update_fields));
    assert(chain(p, |r: RegisterView| groups_from(9, r, rmod, pname, update_fields)) == all);
    let p = chain(p, |r: RegisterView| collections(r, rmod));
    assert(chain(p, |r: RegisterView| groups_from(10, r, rmod, pname, update_fields)) == all);
}

proof fn lemma_filter_front(
    rmod: Seq<(Yaml, Yaml)>,
    kept: spec_fn((Yaml, Yaml)) -> bool,
)
    requires
        rmod.len() > 0,
    ensures
        kept(rmod[0]) ==> rmod.filter(kept).len() > 0 && rmod.filter(kept)[0] == rmod[0]
            && rmod.filter(kept).skip(1) == rmod.skip(1).filter(kept),
        !kept(rmod[0]) ==> rmod.filter(kept) == rmod.skip(1).filter(kept),
{
    let head = rmod.take(1);
    let tail = rmod.skip(1);
    assert(rmod =~= head + tail);
    Seq::filter_distributes_over_add(head, tail, kept);
    reveal_with_fuel(Seq::filter, 2);
    assert(head.drop_last().len() == 0);
    if kept(rmod[0]) {
        assert(head.filter(kept) =~= seq![rmod[0]]);
        assert(rmod.filter(kept).skip(1) =~= tail.filter(kept));
    } else {
        assert(head.filter(kept) =~= Seq::<(Yaml, Yaml)>::empty());
        assert(rmod.filter(kept) =~= tail.filter(kept));
    }
}

proof fn lemma_lookup_in_part(
    rmod: Seq<(Yaml, Yaml)>,
    kept: spec_fn((Yaml, Yaml)) -> bool,
    key: Seq<char>,
    keeps: bool,
)
    requires
        forall|e: (Yaml, Yaml)| #[trigger] is_key(e.0, key) ==> kept(e) == keeps,
    ensures
        lookup(rmod.filter(kept), key) == if keeps {
            lookup(rmod, key)
        } else {
            None
        },
    decreases rmod.len(),
{
    reveal(Seq::filter);
    if rmod.len() > 0 {
        let part = rmod.filter(kept);
        lemma_filter_front(rmod, kept);
        lemma_lookup_in_part(rmod.skip(1), kept, key, keeps);
        assert(is_key(rmod[0].0, key) == (rmod[0].0.as_text() == Ok::<Seq<char>, ErrorView>(key)));
        if kept(rmod[0]) {
            assert(part[0] == rmod[0]);
            assert(lookup(part.skip(1), key) == lookup(rmod.skip(1).filter(kept), key));
        }
    } else {
        assert(rmod.filter(kept).len() == 0);
    }
}

proof fn lemma_descriptions_in_part(
    reg: RegisterView,
    rmod: Seq<(Yaml, Yaml)>,
    kept: spec_fn((Yaml, Yaml)) -> bool,
    keeps: bool,
    pname: Seq<char>,
)
    requires
        forall|e: (Yaml, Yaml)| #[trigger] turn(e) == 8 ==> kept(e) == keeps,
    ensures
        ({
            let step = |r: RegisterView, e: (Yaml, Yaml)| field_entry(r, e, pname);
            run_all(reg, rmod.filter(kept), step) == if keeps {
                run_all(reg, rmod, step)
            } else {
                unchanged(reg)
            }
        }),
    decreases rmod.len(),
{
    reveal(Seq::filter);
    let step = |r: RegisterView, e: (Yaml, Yaml)| field_entry(r, e, pname);
    if rmod.len() > 0 {
        lemma_commands_differ();
        lemma_filter_front(rmod, kept);
        let first = step(reg, rmod[0]);
        let t = turn(rmod[0]);
        if t != 8 {
            assert(first == unchanged(reg));
        }
        if went_well(first) {
            lemma_descriptions_in_part(first.0, rmod.skip(1), kept, keeps, pname);
        }
        if t == 8 && !keeps {
            lemma_descriptions_in_part(reg, rmod.skip(1), kept, keeps, pname);
        }
    }
}

proof fn lemma_group_in_part(
    t: int,
    reg: RegisterView,
    rmod: Seq<(Yaml, Yaml)>,
    kept: spec_fn((Yaml, Yaml)) -> bool,
    keeps: bool,
    pname: Seq<char>,
    update_fields: bool,
)
    requires
        0 <= t < 10,
        forall|e: (Yaml, Yaml)| #[trigger] turn(e) == t ==> kept(e) == keeps,
    ensures
        group(t, reg, rmod.filter(kept), pname, update_fields) == if keeps {
            group(t, reg, rmod, pname, update_fields)
        } else {
            unchanged(reg)
        },
{
    lemma_commands_differ();
    if t == 8 {
        lemma_descriptions_in_part(reg, rmod, kept, keeps, pname);
    } else {
        let key = if t == 0 {
            "_delete"@
        } else if t == 1 {
            "_clear"@
        } else if t == 2 {
            "_modify"@
        } else if t == 3 {
            "_add"@
        } else if t == 4 {
            "_merge"@
        } else if t == 5 {
            "_split"@
        } else if t == 6 {
            "_strip"@
        } else if t == 7 {
            "_strip_end"@
        } else {
            "_array"@
        };
        assert forall|e: (Yaml, Yaml)| #[trigger] is_key(e.0, key) implies kept(e) == keeps by {
            assert(turn(e) == t);
        }
        lemma_lookup_in_part(rmod, kept, key, keeps);
    }
}

proof fn lemma_groups_in_parts(
    i: int,
    t: int,
    reg: RegisterView,
    rmod: Seq<(Yaml, Yaml)>,
    pname: Seq<char>,
    update_fields: bool,
)
    requires
        0 <= i <= 10,
    ensures
        ({
            let early = rmod.filter(|e: (Yaml, Yaml)| turn(e) <= t);
            let late = rmod.filter(|e: (Yaml, Yaml)| turn(e) > t);
            groups_from(i, reg, rmod, pname, update_fields) == chain(
                groups_from(i, reg, early, pname, update_fields),
                |r: RegisterView| groups_from(i, r, late, pname, update_fields),
            )
        }),
    decreases 10 - i,
{
    let is_early = |e: (Yaml, Yaml)| turn(e) <= t;
    let is_late = |e: (Yaml, Yaml)| turn(e) > t;
    let early = rmod.filter(is_early);
    let late = rmod.filter(is_late);
    if i < 10 {
        lemma_group_in_part(i, reg, rmod, is_early, i <= t, pname, update_fields);
        lemma_group_in_part(i, reg, rmod, is_late, i > t, pname, update_fields);
        let p = group(i, reg, rmod, pname, update_fields);
        if i <= t {
            if went_well(p) {
                lemma_groups_in_parts(i + 1, t, p.0, rmod, pname, update_fields);
                let q = groups_from(i + 1, p.0, early, pname, update_fields);
                assert(groups_from(i, reg, early, pname, update_fields) == q);
                if went_well(q) {
                    lemma_group_in_part(i, q.0, rmod, is_late, false, pname, update_fields);
                    assert(groups_from(i, q.0, late, pname, update_fields) == groups_from(
                        i + 1,
                        q.0,
                        late,
                        pname,
                        update_fields,
                    ));
                }
            }
        } else {
            lemma_nothing_early(i, t, reg, rmod, pname, update_fields);
            if went_well(p) {
                lemma_groups_in_parts(i + 1, t, p.0, rmod, pname, update_fields);
                lemma_nothing_early(i + 1, t, p.0, rmod, pname, update_fields);
            }
        }
    }
}

proof fn lemma_nothing_early(
    i: int,
    t: int,
    reg: RegisterView,
    rmod: Seq<(Yaml, Yaml)>,
    pname: Seq<char>,
    update_fields: bool,
)
    requires
        0 <= i <= 10,
        t < i,
    ensures
        groups_from(
            i,
            reg,
            rmod.filter(|e: (Yaml, Yaml)| turn(e) <= t),
            pname,
            update_fields,
        ) == unchanged(reg),
    decreases 10 - i,
{
    let is_early = |e: (Yaml, Yaml)| turn(e) <= t;
    if i < 10 {
        lemma_group_in_part(i, reg, rmod, is_early, false, pname, update_fields);
        lemma_nothing_early(i + 1, t, reg, rmod, pname, update_fields);
    }
}

/// The entries of a document whose turn comes early are worked through before all the others,
/// wherever they stand: a document does what its early part does and, if that goes well, what the
/// rest does to the register that is left.
pub proof fn law_early_entries_first(
    reg: RegisterView,
    rmod: Seq<(Yaml, Yaml)>,
    pname: Seq<char>,
    update_fields: bool,
    t: int,
)
    ensures
        ({
            let early = rmod.filter(|e: (Yaml, Yaml)| turn(e) <= t);
            let late = rmod.filter(|e: (Yaml, Yaml)| turn(e) > t);
            let (after, answer) = processed(reg, early, pname, update_fields);
            processed(reg, rmod, pname, update_fields) == if answer == Some(
                Ok::<(), ErrorView>(()),
            ) {
                processed(after, late, pname, update_fields)
            } else {
                (after, answer)
            }
        }),
{
    let early = rmod.filter(|e: (Yaml, Yaml)| turn(e) <= t);
    let late = rmod.filter(|e: (Yaml, Yaml)| turn(e) > t);
    let (after, answer) = processed(reg, early, pname, update_fields);
    lemma_groups(reg, rmod, pname, update_fields);
    lemma_groups(reg, early, pname, update_fields);
    lemma_groups(after, late, pname, update_fields);
    lemma_groups_in_parts(0, t, reg, rmod, pname, update_fields);
}

/// Commands in turn are the first ones and, if these go well, the others.
pub proof fn law_commands_in_turn(
    reg: RegisterView,
    first: Seq<Result<Command, ErrorView>>,
    rest: Seq<Result<Command, ErrorView>>,
    pname: Seq<char>,
)
    ensures
        ({
            let (after, answer) = commanded_all(reg, first, pname);
            commanded_all(reg, first + rest, pname) == if answer == Some(Ok::<(), ErrorView>(())) {
                commanded_all(after, rest, pname)
            } else {
                (after, answer)
            }
        }),
    decreases first.len(),
{
    if first.len() == 0 {
        assert(first + rest =~= rest);
    } else {
        assert((first + rest).skip(1) =~= first.skip(1) + rest);
        if let Ok(command) = first[0] {
            let next = commanded(reg, command, pname);
            law_commands_in_turn(next.0, first.skip(1), rest, pname);
        }
    }
}

/// Of two entries of a document, the one whose turn comes earlier is carried out first, whichever
/// stands first: the commands that it asks for are carried out, and then those that the other asks
/// for, on the register that the first ones leave.
pub proof fn law_two_entries_in_turn(
    reg: RegisterView,
    a: (Yaml, Yaml),
    b: (Yaml, Yaml),
    pname: Seq<char>,
    update_fields: bool,
)
    requires
        turn(a) < turn(b),
    ensures
        processed(reg, seq![a, b], pname, update_fields) == commanded_all(
            reg,
            commands_of(a, update_fields) + commands_of(b, update_fields),
            pname,
        ),
        processed(reg, seq![b, a], pname, update_fields) == commanded_all(
            reg,
            commands_of(a, update_fields) + commands_of(b, update_fields),
            pname,
        ),
{
    let t = turn(a);
    let is_early = |e: (Yaml, Yaml)| turn(e) <= t;
    let is_late = |e: (Yaml, Yaml)| turn(e) > t;
    reveal(Seq::filter);
    assert forall|rmod: Seq<(Yaml, Yaml)>|
        rmod == seq![a, b] || rmod == seq![b, a] implies #[trigger] rmod.filter(is_early) == seq![a]
        && rmod.filter(is_late) == seq![b] by {
        reveal_with_fuel(Seq::filter, 3);
        lemma_filter_front(rmod, is_early);
        lemma_filter_front(rmod, is_late);
        let tail = rmod.skip(1);
        assert(tail.len() == 1);
        lemma_filter_front(tail, is_early);
        lemma_filter_front(tail, is_late);
        assert(tail.skip(1).len() == 0);
        assert(rmod.filter(is_early) =~= seq![a]);
        assert(rmod.filter(is_late) =~= seq![b]);
    }
    law_early_entries_first(reg, seq![a, b], pname, update_fields, t);
    law_early_entries_first(reg, seq![b, a], pname, update_fields, t);
    assert(seq![a, b].filter(is_early) == seq![a]);
    assert(seq![b, a].filter(is_early) == seq![a]);
    law_single_entry(reg, a, pname, update_fields);
    let after = processed(reg, seq![a], pname, update_fields).0;
    law_single_entry(after, b, pname, update_fields);
    law_commands_in_turn(
        reg,
        commands_of(a, update_fields),
        commands_of(b, update_fields),
        pname,
    );
}

/// What a document says of fields is carried out in the order in which it is said.
pub proof fn law_descriptions_in_document_order(
    reg: RegisterView,
    a: (Yaml, Yaml),
    b: (Yaml, Yaml),
    pname: Seq<char>,
    update_fields: bool,
)
    requires
        turn(a) == 8,
        turn(b) == 8,
    ensures
        processed(reg, seq![a, b], pname, update_fields) == commanded_all(
            reg,
            commands_of(a, update_fields) + commands_of(b, update_fields),
            pname,
        ),
{
    let rmod = seq![a, b];
    let step = |r: RegisterView, e: (Yaml, Yaml)| field_entry(r, e, pname);
    assert(rmod =~= seq![a] + seq![b]);
    law_steps_in_order(reg, seq![a], seq![b], step);
    assert forall|doc: Seq<(Yaml, Yaml)>, r: RegisterView|
        doc == seq![a, b] || doc == seq![a] || doc == seq![b] implies #[trigger] processed(
        r,
        doc,
        pname,
        update_fields,
    ) == field_entries(r, doc, pname, update_fields) by {
        lemma_only_descriptions(r, doc, pname, update_fields);
    }
    let (after, _) = processed(reg, seq![a], pname, update_fields);
    law_single_entry(reg, a, pname, update_fields);
    law_single_entry(after, b, pname, update_fields);
    law_commands_in_turn(
        reg,
        commands_of(a, update_fields),
        commands_of(b, update_fields),
        pname,
    );
    assert(processed(reg, rmod, pname, update_fields) == field_entries(
        reg,
        rmod,
        pname,
        update_fields,
    ));
}

proof fn lemma_only_descriptions(
    reg: RegisterView,
    rmod: Seq<(Yaml, Yaml)>,
    pname: Seq<char>,
    update_fields: bool,
)
    requires
        forall|i: int| 0 <= i < rmod.len() ==> turn(#[trigger] rmod[i]) == 8,
    ensures
        processed(reg, rmod, pname, update_fields) == field_entries(
            reg,
            rmod,
            pname,
            update_fields,
        ),
{
    law_lookup_finds_first(rmod, "_delete"@, 0);
    law_lookup_finds_first(rmod, "_clear"@, 0);
    law_lookup_finds_first(rmod, "_modify"@, 0);
    law_lookup_finds_first(rmod, "_add"@, 0);
    law_lookup_finds_first(rmod, "_merge"@, 0);
    law_lookup_finds_first(rmod, "_split"@, 0);
    law_lookup_finds_first(rmod, "_strip"@, 0);
    law_lookup_finds_first(rmod, "_strip_end"@, 0);
    law_lookup_finds_first(rmod, "_array"@, 0);
}

/// Names are stripped before fields are given what a document describes, wherever that stands: a
/// description is followed on the register with the stripped names, so that it has to pick its
/// fields by these.
pub proof fn law_names_are_stripped_before_descriptions(
    reg: RegisterView,
    strip: (Yaml, Yaml),
    description: (Yaml, Yaml),
    part: Seq<char>,
    spec: Seq<char>,
    pname: Seq<char>,
)
    requires
        is_key(strip.0, "_strip"@) || is_key(strip.0, "_strip_end"@),
        texts(strip.1) == seq![part],
        is_key(description.0, spec),
        spec.len() == 0 || spec[0] != '_',
    ensures
        ({
            let from_start = is_key(strip.0, "_strip"@);
            let possible = if from_start {
                start_can_be_stripped(reg, part)
            } else {
                end_can_be_stripped(reg, part)
            };
            let (stripped, answer) = if from_start {
                start_stripped(reg, part)
            } else {
                end_stripped(reg, part)
            };
            possible && answer is Ok ==> {
                let expected = taken(
                    process_field_defined(stripped, description.1),
                    stripped,
                    StepView::Processing(spec),
                    field_processed(stripped, pname, spec, description.1),
                );
                &&& processed(reg, seq![strip, description], pname, true) == expected
                &&& processed(reg, seq![description, strip], pname, true) == expected
            }
        }),
{
    lemma_commands_differ();
    law_two_entries_in_turn(reg, strip, description, pname, true);
    let first = if is_key(strip.0, "_strip"@) {
        Ok(Command::StripStart(part))
    } else {
        Ok(Command::StripEnd(part))
    };
    let second = Ok(Command::Describe(spec, description.1));
    assert(commands_of(strip, true) =~= seq![first]);
    assert(commands_of(description, true) =~= seq![second]);
    let commands = seq![first] + seq![second];
    assert(commands.skip(1) =~= seq![second]);
    assert(seq![second].skip(1).len() == 0);
    reveal_with_fuel(commanded_all, 3);
}

/// Of two entries of a document with different commands the earlier command is carried out first,
/// whichever entry stands first, and the later one on the register that is left. Commands come in
/// the order `_delete`, `_clear`, `_modify`, `_add`, `_merge`, `_split`, `_strip`, `_strip_end`;
/// after all of these comes whatever is no command, and after that `_array`.
pub proof fn law_commands_in_order(
    reg: RegisterView,
    a: (Yaml, Yaml),
    b: (Yaml, Yaml),
    i: int,
    j: int,
    pname: Seq<char>,
    update_fields: bool,
)
    requires
        ({
            let keys = seq![
                "_delete"@,
                "_clear"@,
                "_modify"@,
                "_add"@,
                "_merge"@,
                "_split"@,
                "_strip"@,
                "_strip_end"@,
            ];
            &&& 0 <= i < j <= 9
            &&& i < 8 ==> is_key(a.0, keys[i])
            &&& i == 8 ==> !is_key(a.0, "_array"@) && forall|k: int|
                0 <= k < 8 ==> !is_key(a.0, #[trigger] keys[k])
            &&& j < 8 ==> is_key(b.0, keys[j])
            &&& j == 8 ==> !is_key(b.0, "_array"@) && forall|k: int|
                0 <= k < 8 ==> !is_key(b.0, #[trigger] keys[k])
            &&& j == 9 ==> is_key(b.0, "_array"@)
        }),
    ensures
        ({
            let (halfway, answer) = processed(reg, seq![a], pname, update_fields);
            let expected = if answer == Some(Ok::<(), ErrorView>(())) {
                processed(halfway, seq![b], pname, update_fields)
            } else {
                (halfway, answer)
            };
            &&& processed(reg, seq![a, b], pname, update_fields) == expected
            &&& processed(reg, seq![b, a], pname, update_fields) == expected
        }),
{
    let keys = seq![
        "_delete"@,
        "_clear"@,
        "_modify"@,
        "_add"@,
        "_merge"@,
        "_split"@,
        "_strip"@,
        "_strip_end"@,
    ];
    lemma_commands_differ();
    assert(keys[0] == "_delete"@ && keys[1] == "_clear"@ && keys[2] == "_modify"@);
    assert(keys[3] == "_add"@ && keys[4] == "_merge"@ && keys[5] == "_split"@);
    assert(keys[6] == "_strip"@ && keys[7] == "_strip_end"@);
    assert(turn(a) == i);
    assert(turn(b) == j);
    law_two_entries_in_turn(reg, a, b, pname, update_fields);
    law_single_entry(reg, a, pname, update_fields);
    let halfway = processed(reg, seq![a], pname, update_fields).0;
    law_single_entry(halfway, b, pname, update_fields);
    law_commands_in_turn(
        reg,
        commands_of(a, update_fields),
        commands_of(b, update_fields),
        pname,
    );
}

/// A command with one string does what it says with that string.
pub proof fn law_commands_with_a_string(
    reg: RegisterView,
    key: Yaml,
    value: String,
    pname: Seq<char>,
    update_fields: bool,
)
    ensures
        ({
            let document = seq![(key, Yaml::String(value))];
            let answer = processed(reg, document, pname, update_fields);
            &&& is_key(key, "_delete"@) ==> answer == (
                deleted(reg, value@),
                Some(Ok::<(), ErrorView>(())),
            )
            &&& is_key(key, "_clear"@) ==> answer == (
                cleared(reg, value@),
                Some(Ok::<(), ErrorView>(())),
            )
            &&& is_key(key, "_strip"@) ==> answer == taken(
                start_can_be_stripped(reg, value@),
                reg,
                StepView::StrippingStart(value@),
                start_stripped(reg, value@),
            )
            &&& is_key(key, "_strip_end"@) ==> answer == taken(
                end_can_be_stripped(reg, value@),
                reg,
                StepView::StrippingEnd(value@),
                end_stripped(reg, value@),
            )
        }),
{
    let entry = (key, Yaml::String(value));
    let commands = commands_of(entry, update_fields);
    lemma_commands_differ();
    law_single_entry(reg, entry, pname, update_fields);
    lemma_one_command(reg, commands, pname);
}

/// A command with a mapping of one entry does what it says with the key and the value of that
/// entry.
pub proof fn law_commands_with_a_mapping(
    reg: RegisterView,
    key: Yaml,
    value: Mapping,
    spec: Seq<char>,
    pname: Seq<char>,
    update_fields: bool,
)
    requires
        value.entries@.len() == 1,
        is_key(value.entries@[0].0, spec),
    ensures
        ({
            let document = seq![(key, Yaml::Hash(value))];
            let answer = processed(reg, document, pname, update_fields);
            let inner = value.entries@[0].1;
            &&& is_key(key, "_merge"@) ==> answer == taken(
                merge_defined(reg, spec, Some(inner)),
                reg,
                StepView::Merging(spec),
                merged(reg, spec, Some(inner)),
            )
            &&& inner matches Yaml::Hash(h) ==> {
                &&& is_key(key, "_modify"@) ==> answer == taken(
                    modify_defined(reg, spec, h.entries@),
                    reg,
                    StepView::Modifying(spec),
                    modified_fields(reg, spec, h.entries@),
                )
                &&& is_key(key, "_add"@) ==> answer == taken(
                    true,
                    reg,
                    StepView::Adding(spec),
                    added(reg, spec, h.entries@),
                )
                &&& is_key(key, "_split"@) ==> answer == taken(
                    split_defined(reg, spec, h.entries@),
                    reg,
                    StepView::Splitting(spec),
                    split(reg, spec, h.entries@),
                )
                &&& is_key(key, "_array"@) ==> answer == taken(
                    collect_defined(reg, spec, h.entries@),
                    reg,
                    StepView::Collecting(spec),
                    collected(reg, spec, h.entries@),
                )
            }
        }),
{
    let entry = (key, Yaml::Hash(value));
    let commands = commands_of(entry, update_fields);
    lemma_commands_differ();
    law_single_entry(reg, entry, pname, update_fields);
    lemma_one_command(reg, commands, pname);
}

/// A merge or a split with a list of one string is one by that string alone.
pub proof fn law_commands_with_a_list(
    reg: RegisterView,
    key: Yaml,
    value: Vec<Yaml>,
    spec: Seq<char>,
    pname: Seq<char>,
    update_fields: bool,
)
    requires
        value@.len() == 1,
        is_key(value@[0], spec),
    ensures
        ({
            let document = seq![(key, Yaml::Array(value))];
            let answer = processed(reg, document, pname, update_fields);
            &&& is_key(key, "_merge"@) ==> answer == taken(
                merge_defined(reg, spec, None),
                reg,
                StepView::Merging(spec),
                merged(reg, spec, None),
            )
            &&& is_key(key, "_split"@) ==> answer == taken(
                split_defined(reg, spec, Seq::empty()),
                reg,
                StepView::Splitting(spec),
                split(reg, spec, Seq::empty()),
            )
        }),
{
    let entry = (key, Yaml::Array(value));
    let commands = commands_of(entry, update_fields);
    lemma_commands_differ();
    law_single_entry(reg, entry, pname, update_fields);
    lemma_one_command(reg, commands, pname);
}

proof fn lemma_one_command(
    reg: RegisterView,
    commands: Seq<Result<Command, ErrorView>>,
    pname: Seq<char>,
)
    ensures
        commands.len() == 1 && commands[0] is Ok ==> commanded_all(reg, commands, pname)
            == commanded(reg, commands[0]->Ok_0, pname),
{
    if commands.len() == 1 && commands[0] is Ok {
        let first = commanded(reg, commands[0]->Ok_0, pname);
        assert(commands.skip(1).len() == 0);
        assert(commanded_all(first.0, commands.skip(1), pname) == unchanged(first.0));
    }
}

} // verus!
