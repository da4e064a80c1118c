//! Giving fields their enumerated values or the range of what may be written to them.

use crate::builder::{build_enum, built_enum};
use crate::edit::{range_named, ranged_named};
use crate::error::{during, outcome, within, ErrorView, PatchError, PatchResult, Step, StepView};
use crate::fields::{
    find_named, lemma_named_indices, lemma_update_end, lemma_update_next, lemma_update_start,
    matched_names, named_indices, names_in, positions, update_named, updated_up_to,
};
use crate::make::{
    derived_enum, enum_name, make_derived_enumerated_values, make_ev_array, make_ev_name,
    value_table,
};
use crate::split::placeholder;
use crate::svd::{
    enum_views, field_views, EnumeratedValues, EnumeratedValuesView, Field, FieldInfo,
    FieldInfoView, FieldView, Register, RegisterView, Usage,
};
use crate::text::{holds, replace, replaced, same, texts};
use crate::yaml::{lookup_entries, lookup_text, Mapping, Yaml};
use vstd::prelude::*;

verus! {

/// A field with other enumerated values.
pub open spec fn with_enums(f: FieldInfoView, enums: Seq<EnumeratedValuesView>) -> FieldInfoView {
    FieldInfoView { enumerated_values: enums, ..f }
}

/// A field that has been given a set of values for some usage. Values for all accesses stand
/// alone; values for reads and values for writes may stand side by side. What is there already
/// is only replaced where that is asked for, and is an error otherwise.
pub open spec fn enum_set(
    f: FieldInfoView,
    val: EnumeratedValuesView,
    usage: Usage,
    replace: bool,
) -> (FieldInfoView, Result<(), ErrorView>) {
    let enums = f.enumerated_values;
    let taken = Err(ErrorView::EnumExists { field: f.name, usage });
    if usage == Usage::ReadWrite {
        if enums.len() == 0 || replace {
            (with_enums(f, seq![val]), Ok(()))
        } else {
            (f, taken)
        }
    } else if enums.len() == 0 {
        (with_enums(f, seq![val]), Ok(()))
    } else if enums.len() == 1 {
        if enums[0].usage != Some(usage) && enums[0].usage != Some(Usage::ReadWrite) {
            (with_enums(f, enums.push(val)), Ok(()))
        } else if replace {
            (with_enums(f, seq![val]), Ok(()))
        } else {
            (f, taken)
        }
    } else if enums.len() == 2 {
        if replace {
            (
                with_enums(
                    f,
                    enums.map_values(
                        |e: EnumeratedValuesView|
                            if e.usage == Some(usage) {
                                val
                            } else {
                                e
                            },
                    ),
                ),
                Ok(()),
            )
        } else {
            (f, taken)
        }
    } else {
        (f, Err(ErrorView::IncorrectEnumeratedValues))
    }
}

fn set_enum(f: &mut FieldInfo, val: EnumeratedValues, usage: Usage, replace: bool) -> (r: PatchResult)
    ensures
        (final(f)@, outcome(r)) == enum_set(old(f)@, val@, usage, replace),
{
    let n = f.enumerated_values.len();
    let ghost before = enum_views(f.enumerated_values@);
    if usage == Usage::ReadWrite {
        if n == 0 || replace {
            f.enumerated_values = vec![val];
            assert(enum_views(f.enumerated_values@) =~= seq![val@]);
            Ok(())
        } else {
            Err(PatchError::EnumExists { field: f.name.clone(), usage })
        }
    } else if n == 0 {
        f.enumerated_values.push(val);
        assert(enum_views(f.enumerated_values@) =~= seq![val@]);
        Ok(())
    } else if n == 1 {
        assert(before[0] == f.enumerated_values@[0]@);
        let present = f.enumerated_values[0].usage;
        if present != Some(usage) && present != Some(Usage::ReadWrite) {
            f.enumerated_values.push(val);
            assert(enum_views(f.enumerated_values@) =~= before.push(val@));
            Ok(())
        } else if replace {
            f.enumerated_values[0] = val;
            assert(enum_views(f.enumerated_values@) =~= seq![val@]);
            Ok(())
        } else {
            Err(PatchError::EnumExists { field: f.name.clone(), usage })
        }
    } else if n == 2 {
        if replace {
            assert(before[0] == f.enumerated_values@[0]@);
            assert(before[1] == f.enumerated_values@[1]@);
            let first = f.enumerated_values[0].usage == Some(usage);
            let second = f.enumerated_values[1].usage == Some(usage);
            if first {
                f.enumerated_values[0] = val.clone();
            }
            if second {
                f.enumerated_values[1] = val;
            }
            assert(enum_views(f.enumerated_values@) =~= before.map_values(
                |e: EnumeratedValuesView|
                    if e.usage == Some(usage) {
                        val@
                    } else {
                        e
                    },
            ));
            Ok(())
        } else {
            Err(PatchError::EnumExists { field: f.name.clone(), usage })
        }
    } else {
        Err(PatchError::IncorrectEnumeratedValues)
    }
}

/// The sets of values of one name among those of several fields.
pub open spec fn named_enums(fields: Seq<FieldView>, name: Seq<char>) -> Seq<EnumeratedValuesView>
    decreases fields.len(),
{
    if fields.len() == 0 {
        Seq::empty()
    } else {
        named_enums(fields.drop_last(), name) + fields.last().info.enumerated_values.filter(
            |e: EnumeratedValuesView| e.name == Some(name),
        )
    }
}

/// The usage of the one set of values of some name; an error where there is none, where there
/// are several, or where that set is a copy.
pub open spec fn origin_usage(fields: Seq<FieldView>, pname: Seq<char>, name: Seq<char>) -> Result<
    Usage,
    ErrorView,
> {
    let found = named_enums(fields, name);
    if found.len() == 0 {
        Err(ErrorView::EnumNotFound { peripheral: pname, name })
    } else if found.len() > 1 {
        Err(ErrorView::EnumAmbiguous { peripheral: pname, name })
    } else {
        match found[0].effective_usage() {
            Some(usage) => Ok(usage),
            None => Err(ErrorView::MultilevelDerive { peripheral: pname, name }),
        }
    }
}

/// A field that has been given a copy of the values of some name.
pub open spec fn derive_step(f: FieldView, name: Seq<char>, usage: Usage) -> (
    FieldView,
    Result<(), ErrorView>,
) {
    if f.info.name == name {
        (f, Err(ErrorView::SelfDerived))
    } else {
        let (info, answer) = enum_set(f.info, derived_enum(name), usage, true);
        (FieldView { info, ..f }, answer)
    }
}

/// The register in which the fields that bear one of the given names have been given copies of
/// the values of some name, which have to be meant for the same usage.
pub open spec fn derived(
    reg: RegisterView,
    names: Seq<Seq<char>>,
    pname: Seq<char>,
    name: Seq<char>,
    usage: Usage,
) -> (RegisterView, Result<(), ErrorView>) {
    match origin_usage(reg.fields(), pname, name) {
        Err(e) => (reg, Err(e)),
        Ok(found) => if usage != found {
            (reg, Err(ErrorView::UsageMismatch { usage, found }))
        } else {
            let (fields, answer) = update_named(
                reg.fields(),
                names,
                |f: FieldView| derive_step(f, name, usage),
            );
            (reg.with_fields(fields), answer)
        },
    }
}

/// The first of the given positions whose field has the least offset.
pub open spec fn lead(fields: Seq<FieldView>, indices: Seq<int>) -> int
    decreases indices.len(),
{
    if indices.len() <= 1 {
        indices[0]
    } else {
        let before = lead(fields, indices.drop_last());
        if fields[indices.last()].info.bit_range.offset < fields[before].info.bit_range.offset {
            indices.last()
        } else {
            before
        }
    }
}

/// A field that has been given values: the ones that are listed if it starts at the given
/// offset, else a copy of them.
pub open spec fn list_step(
    f: FieldView,
    offset: u32,
    name: Seq<char>,
    entries: Seq<(Yaml, Yaml)>,
    usage: Usage,
    replace: bool,
) -> (FieldView, Result<(), ErrorView>) {
    if f.info.bit_range.offset == offset {
        match value_table(entries) {
            Err(e) => (f, Err(e)),
            Ok(table) => match built_enum(Some(name), Some(usage), None, table.values) {
                Err(e) => (f, Err(e)),
                Ok(val) => {
                    let (info, answer) = enum_set(f.info, val, usage, replace);
                    (FieldView { info, ..f }, answer)
                },
            },
        }
    } else {
        let (info, answer) = enum_set(f.info, derived_enum(name), usage, true);
        (FieldView { info, ..f }, answer)
    }
}

/// The register in which the fields that bear one of the given names have been given the values
/// that a mapping lists. They are named after the first field of the least offset, and the
/// fields of other offsets get copies.
pub open spec fn listed(
    reg: RegisterView,
    names: Seq<Seq<char>>,
    pname: Seq<char>,
    spec: Seq<char>,
    entries: Seq<(Yaml, Yaml)>,
    usage: Usage,
    replace: bool,
) -> (RegisterView, Result<(), ErrorView>) {
    let found = named_indices(reg.fields(), names);
    if found.len() == 0 {
        (
            reg,
            Err(
                ErrorView::FieldNotFound { peripheral: pname, register: reg.info.name, spec },
            ),
        )
    } else {
        let first = reg.fields()[lead(reg.fields(), found)].info;
        match enum_name(replaced(first.name, placeholder(), Seq::empty()), usage) {
            Err(e) => (reg, Err(e)),
            Ok(name) => {
                let (fields, answer) = update_named(
                    reg.fields(),
                    names,
                    |f: FieldView|
                        list_step(f, first.bit_range.offset, name, entries, usage, replace),
                );
                (reg.with_fields(fields), answer)
            },
        }
    }
}

/// The mapping that the values are taken from, and whether they replace what is there.
pub open spec fn enum_source(entries: Seq<(Yaml, Yaml)>) -> Result<
    (Seq<(Yaml, Yaml)>, bool),
    ErrorView,
> {
    match lookup_entries(entries, "_replace_enum"@) {
        Err(e) => Err(e),
        Ok(Some(inner)) => Ok((inner, true)),
        Ok(None) => Ok((entries, false)),
    }
}

/// Whether the values are copied from others.
pub open spec fn copies(entries: Seq<(Yaml, Yaml)>) -> bool {
    enum_source(entries) matches Ok((source, _)) && lookup_text(source, "_derivedFrom"@) matches Ok(
        Some(_),
    )
}

/// Whether values can be given: there is a list of fields in which the values to copy can be
/// looked for, or none are to be copied.
pub open spec fn enum_defined(reg: RegisterView, entries: Seq<(Yaml, Yaml)>) -> bool {
    reg.info.fields is Some || !copies(entries)
}

/// The register in which the fields that bear one of the given names have been given enumerated
/// values.
pub open spec fn enumerated_named(
    reg: RegisterView,
    names: Seq<Seq<char>>,
    pname: Seq<char>,
    spec: Seq<char>,
    entries: Seq<(Yaml, Yaml)>,
    usage: Usage,
) -> (RegisterView, Result<(), ErrorView>) {
    match enum_source(entries) {
        Err(e) => (reg, Err(e)),
        Ok((source, replace)) => match lookup_text(source, "_derivedFrom"@) {
            Err(e) => (reg, Err(e)),
            Ok(Some(name)) => derived(reg, names, pname, name, usage),
            Ok(None) => listed(reg, names, pname, spec, source, usage, replace),
        },
    }
}

/// The register in which the fields that a specification picks out have been given enumerated
/// values.
pub open spec fn enumerated(
    reg: RegisterView,
    pname: Seq<char>,
    spec: Seq<char>,
    entries: Seq<(Yaml, Yaml)>,
    usage: Usage,
) -> (RegisterView, Result<(), ErrorView>) {
    enumerated_named(reg, matched_names(reg.fields(), spec), pname, spec, entries, usage)
}

/// Counts the sets of values of some name, and finds the usage of the last of them.
fn find_enums(fields: &Vec<Field>, name: &str) -> (r: (usize, Option<Usage>))
    ensures
        ({
            let found = named_enums(field_views(fields@), name@);
            &&& (r.0 == 0) == (found.len() == 0)
            &&& (r.0 == 1) == (found.len() == 1)
            &&& found.len() == 1 ==> r.1 == found[0].effective_usage()
        }),
{
    let ghost views = field_views(fields@);
    let mut count: usize = 0;
    let mut usage: Option<Usage> = None;
    let n = fields.len();
    let ghost wanted = |e: EnumeratedValuesView| e.name == Some(name@);
    assert(named_enums(views.take(0), name@) =~= Seq::empty());
    for i in 0..n
        invariant
            n == fields@.len(),
            views == field_views(fields@),
            wanted == (|e: EnumeratedValuesView| e.name == Some(name@)),
            count <= 2,
            ({
                let found = named_enums(views.take(i as int), name@);
                &&& count == 2 <==> found.len() >= 2
                &&& count < 2 ==> count == found.len()
                &&& found.len() == 1 ==> usage == found[0].effective_usage()
            }),
    {
        assert(views.take(i + 1).drop_last() =~= views.take(i as int));
        assert(views.take(i + 1).last() == fields@[i as int]@);
        let ghost before = named_enums(views.take(i as int), name@);
        let ghost enums = fields@[i as int]@.info.enumerated_values;
        let m = fields[i].info.enumerated_values.len();
        assert(enums.take(0).filter(wanted) =~= Seq::empty()) by {
            reveal(Seq::filter);
        }
        assert(before + Seq::empty() =~= before);
        for k in 0..m
            invariant
                0 <= i < n,
                n == fields@.len(),
                m == fields@[i as int].info.enumerated_values@.len(),
                enums == fields@[i as int]@.info.enumerated_values,
                wanted == (|e: EnumeratedValuesView| e.name == Some(name@)),
                count <= 2,
                ({
                    let found = before + enums.take(k as int).filter(wanted);
                    &&& count == 2 <==> found.len() >= 2
                    &&& count < 2 ==> count == found.len()
                    &&& found.len() == 1 ==> usage == found[0].effective_usage()
                }),
        {
            let ghost part = enums.take(k as int).filter(wanted);
            assert(enums.take(k + 1).drop_last() =~= enums.take(k as int));
            assert(enums[k as int] == fields@[i as int].info.enumerated_values@[k as int]@);
            assert(enums.take(k + 1).filter(wanted) == if wanted(enums[k as int]) {
                part.push(enums[k as int])
            } else {
                part
            }) by {
                reveal(Seq::filter);
            }
            assert(before + part.push(enums[k as int]) =~= (before + part).push(enums[k as int]));
            let e = &fields[i].info.enumerated_values[k];
            let hit = match &e.name {
                Some(s) => same(s.as_str(), name),
                None => false,
            };
            if hit {
                if count < 2 {
                    count = count + 1;
                }
                usage = e.usage();
            }
        }
        assert(enums.take(m as int) =~= enums);
    }
    assert(views.take(n as int) =~= views);
    (count, usage)
}

fn derive_one(f: &mut Field, name: &str, usage: Usage) -> (r: PatchResult)
    ensures
        (final(f)@, outcome(r)) == derive_step(old(f)@, name@, usage),
{
    if same(f.info.name.as_str(), name) {
        return Err(PatchError::SelfDerived);
    }
    set_enum(&mut f.info, make_derived_enumerated_values(name), usage, true)
}

fn derive_list(fields: &mut Vec<Field>, names: &Vec<String>, name: &str, usage: Usage) -> (r:
    PatchResult)
    ensures
        (field_views(final(fields)@), outcome(r)) == update_named(
            field_views(old(fields)@),
            texts(names@),
            |f: FieldView| derive_step(f, name@, usage),
        ),
{
    let ghost step = |f: FieldView| derive_step(f, name@, usage);
    let ghost before = field_views(fields@);
    let n = fields.len();
    proof {
        lemma_update_start(before, texts(names@), step);
    }
    for i in 0..n
        invariant
            n == fields@.len(),
            n == before.len(),
            before == field_views(old(fields)@),
            step == (|f: FieldView| derive_step(f, name@, usage)),
            updated_up_to(before, field_views(fields@), i as int, texts(names@), step),
    {
        let ghost now = field_views(fields@);
        assert(now[i as int] == fields@[i as int]@);
        if holds(names, &fields[i].info.name) {
            let r = derive_one(&mut fields[i], name, usage);
            assert(field_views(fields@) =~= now.update(i as int, step(now[i as int]).0));
            proof {
                lemma_update_next(before, now, field_views(fields@), i as int, texts(names@), step);
            }
            if r.is_err() {
                return r;
            }
        } else {
            proof {
                lemma_update_next(before, now, now, i as int, texts(names@), step);
            }
        }
    }
    proof {
        lemma_update_end(before, field_views(fields@), texts(names@), step);
    }
    Ok(())
}

fn derive_enums(
    reg: &mut Register,
    names: &Vec<String>,
    pname: &str,
    name: &str,
    usage: Usage,
) -> (r: PatchResult)
    requires
        old(reg)@.info.fields is Some,
    ensures
        (final(reg)@, outcome(r)) == derived(old(reg)@, texts(names@), pname@, name@, usage),
{
    match &mut reg.info.fields {
        None => Ok(()),
        Some(fields) => {
            let (count, origin) = find_enums(fields, name);
            if count == 0 {
                return Err(
                    PatchError::EnumNotFound {
                        peripheral: pname.to_owned(),
                        name: name.to_owned(),
                    },
                );
            }
            if count > 1 {
                return Err(
                    PatchError::EnumAmbiguous {
                        peripheral: pname.to_owned(),
                        name: name.to_owned(),
                    },
                );
            }
            match origin {
                None => Err(
                    PatchError::MultilevelDerive {
                        peripheral: pname.to_owned(),
                        name: name.to_owned(),
                    },
                ),
                Some(found) => if usage != found {
                    Err(PatchError::UsageMismatch { usage, found })
                } else {
                    derive_list(fields, names, name, usage)
                },
            }
        },
    }
}

/// Finds the first of the given positions whose field has the least offset.
fn find_lead(fields: &Vec<Field>, indices: &Vec<usize>) -> (r: usize)
    requires
        indices@.len() > 0,
        forall|k: int| 0 <= k < indices@.len() ==> #[trigger] indices@[k] < fields@.len(),
    ensures
        r == lead(field_views(fields@), positions(indices@)),
        r < fields@.len(),
{
    let ghost views = field_views(fields@);
    let ghost all = positions(indices@);
    let n = indices.len();
    let mut best = indices[0];
    assert(all.take(1).len() == 1 && all.take(1)[0] == indices@[0]);
    for k in 1..n
        invariant
            n == indices@.len(),
            views == field_views(fields@),
            all == positions(indices@),
            forall|k: int| 0 <= k < indices@.len() ==> #[trigger] indices@[k] < fields@.len(),
            best == lead(views, all.take(k as int)),
            best < fields@.len(),
    {
        assert(all.take(k + 1).drop_last() =~= all.take(k as int));
        assert(all.take(k + 1).last() == indices@[k as int]);
        let i = indices[k];
        assert(views[i as int] == fields@[i as int]@);
        assert(views[best as int] == fields@[best as int]@);
        if fields[i].info.bit_range.offset < fields[best].info.bit_range.offset {
            best = i;
        }
    }
    assert(all.take(n as int) =~= all);
    best
}

fn list_one(
    f: &mut Field,
    offset: u32,
    name: &String,
    fmod: &Mapping,
    usage: Usage,
    replace: bool,
) -> (r: PatchResult)
    ensures
        (final(f)@, outcome(r)) == list_step(old(f)@, offset, name@, fmod@, usage, replace),
{
    if f.info.bit_range.offset == offset {
        let values = make_ev_array(fmod)?;
        let val = build_enum(Some(name.clone()), Some(usage), None, values)?;
        set_enum(&mut f.info, val, usage, replace)
    } else {
        set_enum(&mut f.info, make_derived_enumerated_values(name.as_str()), usage, true)
    }
}

fn list_all(
    fields: &mut Vec<Field>,
    names: &Vec<String>,
    offset: u32,
    name: &String,
    fmod: &Mapping,
    usage: Usage,
    replace: bool,
) -> (r: PatchResult)
    ensures
        (field_views(final(fields)@), outcome(r)) == update_named(
            field_views(old(fields)@),
            texts(names@),
            |f: FieldView| list_step(f, offset, name@, fmod@, usage, replace),
        ),
{
    let ghost step = |f: FieldView| list_step(f, offset, name@, fmod@, usage, replace);
    let ghost before = field_views(fields@);
    let n = fields.len();
    proof {
        lemma_update_start(before, texts(names@), step);
    }
    for i in 0..n
        invariant
            n == fields@.len(),
            n == before.len(),
            before == field_views(old(fields)@),
            step == (|f: FieldView| list_step(f, offset, name@, fmod@, usage, replace)),
            updated_up_to(before, field_views(fields@), i as int, texts(names@), step),
    {
        let ghost now = field_views(fields@);
        assert(now[i as int] == fields@[i as int]@);
        if holds(names, &fields[i].info.name) {
            let r = list_one(&mut fields[i], offset, name, fmod, usage, replace);
            assert(field_views(fields@) =~= now.update(i as int, step(now[i as int]).0));
            proof {
                lemma_update_next(before, now, field_views(fields@), i as int, texts(names@), step);
            }
            if r.is_err() {
                return r;
            }
        } else {
            proof {
                lemma_update_next(before, now, now, i as int, texts(names@), step);
            }
        }
    }
    proof {
        lemma_update_end(before, field_views(fields@), texts(names@), step);
    }
    Ok(())
}

fn list_enums(
    reg: &mut Register,
    names: &Vec<String>,
    pname: &str,
    fspec: &str,
    fmod: &Mapping,
    usage: Usage,
    replace: bool,
) -> (r: PatchResult)
    ensures
        (final(reg)@, outcome(r)) == listed(
            old(reg)@,
            texts(names@),
            pname@,
            fspec@,
            fmod@,
            usage,
            replace,
        ),
{
    let found = find_named(reg, names);
    assert(positions(found@).len() == found@.len());
    if found.len() == 0 {
        return Err(
            PatchError::FieldNotFound {
                peripheral: pname.to_owned(),
                register: reg.info.name.clone(),
                spec: fspec.to_owned(),
            },
        );
    }
    proof {
        lemma_named_indices(reg@.fields(), texts(names@));
        assert forall|k: int| 0 <= k < found@.len() implies #[trigger] found@[k]
            < reg@.fields().len() by {
            assert(positions(found@)[k] == found@[k]);
        }
    }
    match &mut reg.info.fields {
        None => Ok(()),
        Some(fields) => {
            let first = find_lead(fields, &found);
            assert(field_views(fields@)[first as int] == fields@[first as int]@);
            let offset = fields[first].info.bit_range.offset;
            let base = without_placeholders(&fields[first].info.name);
            let name = make_ev_name(base.as_str(), usage)?;
            list_all(fields, names, offset, &name, fmod, usage, replace)
        },
    }
}

/// A name without its placeholders.
fn without_placeholders(name: &String) -> (r: String)
    ensures
        r@ == replaced(name@, placeholder(), Seq::empty()),
{
    proof {
        reveal_strlit("%s");
        reveal_strlit("");
        assert("%s"@ =~= placeholder());
        assert(""@ =~= Seq::empty());
    }
    replace(name.as_str(), "%s", "")
}

/// Gives enumerated values to the fields that bear one of the given names. The specification that
/// they come from is only reported.
pub fn enumerate_named(
    reg: &mut Register,
    names: &Vec<String>,
    pname: &str,
    fspec: &str,
    fmod: &Mapping,
    usage: Usage,
) -> (r: PatchResult)
    requires
        enum_defined(old(reg)@, fmod@),
    ensures
        (final(reg)@, outcome(r)) == enumerated_named(
            old(reg)@,
            texts(names@),
            pname@,
            fspec@,
            fmod@,
            usage,
        ),
{
    let (source, replace) = match fmod.get_hash("_replace_enum")? {
        Some(inner) => (inner, true),
        None => (fmod, false),
    };
    match source.get_str("_derivedFrom")? {
        Some(name) => derive_enums(reg, names, pname, name, usage),
        None => list_enums(reg, names, pname, fspec, source, usage, replace),
    }
}

pub(crate) fn process_field_enum(
    reg: &mut Register,
    pname: &str,
    fspec: &str,
    fmod: &Mapping,
    usage: Usage,
) -> (r: PatchResult)
    requires
        enum_defined(old(reg)@, fmod@),
    ensures
        (final(reg)@, outcome(r)) == enumerated(old(reg)@, pname@, fspec@, fmod@, usage),
{
    let names = names_in(reg, fspec);
    enumerate_named(reg, &names, pname, fspec, fmod, usage)
}

/// Decides whether values can be given.
pub(crate) fn can_process_enum(reg: &Register, fmod: &Mapping) -> (r: bool)
    ensures
        r == enum_defined(reg@, fmod@),
{
    if reg.info.fields.is_some() {
        return true;
    }
    let source = match fmod.get_hash("_replace_enum") {
        Ok(Some(inner)) => inner,
        Ok(None) => fmod,
        Err(_) => {
            return true;
        },
    };
    match source.get_str("_derivedFrom") {
        Ok(Some(_)) => false,
        _ => true,
    }
}

/// Giving values to the fields that bear one of the given names, as a step of a patch.
pub open spec fn valued(
    reg: RegisterView,
    names: Seq<Seq<char>>,
    pname: Seq<char>,
    spec: Seq<char>,
    entries: Seq<(Yaml, Yaml)>,
    usage: Usage,
) -> (RegisterView, Result<(), ErrorView>) {
    let (after, answer) = enumerated_named(reg, names, pname, spec, entries, usage);
    (after, during(StepView::AddingValues(usage), answer))
}

/// The register in which the fields that bear one of the given names have been given values for
/// reads, and after that values for writes, as far as each is asked for.
pub open spec fn enumerated_both(
    reg: RegisterView,
    names: Seq<Seq<char>>,
    pname: Seq<char>,
    spec: Seq<char>,
    read: Option<Seq<(Yaml, Yaml)>>,
    write: Option<Seq<(Yaml, Yaml)>>,
) -> (RegisterView, Result<(), ErrorView>) {
    let (after, answer) = match read {
        Some(entries) => valued(reg, names, pname, spec, entries, Usage::Read),
        None => (reg, Ok(())),
    };
    if answer is Err {
        (after, answer)
    } else {
        match write {
            Some(entries) => valued(after, names, pname, spec, entries, Usage::Write),
            None => (after, answer),
        }
    }
}

/// The register in which the fields that bear one of the given names have been given what a
/// value describes: a mapping describes enumerated values, for reads and writes apart if it says
/// so; a list of two is a range; anything else changes nothing.
pub open spec fn field_processed_named(
    reg: RegisterView,
    names: Seq<Seq<char>>,
    pname: Seq<char>,
    spec: Seq<char>,
    fmod: Yaml,
) -> (RegisterView, Result<(), ErrorView>) {
    match fmod {
        Yaml::Hash(h) => match lookup_entries(h@, "_read"@) {
            Err(e) => (reg, Err(e)),
            Ok(read) => match lookup_entries(h@, "_write"@) {
                Err(e) => (reg, Err(e)),
                Ok(write) => if read is None && write is None {
                    valued(reg, names, pname, spec, h@, Usage::ReadWrite)
                } else {
                    enumerated_both(reg, names, pname, spec, read, write)
                },
            },
        },
        Yaml::Array(parts) => if parts@.len() == 2 {
            let (after, answer) = ranged_named(reg, names, pname, spec, parts@);
            (after, during(StepView::AddingRange, answer))
        } else {
            (reg, Ok(()))
        },
        _ => (reg, Ok(())),
    }
}

/// The register in which the fields that a specification picks out have been given what a value
/// describes.
pub open spec fn field_processed(
    reg: RegisterView,
    pname: Seq<char>,
    spec: Seq<char>,
    fmod: Yaml,
) -> (RegisterView, Result<(), ErrorView>) {
    field_processed_named(reg, matched_names(reg.fields(), spec), pname, spec, fmod)
}

/// Whether fields can be given what a value describes: none of the values that are looked for
/// have to be copied from a register that does not list its fields.
pub open spec fn process_field_defined(reg: RegisterView, fmod: Yaml) -> bool {
    reg.info.fields is None ==> match fmod {
        Yaml::Hash(h) => match (lookup_entries(h@, "_read"@), lookup_entries(h@, "_write"@)) {
            (Ok(Some(entries)), Ok(_)) => !copies(entries),
            (Ok(None), Ok(Some(entries))) => !copies(entries),
            (Ok(None), Ok(None)) => !copies(h@),
            _ => true,
        },
        _ => true,
    }
}

/// Values that are not copied cannot be given to a register that does not list its fields.
proof fn lemma_no_fields_no_values(
    reg: RegisterView,
    names: Seq<Seq<char>>,
    pname: Seq<char>,
    spec: Seq<char>,
    entries: Seq<(Yaml, Yaml)>,
    usage: Usage,
)
    requires
        reg.info.fields is None,
        !copies(entries),
    ensures
        enumerated_named(reg, names, pname, spec, entries, usage).1 is Err,
{
}

/// Giving values does not make a register list its fields, nor stop listing them.
proof fn lemma_listing_kept(
    reg: RegisterView,
    names: Seq<Seq<char>>,
    pname: Seq<char>,
    spec: Seq<char>,
    entries: Seq<(Yaml, Yaml)>,
    usage: Usage,
)
    ensures
        enumerated_named(reg, names, pname, spec, entries, usage).0.info.fields is Some
            == reg.info.fields is Some,
{
}

/// Gives what a value describes to the fields that bear one of the given names. The specification
/// that they come from is only reported.
pub fn process_field_named(
    reg: &mut Register,
    names: &Vec<String>,
    pname: &str,
    fspec: &str,
    fmod: &Yaml,
) -> (r: PatchResult)
    requires
        process_field_defined(old(reg)@, *fmod),
    ensures
        (final(reg)@, outcome(r)) == field_processed_named(
            old(reg)@,
            texts(names@),
            pname@,
            fspec@,
            *fmod,
        ),
{
    match fmod {
        Yaml::Hash(h) => {
            let read = h.get_hash("_read")?;
            let write = h.get_hash("_write")?;
            if read.is_none() && write.is_none() {
                within(
                    Step::AddingValues(Usage::ReadWrite),
                    enumerate_named(reg, names, pname, fspec, h, Usage::ReadWrite),
                )
            } else {
                let ghost before = reg@;
                if let Some(inner) = read {
                    proof {
                        let wanted = texts(names@);
                        lemma_listing_kept(before, wanted, pname@, fspec@, inner@, Usage::Read);
                        if before.info.fields is None {
                            lemma_no_fields_no_values(
                                before,
                                wanted,
                                pname@,
                                fspec@,
                                inner@,
                                Usage::Read,
                            );
                        }
                    }
                    let r = within(
                        Step::AddingValues(Usage::Read),
                        enumerate_named(reg, names, pname, fspec, inner, Usage::Read),
                    );
                    if r.is_err() {
                        return r;
                    }
                }
                if let Some(inner) = write {
                    within(
                        Step::AddingValues(Usage::Write),
                        enumerate_named(reg, names, pname, fspec, inner, Usage::Write),
                    )
                } else {
                    Ok(())
                }
            }
        },
        Yaml::Array(parts) => if parts.len() == 2 {
            within(
                Step::AddingRange,
                range_named(reg, names, pname, fspec, parts.as_slice()),
            )
        } else {
            Ok(())
        },
        _ => Ok(()),
    }
}

pub(crate) fn process_field(reg: &mut Register, pname: &str, fspec: &str, fmod: &Yaml) -> (r:
    PatchResult)
    requires
        process_field_defined(old(reg)@, *fmod),
    ensures
        (final(reg)@, outcome(r)) == field_processed(old(reg)@, pname@, fspec@, *fmod),
{
    let names = names_in(reg, fspec);
    process_field_named(reg, &names, pname, fspec, fmod)
}

/// Decides whether fields can be given what a value describes.
pub(crate) fn can_process_field(reg: &Register, fmod: &Yaml) -> (r: bool)
    ensures
        r == process_field_defined(reg@, *fmod),
{
    if reg.info.fields.is_some() {
        return true;
    }
    match fmod {
        Yaml::Hash(h) => match (h.get_hash("_read"), h.get_hash("_write")) {
            (Ok(Some(inner)), Ok(_)) => can_process_enum(reg, inner),
            (Ok(None), Ok(Some(inner))) => can_process_enum(reg, inner),
            (Ok(None), Ok(None)) => can_process_enum(reg, h),
            _ => true,
        },
        _ => true,
    }
}

} // verus!
