//! Collecting fields into an array of fields.

use crate::builder::{build_dim, built_dim};
use crate::error::{outcome, ErrorView, PatchError, PatchResult};
use crate::fields::{bears, matched_names, names_in};
use crate::matching::{affixes, spec_affixes};
use crate::split::placeholder;
use crate::svd::{field_views, Field, FieldInfo, FieldInfoView, FieldView, Register, RegisterView};
use crate::text::{
    byte_len, byte_slice, can_slice, count_bytes, decimal, holds, replace, replaced, same, slice,
    sliceable, text, texts, to_decimal,
};
use crate::yaml::{lookup, lookup_text, Mapping, Yaml};
use vstd::prelude::*;

verus! {

/// Whether a field is one of those to collect: it bears one of the given names, and is not an
/// array already.
pub open spec fn collects(f: FieldView, names: Seq<Seq<char>>) -> bool {
    f.dim is None && bears(f, names)
}

/// The fields to collect, in the order of the list.
pub open spec fn collected_infos(fields: Seq<FieldView>, names: Seq<Seq<char>>) -> Seq<FieldInfoView> {
    fields.filter(|f: FieldView| collects(f, names)).map_values(|f: FieldView| f.info)
}

/// The fields that are not collected.
pub open spec fn uncollected(fields: Seq<FieldView>, names: Seq<Seq<char>>) -> Seq<FieldView> {
    fields.filter(|f: FieldView| !collects(f, names))
}

/// The number of fields before the first one to collect.
pub open spec fn first_place(fields: Seq<FieldView>, names: Seq<Seq<char>>) -> int
    decreases fields.len(),
{
    if fields.len() == 0 || collects(fields[0], names) {
        0
    } else {
        1 + first_place(fields.skip(1), names)
    }
}

/// The place behind the fields, counted from the end, that do not start after an offset.
pub open spec fn slot(fields: Seq<FieldInfoView>, offset: u32) -> int
    decreases fields.len(),
{
    if fields.len() == 0 || fields.last().bit_range.offset <= offset {
        fields.len() as int
    } else {
        slot(fields.drop_last(), offset)
    }
}

/// Fields in the order of their offsets; those of one offset stay in the order that they had.
pub open spec fn by_offset(fields: Seq<FieldInfoView>) -> Seq<FieldInfoView>
    decreases fields.len(),
{
    if fields.len() == 0 {
        fields
    } else {
        let before = by_offset(fields.drop_last());
        before.insert(slot(before, fields.last().bit_range.offset), fields.last())
    }
}

/// The distance between the first two fields; none where there is only one.
pub open spec fn increment(fields: Seq<FieldInfoView>) -> int {
    if fields.len() > 1 {
        fields[1].bit_range.offset - fields[0].bit_range.offset
    } else {
        0
    }
}

/// Whether each field starts at the given distance from the one before.
pub open spec fn evenly_spaced(fields: Seq<FieldInfoView>, distance: int) -> bool {
    forall|i: int, j: int|
        #![trigger fields[i], fields[j]]
        0 <= i && j == i + 1 && j < fields.len() ==> fields[j].bit_range.offset
            - fields[i].bit_range.offset == distance
}

/// Whether no field starts before the one in front of it.
pub open spec fn ascending(fields: Seq<FieldInfoView>) -> bool {
    forall|i: int, j: int|
        #![trigger fields[i], fields[j]]
        0 <= i <= j < fields.len() ==> fields[i].bit_range.offset <= fields[j].bit_range.offset
}

/// Whether the part of a name that stands for the enumeration token of a specification can be
/// cut out.
pub open spec fn has_index(name: Seq<char>, spec: Seq<char>) -> bool {
    can_slice(name, byte_len(affixes(spec).0), byte_len(name) - byte_len(affixes(spec).1))
}

/// The part of a name that stands for the enumeration token of a specification.
pub open spec fn index_in(name: Seq<char>, spec: Seq<char>) -> Seq<char> {
    byte_slice(name, byte_len(affixes(spec).0), byte_len(name) - byte_len(affixes(spec).1))
}

/// Whether the part of each name that stands for the enumeration token can be cut out.
pub open spec fn all_have_index(fields: Seq<FieldInfoView>, spec: Seq<char>) -> bool {
    forall|i: int| 0 <= i < fields.len() ==> has_index((#[trigger] fields[i]).name, spec)
}

/// Whether the elements are to be numbered.
pub open spec fn from_zero(entries: Seq<(Yaml, Yaml)>) -> bool {
    lookup(entries, "_start_from_zero"@) is Some
}

/// The texts for the indexes of an array: numbers, or the parts of the names of its elements.
pub open spec fn index_texts(
    fields: Seq<FieldInfoView>,
    spec: Seq<char>,
    entries: Seq<(Yaml, Yaml)>,
) -> Seq<Seq<char>> {
    if from_zero(entries) {
        Seq::new(fields.len(), |i: int| decimal(i as nat))
    } else {
        fields.map_values(|f: FieldInfoView| index_in(f.name, spec))
    }
}

/// The name of an array: the one that is asked for, else the specification with a placeholder
/// for its enumeration token.
pub open spec fn array_name(spec: Seq<char>, entries: Seq<(Yaml, Yaml)>) -> Result<
    Seq<char>,
    ErrorView,
> {
    match lookup_text(entries, "name"@) {
        Err(e) => Err(e),
        Ok(Some(name)) => Ok(name),
        Ok(None) => Ok(affixes(spec).0 + placeholder() + affixes(spec).1),
    }
}

/// The description of an array: the one that is asked for; where none is, or the original one
/// is, that of the first element. Unless the original one is asked for, the zeros in it give way
/// to placeholders if the first index is zero.
pub open spec fn array_description(
    original: Option<Seq<char>>,
    first_index: Seq<char>,
    entries: Seq<(Yaml, Yaml)>,
) -> Result<Option<Seq<char>>, ErrorView> {
    match lookup_text(entries, "description"@) {
        Err(e) => Err(e),
        Ok(Some(description)) => if description == "_original"@ {
            Ok(original)
        } else {
            Ok(Some(description))
        },
        Ok(None) => match original {
            Some(d) => if first_index == seq!['0'] {
                Ok(Some(replaced(d, seq!['0'], placeholder())))
            } else {
                Ok(original)
            },
            None => Ok(None),
        },
    }
}

/// The array that fields in the order of their offsets make.
pub open spec fn field_array(
    fields: Seq<FieldInfoView>,
    spec: Seq<char>,
    entries: Seq<(Yaml, Yaml)>,
) -> Result<FieldView, ErrorView> {
    let indexes = index_texts(fields, spec, entries);
    match array_name(spec, entries) {
        Err(e) => Err(e),
        Ok(name) => match array_description(fields[0].description, indexes[0], entries) {
            Err(e) => Err(e),
            Ok(description) => Ok(
                FieldView {
                    info: FieldInfoView { name, description, ..fields[0] },
                    dim: Some(built_dim(fields.len() as u32, increment(fields) as u32, indexes)),
                },
            ),
        },
    }
}

/// Whether a collection of the fields of some names can be carried out: the indexes are numbers,
/// or they can be cut out of the names.
pub open spec fn collect_named_defined(
    reg: RegisterView,
    names: Seq<Seq<char>>,
    spec: Seq<char>,
    entries: Seq<(Yaml, Yaml)>,
) -> bool {
    from_zero(entries) || forall|i: int|
        0 <= i < reg.fields().len() && collects(#[trigger] reg.fields()[i], names) ==> has_index(
            reg.fields()[i].info.name,
            spec,
        )
}

/// Whether a collection can be carried out: the indexes are numbers, or they can be cut out of
/// the names.
pub open spec fn collect_defined(
    reg: RegisterView,
    spec: Seq<char>,
    entries: Seq<(Yaml, Yaml)>,
) -> bool {
    collect_named_defined(reg, matched_names(reg.fields(), spec), spec, entries)
}

/// The register in which an array has taken the place of the single fields that bear one of the
/// given names: it stands where the first of them stood. Where the fields are not evenly spaced,
/// or the array cannot be named or described, they are gone all the same.
pub open spec fn collected_named(
    reg: RegisterView,
    names: Seq<Seq<char>>,
    spec: Seq<char>,
    entries: Seq<(Yaml, Yaml)>,
) -> (RegisterView, Result<(), ErrorView>) {
    let infos = by_offset(collected_infos(reg.fields(), names));
    let rest = uncollected(reg.fields(), names);
    if reg.info.fields is None {
        (reg, Ok(()))
    } else if infos.len() == 0 {
        (reg, Err(ErrorView::NothingToCollect { register: reg.info.name, spec }))
    } else if !evenly_spaced(infos, increment(infos)) {
        (
            reg.with_fields(rest),
            Err(ErrorView::NotCollectable { register: reg.info.name, spec }),
        )
    } else {
        match field_array(infos, spec, entries) {
            Err(e) => (reg.with_fields(rest), Err(e)),
            Ok(array) => (
                reg.with_fields(rest.insert(first_place(reg.fields(), names), array)),
                Ok(()),
            ),
        }
    }
}

/// The register in which an array has taken the place of the single fields that a specification
/// picks out.
pub open spec fn collected(reg: RegisterView, spec: Seq<char>, entries: Seq<(Yaml, Yaml)>) -> (
    RegisterView,
    Result<(), ErrorView>,
) {
    collected_named(reg, matched_names(reg.fields(), spec), spec, entries)
}

/// The models of a sequence of fields.
pub open spec fn info_views(infos: Seq<FieldInfo>) -> Seq<FieldInfoView> {
    infos.map_values(|f: FieldInfo| f@)
}

pub(crate) proof fn lemma_slot(fields: Seq<FieldInfoView>, offset: u32)
    ensures
        0 <= slot(fields, offset) <= fields.len(),
        slot(fields, offset) > 0 ==> fields[slot(fields, offset) - 1].bit_range.offset <= offset,
        forall|i: int|
            slot(fields, offset) <= i < fields.len() ==> (#[trigger] fields[i]).bit_range.offset
                > offset,
    decreases fields.len(),
{
    if fields.len() > 0 && fields.last().bit_range.offset > offset {
        lemma_slot(fields.drop_last(), offset);
        assert forall|i: int| slot(fields, offset) <= i < fields.len() implies (
        #[trigger] fields[i]).bit_range.offset > offset by {
            if i < fields.len() - 1 {
                assert(fields.drop_last()[i] == fields[i]);
            }
        }
    }
}

/// Fields that have been put in the order of their offsets are as many as before, and no one
/// starts before the one in front of it.
pub proof fn lemma_by_offset(fields: Seq<FieldInfoView>)
    ensures
        by_offset(fields).len() == fields.len(),
        ascending(by_offset(fields)),
    decreases fields.len(),
{
    if fields.len() > 0 {
        let before = by_offset(fields.drop_last());
        let f = fields.last();
        let k = slot(before, f.bit_range.offset);
        lemma_by_offset(fields.drop_last());
        lemma_slot(before, f.bit_range.offset);
        let all = by_offset(fields);
        assert forall|i: int, j: int| 0 <= i <= j < fields.len() implies (
        #[trigger] all[i]).bit_range.offset <= (#[trigger] all[j]).bit_range.offset by {
            let a = if i < k {
                i
            } else {
                i - 1
            };
            let b = if j < k {
                j
            } else {
                j - 1
            };
            if i != k {
                assert(all[i] == before[a]);
            }
            if j != k {
                assert(all[j] == before[b]);
            }
            if i == k && j > k {
                assert(before[b].bit_range.offset > f.bit_range.offset);
            }
            if j == k && i < k {
                assert(before[a].bit_range.offset <= before[k - 1].bit_range.offset);
            }
        }
    }
}

/// Puts a field in its place among fields in the order of their offsets.
fn insert_by_offset(infos: &mut Vec<FieldInfo>, f: FieldInfo)
    ensures
        info_views(final(infos)@) == info_views(old(infos)@).insert(
            slot(info_views(old(infos)@), f@.bit_range.offset),
            f@,
        ),
{
    let ghost views = info_views(infos@);
    let offset = f.bit_range.offset;
    let mut k = infos.len();
    assert(views.take(k as int) =~= views);
    while k > 0 && infos[k - 1].bit_range.offset > offset
        invariant
            k <= infos@.len(),
            views == info_views(infos@),
            slot(views, offset) == slot(views.take(k as int), offset),
        decreases k,
    {
        assert(views.take(k as int).last() == infos@[k - 1]@);
        assert(views.take(k as int).drop_last() =~= views.take(k - 1));
        k = k - 1;
    }
    assert(slot(views, offset) == k) by {
        if k > 0 {
            assert(views.take(k as int).last() == infos@[k - 1]@);
        }
    }
    infos.insert(k, f);
    assert(info_views(infos@) =~= views.insert(k as int, f@));
}

/// Finds the place of the first field to collect.
fn find_first(fields: &Vec<Field>, names: &Vec<String>) -> (r: usize)
    ensures
        r == first_place(field_views(fields@), texts(names@)),
{
    let ghost views = field_views(fields@);
    let n = fields.len();
    let mut i: usize = 0;
    assert(views.skip(0) =~= views);
    while i < n && !(fields[i].dim.is_none() && holds(names, &fields[i].info.name))
        invariant
            n == fields@.len(),
            i <= n,
            views == field_views(fields@),
            first_place(views, texts(names@)) == i + first_place(views.skip(i as int), texts(names@)),
        decreases n - i,
    {
        assert(views.skip(i as int)[0] == fields@[i as int]@);
        assert(views.skip(i as int).skip(1) =~= views.skip(i + 1));
        i = i + 1;
    }
    if i < n {
        assert(views.skip(i as int)[0] == fields@[i as int]@);
    }
    i
}

/// Takes the fields to collect out of the list, and puts them in the order of their offsets.
fn extract(fields: &mut Vec<Field>, names: &Vec<String>) -> (r: Vec<FieldInfo>)
    ensures
        field_views(final(fields)@) == uncollected(field_views(old(fields)@), texts(names@)),
        info_views(r@) == by_offset(collected_infos(field_views(old(fields)@), texts(names@))),
{
    let ghost views = field_views(fields@);
    let ghost wanted = |f: FieldView| collects(f, texts(names@));
    let ghost kept = |f: FieldView| !collects(f, texts(names@));
    let ghost info = |f: FieldView| f.info;
    let mut r: Vec<FieldInfo> = Vec::new();
    let mut i: usize = 0;
    let ghost mut seen: int = 0;
    assert(views.take(0).filter(kept) =~= Seq::empty()) by {
        reveal(Seq::filter);
    }
    assert(views.take(0).filter(wanted) =~= Seq::empty()) by {
        reveal(Seq::filter);
    }
    assert(info_views(r@) =~= by_offset(views.take(0).filter(wanted).map_values(info)));
    assert(field_views(fields@) =~= views.take(0).filter(kept) + views.skip(0));
    while i < fields.len()
        invariant
            0 <= seen <= views.len(),
            views == field_views(old(fields)@),
            wanted == (|f: FieldView| collects(f, texts(names@))),
            kept == (|f: FieldView| !collects(f, texts(names@))),
            info == (|f: FieldView| f.info),
            i == views.take(seen).filter(kept).len(),
            field_views(fields@) == views.take(seen).filter(kept) + views.skip(seen),
            info_views(r@) == by_offset(views.take(seen).filter(wanted).map_values(info)),
        decreases views.len() - seen,
    {
        let ghost done = views.take(seen).filter(kept);
        let ghost taken = views.take(seen).filter(wanted);
        let ghost now = field_views(fields@);
        assert(now[i as int] == views.skip(seen)[0]);
        assert(now[i as int] == fields@[i as int]@);
        assert(views.take(seen + 1).drop_last() =~= views.take(seen));
        assert(views.take(seen + 1).last() == views[seen]);
        if fields[i].dim.is_none() && holds(names, &fields[i].info.name) {
            assert(views.take(seen + 1).filter(kept) =~= done) by {
                reveal(Seq::filter);
            }
            assert(views.take(seen + 1).filter(wanted) =~= taken.push(views[seen])) by {
                reveal(Seq::filter);
            }
            let f = fields.remove(i);
            assert(field_views(fields@) =~= now.remove(i as int));
            assert(now.remove(i as int) =~= done + views.skip(seen + 1));
            let ghost before = taken.map_values(info);
            let ghost after = taken.push(views[seen]).map_values(info);
            assert(after =~= before.push(f.info@));
            assert(after.drop_last() =~= before);
            insert_by_offset(&mut r, f.info);
        } else {
            assert(views.take(seen + 1).filter(kept) =~= done.push(views[seen])) by {
                reveal(Seq::filter);
            }
            assert(views.take(seen + 1).filter(wanted) =~= taken) by {
                reveal(Seq::filter);
            }
            i = i + 1;
            assert(field_views(fields@) =~= done.push(views[seen]) + views.skip(seen + 1));
        }
        proof {
            seen = seen + 1;
        }
    }
    assert(views.take(seen).filter(kept).len() == field_views(fields@).len());
    assert(views.skip(seen).len() == 0);
    assert(views.take(seen) =~= views);
    assert(field_views(fields@) =~= views.filter(kept));
    r
}

/// Whether each offset is at the given distance from the one before.
pub fn check_offsets(infos: &Vec<FieldInfo>, dim_increment: u32) -> (r: bool)
    requires
        ascending(info_views(infos@)),
    ensures
        r == evenly_spaced(info_views(infos@), dim_increment as int),
{
    let ghost views = info_views(infos@);
    let n = infos.len();
    let mut i: usize = 1;
    while i < n
        invariant
            n == infos@.len(),
            1 <= i,
            views == info_views(infos@),
            ascending(views),
            forall|j: int, k: int|
                #![trigger views[j], views[k]]
                0 <= j && k == j + 1 && k < i && k < n ==> views[k].bit_range.offset
                    - views[j].bit_range.offset == dim_increment,
        decreases n - i,
    {
        assert(views[i - 1] == infos@[i - 1]@);
        assert(views[i as int] == infos@[i as int]@);
        if infos[i].bit_range.offset - infos[i - 1].bit_range.offset != dim_increment {
            return false;
        }
        i = i + 1;
    }
    true
}

fn read_indexes(infos: &Vec<FieldInfo>, fspec: &str, fmod: &Mapping) -> (r: Vec<String>)
    requires
        from_zero(fmod@) || all_have_index(info_views(infos@), fspec@),
    ensures
        texts(r@) == index_texts(info_views(infos@), fspec@, fmod@),
{
    let n = infos.len();
    let mut r: Vec<String> = Vec::new();
    if fmod.contains_key("_start_from_zero") {
        for i in 0..n
            invariant
                n == infos@.len(),
                r@.len() == i,
                forall|j: int| 0 <= j < i ==> #[trigger] r@[j]@ == decimal(j as nat),
        {
            r.push(to_decimal(i));
        }
    } else {
        let (left, right) = spec_affixes(fspec);
        let li = count_bytes(left.as_str());
        let ri = count_bytes(right.as_str());
        for i in 0..n
            invariant
                n == infos@.len(),
                r@.len() == i,
                li == byte_len(affixes(fspec@).0),
                ri == byte_len(affixes(fspec@).1),
                all_have_index(info_views(infos@), fspec@),
                forall|j: int|
                    0 <= j < i ==> #[trigger] r@[j]@ == index_in(infos@[j]@.name, fspec@),
        {
            let name = infos[i].name.as_str();
            assert(info_views(infos@)[i as int] == infos@[i as int]@);
            r.push(slice(name, li, count_bytes(name) - ri));
        }
    }
    assert(texts(r@) =~= index_texts(info_views(infos@), fspec@, fmod@));
    r
}

fn make_array_name(fspec: &str, fmod: &Mapping) -> (r: Result<String, PatchError>)
    ensures
        match r {
            Ok(s) => array_name(fspec@, fmod@) == Ok::<Seq<char>, ErrorView>(s@),
            Err(e) => array_name(fspec@, fmod@) == Err::<Seq<char>, ErrorView>(e@),
        },
{
    match fmod.get_str("name")? {
        Some(name) => Ok(name.to_owned()),
        None => {
            proof {
                reveal_strlit("%s");
                assert("%s"@ =~= placeholder());
            }
            let (left, right) = spec_affixes(fspec);
            Ok(left.concat("%s").concat(right.as_str()))
        },
    }
}

fn make_array_description(original: Option<String>, first_index: &String, fmod: &Mapping) -> (r:
    Result<Option<String>, PatchError>)
    ensures
        match r {
            Ok(s) => array_description(text(original), first_index@, fmod@) == Ok::<
                Option<Seq<char>>,
                ErrorView,
            >(text(s)),
            Err(e) => array_description(text(original), first_index@, fmod@) == Err::<
                Option<Seq<char>>,
                ErrorView,
            >(e@),
        },
{
    match fmod.get_str("description")? {
        Some(description) => if same(description, "_original") {
            Ok(original)
        } else {
            Ok(Some(description.to_owned()))
        },
        None => {
            proof {
                reveal_strlit("0");
                reveal_strlit("%s");
                assert("0"@ =~= seq!['0']);
                assert("%s"@ =~= placeholder());
            }
            match original {
                Some(d) => if same(first_index.as_str(), "0") {
                    Ok(Some(replace(d.as_str(), "0", "%s")))
                } else {
                    Ok(Some(d))
                },
                None => Ok(None),
            }
        },
    }
}

fn make_array(infos: Vec<FieldInfo>, fspec: &str, fmod: &Mapping) -> (r: Result<Field, PatchError>)
    requires
        infos@.len() > 0,
        ascending(info_views(infos@)),
        from_zero(fmod@) || all_have_index(info_views(infos@), fspec@),
    ensures
        match r {
            Ok(f) => field_array(info_views(infos@), fspec@, fmod@) == Ok::<FieldView, ErrorView>(
                f@,
            ),
            Err(e) => field_array(info_views(infos@), fspec@, fmod@) == Err::<FieldView, ErrorView>(
                e@,
            ),
        },
{
    let ghost views = info_views(infos@);
    let indexes = read_indexes(&infos, fspec, fmod);
    let dim = infos.len();
    let distance = spacing(&infos);
    let mut infos = infos;
    let mut info = infos.remove(0);
    assert(info@ == views[0]);
    assert(texts(indexes@)[0] == indexes@[0]@);
    info.name = make_array_name(fspec, fmod)?;
    info.description = make_array_description(info.description, &indexes[0], fmod)?;
    let dim = build_dim(
        #[verifier::truncate]
        (dim as u32),
        distance,
        indexes,
    );
    Ok(info.array(dim))
}

fn spacing(infos: &Vec<FieldInfo>) -> (r: u32)
    requires
        ascending(info_views(infos@)),
    ensures
        r == increment(info_views(infos@)),
{
    if infos.len() > 1 {
        assert(info_views(infos@)[0] == infos@[0]@);
        assert(info_views(infos@)[1] == infos@[1]@);
        infos[1].bit_range.offset - infos[0].bit_range.offset
    } else {
        0
    }
}

proof fn lemma_collected_have_index(
    fields: Seq<FieldView>,
    names: Seq<Seq<char>>,
    spec: Seq<char>,
)
    requires
        forall|i: int|
            0 <= i < fields.len() && collects(#[trigger] fields[i], names) ==> has_index(
                fields[i].info.name,
                spec,
            ),
    ensures
        all_have_index(collected_infos(fields, names), spec),
{
    let wanted = |f: FieldView| collects(f, names);
    let infos = collected_infos(fields, names);
    assert forall|i: int| 0 <= i < infos.len() implies has_index((#[trigger] infos[i]).name, spec) by {
        let f = fields.filter(wanted)[i];
        fields.lemma_filter_pred(wanted, i);
        assert(fields.filter(wanted).contains(f));
        fields.lemma_filter_contains_rev(wanted, f);
    }
}

proof fn lemma_sorted_have_index(infos: Seq<FieldInfoView>, spec: Seq<char>)
    requires
        all_have_index(infos, spec),
    ensures
        all_have_index(by_offset(infos), spec),
    decreases infos.len(),
{
    if infos.len() > 0 {
        let before = by_offset(infos.drop_last());
        let k = slot(before, infos.last().bit_range.offset);
        lemma_sorted_have_index(infos.drop_last(), spec);
        lemma_slot(before, infos.last().bit_range.offset);
        let all = by_offset(infos);
        assert forall|i: int| 0 <= i < all.len() implies has_index((#[trigger] all[i]).name, spec) by {
            if i < k {
                assert(all[i] == before[i]);
            } else if i > k {
                assert(all[i] == before[i - 1]);
            }
        }
    }
}

fn collect_list(
    fields: &mut Vec<Field>,
    names: &Vec<String>,
    name: &String,
    fspec: &str,
    fmod: &Mapping,
) -> (r: PatchResult)
    requires
        from_zero(fmod@) || forall|i: int|
            0 <= i < field_views(old(fields)@).len() && collects(
                #[trigger] field_views(old(fields)@)[i],
                texts(names@),
            ) ==> has_index(field_views(old(fields)@)[i].info.name, fspec@),
    ensures
        ({
            let before = field_views(old(fields)@);
            let infos = by_offset(collected_infos(before, texts(names@)));
            let rest = uncollected(before, texts(names@));
            &&& infos.len() == 0 ==> outcome(r) == Err::<(), ErrorView>(
                ErrorView::NothingToCollect { register: name@, spec: fspec@ },
            ) && field_views(final(fields)@) == before
            &&& infos.len() > 0 && !evenly_spaced(infos, increment(infos)) ==> outcome(r) == Err::<
                (),
                ErrorView,
            >(ErrorView::NotCollectable { register: name@, spec: fspec@ }) && field_views(
                final(fields)@,
            ) == rest
            &&& infos.len() > 0 && evenly_spaced(infos, increment(infos)) ==> match field_array(
                infos,
                fspec@,
                fmod@,
            ) {
                Err(e) => outcome(r) == Err::<(), ErrorView>(e) && field_views(final(fields)@)
                    == rest,
                Ok(array) => r is Ok && field_views(final(fields)@) == rest.insert(
                    first_place(before, texts(names@)),
                    array,
                ),
            }
        }),
{
    let ghost before = field_views(fields@);
    let place = find_first(fields, names);
    let infos = extract(fields, names);
    let ghost views = info_views(infos@);
    proof {
        lemma_by_offset(collected_infos(before, texts(names@)));
        lemma_place(before, texts(names@));
        if !from_zero(fmod@) {
            lemma_collected_have_index(before, texts(names@), fspec@);
            lemma_sorted_have_index(collected_infos(before, texts(names@)), fspec@);
        }
    }
    if infos.len() == 0 {
        proof {
            lemma_nothing_collected(before, texts(names@));
        }
        return Err(
            PatchError::NothingToCollect { register: name.clone(), spec: fspec.to_owned() },
        );
    }
    let distance = spacing(&infos);
    if !check_offsets(&infos, distance) {
        return Err(PatchError::NotCollectable { register: name.clone(), spec: fspec.to_owned() });
    }
    let array = make_array(infos, fspec, fmod)?;
    let ghost rest = field_views(fields@);
    fields.insert(place, array);
    assert(field_views(fields@) =~= rest.insert(place as int, array@));
    Ok(())
}

/// The place of the first collected field is a place in what is left.
pub(crate) proof fn lemma_place(fields: Seq<FieldView>, names: Seq<Seq<char>>)
    ensures
        0 <= first_place(fields, names) <= uncollected(fields, names).len(),
    decreases fields.len(),
{
    let kept = |f: FieldView| !collects(f, names);
    if fields.len() > 0 {
        let head = fields.take(1);
        let tail = fields.skip(1);
        assert(fields =~= head + tail);
        Seq::filter_distributes_over_add(head, tail, kept);
        lemma_place(tail, names);
        if !collects(fields[0], names) {
            assert(head.filter(kept) =~= seq![fields[0]]) by {
                reveal_with_fuel(Seq::filter, 2);
                assert(head.drop_last().len() == 0);
            }
        }
    }
}

/// Where nothing is collected, everything is left.
pub(crate) proof fn lemma_nothing_collected(fields: Seq<FieldView>, names: Seq<Seq<char>>)
    requires
        collected_infos(fields, names).len() == 0,
    ensures
        uncollected(fields, names) == fields,
    decreases fields.len(),
{
    let wanted = |f: FieldView| collects(f, names);
    let kept = |f: FieldView| !collects(f, names);
    assert(fields.filter(wanted).len() == 0);
    if fields.len() > 0 {
        let shorter = fields.drop_last();
        assert(!wanted(fields.last()) && shorter.filter(wanted).len() == 0) by {
            reveal(Seq::filter);
        }
        assert(collected_infos(shorter, names).len() == 0);
        lemma_nothing_collected(shorter, names);
        assert(fields.filter(kept) =~= shorter.filter(kept).push(fields.last())) by {
            reveal(Seq::filter);
        }
        assert(shorter.push(fields.last()) =~= fields);
    } else {
        assert(fields.filter(kept) =~= fields) by {
            reveal(Seq::filter);
        }
    }
}

/// Collects the single fields that bear one of the given names into an array. The specification
/// tells which part of each name is an index.
pub fn collect_named(
    reg: &mut Register,
    names: &Vec<String>,
    fspec: &str,
    fmod: &Mapping,
) -> (r: PatchResult)
    requires
        collect_named_defined(old(reg)@, texts(names@), fspec@, fmod@),
    ensures
        (final(reg)@, outcome(r)) == collected_named(old(reg)@, texts(names@), fspec@, fmod@),
{
    match &mut reg.info.fields {
        Some(fields) => collect_list(fields, names, &reg.info.name, fspec, fmod),
        None => Ok(()),
    }
}

pub(crate) fn collect_fields_in_array(reg: &mut Register, fspec: &str, fmod: &Mapping) -> (r:
    PatchResult)
    requires
        collect_defined(old(reg)@, fspec@, fmod@),
    ensures
        (final(reg)@, outcome(r)) == collected(old(reg)@, fspec@, fmod@),
{
    let names = names_in(reg, fspec);
    collect_named(reg, &names, fspec, fmod)
}

/// Decides whether a collection can be carried out.
pub(crate) fn can_collect(reg: &Register, fspec: &str, fmod: &Mapping) -> (r: bool)
    ensures
        r == collect_defined(reg@, fspec@, fmod@),
{
    if fmod.contains_key("_start_from_zero") {
        return true;
    }
    let names = names_in(reg, fspec);
    let (left, right) = spec_affixes(fspec);
    let li = count_bytes(left.as_str());
    let ri = count_bytes(right.as_str());
    let ghost views = reg@.fields();
    if let Some(fields) = &reg.info.fields {
        let n = fields.len();
        for i in 0..n
            invariant
                n == fields@.len(),
                views == field_views(fields@),
                views == reg@.fields(),
                !from_zero(fmod@),
                texts(names@) == matched_names(views, fspec@),
                li == byte_len(affixes(fspec@).0),
                ri == byte_len(affixes(fspec@).1),
                forall|j: int|
                    0 <= j < i && collects(#[trigger] views[j], texts(names@)) ==> has_index(
                        views[j].info.name,
                        fspec@,
                    ),
        {
            assert(views[i as int] == fields@[i as int]@);
            let name = fields[i].info.name.as_str();
            if fields[i].dim.is_none() && holds(&names, &fields[i].info.name) {
                let total = count_bytes(name);
                if total < ri || !sliceable(name, li, total - ri) {
                    assert(!has_index(views[i as int].info.name, fspec@));
                    return false;
                }
            }
        }
    }
    true
}

} // verus!
