//! Splitting fields into their bits.

use crate::builder::{all_numbers, built, fits, nonempty, plain_field, plain_parts};
use crate::error::{outcome, ErrorView, PatchError, PatchResult};
use crate::fields::{bears, drop_named, matched_names, named, names_in, others};
use crate::svd::{
    field_views, BitRange, EnumeratedValuesView, Field, FieldInfoView, FieldView, Register,
    RegisterView,
};
use crate::text::{copy, decimal, holds, replace, replaced, text, texts, to_decimal};
use crate::yaml::{lookup_text, Mapping, Yaml};
use vstd::prelude::*;

verus! {

/// The place in a name or a description that takes an index.
pub open spec fn placeholder() -> Seq<char> {
    seq!['%', 's']
}

/// The field for one bit of another field: bit `i` of a field that starts at `offset`.
pub open spec fn bit_field(
    name: Seq<char>,
    description: Option<Seq<char>>,
    offset: int,
    i: int,
) -> FieldView {
    FieldView {
        info: FieldInfoView {
            name: replaced(name, placeholder(), decimal(i as nat)),
            description: match description {
                Some(d) => nonempty(Some(replaced(d, placeholder(), decimal(i as nat)))),
                None => None,
            },
            bit_range: BitRange::from_offset_width((offset + i) as u32, 1),
            access: None,
            modified_write_values: None,
            write_constraint: None,
            read_action: None,
            enumerated_values: Seq::empty(),
            derived_from: None,
        },
        dim: None,
    }
}

/// The fields for the bits of a field, from the lowest to the highest.
pub open spec fn bit_fields(
    name: Seq<char>,
    description: Option<Seq<char>>,
    offset: int,
    width: int,
) -> Seq<FieldView> {
    Seq::new(width as nat, |i: int| bit_field(name, description, offset, i))
}

/// The name and the description that the bits of a field are given: those of the field, with a
/// placeholder after the name, unless others are asked for.
pub open spec fn split_texts(f: FieldInfoView, entries: Seq<(Yaml, Yaml)>) -> Result<
    (Seq<char>, Option<Seq<char>>),
    ErrorView,
> {
    match lookup_text(entries, "name"@) {
        Err(e) => Err(e),
        Ok(name) => match lookup_text(entries, "description"@) {
            Err(e) => Err(e),
            Ok(description) => Ok(
                (
                    match name {
                        Some(n) => n,
                        None => f.name + placeholder(),
                    },
                    match description {
                        Some(d) => Some(d),
                        None => f.description,
                    },
                ),
            ),
        },
    }
}

/// The fields for the bits of one field that is split.
pub open spec fn field_bits(f: FieldInfoView, entries: Seq<(Yaml, Yaml)>) -> Seq<FieldView> {
    let (name, description) = split_texts(f, entries)->Ok_0;
    bit_fields(name, description, f.bit_range.offset as int, f.bit_range.width as int)
}

/// The fields for the bits of all fields that are split, in the order of those.
pub open spec fn all_bits(found: Seq<FieldView>, entries: Seq<(Yaml, Yaml)>) -> Seq<FieldView>
    decreases found.len(),
{
    if found.len() == 0 {
        Seq::empty()
    } else {
        all_bits(found.drop_last(), entries) + field_bits(found.last().info, entries)
    }
}

/// Whether the split of the fields of some names can be carried out: unless the texts to use
/// cannot be read, each bit of these fields has a position.
pub open spec fn split_named_defined(
    reg: RegisterView,
    names: Seq<Seq<char>>,
    entries: Seq<(Yaml, Yaml)>,
) -> bool {
    forall|i: int|
        0 <= i < reg.fields().len() && bears(#[trigger] reg.fields()[i], names) && split_texts(
            reg.fields()[i].info,
            entries,
        ) is Ok ==> reg.fields()[i].info.bit_range.offset + reg.fields()[i].info.bit_range.width
            <= u32::MAX + 1
}

/// Whether a split can be carried out: unless the texts to use cannot be read, each bit of the
/// fields to split has a position.
pub open spec fn split_defined(reg: RegisterView, spec: Seq<char>, entries: Seq<(Yaml, Yaml)>) -> bool {
    split_named_defined(reg, matched_names(reg.fields(), spec), entries)
}

/// The register in which all fields that bear one of the given names have given way to fields
/// for their bits, which stand at the end of the list; an error, with nothing changed, where
/// there is no such field, and where the name or the description to use is no string.
pub open spec fn split_named(
    reg: RegisterView,
    names: Seq<Seq<char>>,
    spec: Seq<char>,
    entries: Seq<(Yaml, Yaml)>,
) -> (RegisterView, Result<(), ErrorView>) {
    let found = named(reg.fields(), names);
    if found.len() == 0 {
        (reg, Err(ErrorView::NothingToSplit { register: reg.info.name, spec }))
    } else {
        match split_texts(found[0].info, entries) {
            Err(e) => (reg, Err(e)),
            Ok(_) => (
                reg.with_fields(others(reg.fields(), names) + all_bits(found, entries)),
                Ok(()),
            ),
        }
    }
}

/// The register in which all fields that a specification picks out have given way to fields for
/// their bits, which stand at the end of the list; an error, with nothing changed, where the
/// specification picks out none, and where the name or the description to use is no string.
pub open spec fn split(reg: RegisterView, spec: Seq<char>, entries: Seq<(Yaml, Yaml)>) -> (
    RegisterView,
    Result<(), ErrorView>,
) {
    split_named(reg, matched_names(reg.fields(), spec), spec, entries)
}

/// A field of one bit is always accepted.
proof fn lemma_one_bit(name: Seq<char>, description: Option<Seq<char>>, offset: u32)
    ensures
        built(plain_parts(description, offset, 1), name) == Ok::<FieldInfoView, ErrorView>(
            FieldInfoView {
                name,
                description: nonempty(description),
                bit_range: BitRange::from_offset_width(offset, 1),
                access: None,
                modified_write_values: None,
                write_constraint: None,
                read_action: None,
                enumerated_values: Seq::empty(),
                derived_from: None,
            },
        ),
{
    assert(all_numbers(Seq::<EnumeratedValuesView>::empty()) =~= Seq::empty());
    assert(fits(1, Seq::empty(), None));
}

fn split_bits(name: &String, description: &Option<String>, offset: u32, width: u32) -> (r: Vec<Field>)
    requires
        offset + width <= u32::MAX + 1,
    ensures
        field_views(r@) == bit_fields(name@, text(*description), offset as int, width as int),
{
    proof {
        reveal_strlit("%s");
        assert("%s"@ =~= placeholder());
    }
    let mut r: Vec<Field> = Vec::new();
    for i in 0..width
        invariant
            offset + width <= u32::MAX + 1,
            "%s"@ == placeholder(),
            r@.len() == i,
            forall|j: int|
                0 <= j < i ==> #[trigger] r@[j]@ == bit_field(
                    name@,
                    text(*description),
                    offset as int,
                    j,
                ),
    {
        let index = to_decimal(i as usize);
        let bit_name = replace(name.as_str(), "%s", index.as_str());
        let bit_description = match description {
            Some(d) => Some(replace(d.as_str(), "%s", index.as_str())),
            None => None,
        };
        proof {
            lemma_one_bit(bit_name@, text(bit_description), (offset + i) as u32);
        }
        match plain_field(bit_name, bit_description, offset + i, 1) {
            Ok(info) => {
                r.push(info.single());
            },
            Err(_) => {
                assert(false);
            },
        }
    }
    assert(field_views(r@) =~= bit_fields(
        name@,
        text(*description),
        offset as int,
        width as int,
    ));
    r
}

/// Reads the name and the description that the bits of a field are given.
fn read_texts(f: &Field, fsplit: &Mapping) -> (r: Result<(String, Option<String>), PatchError>)
    ensures
        match r {
            Ok((name, description)) => split_texts(f@.info, fsplit@) == Ok::<
                (Seq<char>, Option<Seq<char>>),
                ErrorView,
            >((name@, text(description))),
            Err(e) => split_texts(f@.info, fsplit@) == Err::<
                (Seq<char>, Option<Seq<char>>),
                ErrorView,
            >(e@),
        },
{
    let name = match fsplit.get_str("name")? {
        Some(n) => n.to_owned(),
        None => {
            proof {
                reveal_strlit("%s");
                assert("%s"@ =~= placeholder());
            }
            f.info.name.clone().concat("%s")
        },
    };
    let description = match fsplit.get_str("description")? {
        Some(d) => Some(d.to_owned()),
        None => copy(&f.info.description),
    };
    Ok((name, description))
}

/// The fields of some names among the first `i + 1` fields: those among the first `i`, and the
/// field at `i` if it bears one of the names.
proof fn lemma_named_next(fields: Seq<FieldView>, names: Seq<Seq<char>>, i: int)
    requires
        0 <= i < fields.len(),
    ensures
        named(fields.take(i + 1), names) == if bears(fields[i], names) {
            named(fields.take(i), names).push(fields[i])
        } else {
            named(fields.take(i), names)
        },
{
    reveal(Seq::filter);
    assert(fields.take(i + 1).drop_last() =~= fields.take(i));
}

/// Makes the fields for the bits of all fields that bear one of the given names. There is none
/// where no field bears one of them.
fn bits_of_named(fields: &Vec<Field>, names: &Vec<String>, fsplit: &Mapping) -> (r: Result<
    Option<Vec<Field>>,
    PatchError,
>)
    requires
        forall|i: int|
            0 <= i < fields@.len() && bears(#[trigger] field_views(fields@)[i], texts(names@))
                && split_texts(field_views(fields@)[i].info, fsplit@) is Ok ==> field_views(
                fields@,
            )[i].info.bit_range.offset + field_views(fields@)[i].info.bit_range.width <= u32::MAX
                + 1,
    ensures
        ({
            let found = named(field_views(fields@), texts(names@));
            match r {
                Ok(None) => found.len() == 0,
                Ok(Some(bits)) => found.len() > 0 && split_texts(found[0].info, fsplit@) is Ok
                    && field_views(bits@) == all_bits(found, fsplit@),
                Err(e) => found.len() > 0 && split_texts(found[0].info, fsplit@) == Err::<
                    (Seq<char>, Option<Seq<char>>),
                    ErrorView,
                >(e@),
            }
        }),
{
    let ghost views = field_views(fields@);
    let mut any = false;
    let mut bits: Vec<Field> = Vec::new();
    let n = fields.len();
    assert(named(views.take(0), texts(names@)) =~= Seq::empty()) by {
        reveal(Seq::filter);
    }
    assert(field_views(bits@) =~= Seq::empty());
    for i in 0..n
        invariant
            n == fields@.len(),
            views == field_views(fields@),
            forall|i: int|
                0 <= i < fields@.len() && bears(#[trigger] views[i], texts(names@))
                    && split_texts(views[i].info, fsplit@) is Ok ==> views[i].info.bit_range.offset
                    + views[i].info.bit_range.width <= u32::MAX + 1,
            any == (named(views.take(i as int), texts(names@)).len() > 0),
            any ==> split_texts(named(views.take(i as int), texts(names@))[0].info, fsplit@) is Ok,
            field_views(bits@) == all_bits(named(views.take(i as int), texts(names@)), fsplit@),
    {
        let ghost found = named(views.take(i as int), texts(names@));
        proof {
            lemma_named_next(views, texts(names@), i as int);
        }
        assert(views[i as int] == fields@[i as int]@);
        if holds(names, &fields[i].info.name) {
            any = true;
            let ghost more = found.push(views[i as int]);
            assert(more.drop_last() =~= found);
            let (name, description) = match read_texts(&fields[i], fsplit) {
                Ok(both) => both,
                Err(e) => {
                    proof {
                        views.lemma_filter_contains(
                            |f: FieldView| bears(f, texts(names@)),
                            i as int,
                        );
                    }
                    return Err(e);
                },
            };
            let range = fields[i].info.bit_range;
            let ghost before = field_views(bits@);
            let mut new_bits = split_bits(&name, &description, range.offset, range.width);
            let ghost new_views = field_views(new_bits@);
            bits.append(&mut new_bits);
            assert(field_views(bits@) =~= before + new_views);
        }
    }
    assert(views.take(n as int) =~= views);
    Ok(
        if any {
            Some(bits)
        } else {
            None
        },
    )
}

/// Splits all fields that bear one of the given names into their bits. The specification that
/// the names come from is only reported.
pub fn split_all_named(
    reg: &mut Register,
    names: &Vec<String>,
    fspec: &str,
    fsplit: &Mapping,
) -> (r: PatchResult)
    requires
        split_named_defined(old(reg)@, texts(names@), fsplit@),
    ensures
        (final(reg)@, outcome(r)) == split_named(old(reg)@, texts(names@), fspec@, fsplit@),
{
    if let Some(fields) = &mut reg.info.fields {
        if let Some(mut bits) = bits_of_named(fields, names, fsplit)? {
            let ghost new_views = field_views(bits@);
            drop_named(fields, names);
            let ghost rest = field_views(fields@);
            fields.append(&mut bits);
            assert(field_views(fields@) =~= rest + new_views);
            return Ok(());
        }
    } else {
        assert(named(reg@.fields(), texts(names@)) =~= Seq::empty()) by {
            reveal(Seq::filter);
        }
    }
    Err(PatchError::NothingToSplit { register: reg.info.name.clone(), spec: fspec.to_owned() })
}

pub(crate) fn split_fields(reg: &mut Register, fspec: &str, fsplit: &Mapping) -> (r: PatchResult)
    requires
        split_defined(old(reg)@, fspec@, fsplit@),
    ensures
        (final(reg)@, outcome(r)) == split(old(reg)@, fspec@, fsplit@),
{
    let names = names_in(reg, fspec);
    split_all_named(reg, &names, fspec, fsplit)
}

/// Decides whether a split can be carried out.
pub(crate) fn can_split(reg: &Register, fspec: &str, fsplit: &Mapping) -> (r: bool)
    ensures
        r == split_defined(reg@, fspec@, fsplit@),
{
    let names = names_in(reg, fspec);
    let ghost views = reg@.fields();
    if let Some(fields) = &reg.info.fields {
        let n = fields.len();
        for i in 0..n
            invariant
                n == fields@.len(),
                views == reg@.fields(),
                views == field_views(fields@),
                texts(names@) == matched_names(views, fspec@),
                forall|j: int|
                    0 <= j < i && bears(#[trigger] views[j], texts(names@)) && split_texts(
                        views[j].info,
                        fsplit@,
                    ) is Ok ==> views[j].info.bit_range.offset + views[j].info.bit_range.width
                        <= u32::MAX + 1,
        {
            assert(views[i as int] == fields@[i as int]@);
            if holds(&names, &fields[i].info.name) {
                if read_texts(&fields[i], fsplit).is_err() {
                    return true;
                }
                let range = fields[i].info.bit_range;
                if range.width > 0 && range.width - 1 > u32::MAX - range.offset {
                    return false;
                }
            }
        }
    }
    true
}

} // verus!
