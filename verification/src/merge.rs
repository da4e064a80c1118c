//! Merging several fields into one.

use crate::builder::{built, plain_field, plain_parts};
use crate::error::{outcome, ErrorView, PatchError, PatchResult};
use crate::fields::{bears, drop_named, matched_names, named, names_in, others};
use crate::svd::{field_views, FieldView, Register, RegisterView};
use crate::text::{byte_slice, copy, holds, text, texts};
use crate::yaml::Yaml;
use vstd::prelude::*;
use vstd::utf8::{encode_utf8, is_char_boundary};

verus! {

/// The number of leading bytes that two strings share.
pub open spec fn shared_pair(a: Seq<u8>, b: Seq<u8>) -> int
    decreases a.len(),
{
    if a.len() == 0 || b.len() == 0 || a[0] != b[0] {
        0
    } else {
        1 + shared_pair(a.skip(1), b.skip(1))
    }
}

/// The number of leading bytes that each of several strings shares with the first.
pub open spec fn shared_bytes(names: Seq<Seq<char>>) -> int
    decreases names.len(),
{
    if names.len() == 0 {
        0
    } else if names.len() == 1 {
        encode_utf8(names[0]).len() as int
    } else {
        let rest = shared_bytes(names.drop_last());
        let pair = shared_pair(encode_utf8(names.last()), encode_utf8(names[0]));
        if pair < rest {
            pair
        } else {
            rest
        }
    }
}

/// Whether the leading bytes that the strings share are a string.
pub open spec fn prefix_is_text(names: Seq<Seq<char>>) -> bool {
    names.len() == 0 || is_char_boundary(encode_utf8(names[0]), shared_bytes(names))
}

/// The longest string with which each of several strings begins.
pub open spec fn common_prefix(names: Seq<Seq<char>>) -> Seq<char> {
    if names.len() == 0 {
        Seq::empty()
    } else {
        byte_slice(names[0], 0, shared_bytes(names))
    }
}

/// Calls `commands::util::longest_common_prefix`.
///
/// Claimed: the result is the part of the first string that reaches as far as every string
/// agrees with it, byte by byte; of no strings it is the empty string. The bytes that are shared
/// have to end where a character ends.
#[verifier::external_body]
fn longest_common_prefix(names: &Vec<String>) -> (r: String)
    requires
        prefix_is_text(texts(names@)),
    ensures
        r@ == common_prefix(texts(names@)),
{
    commands::util::longest_common_prefix(names.iter().map(|n| n.as_str()).collect()).to_string()
}

fn count_shared_pair(a: &[u8], b: &[u8]) -> (r: usize)
    ensures
        r == shared_pair(a@, b@),
        r <= a@.len(),
{
    let mut i: usize = 0;
    assert(a@.skip(0) =~= a@);
    assert(b@.skip(0) =~= b@);
    while i < a.len() && i < b.len() && a[i] == b[i]
        invariant
            i <= a@.len(),
            i <= b@.len(),
            shared_pair(a@, b@) == i + shared_pair(a@.skip(i as int), b@.skip(i as int)),
        decreases a@.len() - i,
    {
        assert(a@.skip(i as int).skip(1) =~= a@.skip(i + 1));
        assert(b@.skip(i as int).skip(1) =~= b@.skip(i + 1));
        i = i + 1;
    }
    i
}

fn count_shared(names: &Vec<String>) -> (r: usize)
    requires
        names@.len() > 0,
    ensures
        r == shared_bytes(texts(names@)),
{
    let first = names[0].as_str().as_bytes();
    let n = names.len();
    let ghost all = texts(names@);
    let mut r: usize = first.len();
    assert(all.take(1).len() == 1 && all.take(1)[0] == names@[0]@);
    for i in 1..n
        invariant
            n == names@.len(),
            all == texts(names@),
            first@ == encode_utf8(all[0]),
            r == shared_bytes(all.take(i as int)),
    {
        assert(all.take(i + 1).drop_last() =~= all.take(i as int));
        assert(all.take(i + 1).last() == names@[i as int]@);
        let pair = count_shared_pair(names[i].as_str().as_bytes(), first);
        if pair < r {
            r = pair;
        }
    }
    assert(all.take(n as int) =~= all);
    r
}

fn has_text_prefix(names: &Vec<String>) -> (r: bool)
    ensures
        r == prefix_is_text(texts(names@)),
{
    if names.len() == 0 {
        return true;
    }
    let shared = count_shared(names);
    assert(texts(names@)[0] == names@[0]@);
    names[0].as_str().is_char_boundary(shared)
}

/// The names that each of several specifications picks out, one after the other; an error where
/// one of them is no string.
pub open spec fn names_for(fields: Seq<FieldView>, specs: Seq<Yaml>) -> Result<
    Seq<Seq<char>>,
    ErrorView,
>
    decreases specs.len(),
{
    if specs.len() == 0 {
        Ok(Seq::empty())
    } else {
        match names_for(fields, specs.drop_last()) {
            Err(e) => Err(e),
            Ok(names) => match specs.last().as_text() {
                Err(e) => Err(e),
                Ok(spec) => Ok(names + matched_names(fields, spec)),
            },
        }
    }
}

/// The name of the field that a merge makes, and the names of the fields that it merges: with a
/// specification or a list of them, the key and what they pick out; with the key alone, what the
/// key picks out and the start that these names share.
pub open spec fn merge_target(reg: RegisterView, key: Seq<char>, value: Option<Yaml>) -> Result<
    (Seq<char>, Seq<Seq<char>>),
    ErrorView,
> {
    match value {
        Some(Yaml::String(spec)) => Ok((key, matched_names(reg.fields(), spec@))),
        Some(Yaml::Array(specs)) => match names_for(reg.fields(), specs@) {
            Ok(names) => Ok((key, names)),
            Err(e) => Err(e),
        },
        Some(_) => Err(ErrorView::InvalidMerge { register: reg.info.name, key }),
        None => {
            let names = matched_names(reg.fields(), key);
            Ok((common_prefix(names), names))
        },
    }
}

/// The sum of the widths of fields.
pub open spec fn total_width(fields: Seq<FieldView>) -> int
    decreases fields.len(),
{
    if fields.len() == 0 {
        0
    } else {
        total_width(fields.drop_last()) + fields.last().info.bit_range.width
    }
}

/// The least of the offsets of fields.
pub open spec fn least_offset(fields: Seq<FieldView>) -> u32
    decreases fields.len(),
{
    if fields.len() == 0 {
        u32::MAX
    } else {
        let before = least_offset(fields.drop_last());
        if fields.last().info.bit_range.offset < before {
            fields.last().info.bit_range.offset
        } else {
            before
        }
    }
}

/// The description of the first of several fields.
pub open spec fn first_description(fields: Seq<FieldView>) -> Option<Seq<char>> {
    if fields.len() == 0 {
        None
    } else {
        fields[0].info.description
    }
}

/// Whether a merge can be carried out: the widths add up to a width, and a name that the fields
/// have to share is a string.
pub open spec fn merge_defined(reg: RegisterView, key: Seq<char>, value: Option<Yaml>) -> bool {
    match merge_target(reg, key, value) {
        Err(_) => true,
        Ok((_, names)) => {
            &&& value is None ==> prefix_is_text(names)
            &&& total_width(named(reg.fields(), names)) <= u32::MAX
        },
    }
}

/// The register in which one field has taken the place of those that bear one of the given
/// names: it starts at the least of their offsets, is as wide as all of them together, and is
/// described as the first of them. It stands at the end of the list. The fields to merge are
/// gone even where the new one is refused. Without a list of fields nothing changes.
pub open spec fn merged_named(reg: RegisterView, name: Seq<char>, names: Seq<Seq<char>>) -> (
    RegisterView,
    Result<(), ErrorView>,
) {
    let parts = named(reg.fields(), names);
    let rest = others(reg.fields(), names);
    if reg.info.fields is None {
        (reg, Ok(()))
    } else {
        match built(
            plain_parts(first_description(parts), least_offset(parts), total_width(parts) as u32),
            name,
        ) {
            Err(e) => (reg.with_fields(rest), Err(e)),
            Ok(info) => (reg.with_fields(rest.push(FieldView { info, dim: None })), Ok(())),
        }
    }
}

/// The register in which one field has taken the place of several, as far as there are any; an
/// error, with nothing changed, where there are none or the merge is not asked for in the right
/// way.
pub open spec fn merged(reg: RegisterView, key: Seq<char>, value: Option<Yaml>) -> (
    RegisterView,
    Result<(), ErrorView>,
) {
    match merge_target(reg, key, value) {
        Err(e) => (reg, Err(e)),
        Ok((name, names)) => if names.len() == 0 {
            (reg, Err(ErrorView::NothingToMerge { register: reg.info.name, key }))
        } else {
            merged_named(reg, name, names)
        },
    }
}

/// What an optional value refers to.
pub open spec fn referent(value: Option<&Yaml>) -> Option<Yaml> {
    match value {
        Some(v) => Some(*v),
        None => None,
    }
}

fn collect_names(reg: &Register, specs: &Vec<Yaml>) -> (r: Result<Vec<String>, PatchError>)
    ensures
        match r {
            Ok(names) => names_for(reg@.fields(), specs@) == Ok::<Seq<Seq<char>>, ErrorView>(
                texts(names@),
            ),
            Err(e) => names_for(reg@.fields(), specs@) == Err::<Seq<Seq<char>>, ErrorView>(e@),
        },
{
    let n = specs.len();
    let mut names: Vec<String> = Vec::new();
    assert(texts(names@) =~= Seq::empty());
    for i in 0..n
        invariant
            n == specs@.len(),
            names_for(reg@.fields(), specs@.take(i as int)) == Ok::<Seq<Seq<char>>, ErrorView>(
                texts(names@),
            ),
    {
        assert(specs@.take(i + 1).drop_last() =~= specs@.take(i as int));
        match specs[i].str() {
            Ok(spec) => {
                let ghost before = names@;
                let mut more = names_in(reg, spec);
                let ghost added = more@;
                names.append(&mut more);
                assert(texts(names@) =~= texts(before) + texts(added));
            },
            Err(e) => {
                proof {
                    lemma_names_prefix_error(reg@.fields(), specs@, i + 1);
                }
                return Err(e);
            },
        }
    }
    assert(specs@.take(n as int) =~= specs@);
    Ok(names)
}

/// An error among the first specifications is the error of all of them.
proof fn lemma_names_prefix_error(fields: Seq<FieldView>, specs: Seq<Yaml>, n: int)
    requires
        0 <= n <= specs.len(),
        names_for(fields, specs.take(n)) is Err,
    ensures
        names_for(fields, specs) == names_for(fields, specs.take(n)),
    decreases specs.len() - n,
{
    if n == specs.len() {
        assert(specs.take(n) =~= specs);
    } else {
        assert(specs.take(n + 1).drop_last() =~= specs.take(n));
        lemma_names_prefix_error(fields, specs, n + 1);
    }
}

/// The names of the fields to merge.
fn names_to_merge(reg: &Register, key: &str, value: Option<&Yaml>) -> (r: Result<
    Vec<String>,
    PatchError,
>)
    ensures
        match r {
            Ok(names) => merge_target(reg@, key@, referent(value)) is Ok && merge_target(
                reg@,
                key@,
                referent(value),
            )->Ok_0.1 == texts(names@),
            Err(e) => merge_target(reg@, key@, referent(value)) == Err::<
                (Seq<char>, Seq<Seq<char>>),
                ErrorView,
            >(e@),
        },
{
    match value {
        Some(Yaml::String(spec)) => Ok(names_in(reg, spec.as_str())),
        Some(Yaml::Array(specs)) => collect_names(reg, specs),
        Some(_) => Err(
            PatchError::InvalidMerge { register: reg.info.name.clone(), key: key.to_owned() },
        ),
        None => Ok(names_in(reg, key)),
    }
}

/// The width of some of the fields of a register, the least of their offsets, and the
/// description of the first of them. There is no answer where the width is too large.
fn measure(reg: &Register, names: &Vec<String>) -> (r: Option<(u32, u32, Option<String>)>)
    ensures
        match r {
            Some((width, offset, description)) => {
                let parts = named(reg@.fields(), texts(names@));
                &&& width == total_width(parts)
                &&& offset == least_offset(parts)
                &&& text(description) == first_description(parts)
            },
            None => total_width(named(reg@.fields(), texts(names@))) > u32::MAX,
        },
{
    let mut width: u32 = 0;
    let mut offset: u32 = u32::MAX;
    let mut first = true;
    let mut description: Option<String> = None;
    let ghost wanted = |f: FieldView| bears(f, texts(names@));
    let ghost views = reg@.fields();
    assert(views.take(0).filter(wanted) =~= Seq::empty()) by {
        reveal(Seq::filter);
    }
    if let Some(fields) = &reg.info.fields {
        let n = fields.len();
        for i in 0..n
            invariant
                n == fields@.len(),
                views == field_views(fields@),
                views == reg@.fields(),
                wanted == (|f: FieldView| bears(f, texts(names@))),
                width == total_width(views.take(i as int).filter(wanted)),
                offset == least_offset(views.take(i as int).filter(wanted)),
                first == (views.take(i as int).filter(wanted).len() == 0),
                text(description) == first_description(views.take(i as int).filter(wanted)),
        {
            let ghost before = views.take(i as int).filter(wanted);
            assert(views.take(i + 1).drop_last() =~= views.take(i as int));
            assert(views.take(i + 1).last() == fields@[i as int]@);
            assert(views.take(i + 1).filter(wanted) == if wanted(views[i as int]) {
                before.push(views[i as int])
            } else {
                before
            }) by {
                reveal(Seq::filter);
            }
            if holds(names, &fields[i].info.name) {
                assert(before.push(views[i as int]).drop_last() =~= before);
                if first {
                    description = copy(&fields[i].info.description);
                    first = false;
                }
                match width.checked_add(fields[i].info.bit_range.width) {
                    Some(sum) => {
                        width = sum;
                    },
                    None => {
                        proof {
                            lemma_width_grows(views, wanted, i + 1);
                        }
                        return None;
                    },
                }
                if fields[i].info.bit_range.offset < offset {
                    offset = fields[i].info.bit_range.offset;
                }
            }
        }
        assert(views.take(n as int) =~= views);
    } else {
        assert(views =~= views.take(0));
    }
    Some((width, offset, description))
}

/// The more fields, the wider.
proof fn lemma_width_grows(fields: Seq<FieldView>, wanted: spec_fn(FieldView) -> bool, n: int)
    requires
        0 <= n <= fields.len(),
    ensures
        total_width(fields.take(n).filter(wanted)) <= total_width(fields.filter(wanted)),
    decreases fields.len() - n,
{
    if n == fields.len() {
        assert(fields.take(n) =~= fields);
    } else {
        lemma_width_grows(fields, wanted, n + 1);
        let before = fields.take(n).filter(wanted);
        assert(fields.take(n + 1).drop_last() =~= fields.take(n));
        assert(fields.take(n + 1).filter(wanted) == if wanted(fields[n]) {
            before.push(fields[n])
        } else {
            before
        }) by {
            reveal(Seq::filter);
        }
        assert(before.push(fields[n]).drop_last() =~= before);
    }
}

/// Merges the fields that bear one of the given names into one field of a given name.
pub fn merge_named(reg: &mut Register, name: &str, names: &Vec<String>) -> (r: PatchResult)
    requires
        total_width(named(old(reg)@.fields(), texts(names@))) <= u32::MAX,
    ensures
        (final(reg)@, outcome(r)) == merged_named(old(reg)@, name@, texts(names@)),
{
    let (width, offset, description) = match measure(reg, names) {
        Some(m) => m,
        None => {
            assert(false);
            return Ok(());
        },
    };
    if let Some(fields) = &mut reg.info.fields {
        drop_named(fields, names);
        let info = plain_field(name.to_owned(), description, offset, width)?;
        let f = info.single();
        let ghost rest = field_views(fields@);
        fields.push(f);
        assert(field_views(fields@) =~= rest.push(f@));
    }
    Ok(())
}

pub(crate) fn merge_fields(reg: &mut Register, key: &str, value: Option<&Yaml>) -> (r: PatchResult)
    requires
        merge_defined(old(reg)@, key@, referent(value)),
    ensures
        (final(reg)@, outcome(r)) == merged(old(reg)@, key@, referent(value)),
{
    let names = names_to_merge(reg, key, value)?;
    assert(texts(names@).len() == names@.len());
    if names.len() == 0 {
        return Err(
            PatchError::NothingToMerge { register: reg.info.name.clone(), key: key.to_owned() },
        );
    }
    let name = match value {
        Some(_) => key.to_owned(),
        None => longest_common_prefix(&names),
    };
    merge_named(reg, name.as_str(), &names)
}

/// Without fields there are no names to merge.
pub(crate) proof fn lemma_no_names(reg: RegisterView, key: Seq<char>, value: Option<Yaml>)
    requires
        reg.fields().len() == 0,
    ensures
        merge_target(reg, key, value) matches Ok((_, names)) ==> names.len() == 0,
{
    match value {
        Some(Yaml::Array(specs)) => {
            lemma_no_names_for(reg.fields(), specs@);
        },
        _ => {},
    }
}

proof fn lemma_no_names_for(fields: Seq<FieldView>, specs: Seq<Yaml>)
    requires
        fields.len() == 0,
    ensures
        names_for(fields, specs) matches Ok(names) ==> names.len() == 0,
    decreases specs.len(),
{
    if specs.len() > 0 {
        lemma_no_names_for(fields, specs.drop_last());
    }
}

/// Decides whether a merge can be carried out.
pub(crate) fn can_merge(reg: &Register, key: &str, value: Option<&Yaml>) -> (r: bool)
    ensures
        r == merge_defined(reg@, key@, referent(value)),
{
    match names_to_merge(reg, key, value) {
        Err(_) => true,
        Ok(names) => {
            if value.is_none() && !has_text_prefix(&names) {
                return false;
            }
            measure(reg, &names).is_some()
        },
    }
}

} // verus!
