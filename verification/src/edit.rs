//! Dropping, clearing, renaming, changing and adding single fields.

use crate::builder::{built, modified, validity};
use crate::error::{outcome, ErrorView, PatchError, PatchResult};
use crate::fields::{
    bears, drop_named, find_named, lemma_named_indices, lemma_update_end, lemma_update_next,
    lemma_update_start, matched_names, named_indices, names_in, others, positions, update_named,
    updated_up_to,
};
use crate::make::{field_parts, make_field};
use crate::matching::{check_pattern, match_pattern, pattern_error, pattern_matches};
use crate::svd::{
    field_views, Field, FieldInfoView, FieldView, Register, RegisterInfoView, RegisterView,
    WriteConstraint, WriteConstraintRange,
};
use crate::text::{
    byte_len, byte_slice, can_slice, count_bytes, holds, same, slice, sliceable, texts,
};
use crate::yaml::{lookup, Mapping, Yaml};
use vstd::prelude::*;

verus! {

/// The register without the fields that bear one of the given names.
pub open spec fn deleted_named(reg: RegisterView, names: Seq<Seq<char>>) -> RegisterView {
    reg.with_fields(others(reg.fields(), names))
}

/// The register without the fields that a specification picks out.
pub open spec fn deleted(reg: RegisterView, spec: Seq<char>) -> RegisterView {
    deleted_named(reg, matched_names(reg.fields(), spec))
}

/// Deletes the fields that bear one of the given names.
pub fn delete_named(reg: &mut Register, names: &Vec<String>)
    ensures
        final(reg)@ == deleted_named(old(reg)@, texts(names@)),
{
    if let Some(fields) = &mut reg.info.fields {
        drop_named(fields, names);
    }
}

pub(crate) fn delete_field(reg: &mut Register, fspec: &str) -> (r: PatchResult)
    ensures
        r is Ok,
        final(reg)@ == deleted(old(reg)@, fspec@),
{
    let names = names_in(reg, fspec);
    delete_named(reg, &names);
    Ok(())
}

/// A field without enumerated values and write constraint.
pub open spec fn cleared_field(f: FieldView) -> FieldView {
    FieldView {
        info: FieldInfoView {
            enumerated_values: Seq::empty(),
            write_constraint: None,
            ..f.info
        },
        ..f
    }
}

/// The register in which the fields that bear one of the given names have lost their enumerated
/// values and write constraints.
pub open spec fn cleared_named(reg: RegisterView, names: Seq<Seq<char>>) -> RegisterView {
    reg.with_fields(
        reg.fields().map_values(
            |f: FieldView|
                if bears(f, names) {
                    cleared_field(f)
                } else {
                    f
                },
        ),
    )
}

/// The register in which the fields that a specification picks out have lost their enumerated
/// values and write constraints.
pub open spec fn cleared(reg: RegisterView, spec: Seq<char>) -> RegisterView {
    cleared_named(reg, matched_names(reg.fields(), spec))
}

/// Clears the contents of the fields that bear one of the given names.
pub fn clear_named(reg: &mut Register, names: &Vec<String>)
    ensures
        final(reg)@ == cleared_named(old(reg)@, texts(names@)),
{
    let ghost done = |f: FieldView|
        if bears(f, texts(names@)) {
            cleared_field(f)
        } else {
            f
        };
    if let Some(fields) = &mut reg.info.fields {
        let ghost before = field_views(fields@);
        let n = fields.len();
        for i in 0..n
            invariant
                n == fields@.len(),
                n == before.len(),
                done == (|f: FieldView|
                    if bears(f, texts(names@)) {
                        cleared_field(f)
                    } else {
                        f
                    }),
                forall|j: int|
                    0 <= j < n ==> #[trigger] fields@[j]@ == if j < i {
                        done(before[j])
                    } else {
                        before[j]
                    },
        {
            assert(fields@[i as int]@ == before[i as int]);
            if holds(names, &fields[i].info.name) {
                let f = &mut fields[i];
                f.info.enumerated_values = Vec::new();
                f.info.write_constraint = None;
                assert(crate::svd::enum_views(f.info.enumerated_values@) =~= Seq::empty());
            }
        }
        assert(field_views(fields@) =~= before.map_values(done));
    }
}

pub(crate) fn clear_field(reg: &mut Register, fspec: &str) -> (r: PatchResult)
    ensures
        r is Ok,
        final(reg)@ == cleared(old(reg)@, fspec@),
{
    let names = names_in(reg, fspec);
    clear_named(reg, &names);
    Ok(())
}

/// A field under another name.
pub open spec fn renamed(f: FieldView, name: Seq<char>) -> FieldView {
    FieldView { info: FieldInfoView { name, ..f.info }, ..f }
}

/// The pattern of the names that begin as given.
pub open spec fn start_pattern(substr: Seq<char>) -> Seq<char> {
    substr + seq!['*']
}

/// The pattern of the names that end as given.
pub open spec fn end_pattern(substr: Seq<char>) -> Seq<char> {
    seq!['*'] + substr
}

/// A name without as many bytes at its start as a string has.
pub open spec fn without_start(name: Seq<char>, substr: Seq<char>) -> Seq<char> {
    byte_slice(name, byte_len(substr), byte_len(name))
}

/// A name without as many bytes at its end as a string has.
pub open spec fn without_end(name: Seq<char>, substr: Seq<char>) -> Seq<char> {
    byte_slice(name, 0, byte_len(name) - byte_len(substr))
}

/// The names of the fields that match a pattern, in the order of the fields.
pub open spec fn names_like(fields: Seq<FieldView>, pattern: Seq<char>) -> Seq<Seq<char>>
    decreases fields.len(),
{
    if fields.len() == 0 {
        Seq::empty()
    } else {
        let before = names_like(fields.drop_last(), pattern);
        if pattern_matches(pattern, fields.last().info.name) {
            before.push(fields.last().info.name)
        } else {
            before
        }
    }
}

/// Whether the name of each field that bears one of the given names can be cut at its start.
pub open spec fn starts_can_be_cut(
    reg: RegisterView,
    names: Seq<Seq<char>>,
    substr: Seq<char>,
) -> bool {
    forall|i: int|
        0 <= i < reg.fields().len() && bears(#[trigger] reg.fields()[i], names) ==> can_slice(
            reg.fields()[i].info.name,
            byte_len(substr),
            byte_len(reg.fields()[i].info.name),
        )
}

/// Whether the name of each field that bears one of the given names can be cut at its end.
pub open spec fn ends_can_be_cut(
    reg: RegisterView,
    names: Seq<Seq<char>>,
    substr: Seq<char>,
) -> bool {
    forall|i: int|
        0 <= i < reg.fields().len() && bears(#[trigger] reg.fields()[i], names) ==> can_slice(
            reg.fields()[i].info.name,
            0,
            byte_len(reg.fields()[i].info.name) - byte_len(substr),
        )
}

/// The register in which each field that bears one of the given names has lost the start of its
/// name.
pub open spec fn starts_cut(
    reg: RegisterView,
    names: Seq<Seq<char>>,
    substr: Seq<char>,
) -> RegisterView {
    reg.with_fields(
        reg.fields().map_values(
            |f: FieldView|
                if bears(f, names) {
                    renamed(f, without_start(f.info.name, substr))
                } else {
                    f
                },
        ),
    )
}

/// The register in which each field that bears one of the given names has lost the end of its
/// name.
pub open spec fn ends_cut(
    reg: RegisterView,
    names: Seq<Seq<char>>,
    substr: Seq<char>,
) -> RegisterView {
    reg.with_fields(
        reg.fields().map_values(
            |f: FieldView|
                if bears(f, names) {
                    renamed(f, without_end(f.info.name, substr))
                } else {
                    f
                },
        ),
    )
}

/// Whether every name that matches the pattern can be cut at its start.
pub open spec fn start_can_be_stripped(reg: RegisterView, substr: Seq<char>) -> bool {
    pattern_error(start_pattern(substr)) is None ==> starts_can_be_cut(
        reg,
        names_like(reg.fields(), start_pattern(substr)),
        substr,
    )
}

/// Whether every name that matches the pattern can be cut at its end.
pub open spec fn end_can_be_stripped(reg: RegisterView, substr: Seq<char>) -> bool {
    pattern_error(end_pattern(substr)) is None ==> ends_can_be_cut(
        reg,
        names_like(reg.fields(), end_pattern(substr)),
        substr,
    )
}

/// The register in which each name that matches the pattern has lost its start; an error where
/// the pattern is refused.
pub open spec fn start_stripped(reg: RegisterView, substr: Seq<char>) -> (
    RegisterView,
    Result<(), ErrorView>,
) {
    match pattern_error(start_pattern(substr)) {
        Some(e) => (reg, Err(e)),
        None => (
            starts_cut(reg, names_like(reg.fields(), start_pattern(substr)), substr),
            Ok(()),
        ),
    }
}

/// The register in which each name that matches the pattern has lost its end; an error where
/// the pattern is refused.
pub open spec fn end_stripped(reg: RegisterView, substr: Seq<char>) -> (
    RegisterView,
    Result<(), ErrorView>,
) {
    match pattern_error(end_pattern(substr)) {
        Some(e) => (reg, Err(e)),
        None => (
            ends_cut(reg, names_like(reg.fields(), end_pattern(substr)), substr),
            Ok(()),
        ),
    }
}

fn pattern_of_start(substr: &str) -> (r: String)
    ensures
        r@ == start_pattern(substr@),
{
    proof {
        reveal_strlit("*");
    }
    let mut pattern = substr.to_owned();
    pattern.append("*");
    assert(pattern@ =~= start_pattern(substr@));
    pattern
}

fn pattern_of_end(substr: &str) -> (r: String)
    ensures
        r@ == end_pattern(substr@),
{
    proof {
        reveal_strlit("*");
    }
    let mut pattern = "*".to_owned();
    pattern.append(substr);
    assert(pattern@ =~= end_pattern(substr@));
    pattern
}

/// Cuts as many bytes as a string has from the start of the names of the fields that bear one
/// of the given names.
pub fn cut_starts(reg: &mut Register, names: &Vec<String>, substr: &str)
    requires
        starts_can_be_cut(old(reg)@, texts(names@), substr@),
    ensures
        final(reg)@ == starts_cut(old(reg)@, texts(names@), substr@),
{
    let len = count_bytes(substr);
    let ghost done = |f: FieldView|
        if bears(f, texts(names@)) {
            renamed(f, without_start(f.info.name, substr@))
        } else {
            f
        };
    let ghost before = reg@.fields();
    if let Some(fields) = &mut reg.info.fields {
        let n = fields.len();
        for i in 0..n
            invariant
                n == fields@.len(),
                n == before.len(),
                len == byte_len(substr@),
                forall|j: int|
                    0 <= j < n && bears(#[trigger] before[j], texts(names@)) ==> can_slice(
                        before[j].info.name,
                        byte_len(substr@),
                        byte_len(before[j].info.name),
                    ),
                done == (|f: FieldView|
                    if bears(f, texts(names@)) {
                        renamed(f, without_start(f.info.name, substr@))
                    } else {
                        f
                    }),
                forall|j: int|
                    0 <= j < n ==> #[trigger] fields@[j]@ == if j < i {
                        done(before[j])
                    } else {
                        before[j]
                    },
        {
            assert(fields@[i as int]@ == before[i as int]);
            if holds(names, &fields[i].info.name) {
                let name = fields[i].info.name.as_str();
                let rest = slice(name, len, count_bytes(name));
                let f = &mut fields[i];
                f.info.name = rest;
            }
        }
        assert(field_views(fields@) =~= before.map_values(done));
    }
}

/// Cuts as many bytes as a string has from the end of the names of the fields that bear one of
/// the given names.
pub fn cut_ends(reg: &mut Register, names: &Vec<String>, substr: &str)
    requires
        ends_can_be_cut(old(reg)@, texts(names@), substr@),
    ensures
        final(reg)@ == ends_cut(old(reg)@, texts(names@), substr@),
{
    let len = count_bytes(substr);
    let ghost done = |f: FieldView|
        if bears(f, texts(names@)) {
            renamed(f, without_end(f.info.name, substr@))
        } else {
            f
        };
    let ghost before = reg@.fields();
    if let Some(fields) = &mut reg.info.fields {
        let n = fields.len();
        for i in 0..n
            invariant
                n == fields@.len(),
                n == before.len(),
                len == byte_len(substr@),
                forall|j: int|
                    0 <= j < n && bears(#[trigger] before[j], texts(names@)) ==> can_slice(
                        before[j].info.name,
                        0,
                        byte_len(before[j].info.name) - byte_len(substr@),
                    ),
                done == (|f: FieldView|
                    if bears(f, texts(names@)) {
                        renamed(f, without_end(f.info.name, substr@))
                    } else {
                        f
                    }),
                forall|j: int|
                    0 <= j < n ==> #[trigger] fields@[j]@ == if j < i {
                        done(before[j])
                    } else {
                        before[j]
                    },
        {
            assert(fields@[i as int]@ == before[i as int]);
            if holds(names, &fields[i].info.name) {
                let name = fields[i].info.name.as_str();
                let rest = slice(name, 0, count_bytes(name) - len);
                let f = &mut fields[i];
                f.info.name = rest;
            }
        }
        assert(field_views(fields@) =~= before.map_values(done));
    }
}

/// Finds the names of the fields that match a pattern, unless the pattern is refused.
fn find_like(reg: &Register, pattern: &str) -> (r: Result<Vec<String>, PatchError>)
    ensures
        match r {
            Ok(names) => pattern_error(pattern@) is None && texts(names@) == names_like(
                reg@.fields(),
                pattern@,
            ),
            Err(e) => pattern_error(pattern@) == Some(e@),
        },
{
    check_pattern(pattern)?;
    let mut r: Vec<String> = Vec::new();
    let ghost views = reg@.fields();
    assert(texts(r@) =~= names_like(views.take(0), pattern@));
    if let Some(fields) = &reg.info.fields {
        let n = fields.len();
        for i in 0..n
            invariant
                n == fields@.len(),
                views == field_views(fields@),
                pattern_error(pattern@) is None,
                texts(r@) == names_like(views.take(i as int), pattern@),
        {
            assert(views.take(i + 1).drop_last() =~= views.take(i as int));
            assert(views.take(i + 1).last() == fields@[i as int]@);
            let name = &fields[i].info.name;
            if match_pattern(pattern, name.as_str()) {
                let ghost before = texts(r@);
                r.push(name.clone());
                assert(texts(r@) =~= before.push(name@));
            }
        }
        assert(views.take(n as int) =~= views);
    } else {
        assert(views =~= views.take(0));
    }
    Ok(r)
}

pub(crate) fn strip_start(reg: &mut Register, substr: &str) -> (r: PatchResult)
    requires
        start_can_be_stripped(old(reg)@, substr@),
    ensures
        (final(reg)@, outcome(r)) == start_stripped(old(reg)@, substr@),
{
    let pattern = pattern_of_start(substr);
    match find_like(reg, pattern.as_str()) {
        Ok(names) => {
            cut_starts(reg, &names, substr);
            Ok(())
        },
        Err(e) => Err(e),
    }
}

pub(crate) fn strip_end(reg: &mut Register, substr: &str) -> (r: PatchResult)
    requires
        end_can_be_stripped(old(reg)@, substr@),
    ensures
        (final(reg)@, outcome(r)) == end_stripped(old(reg)@, substr@),
{
    let pattern = pattern_of_end(substr);
    match find_like(reg, pattern.as_str()) {
        Ok(names) => {
            cut_ends(reg, &names, substr);
            Ok(())
        },
        Err(e) => Err(e),
    }
}

/// Decides whether every name that matches the pattern can be cut at its start.
pub(crate) fn can_strip_start(reg: &Register, substr: &str) -> (r: bool)
    ensures
        r == start_can_be_stripped(reg@, substr@),
{
    let pattern = pattern_of_start(substr);
    let names = match find_like(reg, pattern.as_str()) {
        Ok(names) => names,
        Err(_) => {
            return true;
        },
    };
    let len = count_bytes(substr);
    let ghost views = reg@.fields();
    if let Some(fields) = &reg.info.fields {
        let n = fields.len();
        for i in 0..n
            invariant
                n == fields@.len(),
                views == field_views(fields@),
                views == reg@.fields(),
                len == byte_len(substr@),
                pattern_error(start_pattern(substr@)) is None,
                texts(names@) == names_like(views, start_pattern(substr@)),
                forall|j: int|
                    0 <= j < i && bears(#[trigger] views[j], texts(names@)) ==> can_slice(
                        views[j].info.name,
                        byte_len(substr@),
                        byte_len(views[j].info.name),
                    ),
        {
            assert(views[i as int] == fields@[i as int]@);
            let name = fields[i].info.name.as_str();
            let total = count_bytes(name);
            if holds(&names, &fields[i].info.name) && !sliceable(name, len, total) {
                return false;
            }
        }
    }
    true
}

/// Decides whether every name that matches the pattern can be cut at its end.
pub(crate) fn can_strip_end(reg: &Register, substr: &str) -> (r: bool)
    ensures
        r == end_can_be_stripped(reg@, substr@),
{
    let pattern = pattern_of_end(substr);
    let names = match find_like(reg, pattern.as_str()) {
        Ok(names) => names,
        Err(_) => {
            return true;
        },
    };
    let len = count_bytes(substr);
    let ghost views = reg@.fields();
    if let Some(fields) = &reg.info.fields {
        let n = fields.len();
        for i in 0..n
            invariant
                n == fields@.len(),
                views == field_views(fields@),
                views == reg@.fields(),
                len == byte_len(substr@),
                pattern_error(end_pattern(substr@)) is None,
                texts(names@) == names_like(views, end_pattern(substr@)),
                forall|j: int|
                    0 <= j < i && bears(#[trigger] views[j], texts(names@)) ==> can_slice(
                        views[j].info.name,
                        0,
                        byte_len(views[j].info.name) - byte_len(substr@),
                    ),
        {
            assert(views[i as int] == fields@[i as int]@);
            let name = fields[i].info.name.as_str();
            let total = count_bytes(name);
            if holds(&names, &fields[i].info.name) && (total < len || !sliceable(name, 0, total - len)) {
                return false;
            }
        }
    }
    true
}

/// Whether a list gives two bounds, or goes wrong before the second is needed.
pub open spec fn bounds_given(parts: Seq<Yaml>) -> bool {
    parts.len() >= 2 || (parts.len() == 1 && parts[0].as_number() is Err)
}

/// The range between the first two numbers of a list. A negative number stands for its two's
/// complement.
pub open spec fn range_of(parts: Seq<Yaml>) -> Result<WriteConstraintRange, ErrorView> {
    match parts[0].as_number() {
        Err(e) => Err(e),
        Ok(min) => match parts[1].as_number() {
            Err(e) => Err(e),
            Ok(max) => Ok(WriteConstraintRange { min: min as u64, max: max as u64 }),
        },
    }
}

fn read_range(parts: &[Yaml]) -> (r: Result<WriteConstraintRange, PatchError>)
    requires
        bounds_given(parts@),
    ensures
        match r {
            Ok(range) => range_of(parts@) == Ok::<WriteConstraintRange, ErrorView>(range),
            Err(e) => range_of(parts@) == Err::<WriteConstraintRange, ErrorView>(e@),
        },
{
    let min = parts[0].i64()?;
    let max = parts[1].i64()?;
    Ok(
        WriteConstraintRange {
            min: #[verifier::truncate]
            (min as u64),
            max: #[verifier::truncate]
            (max as u64),
        },
    )
}

fn bounds_readable(parts: &[Yaml]) -> (r: bool)
    ensures
        r == bounds_given(parts@),
{
    parts.len() >= 2 || (parts.len() == 1 && parts[0].i64().is_err())
}

/// A field with another write constraint.
pub open spec fn constrained(f: FieldView, constraint: Option<WriteConstraint>) -> FieldView {
    FieldView { info: FieldInfoView { write_constraint: constraint, ..f.info }, ..f }
}

/// What a change says of the write constraint, if anything.
pub open spec fn constraint_entry(entries: Seq<(Yaml, Yaml)>) -> Option<Yaml> {
    match lookup(entries, "_write_constraint"@) {
        Some(v) => Some(v),
        None => lookup(entries, "writeConstraint"@),
    }
}

/// The write constraint that a value stands for: none, one of the enumerated values, or a range.
pub open spec fn constraint_of(v: Yaml) -> Result<Option<WriteConstraint>, ErrorView> {
    match v {
        Yaml::String(s) => if s@ == "none"@ {
            Ok(None)
        } else if s@ == "enum"@ {
            Ok(Some(WriteConstraint::UseEnumeratedValues(true)))
        } else {
            Err(ErrorView::UnknownWriteConstraint { constraint: v@ })
        },
        Yaml::Array(parts) => match range_of(parts@) {
            Ok(range) => Ok(Some(WriteConstraint::Range(range))),
            Err(e) => Err(e),
        },
        _ => Err(ErrorView::UnknownWriteConstraint { constraint: v@ }),
    }
}

/// A field with the parts that a change gives, and whether the change went well.
pub open spec fn with_parts(f: FieldView, entries: Seq<(Yaml, Yaml)>) -> (
    FieldView,
    Result<(), ErrorView>,
) {
    match field_parts(entries) {
        Err(e) => (f, Err(e)),
        Ok(parts) => (
            FieldView { info: modified(f.info, parts), ..f },
            validity(modified(f.info, parts)),
        ),
    }
}

/// A field after a change: first the write constraint, then everything else that is given.
pub open spec fn changed(f: FieldView, entries: Seq<(Yaml, Yaml)>) -> (
    FieldView,
    Result<(), ErrorView>,
) {
    match constraint_entry(entries) {
        None => with_parts(f, entries),
        Some(v) => match constraint_of(v) {
            Err(e) => (f, Err(e)),
            Ok(constraint) => with_parts(constrained(f, constraint), entries),
        },
    }
}

/// Whether a change of the write constraint, where one is asked for, can be read.
pub open spec fn constraint_readable(entries: Seq<(Yaml, Yaml)>) -> bool {
    constraint_entry(entries) matches Some(Yaml::Array(parts)) ==> bounds_given(parts@)
}

/// Whether a change of the fields of some names can be applied: there are none, or its range is
/// given in full.
pub open spec fn modify_named_defined(
    reg: RegisterView,
    names: Seq<Seq<char>>,
    entries: Seq<(Yaml, Yaml)>,
) -> bool {
    named_indices(reg.fields(), names).len() == 0 || constraint_readable(entries)
}

/// Whether a change can be applied: the fields that it is meant for are none, or its range is
/// given in full.
pub open spec fn modify_defined(
    reg: RegisterView,
    spec: Seq<char>,
    entries: Seq<(Yaml, Yaml)>,
) -> bool {
    modify_named_defined(reg, matched_names(reg.fields(), spec), entries)
}

/// The register in which the fields that bear one of the given names have been changed, in
/// order, up to the first change that fails.
pub open spec fn modified_named(
    reg: RegisterView,
    names: Seq<Seq<char>>,
    entries: Seq<(Yaml, Yaml)>,
) -> (RegisterView, Result<(), ErrorView>) {
    let (fields, answer) = update_named(
        reg.fields(),
        names,
        |f: FieldView| changed(f, entries),
    );
    (reg.with_fields(fields), answer)
}

/// The register in which the fields that a specification picks out have been changed, in order,
/// up to the first change that fails.
pub open spec fn modified_fields(
    reg: RegisterView,
    spec: Seq<char>,
    entries: Seq<(Yaml, Yaml)>,
) -> (RegisterView, Result<(), ErrorView>) {
    modified_named(reg, matched_names(reg.fields(), spec), entries)
}

fn change(f: &mut Field, fmod: &Mapping) -> (r: PatchResult)
    requires
        constraint_readable(fmod@),
    ensures
        (final(f)@, outcome(r)) == changed(old(f)@, fmod@),
{
    let entry = match fmod.get("_write_constraint") {
        Some(v) => Some(v),
        None => fmod.get("writeConstraint"),
    };
    if let Some(v) = entry {
        let constraint = match v {
            Yaml::String(s) => if same(s.as_str(), "none") {
                None
            } else if same(s.as_str(), "enum") {
                Some(WriteConstraint::UseEnumeratedValues(true))
            } else {
                return Err(PatchError::UnknownWriteConstraint { constraint: v.duplicate() });
            },
            Yaml::Array(parts) => match read_range(parts.as_slice()) {
                Ok(range) => Some(WriteConstraint::Range(range)),
                Err(e) => {
                    return Err(e);
                },
            },
            _ => {
                return Err(PatchError::UnknownWriteConstraint { constraint: v.duplicate() });
            },
        };
        f.info.write_constraint = constraint;
    }
    match make_field(fmod) {
        Ok(parts) => f.info.modify_from(parts),
        Err(e) => Err(e),
    }
}

fn modify_list(fields: &mut Vec<Field>, names: &Vec<String>, fmod: &Mapping) -> (r: PatchResult)
    requires
        named_indices(field_views(old(fields)@), texts(names@)).len() == 0 || constraint_readable(fmod@),
    ensures
        (field_views(final(fields)@), outcome(r)) == update_named(
            field_views(old(fields)@),
            texts(names@),
            |f: FieldView| changed(f, fmod@),
        ),
{
    let ghost step = |f: FieldView| changed(f, fmod@);
    let ghost before = field_views(fields@);
    let n = fields.len();
    proof {
        lemma_update_start(before, texts(names@), step);
        lemma_named_indices(before, texts(names@));
    }
    for i in 0..n
        invariant
            n == fields@.len(),
            n == before.len(),
            before == field_views(old(fields)@),
            step == (|f: FieldView| changed(f, fmod@)),
            named_indices(before, texts(names@)).len() == 0 || constraint_readable(fmod@),
            forall|i: int|
                0 <= i < before.len() && bears(#[trigger] before[i], texts(names@)) ==> named_indices(
                    before,
                    texts(names@),
                ).contains(i),
            updated_up_to(before, field_views(fields@), i as int, texts(names@), step),
    {
        let ghost now = field_views(fields@);
        assert(now[i as int] == fields@[i as int]@);
        assert(now[i as int] == before[i as int]) by {
            assert(now.skip(i as int)[0] == before.skip(i as int)[0]);
        }
        if holds(names, &fields[i].info.name) {
            let r = change(&mut fields[i], fmod);
            assert(field_views(fields@) =~= now.update(i as int, step(now[i as int]).0));
            proof {
                lemma_update_next(before, now, field_views(fields@), i as int, texts(names@), step);
            }
            if r.is_err() {
                return r;
            }
        } else {
            proof {
                lemma_update_next(before, now, now, i as int, texts(names@), step);
            }
        }
    }
    proof {
        lemma_update_end(before, field_views(fields@), texts(names@), step);
    }
    Ok(())
}

/// Modifies the fields that bear one of the given names.
pub fn modify_named(reg: &mut Register, names: &Vec<String>, fmod: &Mapping) -> (r:
    PatchResult)
    requires
        modify_named_defined(old(reg)@, texts(names@), fmod@),
    ensures
        (final(reg)@, outcome(r)) == modified_named(old(reg)@, texts(names@), fmod@),
{
    match &mut reg.info.fields {
        Some(fields) => modify_list(fields, names, fmod),
        None => Ok(()),
    }
}

pub(crate) fn modify_field(reg: &mut Register, fspec: &str, fmod: &Mapping) -> (r: PatchResult)
    requires
        modify_defined(old(reg)@, fspec@, fmod@),
    ensures
        (final(reg)@, outcome(r)) == modified_fields(old(reg)@, fspec@, fmod@),
{
    let names = names_in(reg, fspec);
    modify_named(reg, &names, fmod)
}

/// Decides whether a change can be applied.
pub(crate) fn can_modify(reg: &Register, fspec: &str, fmod: &Mapping) -> (r: bool)
    ensures
        r == modify_defined(reg@, fspec@, fmod@),
{
    let names = names_in(reg, fspec);
    let found = find_named(reg, &names);
    assert(positions(found@).len() == found@.len());
    if found.len() == 0 {
        return true;
    }
    let entry = match fmod.get("_write_constraint") {
        Some(v) => Some(v),
        None => fmod.get("writeConstraint"),
    };
    match entry {
        Some(Yaml::Array(parts)) => bounds_readable(parts.as_slice()),
        _ => true,
    }
}

/// Whether a list has a field of that name.
pub open spec fn has_field(fields: Seq<FieldView>, name: Seq<char>) -> bool {
    exists|i: int| 0 <= i < fields.len() && (#[trigger] fields[i]).info.name == name
}

/// The register with one more field at the end of its list.
pub open spec fn with_field(reg: RegisterView, f: FieldView) -> RegisterView {
    RegisterView {
        info: RegisterInfoView { fields: Some(reg.fields().push(f)), ..reg.info },
        ..reg
    }
}

/// The register with the field that a mapping describes; an error, with nothing changed, where
/// the name is taken or the description does not make a field.
pub open spec fn added(reg: RegisterView, name: Seq<char>, entries: Seq<(Yaml, Yaml)>) -> (
    RegisterView,
    Result<(), ErrorView>,
) {
    if has_field(reg.fields(), name) {
        (reg, Err(ErrorView::FieldExists { register: reg.info.name, field: name }))
    } else {
        match field_parts(entries) {
            Err(e) => (reg, Err(e)),
            Ok(parts) => match built(parts, name) {
                Err(e) => (reg, Err(e)),
                Ok(info) => (with_field(reg, FieldView { info, dim: None }), Ok(())),
            },
        }
    }
}

fn find_field(reg: &Register, name: &str) -> (r: bool)
    ensures
        r == has_field(reg@.fields(), name@),
{
    let ghost views = reg@.fields();
    if let Some(fields) = &reg.info.fields {
        for i in 0..fields.len()
            invariant
                views == field_views(fields@),
                views == reg@.fields(),
                forall|j: int| 0 <= j < i ==> (#[trigger] views[j]).info.name != name@,
        {
            assert(views[i as int] == fields@[i as int]@);
            if same(fields[i].info.name.as_str(), name) {
                return true;
            }
        }
    }
    false
}

pub(crate) fn add_field(reg: &mut Register, fname: &str, fadd: &Mapping) -> (r: PatchResult)
    ensures
        (final(reg)@, outcome(r)) == added(old(reg)@, fname@, fadd@),
{
    if find_field(reg, fname) {
        return Err(
            PatchError::FieldExists {
                register: reg.info.name.clone(),
                field: fname.to_owned(),
            },
        );
    }
    let parts = make_field(fadd)?;
    let f = parts.build(fname.to_owned())?.single();
    let ghost before = reg@.fields();
    match &mut reg.info.fields {
        Some(fields) => {
            fields.push(f);
            assert(field_views(fields@) =~= before.push(f@));
        },
        None => {
            let mut fields: Vec<Field> = Vec::new();
            fields.push(f);
            assert(field_views(fields@) =~= before.push(f@));
            reg.info.fields = Some(fields);
        },
    }
    Ok(())
}

/// Whether a range for the fields of some names can be read: there are none, or it is given in
/// full.
pub open spec fn range_named_defined(
    reg: RegisterView,
    names: Seq<Seq<char>>,
    parts: Seq<Yaml>,
) -> bool {
    named_indices(reg.fields(), names).len() == 0 || bounds_given(parts)
}

/// Whether a range for some fields can be read: the fields that it is meant for are none, or it
/// is given in full.
pub open spec fn range_defined(reg: RegisterView, spec: Seq<char>, parts: Seq<Yaml>) -> bool {
    range_named_defined(reg, matched_names(reg.fields(), spec), parts)
}

/// The register in which the fields that bear one of the given names take only values of a
/// range; an error, with nothing changed, where there are none or the range is not one of
/// numbers.
pub open spec fn ranged_named(
    reg: RegisterView,
    names: Seq<Seq<char>>,
    pname: Seq<char>,
    spec: Seq<char>,
    parts: Seq<Yaml>,
) -> (RegisterView, Result<(), ErrorView>) {
    if named_indices(reg.fields(), names).len() == 0 {
        (
            reg,
            Err(
                ErrorView::FieldNotFound { peripheral: pname, register: reg.info.name, spec },
            ),
        )
    } else {
        match range_of(parts) {
            Err(e) => (reg, Err(e)),
            Ok(range) => (
                reg.with_fields(
                    reg.fields().map_values(
                        |f: FieldView|
                            if bears(f, names) {
                                constrained(f, Some(WriteConstraint::Range(range)))
                            } else {
                                f
                            },
                    ),
                ),
                Ok(()),
            ),
        }
    }
}

/// The register in which the fields that a specification picks out take only values of a range;
/// an error, with nothing changed, where there are none or the range is not one of numbers.
pub open spec fn ranged(
    reg: RegisterView,
    pname: Seq<char>,
    spec: Seq<char>,
    parts: Seq<Yaml>,
) -> (RegisterView, Result<(), ErrorView>) {
    ranged_named(reg, matched_names(reg.fields(), spec), pname, spec, parts)
}

/// Gives a range of values that may be written to the fields that bear one of the given names.
/// The specification that they come from is only reported.
pub fn range_named(
    reg: &mut Register,
    names: &Vec<String>,
    pname: &str,
    fspec: &str,
    fmod: &[Yaml],
) -> (r: PatchResult)
    requires
        range_named_defined(old(reg)@, texts(names@), fmod@),
    ensures
        (final(reg)@, outcome(r)) == ranged_named(
            old(reg)@,
            texts(names@),
            pname@,
            fspec@,
            fmod@,
        ),
{
    let found = find_named(reg, names);
    assert(positions(found@).len() == found@.len());
    if found.len() == 0 {
        return Err(
            PatchError::FieldNotFound {
                peripheral: pname.to_owned(),
                register: reg.info.name.clone(),
                spec: fspec.to_owned(),
            },
        );
    }
    let range = read_range(fmod)?;
    let ghost done = |f: FieldView|
        if bears(f, texts(names@)) {
            constrained(f, Some(WriteConstraint::Range(range)))
        } else {
            f
        };
    if let Some(fields) = &mut reg.info.fields {
        let ghost before = field_views(fields@);
        let n = fields.len();
        for i in 0..n
            invariant
                n == fields@.len(),
                n == before.len(),
                done == (|f: FieldView|
                    if bears(f, texts(names@)) {
                        constrained(f, Some(WriteConstraint::Range(range)))
                    } else {
                        f
                    }),
                forall|j: int|
                    0 <= j < n ==> #[trigger] fields@[j]@ == if j < i {
                        done(before[j])
                    } else {
                        before[j]
                    },
        {
            assert(fields@[i as int]@ == before[i as int]);
            if holds(names, &fields[i].info.name) {
                let f = &mut fields[i];
                f.info.write_constraint = Some(WriteConstraint::Range(range));
            }
        }
        assert(field_views(fields@) =~= before.map_values(done));
    }
    Ok(())
}

pub(crate) fn process_field_range(
    reg: &mut Register,
    pname: &str,
    fspec: &str,
    fmod: &[Yaml],
) -> (r: PatchResult)
    requires
        range_defined(old(reg)@, fspec@, fmod@),
    ensures
        (final(reg)@, outcome(r)) == ranged(old(reg)@, pname@, fspec@, fmod@),
{
    let names = names_in(reg, fspec);
    range_named(reg, &names, pname, fspec, fmod)
}

/// Decides whether a range for some fields can be read.
pub(crate) fn can_process_range(reg: &Register, fspec: &str, fmod: &[Yaml]) -> (r: bool)
    ensures
        r == range_defined(reg@, fspec@, fmod@),
{
    let names = names_in(reg, fspec);
    let found = find_named(reg, &names);
    assert(positions(found@).len() == found@.len());
    found.len() == 0 || bounds_readable(fmod)
}

} // verus!
