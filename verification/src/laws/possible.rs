//! What holds of when a step can be carried out, and of registers that do not list their fields.

use crate::collect::{collect_defined, collected, collects, has_index};
use crate::edit::{
    added, cleared, deleted, end_can_be_stripped, end_stripped, modified_fields, modify_defined,
    names_like, range_defined, ranged, start_can_be_stripped, start_stripped,
};
use crate::enums::{copies, enum_defined, enumerated, field_processed, process_field_defined};
use crate::error::ErrorView;
use crate::fields::{
    bears, lemma_matched_names, lemma_named_indices, matched_names, named_indices, picks,
    update_named,
};
use crate::laws::arrays::is_single;
use crate::laws::edits::lemma_names_like;
use crate::laws::merging::{is_merge_value, is_part, law_shared_bytes_are_most, lemma_parts};
use crate::laws::parts::constraint_asked;
use crate::laws::sets::taken_from;
use crate::laws::texts::law_cut_out;
use crate::matching::{affixes, pattern_error, pattern_matches};
use crate::merge::{merge_defined, merged, shared_bytes, total_width};
use crate::split::{split, split_defined, split_texts};
use crate::svd::{FieldView, RegisterView, Usage};
use crate::text::{byte_len, can_slice};
use crate::yaml::{lookup, lookup_text, Yaml};
use vstd::prelude::*;
use vstd::utf8::{encode_utf8, is_ascii_chars};

verus! {

/// Whether a specification picks out a field of a list.
pub open spec fn picks_some(fields: Seq<FieldView>, spec: Seq<char>) -> bool {
    exists|i: int| 0 <= i < fields.len() && picks(#[trigger] fields[i], spec)
}

pub(crate) proof fn lemma_some_named(fields: Seq<FieldView>, spec: Seq<char>)
    ensures
        named_indices(fields, matched_names(fields, spec)).len() > 0 <==> picks_some(fields, spec),
{
    let names = matched_names(fields, spec);
    let found = named_indices(fields, names);
    lemma_matched_names(fields, spec);
    lemma_named_indices(fields, names);
    if found.len() > 0 {
        let i = found[0];
        assert(bears(fields[i], names));
        assert(picks(fields[i], spec));
    }
    if picks_some(fields, spec) {
        let i = choose|i: int| 0 <= i < fields.len() && picks(#[trigger] fields[i], spec);
        assert(bears(fields[i], names));
        assert(found.contains(i));
    }
}

/// Whether a list has two items, or one that is no number, which is noticed before the second is
/// needed.
pub open spec fn has_bounds(parts: Seq<Yaml>) -> bool {
    parts.len() >= 2 || parts.len() == 1 && parts[0] !is Integer
}

/// A modification can be carried out unless it is meant for some field and asks for a range by a
/// list that is too short. The same holds of a range.
pub proof fn law_when_fields_can_be_modified(
    reg: RegisterView,
    spec: Seq<char>,
    entries: Seq<(Yaml, Yaml)>,
    parts: Seq<Yaml>,
)
    ensures
        modify_defined(reg, spec, entries) <==> (picks_some(reg.fields(), spec) ==> (
        constraint_asked(entries) matches Some(Yaml::Array(a)) ==> has_bounds(a@))),
        range_defined(reg, spec, parts) <==> (picks_some(reg.fields(), spec) ==> has_bounds(parts)),
{
    lemma_some_named(reg.fields(), spec);
}

/// The start of names can be stripped unless a name that matches has no place to be cut at; so can
/// the end of names.
pub proof fn law_when_names_can_be_stripped(reg: RegisterView, substr: Seq<char>)
    ensures
        start_can_be_stripped(reg, substr) <==> (pattern_error(substr + seq!['*']) is None
            ==> forall|i: int|
            0 <= i < reg.fields().len() && pattern_matches(
                substr + seq!['*'],
                (#[trigger] reg.fields()[i]).info.name,
            ) ==> can_slice(
                reg.fields()[i].info.name,
                byte_len(substr),
                byte_len(reg.fields()[i].info.name),
            )),
        end_can_be_stripped(reg, substr) <==> (pattern_error(seq!['*'] + substr) is None
            ==> forall|i: int|
            0 <= i < reg.fields().len() && pattern_matches(
                seq!['*'] + substr,
                (#[trigger] reg.fields()[i]).info.name,
            ) ==> can_slice(
                reg.fields()[i].info.name,
                0,
                byte_len(reg.fields()[i].info.name) - byte_len(substr),
            )),
{
    let fields = reg.fields();
    let start = substr + seq!['*'];
    let end = seq!['*'] + substr;
    lemma_bearing_is_matching(fields, start);
    lemma_bearing_is_matching(fields, end);
}

proof fn lemma_bearing_is_matching(fields: Seq<FieldView>, pattern: Seq<char>)
    ensures
        forall|i: int|
            0 <= i < fields.len() ==> bears(#[trigger] fields[i], names_like(fields, pattern))
                == pattern_matches(pattern, fields[i].info.name),
{
    lemma_names_like(fields, pattern);
}

/// Names are stripped exactly where the pattern is not refused: the string with a star behind it
/// for the start of names, and with a star in front of it for the end. The answer is then why the
/// pattern is refused.
pub proof fn law_when_stripping_goes_well(reg: RegisterView, substr: Seq<char>)
    ensures
        match pattern_error(substr + seq!['*']) {
            None => start_stripped(reg, substr).1 is Ok,
            Some(e) => start_stripped(reg, substr) == (reg, Err::<(), ErrorView>(e)),
        },
        match pattern_error(seq!['*'] + substr) {
            None => end_stripped(reg, substr).1 is Ok,
            Some(e) => end_stripped(reg, substr) == (reg, Err::<(), ErrorView>(e)),
        },
{
}

proof fn lemma_ascii_boundaries(s: Seq<char>, n: int)
    requires
        is_ascii_chars(s),
        0 <= n <= byte_len(s),
    ensures
        vstd::utf8::is_char_boundary(encode_utf8(s), n),
{
    vstd::utf8::is_ascii_chars_encode_utf8(s);
    let start = s.take(n);
    let end = s.skip(n);
    assert(s =~= start + end + Seq::<char>::empty());
    vstd::utf8::is_ascii_chars_encode_utf8(start);
    law_cut_out(start, end, Seq::empty());
}

/// A merge by a specification or a list of them can be carried out unless the fields are together
/// wider than any field can be. A merge by its key alone needs the start that the names share as
/// well, which is always there for names of plain letters.
pub proof fn law_when_fields_can_be_merged(reg: RegisterView, key: Seq<char>, value: Option<Yaml>)
    ensures
        ({
            let parts = reg.fields().filter(|f: FieldView| is_part(f, key, value));
            &&& value is Some ==> (merge_defined(reg, key, value) <==> (is_merge_value(value)
                ==> total_width(parts) <= u32::MAX))
            &&& merge_defined(reg, key, None) ==> total_width(
                reg.fields().filter(|f: FieldView| is_part(f, key, None)),
            ) <= u32::MAX
            &&& total_width(reg.fields().filter(|f: FieldView| is_part(f, key, None))) <= u32::MAX
                && (forall|i: int|
                0 <= i < reg.fields().len() ==> is_ascii_chars(
                    (#[trigger] reg.fields()[i]).info.name,
                )) ==> merge_defined(reg, key, None)
        }),
{
    let fields = reg.fields();
    lemma_parts(reg, key, value);
    lemma_parts(reg, key, None);
    let names = matched_names(fields, key);
    if names.len() > 0 && (forall|i: int|
        0 <= i < fields.len() ==> is_ascii_chars((#[trigger] fields[i]).info.name)) {
        crate::fields::lemma_matched_indices(fields, key);
        let j = crate::fields::matched_indices(fields, key)[0];
        assert(fields[j].info.name == names[0]);
        law_shared_bytes_are_most(names, 0);
        law_shared_bytes_are_most(names, shared_bytes(names));
        assert(crate::laws::merging::agree_on(names, shared_bytes(names)));
        assert(shared_bytes(names) <= encode_utf8(names[0]).len());
        lemma_ascii_boundaries(names[0], shared_bytes(names));
    }
}

/// A split can be carried out exactly where the texts to use cannot be read, or each bit of each
/// field to split has a position.
pub proof fn law_when_fields_can_be_split(
    reg: RegisterView,
    spec: Seq<char>,
    entries: Seq<(Yaml, Yaml)>,
)
    ensures
        split_defined(reg, spec, entries) <==> {
            ||| lookup_text(entries, "name"@) is Err
            ||| lookup_text(entries, "description"@) is Err
            ||| forall|i: int|
                0 <= i < reg.fields().len() && picks(#[trigger] reg.fields()[i], spec)
                    ==> reg.fields()[i].info.bit_range.offset
                    + reg.fields()[i].info.bit_range.width <= 0x1_0000_0000
        },
{
    let fields = reg.fields();
    let names = matched_names(fields, spec);
    lemma_matched_names(fields, spec);
    assert forall|i: int| 0 <= i < fields.len() implies bears(#[trigger] fields[i], names) == picks(
        fields[i],
        spec,
    ) by {}
    assert forall|i: int| 0 <= i < fields.len() implies (split_texts(
        (#[trigger] fields[i]).info,
        entries,
    ) is Ok <==> lookup_text(entries, "name"@) is Ok && lookup_text(entries, "description"@) is Ok) by {}
}

/// Fields can be collected exactly where the elements are to be numbered, or each name has a part
/// that can be cut out in the place of what varies in the specification.
pub proof fn law_when_fields_can_be_collected(
    reg: RegisterView,
    spec: Seq<char>,
    entries: Seq<(Yaml, Yaml)>,
)
    ensures
        collect_defined(reg, spec, entries) <==> {
            ||| lookup(entries, "_start_from_zero"@) is Some
            ||| forall|i: int|
                0 <= i < reg.fields().len() && is_single(#[trigger] reg.fields()[i], spec)
                    ==> can_slice(
                    reg.fields()[i].info.name,
                    byte_len(affixes(spec).0),
                    byte_len(reg.fields()[i].info.name) - byte_len(affixes(spec).1),
                )
        },
{
    let fields = reg.fields();
    let names = matched_names(fields, spec);
    lemma_matched_names(fields, spec);
    assert forall|i: int| 0 <= i < fields.len() implies collects(#[trigger] fields[i], names)
        == is_single(fields[i], spec) by {}
    assert forall|i: int| 0 <= i < fields.len() implies has_index(
        (#[trigger] fields[i]).info.name,
        spec,
    ) == can_slice(
        fields[i].info.name,
        byte_len(affixes(spec).0),
        byte_len(fields[i].info.name) - byte_len(affixes(spec).1),
    ) by {}
}

/// Whether a mapping asks for copies of values.
pub open spec fn asks_for_copies(entries: Seq<(Yaml, Yaml)>) -> bool {
    &&& lookup(entries, "_replace_enum"@) matches Some(v) ==> v is Hash
    &&& lookup(taken_from(entries).0, "_derivedFrom"@) matches Some(Yaml::String(_))
}

/// Values can always be given in a register that lists its fields, and in others as long as no
/// copies are asked for.
pub proof fn law_when_values_can_be_given(
    reg: RegisterView,
    entries: Seq<(Yaml, Yaml)>,
    fmod: Yaml,
)
    ensures
        enum_defined(reg, entries) <==> reg.info.fields is Some || !asks_for_copies(entries),
        reg.info.fields is Some ==> process_field_defined(reg, fmod),
        reg.info.fields is None ==> (process_field_defined(reg, fmod) <==> match fmod {
            Yaml::Hash(h) => match (lookup(h.entries@, "_read"@), lookup(h.entries@, "_write"@)) {
                (None, None) => !asks_for_copies(h.entries@),
                (Some(Yaml::Hash(r)), None) => !asks_for_copies(r.entries@),
                (Some(Yaml::Hash(r)), Some(Yaml::Hash(_))) => !asks_for_copies(r.entries@),
                (None, Some(Yaml::Hash(w))) => !asks_for_copies(w.entries@),
                _ => true,
            },
            _ => true,
        }),
{
    assert(copies(entries) == asks_for_copies(entries));
    if let Yaml::Hash(h) = fmod {
        assert(copies(h.entries@) == asks_for_copies(h.entries@));
        if let Some(Yaml::Hash(r)) = lookup(h.entries@, "_read"@) {
            assert(copies(r.entries@) == asks_for_copies(r.entries@));
        }
        if let Some(Yaml::Hash(w)) = lookup(h.entries@, "_write"@) {
            assert(copies(w.entries@) == asks_for_copies(w.entries@));
        }
    }
}

/// A register that does not list its fields stays as it is, whatever is done to it, unless a field
/// is added, which makes a list of that field.
pub proof fn law_no_list_no_change(
    reg: RegisterView,
    spec: Seq<char>,
    entries: Seq<(Yaml, Yaml)>,
    parts: Seq<Yaml>,
    value: Option<Yaml>,
    fmod: Yaml,
    pname: Seq<char>,
    usage: Usage,
)
    requires
        reg.info.fields is None,
    ensures
        deleted(reg, spec) == reg,
        cleared(reg, spec) == reg,
        modified_fields(reg, spec, entries) == (reg, Ok::<(), ErrorView>(())),
        start_stripped(reg, spec).0 == reg,
        end_stripped(reg, spec).0 == reg,
        merged(reg, spec, value).0 == reg,
        merged(reg, spec, value).1 is Err,
        split(reg, spec, entries).0 == reg,
        split(reg, spec, entries).1 is Err,
        ranged(reg, pname, spec, parts).0 == reg,
        ranged(reg, pname, spec, parts).1 is Err,
        enumerated(reg, pname, spec, entries, usage).0 == reg,
        field_processed(reg, pname, spec, fmod).0 == reg,
        collected(reg, spec, entries) == (reg, Ok::<(), ErrorView>(())),
        added(reg, spec, entries).1 is Ok ==> (added(reg, spec, entries).0.info.fields matches Some(
            list,
        ) && list.len() == 1),
{
    let fields = reg.fields();
    let names = matched_names(fields, spec);
    assert(fields.len() == 0);
    assert(names.len() == 0);
    crate::merge::lemma_no_names(reg, spec, value);
    assert(crate::fields::named(fields, names).len() == 0) by {
        reveal(Seq::filter);
    }
    assert(update_named(
        fields,
        names,
        |f: FieldView| crate::edit::changed(f, entries),
    ).1 is Ok);
}

} // verus!
