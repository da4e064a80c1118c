//! What holds of specifications and substrings without special characters.

use crate::edit::{
    deleted, end_can_be_stripped, end_pattern, end_stripped, renamed, start_can_be_stripped,
    start_pattern, start_stripped,
};
use crate::fields::picks;
use crate::laws::edits::{law_delete_keeps_order, lemma_names_like, lemma_same_filter};
use crate::laws::merging::lemma_boundary_after_text;
use crate::matching::{
    depth, is_plain, is_plain_char, is_small, is_star_at, level, lies_around, name_matches,
    pattern_error, pattern_hits, pattern_matches,
};
use crate::svd::{FieldView, RegisterView};
use crate::text::{begins_with, byte_len, byte_slice, can_slice, comma_pieces};
use vstd::prelude::*;
use vstd::utf8::encode_utf8;

verus! {

/// Whether a specification is a plain name: it has no special characters and no commas, and does
/// not begin with an underscore.
pub open spec fn is_name(spec: Seq<char>) -> bool {
    is_plain(spec) && !spec.contains(',') && !begins_with(spec, '_')
}

/// Whether a pattern with a star between two plain strings is accepted for certain: it has no more
/// than two hundred characters, or the star is its first or its last character.
pub open spec fn fits_around_star(start: Seq<char>, end: Seq<char>) -> bool {
    ||| start.len() + end.len() < 200
    ||| (start.len() == 0 || end.len() == 0) && start.len() + end.len() < 0x1000_0000
}

/// Whether no field has a backslash in its name.
pub open spec fn without_backslashes(fields: Seq<FieldView>) -> bool {
    forall|i: int| 0 <= i < fields.len() ==> !(#[trigger] fields[i]).info.name.contains('\\')
}

/// A pattern without braces is not nested.
proof fn lemma_not_nested(pattern: Seq<char>)
    requires
        !pattern.contains('{'),
    ensures
        level(pattern) == 0,
        depth(pattern) == 0,
    decreases pattern.len(),
{
    if pattern.len() > 0 {
        let shorter = pattern.drop_last();
        assert(pattern.contains(pattern.last()));
        assert(!shorter.contains('{')) by {
            if shorter.contains('{') {
                assert(pattern[shorter.index_of('{')] == '{');
            }
        }
        lemma_not_nested(shorter);
    }
}

/// A plain string is a pattern that matches itself.
proof fn lemma_plain_pattern(pattern: Seq<char>)
    requires
        is_plain(pattern),
    ensures
        is_small(pattern) ==> pattern_error(pattern) is None,
        forall|name: Seq<char>|
            !name.contains('\\') ==> #[trigger] pattern_matches(pattern, name) == (pattern == name),
        !pattern.contains('\\'),
{
    assert(!pattern.contains('{')) by {
        if pattern.contains('{') {
            assert(is_plain_char(pattern[pattern.index_of('{')]));
        }
    }
    assert(!pattern.contains('\\')) by {
        if pattern.contains('\\') {
            assert(is_plain_char(pattern[pattern.index_of('\\')]));
        }
    }
    lemma_not_nested(pattern);
}

/// A string without commas is one piece.
pub(crate) proof fn lemma_one_piece(s: Seq<char>)
    requires
        !s.contains(','),
    ensures
        comma_pieces(s) == seq![s],
    decreases s.len(),
{
    if s.len() > 0 {
        let rest = s.skip(1);
        assert(s[0] != ',') by {
            assert(s.contains(s[0]));
        }
        assert(!rest.contains(',')) by {
            if rest.contains(',') {
                let i = rest.index_of(',');
                assert(s[i + 1] == ',');
            }
        }
        lemma_one_piece(rest);
        assert(seq![s[0]] + rest =~= s);
        assert(comma_pieces(s) =~= seq![s]);
    } else {
        assert(s =~= Seq::<char>::empty());
    }
}

/// A name as a specification picks out just that name, of all names without backslashes.
pub proof fn law_name_picks_itself(name: Seq<char>, spec: Seq<char>)
    requires
        is_name(spec),
        is_small(spec),
        !name.contains('\\'),
    ensures
        name_matches(name, spec) <==> name == spec,
{
    lemma_one_piece(spec);
    lemma_plain_pattern(spec);
    assert(comma_pieces(spec)[0] == spec);
    if name == spec {
        assert(pattern_hits(comma_pieces(spec)[0], name));
    }
}

/// A name with a star in it picks out only names that begin with what stands before the star and
/// end with what stands behind it; unless it is too large, it picks out all of them.
pub proof fn law_star_picks_around(name: Seq<char>, start: Seq<char>, end: Seq<char>)
    requires
        is_name(start),
        is_plain(end),
        !end.contains(','),
        !name.contains('\\'),
    ensures
        name_matches(name, start + seq!['*'] + end) ==> lies_around(start, end, name),
        fits_around_star(start, end) && lies_around(start, end, name) ==> name_matches(
            name,
            start + seq!['*'] + end,
        ),
{
    let spec = start + seq!['*'] + end;
    let n = start.len() as int;
    assert(!spec.contains(',')) by {
        if spec.contains(',') {
            let i = spec.index_of(',');
            if i < n {
                assert(start[i] == ',');
            } else {
                assert(end[i - n - 1] == ',');
            }
        }
    }
    assert(!begins_with(spec, '_')) by {
        if n > 0 {
            assert(spec[0] == start[0]);
        }
    }
    lemma_one_piece(spec);
    lemma_star_pattern(start, end);
    assert(comma_pieces(spec)[0] == spec);
    if fits_around_star(start, end) && lies_around(start, end, name) {
        assert(pattern_hits(comma_pieces(spec)[0], name));
    }
}

/// Where no field has a backslash in its name, deleting by a name drops the fields of that name
/// and keeps the others in order.
pub proof fn law_delete_by_name(reg: RegisterView, name: Seq<char>)
    requires
        is_name(name),
        is_small(name),
        without_backslashes(reg.fields()),
    ensures
        deleted(reg, name).fields() == reg.fields().filter(|f: FieldView| f.info.name != name),
{
    let fields = reg.fields();
    let unpicked = |f: FieldView| !picks(f, name);
    let other = |f: FieldView| f.info.name != name;
    law_delete_keeps_order(reg, name);
    assert forall|i: int| 0 <= i < fields.len() implies unpicked(#[trigger] fields[i]) == other(
        fields[i],
    ) by {
        law_name_picks_itself(fields[i].info.name, name);
    }
    lemma_same_filter(fields, unpicked, other);
}

/// What a pattern with one star matches.
proof fn lemma_star_pattern(start: Seq<char>, end: Seq<char>)
    requires
        is_plain(start),
        is_plain(end),
    ensures
        fits_around_star(start, end) ==> pattern_error(start + seq!['*'] + end) is None,
        forall|name: Seq<char>|
            !name.contains('\\') ==> #[trigger] pattern_matches(start + seq!['*'] + end, name)
                == lies_around(start, end, name),
{
    let pattern = start + seq!['*'] + end;
    let n = start.len() as int;
    assert(pattern[n] == '*');
    assert(pattern.contains('*'));
    assert(!is_plain(pattern)) by {
        assert(!is_plain_char(pattern[n]));
    }
    let k = pattern.index_of('*');
    assert(pattern[k] == '*');
    if k < n {
        assert(is_plain_char(start[k]));
    }
    if k > n {
        assert(is_plain_char(end[k - n - 1]));
    }
    assert(pattern.take(n) =~= start);
    assert(pattern.skip(n + 1) =~= end);
    assert(is_star_at(pattern, n));
    assert(!pattern.contains('{')) by {
        if pattern.contains('{') {
            let i = pattern.index_of('{');
            if i < n {
                assert(is_plain_char(start[i]));
            } else {
                assert(is_plain_char(end[i - n - 1]));
            }
        }
    }
    lemma_not_nested(pattern);
}

proof fn lemma_start_pattern(substr: Seq<char>)
    requires
        is_plain(substr),
        substr.len() < 0x1000_0000,
    ensures
        pattern_error(start_pattern(substr)) is None,
        forall|name: Seq<char>|
            !name.contains('\\') ==> #[trigger] pattern_matches(start_pattern(substr), name)
                == substr.is_prefix_of(name),
{
    let none = Seq::<char>::empty();
    lemma_star_pattern(substr, none);
    assert(start_pattern(substr) =~= substr + seq!['*'] + none);
    assert forall|name: Seq<char>| none.is_suffix_of(name) by {
        assert(name.subrange(name.len() as int, name.len() as int) =~= none);
    }
}

proof fn lemma_end_pattern(substr: Seq<char>)
    requires
        is_plain(substr),
        substr.len() < 0x1000_0000,
    ensures
        pattern_error(end_pattern(substr)) is None,
        forall|name: Seq<char>|
            !name.contains('\\') ==> #[trigger] pattern_matches(end_pattern(substr), name)
                == substr.is_suffix_of(name),
{
    let none = Seq::<char>::empty();
    lemma_star_pattern(none, substr);
    assert(end_pattern(substr) =~= none + seq!['*'] + substr);
    assert forall|name: Seq<char>| none.is_prefix_of(name) by {
        assert(name.subrange(0, 0) =~= none);
    }
}

/// The bytes of two strings one behind the other are the bytes of both.
pub(crate) proof fn lemma_bytes_of_both(a: Seq<char>, b: Seq<char>)
    ensures
        encode_utf8(a + b) == encode_utf8(a) + encode_utf8(b),
    decreases a.len(),
{
    let both = a + b;
    if a.len() == 0 {
        assert(both =~= b);
        assert(encode_utf8(a) + encode_utf8(b) =~= encode_utf8(b));
    } else {
        assert(both.drop_first() =~= a.drop_first() + b);
        assert(both[0] == a[0]);
        lemma_bytes_of_both(a.drop_first(), b);
        assert(encode_utf8(both) =~= encode_utf8(a) + encode_utf8(b));
    }
}

/// A string can be cut between two strings that it is made of, which gives back both.
pub(crate) proof fn lemma_cut_between(a: Seq<char>, b: Seq<char>)
    ensures
        can_slice(a + b, 0, byte_len(a)),
        can_slice(a + b, byte_len(a), byte_len(a + b)),
        byte_slice(a + b, 0, byte_len(a)) == a,
        byte_slice(a + b, byte_len(a), byte_len(a + b)) == b,
        byte_len(a + b) == byte_len(a) + byte_len(b),
{
    broadcast use vstd::utf8::encode_utf8_valid_utf8, vstd::utf8::encode_utf8_decode_utf8;

    lemma_bytes_of_both(a, b);
    let bytes = encode_utf8(a + b);
    let n = byte_len(a);
    assert(bytes.subrange(0, n) =~= encode_utf8(a));
    assert(bytes.subrange(n, bytes.len() as int) =~= encode_utf8(b));
    lemma_boundary_after_text(bytes, n);
    vstd::utf8::is_char_boundary_start_end_of_seq(bytes);
}

/// A substring without special characters can always be stripped from the start of names without
/// backslashes. It goes from exactly those names that begin with it, and what is left is the rest
/// of the name.
pub proof fn law_strip_plain_start(reg: RegisterView, substr: Seq<char>, i: int)
    requires
        is_plain(substr),
        substr.len() < 0x1000_0000,
        without_backslashes(reg.fields()),
        0 <= i < reg.fields().len(),
    ensures
        start_can_be_stripped(reg, substr),
        start_stripped(reg, substr).1 is Ok,
        start_stripped(reg, substr).0.fields().len() == reg.fields().len(),
        ({
            let before = reg.fields()[i];
            let after = start_stripped(reg, substr).0.fields()[i];
            &&& after == renamed(before, after.info.name)
            &&& substr.is_prefix_of(before.info.name) ==> before.info.name == substr
                + after.info.name
            &&& !substr.is_prefix_of(before.info.name) ==> after == before
        }),
{
    let fields = reg.fields();
    lemma_start_pattern(substr);
    lemma_names_like(fields, start_pattern(substr));
    assert forall|j: int| 0 <= j < fields.len() && substr.is_prefix_of(
        (#[trigger] fields[j]).info.name,
    ) implies can_slice(fields[j].info.name, byte_len(substr), byte_len(fields[j].info.name)) by {
        let name = fields[j].info.name;
        assert(name =~= substr + name.skip(substr.len() as int));
        lemma_cut_between(substr, name.skip(substr.len() as int));
    }
    let before = fields[i];
    assert(renamed(before, before.info.name) =~= before);
    if substr.is_prefix_of(before.info.name) {
        let rest = before.info.name.skip(substr.len() as int);
        assert(before.info.name =~= substr + rest);
        lemma_cut_between(substr, rest);
    }
}

/// A substring without special characters can always be stripped from the end of names without
/// backslashes. It goes from exactly those names that end with it, and what is left is the rest of
/// the name.
pub proof fn law_strip_plain_end(reg: RegisterView, substr: Seq<char>, i: int)
    requires
        is_plain(substr),
        substr.len() < 0x1000_0000,
        without_backslashes(reg.fields()),
        0 <= i < reg.fields().len(),
    ensures
        end_can_be_stripped(reg, substr),
        end_stripped(reg, substr).1 is Ok,
        end_stripped(reg, substr).0.fields().len() == reg.fields().len(),
        ({
            let before = reg.fields()[i];
            let after = end_stripped(reg, substr).0.fields()[i];
            &&& after == renamed(before, after.info.name)
            &&& substr.is_suffix_of(before.info.name) ==> before.info.name == after.info.name
                + substr
            &&& !substr.is_suffix_of(before.info.name) ==> after == before
        }),
{
    let fields = reg.fields();
    lemma_end_pattern(substr);
    lemma_names_like(fields, end_pattern(substr));
    assert forall|j: int| 0 <= j < fields.len() && substr.is_suffix_of(
        (#[trigger] fields[j]).info.name,
    ) implies can_slice(
        fields[j].info.name,
        0,
        byte_len(fields[j].info.name) - byte_len(substr),
    ) by {
        let name = fields[j].info.name;
        assert(name =~= name.take(name.len() - substr.len()) + substr);
        lemma_cut_between(name.take(name.len() - substr.len()), substr);
    }
    let before = fields[i];
    assert(renamed(before, before.info.name) =~= before);
    if substr.is_suffix_of(before.info.name) {
        let rest = before.info.name.take(before.info.name.len() - substr.len());
        assert(before.info.name =~= rest + substr);
        lemma_cut_between(rest, substr);
    }
}

} // verus!
