//! What holds of patterns that are more than plain names, and of the fields that they pick out.

use crate::error::ErrorView;
use crate::fields::{matched_indices, picks};
use crate::laws::names::lemma_one_piece;
use crate::matching::{
    closes, depth, glob_error, glob_matches, is_deep, is_edge, is_plain, is_plain_char, is_simple,
    is_star_at, level, name_matches, pattern_error, pattern_hits, pattern_matches, set_error,
    set_matches,
};
use crate::svd::FieldView;
use crate::text::comma_pieces;
use vstd::prelude::*;

verus! {

/// The positions of the fields that a specification picks out are in ascending order, and each
/// position is one of them if its field is picked out, and only then.
pub proof fn law_positions_of_picked(fields: Seq<FieldView>, spec: Seq<char>)
    ensures
        forall|i: int|
            #![trigger matched_indices(fields, spec).contains(i)]
            matched_indices(fields, spec).contains(i) <==> 0 <= i < fields.len() && picks(
                fields[i],
                spec,
            ),
        forall|a: int, b: int|
            #![trigger matched_indices(fields, spec)[a], matched_indices(fields, spec)[b]]
            0 <= a < b < matched_indices(fields, spec).len() ==> matched_indices(fields, spec)[a]
                < matched_indices(fields, spec)[b],
    decreases fields.len(),
{
    let all = matched_indices(fields, spec);
    if fields.len() > 0 {
        let shorter = fields.drop_last();
        let before = matched_indices(shorter, spec);
        let n = shorter.len() as int;
        law_positions_of_picked(shorter, spec);
        assert forall|i: int| #![trigger all.contains(i)]
            all.contains(i) <==> 0 <= i < fields.len() && picks(fields[i], spec) by {
            if all.contains(i) {
                let k = all.index_of(i);
                if k < before.len() {
                    assert(before[k] == i);
                    assert(before.contains(i));
                    assert(shorter[i] == fields[i]);
                }
            }
            if 0 <= i < fields.len() && picks(fields[i], spec) {
                if i < n {
                    assert(shorter[i] == fields[i]);
                    assert(before.contains(i));
                    let k = before.index_of(i);
                    assert(all[k] == i);
                } else {
                    assert(all[all.len() - 1] == i);
                }
            }
        }
        assert forall|a: int, b: int|
            #![trigger all[a], all[b]]
            0 <= a < b < all.len() implies all[a] < all[b] by {
            if b < before.len() {
                assert(before[a] < before[b]);
            } else {
                assert(before.contains(before[a]));
            }
        }
    }
}

/// The number of opening braces in a string.
pub open spec fn braces(s: Seq<char>) -> nat
    decreases s.len(),
{
    if s.len() == 0 {
        0
    } else {
        braces(s.drop_last()) + if s.last() == '{' {
            1nat
        } else {
            0nat
        }
    }
}

proof fn lemma_depth_of_braces(pattern: Seq<char>)
    ensures
        level(pattern) <= braces(pattern),
        depth(pattern) <= braces(pattern),
        level(pattern) <= depth(pattern),
    decreases pattern.len(),
{
    if pattern.len() > 0 {
        lemma_depth_of_braces(pattern.drop_last());
    }
}

proof fn lemma_depth_of_start(start: Seq<char>, rest: Seq<char>)
    ensures
        depth(start + rest) >= depth(start),
    decreases rest.len(),
{
    if rest.len() == 0 {
        assert(start + rest =~= start);
    } else {
        lemma_depth_of_start(start, rest.drop_last());
        assert((start + rest).drop_last() =~= start + rest.drop_last());
    }
}

proof fn lemma_level_of_braces(n: nat)
    ensures
        level(Seq::new(n, |i: int| '{')) == n,
    decreases n,
{
    let s = Seq::new(n, |i: int| '{');
    if n > 0 {
        let shorter = Seq::new((n - 1) as nat, |i: int| '{');
        assert(s.drop_last() =~= shorter);
        lemma_level_of_braces((n - 1) as nat);
    }
}

/// Whether a string has nothing in it by which a brace could stand for itself.
pub open spec fn braces_count(s: Seq<char>) -> bool {
    !s.contains('[') && !s.contains('\\')
}

/// Nothing is open in an empty pattern. Alternatives that are closed again count no more: behind
/// them as many are open as before them, and within them one more.
pub proof fn law_closed_alternatives(start: Seq<char>, middle: Seq<char>)
    requires
        braces_count(start),
        braces_count(middle),
        !middle.contains('{'),
        !middle.contains('}'),
    ensures
        level(Seq::empty()) == 0,
        depth(Seq::empty()) == 0,
        ({
            let all = start + seq!['{'] + middle + seq!['}'];
            &&& level(all) == level(start)
            &&& depth(all) == if level(start) + 1 > depth(start) {
                level(start) + 1
            } else {
                depth(start)
            }
        }),
{
    let opened = start + seq!['{'];
    let inner = opened + middle;
    let all = inner + seq!['}'];
    assert(opened.drop_last() =~= start);
    lemma_depth_of_braces(start);
    lemma_level_within(opened, middle);
    assert(all.drop_last() =~= inner);
    assert(all.last() == '}');
    assert(!all.contains('[')) by {
        if all.contains('[') {
            let i = all.index_of('[');
            if i < start.len() {
                assert(start[i] == '[');
            } else if start.len() < i < inner.len() {
                assert(middle[i - start.len() - 1] == '[');
            }
        }
    }
    assert(all[all.len() - 2] != '\\') by {
        let i = all.len() - 2;
        if middle.len() > 0 {
            assert(middle.contains(middle[middle.len() - 1]));
            assert(all[i] == middle[middle.len() - 1]);
        } else {
            assert(all[i] == '{');
        }
    }
    assert(closes(all));
}

proof fn lemma_level_within(opened: Seq<char>, middle: Seq<char>)
    requires
        !middle.contains('{'),
        !middle.contains('}'),
    ensures
        level(opened + middle) == level(opened),
        depth(opened + middle) == depth(opened),
    decreases middle.len(),
{
    lemma_depth_of_braces(opened);
    if middle.len() == 0 {
        assert(opened + middle =~= opened);
    } else {
        let shorter = middle.drop_last();
        let both = opened + middle;
        assert(both.drop_last() =~= opened + shorter);
        assert(both.last() == middle.last());
        assert(middle.contains(middle.last()));
        assert(!shorter.contains('{')) by {
            if shorter.contains('{') {
                assert(middle[shorter.index_of('{')] == '{');
            }
        }
        assert(!shorter.contains('}')) by {
            if shorter.contains('}') {
                assert(middle[shorter.index_of('}')] == '}');
            }
        }
        lemma_level_within(opened, shorter);
    }
}

/// No pattern with up to two hundred and fifty opening braces is nested too deeply. One in which
/// more of them stand one behind the other at the start is, and is refused for that.
pub proof fn law_deep_patterns(pattern: Seq<char>, n: nat, rest: Seq<char>)
    ensures
        braces(pattern) <= 250 ==> !is_deep(pattern),
        n > 250 ==> pattern_error(Seq::new(n, |i: int| '{') + rest) == Some(
            ErrorView::PatternTooDeep { pattern: Seq::new(n, |i: int| '{') + rest },
        ),
{
    lemma_depth_of_braces(pattern);
    if n > 250 {
        let start = Seq::new(n, |i: int| '{');
        let all = start + rest;
        lemma_level_of_braces(n);
        lemma_depth_of_braces(start);
        lemma_depth_of_start(start, rest);
        assert(all[0] == '{' && all[1] == '{');
        assert(!is_plain(all));
        assert(!is_star_at(all, 0));
        let k = all.len() - 1;
        assert(all.take(k)[0] == '{');
        assert(!is_plain(all.take(k)));
        assert(!is_star_at(all, k));
    }
}

proof fn lemma_edge_is_simple(pattern: Seq<char>)
    ensures
        is_edge(pattern) ==> is_simple(pattern),
{
    assert forall|k: int| #[trigger] is_star_at(pattern, k) implies pattern.index_of('*') == k by {
        let j = pattern.index_of('*');
        assert(pattern.contains('*'));
        if j < k {
            assert(pattern.take(k)[j] == '*');
        } else if j > k {
            assert(pattern.skip(k + 1)[j - k - 1] == '*');
        }
    }
    assert(is_star_at(pattern, 0) ==> pattern.index_of('*') == 0);
    let last = pattern.len() - 1;
    assert(is_star_at(pattern, last) ==> pattern.index_of('*') == last);
}

/// A pattern that is neither a plain name nor one with a single star is read as `globset` reads it.
/// Unless it is nested too deeply, one of up to two hundred characters is refused exactly where
/// `globset` refuses it, with its reason, and matches what `globset` says that it matches. A longer
/// one is refused as well where `globset` cannot hold a set of it with `?.x` behind it.
pub proof fn law_patterns_are_read(pattern: Seq<char>, name: Seq<char>)
    requires
        !is_simple(pattern),
        braces(pattern) <= 250,
    ensures
        pattern_matches(pattern, name) == glob_matches(pattern, name),
        pattern_error(pattern) == match glob_error(pattern) {
            Some(e) => Some(ErrorView::Glob(e)),
            None => if pattern.len() <= 200 {
                None
            } else {
                match set_error(pattern + seq!['?', '.', 'x']) {
                    Some(e) => Some(ErrorView::Glob(e)),
                    None => None,
                }
            },
        },
{
    lemma_depth_of_braces(pattern);
    lemma_edge_is_simple(pattern);
}

/// A specification without commas that does not begin with an underscore picks out the names that
/// match it as a pattern, and none if the pattern is refused.
pub proof fn law_pattern_picks_matches(name: Seq<char>, spec: Seq<char>)
    requires
        !spec.contains(','),
        spec.len() == 0 || spec[0] != '_',
    ensures
        name_matches(name, spec) <==> pattern_error(spec) is None && pattern_matches(spec, name),
{
    lemma_one_piece(spec);
    let pieces = comma_pieces(spec);
    assert(pieces[0] == spec);
    assert(pattern_hits(pieces[0], name) == (pattern_error(spec) is None && pattern_matches(
        spec,
        name,
    )));
}

/// A specification that does not begin with an underscore picks out the names that match one of its
/// pieces between commas, if that piece is not refused as a pattern, however many pieces there are.
pub proof fn law_pieces_pick_alone(name: Seq<char>, spec: Seq<char>)
    requires
        spec.len() == 0 || spec[0] != '_',
    ensures
        name_matches(name, spec) <==> exists|k: int| #[trigger] piece_picks(name, spec, k),
{
    if name_matches(name, spec) {
        let k = choose|k: int|
            0 <= k < comma_pieces(spec).len() && #[trigger] pattern_hits(
                comma_pieces(spec)[k],
                name,
            );
        assert(piece_picks(name, spec, k));
    }
    if exists|k: int| #[trigger] piece_picks(name, spec, k) {
        let k = choose|k: int| #[trigger] piece_picks(name, spec, k);
        assert(pattern_hits(comma_pieces(spec)[k], name));
    }
}

/// Whether the piece of a specification at a position is a pattern that is not refused and matches
/// a name.
pub open spec fn piece_picks(name: Seq<char>, spec: Seq<char>, k: int) -> bool {
    &&& 0 <= k < comma_pieces(spec).len()
    &&& pattern_error(comma_pieces(spec)[k]) is None
    &&& pattern_matches(comma_pieces(spec)[k], name)
}

proof fn lemma_simple_has_no_braces(pattern: Seq<char>)
    requires
        is_simple(pattern),
    ensures
        braces(pattern) == 0,
{
    assert forall|i: int| 0 <= i < pattern.len() implies #[trigger] pattern[i] != '{' by {
        if is_plain(pattern) {
            assert(is_plain_char(pattern[i]));
        } else {
            let k = pattern.index_of('*');
            if i < k {
                assert(pattern.take(k)[i] == pattern[i]);
            } else if i > k {
                assert(pattern.skip(k + 1)[i - k - 1] == pattern[i]);
            }
        }
    }
    lemma_no_braces(pattern);
}

proof fn lemma_no_braces(s: Seq<char>)
    requires
        forall|i: int| 0 <= i < s.len() ==> #[trigger] s[i] != '{',
    ensures
        braces(s) == 0,
    decreases s.len(),
{
    if s.len() > 0 {
        assert(s[s.len() - 1] != '{');
        lemma_no_braces(s.drop_last());
    }
}

/// A plain name, or one with a single star, is never refused if it has up to two hundred
/// characters, or if there is nothing on one side of the star and it is not too large. Any other
/// is refused exactly where `globset` cannot hold a set of it with `?.x` behind it.
pub proof fn law_simple_patterns_are_read(pattern: Seq<char>)
    requires
        is_simple(pattern),
    ensures
        pattern_error(pattern) == if pattern.len() <= 200 || is_edge(pattern) && pattern.len()
            <= 0x1000_0000 {
            None
        } else {
            match set_error(pattern + seq!['?', '.', 'x']) {
                Some(e) => Some(ErrorView::Glob(e)),
                None => None,
            }
        },
{
    lemma_simple_has_no_braces(pattern);
    lemma_depth_of_braces(pattern);
}

/// What a pattern says of a name with a backslash in it is left to `globset`: to its sets for a
/// long pattern with nothing on one side of its star, and to its single patterns for any other.
pub proof fn law_backslashes_are_left_alone(pattern: Seq<char>, name: Seq<char>)
    requires
        name.contains('\\'),
    ensures
        pattern_matches(pattern, name) == if 200 < pattern.len() <= 0x1000_0000 && is_edge(pattern) {
            set_matches(pattern, name)
        } else {
            glob_matches(pattern, name)
        },
{
}

} // verus!
