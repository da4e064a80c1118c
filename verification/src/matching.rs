//! Specifications: comma-separated patterns that pick out fields by name.

use crate::error::{ErrorView, PatchError};
use crate::text::{begins_with, characters, comma_pieces, split_commas, starts_with, texts};
use vstd::prelude::*;

verus! {

/// Whether a character stands for itself, and for nothing else, wherever it occurs in a pattern.
pub open spec fn is_plain_char(c: char) -> bool {
    c != '*' && c != '?' && c != '[' && c != '{' && c != '}' && c != '\\'
}

/// Whether every character of a string stands for itself in a pattern.
pub open spec fn is_plain(s: Seq<char>) -> bool {
    forall|i: int| 0 <= i < s.len() ==> is_plain_char(#[trigger] s[i])
}

/// Whether a pattern is a plain string with one star in it, at a position.
pub open spec fn is_star_at(pattern: Seq<char>, k: int) -> bool {
    &&& 0 <= k < pattern.len()
    &&& pattern[k] == '*'
    &&& is_plain(pattern.take(k))
    &&& is_plain(pattern.skip(k + 1))
}

/// Whether a pattern is of a simple form: a plain string, or one with one star in it.
pub open spec fn is_simple(pattern: Seq<char>) -> bool {
    is_plain(pattern) || is_star_at(pattern, pattern.index_of('*'))
}

/// Whether a pattern is a plain string, or one with a star in front of it or behind it.
pub open spec fn is_edge(pattern: Seq<char>) -> bool {
    is_plain(pattern) || is_star_at(pattern, 0) || is_star_at(pattern, pattern.len() - 1)
}

/// Whether a name begins with one string and ends with another, which do not overlap in it.
pub open spec fn lies_around(start: Seq<char>, end: Seq<char>, name: Seq<char>) -> bool {
    &&& start.len() + end.len() <= name.len()
    &&& start.is_prefix_of(name)
    &&& end.is_suffix_of(name)
}

/// What a pattern of a simple form says of a name: a plain string matches itself, and one with a
/// star in it matches the names that begin with what stands before the star and end with what
/// stands behind it. Of other patterns nothing is said, and neither is it of names with a
/// backslash, which separates paths on some systems.
pub open spec fn simple_match(pattern: Seq<char>, name: Seq<char>) -> Option<bool> {
    let k = pattern.index_of('*');
    if !is_simple(pattern) || name.contains('\\') {
        None
    } else if is_plain(pattern) {
        Some(pattern == name)
    } else {
        Some(lies_around(pattern.take(k), pattern.skip(k + 1), name))
    }
}

/// Whether the brace that a string ends with closes alternatives for certain: it is not escaped,
/// and there is no bracket before it that could make it a member of a class.
pub open spec fn closes(s: Seq<char>) -> bool {
    &&& s.last() == '}'
    &&& s.len() < 2 || s[s.len() - 2] != '\\'
    &&& !s.contains('[')
}

/// The number of alternatives that may be open at the end of a string.
pub open spec fn level(s: Seq<char>) -> nat
    decreases s.len(),
{
    if s.len() == 0 {
        0
    } else {
        let before = level(s.drop_last());
        if s.last() == '{' {
            before + 1
        } else if closes(s) && before > 0 {
            (before - 1) as nat
        } else {
            before
        }
    }
}

/// The number of alternatives in a pattern that may stand one within the other.
pub open spec fn depth(pattern: Seq<char>) -> nat
    decreases pattern.len(),
{
    if pattern.len() == 0 {
        0
    } else {
        let before = depth(pattern.drop_last());
        if level(pattern) > before {
            level(pattern)
        } else {
            before
        }
    }
}

/// Whether a pattern is nested too deeply to be read.
pub open spec fn is_deep(pattern: Seq<char>) -> bool {
    depth(pattern) > 250
}

/// Whether a pattern has no more than two hundred characters.
pub open spec fn is_short(pattern: Seq<char>) -> bool {
    pattern.len() <= 200
}

/// Whether a string has no more than 0x1000_0000 characters.
pub open spec fn is_small(s: Seq<char>) -> bool {
    s.len() <= 0x1000_0000
}

/// Whether a pattern is compared as it is: a long one that is a plain string, or one with a star
/// in front of it or behind it.
pub open spec fn is_compared(pattern: Seq<char>) -> bool {
    !is_short(pattern) && is_edge(pattern) && is_small(pattern)
}

/// A pattern with a little more to match at its end.
pub open spec fn extended(pattern: Seq<char>) -> Seq<char> {
    pattern + seq!['?', '.', 'x']
}

/// Why `globset::Glob::new` refuses a pattern, if it does.
pub uninterp spec fn glob_error(pattern: Seq<char>) -> Option<globset::Error>;

/// Whether the `globset::GlobMatcher` of a pattern matches a string.
pub uninterp spec fn glob_matches(pattern: Seq<char>, name: Seq<char>) -> bool;

/// Why `globset::GlobSetBuilder::build` refuses a set of one pattern, if it does.
pub uninterp spec fn set_error(pattern: Seq<char>) -> Option<globset::Error>;

/// Whether the `globset::GlobSet` of one pattern matches a string.
pub uninterp spec fn set_matches(pattern: Seq<char>, name: Seq<char>) -> bool;

/// Why a pattern cannot be read, if it cannot. Patterns of a simple form always can.
pub open spec fn syntax_error(pattern: Seq<char>) -> Option<globset::Error> {
    if is_simple(pattern) {
        None
    } else {
        glob_error(pattern)
    }
}

/// Why a pattern is refused, if it is: it is nested too deeply, it cannot be read, or it is too
/// large. No short pattern of a simple form is, and none that is compared as it is.
pub open spec fn pattern_error(pattern: Seq<char>) -> Option<ErrorView> {
    if is_compared(pattern) {
        None
    } else if is_deep(pattern) {
        Some(ErrorView::PatternTooDeep { pattern })
    } else if let Some(e) = syntax_error(pattern) {
        Some(ErrorView::Glob(e))
    } else if is_short(pattern) {
        None
    } else if let Some(e) = set_error(extended(pattern)) {
        Some(ErrorView::Glob(e))
    } else {
        None
    }
}

/// Whether a string as a whole matches a pattern.
pub open spec fn pattern_matches(pattern: Seq<char>, name: Seq<char>) -> bool {
    match simple_match(pattern, name) {
        Some(answer) => answer,
        None => if is_compared(pattern) {
            set_matches(pattern, name)
        } else {
            glob_matches(pattern, name)
        },
    }
}

/// Reads a pattern with `globset::Glob::new`.
///
/// Claimed: a pattern of a simple form is accepted; whether and why another one is refused
/// depends on the pattern alone. `Glob::new` calls itself once for each level of alternatives, so
/// that it needs a bound on these. The syntax of patterns is otherwise left to `globset`.
#[verifier::external_body]
fn read_glob(pattern: &str) -> (r: Result<(), globset::Error>)
    requires
        !is_deep(pattern@),
    ensures
        match r {
            Ok(_) => is_simple(pattern@) || glob_error(pattern@) is None,
            Err(e) => !is_simple(pattern@) && glob_error(pattern@) == Some(e),
        },
{
    globset::Glob::new(pattern).map(|_| ())
}

/// Compiles a set of one pattern with `globset::GlobSetBuilder::build`.
///
/// Claimed: whether and why the set is refused depends on the pattern alone.
#[verifier::external_body]
fn build_set(pattern: &str) -> (r: Result<(), globset::Error>)
    requires
        !is_deep(pattern@),
    ensures
        match r {
            Ok(_) => set_error(pattern@) is None,
            Err(e) => set_error(pattern@) == Some(e),
        },
{
    globset::GlobSet::builder().add(globset::Glob::new(pattern)?).build().map(|_| ())
}

/// Matches a string against a pattern with `globset::Glob::compile_matcher` and
/// `GlobMatcher::is_match`.
///
/// Claimed: a pattern of a simple form matches as [`simple_match`] says; what another one matches
/// depends on the pattern and the string alone, and is left to `globset`. What backslashes mean
/// depends on the system that `globset` is built for: nothing is said of them but the name.
///
/// `compile_matcher` panics where `globset` cannot compile the regular expression for the
/// pattern: where it takes ten megabytes, or is nested in two hundred and fifty levels. Two
/// hundred characters do not suffice for either. Of a longer pattern it is known beforehand: a
/// set of the pattern with `?.x` at its end is found by the extension `.x`, for which `globset`
/// compiles the regular expression of the whole in the same way as here, and that one holds the
/// regular expression of the pattern. Where the set is accepted, the pattern is.
#[verifier::external_body]
fn match_glob(pattern: &str, name: &str) -> (r: bool)
    requires
        !is_deep(pattern@),
        syntax_error(pattern@) is None,
        is_short(pattern@) || set_error(extended(pattern@)) is None,
    ensures
        r == match simple_match(pattern@, name@) {
            Some(answer) => answer,
            None => glob_matches(pattern@, name@),
        },
{
    match globset::Glob::new(pattern) {
        Ok(glob) => glob.compile_matcher().is_match(name),
        Err(_) => false,
    }
}

/// Matches a string against a pattern with `globset::GlobSet::is_match`.
///
/// Claimed: the pattern matches as [`simple_match`] says; what it says of a name with a backslash
/// depends on the pattern and the name alone. `globset` has no regular expression for a plain
/// string, nor for one with a star in front of it or behind it, but compares it with the name, or
/// with its start or its end; it does so for strings of less than two gigabytes.
#[verifier::external_body]
fn match_set(pattern: &str, name: &str) -> (r: bool)
    requires
        is_compared(pattern@),
    ensures
        r == match simple_match(pattern@, name@) {
            Some(answer) => answer,
            None => set_matches(pattern@, name@),
        },
{
    let glob = globset::Glob::new(pattern);
    match glob.and_then(|glob| globset::GlobSet::builder().add(glob).build()) {
        Ok(set) => set.is_match(name),
        Err(_) => false,
    }
}

/// Decides whether the characters between two positions are plain.
fn plain_between(s: &Vec<char>, from: usize, to: usize) -> (r: bool)
    requires
        from <= to <= s@.len(),
    ensures
        r == is_plain(s@.subrange(from as int, to as int)),
{
    let ghost part = s@.subrange(from as int, to as int);
    for i in from..to
        invariant
            to <= s@.len(),
            part == s@.subrange(from as int, to as int),
            forall|j: int| 0 <= j < i - from ==> is_plain_char(#[trigger] part[j]),
    {
        let c = s[i];
        assert(part[i - from] == c);
        if c == '*' || c == '?' || c == '[' || c == '{' || c == '}' || c == '\\' {
            return false;
        }
    }
    true
}

/// Decides whether a pattern is compared as it is.
fn compares(pattern: &str) -> (r: bool)
    ensures
        r == is_compared(pattern@),
{
    let chars = characters(pattern);
    let n = chars.len();
    if n <= 200 || n > 0x1000_0000 {
        return false;
    }
    assert(pattern@.subrange(0, n as int) =~= pattern@);
    assert(pattern@.subrange(1, n as int) =~= pattern@.skip(1));
    assert(pattern@.subrange(0, n - 1) =~= pattern@.take(n - 1));
    assert(is_plain(pattern@.take(0)));
    assert(is_plain(pattern@.skip(n as int)));
    plain_between(&chars, 0, n) || (chars[0] == '*' && plain_between(&chars, 1, n)) || (chars[n - 1]
        == '*' && plain_between(&chars, 0, n - 1))
}

/// Measures how deeply a pattern is nested.
fn measure_depth(pattern: &str) -> (r: usize)
    ensures
        r == depth(pattern@),
{
    let chars = characters(pattern);
    let n = chars.len();
    let mut open: usize = 0;
    let mut deepest: usize = 0;
    let mut bracket = false;
    let mut escape = false;
    for i in 0..n
        invariant
            n == pattern@.len(),
            chars@ == pattern@,
            open <= i,
            open == level(pattern@.take(i as int)),
            deepest <= i,
            deepest == depth(pattern@.take(i as int)),
            bracket == pattern@.take(i as int).contains('['),
            escape == (i > 0 && pattern@[i - 1] == '\\'),
    {
        let c = chars[i];
        let ghost now = pattern@.take(i + 1);
        let ghost before = pattern@.take(i as int);
        assert(now.drop_last() =~= before);
        assert(now.last() == c);
        assert(now.contains('[') <==> before.contains('[') || c == '[') by {
            if before.contains('[') {
                assert(now[before.index_of('[')] == '[');
            }
            if now.contains('[') {
                let k = now.index_of('[');
                assert(k < i ==> before[k] == '[');
            }
            assert(now[i as int] == c);
        }
        if c == '{' {
            open = open + 1;
        } else if c == '}' && !escape && !bracket && open > 0 {
            open = open - 1;
        }
        if open > deepest {
            deepest = open;
        }
        bracket = bracket || c == '[';
        escape = c == '\\';
    }
    assert(pattern@.take(n as int) =~= pattern@);
    deepest
}

/// What is put behind a pattern neither opens nor closes alternatives.
proof fn lemma_depth_of_extended(pattern: Seq<char>)
    ensures
        depth(extended(pattern)) == depth(pattern),
{
    let one = pattern.push('?');
    let two = one.push('.');
    let three = two.push('x');
    assert(three =~= extended(pattern));
    assert(three.drop_last() =~= two);
    assert(two.drop_last() =~= one);
    assert(one.drop_last() =~= pattern);
    assert(level(pattern) <= depth(pattern));
    assert(level(one) == level(pattern));
    assert(level(two) == level(pattern));
    assert(level(three) == level(pattern));
    assert(depth(one) == depth(pattern));
    assert(depth(two) == depth(pattern));
}

/// Decides whether and why a pattern is refused.
pub(crate) fn check_pattern(pattern: &str) -> (r: Result<(), PatchError>)
    ensures
        match r {
            Ok(_) => pattern_error(pattern@) is None,
            Err(e) => pattern_error(pattern@) == Some(e@),
        },
{
    if compares(pattern) {
        return Ok(());
    }
    if measure_depth(pattern) > 250 {
        return Err(PatchError::PatternTooDeep { pattern: pattern.to_owned() });
    }
    match read_glob(pattern) {
        Ok(_) => {},
        Err(e) => {
            return Err(PatchError::Glob(e));
        },
    }
    if pattern.unicode_len() <= 200 {
        return Ok(());
    }
    let longer = pattern.to_owned().concat("?.x");
    proof {
        reveal_strlit("?.x");
        assert("?.x"@ =~= seq!['?', '.', 'x']);
        lemma_depth_of_extended(pattern@);
    }
    match build_set(longer.as_str()) {
        Ok(_) => Ok(()),
        Err(e) => Err(PatchError::Glob(e)),
    }
}

/// Matches a string against a pattern that is not refused.
pub(crate) fn match_pattern(pattern: &str, name: &str) -> (r: bool)
    requires
        pattern_error(pattern@) is None,
    ensures
        r == pattern_matches(pattern@, name@),
{
    if compares(pattern) {
        match_set(pattern, name)
    } else {
        match_glob(pattern, name)
    }
}

/// Whether a pattern is valid and matches a name.
pub open spec fn pattern_hits(pattern: Seq<char>, name: Seq<char>) -> bool {
    pattern_error(pattern) is None && pattern_matches(pattern, name)
}

/// Whether a name is picked out by a specification: one of its comma-separated patterns matches
/// the name. A specification that begins with an underscore picks out nothing.
pub open spec fn name_matches(name: Seq<char>, spec: Seq<char>) -> bool {
    &&& !begins_with(spec, '_')
    &&& exists|k: int|
        0 <= k < comma_pieces(spec).len() && #[trigger] pattern_hits(comma_pieces(spec)[k], name)
}

/// Decides whether a name is picked out by a specification.
pub fn matchname(name: &str, spec: &str) -> (r: bool)
    ensures
        r == name_matches(name@, spec@),
{
    if starts_with(spec, '_') {
        return false;
    }
    let pieces = split_commas(spec);
    let n = pieces.len();
    for k in 0..n
        invariant
            n == pieces@.len(),
            !begins_with(spec@, '_'),
            texts(pieces@) == comma_pieces(spec@),
            forall|j: int|
                0 <= j < k ==> !#[trigger] pattern_hits(comma_pieces(spec@)[j], name@),
    {
        assert(texts(pieces@)[k as int] == pieces@[k as int]@);
        let pattern = pieces[k].as_str();
        if check_pattern(pattern).is_ok() && match_pattern(pattern, name) {
            assert(pattern_hits(comma_pieces(spec@)[k as int], name@));
            return true;
        }
    }
    false
}

/// The part of a specification before its enumeration token, and the part after it. The token
/// reaches from the first to the last `*`; where there is none, from the first to the last `?`;
/// where there is none either, from the first `[` to the last `]`. Without a token everything
/// counts as standing before it.
pub open spec fn affixes(spec: Seq<char>) -> (Seq<char>, Seq<char>) {
    if spec.contains('*') {
        (before_first(spec, '*'), after_last(spec, '*'))
    } else if spec.contains('?') {
        (before_first(spec, '?'), after_last(spec, '?'))
    } else if spec.contains('[') {
        (before_first(spec, '['), after_last(spec, ']'))
    } else {
        (spec, Seq::empty())
    }
}

/// The part of a string before the first occurrence of a character; all of it where there is
/// none.
pub open spec fn before_first(s: Seq<char>, c: char) -> Seq<char>
    decreases s.len(),
{
    if s.len() == 0 || s[0] == c {
        Seq::empty()
    } else {
        seq![s[0]] + before_first(s.skip(1), c)
    }
}

/// The part of a string after the last occurrence of a character; nothing where there is none.
pub open spec fn after_last(s: Seq<char>, c: char) -> Seq<char>
    decreases s.len(),
{
    if s.len() == 0 || !s.contains(c) {
        Seq::empty()
    } else if s.last() == c {
        Seq::empty()
    } else {
        after_last(s.drop_last(), c).push(s.last())
    }
}

fn has_char(s: &str, c: char) -> (r: bool)
    ensures
        r == s@.contains(c),
{
    let n = s.unicode_len();
    for i in 0..n
        invariant
            n == s@.len(),
            forall|j: int| 0 <= j < i ==> s@[j] != c,
    {
        if s.get_char(i) == c {
            return true;
        }
    }
    false
}

fn cut_before_first(s: &str, c: char) -> (r: String)
    ensures
        r@ == before_first(s@, c),
{
    let n = s.unicode_len();
    let mut i: usize = 0;
    assert(s@.take(0) + before_first(s@.skip(0), c) =~= before_first(s@, c)) by {
        assert(s@.skip(0) =~= s@);
    }
    while i < n && s.get_char(i) != c
        invariant
            n == s@.len(),
            i <= n,
            s@.take(i as int) + before_first(s@.skip(i as int), c) == before_first(s@, c),
        decreases n - i,
    {
        assert(s@.skip(i as int).skip(1) =~= s@.skip(i + 1));
        assert(s@.take(i as int) + (seq![s@[i as int]] + before_first(s@.skip(i + 1), c))
            =~= s@.take(i + 1) + before_first(s@.skip(i + 1), c));
        i = i + 1;
    }
    assert(s@.subrange(0, i as int) =~= s@.take(i as int) + before_first(s@.skip(i as int), c));
    s.substring_char(0, i).to_owned()
}

fn cut_after_last(s: &str, c: char) -> (r: String)
    ensures
        r@ == after_last(s@, c),
{
    let n = s.unicode_len();
    if !has_char(s, c) {
        return String::new();
    }
    let mut i: usize = n;
    assert(s@.take(n as int) =~= s@);
    assert(after_last(s@, c) + s@.skip(n as int) =~= after_last(s@, c));
    while s.get_char(i - 1) != c
        invariant
            n == s@.len(),
            0 < i <= n,
            s@.take(i as int).contains(c),
            after_last(s@.take(i as int), c) + s@.skip(i as int) == after_last(s@, c),
        decreases i,
    {
        let ghost head = s@.take(i as int);
        let ghost shorter = s@.take(i - 1);
        assert(head.drop_last() =~= shorter);
        let ghost k = choose|k: int| 0 <= k < head.len() && head[k] == c;
        assert(shorter[k] == c);
        assert(after_last(shorter, c).push(s@[i - 1]) + s@.skip(i as int) =~= after_last(shorter, c)
            + s@.skip(i - 1));
        i = i - 1;
    }
    assert(s@.take(i as int).last() == c);
    assert(s@.subrange(i as int, n as int) =~= after_last(s@.take(i as int), c) + s@.skip(i as int));
    s.substring_char(i, n).to_owned()
}

/// Finds the parts of a specification before and after its enumeration token.
pub fn spec_affixes(spec: &str) -> (r: (String, String))
    ensures
        (r.0@, r.1@) == affixes(spec@),
{
    if has_char(spec, '*') {
        (cut_before_first(spec, '*'), cut_after_last(spec, '*'))
    } else if has_char(spec, '?') {
        (cut_before_first(spec, '?'), cut_after_last(spec, '?'))
    } else if has_char(spec, '[') {
        (cut_before_first(spec, '['), cut_after_last(spec, ']'))
    } else {
        (spec.to_owned(), String::new())
    }
}

} // verus!
