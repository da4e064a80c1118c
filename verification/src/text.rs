//! Strings: decimal numbers, replacement, splitting, and cuts at byte positions.

use vstd::prelude::*;
use vstd::utf8::{decode_utf8, encode_utf8, is_char_boundary};

verus! {

/// The characters of each of a sequence of strings.
pub open spec fn texts(strings: Seq<String>) -> Seq<Seq<char>> {
    strings.map_values(|s: String| s@)
}

/// The characters of a string that may be missing.
pub open spec fn text(s: Option<String>) -> Option<Seq<char>> {
    match s {
        Some(t) => Some(t@),
        None => None,
    }
}

/// Whether two strings hold the same characters.
pub(crate) fn same(a: &str, b: &str) -> (r: bool)
    ensures
        r == (a@ == b@),
{
    a.to_owned() == b.to_owned()
}

/// A copy of a string that may be missing.
pub(crate) fn copy(s: &Option<String>) -> (r: Option<String>)
    ensures
        text(r) == text(*s),
{
    match s {
        Some(t) => Some(t.clone()),
        None => None,
    }
}

/// Copies of strings.
pub(crate) fn copy_all(strings: &Vec<String>) -> (r: Vec<String>)
    ensures
        texts(r@) == texts(strings@),
{
    let mut r: Vec<String> = Vec::new();
    for i in 0..strings.len()
        invariant
            r@.len() == i,
            forall|j: int| 0 <= j < i ==> #[trigger] r@[j]@ == strings@[j]@,
    {
        r.push(strings[i].clone());
    }
    assert(texts(r@) =~= texts(strings@));
    r
}

/// Whether the strings hold a given one.
pub(crate) fn holds(strings: &Vec<String>, s: &String) -> (r: bool)
    ensures
        r == texts(strings@).contains(s@),
{
    for i in 0..strings.len()
        invariant
            forall|j: int| 0 <= j < i ==> strings@[j]@ != s@,
    {
        if strings[i] == *s {
            assert(texts(strings@)[i as int] == s@);
            return true;
        }
    }
    false
}

/// Whether a string begins with the given character.
pub open spec fn begins_with(s: Seq<char>, c: char) -> bool {
    s.len() > 0 && s[0] == c
}

pub(crate) fn starts_with(s: &str, c: char) -> (r: bool)
    ensures
        r == begins_with(s@, c),
{
    !s.is_empty() && s.get_char(0) == c
}

/// Whether a string begins with a decimal digit.
pub open spec fn begins_with_digit(s: Seq<char>) -> bool {
    s.len() > 0 && '0' <= s[0] <= '9'
}

pub(crate) fn starts_with_digit(s: &str) -> (r: bool)
    ensures
        r == begins_with_digit(s@),
{
    if s.is_empty() {
        return false;
    }
    let c = s.get_char(0);
    '0' <= c && c <= '9'
}

/// Lists the characters of a string.
pub(crate) fn characters(s: &str) -> (r: Vec<char>)
    ensures
        r@ == s@,
{
    let mut r: Vec<char> = Vec::new();
    for c in it: s.chars()
        invariant
            r@ == it.seq().take(it.index() as int),
            it.seq() == s@,
    {
        r.push(c);
    }
    r
}

/// The decimal digit that stands for a number below ten.
pub open spec fn digit(n: nat) -> char {
    (48 + n) as char
}

/// A number in decimal notation, without leading zeros.
pub open spec fn decimal(n: nat) -> Seq<char>
    decreases n,
{
    if n < 10 {
        seq![digit(n)]
    } else {
        decimal(n / 10).push(digit(n % 10))
    }
}

fn digit_text(n: usize) -> (r: &'static str)
    requires
        n < 10,
    ensures
        r@ == seq![digit(n as nat)],
{
    proof {
        reveal_strlit("0");
        reveal_strlit("1");
        reveal_strlit("2");
        reveal_strlit("3");
        reveal_strlit("4");
        reveal_strlit("5");
        reveal_strlit("6");
        reveal_strlit("7");
        reveal_strlit("8");
        reveal_strlit("9");
    }
    let r = match n {
        0 => "0",
        1 => "1",
        2 => "2",
        3 => "3",
        4 => "4",
        5 => "5",
        6 => "6",
        7 => "7",
        8 => "8",
        _ => "9",
    };
    assert(r@ =~= seq![digit(n as nat)]);
    r
}

/// Writes a number in decimal notation.
pub(crate) fn to_decimal(n: usize) -> (r: String)
    ensures
        r@ == decimal(n as nat),
    decreases n,
{
    if n < 10 {
        digit_text(n).to_owned()
    } else {
        let mut s = to_decimal(n / 10);
        s.append(digit_text(n % 10));
        assert(s@ =~= decimal(n as nat));
        s
    }
}

/// A string in which every occurrence of a pattern, searched from left to right, has given
/// way to another string.
pub open spec fn replaced(s: Seq<char>, pattern: Seq<char>, by: Seq<char>) -> Seq<char>
    decreases s.len(),
{
    if pattern.len() == 0 || s.len() < pattern.len() {
        s
    } else if s.take(pattern.len() as int) == pattern {
        by + replaced(s.skip(pattern.len() as int), pattern, by)
    } else {
        seq![s[0]] + replaced(s.skip(1), pattern, by)
    }
}

/// Replaces every occurrence of a pattern.
pub(crate) fn replace(s: &str, pattern: &str, by: &str) -> (r: String)
    requires
        pattern@.len() > 0,
    ensures
        r@ == replaced(s@, pattern@, by@),
{
    let n = s.unicode_len();
    let m = pattern.unicode_len();
    let mut r = String::new();
    let mut i: usize = 0;
    assert(s@.skip(0) =~= s@);
    while m <= n - i
        invariant
            n == s@.len(),
            m == pattern@.len(),
            m > 0,
            i <= n,
            r@ + replaced(s@.skip(i as int), pattern@, by@) == replaced(s@, pattern@, by@),
        decreases n - i,
    {
        let piece = s.substring_char(i, i + m);
        let ghost rest = s@.skip(i as int);
        assert(rest.take(m as int) =~= piece@);
        if same(piece, pattern) {
            let ghost before = r@;
            r.append(by);
            i = i + m;
            assert(rest.skip(m as int) =~= s@.skip(i as int));
            assert(before + (by@ + replaced(s@.skip(i as int), pattern@, by@)) =~= r@
                + replaced(s@.skip(i as int), pattern@, by@));
        } else {
            let ghost before = r@;
            r.append(s.substring_char(i, i + 1));
            assert(s@.subrange(i as int, i + 1) =~= seq![rest[0]]);
            i = i + 1;
            assert(rest.skip(1) =~= s@.skip(i as int));
            assert(before + (seq![rest[0]] + replaced(s@.skip(i as int), pattern@, by@)) =~= r@
                + replaced(s@.skip(i as int), pattern@, by@));
        }
    }
    r.append(s.substring_char(i, n));
    assert(s@.subrange(i as int, n as int) =~= s@.skip(i as int));
    r
}

/// The pieces of a string between its commas; a string without commas is one piece.
pub open spec fn comma_pieces(s: Seq<char>) -> Seq<Seq<char>>
    decreases s.len(),
{
    if s.len() == 0 {
        seq![Seq::<char>::empty()]
    } else {
        let rest = comma_pieces(s.skip(1));
        if s[0] == ',' {
            seq![Seq::<char>::empty()] + rest
        } else {
            rest.update(0, seq![s[0]] + rest[0])
        }
    }
}

proof fn lemma_comma_pieces_nonempty(s: Seq<char>)
    ensures
        comma_pieces(s).len() > 0,
    decreases s.len(),
{
    if s.len() > 0 {
        lemma_comma_pieces_nonempty(s.skip(1));
    }
}

/// Splits a string at its commas.
pub(crate) fn split_commas(s: &str) -> (r: Vec<String>)
    ensures
        texts(r@) == comma_pieces(s@),
{
    let chars = characters(s);
    let n = chars.len();
    let mut r: Vec<String> = Vec::new();
    let mut start: usize = 0;
    let mut i: usize = 0;
    assert(s@.skip(0) =~= s@);
    proof {
        lemma_comma_pieces_nonempty(s@);
    }
    assert(comma_pieces(s@) =~= texts(r@) + comma_pieces(s@.skip(0)).update(
        0,
        s@.subrange(0, 0) + comma_pieces(s@.skip(0))[0],
    )) by {
        assert(s@.subrange(0, 0) + comma_pieces(s@)[0] =~= comma_pieces(s@)[0]);
    }
    while i < n
        invariant
            n == s@.len(),
            chars@ == s@,
            start <= i <= n,
            comma_pieces(s@.skip(i as int)).len() > 0,
            comma_pieces(s@) == texts(r@) + comma_pieces(s@.skip(i as int)).update(
                0,
                s@.subrange(start as int, i as int) + comma_pieces(s@.skip(i as int))[0],
            ),
        decreases n - i,
    {
        let ghost here = s@.skip(i as int);
        let ghost head = s@.subrange(start as int, i as int);
        let ghost rest = comma_pieces(s@.skip(i + 1));
        let ghost done = texts(r@);
        assert(here.skip(1) =~= s@.skip(i + 1));
        proof {
            lemma_comma_pieces_nonempty(s@.skip(i + 1));
        }
        if chars[i] == ',' {
            r.push(s.substring_char(start, i).to_owned());
            start = i + 1;
            assert(texts(r@) =~= done.push(head));
            assert(comma_pieces(here).update(0, head + comma_pieces(here)[0]) =~= seq![head]
                + rest) by {
                assert(head + Seq::<char>::empty() =~= head);
            }
            assert(s@.subrange(i + 1, i + 1) + rest[0] =~= rest[0]);
            assert(rest.update(0, rest[0]) =~= rest);
            assert(done + (seq![head] + rest) =~= texts(r@) + rest);
        } else {
            assert(head + (seq![s@[i as int]] + rest[0]) =~= s@.subrange(start as int, i + 1)
                + rest[0]);
            assert(comma_pieces(here).update(0, head + comma_pieces(here)[0]) =~= rest.update(
                0,
                s@.subrange(start as int, i + 1) + rest[0],
            ));
        }
        i = i + 1;
    }
    let ghost done = texts(r@);
    r.push(s.substring_char(start, n).to_owned());
    assert(s@.skip(n as int) =~= Seq::<char>::empty());
    assert(s@.subrange(start as int, n as int) + Seq::<char>::empty() =~= s@.subrange(
        start as int,
        n as int,
    ));
    assert(texts(r@) =~= comma_pieces(s@));
    r
}

/// The number of bytes that a string takes.
pub open spec fn byte_len(s: Seq<char>) -> int {
    encode_utf8(s).len() as int
}

pub(crate) fn count_bytes(s: &str) -> (r: usize)
    ensures
        r == byte_len(s@),
{
    s.as_bytes().len()
}

/// Whether the bytes of a string from one position up to another are again a string.
pub open spec fn can_slice(s: Seq<char>, from: int, to: int) -> bool {
    &&& 0 <= from <= to <= byte_len(s)
    &&& is_char_boundary(encode_utf8(s), from)
    &&& is_char_boundary(encode_utf8(s), to)
}

/// The part of a string between two byte positions.
pub open spec fn byte_slice(s: Seq<char>, from: int, to: int) -> Seq<char> {
    decode_utf8(encode_utf8(s).subrange(from, to))
}

/// Whether a string can be cut at both byte positions.
pub(crate) fn sliceable(s: &str, from: usize, to: usize) -> (r: bool)
    ensures
        r == can_slice(s@, from as int, to as int),
{
    from <= to && to <= s.as_bytes().len() && s.is_char_boundary(from) && s.is_char_boundary(to)
}

/// Takes the part of a string between two byte positions.
pub(crate) fn slice(s: &str, from: usize, to: usize) -> (r: String)
    requires
        can_slice(s@, from as int, to as int),
    ensures
        r@ == byte_slice(s@, from as int, to as int),
{
    broadcast use vstd::utf8::encode_utf8_valid_utf8, vstd::utf8::encode_utf8_decode_utf8;

    let ghost bytes = encode_utf8(s@);
    let (_, tail) = s.split_at(from);
    let ghost rest = encode_utf8(tail@);
    proof {
        if to == bytes.len() {
            vstd::utf8::is_char_boundary_start_end_of_seq(rest);
        } else {
            vstd::utf8::is_char_boundary_iff_not_is_continuation_byte(bytes, to as int);
            vstd::utf8::is_char_boundary_iff_not_is_continuation_byte(rest, to - from);
            assert(rest[to - from] == bytes[to as int]);
        }
    }
    let (part, _) = tail.split_at(to - from);
    assert(encode_utf8(part@) =~= bytes.subrange(from as int, to as int));
    part.to_owned()
}

} // verus!
