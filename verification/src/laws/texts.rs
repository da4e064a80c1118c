//! What holds of strings and of numbers in decimal notation.

use crate::laws::names::{lemma_bytes_of_both, lemma_cut_between};
use crate::text::{
    begins_with, begins_with_digit, byte_len, byte_slice, can_slice, comma_pieces, decimal, digit,
    replaced,
};
use vstd::prelude::*;
use vstd::utf8::encode_utf8;

verus! {

/// The number that a string of digits denotes: read from left to right, each digit counts ten
/// times what comes after it.
pub open spec fn reading(s: Seq<char>) -> int
    decreases s.len(),
{
    if s.len() == 0 {
        0
    } else {
        10 * reading(s.drop_last()) + (s.last() as int - '0' as int)
    }
}

/// A number in decimal notation consists of digits, denotes the number, and has no leading zero
/// unless it is zero.
pub proof fn law_decimal_denotes(n: nat)
    ensures
        reading(decimal(n)) == n,
        decimal(n).len() > 0,
        forall|i: int| 0 <= i < decimal(n).len() ==> '0' <= #[trigger] decimal(n)[i] <= '9',
        decimal(n)[0] == '0' ==> n == 0 && decimal(n).len() == 1,
    decreases n,
{
    if n >= 10 {
        let before = decimal(n / 10);
        law_decimal_denotes(n / 10);
        assert(decimal(n).drop_last() =~= before);
        assert(decimal(n).last() == digit(n % 10));
        assert(decimal(n)[0] == before[0]);
        assert forall|i: int| 0 <= i < decimal(n).len() implies '0' <= #[trigger] decimal(n)[i]
            <= '9' by {
            if i < before.len() {
                assert(decimal(n)[i] == before[i]);
            }
        }
    } else {
        let s = decimal(n);
        assert(s.drop_last() =~= Seq::<char>::empty());
        assert(reading(s.drop_last()) == 0);
        assert(s.last() == digit(n));
        assert(s[0] == digit(n));
    }
}

/// Different numbers are written differently.
pub proof fn law_decimal_tells_apart(a: nat, b: nat)
    ensures
        decimal(a) == decimal(b) <==> a == b,
{
    law_decimal_denotes(a);
    law_decimal_denotes(b);
}

/// Whether a string stands in another at a position.
pub open spec fn stands_at(s: Seq<char>, pattern: Seq<char>, k: int) -> bool {
    0 <= k <= s.len() - pattern.len() && s.subrange(k, k + pattern.len()) == pattern
}

/// Where a pattern stands in a string, its first occurrence gives way, and the search goes on
/// behind it.
pub proof fn law_first_occurrence_gives_way(
    s: Seq<char>,
    pattern: Seq<char>,
    by: Seq<char>,
    k: int,
)
    requires
        pattern.len() > 0,
        stands_at(s, pattern, k),
        forall|i: int| 0 <= i < k ==> !#[trigger] stands_at(s, pattern, i),
    ensures
        replaced(s, pattern, by) == s.take(k) + by + replaced(
            s.skip(k + pattern.len()),
            pattern,
            by,
        ),
    decreases k,
{
    let m = pattern.len() as int;
    if k == 0 {
        assert(s.take(m) =~= s.subrange(0, m));
        assert(s.take(0) + by =~= by);
    } else {
        assert(!stands_at(s, pattern, 0));
        assert(s.take(m) =~= s.subrange(0, m));
        let rest = s.skip(1);
        assert(rest.subrange(k - 1, k - 1 + m) =~= s.subrange(k, k + m));
        assert forall|i: int| 0 <= i < k - 1 implies !#[trigger] stands_at(rest, pattern, i) by {
            assert(!stands_at(s, pattern, i + 1));
            assert(rest.subrange(i, i + m) =~= s.subrange(i + 1, i + 1 + m));
        }
        law_first_occurrence_gives_way(rest, pattern, by, k - 1);
        assert(rest.skip(k - 1 + m) =~= s.skip(k + m));
        let tail = replaced(s.skip(k + m), pattern, by);
        assert(seq![s[0]] + (rest.take(k - 1) + by + tail) =~= s.take(k) + by + tail);
    }
}

/// A string in which a pattern does not stand stays as it is.
pub proof fn law_without_occurrence_nothing_changes(
    s: Seq<char>,
    pattern: Seq<char>,
    by: Seq<char>,
)
    requires
        pattern.len() > 0,
        forall|i: int| !#[trigger] stands_at(s, pattern, i),
    ensures
        replaced(s, pattern, by) == s,
    decreases s.len(),
{
    let m = pattern.len() as int;
    if s.len() >= m {
        assert(!stands_at(s, pattern, 0));
        assert(s.take(m) =~= s.subrange(0, m));
        let rest = s.skip(1);
        assert forall|i: int| !#[trigger] stands_at(rest, pattern, i) by {
            assert(!stands_at(s, pattern, i + 1));
            if 0 <= i <= rest.len() - m {
                assert(rest.subrange(i, i + m) =~= s.subrange(i + 1, i + 1 + m));
            }
        }
        law_without_occurrence_nothing_changes(rest, pattern, by);
        assert(seq![s[0]] + rest =~= s);
    }
}

/// Strings one behind the other, with a comma between them.
pub open spec fn joined(pieces: Seq<Seq<char>>) -> Seq<char>
    decreases pieces.len(),
{
    if pieces.len() == 0 {
        Seq::empty()
    } else if pieces.len() == 1 {
        pieces[0]
    } else {
        pieces[0] + seq![','] + joined(pieces.skip(1))
    }
}

/// The pieces of a string have no commas in them, and with commas between them they make up the
/// string.
pub proof fn law_pieces_make_up_string(s: Seq<char>)
    ensures
        comma_pieces(s).len() > 0,
        joined(comma_pieces(s)) == s,
        forall|i: int|
            0 <= i < comma_pieces(s).len() ==> !(#[trigger] comma_pieces(s)[i]).contains(','),
    decreases s.len(),
{
    if s.len() > 0 {
        let rest = comma_pieces(s.skip(1));
        let all = comma_pieces(s);
        law_pieces_make_up_string(s.skip(1));
        let none = Seq::<char>::empty();
        if s[0] == ',' {
            assert(all.skip(1) =~= rest);
            assert(none + seq![','] + joined(rest) =~= s);
            assert forall|i: int| 0 <= i < all.len() implies !(#[trigger] all[i]).contains(',') by {
                if i > 0 {
                    assert(all[i] == rest[i - 1]);
                }
            }
        } else {
            assert(all.skip(1) =~= rest.skip(1));
            assert(all[0] == seq![s[0]] + rest[0]);
            assert(!all[0].contains(',')) by {
                if all[0].contains(',') {
                    let j = all[0].index_of(',');
                    assert(j > 0);
                    assert(rest[0][j - 1] == ',');
                }
            }
            assert(joined(all) =~= seq![s[0]] + joined(rest));
            assert(seq![s[0]] + s.skip(1) =~= s);
            assert forall|i: int| 0 <= i < all.len() implies !(#[trigger] all[i]).contains(',') by {
                if i > 0 {
                    assert(all[i] == rest[i]);
                }
            }
        }
    } else {
        assert(comma_pieces(s)[0].len() == 0);
        assert(joined(comma_pieces(s)) =~= s);
    }
}

/// The bytes between two strings are the string that stands there.
pub proof fn law_cut_out(start: Seq<char>, middle: Seq<char>, end: Seq<char>)
    ensures
        ({
            let s = start + middle + end;
            &&& can_slice(s, byte_len(start), byte_len(s) - byte_len(end))
            &&& byte_slice(s, byte_len(start), byte_len(s) - byte_len(end)) == middle
        }),
        byte_len(start + end) == byte_len(start) + byte_len(end),
{
    let s = start + middle + end;
    assert(s =~= start + (middle + end));
    lemma_cut_between(start, middle + end);
    lemma_cut_between(start + middle, end);
    lemma_cut_between(start, middle);
    lemma_cut_between(start, end);
    let bytes = encode_utf8(s);
    let from = byte_len(start);
    let to = byte_len(start + middle);
    assert(bytes.subrange(from, to) =~= encode_utf8(start + middle).subrange(from, to)) by {
        lemma_bytes_of_both(start + middle, end);
    }
}

/// A string begins with its first character and with no other, and with a digit if that is one.
pub proof fn law_beginnings(c: char, rest: Seq<char>, other: char)
    ensures
        begins_with(seq![c] + rest, other) <==> c == other,
        !begins_with(Seq::empty(), other),
        begins_with_digit(seq![c] + rest) <==> '0' <= c <= '9',
        !begins_with_digit(Seq::empty()),
{
    assert((seq![c] + rest)[0] == c);
}

} // verus!
