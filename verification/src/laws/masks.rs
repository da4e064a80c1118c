//! What holds of the masks of registers.

use crate::register::{bit_set, covered, covers, has_bitmask};
use crate::svd::FieldView;
use vstd::prelude::*;

verus! {

/// A mask is known by its bits: there is only one mask for the bits that fields cover.
pub proof fn law_mask_is_unique(fields: Seq<FieldView>, a: u64, b: u64)
    requires
        forall|bit: u64| bit < 64 ==> #[trigger] bit_set(a, bit) == covered(fields, bit as int),
        forall|bit: u64| bit < 64 ==> #[trigger] bit_set(b, bit) == covered(fields, bit as int),
    ensures
        a == b,
{
    assert forall|bit: u64| bit < 64 implies #[trigger] bit_set(a, bit) == bit_set(b, bit) by {
        assert(bit_set(b, bit) == covered(fields, bit as int));
    }
    lemma_low_bits(a, b, 63);
    assert(bit_set(a, 63) == bit_set(b, 63));
    lemma_last_bit(a, b);
}

proof fn lemma_low_bits(a: u64, b: u64, n: u64)
    requires
        n < 64,
        forall|bit: u64| bit < 64 ==> #[trigger] bit_set(a, bit) == bit_set(b, bit),
    ensures
        (a ^ b) & (((1u64 << n) - 1) as u64) == 0,
    decreases n,
{
    if n == 0 {
        assert((a ^ b) & (((1u64 << 0u64) - 1) as u64) == 0) by (bit_vector);
    } else {
        let m = (n - 1) as u64;
        lemma_low_bits(a, b, m);
        assert(bit_set(a, m) == bit_set(b, m));
        lemma_next_bit(a, b, m);
    }
}

proof fn lemma_next_bit(a: u64, b: u64, n: u64)
    by (bit_vector)
    requires
        n < 63,
        (a & (1u64 << n) != 0) == (b & (1u64 << n) != 0),
        (a ^ b) & (((1u64 << n) - 1) as u64) == 0,
    ensures
        (a ^ b) & (((1u64 << ((n + 1) as u64)) - 1) as u64) == 0,
{
}

proof fn lemma_last_bit(a: u64, b: u64)
    by (bit_vector)
    requires
        (a & (1u64 << 63u64) != 0) == (b & (1u64 << 63u64) != 0),
        (a ^ b) & (((1u64 << 63u64) - 1) as u64) == 0,
    ensures
        a == b,
{
}

/// Fields that cover the same bits have the same mask, whatever the fields are.
pub proof fn law_same_bits_same_mask(
    before: Seq<FieldView>,
    after: Seq<FieldView>,
    a: u64,
    b: u64,
)
    requires
        forall|bit: int| #[trigger] covered(before, bit) == covered(after, bit),
        forall|bit: u64| bit < 64 ==> #[trigger] bit_set(a, bit) == covered(before, bit as int),
        forall|bit: u64| bit < 64 ==> #[trigger] bit_set(b, bit) == covered(after, bit as int),
    ensures
        a == b,
{
    assert forall|bit: u64| bit < 64 implies #[trigger] bit_set(b, bit) == covered(
        before,
        bit as int,
    ) by {
        assert(covered(before, bit as int) == covered(after, bit as int));
    }
    law_mask_is_unique(before, a, b);
}

/// A bit of a mask is set if the mask, shifted to the right by the number of the bit, is odd.
pub proof fn law_bits_of_mask(mask: u64, bit: u64)
    requires
        bit < 64,
    ensures
        bit_set(mask, bit) <==> (mask >> bit) % 2 == 1,
{
    assert((mask & (1u64 << bit) != 0) == ((mask >> bit) % 2 == 1)) by (bit_vector)
        requires
            bit < 64,
    ;
}

/// A bit is covered if a field starts at it or below, and ends above it.
pub proof fn law_covered_bits(fields: Seq<FieldView>, bit: int, i: int)
    ensures
        0 <= i < fields.len() && fields[i].info.bit_range.offset <= bit && bit
            < fields[i].info.bit_range.offset + fields[i].info.bit_range.width ==> covered(
            fields,
            bit,
        ),
        covered(fields, bit) ==> exists|k: int|
            0 <= k < fields.len() && (#[trigger] fields[k]).info.bit_range.offset <= bit && bit
                < fields[k].info.bit_range.offset + fields[k].info.bit_range.width,
{
    if 0 <= i < fields.len() && fields[i].info.bit_range.offset <= bit && bit
        < fields[i].info.bit_range.offset + fields[i].info.bit_range.width {
        assert(covers(fields[i], bit));
    }
    if covered(fields, bit) {
        let k = choose|k: int|
            0 <= k < fields.len() && covers(#[trigger] fields[k], bit);
        assert(fields[k].info.bit_range.offset <= bit);
    }
}

/// A mask can be made of fields that have a width of up to all the bits of it and start within it.
pub proof fn law_when_there_is_a_mask(fields: Seq<FieldView>)
    ensures
        has_bitmask(fields) <==> forall|i: int|
            0 <= i < fields.len() ==> (#[trigger] fields[i]).info.bit_range.width >= 1
                && fields[i].info.bit_range.width <= 64 && fields[i].info.bit_range.offset <= 63,
{
}

} // verus!
