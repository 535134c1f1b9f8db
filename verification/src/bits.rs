//! Specification vocabulary for the 32-bit occupancy bitmaps and the packed
//! state word: single-bit tests, a population count over a bit range, and
//! the lemmas that relate them to the bitwise operations the cell performs.

use vstd::prelude::*;

verus! {

/// True iff bit `i` of `w` is set. Meaningful for `i < 32`.
pub open spec fn bit_set(w: u32, i: u32) -> bool {
    w & (1u32 << i) != 0
}

/// Number of set bits of `w` among the bit positions `[0, n)`.
pub open spec fn count_bits(w: u32, n: int) -> int
    decreases n,
{
    if n <= 0 {
        0
    } else {
        count_bits(w, n - 1) + if bit_set(w, (n - 1) as u32) {
            1int
        } else {
            0int
        }
    }
}

/// How `|` with a single-bit mask acts on each bit.
pub proof fn lemma_or_bit()
    by (bit_vector)
    ensures
        forall|w: u32, i: u32, j: u32|
            i < 32 && j < 32 && i != j ==> (#[trigger] bit_set(w | (1u32 << i), j)) == bit_set(
                w,
                j,
            ),
        forall|w: u32, i: u32| i < 32 ==> #[trigger] bit_set(w | (1u32 << i), i),
{
}

/// How `&` with a complemented single-bit mask acts on each bit.
pub proof fn lemma_and_not_bit()
    by (bit_vector)
    ensures
        forall|w: u32, i: u32, j: u32|
            i < 32 && j < 32 && i != j ==> (#[trigger] bit_set(w & !(1u32 << i), j)) == bit_set(
                w,
                j,
            ),
        forall|w: u32, i: u32| i < 32 ==> !(#[trigger] bit_set(w & !(1u32 << i), i)),
{
}

/// A word whose bits are a subset of another's (`sub & !sup == 0`) has no
/// bit set that the other clears.
pub proof fn lemma_subset_bit(sub: u32, sup: u32, j: u32)
    by (bit_vector)
    requires
        sub & !sup == 0,
        j < 32,
        bit_set(sub, j),
    ensures
        bit_set(sup, j),
{
}

/// The population count is never negative.
pub proof fn lemma_count_nonneg(w: u32, n: int)
    ensures
        count_bits(w, n) >= 0,
    decreases n,
{
    if n > 0 {
        lemma_count_nonneg(w, n - 1);
    }
}

/// Setting a clear bit `i` raises the count of a range containing `i` by one.
pub proof fn lemma_count_set_bit(w: u32, i: u32, n: int)
    requires
        i < 32,
        !bit_set(w, i),
        n <= 32,
    ensures
        count_bits(w | (1u32 << i), n) == count_bits(w, n) + if i < n {
            1int
        } else {
            0int
        },
    decreases n,
{
    lemma_or_bit();
    if n > 0 {
        lemma_count_set_bit(w, i, n - 1);
    }
}

/// Clearing a set bit `i` lowers the count of a range containing `i` by one.
pub proof fn lemma_count_clear_bit(w: u32, i: u32, n: int)
    requires
        i < 32,
        bit_set(w, i),
        n <= 32,
    ensures
        count_bits(w & !(1u32 << i), n) == count_bits(w, n) - if i < n {
            1int
        } else {
            0int
        },
    decreases n,
{
    lemma_and_not_bit();
    if n > 0 {
        lemma_count_clear_bit(w, i, n - 1);
    }
}

/// A range containing a set bit has a positive count.
pub proof fn lemma_count_pos(w: u32, i: u32, n: int)
    requires
        i < n <= 32,
        bit_set(w, i),
    ensures
        count_bits(w, n) >= 1,
    decreases n,
{
    lemma_count_nonneg(w, n - 1);
    if i < n - 1 {
        lemma_count_pos(w, i, n - 1);
    }
}

/// Adding a removal mark removes exactly that bit from the readable mask.
pub proof fn lemma_live_remove(occ: u32, rem: u32, i: u32)
    by (bit_vector)
    ensures
        occ & !(rem | (1u32 << i)) == (occ & !rem) & !(1u32 << i),
{
}

/// With no removal marks the readable mask is the occupancy bitmap itself.
pub proof fn lemma_no_removed(occ: u32)
    by (bit_vector)
    ensures
        occ & !0u32 == occ,
{
}

/// Marking an occupied slot keeps the removal bitmap inside the occupancy
/// bitmap.
pub proof fn lemma_subset_add(occ: u32, rem: u32, i: u32)
    by (bit_vector)
    requires
        rem & !occ == 0,
        i < 32,
        occ & (1u32 << i) != 0,
    ensures
        (rem | (1u32 << i)) & !occ == 0,
{
}

/// Occupying one more slot keeps the removal bitmap inside the occupancy
/// bitmap.
pub proof fn lemma_subset_grow(occ: u32, rem: u32, i: u32)
    by (bit_vector)
    requires
        rem & !occ == 0,
    ensures
        rem & !(occ | (1u32 << i)) == 0,
{
}

/// The readable mask is contained in the occupancy bitmap.
pub proof fn lemma_live_subset(occ: u32, rem: u32)
    by (bit_vector)
    ensures
        (occ & !rem) & !occ == 0,
{
}

/// Occupying a slot that carries no removal mark adds exactly that bit to
/// the readable mask.
pub proof fn lemma_live_grow(occ: u32, rem: u32, i: u32)
    by (bit_vector)
    requires
        rem & !occ == 0,
        occ & (1u32 << i) == 0,
    ensures
        (occ | (1u32 << i)) & !rem == (occ & !rem) | (1u32 << i),
        (occ & !rem) & (1u32 << i) == 0,
{
}

/// A word with no set bit below 32 is zero.
pub proof fn lemma_count_zero_implies_zero(w: u32)
    requires
        count_bits(w, 32) == 0,
    ensures
        w == 0,
{
    assert forall|j: u32| j < 32 implies !bit_set(w, j) by {
        if bit_set(w, j) {
            lemma_count_pos(w, j, 32);
        }
    }
    assert(!bit_set(w, 0u32));
    assert(!bit_set(w, 1u32));
    assert(!bit_set(w, 2u32));
    assert(!bit_set(w, 3u32));
    assert(!bit_set(w, 4u32));
    assert(!bit_set(w, 5u32));
    assert(!bit_set(w, 6u32));
    assert(!bit_set(w, 7u32));
    assert(!bit_set(w, 8u32));
    assert(!bit_set(w, 9u32));
    assert(!bit_set(w, 10u32));
    assert(!bit_set(w, 11u32));
    assert(!bit_set(w, 12u32));
    assert(!bit_set(w, 13u32));
    assert(!bit_set(w, 14u32));
    assert(!bit_set(w, 15u32));
    assert(!bit_set(w, 16u32));
    assert(!bit_set(w, 17u32));
    assert(!bit_set(w, 18u32));
    assert(!bit_set(w, 19u32));
    assert(!bit_set(w, 20u32));
    assert(!bit_set(w, 21u32));
    assert(!bit_set(w, 22u32));
    assert(!bit_set(w, 23u32));
    assert(!bit_set(w, 24u32));
    assert(!bit_set(w, 25u32));
    assert(!bit_set(w, 26u32));
    assert(!bit_set(w, 27u32));
    assert(!bit_set(w, 28u32));
    assert(!bit_set(w, 29u32));
    assert(!bit_set(w, 30u32));
    assert(!bit_set(w, 31u32));
    assert(w == 0) by (bit_vector)
        requires
            w & (1u32 << 0u32) == 0,
            w & (1u32 << 1u32) == 0,
            w & (1u32 << 2u32) == 0,
            w & (1u32 << 3u32) == 0,
            w & (1u32 << 4u32) == 0,
            w & (1u32 << 5u32) == 0,
            w & (1u32 << 6u32) == 0,
            w & (1u32 << 7u32) == 0,
            w & (1u32 << 8u32) == 0,
            w & (1u32 << 9u32) == 0,
            w & (1u32 << 10u32) == 0,
            w & (1u32 << 11u32) == 0,
            w & (1u32 << 12u32) == 0,
            w & (1u32 << 13u32) == 0,
            w & (1u32 << 14u32) == 0,
            w & (1u32 << 15u32) == 0,
            w & (1u32 << 16u32) == 0,
            w & (1u32 << 17u32) == 0,
            w & (1u32 << 18u32) == 0,
            w & (1u32 << 19u32) == 0,
            w & (1u32 << 20u32) == 0,
            w & (1u32 << 21u32) == 0,
            w & (1u32 << 22u32) == 0,
            w & (1u32 << 23u32) == 0,
            w & (1u32 << 24u32) == 0,
            w & (1u32 << 25u32) == 0,
            w & (1u32 << 26u32) == 0,
            w & (1u32 << 27u32) == 0,
            w & (1u32 << 28u32) == 0,
            w & (1u32 << 29u32) == 0,
            w & (1u32 << 30u32) == 0,
            w & (1u32 << 31u32) == 0,
    ;
}

/// A word conjoined with its own complement is clear.
pub proof fn lemma_self_clear(w: u32)
    by (bit_vector)
    ensures
        w & !w == 0,
{
}

/// The all-clear word counts zero over any range.
pub proof fn lemma_count_zero_word(n: int)
    ensures
        count_bits(0u32, n) == 0,
    decreases n,
{
    if n > 0 {
        lemma_count_zero_word(n - 1);
        assert(!bit_set(0u32, (n - 1) as u32)) by (bit_vector);
    }
}

} // verus!
