use vstd::prelude::*;
use crate::board::in_mask;

verus! {

/// A single-bit mask.
pub open spec fn bit(k: int) -> u128 {
    1u128 << (k as u128)
}

proof fn lemma_or_bit_one(b: u128, k: u128, j: u128)
    by (bit_vector)
    requires
        k < 128,
        j < 128,
    ensures
        ((b | (1u128 << k)) & (1u128 << j) != 0) == (j == k || b & (1u128 << j) != 0),
{
}

proof fn lemma_zero_bit(j: u128)
    by (bit_vector)
    requires
        j < 128,
    ensures
        0u128 & (1u128 << j) == 0,
{
}

proof fn lemma_or_one(a: u128, b: u128, j: u128)
    by (bit_vector)
    requires
        j < 128,
    ensures
        ((a | b) & (1u128 << j) != 0) == (a & (1u128 << j) != 0 || b & (1u128 << j) != 0),
{
}

/// Setting bit `k` adds exactly point `k`.
pub proof fn lemma_has_set(b: u128, k: int)
    requires
        0 <= k < 128,
    ensures
        forall|j: int| #[trigger] in_mask(b | bit(k), j) == (j == k || in_mask(b, j)),
{
    assert forall|j: int| #[trigger] in_mask(b | bit(k), j) == (j == k || in_mask(b, j)) by {
        if 0 <= j < 128 {
            lemma_or_bit_one(b, k as u128, j as u128);
        }
    }
}

/// The empty mask holds no point.
pub proof fn lemma_has_zero()
    ensures
        forall|j: int| !#[trigger] in_mask(0u128, j),
{
    assert forall|j: int| !#[trigger] in_mask(0u128, j) by {
        if 0 <= j < 128 {
            lemma_zero_bit(j as u128);
        }
    }
}

/// A union of masks holds the points of either.
pub proof fn lemma_has_or(a: u128, b: u128)
    ensures
        forall|j: int| #[trigger] in_mask(a | b, j) == (in_mask(a, j) || in_mask(b, j)),
{
    assert forall|j: int| #[trigger] in_mask(a | b, j) == (in_mask(a, j) || in_mask(b, j)) by {
        if 0 <= j < 128 {
            lemma_or_one(a, b, j as u128);
        }
    }
}

/// Number of points below `n` whose bit is clear in `b`.
pub open spec fn count_clear(b: u128, n: int) -> nat
    decreases n,
{
    if n <= 0 {
        0
    } else {
        count_clear(b, n - 1) + if in_mask(b, n - 1) {
            0nat
        } else {
            1nat
        }
    }
}

/// Setting a clear bit below `n` lowers the count of clear bits by one; the
/// count never rises when a bit is set.
pub proof fn lemma_count_clear_set(b: u128, k: int, n: int)
    requires
        0 <= k < 128,
    ensures
        count_clear(b | bit(k), n) <= count_clear(b, n),
        0 <= k < n && !in_mask(b, k) ==> count_clear(b | bit(k), n) + 1 == count_clear(b, n),
        !(0 <= k < n && !in_mask(b, k)) ==> count_clear(b | bit(k), n) == count_clear(b, n),
    decreases n,
{
    lemma_has_set(b, k);
    if n > 0 {
        lemma_count_clear_set(b, k, n - 1);
    }
}

} // verus!
