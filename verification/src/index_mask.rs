//! Masks of low one bits that cover a largest index.

use vstd::arithmetic::power2::{
    lemma2_to64,
    lemma_pow2_pos,
    lemma_pow2_strictly_increases,
    lemma_pow2_unfold,
};
use vstd::bits::{lemma_u64_pow2_no_overflow, lemma_u64_shl_is_mul, low_bits_mask};
use vstd::prelude::*;

verus! {

/// Whether `mask` is `2^width - 1` for a `width` from 1 to 64: its low `width`
/// bits are ones and the rest are zeros.
pub open spec fn is_low_ones(mask: u64) -> bool {
    exists|width: nat| 1 <= width <= 64 && mask == low_bits_mask(width)
}

/// Whether `mask` is the smallest value of the form `2^width - 1`, with
/// `width` from 1 to 64, that is not below `value`.
pub open spec fn is_index_mask(mask: u64, value: u64) -> bool {
    &&& is_low_ones(mask)
    &&& value <= mask
    &&& forall|other: u64| #[trigger] is_low_ones(other) && value <= other ==> mask <= other
}

/// A value has one index mask only.
pub proof fn lemma_index_mask_unique(first: u64, second: u64, value: u64)
    requires
        is_index_mask(first, value),
        is_index_mask(second, value),
    ensures
        first == second,
{
}

/// The index mask of `value` is the run of `width` ones if that run reaches
/// `value` and the run of one bit less does not.
pub proof fn lemma_index_mask_by_width(mask: u64, value: u64, width: nat)
    requires
        is_index_mask(mask, value),
        1 <= width <= 64,
        value <= low_bits_mask(width),
        width > 1 ==> low_bits_mask((width - 1) as nat) < value,
    ensures
        mask == low_bits_mask(width),
{
    lemma2_to64();
    lemma_pow2_pos(width);
    if width < 64 {
        lemma_pow2_strictly_increases(width, 64);
    }
    let run = low_bits_mask(width) as u64;
    assert(is_low_ones(run));
    let own = choose|own: nat| 1 <= own <= 64 && mask == low_bits_mask(own);
    lemma_pow2_pos(own);
    if own + 1 < width {
        lemma_pow2_strictly_increases(own, (width - 1) as nat);
    } else if own > width {
        lemma_pow2_strictly_increases(width, own);
    }
}

/// An index mask is less than twice as wide as the range it covers: of the
/// `mask + 1` values that masking can give, `value + 1` are not above `value`,
/// and that is at least half of them.
pub proof fn lemma_index_mask_half_in_range(mask: u64, value: u64)
    requires
        is_index_mask(mask, value),
    ensures
        mask + 1 <= 2 * (value + 1),
{
    let width = choose|width: nat| 1 <= width <= 64 && mask == low_bits_mask(width);
    lemma2_to64();
    if width > 1 {
        // The mask of one bit less is too short, or `mask` were not the
        // smallest: so `value` is above it, and it is half of `mask`.
        let shorter = (width - 1) as nat;
        lemma_pow2_strictly_increases(shorter, width);
        lemma_pow2_unfold(width);
        let half = low_bits_mask(shorter) as u64;
        assert(is_low_ones(half));
        assert(half < value);
    }
}

/// The smallest value `2^width - 1`, with `width` from 1 to 64, that is not
/// below `value`. Masking a hash with it keeps just enough low bits to reach
/// every index up to `value`.
pub fn index_mask(value: u64) -> (mask: u64)
    ensures
        is_index_mask(mask, value),
{
    let mut width: u64 = 1;
    while width < 64
        invariant
            1 <= width <= 64,
            forall|shorter: nat| 1 <= shorter < width ==> #[trigger] low_bits_mask(shorter) < value,
        decreases 64 - width,
    {
        proof {
            lemma_u64_pow2_no_overflow(width as nat);
            lemma_u64_shl_is_mul(1, width);
        }
        let candidate = (1u64 << width) - 1;
        if candidate >= value {
            proof {
                assert(candidate == low_bits_mask(width as nat));
                assert(is_low_ones(candidate));
                assert forall|other: u64| #[trigger]
                    is_low_ones(other) && value <= other implies candidate <= other by {
                    let w = choose|w: nat| 1 <= w <= 64 && other == low_bits_mask(w);
                    if w > width {
                        lemma_pow2_strictly_increases(width as nat, w);
                    }
                }
            }
            return candidate;
        }
        width += 1;
    }
    proof {
        lemma2_to64();
        assert(u64::MAX == low_bits_mask(64));
        assert(is_low_ones(u64::MAX));
        assert forall|other: u64| #[trigger]
            is_low_ones(other) && value <= other implies u64::MAX <= other by {
            let w = choose|w: nat| 1 <= w <= 64 && other == low_bits_mask(w);
            assert(w == 64);
        }
    }
    u64::MAX
}

} // verus!
