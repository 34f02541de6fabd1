//! What every Bloom filter of this crate offers, and the choice of the number
//! of hash functions.

use vstd::prelude::*;

verus! {

/// The three numbers that a filter is built from.
pub struct Parameters {
    /// The estimated number of members.
    pub set_size: nat,
    /// The number of bits that the filter has for each member.
    pub bits_per_member: nat,
    /// The number of hash functions, which is the number of bits that are
    /// set and tested for one item.
    pub hash_count: nat,
}

/// A set of byte strings that can grow only, and that answers a membership
/// question with "perhaps" or "no".
pub trait BloomFilter {
    /// Whether the filter's parts fit together. Constructors establish it and
    /// every method keeps it.
    spec fn wf(&self) -> bool;

    /// The numbers that the filter was built from.
    spec fn parameters(&self) -> Parameters;

    /// Whether every bit that the filter derives for `item` is set.
    spec fn holds(&self, item: Seq<u8>) -> bool;

    /// The name of the implementation.
    fn name(&self) -> (name: &str)
        ensures
            name@ == Self::NAME@,
    {
        Self::NAME
    }

    /// The name that `name` gives: empty, unless the implementation states
    /// its own.
    const NAME: &'static str = "";

    /// Sets the bits for `item`. From then on the filter holds `item`, and it
    /// still holds whatever it held before.
    fn mark(&mut self, item: &[u8])
        requires
            old(self).wf(),
        ensures
            final(self).wf(),
            final(self).parameters() == old(self).parameters(),
            final(self).holds(item@),
            forall|other: Seq<u8>| old(self).holds(other) ==> #[trigger] final(self).holds(other),
    ;

    /// True if the bits for `item` are all set.
    fn check(&self, item: &[u8]) -> (present: bool)
        requires
            self.wf(),
        ensures
            present == self.holds(item@),
    ;

    /// The estimated set size of the filter.
    fn set_size(&self) -> (n: usize)
        ensures
            n == self.parameters().set_size,
    ;

    /// The number of bits per member in the filter.
    fn bits_per_member(&self) -> (c: usize)
        ensures
            c == self.parameters().bits_per_member,
    ;

    /// The number of hash functions used.
    fn hash_count(&self) -> (k: usize)
        ensures
            k == self.parameters().hash_count,
    ;
}

/// The natural logarithm of 2 as a count of 2^-64ths, rounded down.
pub const LN2_Q64: u64 = 12_786_308_645_202_655_659;

/// `c` times `LN2_Q64 / 2^64`, rounded up to a whole number.
pub open spec fn optimal_hash_count(c: nat) -> nat {
    ((c * LN2_Q64 + 0xffff_ffff_ffff_ffff) / 0x1_0000_0000_0000_0000) as nat
}

/// The optimal count is the ceiling of the product: in 2^-64ths, the product
/// is above `count - 1` and not above `count`. It never exceeds `c`.
pub proof fn lemma_optimal_hash_count_is_ceiling(c: nat)
    ensures
        c * LN2_Q64 <= optimal_hash_count(c) * 0x1_0000_0000_0000_0000,
        (optimal_hash_count(c) - 1) * 0x1_0000_0000_0000_0000 < c * LN2_Q64,
        optimal_hash_count(c) <= c,
{
    let unit = 0x1_0000_0000_0000_0000int;
    let padded = c * LN2_Q64 + 0xffff_ffff_ffff_ffff;
    let count = padded / unit;
    vstd::arithmetic::div_mod::lemma_fundamental_div_mod(padded, unit);
    vstd::arithmetic::div_mod::lemma_mod_bound(padded, unit);
    assert(unit * count == count * unit) by (nonlinear_arith);
    assert(0 <= c * LN2_Q64 <= c * (unit - 1)) by (nonlinear_arith)
        requires
            LN2_Q64 <= unit - 1,
            c >= 0,
    ;
    assert(count <= c) by (nonlinear_arith)
        requires
            count * unit <= padded,
            padded <= c * (unit - 1) + unit - 1,
            unit > 0,
            c >= 0,
    ;
    assert(count >= 0) by (nonlinear_arith)
        requires
            padded >= 0,
            padded < count * unit + unit,
            unit > 0,
    ;
}

/// The number of hash functions that makes false positives least likely for
/// `c` bits per member: `c` times the natural logarithm of 2, rounded up.
/// The logarithm is taken as `LN2_Q64 / 2^64`.
pub fn optimal_hashers(c: usize) -> (k: usize)
    ensures
        k == optimal_hash_count(c as nat),
{
    proof {
        lemma_optimal_hash_count_is_ceiling(c as nat);
        assert(c * LN2_Q64 + 0xffff_ffff_ffff_ffff <= u128::MAX) by (nonlinear_arith)
            requires
                c <= u64::MAX,
                LN2_Q64 <= u64::MAX,
        ;
    }
    let padded: u128 = (c as u128) * (LN2_Q64 as u128) + 0xffff_ffff_ffff_ffffu128;
    (padded / 0x1_0000_0000_0000_0000u128) as usize
}

} // verus!
