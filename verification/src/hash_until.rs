//! Seeded hashing, and rejection sampling by hashing again.
//!
//! Every digest comes from a fresh `DefaultHasher` of the standard library. A
//! 64-bit value is written to it as its eight bytes, least significant first.

use std::collections::hash_map::DefaultHasher;
use std::hash::Hasher;
use vstd::bytes::{spec_u64_to_le_bytes, u64_to_le_bytes};
use vstd::prelude::*;
use vstd::std_specs::hash::DefaultHasherAdditionalSpecFns;

verus! {

/// The digest of a fresh hasher to which `seed` and then the bytes of `item`
/// were written.
pub open spec fn seeded_digest(seed: u64, item: Seq<u8>) -> u64 {
    DefaultHasher::spec_finish(seq![spec_u64_to_le_bytes(seed), item])
}

/// The digest of a fresh hasher to which `value` alone was written.
pub open spec fn rehashed(value: u64) -> u64 {
    DefaultHasher::spec_finish(seq![spec_u64_to_le_bytes(value)])
}

/// The value reached from `initial` by hashing again `steps` times.
pub open spec fn orbit(initial: u64, steps: nat) -> u64
    decreases steps,
{
    if steps == 0 {
        initial
    } else {
        rehashed(orbit(initial, (steps - 1) as nat))
    }
}

/// Hashes `item` under `seed`: the seed goes into a fresh hasher first, the
/// item's bytes after it.
pub fn seeded_hash(seed: u64, item: &[u8]) -> (digest: u64)
    ensures
        digest == seeded_digest(seed, item@),
{
    let mut hasher = DefaultHasher::new();
    let seed_bytes = u64_to_le_bytes(seed);
    hasher.write(seed_bytes.as_slice());
    hasher.write(item);
    assert(hasher@ =~= seq![spec_u64_to_le_bytes(seed), item@]);
    hasher.finish()
}

/// Hashes `value` again: it seeds a fresh hasher, and nothing else does.
pub fn rehash(value: u64) -> (next: u64)
    ensures
        next == rehashed(value),
{
    let mut hasher = DefaultHasher::new();
    let bytes = u64_to_le_bytes(value);
    hasher.write(bytes.as_slice());
    assert(hasher@ =~= seq![spec_u64_to_le_bytes(value)]);
    hasher.finish()
}

/// The most times that one draw hashes again before it gives up.
pub const REHASH_LIMIT: u64 = 1_048_576;

/// `prop` may answer `true` for `value`.
pub open spec fn accepted<F: Fn(u64) -> bool>(prop: F, value: u64) -> bool {
    call_ensures(prop, (value,), true)
}

/// `prop` may answer `false` for `value`.
pub open spec fn rejected<F: Fn(u64) -> bool>(prop: F, value: u64) -> bool {
    call_ensures(prop, (value,), false)
}

/// Whether a search from `initial` that tests `prop` on each value and
/// hashes again after each rejection ends after `steps` rounds of hashing,
/// with `found` in hand: everything before `found` was rejected, and `found`
/// itself was accepted, or was rejected when the limit was reached.
pub open spec fn stops_at<F: Fn(u64) -> bool>(
    prop: F,
    initial: u64,
    steps: nat,
    found: u64,
) -> bool {
    &&& steps <= REHASH_LIMIT
    &&& found == orbit(initial, steps)
    &&& forall|earlier: nat| earlier < steps ==> rejected(prop, #[trigger] orbit(initial, earlier))
    &&& (accepted(prop, found) || (steps == REHASH_LIMIT && rejected(prop, found)))
}

/// Starting with `initial`, hashes the value in hand again until `prop`
/// accepts it, and returns the accepted value. An `initial` that `prop`
/// accepts comes back unchanged, with no hashing done.
///
/// The search is bounded: after `REHASH_LIMIT` rounds of hashing it returns
/// the value in hand even though `prop` has rejected it too.
pub fn hash_until<F: Fn(u64) -> bool>(initial: u64, prop: F) -> (found: u64)
    requires
        forall|value: u64| call_requires(prop, (value,)),
    ensures
        exists|steps: nat| stops_at(prop, initial, steps, found),
        !rejected(prop, initial) ==> found == initial,
{
    let mut found = initial;
    let mut steps: u64 = 0;
    loop
        invariant
            forall|value: u64| call_requires(prop, (value,)),
            steps <= REHASH_LIMIT,
            found == orbit(initial, steps as nat),
            forall|earlier: nat|
                earlier < steps ==> rejected(prop, #[trigger] orbit(initial, earlier)),
            steps > 0 ==> rejected(prop, initial),
        decreases REHASH_LIMIT - steps,
    {
        if prop(found) {
            assert(stops_at(prop, initial, steps as nat, found));
            return found;
        }
        if steps == REHASH_LIMIT {
            assert(stops_at(prop, initial, steps as nat, found));
            return found;
        }
        found = rehash(found);
        steps = steps + 1;
    }
}

/// Whether `value`, masked, is an index up to `upper`.
pub open spec fn in_range(value: u64, mask: u64, upper: u64) -> bool {
    (value & mask) <= upper
}

/// The first of `value`, `rehashed(value)`, `rehashed(rehashed(value))`, ...
/// that is in range, or the one reached after `budget` rounds of hashing if
/// none up to there is.
pub open spec fn settled(value: u64, mask: u64, upper: u64, budget: nat) -> u64
    decreases budget,
{
    if in_range(value, mask, upper) || budget == 0 {
        value
    } else {
        settled(rehashed(value), mask, upper, (budget - 1) as nat)
    }
}

/// The index up to `upper` that rejection sampling draws from `initial`: the
/// masked value of the first hash in range. Should none be in range within
/// the limit, the last hash is cut down to the bits of `upper` instead.
pub open spec fn sampled_index(initial: u64, mask: u64, upper: u64) -> u64 {
    let drawn = settled(initial, mask, upper, REHASH_LIMIT as nat);
    if in_range(drawn, mask, upper) {
        drawn & mask
    } else {
        drawn & upper
    }
}

/// A sampled index never exceeds `upper`.
pub proof fn lemma_sampled_index_in_range(initial: u64, mask: u64, upper: u64)
    ensures
        sampled_index(initial, mask, upper) <= upper,
{
    let drawn = settled(initial, mask, upper, REHASH_LIMIT as nat);
    assert(drawn & upper <= upper) by (bit_vector);
}

proof fn lemma_settled_skips_rejected(
    initial: u64,
    mask: u64,
    upper: u64,
    steps: nat,
    budget: nat,
)
    requires
        steps <= budget,
        forall|earlier: nat|
            earlier < steps ==> !in_range(#[trigger] orbit(initial, earlier), mask, upper),
    ensures
        settled(initial, mask, upper, budget) == settled(
            orbit(initial, steps),
            mask,
            upper,
            (budget - steps) as nat,
        ),
    decreases steps,
{
    if steps > 0 {
        let before = (steps - 1) as nat;
        lemma_settled_skips_rejected(initial, mask, upper, before, budget);
        assert(!in_range(orbit(initial, before), mask, upper));
    }
}

/// Draws an index from 0 to `upper` out of `initial` by rejection sampling
/// under `mask`: a hash whose masked value is above `upper` is hashed again,
/// so that no index is favoured the way a remainder would favour the low
/// ones.
pub fn sample_index(initial: u64, mask: u64, upper: u64) -> (index: u64)
    ensures
        index == sampled_index(initial, mask, upper),
        index <= upper,
{
    let prop = |hash: u64| -> (usable: bool)
        ensures
            usable == in_range(hash, mask, upper),
        { (hash & mask) <= upper };
    let drawn = hash_until(initial, prop);
    proof {
        let steps = choose|steps: nat| stops_at(prop, initial, steps, drawn);
        assert forall|earlier: nat| earlier < steps implies !in_range(
            #[trigger] orbit(initial, earlier),
            mask,
            upper,
        ) by {
            assert(rejected(prop, orbit(initial, earlier)));
        }
        lemma_settled_skips_rejected(initial, mask, upper, steps, REHASH_LIMIT as nat);
        assert(drawn & upper <= upper) by (bit_vector);
    }
    if (drawn & mask) <= upper {
        drawn & mask
    } else {
        drawn & upper
    }
}

} // verus!
