//! The standard Bloom filter: one array of bits, and for each item a fixed
//! number of positions in it.

use crate::bit_array::BitArray;
pub use crate::bloom::BloomFilter;
use crate::bloom::Parameters;
use crate::entropy::random_seed;
use crate::hash_until::{sample_index, sampled_index, seeded_digest, seeded_hash};
use crate::index_mask::{index_mask, is_index_mask};
use vstd::prelude::*;

verus! {

/// The `i`-th of the hashes that double hashing derives from two: `h1` plus
/// `i` times `h2`, cut to 64 bits.
pub open spec fn double_hash(h1: u64, h2: u64, i: nat) -> u64 {
    ((h1 + i * h2) % 0x1_0000_0000_0000_0000) as u64
}

/// Computes the `i`-th hash from `h1` and `h2` in wrapping arithmetic.
pub fn combine_hashes(h1: u64, h2: u64, i: usize) -> (combined: u64)
    ensures
        combined == double_hash(h1, h2, i as nat),
{
    let scaled = (i as u64).wrapping_mul(h2);
    proof {
        let range = 0x1_0000_0000_0000_0000int;
        let product = i as int * h2 as int;
        vstd::arithmetic::div_mod::lemma_fundamental_div_mod(product, range);
        vstd::arithmetic::div_mod::lemma_mod_multiples_vanish(
            product / range,
            h1 as int + scaled as int,
            range,
        );
        assert(h1 + product == range * (product / range) + (h1 + scaled));
        if h1 + scaled >= range {
            vstd::arithmetic::div_mod::lemma_mod_multiples_vanish(-1, h1 + scaled, range);
            vstd::arithmetic::div_mod::lemma_small_mod((h1 + scaled - range) as nat, range as nat);
        } else {
            vstd::arithmetic::div_mod::lemma_small_mod((h1 + scaled) as nat, range as nat);
        }
    }
    h1.wrapping_add(scaled)
}

/// What a standard filter is, as plain values: its parameters, its two seeds,
/// its index mask and its bits.
pub struct BloomView {
    /// The estimated number of members.
    pub n: nat,
    /// The number of bits per member.
    pub c: nat,
    /// The number of positions derived for one item.
    pub k: nat,
    /// The seed of the first hash of an item.
    pub seed1: u64,
    /// The seed of the second hash of an item.
    pub seed2: u64,
    /// The mask under which positions are drawn.
    pub mask: u64,
    /// The bits, `true` for a set one.
    pub bits: Seq<bool>,
}

impl BloomView {
    /// The filter has `n * c` bits, a number that is not zero and that a
    /// `usize` can hold; `k` is at least 1 and at most `c`; the mask is the
    /// index mask of the last position.
    pub open spec fn wf(self) -> bool {
        &&& 0 < self.k <= self.c
        &&& 0 < self.n * self.c <= usize::MAX
        &&& self.bits.len() == self.n * self.c
        &&& is_index_mask(self.mask, (self.bits.len() - 1) as u64)
    }

    /// The empty filter of the given parameters and seeds.
    pub open spec fn empty(n: nat, c: nat, k: nat, seed1: u64, seed2: u64, mask: u64) -> BloomView {
        BloomView { n, c, k, seed1, seed2, mask, bits: Seq::new(n * c, |bit: int| false) }
    }

    /// The `i`-th position of `item`: the two seeded hashes of the item are
    /// combined by double hashing, and rejection sampling draws from the
    /// result an index below the number of bits.
    pub open spec fn position(self, item: Seq<u8>, i: nat) -> nat {
        sampled_index(
            double_hash(seeded_digest(self.seed1, item), seeded_digest(self.seed2, item), i),
            self.mask,
            (self.bits.len() - 1) as u64,
        ) as nat
    }

    /// The `k` positions of `item`, in the order in which they are derived.
    /// A position may occur more than once.
    pub open spec fn positions(self, item: Seq<u8>) -> Seq<usize> {
        Seq::new(self.k, |i: int| self.position(item, i as nat) as usize)
    }

    /// Whether `bit` is one of the positions of `item`.
    pub open spec fn touches(self, item: Seq<u8>, bit: int) -> bool {
        exists|i: nat| i < self.k && #[trigger] self.position(item, i) == bit
    }

    /// Whether the bits at all positions of `item` are set.
    pub open spec fn holds(self, item: Seq<u8>) -> bool {
        forall|i: nat| i < self.k ==> self.bits[#[trigger] self.position(item, i) as int]
    }

    /// The filter after `item` was marked: the bits at its positions are set,
    /// all others are as before.
    pub open spec fn mark(self, item: Seq<u8>) -> BloomView {
        BloomView {
            bits: Seq::new(self.bits.len(), |bit: int| self.bits[bit] || self.touches(item, bit)),
            ..self
        }
    }

    /// The filter after the items of `items` were marked one after the other.
    pub open spec fn mark_all(self, items: Seq<Seq<u8>>) -> BloomView
        decreases items.len(),
    {
        if items.len() == 0 {
            self
        } else {
            self.mark_all(items.drop_last()).mark(items.last())
        }
    }
}

/// A standard Bloom filter over byte strings.
#[derive(Debug)]
pub struct StandardBloom {
    k: usize,
    seed1: u64,
    seed2: u64,
    bits: BitArray,
    mask: u64,
    n: usize,
    c: usize,
}

impl View for StandardBloom {
    type V = BloomView;

    closed spec fn view(&self) -> BloomView {
        BloomView {
            n: self.n as nat,
            c: self.c as nat,
            k: self.k as nat,
            seed1: self.seed1,
            seed2: self.seed2,
            mask: self.mask,
            bits: self.bits@,
        }
    }
}

impl StandardBloom {
    /// Whether the filter is well formed: its view is, and its storage is.
    pub open spec fn wf(&self) -> bool {
        &&& self@.wf()
        &&& self.storage_wf()
    }

    /// Whether the bit array that holds the filter's bits is well formed.
    pub closed spec fn storage_wf(&self) -> bool {
        self.bits.wf()
    }

    /// An empty filter for about `n` members with `c` bits for each and `k`
    /// hash functions, under seeds drawn at random.
    pub fn new(n: usize, c: usize, k: usize) -> (filter: StandardBloom)
        requires
            0 < k <= c,
            0 < n * c <= usize::MAX,
        ensures
            filter.wf(),
            filter@ == BloomView::empty(
                n as nat,
                c as nat,
                k as nat,
                filter@.seed1,
                filter@.seed2,
                filter@.mask,
            ),
            forall|item: Seq<u8>| !(#[trigger] filter@.holds(item)),
    {
        let seed1 = random_seed();
        let seed2 = random_seed();
        StandardBloom::new_with_seeds(n, c, k, seed1, seed2)
    }

    /// Like `new`, but with the two hash seeds given.
    pub fn new_with_seeds(n: usize, c: usize, k: usize, seed1: u64, seed2: u64) -> (filter:
        StandardBloom)
        requires
            0 < k <= c,
            0 < n * c <= usize::MAX,
        ensures
            filter.wf(),
            filter@ == BloomView::empty(n as nat, c as nat, k as nat, seed1, seed2, filter@.mask),
            forall|item: Seq<u8>| !(#[trigger] filter@.holds(item)),
    {
        let bits = n * c;
        let max_bit_index = bits - 1;
        let filter = StandardBloom {
            n,
            c,
            k,
            seed1,
            seed2,
            bits: BitArray::new(bits),
            mask: index_mask(max_bit_index as u64),
        };
        proof {
            assert forall|item: Seq<u8>| !(#[trigger] filter@.holds(item)) by {
                filter@.lemma_empty_holds_nothing(item);
            }
        }
        filter
    }

    /// The positions of `item`: the indices of the `k` bits that stand for it.
    pub fn hash(&self, item: &[u8]) -> (positions: Vec<usize>)
        requires
            self.wf(),
        ensures
            positions@ == self@.positions(item@),
            forall|i: int| 0 <= i < positions@.len() ==> positions@[i] < self@.bits.len(),
    {
        let h1 = seeded_hash(self.seed1, item);
        let h2 = seeded_hash(self.seed2, item);
        let upper = (self.bits.width() - 1) as u64;
        let mut positions: Vec<usize> = Vec::new();
        let mut i: usize = 0;
        while i < self.k
            invariant
                self.wf(),
                i <= self.k,
                h1 == seeded_digest(self.seed1, item@),
                h2 == seeded_digest(self.seed2, item@),
                upper == self@.bits.len() - 1,
                positions@.len() == i,
                forall|j: int| 0 <= j < i ==> positions@[j] == self@.position(item@, j as nat),
                forall|j: int| 0 <= j < i ==> positions@[j] < self@.bits.len(),
            decreases self.k - i,
        {
            let combined = combine_hashes(h1, h2, i);
            let index = sample_index(combined, self.mask, upper);
            positions.push(index as usize);
            i += 1;
        }
        assert(positions@ =~= self@.positions(item@));
        positions
    }
}

proof fn lemma_positions_by_index(positions: Seq<usize>, filter: BloomView, item: Seq<u8>)
    requires
        filter.wf(),
        positions == filter.positions(item),
    ensures
        positions.len() == filter.k,
        forall|i: int|
            0 <= i < positions.len() ==> #[trigger] positions[i] == filter.position(item, i as nat),
{
    assert forall|i: int| 0 <= i < positions.len() implies #[trigger] positions[i]
        == filter.position(item, i as nat) by {
        filter.lemma_position_in_range(item, i as nat);
    }
}

impl BloomFilter for StandardBloom {
    open spec fn wf(&self) -> bool {
        StandardBloom::wf(self)
    }

    open spec fn parameters(&self) -> Parameters {
        Parameters { set_size: self@.n, bits_per_member: self@.c, hash_count: self@.k }
    }

    open spec fn holds(&self, item: Seq<u8>) -> bool {
        self@.holds(item)
    }

    fn name(&self) -> (name: &str)
        ensures
            name@ == "standard"@,
    {
        "standard"
    }

    const NAME: &'static str = "standard";

    fn mark(&mut self, item: &[u8])
        ensures
            final(self)@ == old(self)@.mark(item@),
    {
        let positions = self.hash(item);
        proof {
            lemma_positions_by_index(positions@, self@, item@);
        }
        let mut i: usize = 0;
        while i < positions.len()
            invariant
                self.wf(),
                i <= positions@.len(),
                positions@.len() == old(self)@.k,
                forall|j: int|
                    0 <= j < positions@.len() ==> positions@[j] == old(self)@.position(
                        item@,
                        j as nat,
                    ),
                forall|j: int| 0 <= j < positions@.len() ==> positions@[j] < old(self)@.bits.len(),
                self@ == (BloomView { bits: self@.bits, ..old(self)@ }),
                self@.bits =~= Seq::new(
                    old(self)@.bits.len(),
                    |bit: int|
                        old(self)@.bits[bit] || exists|j: nat|
                            j < i && #[trigger] old(self)@.position(item@, j) == bit,
                ),
            decreases positions@.len() - i,
        {
            self.bits.set(positions[i]);
            proof {
                let after = Seq::new(
                    old(self)@.bits.len(),
                    |bit: int|
                        old(self)@.bits[bit] || exists|j: nat|
                            j < i + 1 && #[trigger] old(self)@.position(item@, j) == bit,
                );
                assert(positions@[i as int] == old(self)@.position(item@, i as nat));
                assert(self@.bits =~= after);
            }
            i += 1;
        }
        proof {
            assert(self@.bits =~= old(self)@.mark(item@).bits);
            old(self)@.lemma_mark_holds(item@);
            assert forall|other: Seq<u8>| old(self)@.holds(other) implies #[trigger] self@.holds(
                other,
            ) by {
                old(self)@.lemma_mark_keeps(item@, other);
            }
        }
    }

    fn check(&self, item: &[u8]) -> (present: bool) {
        let positions = self.hash(item);
        proof {
            lemma_positions_by_index(positions@, self@, item@);
        }
        let mut i: usize = 0;
        while i < positions.len()
            invariant
                self.wf(),
                i <= positions@.len(),
                positions@.len() == self@.k,
                forall|j: int|
                    0 <= j < positions@.len() ==> positions@[j] == self@.position(item@, j as nat),
                forall|j: int| 0 <= j < positions@.len() ==> positions@[j] < self@.bits.len(),
                forall|j: nat| j < i ==> self@.bits[#[trigger] self@.position(item@, j) as int],
            decreases positions@.len() - i,
        {
            if !self.bits.get(positions[i]) {
                assert(!self@.bits[self@.position(item@, i as nat) as int]);
                return false;
            }
            i += 1;
        }
        true
    }

    fn set_size(&self) -> (n: usize) {
        self.n
    }

    fn bits_per_member(&self) -> (c: usize) {
        self.c
    }

    fn hash_count(&self) -> (k: usize) {
        self.k
    }
}

impl BloomView {
    /// Every position of an item is the index of a bit of the filter.
    pub proof fn lemma_position_in_range(self, item: Seq<u8>, i: nat)
        requires
            self.wf(),
        ensures
            self.position(item, i) < self.bits.len(),
    {
        crate::hash_until::lemma_sampled_index_in_range(
            double_hash(seeded_digest(self.seed1, item), seeded_digest(self.seed2, item), i),
            self.mask,
            (self.bits.len() - 1) as u64,
        );
    }

    /// Marking leaves the parameters, the seeds and the number of bits as
    /// they are, and so the positions of every item.
    pub proof fn lemma_mark_keeps_positions(self, item: Seq<u8>, other: Seq<u8>, i: nat)
        ensures
            self.mark(item).wf() == self.wf(),
            self.mark(item).position(other, i) == self.position(other, i),
    {
    }

    /// No false negatives: a filter holds an item as soon as it was marked.
    pub proof fn lemma_mark_holds(self, item: Seq<u8>)
        requires
            self.wf(),
        ensures
            self.mark(item).holds(item),
    {
        let marked = self.mark(item);
        assert forall|i: nat| i < marked.k implies marked.bits[#[trigger] marked.position(
            item,
            i,
        ) as int] by {
            self.lemma_position_in_range(item, i);
            assert(self.position(item, i) == marked.position(item, i));
            assert(self.touches(item, self.position(item, i) as int));
        }
    }

    /// A filter with no bit set holds no item.
    pub proof fn lemma_empty_holds_nothing(self, item: Seq<u8>)
        requires
            self.wf(),
            forall|bit: int| 0 <= bit < self.bits.len() ==> !self.bits[bit],
        ensures
            !self.holds(item),
    {
        self.lemma_position_in_range(item, 0);
    }

    /// Marking never clears a bit: what a filter holds, it still holds after
    /// any item was marked.
    pub proof fn lemma_mark_keeps(self, item: Seq<u8>, other: Seq<u8>)
        requires
            self.wf(),
            self.holds(other),
        ensures
            self.mark(item).holds(other),
    {
        let marked = self.mark(item);
        assert forall|i: nat| i < marked.k implies marked.bits[#[trigger] marked.position(
            other,
            i,
        ) as int] by {
            self.lemma_position_in_range(other, i);
            assert(self.position(other, i) == marked.position(other, i));
        }
    }

    /// Idempotence: marking an item a second time changes nothing, so no
    /// question put to the filter can tell one marking from two.
    pub proof fn lemma_mark_idempotent(self, item: Seq<u8>)
        ensures
            self.mark(item).mark(item) == self.mark(item),
    {
        let once = self.mark(item);
        let twice = once.mark(item);
        assert forall|bit: int| 0 <= bit < once.bits.len() implies twice.bits[bit]
            == once.bits[bit] by {
            if once.touches(item, bit) {
                let i = choose|i: nat| i < once.k && #[trigger] once.position(item, i) == bit;
                assert(self.position(item, i) == bit);
            }
        }
        assert(twice.bits =~= once.bits);
    }

    /// Marking a run of items keeps a filter well formed and keeps every
    /// item that it held.
    pub proof fn lemma_mark_all_keeps(self, items: Seq<Seq<u8>>, other: Seq<u8>)
        requires
            self.wf(),
        ensures
            self.mark_all(items).wf(),
            self.holds(other) ==> self.mark_all(items).holds(other),
        decreases items.len(),
    {
        if items.len() > 0 {
            let before = self.mark_all(items.drop_last());
            self.lemma_mark_all_keeps(items.drop_last(), other);
            before.lemma_mark_keeps_positions(items.last(), other, 0);
            if self.holds(other) {
                before.lemma_mark_keeps(items.last(), other);
            }
        }
    }

    /// No false negatives, ever: an item that was marked is held after any
    /// number of further items were marked.
    pub proof fn lemma_marked_stays_held(self, item: Seq<u8>, later: Seq<Seq<u8>>)
        requires
            self.wf(),
        ensures
            self.mark(item).mark_all(later).holds(item),
    {
        self.lemma_mark_holds(item);
        self.lemma_mark_keeps_positions(item, item, 0);
        self.mark(item).lemma_mark_all_keeps(later, item);
    }
}

} // verus!
