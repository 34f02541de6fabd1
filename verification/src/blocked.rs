//! The blocked Bloom filter: a row of standard filters, each item routed to
//! one of them by a hash of its own, so that one lookup touches one small
//! array of bits.
//!
//! All blocks are built when the filter is.

pub use crate::bloom::BloomFilter;
use crate::bloom::Parameters;
use crate::entropy::random_seed;
use crate::hash_until::{
    lemma_sampled_index_in_range,
    sample_index,
    sampled_index,
    seeded_digest,
    seeded_hash,
};
use crate::index_mask::{index_mask, is_index_mask};
use crate::standard::{BloomView, StandardBloom};
use vstd::prelude::*;

verus! {

/// `n` divided by `b`, rounded up.
pub open spec fn ceil_div(n: nat, b: nat) -> nat {
    ((n + b - 1) / b as int) as nat
}

/// What a blocked filter is, as plain values: its parameters, the seed and
/// the mask that route an item to its block, and the blocks.
pub struct BlockedView {
    /// The estimated number of members of the whole filter.
    pub n: nat,
    /// The number of bits per member.
    pub c: nat,
    /// The number of positions derived for one item.
    pub k: nat,
    /// The seed of the hash that selects an item's block.
    pub seed: u64,
    /// The mask under which a block's index is drawn.
    pub mask: u64,
    /// The blocks.
    pub blocks: Seq<BloomView>,
}

impl BlockedView {
    /// The number of members that each block is built for.
    pub open spec fn n_per_block(self) -> nat {
        ceil_div(self.n, self.blocks.len())
    }

    /// There is at least one block, and no more than a `usize` can count;
    /// the mask is the index mask of the last block's index; every block is a
    /// well-formed standard filter for `n_per_block()` members, with the `c`
    /// and `k` of the whole.
    pub open spec fn wf(self) -> bool {
        &&& 0 < self.n
        &&& 0 < self.k <= self.c
        &&& 0 < self.blocks.len() <= usize::MAX
        &&& is_index_mask(self.mask, (self.blocks.len() - 1) as u64)
        &&& forall|b: int|
            0 <= b < self.blocks.len() ==> (#[trigger] self.blocks[b]).wf() && self.blocks[b].n
                == self.n_per_block() && self.blocks[b].c == self.c && self.blocks[b].k == self.k
    }

    /// The index of the block that `item` belongs to: rejection sampling
    /// draws it from the hash of the item under the filter's seed.
    pub open spec fn block_of(self, item: Seq<u8>) -> nat {
        sampled_index(
            seeded_digest(self.seed, item),
            self.mask,
            (self.blocks.len() - 1) as u64,
        ) as nat
    }

    /// Whether the block of `item` holds it.
    pub open spec fn holds(self, item: Seq<u8>) -> bool {
        self.blocks[self.block_of(item) as int].holds(item)
    }

    /// The filter after `item` was marked: its block has marked it, the other
    /// blocks are as before.
    pub open spec fn mark(self, item: Seq<u8>) -> BlockedView {
        let b = self.block_of(item) as int;
        BlockedView { blocks: self.blocks.update(b, self.blocks[b].mark(item)), ..self }
    }

    /// The filter after the items of `items` were marked one after the other.
    pub open spec fn mark_all(self, items: Seq<Seq<u8>>) -> BlockedView
        decreases items.len(),
    {
        if items.len() == 0 {
            self
        } else {
            self.mark_all(items.drop_last()).mark(items.last())
        }
    }

    /// Every item's block is one of the filter's blocks.
    pub proof fn lemma_block_in_range(self, item: Seq<u8>)
        requires
            self.wf(),
        ensures
            self.block_of(item) < self.blocks.len(),
    {
        lemma_sampled_index_in_range(
            seeded_digest(self.seed, item),
            self.mask,
            (self.blocks.len() - 1) as u64,
        );
    }

    /// Routing is stable: marking changes neither what the filter was built
    /// from nor the block that any item belongs to.
    pub proof fn lemma_mark_keeps_routing(self, item: Seq<u8>, other: Seq<u8>)
        requires
            self.wf(),
        ensures
            self.mark(item).wf(),
            self.mark(item).block_of(other) == self.block_of(other),
    {
        self.lemma_block_in_range(item);
        let b = self.block_of(item) as int;
        self.blocks[b].lemma_mark_keeps_positions(item, other, 0);
    }

    /// No false negatives: a filter holds an item as soon as it was marked.
    pub proof fn lemma_mark_holds(self, item: Seq<u8>)
        requires
            self.wf(),
        ensures
            self.mark(item).holds(item),
    {
        self.lemma_block_in_range(item);
        self.blocks[self.block_of(item) as int].lemma_mark_holds(item);
    }

    /// Marking never clears a bit: what a filter holds, it still holds after
    /// any item was marked.
    pub proof fn lemma_mark_keeps(self, item: Seq<u8>, other: Seq<u8>)
        requires
            self.wf(),
            self.holds(other),
        ensures
            self.mark(item).holds(other),
    {
        self.lemma_block_in_range(item);
        self.lemma_block_in_range(other);
        if self.block_of(item) == self.block_of(other) {
            self.blocks[self.block_of(item) as int].lemma_mark_keeps(item, other);
        }
    }

    /// Idempotence: marking an item a second time changes nothing.
    pub proof fn lemma_mark_idempotent(self, item: Seq<u8>)
        requires
            self.wf(),
        ensures
            self.mark(item).mark(item) == self.mark(item),
    {
        self.lemma_block_in_range(item);
        let b = self.block_of(item) as int;
        self.blocks[b].lemma_mark_idempotent(item);
        assert(self.mark(item).mark(item).blocks =~= self.mark(item).blocks);
    }

    /// Marking a run of items keeps a filter well formed and keeps every
    /// item that it held.
    pub proof fn lemma_mark_all_keeps(self, items: Seq<Seq<u8>>, other: Seq<u8>)
        requires
            self.wf(),
        ensures
            self.mark_all(items).wf(),
            self.holds(other) ==> self.mark_all(items).holds(other),
        decreases items.len(),
    {
        if items.len() > 0 {
            let before = self.mark_all(items.drop_last());
            self.lemma_mark_all_keeps(items.drop_last(), other);
            before.lemma_mark_keeps_routing(items.last(), other);
            if self.holds(other) {
                before.lemma_mark_keeps(items.last(), other);
            }
        }
    }

    /// No false negatives, ever: an item that was marked is held after any
    /// number of further items were marked.
    pub proof fn lemma_marked_stays_held(self, item: Seq<u8>, later: Seq<Seq<u8>>)
        requires
            self.wf(),
        ensures
            self.mark(item).mark_all(later).holds(item),
    {
        self.lemma_mark_holds(item);
        self.lemma_mark_keeps_routing(item, item);
        self.mark(item).lemma_mark_all_keeps(later, item);
    }

    /// A blocked filter of one block is a standard filter of the same
    /// parameters: the block is built for all `n` members, every item is
    /// routed to it, and the filter holds and marks as the block does.
    pub proof fn lemma_single_block_is_standard(self, item: Seq<u8>)
        requires
            self.wf(),
            self.blocks.len() == 1,
        ensures
            self.blocks[0].n == self.n,
            self.blocks[0].c == self.c,
            self.blocks[0].k == self.k,
            self.block_of(item) == 0,
            self.holds(item) == self.blocks[0].holds(item),
            self.mark(item).blocks == seq![self.blocks[0].mark(item)],
    {
        self.lemma_block_in_range(item);
        assert(self.mark(item).blocks =~= seq![self.blocks[0].mark(item)]);
    }
}

/// A blocked Bloom filter over byte strings.
#[derive(Debug)]
pub struct BlockedBloom {
    blocks: Vec<StandardBloom>,
    hasher_seed: u64,
    mask: u64,
    n: usize,
    c: usize,
    k: usize,
}

impl View for BlockedBloom {
    type V = BlockedView;

    closed spec fn view(&self) -> BlockedView {
        BlockedView {
            n: self.n as nat,
            c: self.c as nat,
            k: self.k as nat,
            seed: self.hasher_seed,
            mask: self.mask,
            blocks: self.blocks@.map_values(|block: StandardBloom| block@),
        }
    }
}

impl BlockedBloom {
    /// Whether the filter is well formed: its view is, and its storage is.
    pub open spec fn wf(&self) -> bool {
        &&& self@.wf()
        &&& self.storage_wf()
    }

    /// Whether every block's storage is well formed.
    pub closed spec fn storage_wf(&self) -> bool {
        forall|b: int| 0 <= b < self.blocks@.len() ==> (#[trigger] self.blocks@[b]).storage_wf()
    }

    proof fn lemma_block_wf(&self, b: int)
        requires
            self.wf(),
            0 <= b < self.blocks@.len(),
        ensures
            self.blocks@[b].wf(),
            self.blocks@[b]@ == self@.blocks[b],
    {
        assert(self.blocks@[b].storage_wf());
        assert(self@.blocks[b].wf());
    }

    /// An empty filter of `b` blocks for about `n` members in all, with `c`
    /// bits for each member and `k` hash functions, under seeds drawn at
    /// random: one for the choice of the block, and two for each block.
    pub fn new(n: usize, c: usize, k: usize, b: usize) -> (filter: BlockedBloom)
        requires
            0 < n,
            0 < k <= c,
            0 < b,
            ceil_div(n as nat, b as nat) * c <= usize::MAX,
        ensures
            filter.wf(),
            filter@.n == n,
            filter@.c == c,
            filter@.k == k,
            filter@.blocks.len() == b,
            forall|i: int|
                0 <= i < b ==> #[trigger] filter@.blocks[i] == BloomView::empty(
                    ceil_div(n as nat, b as nat),
                    c as nat,
                    k as nat,
                    filter@.blocks[i].seed1,
                    filter@.blocks[i].seed2,
                    filter@.blocks[i].mask,
                ),
            forall|item: Seq<u8>| !(#[trigger] filter@.holds(item)),
    {
        let hasher_seed = random_seed();
        let mut block_seeds: Vec<(u64, u64)> = Vec::new();
        let mut i: usize = 0;
        while i < b
            invariant
                i <= b,
                block_seeds@.len() == i,
            decreases b - i,
        {
            let seed1 = random_seed();
            let seed2 = random_seed();
            block_seeds.push((seed1, seed2));
            i += 1;
        }
        BlockedBloom::new_with_seeds(n, c, k, hasher_seed, block_seeds)
    }

    /// Like `new`, but with the seeds given: `hasher_seed` for the choice of
    /// the block, and one pair of `block_seeds` for each block that the
    /// filter is to have.
    pub fn new_with_seeds(
        n: usize,
        c: usize,
        k: usize,
        hasher_seed: u64,
        block_seeds: Vec<(u64, u64)>,
    ) -> (filter: BlockedBloom)
        requires
            0 < n,
            0 < k <= c,
            0 < block_seeds@.len(),
            ceil_div(n as nat, block_seeds@.len()) * c <= usize::MAX,
        ensures
            filter.wf(),
            filter@.n == n,
            filter@.c == c,
            filter@.k == k,
            filter@.seed == hasher_seed,
            filter@.blocks.len() == block_seeds@.len(),
            forall|i: int|
                0 <= i < block_seeds@.len() ==> #[trigger] filter@.blocks[i] == BloomView::empty(
                    ceil_div(n as nat, block_seeds@.len()),
                    c as nat,
                    k as nat,
                    block_seeds@[i].0,
                    block_seeds@[i].1,
                    filter@.blocks[i].mask,
                ),
            forall|item: Seq<u8>| !(#[trigger] filter@.holds(item)),
    {
        let b = block_seeds.len();
        let n_per_block = (n - 1) / b + 1;
        proof {
            vstd::arithmetic::div_mod::lemma_div_plus_one((n - 1) as int, b as int);
            assert(n_per_block == ceil_div(n as nat, b as nat));
            assert(0 < n_per_block * c) by (nonlinear_arith)
                requires
                    0 < n_per_block,
                    0 < c,
            ;
        }
        let max_block_index = b - 1;
        let mut blocks: Vec<StandardBloom> = Vec::new();
        let mut i: usize = 0;
        while i < b
            invariant
                i <= b,
                b == block_seeds@.len(),
                0 < k <= c,
                0 < n_per_block * c <= usize::MAX,
                blocks@.len() == i,
                forall|j: int| 0 <= j < i ==> (#[trigger] blocks@[j]).wf(),
                forall|j: int|
                    0 <= j < i ==> (#[trigger] blocks@[j])@ == BloomView::empty(
                        n_per_block as nat,
                        c as nat,
                        k as nat,
                        block_seeds@[j].0,
                        block_seeds@[j].1,
                        blocks@[j]@.mask,
                    ),
            decreases b - i,
        {
            let seeds = block_seeds[i];
            blocks.push(StandardBloom::new_with_seeds(n_per_block, c, k, seeds.0, seeds.1));
            i += 1;
        }
        let filter = BlockedBloom {
            n,
            c,
            k,
            hasher_seed,
            mask: index_mask(max_block_index as u64),
            blocks,
        };
        proof {
            assert forall|item: Seq<u8>| !(#[trigger] filter@.holds(item)) by {
                filter@.lemma_block_in_range(item);
                let block = filter@.blocks[filter@.block_of(item) as int];
                block.lemma_empty_holds_nothing(item);
            }
        }
        filter
    }

    /// The index of the block that `item` belongs to. It depends on the item
    /// and on the seed that the filter was built with, and on nothing that
    /// marking changes.
    pub fn block_idx(&self, item: &[u8]) -> (idx: usize)
        requires
            self.wf(),
        ensures
            idx == self@.block_of(item@),
            idx < self@.blocks.len(),
    {
        let initial = seeded_hash(self.hasher_seed, item);
        let max_block_index = (self.blocks.len() - 1) as u64;
        sample_index(initial, self.mask, max_block_index) as usize
    }

    /// Sets the bits for `item`, as `mark` does.
    pub fn set(&mut self, item: &[u8])
        requires
            old(self).wf(),
        ensures
            final(self).wf(),
            final(self)@ == old(self)@.mark(item@),
            final(self)@.holds(item@),
            forall|other: Seq<u8>| old(self)@.holds(other) ==> #[trigger] final(self)@.holds(other),
    {
        self.mark(item);
        proof {
            assert forall|other: Seq<u8>| old(self)@.holds(other) implies #[trigger] self@.holds(
                other,
            ) by {
                assert(self.holds(other));
            }
        }
    }

    /// True if the bits for `item` are all set, as `check` tells.
    pub fn get(&self, item: &[u8]) -> (present: bool)
        requires
            self.wf(),
        ensures
            present == self@.holds(item@),
    {
        self.check(item)
    }
}

impl BloomFilter for BlockedBloom {
    open spec fn wf(&self) -> bool {
        BlockedBloom::wf(self)
    }

    open spec fn parameters(&self) -> Parameters {
        Parameters { set_size: self@.n, bits_per_member: self@.c, hash_count: self@.k }
    }

    open spec fn holds(&self, item: Seq<u8>) -> bool {
        self@.holds(item)
    }

    fn name(&self) -> (name: &str)
        ensures
            name@ == "blocked"@,
    {
        "blocked"
    }

    const NAME: &'static str = "blocked";

    fn mark(&mut self, item: &[u8])
        ensures
            final(self)@ == old(self)@.mark(item@),
    {
        let idx = self.block_idx(item);
        proof {
            self.lemma_block_wf(idx as int);
        }
        self.blocks[idx].mark(item);
        proof {
            assert(self@.blocks =~= old(self)@.mark(item@).blocks);
            old(self)@.lemma_mark_keeps_routing(item@, item@);
            old(self)@.lemma_mark_holds(item@);
            assert forall|other: Seq<u8>| old(self)@.holds(other) implies #[trigger] self@.holds(
                other,
            ) by {
                old(self)@.lemma_mark_keeps(item@, other);
            }
        }
    }

    fn check(&self, item: &[u8]) -> (present: bool) {
        let idx = self.block_idx(item);
        proof {
            self.lemma_block_wf(idx as int);
        }
        self.blocks[idx].check(item)
    }

    fn set_size(&self) -> (n: usize) {
        self.n
    }

    fn bits_per_member(&self) -> (c: usize) {
        self.c
    }

    fn hash_count(&self) -> (k: usize) {
        self.k
    }
}

} // verus!
