//! A fixed-width array of bits packed into 64-bit words.

use vstd::prelude::*;

verus! {

/// Whether bit `bit` of `word` is set, bit 0 being the least significant one.
spec fn word_bit(word: u64, bit: u64) -> bool {
    word & (1u64 << bit) == (1u64 << bit)
}

proof fn lemma_zero_word(bit: u64)
    requires
        bit < 64,
    ensures
        !word_bit(0, bit),
{
    assert(0u64 & (1u64 << bit) != (1u64 << bit)) by (bit_vector)
        requires
            bit < 64,
    ;
}

proof fn lemma_set_word_bit(word: u64, target: u64, bit: u64)
    requires
        target < 64,
        bit < 64,
    ensures
        word_bit(word | (1u64 << target), bit) == (bit == target || word_bit(word, bit)),
{
    assert(((word | (1u64 << target)) & (1u64 << bit) == (1u64 << bit)) == (bit == target || word
        & (1u64 << bit) == (1u64 << bit))) by (bit_vector)
        requires
            target < 64,
            bit < 64,
    ;
}

proof fn lemma_clear_word_bit(word: u64, target: u64, bit: u64)
    requires
        target < 64,
        bit < 64,
    ensures
        word_bit(word & !(1u64 << target), bit) == (bit != target && word_bit(word, bit)),
{
    assert(((word & !(1u64 << target)) & (1u64 << bit) == (1u64 << bit)) == (bit != target && word
        & (1u64 << bit) == (1u64 << bit))) by (bit_vector)
        requires
            target < 64,
            bit < 64,
    ;
}

/// The number of bits that one word of the backing storage holds.
pub fn bits_in_word() -> (bits: usize)
    ensures
        bits == 64,
{
    64
}

/// The index of the word that holds bit `bit`.
pub fn word_index_for_bit(bit: usize) -> (word: usize)
    ensures
        word == bit / 64,
{
    bit / bits_in_word()
}

/// A bit array of a width fixed at construction.
///
/// Its view is the sequence of its bits, `true` for a set bit.
#[derive(Debug)]
pub struct BitArray {
    bits: usize,
    backing: Vec<u64>,
}

impl View for BitArray {
    type V = Seq<bool>;

    closed spec fn view(&self) -> Seq<bool> {
        Seq::new(self.bits as nat, |i: int| word_bit(self.backing@[i / 64], (i % 64) as u64))
    }
}

impl BitArray {
    /// The number of 64-bit words that back the array.
    pub closed spec fn word_count(&self) -> nat {
        self.backing@.len()
    }

    /// The width is not zero, and the array is backed by the smallest number
    /// of whole words that hold its bits.
    pub open spec fn wf(&self) -> bool {
        &&& self@.len() > 0
        &&& self.word_count() == (self@.len() - 1) / 64 + 1
    }

    /// An array of `bit_count` bits, all of them clear.
    pub fn new(bit_count: usize) -> (array: BitArray)
        requires
            bit_count > 0,
        ensures
            array.wf(),
            array@ == Seq::new(bit_count as nat, |i: int| false),
    {
        let max_index = bit_count - 1;
        let words_needed_for_bits = word_index_for_bit(max_index) + 1;
        let array = BitArray { bits: bit_count, backing: vec![0u64; words_needed_for_bits] };
        proof {
            assert forall|i: int| 0 <= i < bit_count implies !(#[trigger] array@[i]) by {
                lemma_zero_word((i % 64) as u64);
            }
        }
        array
    }

    /// Sets bit `bit` if `state` is true and clears it otherwise; every other
    /// bit keeps its state.
    pub fn set_to(&mut self, bit: usize, state: bool)
        requires
            old(self).wf(),
            bit < old(self)@.len(),
        ensures
            final(self).wf(),
            final(self)@ == old(self)@.update(bit as int, state),
    {
        let word_ix = word_index_for_bit(bit);
        let bit_ix = bit % bits_in_word();
        let set_mask = 1u64 << bit_ix;
        let word = self.backing[word_ix];
        if state {
            self.backing.set(word_ix, word | set_mask);
        } else {
            self.backing.set(word_ix, word & !set_mask);
        }
        proof {
            assert forall|i: int| 0 <= i < self.bits implies #[trigger] self@[i] == old(
                self,
            )@.update(bit as int, state)[i] by {
                if i / 64 == word_ix {
                    if state {
                        lemma_set_word_bit(word, bit_ix as u64, (i % 64) as u64);
                    } else {
                        lemma_clear_word_bit(word, bit_ix as u64, (i % 64) as u64);
                    }
                }
            }
        }
    }

    /// Sets bit `bit`.
    pub fn set(&mut self, bit: usize)
        requires
            old(self).wf(),
            bit < old(self)@.len(),
        ensures
            final(self).wf(),
            final(self)@ == old(self)@.update(bit as int, true),
    {
        self.set_to(bit, true)
    }

    /// Clears bit `bit`.
    pub fn clear(&mut self, bit: usize)
        requires
            old(self).wf(),
            bit < old(self)@.len(),
        ensures
            final(self).wf(),
            final(self)@ == old(self)@.update(bit as int, false),
    {
        self.set_to(bit, false)
    }

    /// Whether bit `bit` is set.
    pub fn get(&self, bit: usize) -> (state: bool)
        requires
            self.wf(),
            bit < self@.len(),
        ensures
            state == self@[bit as int],
    {
        let word_ix = word_index_for_bit(bit);
        let bit_ix = bit % bits_in_word();
        let set_mask = 1u64 << bit_ix;
        set_mask == self.backing[word_ix] & set_mask
    }

    /// The number of bits in the array.
    pub fn width(&self) -> (width: usize)
        ensures
            width == self@.len(),
    {
        self.bits
    }
}

/// A bit that is set and then cleared reads as clear, whatever it was
/// before, and the array is as if the bit had only been cleared.
pub proof fn lemma_set_then_clear(bits: Seq<bool>, bit: int)
    requires
        0 <= bit < bits.len(),
    ensures
        !bits.update(bit, true).update(bit, false)[bit],
        bits.update(bit, true).update(bit, false) == bits.update(bit, false),
{
    assert(bits.update(bit, true).update(bit, false) =~= bits.update(bit, false));
}

/// A bit reads as it was left: setting or clearing another bit does not
/// change it. So a bit of a new array that was never set reads as clear.
pub proof fn lemma_other_bit_unchanged(bits: Seq<bool>, bit: int, other: int, state: bool)
    requires
        0 <= bit < bits.len(),
        0 <= other < bits.len(),
        bit != other,
    ensures
        bits.update(other, state)[bit] == bits[bit],
{
}

} // verus!
