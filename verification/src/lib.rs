//! Bloom filters over byte strings: approximate sets that can say "perhaps a
//! member" or "certainly not a member", in a standard form with one array of
//! bits and in a blocked form with a row of small ones.
//!
//! - `bit_array`: the bits, packed into words.
//! - `index_mask`: the mask that cuts a hash down to just enough bits.
//! - `hash_until`: seeded hashing, and rejection sampling of an index.
//! - `bloom`: what every filter offers, and the optimal number of hashes.
//! - `standard`: the standard filter.
//! - `blocked`: the blocked filter.

pub mod bit_array;
pub mod blocked;
pub mod bloom;
mod entropy;
pub mod hash_until;
pub mod index_mask;
pub mod standard;
