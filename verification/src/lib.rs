//! The pieces every search here shares: the hash, the lookup, the tables and the result files.
//!
//! Recovering an asset name is two halves. Harvesting produces candidate strings; confirming
//! hashes those candidates and looks for the result among the ids the loader is holding. What
//! every search has in common lives here: the hash, computed the game's way, and the lookup,
//! which has to answer hundreds of billions of times and so is a filter before it is a map.

pub mod adapters;
pub mod filter;
pub mod hash;
pub mod listing;
pub mod names;
pub mod notes;
pub mod offer;
pub mod order;
pub mod ports;
pub mod pools;
pub mod results;
pub mod search;
pub mod text;

pub use filter::Filter;
pub use hash::{feed, feed_raw, feed_with, hash64, hash64_raw, id_of, peel, peel_raw, peel_with};

use vstd::prelude::*;

verus! {

/// The hash the tools use: FNV-1a, 64 bit.
pub const BASIS: u64 = 0xCBF2_9CE4_8422_2325;

/// FNV-1a's multiplier.
pub const PRIME: u64 = 0x0000_0100_0000_01B3;

/// The inverse of the prime, modulo 2^64. The prime is odd, so it has one; `hash::lemma_inverse`
/// proves that this is it.
///
/// This is what makes the hash reversible: a byte fed in can be taken back out again, exactly.
pub const PRIME_INVERSE: u64 = 0xCE96_5057_AFF6_957B;

/// Every id the loader hands out has bit 63 clear, so a name matches under one spelling only.
pub const ID_MASK: u64 = 0x7FFF_FFFF_FFFF_FFFF;

} // verus!
