//! A hash map keyed by nonzero 64-bit integers.
//!
//! Keys are scrambled by a reversible mixer and only the scrambled
//! fingerprint is stored; the key is recovered by running the inverse mixer.
//! Slots are kept in an ordered open-addressing table without tombstones.

pub mod map;
pub mod mixer;
pub mod rng;
pub mod set;

pub use map::HashMapNZ64;
pub use mixer::Mixer;
pub use rng::Rng;
pub use set::{HashSetNZ64, Iter};
