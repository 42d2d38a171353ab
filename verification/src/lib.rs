//! Lazy generation of all k-permutations of a finite sequence.
//!
//! A `Permutations` value enumerates, one at a time, every ordered
//! arrangement of `k` distinct positions drawn from an input buffer of `n`
//! elements.  It is built from a stack of `Permutation` level generators,
//! each of which swaps one pivot position against a moving cursor.

pub mod level;
pub mod driver;

pub use driver::Combinatorial;
pub use driver::Permutations;
pub use level::Permutation;
