//! Bit-vector primitives over arrays of 64-bit words.
//!
//! A `Vec<u64>` is treated as a flat vector of bits, packed
//! least-significant-bit first: bit `i` lives in word `i / 64` at bit
//! position `i % 64`. The library offers three primitives over that
//! representation: copying an arbitrary, unaligned run of bits between two
//! arrays (`bit_blit::blit`), locating the first or last set bit of a range
//! (`bit_search`), and walking all set bits of a range in either direction
//! (`bit_iter`).

pub mod bit_blit;
pub mod bit_iter;
pub mod bit_search;
pub mod word;

pub use bit_blit::blit;
pub use bit_iter::backward_iter_ones;
pub use bit_iter::iter_ones;
pub use bit_iter::BackwardOnesIterator;
pub use bit_iter::ForwardOnesIterator;
pub use bit_search::find_first_one;
pub use bit_search::find_last_one;
