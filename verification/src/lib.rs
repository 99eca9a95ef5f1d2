//! A bit vector whose storage is a small vector of 256-bit containers,
//! each made of four 64-bit lanes.
//!
//! A `BitVec` of length `n` stands for the set of those `i < n` whose bit is
//! on: its view is a `Seq<bool>` of length `n`.  Every operation is stated
//! over that view, and the library keeps the bits past the end of the vector
//! at zero, so that the number of containers is always the least that holds
//! `n` bits.

pub mod model;
pub mod storage;
pub mod item;
pub mod container;
pub mod bitvec;
pub mod ops;
pub mod laws;

pub use bitvec::{BitVec, BitVecSimd};
pub use container::BitContainer;
pub use item::BitContainerItem;
