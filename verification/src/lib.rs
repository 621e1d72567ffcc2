//! A slot allocator over one growable linear address space.
//!
//! [`RangeSet`] keeps the free ranges of an address space: it finds the best
//! fit for a request, merges a released region with the free ranges that touch
//! it, and grows and shrinks the address space at its tail. [`Heap`] owns the
//! storage behind such an address space and allocates, resizes, frees, reads
//! and writes regions of 64-bit slots in it.
//!
//! The contracts are stated over the models in [`model`] and [`live`]: a map
//! from the start of each free range to its length, and a map from the start
//! of each live allocation to its size. [`ordered`] holds the sorted
//! containers that the two indices of a range set are made of.

pub mod heap;
pub mod live;
pub mod model;
pub mod ordered;
pub mod pointer;
pub mod range_set;

pub use heap::Heap;
pub use pointer::Pointer;
pub use range_set::RangeSet;
