use vstd::prelude::*;

verus! {

/// A handle for a slot offset in the address space of a heap.
///
/// Pointers are ordered by address. A pointer carries no size: whoever holds
/// one also remembers how many slots it stands for.
#[derive(Debug, Clone, Copy, PartialEq, Eq, PartialOrd, Ord, Structural)]
pub struct Pointer(pub u64);

impl Pointer {
    /// The handle for the slot at `address`.
    pub fn new(address: u64) -> (pointer: Pointer)
        ensures
            pointer.0 == address,
    {
        Pointer(address)
    }

    /// The slot offset that this handle names.
    pub fn address(&self) -> (address: u64)
        ensures
            address == self.0,
    {
        self.0
    }
}

} // verus!
