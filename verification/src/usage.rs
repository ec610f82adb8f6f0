//! How much memory is reserved, and how much of it is in use.

use vstd::prelude::*;

verus! {

#[derive(Clone, Copy, Debug, PartialEq, Eq, Structural)]
pub struct MemoryUsage {
    /// The number of allocations in use.
    pub number_allocs: u64,
    /// The bytes of the allocations in use.
    pub bytes_in_use: u64,
    /// The bytes that pad the allocations in use.
    pub bytes_padding: u64,
    /// All bytes that are held, in use or not.
    pub bytes_reserved: u64,
}

impl MemoryUsage {
    /// Nothing held and nothing in use.
    pub fn none() -> (usage: Self)
        ensures
            usage == (MemoryUsage {
                number_allocs: 0,
                bytes_in_use: 0,
                bytes_padding: 0,
                bytes_reserved: 0,
            }),
    {
        MemoryUsage { number_allocs: 0, bytes_in_use: 0, bytes_padding: 0, bytes_reserved: 0 }
    }

    /// What `self` and `other` amount to together.
    pub fn combine(self, other: MemoryUsage) -> (usage: MemoryUsage)
        requires
            self.number_allocs + other.number_allocs <= u64::MAX,
            self.bytes_in_use + other.bytes_in_use <= u64::MAX,
            self.bytes_padding + other.bytes_padding <= u64::MAX,
            self.bytes_reserved + other.bytes_reserved <= u64::MAX,
        ensures
            usage.number_allocs == self.number_allocs + other.number_allocs,
            usage.bytes_in_use == self.bytes_in_use + other.bytes_in_use,
            usage.bytes_padding == self.bytes_padding + other.bytes_padding,
            usage.bytes_reserved == self.bytes_reserved + other.bytes_reserved,
    {
        MemoryUsage {
            number_allocs: self.number_allocs + other.number_allocs,
            bytes_in_use: self.bytes_in_use + other.bytes_in_use,
            bytes_padding: self.bytes_padding + other.bytes_padding,
            bytes_reserved: self.bytes_reserved + other.bytes_reserved,
        }
    }
}

} // verus!
