//! A part of a page that is handed out as a whole.

use crate::handle::{ManagedMemoryHandle, MemoryIds, MemoryLocation};
use crate::storage::StorageHandle;
use vstd::prelude::*;

verus! {

/// A part of a page: `storage.size()` bytes to use, followed by `padding`.
#[derive(Debug)]
pub struct Slice {
    pub storage: StorageHandle,
    /// The page's own handle on the slice; where it is the only one, the slice is free.
    pub handle: ManagedMemoryHandle,
    pub padding: u64,
    /// How far the stream that the slice was bound on had come.
    pub cursor: u64,
}

impl Slice {
    /// The first byte of the slice.
    pub open spec fn start(self) -> int {
        self.storage.utilization.offset as int
    }

    /// The bytes that the slice takes up, padding and all.
    pub open spec fn room(self) -> int {
        self.storage.utilization.size + self.padding
    }

    /// The first byte behind the slice.
    pub open spec fn end(self) -> int {
        self.start() + self.room()
    }

    /// Whether the slice's handle has been at `location`.
    pub open spec fn was_told(self, location: MemoryLocation) -> bool {
        self.handle.shared().locations().contains(location)
    }

    /// A slice of its own, with a new handle.
    pub fn new(storage: StorageHandle, padding: u64, ids: &mut MemoryIds) -> (slice: Self)
        requires
            old(ids).left() > 0,
        ensures
            slice.storage == storage,
            slice.padding == padding,
            slice.cursor == 0,
            slice.handle.id().value == old(ids).next(),
            final(ids).next() == old(ids).next() + 1,
    {
        Slice { storage, handle: ManagedMemoryHandle::new(ids), padding, cursor: 0 }
    }

    /// The bytes that the slice takes up, padding and all.
    pub fn effective_size(&self) -> (size: u64)
        requires
            self.room() <= u64::MAX,
        ensures
            size == self.room(),
    {
        self.storage.size() + self.padding
    }

    /// Whether nobody but the page holds on to the slice.
    pub fn is_free(&self) -> (free: bool)
        ensures
            self.handle.reads_as(free),
    {
        self.handle.is_free()
    }
}

} // verus!
