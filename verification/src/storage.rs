//! The memory that pools hand out in parts.

use crate::error::IoError;
use vstd::prelude::*;

verus! {

/// Identifies one allocation of a storage.
#[derive(Clone, Copy, Debug, PartialEq, Eq, Hash, Structural)]
pub struct StorageId {
    pub value: usize,
}

/// The part of an allocation that is in use.
#[derive(Clone, Copy, Debug, PartialEq, Eq, Hash, Structural)]
pub struct StorageUtilization {
    /// The first byte.
    pub offset: u64,
    /// The number of bytes.
    pub size: u64,
}

/// An allocation, and the part of it that is meant.
#[derive(Clone, Copy, Debug, PartialEq, Eq, Hash, Structural)]
pub struct StorageHandle {
    pub id: StorageId,
    pub utilization: StorageUtilization,
}

impl StorageHandle {
    /// The number of bytes in use.
    pub fn size(&self) -> (size: u64)
        ensures
            size == self.utilization.size,
    {
        self.utilization.size
    }

    /// The first byte in use.
    pub fn offset(&self) -> (offset: u64)
        ensures
            offset == self.utilization.offset,
    {
        self.utilization.offset
    }
}

/// A call on a storage.
pub enum StorageCall {
    Alloc { size: u64, reply: Result<StorageHandle, IoError> },
    Dealloc { id: StorageId },
}

/// Allocates and deallocates memory.
pub trait ComputeStorage {
    /// The calls made on this storage so far, the oldest first.
    spec fn calls(&self) -> Seq<StorageCall>;

    /// Allocates `size` bytes. The handle covers all of them, and nothing else.
    fn allocate(&mut self, size: u64) -> (reply: Result<StorageHandle, IoError>)
        ensures
            final(self).calls() == old(self).calls().push(StorageCall::Alloc { size, reply }),
            reply matches Ok(handle) ==> handle.utilization == (StorageUtilization {
                offset: 0,
                size,
            }),
    ;

    /// Deallocates the memory that `id` names.
    fn dealloc(&mut self, id: StorageId)
        ensures
            final(self).calls() == old(self).calls().push(StorageCall::Dealloc { id }),
    ;
}

/// A storage in the memory of the process.
pub struct BytesStorage {
    buffers: Vec<(StorageId, Vec<u8>)>,
    next_id: usize,
    calls: Ghost<Seq<StorageCall>>,
}

impl BytesStorage {
    /// The allocations that are there, with their bytes.
    pub closed spec fn buffers(&self) -> Seq<(StorageId, Vec<u8>)> {
        self.buffers@
    }

    /// The next allocation's identifier.
    pub closed spec fn next_id(&self) -> usize {
        self.next_id
    }

    /// The position of the allocation that `id` names, or the number of
    /// allocations where there is none.
    fn position(&self, id: StorageId) -> (position: usize)
        ensures
            position <= self.buffers().len(),
            position < self.buffers().len() ==> self.buffers()[position as int].0 == id,
            forall|i: int| 0 <= i < position ==> self.buffers()[i].0 != id,
    {
        let mut position: usize = 0;
        while position < self.buffers.len()
            invariant
                position <= self.buffers@.len(),
                forall|i: int| 0 <= i < position ==> self.buffers@[i].0 != id,
            decreases self.buffers@.len() - position,
        {
            if self.buffers[position].0 == id {
                return position;
            }
            position = position + 1;
        }
        position
    }
}

impl Default for BytesStorage {
    fn default() -> (storage: Self)
        ensures
            storage.buffers() == Seq::<(StorageId, Vec<u8>)>::empty(),
            storage.next_id() == 0,
            storage.calls() == Seq::<StorageCall>::empty(),
    {
        BytesStorage { buffers: Vec::new(), next_id: 0, calls: Ghost(Seq::empty()) }
    }
}

impl ComputeStorage for BytesStorage {
    closed spec fn calls(&self) -> Seq<StorageCall> {
        self.calls@
    }

    /// Adds a buffer of zeros, unless the process cannot address that many bytes
    /// or identifiers have run out.
    fn allocate(&mut self, size: u64) -> (reply: Result<StorageHandle, IoError>)
        ensures
            match reply {
                Ok(handle) => {
                    &&& size <= isize::MAX && old(self).next_id() < usize::MAX
                    &&& handle.id.value == old(self).next_id()
                    &&& final(self).next_id() == old(self).next_id() + 1
                    &&& final(self).buffers().len() == old(self).buffers().len() + 1
                    &&& final(self).buffers().drop_last() == old(self).buffers()
                    &&& final(self).buffers().last().0 == handle.id
                    &&& final(self).buffers().last().1@ == Seq::new(size as nat, |i: int| 0u8)
                },
                Err(error) => {
                    &&& size > isize::MAX || old(self).next_id() == usize::MAX
                    &&& error == (IoError::BufferTooBig { size })
                    &&& final(self).next_id() == old(self).next_id()
                    &&& final(self).buffers() == old(self).buffers()
                },
            },
    {
        if size > isize::MAX as u64 || self.next_id == usize::MAX {
            let reply = Err(IoError::BufferTooBig { size });
            self.calls = Ghost(self.calls@.push(StorageCall::Alloc { size, reply }));
            return reply;
        }
        let id = StorageId { value: self.next_id };
        self.next_id = self.next_id + 1;
        let bytes: Vec<u8> = vec![0u8; size as usize];
        assert(bytes@ =~= Seq::new(size as nat, |i: int| 0u8));
        self.buffers.push((id, bytes));
        assert(self.buffers@.drop_last() =~= old(self).buffers@);
        let reply = Ok(StorageHandle { id, utilization: StorageUtilization { offset: 0, size } });
        self.calls = Ghost(self.calls@.push(StorageCall::Alloc { size, reply }));
        reply
    }

    /// Drops the buffer that `id` names, if there is one.
    fn dealloc(&mut self, id: StorageId)
        ensures
            final(self).next_id() == old(self).next_id(),
            (forall|i: int| 0 <= i < old(self).buffers().len() ==> old(self).buffers()[i].0 != id)
                ==> final(self).buffers() == old(self).buffers(),
            forall|i: int| #![trigger old(self).buffers()[i]]
                0 <= i < old(self).buffers().len() && old(self).buffers()[i].0 == id && (forall|
                    j: int,
                |
                    0 <= j < i ==> old(self).buffers()[j].0 != id) ==> final(self).buffers() == old(
                    self,
                ).buffers().remove(i),
    {
        let position: usize = self.position(id);
        if position < self.buffers.len() {
            let _ = self.buffers.remove(position);
        }
        self.calls = Ghost(self.calls@.push(StorageCall::Dealloc { id }));
    }
}

} // verus!
