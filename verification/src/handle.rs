//! Handles on memory, and what they know of where it is.

use crate::page_key::PageKey;
use std::sync::Arc;
use vstd::prelude::*;

verus! {

/// `spin::Mutex`, a lock around a value. What it guards may change at any time
/// at the hand of another thread.
#[verifier::external_type_specification]
#[verifier::external_body]
#[verifier::reject_recursive_types(T)]
#[verifier::reject_recursive_types(R)]
pub struct ExMutex<T: ?Sized, R>(spin::mutex::Mutex<T, R>);

/// `spin::Spin`, how a `spin::Mutex` waits.
#[verifier::external_type_specification]
#[verifier::external_body]
pub struct ExSpin(spin::Spin);

/// Managed memory unique identifier.
#[derive(Clone, Copy, Debug, PartialEq, Eq, Hash, Structural)]
pub struct ManagedMemoryId {
    pub value: usize,
}

/// Numbers memory, and never gives out a number twice.
pub struct MemoryIds {
    next: usize,
}

impl MemoryIds {
    /// The next number. All numbers given out so far are smaller.
    pub closed spec fn next(self) -> usize {
        self.next
    }

    /// How many numbers are left.
    pub open spec fn left(self) -> int {
        usize::MAX - self.next()
    }

    pub fn new() -> (ids: Self)
        ensures
            ids.next() == 0,
    {
        MemoryIds { next: 0 }
    }

    /// How many numbers are left.
    pub fn count_left(&self) -> (left: usize)
        ensures
            left == self.left(),
    {
        usize::MAX - self.next
    }

    /// Gives out the next number.
    pub fn gen_id(&mut self) -> (value: usize)
        requires
            old(self).left() > 0,
        ensures
            value == old(self).next(),
            final(self).next() == old(self).next() + 1,
    {
        let value: usize = self.next;
        self.next = self.next + 1;
        value
    }
}

/// Defines where the memory of a [`ManagedMemoryId`] is located.
#[derive(Clone, Copy, Debug, PartialEq, Eq, Structural)]
pub struct MemoryLocation {
    /// The memory pool index in the global memory management.
    pub pool: u8,
    /// The memory page in a memory pool.
    pub page: PageKey,
    /// The memory slice index in a memory page.
    pub slice: u32,
    /// Whether the memory location is known/initialized.
    pub init: u8,
}

impl MemoryLocation {
    /// Creates the base location every slice of `pool` is stamped from: the
    /// pool position, with the page and slice filled in as they're handed out.
    pub fn base(pool: u8) -> (location: Self)
        ensures
            location.pool == pool,
            location.page.is_null(),
            location.slice == 0,
            location.init == 1,
    {
        MemoryLocation { pool, page: PageKey::default(), slice: 0, init: 1 }
    }

    /// A location of nothing yet.
    pub open spec fn is_uninit(self) -> bool {
        self.pool == 0 && self.page.is_null() && self.slice == 0 && self.init == 0
    }

    /// Creates a new uninitialized memory location.
    pub fn uninit() -> (location: Self)
        ensures
            location.is_uninit(),
    {
        // The null key, which no live page ever equals.
        MemoryLocation { pool: 0, page: PageKey::default(), slice: 0, init: 0 }
    }

    /// The same place on another page.
    pub fn on_page(self, page: PageKey) -> (location: Self)
        ensures
            location == (MemoryLocation { page, ..self }),
    {
        MemoryLocation { page, ..self }
    }

    /// Another slice of the same page.
    pub fn at_slice(self, slice: u32) -> (location: Self)
        ensures
            location == (MemoryLocation { slice, ..self }),
    {
        MemoryLocation { slice, ..self }
    }
}

/// Managed memory descriptor.
///
/// The location is behind a lock: handles share a descriptor across threads, and
/// a location is replaced when its memory is reserved or bound. A reader sees one
/// location as a whole, never parts of two.
#[derive(Debug)]
pub struct ManagedMemoryDescriptor {
    pub id: ManagedMemoryId,
    location: spin::Mutex<MemoryLocation>,
}

/// The locations that a lock holds, each as a whole, in the course of its life.
pub uninterp spec fn stored(lock: spin::Mutex<MemoryLocation>) -> Set<MemoryLocation>;

/// `spin::Mutex::new`: the lock holds `location` first.
#[verifier::external_body]
fn new_lock(location: MemoryLocation) -> (lock: spin::Mutex<MemoryLocation>)
    ensures
        stored(lock).contains(location),
{
    spin::Mutex::new(location)
}

/// `spin::Mutex::lock`, to read: a location that the lock holds. It is the one
/// that was written last, by this thread or another; which one that is, is not
/// stated.
#[verifier::external_body]
fn read_lock(lock: &spin::Mutex<MemoryLocation>) -> (location: MemoryLocation)
    ensures
        stored(*lock).contains(location),
{
    *lock.lock()
}

/// `spin::Mutex::lock`, to write: the lock then holds what was written.
#[verifier::external_body]
fn write_lock(lock: &spin::Mutex<MemoryLocation>, location: MemoryLocation) -> (written:
    MemoryLocation)
    ensures
        written == location,
        stored(*lock).contains(written),
{
    *lock.lock() = location;
    location
}

/// Whether `location` is one of `locations`, but for its slice, which is `slice`.
pub open spec fn is_one_with_slice(
    location: MemoryLocation,
    locations: Set<MemoryLocation>,
    slice: u32,
) -> bool {
    exists|before: MemoryLocation| #[trigger]
        locations.contains(before) && location == (MemoryLocation { slice, ..before })
}

/// `spin::Mutex::lock`, to write one field: the lock then holds what it held,
/// with the field replaced.
#[verifier::external_body]
fn write_lock_slice(lock: &spin::Mutex<MemoryLocation>, slice: u32) -> (written: MemoryLocation)
    ensures
        stored(*lock).contains(written),
        is_one_with_slice(written, stored(*lock), slice),
{
    let mut guard = lock.lock();
    guard.slice = slice;
    *guard
}

impl ManagedMemoryDescriptor {
    /// What is described.
    pub closed spec fn identity(self) -> ManagedMemoryId {
        self.id
    }

    /// Where it is, at one time or another.
    pub closed spec fn locations(self) -> Set<MemoryLocation> {
        stored(self.location)
    }

    /// Update the memory location.
    pub fn update_location(&self, location: MemoryLocation)
        ensures
            self.locations().contains(location),
    {
        let _ = write_lock(&self.location, location);
    }

    /// Update only the slice position.
    pub fn update_slice(&self, slice: u32)
        ensures
            exists|after: MemoryLocation| #[trigger]
                self.locations().contains(after) && is_one_with_slice(
                    after,
                    self.locations(),
                    slice,
                ),
    {
        let written = write_lock_slice(&self.location, slice);
        assert(self.locations().contains(written));
    }

    /// Retrieves the current location: one that was written as a whole.
    pub fn location(&self) -> (location: MemoryLocation)
        ensures
            self.locations().contains(location),
    {
        read_lock(&self.location)
    }

    /// The slice of the current location.
    pub fn slice(&self) -> (slice: usize)
        ensures
            exists|location: MemoryLocation| #[trigger]
                self.locations().contains(location) && slice == location.slice,
    {
        self.location().slice as usize
    }

    /// The page of the current location.
    pub fn page(&self) -> (page: PageKey)
        ensures
            exists|location: MemoryLocation| #[trigger]
                self.locations().contains(location) && page == location.page,
    {
        self.location().page
    }
}

impl PartialEq for ManagedMemoryDescriptor {
    /// Descriptors are told apart by what they describe, not by where it is.
    fn eq(&self, other: &Self) -> (equal: bool) {
        self.id == other.id
    }
}

impl vstd::std_specs::cmp::PartialEqSpecImpl for ManagedMemoryDescriptor {
    open spec fn obeys_eq_spec() -> bool {
        true
    }

    open spec fn eq_spec(&self, other: &Self) -> bool {
        self.identity() == other.identity()
    }
}

impl Eq for ManagedMemoryDescriptor {

}

/// `Arc<()>`, a pointer that is only there to be counted. To Verus an `Arc` is what it
/// points to, so that here it would be the same whatever is counted; a value of this
/// type stands for one allocation, with all pointers that share it.
#[verifier::external_body]
#[derive(Debug)]
pub struct HandleCount {
    count: Arc<()>,
}

/// How many pointers share a counter, at one time or another in the course of its
/// life.
pub uninterp spec fn sharing(count: HandleCount) -> Set<usize>;

/// `Arc::new`: a counter. Nothing is stated of it but what it is counted by later.
#[verifier::external_body]
fn new_count() -> (count: HandleCount) {
    HandleCount { count: Arc::new(()) }
}

/// `Arc::clone`: one more pointer to the same counter.
#[verifier::external_body]
fn share_count(count: &HandleCount) -> (shared: HandleCount)
    ensures
        shared == *count,
{
    HandleCount { count: count.count.clone() }
}

/// `Arc::strong_count`: how many pointers share the counter at the moment, `shared`
/// among them. Other threads add and drop pointers at any time, so which of the
/// numbers it is, is not stated.
#[verifier::external_body]
fn count_sharers(shared: &HandleCount) -> (count: usize)
    ensures
        count >= 1,
        sharing(*shared).contains(count),
{
    Arc::strong_count(&shared.count)
}

/// Managed Memory handle
#[derive(Debug)]
pub struct ManagedMemoryHandle {
    descriptor: Arc<ManagedMemoryDescriptor>,
    // Holds only the reference counts of the handle.
    handle_count: HandleCount,
}

/// Binding of a memory handle
#[derive(Debug)]
pub struct ManagedMemoryBinding {
    descriptor: Arc<ManagedMemoryDescriptor>,
}

/// How many handles and bindings name a descriptor, at one time or another in the
/// course of its life.
pub uninterp spec fn counted(descriptor: ManagedMemoryDescriptor) -> Set<usize>;

/// `Arc::strong_count` of the pointers to a descriptor, of which every handle and
/// every binding on it has one: how many there are at the moment, `shared` among
/// them. Other threads add and drop pointers at any time, so which of the numbers
/// it is, is not stated.
#[verifier::external_body]
fn count_holders(shared: &Arc<ManagedMemoryDescriptor>) -> (count: usize)
    ensures
        count >= 1,
        counted(**shared).contains(count),
{
    Arc::strong_count(shared)
}

/// Memory that `count` handles share can be modified in place by one of them if there
/// is at most one other.
pub open spec fn sharers_allow_mut(count: usize) -> bool {
    count <= 2
}

/// Memory that `count` handles and bindings name is free if there is no more than one.
pub open spec fn holders_leave_free(count: usize) -> bool {
    count <= 1
}

/// Whether memory can be modified in place when `count` handles share it: the
/// one that asks, and the one that the memory's owner keeps.
pub fn can_mut_when_shared_by(count: usize) -> (can_mut: bool)
    ensures
        can_mut == sharers_allow_mut(count),
{
    count <= 2
}

/// Whether memory is free when `count` handles and bindings name it: the one that
/// asks is then the only one.
pub fn is_free_when_named_by(count: usize) -> (free: bool)
    ensures
        free == holders_leave_free(count),
{
    count <= 1
}

impl ManagedMemoryHandle {
    /// The descriptor that all clones and bindings of the handle share.
    pub closed spec fn shared(self) -> ManagedMemoryDescriptor {
        *self.descriptor
    }

    /// The counter that all clones of the handle share, and no binding does.
    pub closed spec fn counter(self) -> HandleCount {
        self.handle_count
    }

    pub open spec fn id(self) -> ManagedMemoryId {
        self.shared().identity()
    }

    /// Whether the handles and bindings that name the memory are, at one time or
    /// another, so many that it is free, if `free`, or else that it is not.
    pub open spec fn reads_as(self, free: bool) -> bool {
        exists|count: usize|
            count >= 1 && #[trigger] counted(self.shared()).contains(count) && free
                == holders_leave_free(count)
    }

    /// Whether the handles that share the memory are, at one time or another, so many
    /// that it can be modified in place, if `can_mut`, or else that it cannot.
    pub open spec fn reads_as_mut(self, can_mut: bool) -> bool {
        exists|count: usize|
            count >= 1 && #[trigger] sharing(self.counter()).contains(count) && can_mut
                == sharers_allow_mut(count)
    }

    /// Creates a new managed memory handle.
    pub fn new(ids: &mut MemoryIds) -> (handle: Self)
        requires
            old(ids).left() > 0,
        ensures
            handle.id().value == old(ids).next(),
            final(ids).next() == old(ids).next() + 1,
            exists|location: MemoryLocation| #[trigger]
                handle.shared().locations().contains(location) && location.is_uninit(),
    {
        let value: usize = ids.gen_id();
        let location = MemoryLocation::uninit();
        let handle = ManagedMemoryHandle {
            descriptor: Arc::new(
                ManagedMemoryDescriptor {
                    id: ManagedMemoryId { value },
                    location: new_lock(location),
                },
            ),
            handle_count: new_count(),
        };
        assert(handle.shared().locations().contains(location));
        handle
    }

    /// Retrieves the descriptor for the current handle.
    pub fn descriptor(&self) -> (descriptor: &ManagedMemoryDescriptor)
        ensures
            *descriptor == self.shared(),
    {
        &self.descriptor
    }

    /// Return whether the current handle can be modified in-place. Bindings do not
    /// count.
    pub fn can_mut(&self) -> (can_mut: bool)
        ensures
            self.reads_as_mut(can_mut),
    {
        let count: usize = count_sharers(&self.handle_count);
        assert(sharing(self.counter()).contains(count));
        can_mut_when_shared_by(count)
    }

    /// Return whether the current handle is free: no other handle and no binding
    /// names its memory.
    pub fn is_free(&self) -> (free: bool)
        ensures
            self.reads_as(free),
    {
        let count: usize = count_holders(&self.descriptor);
        assert(counted(self.shared()).contains(count));
        is_free_when_named_by(count)
    }

    /// Returns the binding for the current handle.
    pub fn binding(self) -> (binding: ManagedMemoryBinding)
        ensures
            binding.shared() == self.shared(),
    {
        ManagedMemoryBinding { descriptor: self.descriptor.clone() }
    }
}

impl Clone for ManagedMemoryHandle {
    fn clone(&self) -> (handle: Self)
        ensures
            handle == *self,
    {
        ManagedMemoryHandle {
            descriptor: self.descriptor.clone(),
            handle_count: share_count(&self.handle_count),
        }
    }
}

impl ManagedMemoryBinding {
    /// The descriptor of the handle that was bound.
    pub closed spec fn shared(self) -> ManagedMemoryDescriptor {
        *self.descriptor
    }

    pub open spec fn id(self) -> ManagedMemoryId {
        self.shared().identity()
    }

    /// Retrieves the descriptor for the current binding.
    pub fn descriptor(&self) -> (descriptor: &ManagedMemoryDescriptor)
        ensures
            *descriptor == self.shared(),
    {
        &self.descriptor
    }
}

impl Clone for ManagedMemoryBinding {
    fn clone(&self) -> (binding: Self)
        ensures
            binding == *self,
    {
        ManagedMemoryBinding { descriptor: self.descriptor.clone() }
    }
}

/// A handle on memory that can be bound.
pub trait MemoryHandle<Binding> {
    /// Whether the memory can be modified in place.
    fn can_mut(&self) -> (can_mut: bool);

    /// The binding of the memory.
    fn binding(self) -> (binding: Binding) where Self: Sized;
}

impl MemoryHandle<ManagedMemoryBinding> for ManagedMemoryHandle {
    fn can_mut(&self) -> (can_mut: bool)
        ensures
            self.reads_as_mut(can_mut),
    {
        self.can_mut()
    }

    fn binding(self) -> (binding: ManagedMemoryBinding)
        ensures
            binding.shared() == self.shared(),
    {
        self.binding()
    }
}

/// A list of bindings that are shared across multiple streams.
#[derive(Debug)]
pub struct SharedMemoryBindings {
    /// The bindings.
    pub bindings: Vec<ManagedMemoryBinding>,
}

impl Default for SharedMemoryBindings {
    fn default() -> (shared: Self)
        ensures
            shared.bindings@ == Seq::<ManagedMemoryBinding>::empty(),
    {
        SharedMemoryBindings { bindings: Vec::new() }
    }
}

impl SharedMemoryBindings {
    /// Clears the shared bindings list.
    pub fn clear(&mut self)
        ensures
            final(self).bindings@ == Seq::<ManagedMemoryBinding>::empty(),
    {
        self.bindings.clear();
    }

    /// Returns true if the shared bindings list is empty.
    pub fn is_empty(&self) -> (empty: bool)
        ensures
            empty == (self.bindings@.len() == 0),
    {
        self.bindings.is_empty()
    }

    /// Push a memory binding to the list of shared bindings.
    pub fn push(&mut self, binding: ManagedMemoryBinding)
        ensures
            final(self).bindings@ == old(self).bindings@.push(binding),
    {
        self.bindings.push(binding)
    }

    /// Makes the list ready for another use.
    pub fn reclaim(&mut self)
        ensures
            final(self).bindings@ == Seq::<ManagedMemoryBinding>::empty(),
    {
        self.clear();
    }
}

} // verus!
