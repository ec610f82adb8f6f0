//! A pool of pages of various sizes, each handed out as a whole.

use crate::align::{
    aligned, calculate_padding, lemma_aligned, next_multiple_of, padding,
};
use crate::error::{page_not_found, IoError};
use crate::handle::{ManagedMemoryBinding, ManagedMemoryHandle, MemoryIds, MemoryLocation};
use crate::page_key::{has_room, next_generation, occupies, PageKey};
use crate::page_map::PageMap;
use crate::slice::Slice;
use crate::storage::{
    ComputeStorage, StorageCall, StorageHandle, StorageUtilization,
};
use crate::usage::MemoryUsage;
use vstd::prelude::*;

verus! {

/// How many times to find the allocation 'free' before deallocating it.
pub const ALLOC_AFTER_FREE: u32 = 5;

/// A page, of which one slice is in use at a time.
#[derive(Debug)]
pub struct MemoryPage {
    pub slice: Slice,
    pub alloc_size: u64,
    /// How many times the page has been found free, less the times it was used.
    pub free_count: u32,
}

/// A memory pool that allocates buffers in a range of sizes and reuses them to minimize allocations.
///
/// Only one slice is supported per page.
pub struct ExclusiveMemoryPool {
    /// A page keeps its key for its whole life, so freeing one never invalidates
    /// the keys cached in the descriptors pointing at the others.
    pages: PageMap<MemoryPage>,
    alignment: u64,
    dealloc_period: u64,
    last_dealloc_check: u64,
    max_alloc_size: u64,
    location_base: MemoryLocation,
}

/// The bytes of the pages.
pub open spec fn total(pages: Seq<MemoryPage>) -> int
    decreases pages.len(),
{
    if pages.len() == 0 {
        0
    } else {
        total(pages.drop_last()) + pages.last().alloc_size
    }
}

/// A page that is used once more, for `size` bytes.
pub open spec fn reused(page: MemoryPage, size: u64, padding: u64) -> MemoryPage {
    MemoryPage {
        slice: Slice {
            storage: StorageHandle {
                id: page.slice.storage.id,
                utilization: StorageUtilization { offset: 0, size },
            },
            handle: page.slice.handle,
            padding,
            cursor: page.slice.cursor,
        },
        alloc_size: page.alloc_size,
        free_count: if page.free_count == 0 {
            0
        } else {
            (page.free_count - 1) as u32
        },
    }
}

/// A page under a new handle.
pub open spec fn rebound(page: MemoryPage, assigned: ManagedMemoryHandle, cursor: u64) -> MemoryPage {
    MemoryPage {
        slice: Slice {
            storage: page.slice.storage,
            handle: assigned,
            padding: page.slice.padding,
            cursor,
        },
        alloc_size: page.alloc_size,
        free_count: page.free_count,
    }
}

/// A page that was found free once more.
pub open spec fn found_free(page: MemoryPage) -> MemoryPage {
    MemoryPage { free_count: (page.free_count + 1) as u32, ..page }
}

/// Whether a check that finds a page as `free` says deallocates it.
pub open spec fn is_given_up(page: MemoryPage, free: bool, explicit: bool) -> bool {
    free && (explicit || page.free_count + 1 >= ALLOC_AFTER_FREE)
}

/// What `part` comes to over the first `n` pages that are in use.
pub open spec fn sum_used(
    pages: Seq<MemoryPage>,
    free: Seq<bool>,
    part: spec_fn(MemoryPage) -> int,
    n: int,
) -> int
    decreases n,
{
    if n <= 0 {
        0
    } else if free[n - 1] {
        sum_used(pages, free, part, n - 1)
    } else {
        sum_used(pages, free, part, n - 1) + part(pages[n - 1])
    }
}

/// Counts a page.
pub open spec fn one() -> spec_fn(MemoryPage) -> int {
    |page: MemoryPage| 1int
}

/// The bytes of a page that can be used.
pub open spec fn usable() -> spec_fn(MemoryPage) -> int {
    |page: MemoryPage| page.slice.storage.utilization.size as int
}

/// The bytes of a page that pad those that can be used.
pub open spec fn padded() -> spec_fn(MemoryPage) -> int {
    |page: MemoryPage| page.slice.padding as int
}

/// What there is to say of one page of an exclusive pool.
#[derive(Clone, Copy, Debug, PartialEq, Eq, Structural)]
pub struct ExclusivePageReport {
    pub size: u64,
    pub is_free: bool,
}

/// What there is to say of an exclusive pool.
#[derive(Debug)]
pub struct ExclusivePoolReport {
    pub max_alloc_size: u64,
    /// The pages, in the order of their keys.
    pub pages: Vec<ExclusivePageReport>,
    /// The memory usage, where there are pages.
    pub usage: Option<MemoryUsage>,
}

impl ExclusiveMemoryPool {
    pub closed spec fn pages(self) -> PageMap<MemoryPage> {
        self.pages
    }

    pub closed spec fn alignment(self) -> u64 {
        self.alignment
    }

    pub closed spec fn dealloc_period(self) -> u64 {
        self.dealloc_period
    }

    /// The number of allocations at which pages were last checked.
    pub closed spec fn last_dealloc_check(self) -> u64 {
        self.last_dealloc_check
    }

    pub closed spec fn max_alloc_size(self) -> u64 {
        self.max_alloc_size
    }

    /// The location that every location in the pool differs from in page only.
    pub closed spec fn location_base(self) -> MemoryLocation {
        self.location_base
    }

    /// The location of the page that `key` names.
    pub open spec fn location_on(self, key: PageKey) -> MemoryLocation {
        MemoryLocation { page: key, ..self.location_base() }
    }

    /// Whether `page` can be a page of the pool.
    pub open spec fn admits(self, page: MemoryPage) -> bool {
        &&& page.slice.start() == 0
        &&& page.slice.room() <= page.alloc_size
        &&& page.slice.room() % (self.alignment() as int) == 0
        &&& page.alloc_size % self.alignment() == 0
        &&& page.free_count < ALLOC_AFTER_FREE
    }

    /// Whether the handle on `page` has been told that `key` names the page.
    pub open spec fn knows_key(page: MemoryPage, key: PageKey) -> bool {
        exists|location: MemoryLocation| #[trigger]
            page.slice.was_told(location) && location.page == key
    }

    pub open spec fn wf(self) -> bool {
        &&& self.pages().wf()
        &&& self.alignment() > 0
        &&& self.max_alloc_size() % self.alignment() == 0
        &&& forall|key: PageKey| #![trigger self.pages().lookup(key)]
            self.pages().lookup(key) is Some ==> self.admits(self.page(key)) && Self::knows_key(
                self.page(key),
                key,
            )
    }

    /// The page that `key` names.
    pub open spec fn page(self, key: PageKey) -> MemoryPage {
        self.pages().lookup(key)->0
    }

    /// Whether the pools differ in no more than their pages and the last check.
    pub open spec fn same_pool(self, other: ExclusiveMemoryPool) -> bool {
        &&& self.alignment() == other.alignment()
        &&& self.dealloc_period() == other.dealloc_period()
        &&& self.max_alloc_size() == other.max_alloc_size()
        &&& self.location_base() == other.location_base()
    }

    /// Whether the pools differ in no more than what is on their pages.
    pub open spec fn same_keys(self, other: ExclusiveMemoryPool) -> bool {
        &&& self.same_pool(other)
        &&& self.last_dealloc_check() == other.last_dealloc_check()
        &&& self.pages().keys() == other.pages().keys()
        &&& self.pages().generations() == other.pages().generations()
    }

    pub fn new(max_alloc_size: u64, alignment: u64, dealloc_period: u64, pool_pos: u8) -> (pool:
        Self)
        requires
            alignment > 0,
            // Pages should be allocated to be aligned.
            max_alloc_size % alignment == 0,
        ensures
            pool.wf(),
            pool.alignment() == alignment,
            pool.dealloc_period() == dealloc_period,
            pool.last_dealloc_check() == 0,
            pool.max_alloc_size() == max_alloc_size,
            pool.location_base().pool == pool_pos,
            pool.location_base().page.is_null(),
            pool.location_base().slice == 0,
            pool.location_base().init == 1,
            pool.pages().keys() == Seq::<PageKey>::empty(),
            pool.pages().generations() == seq![0u32],
            forall|key: PageKey| pool.pages().lookup(key) is None,
    {
        ExclusiveMemoryPool {
            pages: PageMap::new(),
            alignment,
            dealloc_period,
            last_dealloc_check: 0,
            max_alloc_size,
            location_base: MemoryLocation::base(pool_pos),
        }
    }

    /// Whether an allocation of `size` bytes belongs in this pool.
    pub fn accept(&self, size: u64) -> (accepted: bool)
        ensures
            accepted == (size <= self.max_alloc_size()),
    {
        self.max_alloc_size >= size
    }

    /// The number of allocations at which pages were last checked.
    pub fn last_checked_at(&self) -> (alloc_nr: u64)
        ensures
            alloc_nr == self.last_dealloc_check(),
    {
        self.last_dealloc_check
    }

    /// Whether there is a key for one more page.
    pub fn has_room(&self) -> (room: bool)
        requires
            self.wf(),
        ensures
            room == has_room(self.pages().generations()),
    {
        self.pages.has_room()
    }

    /// Whether `free` says of each page, by key, what the page's own handle can be read
    /// as.
    pub open spec fn reads_as(self, free: Seq<bool>) -> bool {
        &&& free.len() == self.pages().keys().len()
        &&& forall|i: int| #![trigger free[i]]
            0 <= i < free.len() ==> self.pages().values()[i].slice.handle.reads_as(free[i])
    }

    /// Which pages are free at the moment, in the order of their keys.
    pub fn observe(&self) -> (free: Vec<bool>)
        requires
            self.wf(),
        ensures
            self.reads_as(free@),
    {
        let keys = self.pages.list_keys();
        let mut free: Vec<bool> = Vec::new();
        let mut i: usize = 0;
        while i < keys.len()
            invariant
                self.wf(),
                keys@ == self.pages().keys(),
                i <= keys@.len(),
                free@.len() == i,
                forall|j: int| #![trigger free@[j]]
                    0 <= j < i ==> self.pages().values()[j].slice.handle.reads_as(free@[j]),
            decreases keys@.len() - i,
        {
            let key = keys[i];
            proof {
                self.pages.lemma_keys();
                assert(self.pages().lookup(self.pages().keys()[i as int]) is Some);
            }
            free.push(self.pages.get(key).unwrap().slice.is_free());
            i = i + 1;
        }
        free
    }

    /// Whether page `i` can be used for `size` bytes.
    pub open spec fn suits(self, i: int, free: Seq<bool>, size: u64) -> bool {
        &&& 0 <= i < self.pages().keys().len()
        &&& self.pages().values()[i].alloc_size >= size
        &&& free[i]
    }

    /// Whether page `i` is, of those that can be used for `size` bytes, the first one
    /// with the smallest free count.
    pub open spec fn prefers(self, i: int, free: Seq<bool>, size: u64) -> bool {
        &&& self.suits(i, free, size)
        &&& forall|j: int| #[trigger]
            self.suits(j, free, size) ==> self.pages().values()[i].free_count
                <= self.pages().values()[j].free_count && (j < i
                ==> self.pages().values()[i].free_count < self.pages().values()[j].free_count)
    }

    /// Finds a free page that can contain the given size, if the pages that are free
    /// are those that `free` says. Returns the page's position among the keys.
    pub fn get_free_page_with(&self, size: u64, free: &Vec<bool>) -> (position: Option<usize>)
        requires
            self.wf(),
            free@.len() == self.pages().keys().len(),
        ensures
            match position {
                Some(i) => self.prefers(i as int, free@, size),
                None => forall|i: int| !#[trigger] self.suits(i, free@, size),
            },
    {
        let keys = self.pages.list_keys();
        let mut best: Option<usize> = None;
        let mut least: u32 = 0;
        let mut i: usize = 0;
        while i < keys.len()
            invariant
                self.wf(),
                keys@ == self.pages().keys(),
                free@.len() == keys@.len(),
                i <= keys@.len(),
                match best {
                    Some(b) => {
                        &&& b < i
                        &&& self.suits(b as int, free@, size)
                        &&& least == self.pages().values()[b as int].free_count
                        &&& forall|j: int|
                            j < i && #[trigger] self.suits(j, free@, size) ==> least
                                <= self.pages().values()[j].free_count && (j < b ==> least
                                < self.pages().values()[j].free_count)
                    },
                    None => forall|j: int| j < i ==> !#[trigger] self.suits(j, free@, size),
                },
            decreases keys@.len() - i,
        {
            let key = keys[i];
            proof {
                self.pages.lemma_keys();
                assert(self.pages().lookup(self.pages().keys()[i as int]) is Some);
            }
            let page = self.pages.get(key).unwrap();
            if page.alloc_size >= size && free[i] {
                assert(self.suits(i as int, free@, size));
                if best.is_none() || page.free_count < least {
                    best = Some(i);
                    least = page.free_count;
                }
            }
            i = i + 1;
        }
        best
    }

    /// A page whose handle stays knows its key as before.
    proof fn lemma_keeps_keys(self, before: ExclusiveMemoryPool, key: PageKey)
        requires
            before.wf(),
            before.pages().lookup(key) is Some,
            self.page(key).slice.handle == before.page(key).slice.handle,
        ensures
            Self::knows_key(self.page(key), key),
    {
        let location = choose|location: MemoryLocation| #[trigger]
            before.page(key).slice.was_told(location) && location.page == key;
        assert(self.page(key).slice.was_told(location));
    }

    /// Whether `after` and `handle` are what becomes of `self` when a page is used
    /// for `size` bytes.
    pub open spec fn reserves(
        self,
        free: Seq<bool>,
        size: u64,
        after: ExclusiveMemoryPool,
        handle: Option<ManagedMemoryHandle>,
    ) -> bool {
        let pages = self.pages().values();
        let bytes = padding(size as int, self.alignment() as int) as u64;
        &&& after.same_keys(self)
        &&& match handle {
            Some(handle) => exists|i: int| #[trigger]
                self.prefers(i, free, size) && handle == pages[i].slice.handle
                    && after.pages().values() == pages.update(i, reused(pages[i], size, bytes)),
            None => {
                &&& forall|i: int| !#[trigger] self.suits(i, free, size)
                &&& after.pages().values() == pages
            },
        }
    }

    /// Reserves `size` bytes on a page that is free, if there is one that suits and
    /// the pages that are free are those that `free` says.
    pub fn try_reserve_with(&mut self, size: u64, free: &Vec<bool>) -> (handle: Option<
        ManagedMemoryHandle,
    >)
        requires
            old(self).wf(),
            free@.len() == old(self).pages().keys().len(),
        ensures
            final(self).wf(),
            old(self).reserves(free@, size, *final(self), handle),
    {
        let bytes: u64 = calculate_padding(size, self.alignment);
        let position = self.get_free_page_with(size, free);
        match position {
            Some(i) => {
                let keys = self.pages.list_keys();
                let key = keys[i];
                proof {
                    self.pages.lemma_keys();
                    assert(self.pages().lookup(self.pages().keys()[i as int]) is Some);
                    lemma_aligned(size as int, self.alignment as int);
                }
                let page = self.pages.get_mut(key).unwrap();
                // Return a smaller part of the slice. By construction, we only ever
                // get a page with a big enough size, so this is ok to do.
                page.slice.storage.utilization = StorageUtilization { offset: 0, size };
                page.slice.padding = bytes;
                page.free_count = page.free_count.saturating_sub(1);
                let handle = page.slice.handle.clone();
                proof {
                    let pages = old(self).pages().values();
                    let n = i as int;
                    assert(self.page(key) == reused(pages[n], size, bytes));
                    assert forall|j: int| 0 <= j < pages.len() && j != n implies #[trigger] old(
                        self,
                    ).pages().keys()[j] != key by {
                        assert(old(self).pages().keys()[j].slot() != old(
                            self,
                        ).pages().keys()[n].slot());
                    }
                    assert(self.pages().values() =~= pages.update(
                        n,
                        reused(pages[n], size, bytes),
                    ));
                    self.lemma_keeps_keys(*old(self), key);
                    assert(old(self).prefers(n, free@, size));
                }
                Some(handle)
            },
            None => None,
        }
    }

    /// Reserves `size` bytes on a page that is free at the moment, if there is one
    /// that suits.
    pub fn try_reserve(&mut self, size: u64) -> (handle: Option<ManagedMemoryHandle>)
        requires
            old(self).wf(),
        ensures
            final(self).wf(),
            exists|free: Seq<bool>|
                old(self).reads_as(free) && #[trigger] old(self).reserves(
                    free,
                    size,
                    *final(self),
                    handle,
                ),
    {
        let free = self.observe();
        self.try_reserve_with(size, &free)
    }

    /// Whether looking `location` up in the pool comes to `found`.
    pub open spec fn finds(self, location: MemoryLocation, found: Result<&Slice, IoError>) -> bool {
        match self.pages().lookup(location.page) {
            Some(page) => found is Ok && *found->Ok_0 == page.slice,
            None => found is Err && found->Err_0 == (IoError::NotFound { page: location.page }),
        }
    }

    /// The slice at `location`.
    pub fn find_at(&self, location: MemoryLocation) -> (found: Result<&Slice, IoError>)
        requires
            self.wf(),
        ensures
            self.finds(location, found),
    {
        let key = location.page;
        match self.pages.get(key) {
            Some(page) => Ok(&page.slice),
            None => Err(page_not_found(key)),
        }
    }

    /// The slice that `binding` is bound to, at the location that the binding has
    /// at the moment.
    pub fn find(&self, binding: &ManagedMemoryBinding) -> (found: Result<&Slice, IoError>)
        requires
            self.wf(),
        ensures
            exists|location: MemoryLocation| #[trigger]
                binding.shared().locations().contains(location) && self.finds(location, found),
    {
        let location = binding.descriptor().location();
        self.find_at(location)
    }

    /// Whether `after` and `result` are what becomes of `self` when the page at
    /// `location` is bound to `assigned`.
    pub open spec fn binds(
        self,
        location: MemoryLocation,
        assigned: ManagedMemoryHandle,
        cursor: u64,
        after: ExclusiveMemoryPool,
        result: Result<(), IoError>,
    ) -> bool {
        let key = location.page;
        &&& after.same_keys(self)
        &&& forall|other: PageKey| #![trigger after.pages().lookup(other)]
            other != key ==> after.pages().lookup(other) == self.pages().lookup(other)
        &&& match self.pages().lookup(key) {
            Some(page) => {
                &&& result is Ok
                &&& after.pages().lookup(key) == Some(rebound(page, assigned, cursor))
                &&& assigned.shared().locations().contains(location)
            },
            None => {
                &&& result == Err::<(), IoError>(IoError::NotFound { page: key })
                &&& after.pages().lookup(key) is None
            },
        }
    }

    /// Gives the page at `location` the handle `assigned`, which then knows where it
    /// is.
    pub fn bind_at(
        &mut self,
        location: MemoryLocation,
        assigned: ManagedMemoryHandle,
        cursor: u64,
    ) -> (result: Result<(), IoError>)
        requires
            old(self).wf(),
        ensures
            final(self).wf(),
            old(self).binds(location, assigned, cursor, *final(self), result),
    {
        let key = location.page;
        match self.pages.get_mut(key) {
            Some(page) => {
                assigned.descriptor().update_location(location);
                page.slice.handle = assigned;
                page.slice.cursor = cursor;
                assert(page.slice.was_told(location));
                Ok(())
            },
            None => Err(page_not_found(key)),
        }
    }

    /// Binds a user defined handle to the page that `old_handle` has, at the location
    /// that `old_handle` has at the moment.
    pub fn bind(
        &mut self,
        old_handle: ManagedMemoryHandle,
        new_handle: ManagedMemoryHandle,
        cursor: u64,
    ) -> (result: Result<(), IoError>)
        requires
            old(self).wf(),
        ensures
            final(self).wf(),
            exists|location: MemoryLocation| #[trigger]
                old_handle.shared().locations().contains(location) && old(self).binds(
                    location,
                    new_handle,
                    cursor,
                    *final(self),
                    result,
                ),
    {
        let location = old_handle.descriptor().location();
        self.bind_at(location, new_handle, cursor)
    }

    /// The size of the page that is allocated for `size` bytes, when requests have
    /// the size `average` on average.
    pub open spec fn page_size_for(self, size: u64, average: u64) -> int {
        let wanted = if average > size {
            average
        } else {
            size
        };
        aligned(wanted as int, self.alignment() as int)
    }

    /// The size of the page that is allocated for `size` bytes, when requests have
    /// the size `average` on average.
    pub fn alloc_size(&self, size: u64, average: u64) -> (alloc_size: u64)
        requires
            self.wf(),
            self.page_size_for(size, average) <= u64::MAX,
        ensures
            alloc_size == self.page_size_for(size, average),
            aligned(size as int, self.alignment() as int) <= alloc_size,
            alloc_size % self.alignment() == 0,
    {
        proof {
            lemma_aligned(size as int, self.alignment as int);
            lemma_aligned(average as int, self.alignment as int);
        }
        if average > size {
            next_multiple_of(average, self.alignment)
        } else {
            next_multiple_of(size, self.alignment)
        }
    }

    /// Whether `after` is `self` with the new page `page`, which `key` names.
    pub open spec fn adds_page(self, key: PageKey, page: MemoryPage, after: ExclusiveMemoryPool) -> bool {
        &&& after.same_pool(self)
        &&& after.last_dealloc_check() == self.last_dealloc_check()
        &&& self.pages().lookup(key) is None
        &&& after.pages().lookup(key) == Some(page)
        &&& forall|other: PageKey| #![trigger after.pages().lookup(other)]
            other != key ==> after.pages().lookup(other) == self.pages().lookup(other)
        &&& after.pages().keys() == self.pages().keys().insert(self.pages().place(key), key)
        &&& 0 <= self.pages().place(key) <= self.pages().keys().len()
        &&& occupies(self.pages().generations(), key, after.pages().generations())
    }

    /// A new page of `alloc_size` bytes, of which `size` are in use.
    pub open spec fn new_page(
        self,
        storage: StorageHandle,
        handle: ManagedMemoryHandle,
        size: u64,
        alloc_size: u64,
    ) -> MemoryPage {
        MemoryPage {
            slice: Slice {
                storage: StorageHandle {
                    id: storage.id,
                    utilization: StorageUtilization { offset: 0, size },
                },
                handle,
                padding: padding(size as int, self.alignment() as int) as u64,
                cursor: 0,
            },
            alloc_size,
            free_count: (ALLOC_AFTER_FREE - 1) as u32,
        }
    }

    /// Makes a page of `alloc_size` bytes of what the storage has replied and returns
    /// its key. The page's handle is not told its location yet.
    fn alloc_page(
        &mut self,
        reply: Result<StorageHandle, IoError>,
        size: u64,
        alloc_size: u64,
        ids: &mut MemoryIds,
    ) -> (result: Result<PageKey, IoError>)
        requires
            old(self).wf(),
            has_room(old(self).pages().generations()),
            old(ids).left() > 0,
        ensures
            match reply {
                Ok(storage) => {
                    &&& result is Ok
                    &&& old(self).adds_page(
                        result->Ok_0,
                        old(self).new_page(
                            storage,
                            final(self).page(result->Ok_0).slice.handle,
                            size,
                            alloc_size,
                        ),
                        *final(self),
                    )
                    &&& final(self).pages().wf()
                    &&& final(self).page(result->Ok_0).slice.handle.id().value == old(ids).next()
                    &&& final(ids).next() == old(ids).next() + 1
                },
                Err(refusal) => {
                    &&& result == Err::<PageKey, IoError>(refusal)
                    &&& *final(self) == *old(self)
                    &&& *final(ids) == *old(ids)
                },
            },
    {
        let storage = match reply {
            Ok(storage) => storage,
            Err(error) => {
                return Err(error);
            },
        };
        let bytes: u64 = calculate_padding(size, self.alignment);
        let mut slice = Slice::new(storage, bytes, ids);

        // Return a smaller part of the slice. By construction, we only ever
        // get a page with a big enough size, so this is ok to do.
        slice.storage.utilization = StorageUtilization { offset: 0, size };
        let key = self.pages.insert(
            MemoryPage {
                slice,
                alloc_size,
                // Start the allocation at 'almost ready to free'. Every use will decrement this.
                // This means allocations start as "suspected as unused" and over time will be kept for longer.
                free_count: ALLOC_AFTER_FREE - 1,
            },
        );
        Ok(key)
    }

    /// Whether `after`, `ids_after` and `handle` are what becomes of `self` when a
    /// page of `alloc_size` bytes is made of `storage` and handed out for `size` bytes.
    pub open spec fn allocates_on(
        self,
        key: PageKey,
        storage: StorageHandle,
        size: u64,
        alloc_size: u64,
        ids: MemoryIds,
        after: ExclusiveMemoryPool,
        ids_after: MemoryIds,
        handle: ManagedMemoryHandle,
    ) -> bool {
        &&& self.adds_page(key, self.new_page(storage, handle, size, alloc_size), after)
        &&& handle.id().value == ids.next()
        &&& ids_after.next() == ids.next() + 1
        &&& handle.shared().locations().contains(self.location_on(key))
        &&& after.bytes_reserved() == self.bytes_reserved() + alloc_size
    }

    /// Whether `after`, `ids_after` and `result` are what becomes of `self` when
    /// `size` bytes are allocated on a page of `alloc_size` bytes and the storage
    /// replies `reply`.
    pub open spec fn allocates(
        self,
        reply: Result<StorageHandle, IoError>,
        size: u64,
        alloc_size: u64,
        ids: MemoryIds,
        after: ExclusiveMemoryPool,
        ids_after: MemoryIds,
        result: Result<ManagedMemoryHandle, IoError>,
    ) -> bool {
        match reply {
            Ok(storage) => result is Ok && exists|key: PageKey| #[trigger]
                self.allocates_on(
                    key,
                    storage,
                    size,
                    alloc_size,
                    ids,
                    after,
                    ids_after,
                    result->Ok_0,
                ),
            Err(refusal) => result == Err::<ManagedMemoryHandle, IoError>(refusal) && after == self
                && ids_after == ids,
        }
    }

    /// The bytes of all pages.
    pub open spec fn bytes_reserved(self) -> int {
        total(self.pages().values())
    }

    /// Makes a page of `alloc_size` bytes of what the storage has replied and hands it
    /// out for `size` bytes.
    pub fn allocate_with(
        &mut self,
        reply: Result<StorageHandle, IoError>,
        size: u64,
        alloc_size: u64,
        ids: &mut MemoryIds,
    ) -> (result: Result<ManagedMemoryHandle, IoError>)
        requires
            old(self).wf(),
            aligned(size as int, old(self).alignment() as int) <= alloc_size,
            alloc_size % old(self).alignment() == 0,
            has_room(old(self).pages().generations()),
            old(ids).left() > 0,
        ensures
            final(self).wf(),
            old(self).allocates(
                reply,
                size,
                alloc_size,
                *old(ids),
                *final(self),
                *final(ids),
                result,
            ),
    {
        let key = match self.alloc_page(reply, size, alloc_size, ids) {
            Ok(key) => key,
            Err(error) => {
                return Err(error);
            },
        };
        let handle = self.pages.get(key).unwrap().slice.handle.clone();
        let location = self.location_base.on_page(key);
        handle.descriptor().update_location(location);
        let result = Ok(handle);
        proof {
            lemma_aligned(size as int, self.alignment as int);
            assert(self.page(key).slice.was_told(location));
            assert forall|other: PageKey| #[trigger] self.pages().lookup(other) is Some implies self.admits(
                self.page(other),
            ) && Self::knows_key(self.page(other), other) by {
                if other != key {
                    assert(old(self).pages().lookup(other) is Some);
                    self.lemma_keeps_keys(*old(self), other);
                }
            }
            self.lemma_added_bytes(*old(self), key);
            assert(old(self).allocates_on(
                key,
                reply->Ok_0,
                size,
                alloc_size,
                *old(ids),
                *self,
                *ids,
                result->Ok_0,
            ));
        }
        result
    }

    /// A page that is added adds its bytes.
    proof fn lemma_added_bytes(self, before: ExclusiveMemoryPool, key: PageKey)
        requires
            before.pages().wf(),
            self.pages().lookup(key) is Some,
            before.adds_page(key, self.page(key), self),
        ensures
            self.bytes_reserved() == before.bytes_reserved() + self.page(key).alloc_size,
    {
        let pages = before.pages().values();
        let place = before.pages().place(key);
        before.pages().lemma_keys();
        assert forall|i: int| 0 <= i < pages.len() implies #[trigger] before.pages().keys()[i] != key by {
            assert(before.pages().lookup(before.pages().keys()[i]) is Some);
        }
        assert(self.pages().values() =~= pages.insert(place, self.page(key)));
        lemma_total_insert(pages, place, self.page(key));
    }

    /// Has the storage make a page and hands it out for `size` bytes, when requests
    /// have the size `average` on average.
    pub fn allocate<Storage: ComputeStorage>(
        &mut self,
        storage: &mut Storage,
        size: u64,
        average: u64,
        ids: &mut MemoryIds,
    ) -> (result: Result<ManagedMemoryHandle, IoError>)
        requires
            old(self).wf(),
            size <= old(self).max_alloc_size() ==> {
                &&& old(self).page_size_for(size, average) <= u64::MAX
                &&& has_room(old(self).pages().generations())
                &&& old(ids).left() > 0
            },
        ensures
            final(self).wf(),
            size > old(self).max_alloc_size() ==> {
                &&& result == Err::<ManagedMemoryHandle, IoError>(IoError::BufferTooBig { size })
                &&& *final(self) == *old(self)
                &&& *final(storage) == *old(storage)
                &&& *final(ids) == *old(ids)
            },
            size <= old(self).max_alloc_size() ==> exists|reply: Result<StorageHandle, IoError>|
                final(storage).calls() == #[trigger] old(storage).calls().push(
                    StorageCall::Alloc {
                        size: old(self).page_size_for(size, average) as u64,
                        reply,
                    },
                ) && old(self).allocates(
                    reply,
                    size,
                    old(self).page_size_for(size, average) as u64,
                    *old(ids),
                    *final(self),
                    *final(ids),
                    result,
                ),
    {
        if size > self.max_alloc_size {
            return Err(IoError::BufferTooBig { size });
        }
        let alloc_size: u64 = self.alloc_size(size, average);
        assert(alloc_size == self.page_size_for(size, average) as u64);
        let reply = storage.allocate(alloc_size);
        self.allocate_with(reply, size, alloc_size, ids)
    }

    /// The number of allocations between two checks, so that an allocation is free
    /// after at most `dealloc_period`.
    pub open spec fn check_period(self) -> u64 {
        self.dealloc_period() / (ALLOC_AFTER_FREE as u64)
    }

    /// Whether a cleanup after `alloc_nr` allocations checks the pages.
    pub open spec fn is_due(self, alloc_nr: u64, explicit: bool) -> bool {
        explicit || alloc_nr - self.last_dealloc_check() >= self.check_period()
    }

    /// The keys of those of the first `n` pages that are not given up.
    pub open spec fn survivors(self, free: Seq<bool>, explicit: bool, n: int) -> Seq<PageKey>
        decreases n,
    {
        if n <= 0 {
            Seq::empty()
        } else if is_given_up(self.pages().values()[n - 1], free[n - 1], explicit) {
            self.survivors(free, explicit, n - 1)
        } else {
            self.survivors(free, explicit, n - 1).push(self.pages().keys()[n - 1])
        }
    }

    /// The calls that deallocate those of the first `n` pages that are given up.
    pub open spec fn releases(self, free: Seq<bool>, explicit: bool, n: int) -> Seq<StorageCall>
        decreases n,
    {
        if n <= 0 {
            Seq::empty()
        } else if is_given_up(self.pages().values()[n - 1], free[n - 1], explicit) {
            self.releases(free, explicit, n - 1).push(
                StorageCall::Dealloc { id: self.pages().values()[n - 1].slice.storage.id },
            )
        } else {
            self.releases(free, explicit, n - 1)
        }
    }

    /// Whether page `i` has been checked in `after`: it has gone if it was given up, or
    /// else it is counted once more as free, if it was.
    pub open spec fn checks_page(
        self,
        i: int,
        free: Seq<bool>,
        explicit: bool,
        after: ExclusiveMemoryPool,
    ) -> bool {
        let key = self.pages().keys()[i];
        let page = self.pages().values()[i];
        if is_given_up(page, free[i], explicit) {
            &&& after.pages().lookup(key) is None
            &&& after.pages().generations()[key.slot()] == next_generation(key.generation() as u32)
        } else {
            &&& after.pages().lookup(key) == Some(
                if free[i] {
                    found_free(page)
                } else {
                    page
                },
            )
            &&& after.pages().generations()[key.slot()] == key.generation()
        }
    }

    /// Whether some page is in slot `slot`.
    pub open spec fn has_page_in(self, slot: int) -> bool {
        exists|i: int|
            0 <= i < self.pages().keys().len() && (#[trigger] self.pages().keys()[i]).slot() == slot
    }

    /// Whether `after` is `self` with every page checked after `alloc_nr` allocations.
    /// No page gets another key.
    pub open spec fn checks(
        self,
        free: Seq<bool>,
        alloc_nr: u64,
        explicit: bool,
        after: ExclusiveMemoryPool,
    ) -> bool {
        let count = self.pages().keys().len() as int;
        &&& after.same_pool(self)
        &&& after.last_dealloc_check() == alloc_nr
        &&& after.pages().keys() == self.survivors(free, explicit, count)
        &&& forall|i: int| #![trigger self.pages().keys()[i]]
            0 <= i < count ==> self.checks_page(i, free, explicit, after)
        &&& forall|key: PageKey| #![trigger after.pages().lookup(key)]
            self.pages().lookup(key) is None ==> after.pages().lookup(key) is None
        &&& after.pages().generations().len() == self.pages().generations().len()
        &&& forall|slot: int| #![trigger after.pages().generations()[slot]]
            0 <= slot < self.pages().generations().len() && !self.has_page_in(slot)
                ==> after.pages().generations()[slot] == self.pages().generations()[slot]
    }

    /// Checks the pages, if that is due after `alloc_nr` allocations or was asked for,
    /// and the pages that are free are those that `free` says.
    ///
    /// Surviving pages keep their key, so a page that was live before the cleanup is
    /// still reachable through every descriptor that named it.
    pub fn cleanup_with<Storage: ComputeStorage>(
        &mut self,
        storage: &mut Storage,
        alloc_nr: u64,
        explicit: bool,
        free: &Vec<bool>,
    )
        requires
            old(self).wf(),
            free@.len() == old(self).pages().keys().len(),
            explicit || alloc_nr >= old(self).last_dealloc_check(),
        ensures
            final(self).wf(),
            old(self).is_due(alloc_nr, explicit) ==> {
                &&& old(self).checks(free@, alloc_nr, explicit, *final(self))
                &&& final(storage).calls() == old(storage).calls() + old(self).releases(
                    free@,
                    explicit,
                    old(self).pages().keys().len() as int,
                )
            },
            !old(self).is_due(alloc_nr, explicit) ==> *final(self) == *old(self) && *final(storage)
                == *old(storage),
    {
        // Check such that an alloc is free after at most dealloc_period.
        let check_period: u64 = self.dealloc_period / (ALLOC_AFTER_FREE as u64);
        if !(explicit || alloc_nr - self.last_dealloc_check >= check_period) {
            return ;
        }
        let keys = self.pages.list_keys();
        let ghost pool = *self;
        self.last_dealloc_check = alloc_nr;
        let mut i: usize = 0;
        proof {
            self.pages.lemma_keys();
            assert(pool.survivors(free@, explicit, 0) + keys@.skip(0) =~= keys@);
            assert(storage.calls() + pool.releases(free@, explicit, 0) =~= storage.calls());
        }
        while i < keys.len()
            invariant
                pool == *old(self),
                pool.wf(),
                self.wf(),
                self.same_pool(pool),
                self.last_dealloc_check() == alloc_nr,
                keys@ == pool.pages().keys(),
                free@.len() == keys@.len(),
                i <= keys@.len(),
                self.pages().keys() == pool.survivors(free@, explicit, i as int) + keys@.skip(
                    i as int,
                ),
                self.pages().generations().len() == pool.pages().generations().len(),
                storage.calls() == old(storage).calls() + pool.releases(free@, explicit, i as int),
                forall|j: int| #![trigger pool.pages().keys()[j]]
                    0 <= j < i ==> pool.checks_page(j, free@, explicit, *self),
                forall|j: int| #![trigger pool.pages().keys()[j]]
                    i <= j < keys@.len() ==> self.pages().lookup(pool.pages().keys()[j])
                        == pool.pages().lookup(pool.pages().keys()[j]),
                forall|key: PageKey| #![trigger self.pages().lookup(key)]
                    pool.pages().lookup(key) is None ==> self.pages().lookup(key) is None,
                forall|j: int| #![trigger pool.pages().keys()[j]]
                    i <= j < keys@.len() ==> self.pages().generations()[pool.pages().keys()[j].slot()]
                        == pool.pages().generations()[pool.pages().keys()[j].slot()],
                forall|slot: int| #![trigger self.pages().generations()[slot]]
                    0 <= slot < pool.pages().generations().len() && !pool.has_page_in(slot)
                        ==> self.pages().generations()[slot] == pool.pages().generations()[slot],
            decreases keys@.len() - i,
        {
            let key = keys[i];
            let ghost kept = pool.survivors(free@, explicit, i as int);
            let ghost before = *self;
            proof {
                pool.pages.lemma_keys();
                self.pages.lemma_keys();
                assert(pool.pages().lookup(pool.pages().keys()[i as int]) is Some);
                assert(self.pages().keys()[kept.len() as int] == key);
            }
            let mut given_up: bool = false;
            if free[i] {
                let page = self.pages.get_mut(key).unwrap();
                let id = page.slice.storage.id;
                page.free_count = page.free_count + 1;

                // If free found is sufficiently high (ie. we've seen this alloc as free multiple times,
                // without it being used in the meantime), deallocate it.
                given_up = page.free_count >= ALLOC_AFTER_FREE || explicit;
                if given_up {
                    storage.dealloc(id);
                }
            }
            if given_up {
                proof {
                    self.pages.lemma_keys();
                    assert(self.pages().keys()[kept.len() as int] == key);
                }
                let _ = self.pages.remove(key);
                assert(self.pages().keys() =~= kept + keys@.skip(i + 1));
            } else {
                assert(self.pages().keys() =~= kept.push(key) + keys@.skip(i + 1));
            }
            proof {
                assert forall|other: PageKey| #[trigger] self.pages().lookup(other) is Some implies self.admits(
                    self.page(other),
                ) && Self::knows_key(self.page(other), other) by {
                    assert(before.pages().lookup(other) is Some);
                    self.lemma_keeps_keys(before, other);
                }
            }
            i = i + 1;
        }
    }

    /// Checks the pages as they are at the moment, if that is due after `alloc_nr`
    /// allocations or was asked for.
    pub fn cleanup<Storage: ComputeStorage>(
        &mut self,
        storage: &mut Storage,
        alloc_nr: u64,
        explicit: bool,
    )
        requires
            old(self).wf(),
            explicit || alloc_nr >= old(self).last_dealloc_check(),
        ensures
            final(self).wf(),
            old(self).is_due(alloc_nr, explicit) ==> exists|free: Seq<bool>|
                {
                    &&& old(self).reads_as(free)
                    &&& #[trigger] old(self).checks(free, alloc_nr, explicit, *final(self))
                    &&& final(storage).calls() == old(storage).calls() + old(self).releases(
                        free,
                        explicit,
                        old(self).pages().keys().len() as int,
                    )
                },
            !old(self).is_due(alloc_nr, explicit) ==> *final(self) == *old(self) && *final(storage)
                == *old(storage),
    {
        let free = self.observe();
        self.cleanup_with(storage, alloc_nr, explicit, &free)
    }

    /// The bytes of all pages, if they can be counted.
    pub fn count_reserved(&self) -> (bytes: Option<u64>)
        requires
            self.wf(),
        ensures
            match bytes {
                Some(bytes) => bytes == self.bytes_reserved(),
                None => self.bytes_reserved() > u64::MAX,
            },
    {
        let keys = self.pages.list_keys();
        let ghost pages = self.pages().values();
        let mut bytes: u64 = 0;
        let mut i: usize = 0;
        while i < keys.len()
            invariant
                self.wf(),
                pages == self.pages().values(),
                keys@ == self.pages().keys(),
                i <= keys@.len(),
                bytes == total(pages.take(i as int)),
            decreases keys@.len() - i,
        {
            let key = keys[i];
            proof {
                self.pages.lemma_keys();
                assert(self.pages().lookup(self.pages().keys()[i as int]) is Some);
                lemma_total_prefix(pages, i + 1);
                assert(pages.take(i + 1).drop_last() =~= pages.take(i as int));
            }
            bytes = match bytes.checked_add(self.pages.get(key).unwrap().alloc_size) {
                Some(bytes) => bytes,
                None => {
                    return None;
                },
            };
            i = i + 1;
        }
        assert(pages.take(i as int) =~= pages);
        Some(bytes)
    }

    /// Whether `usage` is the memory usage of the pool.
    pub open spec fn uses(self, free: Seq<bool>, usage: MemoryUsage) -> bool {
        let pages = self.pages().values();
        let count = pages.len() as int;
        &&& usage.number_allocs == sum_used(pages, free, one(), count)
        &&& usage.bytes_in_use == sum_used(pages, free, usable(), count)
        &&& usage.bytes_padding == sum_used(pages, free, padded(), count)
        &&& usage.bytes_reserved == self.bytes_reserved()
    }

    /// Gets the memory usage of the pool, if the pages that are free are those that
    /// `free` says.
    pub fn get_memory_usage_with(&self, free: &Vec<bool>) -> (usage: MemoryUsage)
        requires
            self.wf(),
            free@.len() == self.pages().keys().len(),
            self.bytes_reserved() <= u64::MAX,
        ensures
            self.uses(free@, usage),
    {
        let keys = self.pages.list_keys();
        let mut usage = MemoryUsage::none();
        let ghost pages = self.pages().values();
        let mut i: usize = 0;
        while i < keys.len()
            invariant
                self.wf(),
                pages == self.pages().values(),
                self.bytes_reserved() <= u64::MAX,
                keys@ == self.pages().keys(),
                free@.len() == keys@.len(),
                i <= keys@.len(),
                usage.number_allocs == sum_used(pages, free@, one(), i as int),
                usage.bytes_in_use == sum_used(pages, free@, usable(), i as int),
                usage.bytes_padding == sum_used(pages, free@, padded(), i as int),
                usage.bytes_reserved == total(pages.take(i as int)),
                usage.number_allocs <= i,
                usage.bytes_in_use + usage.bytes_padding <= usage.bytes_reserved,
            decreases keys@.len() - i,
        {
            let key = keys[i];
            proof {
                self.pages.lemma_keys();
                assert(self.pages().lookup(self.pages().keys()[i as int]) is Some);
                lemma_total_prefix(pages, i + 1);
                assert(pages.take(i + 1).drop_last() =~= pages.take(i as int));
            }
            let page = self.pages.get(key).unwrap();
            usage.bytes_reserved = usage.bytes_reserved + page.alloc_size;
            if !free[i] {
                usage.number_allocs = usage.number_allocs + 1;
                usage.bytes_in_use = usage.bytes_in_use + page.slice.storage.size();
                usage.bytes_padding = usage.bytes_padding + page.slice.padding;
            }
            i = i + 1;
        }
        assert(pages.take(i as int) =~= pages);
        usage
    }

    /// Gets the memory usage of the pool at the moment.
    pub fn get_memory_usage(&self) -> (usage: MemoryUsage)
        requires
            self.wf(),
            self.bytes_reserved() <= u64::MAX,
        ensures
            exists|free: Seq<bool>|
                self.reads_as(free) && #[trigger] self.uses(free, usage),
    {
        let free = self.observe();
        self.get_memory_usage_with(&free)
    }

    /// Whether `report` says of the pool what there is to say.
    pub open spec fn reports(self, free: Seq<bool>, report: ExclusivePoolReport) -> bool {
        let pages = self.pages().values();
        &&& report.max_alloc_size == self.max_alloc_size()
        &&& report.pages@.len() == pages.len()
        &&& forall|i: int| #![trigger report.pages@[i]]
            0 <= i < pages.len() ==> report.pages@[i].size == pages[i].slice.room()
                && report.pages@[i].is_free == free[i]
        &&& match report.usage {
            Some(usage) => pages.len() > 0 && self.uses(free, usage),
            None => pages.len() == 0,
        }
    }

    /// Reports on the pool, if the pages that are free are those that `free` says.
    pub fn report_with(&self, free: &Vec<bool>) -> (report: ExclusivePoolReport)
        requires
            self.wf(),
            free@.len() == self.pages().keys().len(),
            self.bytes_reserved() <= u64::MAX,
        ensures
            self.reports(free@, report),
    {
        let keys = self.pages.list_keys();
        let mut pages: Vec<ExclusivePageReport> = Vec::new();
        let mut i: usize = 0;
        while i < keys.len()
            invariant
                self.wf(),
                keys@ == self.pages().keys(),
                free@.len() == keys@.len(),
                i <= keys@.len(),
                pages@.len() == i,
                forall|j: int| #![trigger pages@[j]]
                    0 <= j < i ==> pages@[j].size == self.pages().values()[j].slice.room()
                        && pages@[j].is_free == free@[j],
            decreases keys@.len() - i,
        {
            let key = keys[i];
            proof {
                self.pages.lemma_keys();
                assert(self.pages().lookup(self.pages().keys()[i as int]) is Some);
            }
            let page = self.pages.get(key).unwrap();
            pages.push(
                ExclusivePageReport { size: page.slice.effective_size(), is_free: free[i] },
            );
            i = i + 1;
        }
        let usage = if keys.len() == 0 {
            None
        } else {
            Some(self.get_memory_usage_with(free))
        };
        ExclusivePoolReport { max_alloc_size: self.max_alloc_size, pages, usage }
    }

    /// Reports on the pool as it is at the moment.
    pub fn report(&self) -> (report: ExclusivePoolReport)
        requires
            self.wf(),
            self.bytes_reserved() <= u64::MAX,
        ensures
            exists|free: Seq<bool>|
                self.reads_as(free) && #[trigger] self.reports(free, report),
    {
        let free = self.observe();
        self.report_with(&free)
    }
}

/// Some pages have no more bytes than all.
proof fn lemma_total_prefix(pages: Seq<MemoryPage>, n: int)
    requires
        0 <= n <= pages.len(),
    ensures
        0 <= total(pages.take(n)) <= total(pages),
    decreases pages.len(),
{
    if n == pages.len() {
        assert(pages.take(n) =~= pages);
        if n > 0 {
            lemma_total_prefix(pages.drop_last(), n - 1);
            assert(pages.drop_last().take(n - 1) =~= pages.drop_last());
        }
    } else {
        lemma_total_prefix(pages.drop_last(), n);
        assert(pages.drop_last().take(n) =~= pages.take(n));
    }
}

/// One more page adds its bytes, wherever it stands.
proof fn lemma_total_insert(pages: Seq<MemoryPage>, place: int, page: MemoryPage)
    requires
        0 <= place <= pages.len(),
    ensures
        total(pages.insert(place, page)) == total(pages) + page.alloc_size,
    decreases pages.len(),
{
    let after = pages.insert(place, page);
    if place == pages.len() {
        assert(after.drop_last() =~= pages);
    } else {
        assert(after.drop_last() =~= pages.drop_last().insert(place, page));
        lemma_total_insert(pages.drop_last(), place, page);
    }
}

} // verus!
