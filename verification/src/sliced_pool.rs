//! A pool of pages of one size, each cut into slices.

use crate::align::{aligned, padding};
use crate::error::{page_not_found, IoError};
use crate::handle::{ManagedMemoryBinding, ManagedMemoryHandle, MemoryIds, MemoryLocation};
use crate::memory_page::{
    bound, coalesced, cuts, is_first_fit, lemma_coalesced_sums, lemma_counts,
    lemma_room_is_usable_and_padded, lemma_sum_bounds, lemma_tiles_sum, one, padded, reserves,
    room, sum_where, takes, usable, MemoryPage, MAX_SLICES,
};
use crate::page_key::{has_room, next_generation, occupies, PageKey};
use crate::page_map::PageMap;
use crate::slice::Slice;
use crate::storage::{
    ComputeStorage, StorageCall, StorageHandle, StorageId, StorageUtilization,
};
use crate::usage::MemoryUsage;
use vstd::prelude::*;

verus! {

/// A pool of pages of one size, each cut into slices.
pub struct SlicedPool {
    /// A page keeps its key for its whole life, so freeing one never invalidates
    /// the keys cached in the descriptors pointing at the others.
    pages: PageMap<(MemoryPage, StorageId)>,
    page_size: u64,
    alignment: u64,
    max_alloc_size: u64,
    location_base: MemoryLocation,
}

/// What there is to say of one page of a sliced pool.
#[derive(Clone, Copy, Debug, PartialEq, Eq, Structural)]
pub struct SlicedPageReport {
    pub id: StorageId,
    pub num_slices: usize,
    pub amount_free: u64,
    pub amount_full: u64,
    pub amount_total: u64,
}

/// What there is to say of a sliced pool.
#[derive(Debug)]
pub struct SlicedPoolReport {
    pub page_size: u64,
    pub max_alloc_size: u64,
    /// The pages, in the order of their keys.
    pub pages: Vec<SlicedPageReport>,
    pub usage: MemoryUsage,
}

/// Whether `report` says of a page what there is to say.
pub open spec fn reports_page(
    entry: (MemoryPage, StorageId),
    free: Seq<bool>,
    report: SlicedPageReport,
) -> bool {
    &&& report.id == entry.1
    &&& report.num_slices == entry.0.slices().len()
    &&& report.amount_free == sum_where(entry.0.slices(), free, true, room())
    &&& report.amount_full == sum_where(entry.0.slices(), free, false, room())
    &&& report.amount_total == entry.0.storage().utilization.size
}

/// What was seen of each page: which of its slices are free.
pub open spec fn flags(free: Seq<Vec<bool>>) -> Seq<Seq<bool>> {
    Seq::new(free.len(), |i: int| free[i]@)
}

/// Whether `after`, `ids_after` and `handle` are what becomes of a page when its
/// adjacent free slices are merged and `size` bytes are then reserved on it.
pub open spec fn page_tries(
    before: (MemoryPage, StorageId),
    free: Seq<bool>,
    size: u64,
    ids: MemoryIds,
    after: (MemoryPage, StorageId),
    ids_after: MemoryIds,
    handle: Option<ManagedMemoryHandle>,
) -> bool {
    let (slices, now_free) = coalesced(before.0.slices(), free);
    &&& after.1 == before.1
    &&& after.0.same_page(before.0)
    &&& reserves(
        slices,
        now_free,
        size,
        before.0.alignment(),
        ids,
        after.0.slices(),
        ids_after,
        handle,
    )
}

/// Whether `storage` can be made a page.
pub open spec fn can_be_page(storage: StorageHandle, alignment: u64) -> bool {
    &&& alignment > 0
    &&& storage.utilization.offset % alignment == 0
    &&& storage.utilization.offset + storage.utilization.size <= u64::MAX
}

/// Whether `entry` is a new page that is one slice, under the key `key`.
pub open spec fn is_new_page(
    entry: (MemoryPage, StorageId),
    storage: StorageHandle,
    handle: ManagedMemoryHandle,
    alignment: u64,
    location_base: MemoryLocation,
    key: PageKey,
) -> bool {
    &&& entry.0.wf()
    &&& entry.0.storage() == storage
    &&& entry.0.alignment() == alignment
    &&& entry.0.location_base() == (MemoryLocation { slice: 0, page: key, ..location_base })
    &&& entry.0.slices() == seq![Slice { storage, handle, padding: 0, cursor: 0 }]
    &&& entry.1 == storage.id
}

/// A new page that is one slice, under the key `key`.
fn new_page(
    storage: StorageHandle,
    handle: ManagedMemoryHandle,
    alignment: u64,
    location_base: MemoryLocation,
    key: PageKey,
) -> (entry: (MemoryPage, StorageId))
    requires
        can_be_page(storage, alignment),
    ensures
        is_new_page(entry, storage, handle, alignment, location_base, key),
{
    (MemoryPage::new(storage, handle, alignment, location_base.on_page(key)), storage.id)
}

/// Whether all bytes of a page belong to free slices.
pub open spec fn is_all_free(page: MemoryPage, free: Seq<bool>) -> bool {
    sum_where(page.slices(), free, true, room()) == page.storage().utilization.size
}

impl SlicedPool {
    pub closed spec fn pages(self) -> PageMap<(MemoryPage, StorageId)> {
        self.pages
    }

    pub closed spec fn page_size(self) -> u64 {
        self.page_size
    }

    pub closed spec fn alignment(self) -> u64 {
        self.alignment
    }

    pub closed spec fn max_alloc_size(self) -> u64 {
        self.max_alloc_size
    }

    /// The location that every location in the pool differs from in page and slice
    /// only.
    pub closed spec fn location_base(self) -> MemoryLocation {
        self.location_base
    }

    /// The location of the first slice of the page that `key` names.
    pub open spec fn location_on(self, key: PageKey) -> MemoryLocation {
        MemoryLocation { page: key, ..self.location_base() }
    }

    /// The page that `key` names.
    pub open spec fn page(self, key: PageKey) -> MemoryPage {
        (self.pages().lookup(key)->0).0
    }

    /// The storage of the page that `key` names.
    pub open spec fn storage_of(self, key: PageKey) -> StorageId {
        (self.pages().lookup(key)->0).1
    }

    /// Whether `entry` can be the page that `key` names.
    pub open spec fn admits(self, key: PageKey, entry: (MemoryPage, StorageId)) -> bool {
        &&& entry.0.wf()
        &&& entry.0.storage() == (StorageHandle {
            id: entry.1,
            utilization: StorageUtilization { offset: 0, size: self.page_size() },
        })
        &&& entry.0.alignment() == self.alignment()
        &&& entry.0.location_base() == self.location_on(key)
    }

    pub open spec fn wf(self) -> bool {
        &&& self.pages().wf()
        &&& self.location_base().slice == 0
        &&& forall|key: PageKey| #![trigger self.pages().lookup(key)]
            self.pages().lookup(key) is Some ==> self.admits(key, self.pages().lookup(key)->0)
    }

    /// Whether `free` can be what was seen of the pool's pages, by key.
    pub open spec fn observes(self, free: Seq<Seq<bool>>) -> bool {
        &&& free.len() == self.pages().keys().len()
        &&& forall|i: int| #![trigger free[i]]
            0 <= i < free.len() ==> free[i].len() == self.pages().values()[i].0.slices().len()
    }

    /// Whether `free` says of each slice of each page, by key, what the slice's own
    /// handle can be read as.
    pub open spec fn reads_as(self, free: Seq<Seq<bool>>) -> bool {
        &&& free.len() == self.pages().keys().len()
        &&& forall|i: int| #![trigger free[i]]
            0 <= i < free.len() ==> self.pages().values()[i].0.reads_as(free[i])
    }

    /// Whether the pools differ in no more than their pages.
    pub open spec fn same_pool(self, other: SlicedPool) -> bool {
        &&& self.page_size() == other.page_size()
        &&& self.alignment() == other.alignment()
        &&& self.max_alloc_size() == other.max_alloc_size()
        &&& self.location_base() == other.location_base()
    }

    /// Whether the pools differ in no more than what is on their pages.
    pub open spec fn same_keys(self, other: SlicedPool) -> bool {
        &&& self.same_pool(other)
        &&& self.pages().keys() == other.pages().keys()
        &&& self.pages().generations() == other.pages().generations()
    }

    pub fn new(page_size: u64, max_slice_size: u64, alignment: u64, pool_pos: u8) -> (pool: Self)
        ensures
            pool.wf(),
            pool.page_size() == page_size,
            pool.alignment() == alignment,
            pool.max_alloc_size() == max_slice_size,
            pool.location_base().pool == pool_pos,
            pool.location_base().page.is_null(),
            pool.location_base().slice == 0,
            pool.location_base().init == 1,
            pool.pages().keys() == Seq::<PageKey>::empty(),
            pool.pages().generations() == seq![0u32],
            forall|key: PageKey| pool.pages().lookup(key) is None,
    {
        SlicedPool {
            pages: PageMap::new(),
            page_size,
            alignment,
            max_alloc_size: max_slice_size,
            location_base: MemoryLocation::base(pool_pos),
        }
    }

    /// Whether an allocation of `size` bytes belongs in this pool: it is not too large for
    /// a slice, or less than a fifth of a page stays unused.
    pub open spec fn accepts(self, size: u64) -> bool {
        ||| size <= self.max_alloc_size()
        ||| size <= self.page_size() && (self.page_size() - size) * 5 < self.page_size()
    }

    /// Whether an allocation of `size` bytes belongs in this pool.
    pub fn accept(&self, size: u64) -> (accepted: bool)
        requires
            self.max_alloc_size() < size <= self.page_size() ==> (self.page_size() - size) * 5
                <= u64::MAX,
        ensures
            accepted == self.accepts(size),
    {
        self.max_alloc_size >= size
            ||
        // If the size is close to the page size so it doesn't create much fragmentation with
        // unused space.
        match self.page_size.checked_sub(size) {
            Some(diff) => diff * 5 < self.page_size,  // 20 % unused space is the max allowed.
            None => false,
        }
    }

    /// Whether there is a key for one more page.
    pub fn has_room(&self) -> (room: bool)
        requires
            self.wf(),
        ensures
            room == has_room(self.pages().generations()),
    {
        self.pages.has_room()
    }

    /// Which slices are free at the moment, page by page.
    pub fn observe(&self) -> (free: Vec<Vec<bool>>)
        requires
            self.wf(),
        ensures
            self.observes(flags(free@)),
            self.reads_as(flags(free@)),
    {
        let keys = self.pages.list_keys();
        let mut free: Vec<Vec<bool>> = Vec::new();
        let mut i: usize = 0;
        proof {
            self.pages.lemma_keys();
        }
        while i < keys.len()
            invariant
                self.wf(),
                keys@ == self.pages().keys(),
                i <= keys@.len(),
                free@.len() == i,
                forall|j: int| #![trigger self.pages().keys()[j]]
                    0 <= j < keys@.len() ==> self.pages().lookup(self.pages().keys()[j]) is Some,
                forall|j: int| #![trigger free@[j]]
                    0 <= j < i ==> self.pages().values()[j].0.reads_as(free@[j]@),
            decreases keys@.len() - i,
        {
            let key = keys[i];
            assert(self.pages().lookup(self.pages().keys()[i as int]) is Some);
            let entry = self.pages.get(key).unwrap();
            free.push(entry.0.observe());
            i = i + 1;
        }
        free
    }

    /// Whether looking `location` up in the pool comes to `found`.
    pub open spec fn finds(self, location: MemoryLocation, found: Result<&Slice, IoError>) -> bool {
        match (self.pages().lookup(location.page), found) {
            (Some(entry), Ok(slice)) => location.slice < entry.0.slices().len() && *slice
                == entry.0.slices()[location.slice as int],
            (Some(entry), Err(error)) => location.slice >= entry.0.slices().len() && error == (
            IoError::NotFound { page: location.page }),
            (None, Err(error)) => error == (IoError::NotFound { page: location.page }),
            (None, Ok(_)) => false,
        }
    }

    /// The slice at `location`.
    pub fn find_at(&self, location: MemoryLocation) -> (found: Result<&Slice, IoError>)
        requires
            self.wf(),
        ensures
            self.finds(location, found),
    {
        let key = location.page;
        match self.pages.get(key) {
            Some(entry) => entry.0.find(location.slice as usize),
            None => Err(page_not_found(key)),
        }
    }

    /// The slice that `binding` is bound to, at the location that the binding has
    /// at the moment.
    pub fn find(&self, binding: &ManagedMemoryBinding) -> (found: Result<&Slice, IoError>)
        requires
            self.wf(),
        ensures
            exists|location: MemoryLocation| #[trigger]
                binding.shared().locations().contains(location) && self.finds(location, found),
    {
        let location = binding.descriptor().location();
        self.find_at(location)
    }

    /// Whether `after` and `result` are what becomes of `self` when the slice at
    /// `location` is bound to `assigned`.
    pub open spec fn binds(
        self,
        location: MemoryLocation,
        assigned: ManagedMemoryHandle,
        cursor: u64,
        after: SlicedPool,
        result: Result<(), IoError>,
    ) -> bool {
        let key = location.page;
        let place = location.slice as int;
        &&& after.same_keys(self)
        &&& forall|other: PageKey| #![trigger after.pages().lookup(other)]
            other != key ==> after.pages().lookup(other) == self.pages().lookup(other)
        &&& match (self.pages().lookup(key), result) {
            (Some(entry), Ok(_)) => {
                &&& place < entry.0.slices().len()
                &&& after.pages().lookup(key) matches Some(changed)
                &&& changed.1 == entry.1
                &&& changed.0.same_page(entry.0)
                &&& changed.0.slices() == entry.0.slices().update(
                    place,
                    bound(entry.0.slices()[place], assigned, cursor),
                )
            },
            (Some(entry), Err(error)) => {
                &&& place >= entry.0.slices().len()
                &&& error == (IoError::NotFound { page: key })
                &&& after.pages().lookup(key) == Some(entry)
            },
            (None, Err(error)) => {
                &&& error == (IoError::NotFound { page: key })
                &&& after.pages().lookup(key) is None
            },
            (None, Ok(_)) => false,
        }
    }

    /// Gives the slice at `location` the handle `assigned`, which then knows where
    /// it is.
    pub fn bind_at(
        &mut self,
        location: MemoryLocation,
        assigned: ManagedMemoryHandle,
        cursor: u64,
    ) -> (result: Result<(), IoError>)
        requires
            old(self).wf(),
        ensures
            final(self).wf(),
            old(self).binds(location, assigned, cursor, *final(self), result),
            result is Ok ==> assigned.shared().locations().contains(
                (MemoryLocation { slice: location.slice, ..old(self).location_on(location.page) }),
            ),
    {
        let key = location.page;
        match self.pages.get_mut(key) {
            Some(entry) => {
                entry.0.bind(location.slice as usize, assigned, cursor)
            },
            None => Err(page_not_found(key)),
        }
    }

    /// Binds a user defined handle to the slice that `reserved` has, at the
    /// location that `reserved` has at the moment.
    pub fn bind(
        &mut self,
        reserved: ManagedMemoryHandle,
        assigned: ManagedMemoryHandle,
        cursor: u64,
    ) -> (result: Result<(), IoError>)
        requires
            old(self).wf(),
        ensures
            final(self).wf(),
            exists|location: MemoryLocation| #[trigger]
                reserved.shared().locations().contains(location) && old(self).binds(
                    location,
                    assigned,
                    cursor,
                    *final(self),
                    result,
                ),
    {
        let location = reserved.descriptor().location();
        self.bind_at(location, assigned, cursor)
    }

    /// Whether `after`, `ids_after` and `handle` are what becomes of `self` when the
    /// pages are tried one after the other, and page `k` is the first that can
    /// supply `size` bytes.
    pub open spec fn reserves_on(
        self,
        k: int,
        free: Seq<Seq<bool>>,
        size: u64,
        ids: MemoryIds,
        after: SlicedPool,
        ids_after: MemoryIds,
        handle: Option<ManagedMemoryHandle>,
    ) -> bool {
        let pages = self.pages().values();
        let pages_after = after.pages().values();
        &&& 0 <= k <= pages.len()
        &&& handle is Some <==> k < pages.len()
        &&& handle is None ==> ids_after == ids
        &&& forall|i: int| #![trigger pages_after[i]]
            0 <= i < k ==> page_tries(pages[i], free[i], size, ids, pages_after[i], ids, None)
        &&& k < pages.len() ==> page_tries(
            pages[k],
            free[k],
            size,
            ids,
            pages_after[k],
            ids_after,
            handle,
        )
        &&& forall|i: int| #![trigger pages_after[i]]
            k < i < pages.len() ==> pages_after[i] == pages[i]
    }

    /// Whether page `i` can supply `size` bytes once its adjacent free slices are merged.
    pub open spec fn supplies(self, i: int, free: Seq<Seq<bool>>, size: u64) -> bool {
        let (slices, now_free) = coalesced(self.pages().values()[i].0.slices(), free[i]);
        exists|j: int| #[trigger]
            is_first_fit(slices, now_free, aligned(size as int, self.alignment() as int), j)
    }

    /// Whether a slice of page `i` is then cut in two, so that what is left of it needs an
    /// identifier.
    pub open spec fn cuts_on(self, i: int, free: Seq<Seq<bool>>, size: u64) -> bool {
        let (slices, now_free) = coalesced(self.pages().values()[i].0.slices(), free[i]);
        cuts(slices, now_free, aligned(size as int, self.alignment() as int))
    }

    /// Whether it takes an identifier to reserve `size` bytes: a slice is cut on the first
    /// page that can supply them.
    pub open spec fn draws_id(self, free: Seq<Seq<bool>>, size: u64) -> bool {
        exists|i: int|
            {
                &&& 0 <= i < self.pages().keys().len()
                &&& #[trigger] self.cuts_on(i, free, size)
                &&& forall|j: int| 0 <= j < i ==> !#[trigger] self.supplies(j, free, size)
            }
    }

    /// Reserves `size` bytes on the first page that can supply them, if the slices
    /// that are free are those that `free` says. Adjacent free slices are merged on
    /// the pages that are tried.
    pub fn try_reserve_with(&mut self, size: u64, free: &Vec<Vec<bool>>, ids: &mut MemoryIds) -> (handle:
        Option<ManagedMemoryHandle>)
        requires
            old(self).wf(),
            old(self).observes(flags(free@)),
            old(self).draws_id(flags(free@), size) ==> old(ids).left() > 0,
        ensures
            final(self).wf(),
            final(self).same_keys(*old(self)),
            exists|k: int| #[trigger]
                old(self).reserves_on(
                    k,
                    flags(free@),
                    size,
                    *old(ids),
                    *final(self),
                    *final(ids),
                    handle,
                ),
    {
        let keys = self.pages.list_keys();
        let mut i: usize = 0;
        proof {
            self.pages.lemma_keys();
        }
        while i < keys.len()
            invariant
                self.wf(),
                self.same_keys(*old(self)),
                keys@ == old(self).pages().keys(),
                i <= keys@.len(),
                old(self).observes(flags(free@)),
                *ids == *old(ids),
                old(self).draws_id(flags(free@), size) ==> ids.left() > 0,
                forall|j: int| 0 <= j < i ==> !#[trigger] old(self).supplies(j, flags(free@), size),
                forall|j: int| #![trigger old(self).pages().keys()[j]]
                    0 <= j < keys@.len() ==> old(self).pages().lookup(
                        old(self).pages().keys()[j],
                    ) is Some,
                forall|j: int, k: int|
                    #![trigger old(self).pages().keys()[j], old(self).pages().keys()[k]]
                    0 <= j < k < keys@.len() ==> old(self).pages().keys()[j].slot() < old(
                        self,
                    ).pages().keys()[k].slot(),
                forall|j: int| #![trigger self.pages().values()[j]]
                    0 <= j < i ==> page_tries(
                        old(self).pages().values()[j],
                        flags(free@)[j],
                        size,
                        *old(ids),
                        self.pages().values()[j],
                        *old(ids),
                        None,
                    ),
                forall|j: int| #![trigger self.pages().values()[j]]
                    i <= j < keys@.len() ==> self.pages().values()[j] == old(
                        self,
                    ).pages().values()[j],
            decreases keys@.len() - i,
        {
            let key = keys[i];
            let ghost before = *self;
            proof {
                assert(self.pages().values()[i as int] == old(self).pages().values()[i as int]);
                self.pages.lemma_keys();
                assert(self.pages().lookup(self.pages().keys()[i as int]) is Some);
                assert(flags(free@)[i as int].len() == old(
                    self,
                ).pages().values()[i as int].0.slices().len());
            }
            let entry = self.pages.get_mut(key).unwrap();
            let now_free = entry.0.coalesce_with(&free[i]);
            assert(cuts(
                entry.0.slices(),
                now_free@,
                aligned(size as int, entry.0.alignment() as int),
            ) ==> old(self).cuts_on(i as int, flags(free@), size));
            let handle = entry.0.try_reserve_with(size, &now_free, ids);
            proof {
                let pages = old(self).pages().values();
                let pages_after = self.pages().values();
                assert forall|j: int| 0 <= j < keys@.len() && j != i implies #[trigger] pages_after[j]
                    == before.pages().values()[j] by {
                    assert(self.pages().keys()[j] != key) by {
                        assert(old(self).pages().keys()[j].slot() != old(
                            self,
                        ).pages().keys()[i as int].slot());
                    }
                }
                assert(page_tries(
                    pages[i as int],
                    flags(free@)[i as int],
                    size,
                    *old(ids),
                    pages_after[i as int],
                    *ids,
                    handle,
                ));
            }
            if handle.is_some() {
                assert(old(self).reserves_on(
                    i as int,
                    flags(free@),
                    size,
                    *old(ids),
                    *self,
                    *ids,
                    handle,
                ));
                return handle;
            }
            i = i + 1;
        }
        assert(old(self).reserves_on(i as int, flags(free@), size, *old(ids), *self, *ids, None));
        None
    }

    /// Reserves `size` bytes on the first page that can supply them, as far as
    /// slices are free at the moment. Adjacent free slices are merged on the pages
    /// that are tried.
    pub fn try_reserve(&mut self, size: u64, ids: &mut MemoryIds) -> (handle: Option<
        ManagedMemoryHandle,
    >)
        requires
            old(self).wf(),
            forall|free: Seq<Seq<bool>>| #[trigger]
                old(self).observes(free) && old(self).draws_id(free, size) ==> old(ids).left() > 0,
        ensures
            final(self).wf(),
            final(self).same_keys(*old(self)),
            exists|k: int, free: Seq<Seq<bool>>|
                old(self).reads_as(free) && #[trigger] old(self).reserves_on(
                    k,
                    free,
                    size,
                    *old(ids),
                    *final(self),
                    *final(ids),
                    handle,
                ),
    {
        let free = self.observe();
        self.try_reserve_with(size, &free, ids)
    }

    /// Whether `after` is `self` with a new page, which `key` names.
    pub open spec fn adds_page(self, key: PageKey, after: SlicedPool) -> bool {
        &&& after.same_pool(self)
        &&& self.pages().lookup(key) is None
        &&& after.pages().lookup(key) is Some
        &&& forall|other: PageKey| #![trigger after.pages().lookup(other)]
            other != key ==> after.pages().lookup(other) == self.pages().lookup(other)
        &&& after.pages().keys() == self.pages().keys().insert(self.pages().place(key), key)
        &&& 0 <= self.pages().place(key) <= self.pages().keys().len()
        &&& occupies(self.pages().generations(), key, after.pages().generations())
    }

    /// Makes a page of what the storage has replied and returns its key.
    pub fn alloc_page(&mut self, reply: Result<StorageHandle, IoError>, ids: &mut MemoryIds) -> (result:
        Result<PageKey, IoError>)
        requires
            old(self).wf(),
            old(self).alignment() > 0,
            reply matches Ok(handle) ==> handle.utilization == (StorageUtilization {
                offset: 0,
                size: old(self).page_size(),
            }),
            has_room(old(self).pages().generations()),
            old(ids).left() > 0,
        ensures
            final(self).wf(),
            match (reply, result) {
                (Ok(storage), Ok(key)) => {
                    &&& old(self).adds_page(key, *final(self))
                    &&& final(self).storage_of(key) == storage.id
                    &&& final(self).page(key).slices().len() == 1
                    &&& final(self).page(key).slices()[0] == (Slice {
                        storage,
                        handle: final(self).page(key).slices()[0].handle,
                        padding: 0,
                        cursor: 0,
                    })
                    &&& final(self).page(key).slices()[0].handle.id().value == old(ids).next()
                    &&& final(ids).next() == old(ids).next() + 1
                },
                (Err(refusal), Err(error)) => {
                    &&& error == refusal
                    &&& *final(self) == *old(self)
                    &&& *final(ids) == *old(ids)
                },
                _ => false,
            },
    {
        let storage = match reply {
            Ok(storage) => storage,
            Err(error) => {
                return Err(error);
            },
        };
        let alignment: u64 = self.alignment;
        let location_base = self.location_base;
        let handle = ManagedMemoryHandle::new(ids);

        // The page stamps its key on every slice it hands out, so it has to know
        // the key before it exists.
        let make_page = |key: PageKey| -> (entry: (MemoryPage, StorageId))
            requires can_be_page(storage, alignment)
            ensures is_new_page(entry, storage, handle, alignment, location_base, key)
        {
            new_page(storage, handle, alignment, location_base, key)
        };
        let key = self.pages.insert_with_key(make_page);
        Ok(key)
    }

    /// Whether `after`, `ids_after` and `handle` are what becomes of `self` when a
    /// page is made of `storage` and its first `size` bytes are handed out.
    pub open spec fn allocates_on(
        self,
        key: PageKey,
        storage: StorageHandle,
        size: u64,
        ids: MemoryIds,
        after: SlicedPool,
        ids_after: MemoryIds,
        handle: ManagedMemoryHandle,
    ) -> bool {
        let bytes = padding(size as int, self.alignment() as int) as u64;
        let whole = Slice { storage, handle, padding: 0, cursor: 0 };
        let slices = after.page(key).slices();
        &&& self.adds_page(key, after)
        &&& after.storage_of(key) == storage.id
        &&& takes(seq![whole], slices, 0, size, bytes)
        &&& handle.id().value == ids.next()
        &&& handle.shared().locations().contains(self.location_on(key))
        &&& if size + bytes == self.page_size() {
            ids_after.next() == ids.next() + 1
        } else {
            &&& slices[1].handle.id().value == ids.next() + 1
            &&& ids_after.next() == ids.next() + 2
        }
    }

    /// Whether `after`, `ids_after` and `result` are what becomes of `self` when
    /// `size` bytes are allocated and the storage replies `reply`.
    pub open spec fn allocates(
        self,
        reply: Result<StorageHandle, IoError>,
        size: u64,
        ids: MemoryIds,
        after: SlicedPool,
        ids_after: MemoryIds,
        result: Result<ManagedMemoryHandle, IoError>,
    ) -> bool {
        match reply {
            Ok(storage) => result is Ok && exists|key: PageKey| #[trigger]
                self.allocates_on(key, storage, size, ids, after, ids_after, result->Ok_0),
            Err(refusal) => result == Err::<ManagedMemoryHandle, IoError>(refusal) && after == self
                && ids_after == ids,
        }
    }

    /// How many identifiers it takes to allocate `size` bytes: one for them, and one for
    /// what is left of the page, if there is anything left.
    pub open spec fn ids_for(self, size: u64) -> int {
        if aligned(size as int, self.alignment() as int) == self.page_size() {
            1
        } else {
            2
        }
    }

    /// Makes a page of what the storage has replied and hands out its first `size`
    /// bytes.
    pub fn allocate_with(
        &mut self,
        reply: Result<StorageHandle, IoError>,
        size: u64,
        ids: &mut MemoryIds,
    ) -> (result: Result<ManagedMemoryHandle, IoError>)
        requires
            old(self).wf(),
            old(self).alignment() > 0,
            aligned(size as int, old(self).alignment() as int) <= old(self).page_size(),
            reply matches Ok(handle) ==> handle.utilization == (StorageUtilization {
                offset: 0,
                size: old(self).page_size(),
            }),
            has_room(old(self).pages().generations()),
            old(ids).left() >= old(self).ids_for(size),
        ensures
            final(self).wf(),
            old(self).allocates(reply, size, *old(ids), *final(self), *final(ids), result),
    {
        let key = match self.alloc_page(reply, ids) {
            Ok(key) => key,
            Err(error) => {
                return Err(error);
            },
        };
        let ghost slices = self.page(key).slices();
        let entry = self.pages.get_mut(key).unwrap();
        // Nobody has the handle on the new page's slice yet.
        let mut free: Vec<bool> = Vec::new();
        free.push(true);
        proof {
            assert(slices[0].room() == self.page_size);
            assert(is_first_fit(
                slices,
                free@,
                aligned(size as int, self.alignment as int),
                0,
            ));
        }
        let handle = entry.0.try_reserve_with(size, &free, ids);
        let handle = handle.unwrap();
        proof {
            let whole = Slice { storage: reply->Ok_0, handle, padding: 0, cursor: 0 };
            assert(slices =~= seq![whole]);
        }
        let result = Ok(handle);
        assert(old(self).allocates_on(
            key,
            reply->Ok_0,
            size,
            *old(ids),
            *self,
            *ids,
            result->Ok_0,
        ));
        result
    }

    /// Has the storage make a page and hands out its first `size` bytes.
    pub fn allocate<Storage: ComputeStorage>(
        &mut self,
        storage: &mut Storage,
        size: u64,
        ids: &mut MemoryIds,
    ) -> (result: Result<ManagedMemoryHandle, IoError>)
        requires
            old(self).wf(),
            old(self).alignment() > 0,
            aligned(size as int, old(self).alignment() as int) <= old(self).page_size(),
            has_room(old(self).pages().generations()),
            old(ids).left() >= old(self).ids_for(size),
        ensures
            final(self).wf(),
            exists|reply: Result<StorageHandle, IoError>|
                final(storage).calls() == #[trigger] old(storage).calls().push(
                    StorageCall::Alloc { size: old(self).page_size(), reply },
                ) && old(self).allocates(
                    reply,
                    size,
                    *old(ids),
                    *final(self),
                    *final(ids),
                    result,
                ),
    {
        let reply = storage.allocate(self.page_size);
        self.allocate_with(reply, size, ids)
    }

    /// The keys of the first `n` pages that are not free as a whole.
    pub open spec fn survivors(self, free: Seq<Seq<bool>>, n: int) -> Seq<PageKey>
        decreases n,
    {
        if n <= 0 {
            Seq::empty()
        } else if is_all_free(self.pages().values()[n - 1].0, free[n - 1]) {
            self.survivors(free, n - 1)
        } else {
            self.survivors(free, n - 1).push(self.pages().keys()[n - 1])
        }
    }

    /// The calls that deallocate those of the first `n` pages that are free as a
    /// whole.
    pub open spec fn releases(self, free: Seq<Seq<bool>>, n: int) -> Seq<StorageCall>
        decreases n,
    {
        if n <= 0 {
            Seq::empty()
        } else if is_all_free(self.pages().values()[n - 1].0, free[n - 1]) {
            self.releases(free, n - 1).push(
                StorageCall::Dealloc { id: self.pages().values()[n - 1].1 },
            )
        } else {
            self.releases(free, n - 1)
        }
    }

    /// Whether page `i` has been cleaned up in `after`: it has gone if it was free as
    /// a whole, or else its adjacent free slices are merged.
    pub open spec fn cleans_page(self, i: int, free: Seq<Seq<bool>>, after: SlicedPool) -> bool {
        let key = self.pages().keys()[i];
        let entry = self.pages().values()[i];
        if is_all_free(entry.0, free[i]) {
            &&& after.pages().lookup(key) is None
            &&& after.pages().generations()[key.slot()] == next_generation(key.generation() as u32)
        } else {
            &&& after.pages().lookup(key) is Some
            &&& after.page(key).same_page(entry.0)
            &&& after.page(key).slices() == coalesced(entry.0.slices(), free[i]).0
            &&& after.storage_of(key) == entry.1
            &&& after.pages().generations()[key.slot()] == key.generation()
        }
    }

    /// Whether `after` is `self` with every page cleaned up. No page gets another
    /// key.
    pub open spec fn cleans(self, free: Seq<Seq<bool>>, after: SlicedPool) -> bool {
        let count = self.pages().keys().len() as int;
        &&& after.same_pool(self)
        &&& after.pages().keys() == self.survivors(free, count)
        &&& forall|i: int| #![trigger self.pages().keys()[i]]
            0 <= i < count ==> self.cleans_page(i, free, after)
        &&& forall|key: PageKey| #![trigger after.pages().lookup(key)]
            self.pages().lookup(key) is None ==> after.pages().lookup(key) is None
        &&& after.pages().generations().len() == self.pages().generations().len()
        &&& forall|slot: int| #![trigger after.pages().generations()[slot]]
            0 <= slot < self.pages().generations().len() && !self.has_page_in(slot)
                ==> after.pages().generations()[slot] == self.pages().generations()[slot]
    }

    /// Whether some page is in slot `slot`.
    pub open spec fn has_page_in(self, slot: int) -> bool {
        exists|i: int|
            0 <= i < self.pages().keys().len() && (#[trigger] self.pages().keys()[i]).slot() == slot
    }

    /// Gives the pages that are free as a whole back to the storage, if the slices
    /// that are free are those that `free` says and the cleanup was asked for.
    ///
    /// Surviving pages keep their key, so a page that was live before the cleanup is
    /// still reachable through every descriptor that named it.
    pub fn cleanup_with<Storage: ComputeStorage>(
        &mut self,
        storage: &mut Storage,
        explicit: bool,
        free: &Vec<Vec<bool>>,
    )
        requires
            old(self).wf(),
            old(self).observes(flags(free@)),
        ensures
            final(self).wf(),
            explicit ==> {
                &&& old(self).cleans(flags(free@), *final(self))
                &&& final(storage).calls() == old(storage).calls() + old(self).releases(
                    flags(free@),
                    old(self).pages().keys().len() as int,
                )
            },
            !explicit ==> *final(self) == *old(self) && *final(storage) == *old(storage),
    {
        if !explicit {
            return ;
        }
        let keys = self.pages.list_keys();
        let ghost pool = *self;
        let ghost seen = flags(free@);
        let mut i: usize = 0;
        proof {
            self.pages.lemma_keys();
            assert(pool.survivors(seen, 0) + keys@.skip(0) =~= keys@);
            assert(storage.calls() + pool.releases(seen, 0) =~= storage.calls());
        }
        while i < keys.len()
            invariant
                pool == *old(self),
                pool.wf(),
                self.wf(),
                self.same_pool(pool),
                seen == flags(free@),
                keys@ == pool.pages().keys(),
                pool.observes(seen),
                i <= keys@.len(),
                self.pages().keys() == pool.survivors(seen, i as int) + keys@.skip(i as int),
                self.pages().generations().len() == pool.pages().generations().len(),
                storage.calls() == old(storage).calls() + pool.releases(seen, i as int),
                forall|j: int| #![trigger pool.pages().keys()[j]]
                    0 <= j < i ==> pool.cleans_page(j, seen, *self),
                forall|j: int| #![trigger pool.pages().keys()[j]]
                    i <= j < keys@.len() ==> self.pages().lookup(pool.pages().keys()[j])
                        == pool.pages().lookup(pool.pages().keys()[j]),
                forall|key: PageKey| #![trigger self.pages().lookup(key)]
                    pool.pages().lookup(key) is None ==> self.pages().lookup(key) is None,
                forall|j: int| #![trigger pool.pages().keys()[j]]
                    i <= j < keys@.len() ==> self.pages().generations()[pool.pages().keys()[j].slot()]
                        == pool.pages().generations()[pool.pages().keys()[j].slot()],
                forall|slot: int| #![trigger self.pages().generations()[slot]]
                    0 <= slot < pool.pages().generations().len() && !pool.has_page_in(slot)
                        ==> self.pages().generations()[slot] == pool.pages().generations()[slot],
            decreases keys@.len() - i,
        {
            let key = keys[i];
            proof {
                pool.pages.lemma_keys();
                assert(pool.pages().lookup(pool.pages().keys()[i as int]) is Some);
                assert(seen[i as int].len() == pool.pages().values()[i as int].0.slices().len());
            }
            let entry = self.pages.get_mut(key).unwrap();
            let ghost page = entry.0;
            let now_free = entry.0.coalesce_with(&free[i]);
            let summary = entry.0.summary_with(&now_free);
            let id = entry.1;
            proof {
                lemma_coalesced_sums(page.slices(), seen[i as int], page.start(), page.end());
            }
            let ghost kept = pool.survivors(seen, i as int);
            if summary.amount_free == summary.amount_total {
                storage.dealloc(id);
                proof {
                    self.pages.lemma_keys();
                    assert(self.pages().keys()[kept.len() as int] == key);
                }
                let _ = self.pages.remove(key);
                assert(self.pages().keys() =~= kept + keys@.skip(i + 1));
            } else {
                assert(self.pages().keys() =~= kept.push(key) + keys@.skip(i + 1));
            }
            i = i + 1;
        }
    }

    /// Gives the pages whose slices are all free at the moment back to the storage,
    /// if the cleanup was asked for.
    pub fn cleanup<Storage: ComputeStorage>(
        &mut self,
        storage: &mut Storage,
        _alloc_nr: u64,
        explicit: bool,
    )
        requires
            old(self).wf(),
        ensures
            final(self).wf(),
            explicit ==> exists|free: Seq<Seq<bool>>|
                {
                    &&& #[trigger] old(self).reads_as(free)
                    &&& old(self).cleans(free, *final(self))
                    &&& final(storage).calls() == old(storage).calls() + old(self).releases(
                        free,
                        old(self).pages().keys().len() as int,
                    )
                },
            !explicit ==> *final(self) == *old(self) && *final(storage) == *old(storage),
    {
        let free = self.observe();
        self.cleanup_with(storage, explicit, &free)
    }

    /// What `part` comes to over the slices in use on the first `n` pages.
    pub open spec fn in_use(
        self,
        free: Seq<Seq<bool>>,
        part: spec_fn(Slice) -> int,
        n: int,
    ) -> int
        decreases n,
    {
        if n <= 0 {
            0
        } else {
            self.in_use(free, part, n - 1) + sum_where(
                self.pages().values()[n - 1].0.slices(),
                free[n - 1],
                false,
                part,
            )
        }
    }

    /// The bytes of all pages.
    pub open spec fn bytes_reserved(self) -> int {
        self.pages().keys().len() * self.page_size()
    }

    /// The bytes of all pages, if they can be counted.
    pub fn count_reserved(&self) -> (bytes: Option<u64>)
        requires
            self.wf(),
        ensures
            match bytes {
                Some(bytes) => bytes == self.bytes_reserved(),
                None => self.bytes_reserved() > u64::MAX,
            },
    {
        let count: usize = self.pages.list_keys().len();
        (count as u64).checked_mul(self.page_size)
    }

    /// Whether `usage` is the memory usage of the pool.
    pub open spec fn uses(self, free: Seq<Seq<bool>>, usage: MemoryUsage) -> bool {
        let count = self.pages().keys().len() as int;
        &&& usage.number_allocs == self.in_use(free, one(), count)
        &&& usage.bytes_in_use == self.in_use(free, usable(), count)
        &&& usage.bytes_padding == self.in_use(free, padded(), count)
        &&& usage.bytes_reserved == self.bytes_reserved()
    }

    /// No more bytes are in use on a page than the page has.
    pub proof fn lemma_page_in_use(self, free: Seq<Seq<bool>>, i: int)
        requires
            self.wf(),
            self.observes(free),
            0 <= i < free.len(),
        ensures
            self.admits(self.pages().keys()[i], self.pages().values()[i]),
            ({
                let slices = self.pages().values()[i].0.slices();
                let used = sum_where(slices, free[i], false, usable());
                let padding = sum_where(slices, free[i], false, padded());
                &&& 0 <= used
                &&& 0 <= padding
                &&& used + padding <= self.page_size()
                &&& 0 <= sum_where(slices, free[i], false, one()) <= MAX_SLICES
            }),
    {
        self.pages().lemma_keys();
        let key = self.pages().keys()[i];
        assert(self.pages().lookup(key) is Some);
        let page = self.pages().values()[i].0;
        let slices = page.slices();
        assert(free[i].len() == slices.len());
        lemma_tiles_sum(slices, free[i], page.start(), page.end());
        lemma_room_is_usable_and_padded(slices, free[i], false);
        lemma_counts(slices, free[i]);
        lemma_sum_bounds(slices, free[i], true, room(), room());
        lemma_sum_bounds(slices, free[i], false, usable(), room());
        lemma_sum_bounds(slices, free[i], false, padded(), room());
        lemma_sum_bounds(slices, free[i], true, one(), one());
        lemma_sum_bounds(slices, free[i], false, one(), one());
    }

    /// Gets the memory usage of the pool, if the slices that are free are those that
    /// `free` says.
    pub fn get_memory_usage_with(&self, free: &Vec<Vec<bool>>) -> (usage: MemoryUsage)
        requires
            self.wf(),
            self.observes(flags(free@)),
            self.bytes_reserved() <= u64::MAX,
        ensures
            self.uses(flags(free@), usage),
    {
        let keys = self.pages.list_keys();
        let mut usage = MemoryUsage::none();
        let ghost seen = flags(free@);
        let mut i: usize = 0;
        proof {
            self.pages.lemma_keys();
        }
        while i < keys.len()
            invariant
                self.wf(),
                seen == flags(free@),
                self.observes(seen),
                self.bytes_reserved() <= u64::MAX,
                keys@ == self.pages().keys(),
                keys@.len() < u32::MAX,
                i <= keys@.len(),
                usage.number_allocs == self.in_use(seen, one(), i as int),
                usage.bytes_in_use == self.in_use(seen, usable(), i as int),
                usage.bytes_padding == self.in_use(seen, padded(), i as int),
                usage.bytes_reserved == i * self.page_size(),
                usage.number_allocs <= i * MAX_SLICES,
                usage.bytes_in_use + usage.bytes_padding <= i * self.page_size(),
            decreases keys@.len() - i,
        {
            let key = keys[i];
            proof {
                self.lemma_page_in_use(seen, i as int);
                self.pages.lemma_keys();
                assert(self.pages().lookup(self.pages().keys()[i as int]) is Some);
                assert(seen[i as int].len() == self.pages().values()[i as int].0.slices().len());
                let count = self.pages().keys().len();
                let size = self.page_size();
                assert((i + 1) * size <= count * size) by (nonlinear_arith)
                    requires
                        i + 1 <= count,
                        0 <= size,
                ;
                assert((i + 1) * size == i * size + size) by (nonlinear_arith);
                assert((i + 1) * MAX_SLICES == i * MAX_SLICES + MAX_SLICES) by (nonlinear_arith);
                assert((i + 1) * MAX_SLICES <= u64::MAX) by (nonlinear_arith)
                    requires
                        i + 1 <= u32::MAX,
                        MAX_SLICES == 0xffff_ffff,
                ;
            }
            let entry = self.pages.get(key).unwrap();
            usage = usage.combine(entry.0.memory_usage_with(&free[i]));
            i = i + 1;
        }
        usage
    }

    /// Gets the memory usage of the pool at the moment.
    pub fn get_memory_usage(&self) -> (usage: MemoryUsage)
        requires
            self.wf(),
            self.bytes_reserved() <= u64::MAX,
        ensures
            exists|free: Seq<Seq<bool>>| #[trigger]
                self.reads_as(free) && self.uses(free, usage),
    {
        let free = self.observe();
        self.get_memory_usage_with(&free)
    }

    /// Whether `report` says of the pool what there is to say: nothing where it has
    /// no pages.
    pub open spec fn reports(self, free: Seq<Seq<bool>>, report: Option<SlicedPoolReport>) -> bool {
        let count = self.pages().keys().len();
        match report {
            Some(report) => {
                &&& count > 0
                &&& report.page_size == self.page_size()
                &&& report.max_alloc_size == self.max_alloc_size()
                &&& report.pages@.len() == count
                &&& forall|i: int| #![trigger report.pages@[i]]
                    0 <= i < count ==> reports_page(
                        self.pages().values()[i],
                        free[i],
                        report.pages@[i],
                    )
                &&& self.uses(free, report.usage)
            },
            None => count == 0,
        }
    }

    /// Reports on the pool, if the slices that are free are those that `free` says.
    pub fn report_with(&self, free: &Vec<Vec<bool>>) -> (report: Option<SlicedPoolReport>)
        requires
            self.wf(),
            self.observes(flags(free@)),
            self.bytes_reserved() <= u64::MAX,
        ensures
            self.reports(flags(free@), report),
    {
        let keys = self.pages.list_keys();
        if keys.len() == 0 {
            return None;
        }
        let mut pages: Vec<SlicedPageReport> = Vec::new();
        let ghost seen = flags(free@);
        let mut i: usize = 0;
        while i < keys.len()
            invariant
                self.wf(),
                seen == flags(free@),
                self.observes(seen),
                keys@ == self.pages().keys(),
                i <= keys@.len(),
                pages@.len() == i,
                forall|j: int| #![trigger pages@[j]]
                    0 <= j < i ==> reports_page(self.pages().values()[j], seen[j], pages@[j]),
            decreases keys@.len() - i,
        {
            let key = keys[i];
            proof {
                self.pages.lemma_keys();
                assert(self.pages().lookup(self.pages().keys()[i as int]) is Some);
                assert(seen[i as int].len() == self.pages().values()[i as int].0.slices().len());
            }
            let entry = self.pages.get(key).unwrap();
            let summary = entry.0.summary_with(&free[i]);
            pages.push(
                SlicedPageReport {
                    id: entry.1,
                    num_slices: summary.num_total,
                    amount_free: summary.amount_free,
                    amount_full: summary.amount_full,
                    amount_total: summary.amount_total,
                },
            );
            i = i + 1;
        }
        Some(
            SlicedPoolReport {
                page_size: self.page_size,
                max_alloc_size: self.max_alloc_size,
                pages,
                usage: self.get_memory_usage_with(free),
            },
        )
    }

    /// Reports on the pool as it is at the moment.
    pub fn report(&self) -> (report: Option<SlicedPoolReport>)
        requires
            self.wf(),
            self.bytes_reserved() <= u64::MAX,
        ensures
            exists|free: Seq<Seq<bool>>| #[trigger]
                self.reads_as(free) && self.reports(free, report),
    {
        let free = self.observe();
        self.report_with(&free)
    }
}

} // verus!
