//! What a sliced pool does with bytes, said of the bytes themselves: which are handed out, which
//! stay in use, which go back to the storage.

use crate::align::{lemma_aligned, lemma_is_aligned, padding};
use crate::error::IoError;
use crate::exclusive_laws::deallocs_of;
use crate::handle::{ManagedMemoryHandle, MemoryIds, MemoryLocation};
use crate::memory_page::{
    coalesced, fits, is_first_fit, lemma_coalesced, lemma_coalesced_keeps_used, lemma_coalesced_len,
    lemma_some_fit_is_first, lemma_sum_includes, lemma_tiles, lemma_tiles_sum, one, padded, reserves,
    room, sum_where, takes, tiles, usable, MemoryPage,
};
use crate::page_key::PageKey;
use crate::slice::Slice;
use crate::sliced_pool::{is_all_free, SlicedPool, SlicedPoolReport};
use crate::storage::{StorageCall, StorageHandle, StorageId};
use crate::usage::MemoryUsage;
use vstd::prelude::*;

verus! {

/// Looking up what the handle of a slice was told last finds that slice, whatever operation came
/// last: every operation leaves the pool as this asks for.
pub proof fn sliced_last_told_location_finds_its_slice(
    pool: SlicedPool,
    key: PageKey,
    i: int,
    found: Result<&Slice, IoError>,
)
    requires
        pool.wf(),
        pool.pages().lookup(key) is Some,
        0 <= i < pool.page(key).slices().len(),
        pool.page(key).told()[i] is Some,
        pool.finds(pool.page(key).told()[i]->0, found),
    ensures
        found is Ok,
        *found->Ok_0 == pool.page(key).slices()[i],
{
    assert(pool.admits(key, pool.pages().lookup(key)->0));
    assert(pool.page(key).slices()[i].was_told(pool.page(key).location_of(i)));
}

/// The handle of every slice has been told something, and that is a location that it has had.
pub proof fn sliced_every_slice_was_told(pool: SlicedPool, key: PageKey, i: int)
    requires
        pool.wf(),
        pool.pages().lookup(key) is Some,
        0 <= i < pool.page(key).slices().len(),
    ensures
        pool.page(key).told().len() == pool.page(key).slices().len(),
        pool.page(key).told()[i] is Some,
        pool.page(key).slices()[i].was_told(pool.page(key).told()[i]->0),
        (pool.page(key).told()[i]->0).page == key,
        (pool.page(key).told()[i]->0).slice == i,
        (pool.page(key).told()[i]->0).pool == pool.location_base().pool,
        (pool.page(key).told()[i]->0).init == pool.location_base().init,
{
    assert(pool.admits(key, pool.pages().lookup(key)->0));
    assert(pool.page(key).slices()[i].was_told(pool.page(key).location_of(i)));
}

/// Looking a location up finds the slice that it names, where the page is there and has one at that
/// position, and nothing otherwise.
pub proof fn sliced_find_is_exact(
    pool: SlicedPool,
    location: MemoryLocation,
    found: Result<&Slice, IoError>,
)
    requires
        pool.finds(location, found),
    ensures
        found is Ok <==> pool.pages().lookup(location.page) is Some && location.slice < pool.page(
            location.page,
        ).slices().len(),
        found is Ok ==> *found->Ok_0 == pool.page(location.page).slices()[location.slice as int],
        found is Err ==> found->Err_0 == (IoError::NotFound { page: location.page }),
{
}

/// The storage that page `i` is on, as its slices say.
pub open spec fn storage_under(pool: SlicedPool, i: int) -> StorageId {
    pool.pages().values()[i].0.slices()[0].storage.id
}

/// Whether no two pages of the pool are on the same storage.
pub open spec fn sliced_is_on_distinct_storage(pool: SlicedPool) -> bool {
    forall|i: int, j: int| #![trigger pool.pages().keys()[i], pool.pages().keys()[j]]
        0 <= i < j < pool.pages().keys().len() ==> storage_under(pool, i) != storage_under(pool, j)
}

/// A cleanup gives the storage of a page back once if the page has gone afterwards, and not at all
/// if it is still there; and it gives nothing else back.
pub proof fn sliced_cleanup_deallocates_what_goes(
    pool: SlicedPool,
    free: Seq<Seq<bool>>,
    calls: Seq<StorageCall>,
    after: SlicedPool,
    calls_after: Seq<StorageCall>,
)
    requires
        pool.wf(),
        pool.cleans(free, after),
        calls_after == calls + pool.releases(free, pool.pages().keys().len() as int),
        sliced_is_on_distinct_storage(pool),
    ensures
        forall|i: int| #![trigger pool.pages().keys()[i]]
            0 <= i < pool.pages().keys().len() ==> deallocs_of(calls_after, storage_under(pool, i))
                == deallocs_of(calls, storage_under(pool, i)) + if after.pages().lookup(
                pool.pages().keys()[i],
            ) is None {
                1nat
            } else {
                0nat
            },
        forall|id: StorageId| #![trigger deallocs_of(calls_after, id)]
            (forall|i: int| #![trigger pool.pages().keys()[i]]
                0 <= i < pool.pages().keys().len() ==> storage_under(pool, i) != id)
                ==> deallocs_of(calls_after, id) == deallocs_of(calls, id),
{
    let count = pool.pages().keys().len() as int;
    lemma_storage_under(pool);
    assert forall|i: int| #![trigger pool.pages().keys()[i]] 0 <= i < count implies deallocs_of(
        calls_after,
        storage_under(pool, i),
    ) == deallocs_of(calls, storage_under(pool, i)) + if after.pages().lookup(
        pool.pages().keys()[i],
    ) is None {
        1nat
    } else {
        0nat
    } by {
        let id = storage_under(pool, i);
        assert forall|j: int| #![trigger pool.pages().keys()[j]] 0 <= j < count implies (
        pool.pages().values()[j].1 == id <==> j == i) by {
            if j < i {
                assert(storage_under(pool, j) != storage_under(pool, i));
            } else if i < j {
                assert(storage_under(pool, i) != storage_under(pool, j));
            }
        }
        lemma_releases_of(pool, free, calls, id, i, count);
        assert(pool.cleans_page(i, free, after));
    }
    assert forall|id: StorageId| (forall|i: int| #![trigger pool.pages().keys()[i]]
        0 <= i < count ==> storage_under(pool, i) != id) implies #[trigger] deallocs_of(
        calls_after,
        id,
    ) == deallocs_of(calls, id) by {
        assert forall|j: int| #![trigger pool.pages().keys()[j]] 0 <= j < count implies (
        pool.pages().values()[j].1 == id <==> j == -1) by {
            assert(storage_under(pool, j) != id);
        }
        lemma_releases_of(pool, free, calls, id, -1, count);
    }
}

/// A page is on the storage that it was entered with.
proof fn lemma_storage_under(pool: SlicedPool)
    requires
        pool.wf(),
    ensures
        forall|i: int| #![trigger pool.pages().keys()[i]]
            0 <= i < pool.pages().keys().len() ==> storage_under(pool, i)
                == pool.pages().values()[i].1,
{
    pool.pages().lemma_keys();
    assert forall|i: int| #![trigger pool.pages().keys()[i]]
        0 <= i < pool.pages().keys().len() implies storage_under(pool, i)
        == pool.pages().values()[i].1 by {
        let key = pool.pages().keys()[i];
        assert(pool.pages().lookup(key) is Some);
        assert(pool.admits(key, pool.pages().lookup(key)->0));
        let page = pool.pages().values()[i].0;
        assert(page.slices()[0].storage.id == page.storage().id);
    }
}

/// Of the first `n` pages, only the one at `place` is on the storage that `id` names.
proof fn lemma_releases_of(
    pool: SlicedPool,
    free: Seq<Seq<bool>>,
    calls: Seq<StorageCall>,
    id: StorageId,
    place: int,
    n: int,
)
    requires
        0 <= n <= pool.pages().keys().len(),
        forall|i: int| #![trigger pool.pages().keys()[i]]
            0 <= i < pool.pages().keys().len() ==> (pool.pages().values()[i].1 == id <==> i
                == place),
    ensures
        deallocs_of(calls + pool.releases(free, n), id) == deallocs_of(calls, id) + if 0 <= place < n
            && is_all_free(pool.pages().values()[place].0, free[place]) {
            1nat
        } else {
            0nat
        },
    decreases n,
{
    if n > 0 {
        lemma_releases_of(pool, free, calls, id, place, n - 1);
        let before = calls + pool.releases(free, n - 1);
        let after = calls + pool.releases(free, n);
        if is_all_free(pool.pages().values()[n - 1].0, free[n - 1]) {
            assert(pool.pages().values()[n - 1].1 == id <==> n - 1 == place);
            assert(after.drop_last() =~= before);
        } else {
            assert(after =~= before);
        }
    } else {
        assert(calls + pool.releases(free, n) =~= calls);
    }
}

/// A cleanup takes a page out if and only if none of its slices that has any bytes is in use.
pub proof fn sliced_page_goes_if_nothing_is_in_use(
    pool: SlicedPool,
    free: Seq<Seq<bool>>,
    after: SlicedPool,
    i: int,
)
    requires
        pool.wf(),
        pool.observes(free),
        pool.cleans(free, after),
        0 <= i < pool.pages().keys().len(),
    ensures
        after.pages().lookup(pool.pages().keys()[i]) is None <==> forall|j: int|
            #![trigger free[i][j]]
            0 <= j < free[i].len() && pool.pages().values()[i].0.slices()[j].room() > 0
                ==> free[i][j],
{
    let page = pool.pages().values()[i].0;
    pool.pages().lemma_keys();
    assert(pool.pages().lookup(pool.pages().keys()[i]) is Some);
    assert(pool.admits(pool.pages().keys()[i], pool.pages().values()[i]));
    assert(free[i].len() == page.slices().len());
    assert(pool.cleans_page(i, free, after));
    lemma_tiles_sum(page.slices(), free[i], page.start(), page.end());
    if is_all_free(page, free[i]) {
        assert forall|j: int| #![trigger free[i][j]]
            0 <= j < free[i].len() && page.slices()[j].room() > 0 implies free[i][j] by {
            if !free[i][j] {
                lemma_sum_includes(page.slices(), free[i], false, room(), j);
            }
        }
    } else if forall|j: int| #![trigger free[i][j]]
        0 <= j < free[i].len() && page.slices()[j].room() > 0 ==> free[i][j] {
        lemma_empty_slices_have_no_room(page.slices(), free[i]);
    }
}

/// Where only empty slices are in use, no bytes are.
proof fn lemma_empty_slices_have_no_room(slices: Seq<Slice>, free: Seq<bool>)
    requires
        free.len() == slices.len(),
        forall|j: int| #![trigger free[j]]
            0 <= j < free.len() && slices[j].room() > 0 ==> free[j],
    ensures
        sum_where(slices, free, false, room()) == 0,
    decreases slices.len(),
{
    if slices.len() > 0 {
        let front = slices.drop_last();
        let front_free = free.drop_last();
        assert forall|j: int| #![trigger front_free[j]]
            0 <= j < front_free.len() && front[j].room() > 0 implies front_free[j] by {
            assert(free[j] == front_free[j]);
        }
        lemma_empty_slices_have_no_room(front, front_free);
        assert(free[free.len() - 1] == free.last());
    }
}

/// A size is accepted if it is not larger than the largest slice, or else if it fits on a page and
/// takes up more than four fifths of it.
pub proof fn sliced_accepts_what_leaves_less_than_a_fifth(pool: SlicedPool, size: u64)
    ensures
        size <= pool.max_alloc_size() ==> pool.accepts(size),
        size > pool.max_alloc_size() ==> (pool.accepts(size) <==> size <= pool.page_size() && 5
            * size > 4 * pool.page_size()),
{
}

/// Whether the slices from `a` to `b` are all free.
pub open spec fn is_free_run(free: Seq<bool>, a: int, b: int) -> bool {
    &&& 0 <= a <= b < free.len()
    &&& forall|j: int| #![trigger free[j]] a <= j <= b ==> free[j]
}

/// Adjacent free slices end up in one free slice.
proof fn lemma_run_is_merged(
    slices: Seq<Slice>,
    free: Seq<bool>,
    start: int,
    end: int,
    a: int,
    b: int,
) -> (place: int)
    requires
        tiles(slices, start, end),
        free.len() == slices.len(),
        0 <= start,
        end <= u64::MAX,
        is_free_run(free, a, b),
    ensures
        0 <= place < coalesced(slices, free).0.len(),
        coalesced(slices, free).0.len() == coalesced(slices, free).1.len(),
        coalesced(slices, free).1[place],
        coalesced(slices, free).0[place].start() <= slices[a].start(),
        slices[b].end() <= coalesced(slices, free).0[place].end(),
        b == slices.len() - 1 ==> place == coalesced(slices, free).0.len() - 1,
    decreases slices.len(),
{
    let (kept, kept_free) = coalesced(slices, free);
    let last = slices.len() - 1;
    lemma_tiles(slices, start, end);
    lemma_coalesced(slices, free, start, end);
    lemma_tiles(kept, start, end);
    if slices.len() == 1 {
        reveal_with_fuel(coalesced, 2);
        assert(kept =~= slices);
        assert(free[0]);
        0
    } else {
        let front = slices.drop_last();
        let front_free = free.drop_last();
        let (front_kept, front_kept_free) = coalesced(front, front_free);
        let middle = slices[last - 1].end();
        assert(slices[last].start() == middle);
        assert(tiles(front, start, middle)) by {
            assert forall|i: int, j: int|
                0 <= i < front.len() && j == i + 1 && j < front.len() implies (
            #[trigger] front[j]).start() == (#[trigger] front[i]).end() by {
                assert(slices[j].start() == slices[i].end());
            }
        }
        lemma_tiles(front, start, middle);
        lemma_coalesced(front, front_free, start, middle);
        lemma_tiles(front_kept, start, middle);
        let top = front_kept.len() - 1;
        let merges = free.last() && front_kept_free.last();
        if merges {
            assert(front_kept[top].room() + slices[last].room() <= end - start);
            assert(kept[top].start() == front_kept[top].start());
            assert(kept[top].end() == slices[last].end());
        }
        if b < last {
            assert(is_free_run(front_free, a, b)) by {
                assert forall|j: int| #![trigger front_free[j]] a <= j <= b implies front_free[j] by {
                    assert(free[j]);
                }
            }
            let place = lemma_run_is_merged(front, front_free, start, middle, a, b);
            assert(kept_free[place]);
            assert(slices[a] == front[a] && slices[b] == front[b]);
            place
        } else if a == last {
            assert(free[last]);
            kept.len() - 1
        } else {
            assert(is_free_run(front_free, a, last - 1)) by {
                assert forall|j: int| #![trigger front_free[j]] a <= j <= last - 1 implies front_free[j] by {
                    assert(free[j]);
                }
            }
            let place = lemma_run_is_merged(front, front_free, start, middle, a, last - 1);
            assert(place == top);
            assert(free[last]);
            assert(merges);
            assert(slices[a] == front[a]);
            top
        }
    }
}

/// A page that is merged first refuses a reservation only if no adjacent free slices have, together,
/// the bytes that are needed: the smallest multiple of the alignment that holds them. (Or the page
/// is in 2^32 - 1 slices, the most that can be told apart.)
pub proof fn sliced_page_refuses_only_without_a_run(
    page: MemoryPage,
    free: Seq<bool>,
    size: u64,
    need: int,
    ids: MemoryIds,
    after: Seq<Slice>,
    ids_after: MemoryIds,
    a: int,
    b: int,
)
    requires
        page.wf(),
        free.len() == page.slices().len(),
        reserves(
            coalesced(page.slices(), free).0,
            coalesced(page.slices(), free).1,
            size,
            page.alignment(),
            ids,
            after,
            ids_after,
            None,
        ),
        need % (page.alignment() as int) == 0,
        size <= need < size + page.alignment(),
        is_free_run(free, a, b),
        coalesced(page.slices(), free).0.len() < u32::MAX,
    ensures
        page.slices()[b].end() - page.slices()[a].start() < need,
{
    let (kept, kept_free) = coalesced(page.slices(), free);
    lemma_is_aligned(size as int, need, page.alignment() as int);
    let place = lemma_run_is_merged(page.slices(), free, page.start(), page.end(), a, b);
    if page.slices()[b].end() - page.slices()[a].start() >= need {
        assert(kept[place].room() >= need);
        let first = lemma_some_fit_is_first(kept, kept_free, need, place);
        assert(is_first_fit(kept, kept_free, need, first));
    }
}

/// A sliced pool refuses a reservation only if on none of its pages adjacent free slices have,
/// together, the bytes that are needed.
pub proof fn sliced_pool_refuses_only_without_a_run(
    pool: SlicedPool,
    k: int,
    free: Seq<Seq<bool>>,
    size: u64,
    need: int,
    ids: MemoryIds,
    after: SlicedPool,
    ids_after: MemoryIds,
    i: int,
    a: int,
    b: int,
)
    requires
        pool.wf(),
        pool.observes(free),
        pool.reserves_on(k, free, size, ids, after, ids_after, None),
        0 <= i < pool.pages().keys().len(),
        need % (pool.alignment() as int) == 0,
        size <= need < size + pool.alignment(),
        is_free_run(free[i], a, b),
        pool.pages().values()[i].0.slices().len() < u32::MAX,
    ensures
        pool.pages().values()[i].0.slices()[b].end() - pool.pages().values()[i].0.slices()[a].start()
            < need,
        ids_after == ids,
{
    let page = pool.pages().values()[i].0;
    pool.pages().lemma_keys();
    assert(pool.pages().lookup(pool.pages().keys()[i]) is Some);
    assert(pool.admits(pool.pages().keys()[i], pool.pages().values()[i]));
    assert(free[i].len() == page.slices().len());
    lemma_coalesced_len(page.slices(), free[i]);
    lemma_coalesced(page.slices(), free[i], page.start(), page.end());
    let page_after = after.pages().values()[i];
    sliced_page_refuses_only_without_a_run(
        page,
        free[i],
        size,
        need,
        ids,
        page_after.0.slices(),
        ids,
        a,
        b,
    );
}

/// Whether two slices have no byte in common.
pub open spec fn is_apart(a: Slice, b: Slice) -> bool {
    a.end() <= b.start() || b.end() <= a.start()
}

/// What a page hands out has exactly the size asked for, is padded up to the next multiple of the
/// alignment, starts at one, and has no byte in common with any slice that is in use; every slice
/// in use is still there, as it was.
pub proof fn sliced_page_hands_out_free_bytes(
    page: MemoryPage,
    free: Seq<bool>,
    size: u64,
    need: int,
    ids: MemoryIds,
    after: MemoryPage,
    ids_after: MemoryIds,
    handle: ManagedMemoryHandle,
) -> (place: int)
    requires
        page.wf(),
        after.wf(),
        after.same_page(page),
        free.len() == page.slices().len(),
        reserves(
            coalesced(page.slices(), free).0,
            coalesced(page.slices(), free).1,
            size,
            page.alignment(),
            ids,
            after.slices(),
            ids_after,
            Some(handle),
        ),
        need % (page.alignment() as int) == 0,
        size <= need < size + page.alignment(),
    ensures
        0 <= place < after.slices().len(),
        after.slices()[place].handle == handle,
        after.slices()[place].storage.utilization.size == size,
        after.slices()[place].room() == need,
        after.slices()[place].start() % (page.alignment() as int) == 0,
        page.start() <= after.slices()[place].start(),
        after.slices()[place].end() <= page.end(),
        exists|j: int| #![trigger page.slices()[j]]
            0 <= j < free.len() && free[j] && page.slices()[j].handle == handle
                && page.slices()[j].start() == after.slices()[place].start(),
        forall|j: int| #![trigger page.slices()[j]]
            0 <= j < free.len() && !free[j] ==> {
                &&& after.slices().contains(page.slices()[j])
                &&& is_apart(after.slices()[place], page.slices()[j])
            },
        ids_after.next() - ids.next() == after.slices().len() - coalesced(page.slices(), free).0.len(),
        // What comes before has not enough room.
        forall|j: int| #![trigger after.slices()[j]]
            0 <= j < place ==> after.slices()[j] == coalesced(page.slices(), free).0[j] && (
            !coalesced(page.slices(), free).1[j] || after.slices()[j].room() < need || coalesced(
                page.slices(),
                free,
            ).0.len() >= u32::MAX),
{
    let (kept, kept_free) = coalesced(page.slices(), free);
    lemma_is_aligned(size as int, need, page.alignment() as int);
    lemma_aligned(size as int, page.alignment() as int);
    lemma_coalesced(page.slices(), free, page.start(), page.end());
    lemma_tiles(kept, page.start(), page.end());
    lemma_tiles(after.slices(), after.start(), after.end());
    let bytes = padding(size as int, page.alignment() as int) as u64;
    let place = choose|i: int| #[trigger]
        is_first_fit(kept, kept_free, need, i) && {
            &&& takes(kept, after.slices(), i, size, bytes)
            &&& handle == kept[i].handle
            &&& if kept[i].room() == need {
                ids_after == ids
            } else {
                &&& after.slices()[i + 1].handle.id().value == ids.next()
                &&& ids_after.next() == ids.next() + 1
            }
        };
    let slices = after.slices();
    assert(slices[place].room() == need && slices[place].start() == kept[place].start());
    assert(slices[place].end() <= kept[place].end());
    assert forall|j: int| #![trigger page.slices()[j]] 0 <= j < free.len() && !free[j] implies {
        &&& slices.contains(page.slices()[j])
        &&& is_apart(slices[place], page.slices()[j])
    } by {
        let spot = lemma_coalesced_keeps_used(page.slices(), free, j);
        assert(spot != place);
        if spot < place {
            assert(slices[spot] == kept[spot]);
            assert(kept[spot].end() <= kept[place].start());
        } else {
            assert(kept[place].end() <= kept[spot].start());
            if kept[place].room() == need {
                assert(slices[spot] == kept[spot]);
            } else {
                assert(slices[spot + 1] == kept[spot]);
            }
        }
    }
    assert forall|j: int| #![trigger slices[j]] 0 <= j < place implies slices[j] == kept[j] && (
    !kept_free[j] || slices[j].room() < need || kept.len() >= u32::MAX) by {
        assert(!fits(kept[j], kept_free[j], need, kept.len()));
        assert(slices[j] == kept[j]);
    }
    place
}

/// What a sliced pool hands out comes from one of its pages, and no page before that one could have
/// supplied it; no byte of it belonged to a slice in use, and every slice in use is still there.
pub proof fn sliced_pool_hands_out_free_bytes(
    pool: SlicedPool,
    k: int,
    free: Seq<Seq<bool>>,
    size: u64,
    need: int,
    ids: MemoryIds,
    after: SlicedPool,
    ids_after: MemoryIds,
    handle: ManagedMemoryHandle,
) -> (place: int)
    requires
        pool.wf(),
        after.wf(),
        after.same_keys(pool),
        pool.observes(free),
        pool.reserves_on(k, free, size, ids, after, ids_after, Some(handle)),
        need % (pool.alignment() as int) == 0,
        size <= need < size + pool.alignment(),
    ensures
        0 <= k < pool.pages().keys().len(),
        ({
            let slices = pool.pages().values()[k].0.slices();
            let slices_after = after.pages().values()[k].0.slices();
            &&& 0 <= place < slices_after.len()
            &&& slices_after[place].handle == handle
            &&& slices_after[place].storage.utilization.size == size
            &&& slices_after[place].room() == need
            &&& slices_after[place].start() % (pool.alignment() as int) == 0
            &&& slices_after[place].storage.id == storage_under(pool, k)
            &&& forall|j: int| #![trigger slices[j]]
                0 <= j < slices.len() && !free[k][j] ==> is_apart(slices_after[place], slices[j])
        }),
        forall|i: int, j: int| #![trigger pool.pages().values()[i].0.slices()[j]]
            0 <= i < pool.pages().keys().len() && 0 <= j < free[i].len() && !free[i][j]
                ==> after.pages().values()[i].0.slices().contains(
                pool.pages().values()[i].0.slices()[j],
            ),
        forall|i: int, a: int, b: int| #![trigger is_free_run(free[i], a, b)]
            0 <= i < k && is_free_run(free[i], a, b) && pool.pages().values()[i].0.slices().len()
                < u32::MAX ==> pool.pages().values()[i].0.slices()[b].end()
                - pool.pages().values()[i].0.slices()[a].start() < need,
{
    pool.pages().lemma_keys();
    after.pages().lemma_keys();
    assert forall|i: int| 0 <= i < pool.pages().keys().len() implies {
        &&& pool.admits(pool.pages().keys()[i], #[trigger] pool.pages().values()[i])
        &&& after.admits(pool.pages().keys()[i], after.pages().values()[i])
        &&& free[i].len() == pool.pages().values()[i].0.slices().len()
    } by {
        assert(pool.pages().lookup(pool.pages().keys()[i]) is Some);
        assert(after.pages().lookup(after.pages().keys()[i]) is Some);
    }
    let page = pool.pages().values()[k].0;
    let page_after = after.pages().values()[k].0;
    let place = sliced_page_hands_out_free_bytes(
        page,
        free[k],
        size,
        need,
        ids,
        page_after,
        ids_after,
        handle,
    );
    lemma_storage_under(pool);
    assert(pool.pages().keys()[k] == pool.pages().keys()[k]);
    assert(page_after.slices()[place].storage.id == page_after.storage().id);
    assert forall|i: int, j: int| #![trigger pool.pages().values()[i].0.slices()[j]]
        0 <= i < pool.pages().keys().len() && 0 <= j < free[i].len()
            && !free[i][j] implies after.pages().values()[i].0.slices().contains(
        pool.pages().values()[i].0.slices()[j],
    ) by {
        let slices = pool.pages().values()[i].0.slices();
        let slices_after = after.pages().values()[i].0.slices();
        if i == k {
            assert(page.slices()[j] == slices[j]);
        } else if i < k {
            let spot = lemma_coalesced_keeps_used(slices, free[i], j);
            assert(slices_after[spot] == slices[j]);
        } else {
            assert(slices_after[j] == slices[j]);
        }
    }
    assert forall|i: int, a: int, b: int| #![trigger is_free_run(free[i], a, b)]
        0 <= i < k && is_free_run(free[i], a, b) && pool.pages().values()[i].0.slices().len()
            < u32::MAX implies pool.pages().values()[i].0.slices()[b].end()
        - pool.pages().values()[i].0.slices()[a].start() < need by {
        let early = pool.pages().values()[i].0;
        assert(pool.admits(pool.pages().keys()[i], pool.pages().values()[i]));
        lemma_coalesced(early.slices(), free[i], early.start(), early.end());
        sliced_page_refuses_only_without_a_run(
            early,
            free[i],
            size,
            need,
            ids,
            after.pages().values()[i].0.slices(),
            ids,
            a,
            b,
        );
    }
    place
}

/// What a sliced pool allocates is the first bytes of a new page, of exactly the size asked for and
/// padded up to the next multiple of the alignment; what is left of the page, if anything, is one
/// slice behind it.
pub proof fn sliced_allocates_the_first_bytes(
    pool: SlicedPool,
    key: PageKey,
    storage: StorageHandle,
    size: u64,
    need: int,
    ids: MemoryIds,
    after: SlicedPool,
    ids_after: MemoryIds,
    handle: ManagedMemoryHandle,
)
    requires
        pool.wf(),
        after.wf(),
        pool.allocates_on(key, storage, size, ids, after, ids_after, handle),
        storage.utilization.offset == 0,
        storage.utilization.size == pool.page_size(),
        pool.alignment() > 0,
        need % (pool.alignment() as int) == 0,
        size <= need < size + pool.alignment(),
        need <= pool.page_size(),
    ensures
        pool.pages().lookup(key) is None,
        after.pages().lookup(key) is Some,
        ({
            let slices = after.page(key).slices();
            &&& slices.len() == if need == pool.page_size() {
                1nat
            } else {
                2nat
            }
            &&& slices[0].handle == handle
            &&& slices[0].start() == 0
            &&& slices[0].storage.id == storage.id
            &&& slices[0].storage.utilization.size == size
            &&& slices[0].end() == need
            &&& slices.len() == 2 ==> slices[1].start() == need && slices[1].end()
                == pool.page_size() && slices[1].storage.id == storage.id
            &&& ids_after.next() - ids.next() == slices.len()
        }),
        handle.id().value == ids.next(),
        exists|location: MemoryLocation| #[trigger]
            handle.shared().locations().contains(location) && location.page == key && location.slice
                == 0 && location.pool == pool.location_base().pool && location.init
                == pool.location_base().init,
{
    lemma_is_aligned(size as int, need, pool.alignment() as int);
    lemma_aligned(size as int, pool.alignment() as int);
    assert(after.admits(key, after.pages().lookup(key)->0));
    let slices = after.page(key).slices();
    let whole = Slice { storage, handle, padding: 0, cursor: 0 };
    assert(seq![whole][0] == whole);
    assert(slices[0].start() == 0);
    assert(handle.shared().locations().contains(pool.location_on(key)));
}

/// Where every slice is free, nothing is in use.
pub proof fn sliced_usage_of_free_pages_is_none(
    pool: SlicedPool,
    free: Seq<Seq<bool>>,
    usage: MemoryUsage,
)
    requires
        pool.observes(free),
        pool.uses(free, usage),
        forall|i: int, j: int| #![trigger free[i][j]]
            0 <= i < free.len() && 0 <= j < free[i].len() ==> free[i][j],
    ensures
        usage.number_allocs == 0,
        usage.bytes_in_use == 0,
        usage.bytes_padding == 0,
        usage.bytes_reserved == pool.pages().keys().len() * pool.page_size(),
{
    lemma_nothing_in_use(pool, free, one(), free.len() as int);
    lemma_nothing_in_use(pool, free, usable(), free.len() as int);
    lemma_nothing_in_use(pool, free, padded(), free.len() as int);
}

proof fn lemma_nothing_in_use(
    pool: SlicedPool,
    free: Seq<Seq<bool>>,
    part: spec_fn(Slice) -> int,
    n: int,
)
    requires
        pool.observes(free),
        0 <= n <= free.len(),
        forall|i: int, j: int| #![trigger free[i][j]]
            0 <= i < free.len() && 0 <= j < free[i].len() ==> free[i][j],
    ensures
        pool.in_use(free, part, n) == 0,
    decreases n,
{
    if n > 0 {
        lemma_nothing_in_use(pool, free, part, n - 1);
        assert(free[n - 1].len() == pool.pages().values()[n - 1].0.slices().len());
        lemma_nothing_in_sum(pool.pages().values()[n - 1].0.slices(), free[n - 1], part);
    }
}

proof fn lemma_nothing_in_sum(slices: Seq<Slice>, free: Seq<bool>, part: spec_fn(Slice) -> int)
    requires
        free.len() == slices.len(),
        forall|j: int| #![trigger free[j]] 0 <= j < free.len() ==> free[j],
    ensures
        sum_where(slices, free, false, part) == 0,
    decreases slices.len(),
{
    if slices.len() > 0 {
        let front = free.drop_last();
        assert forall|j: int| #![trigger front[j]] 0 <= j < front.len() implies front[j] by {
            assert(free[j]);
        }
        lemma_nothing_in_sum(slices.drop_last(), front, part);
        assert(free[free.len() - 1]);
    }
}

/// A slice that comes into use adds one allocation, its bytes and its padding to the memory usage,
/// and nothing else.
pub proof fn sliced_usage_counts_every_slice(
    pool: SlicedPool,
    free: Seq<Seq<bool>>,
    i: int,
    j: int,
    usage: MemoryUsage,
    usage_after: MemoryUsage,
)
    requires
        pool.observes(free),
        0 <= i < free.len(),
        0 <= j < free[i].len(),
        free[i][j],
        pool.uses(free, usage),
        pool.uses(free.update(i, free[i].update(j, false)), usage_after),
    ensures
        usage_after.number_allocs == usage.number_allocs + 1,
        usage_after.bytes_in_use == usage.bytes_in_use
            + pool.pages().values()[i].0.slices()[j].storage.utilization.size,
        usage_after.bytes_padding == usage.bytes_padding
            + pool.pages().values()[i].0.slices()[j].padding,
        usage_after.bytes_reserved == usage.bytes_reserved,
{
    let count = free.len() as int;
    lemma_one_more_in_use(pool, free, i, j, one(), count);
    lemma_one_more_in_use(pool, free, i, j, usable(), count);
    lemma_one_more_in_use(pool, free, i, j, padded(), count);
}

proof fn lemma_one_more_in_use(
    pool: SlicedPool,
    free: Seq<Seq<bool>>,
    i: int,
    j: int,
    part: spec_fn(Slice) -> int,
    n: int,
)
    requires
        pool.observes(free),
        0 <= i < free.len(),
        0 <= j < free[i].len(),
        free[i][j],
        0 <= n <= free.len(),
    ensures
        pool.in_use(free.update(i, free[i].update(j, false)), part, n) == pool.in_use(free, part, n)
            + if i < n {
            part(pool.pages().values()[i].0.slices()[j])
        } else {
            0
        },
    decreases n,
{
    if n > 0 {
        lemma_one_more_in_use(pool, free, i, j, part, n - 1);
        assert(free[n - 1].len() == pool.pages().values()[n - 1].0.slices().len());
        if n - 1 == i {
            lemma_one_more_in_sum(pool.pages().values()[i].0.slices(), free[i], j, part);
        }
    }
}

proof fn lemma_one_more_in_sum(
    slices: Seq<Slice>,
    free: Seq<bool>,
    j: int,
    part: spec_fn(Slice) -> int,
)
    requires
        free.len() == slices.len(),
        0 <= j < free.len(),
        free[j],
    ensures
        sum_where(slices, free.update(j, false), false, part) == sum_where(slices, free, false, part)
            + part(slices[j]),
    decreases slices.len(),
{
    let after = free.update(j, false);
    if j == slices.len() - 1 {
        assert(after.drop_last() =~= free.drop_last());
    } else {
        assert(after.drop_last() =~= free.drop_last().update(j, false));
        lemma_one_more_in_sum(slices.drop_last(), free.drop_last(), j, part);
    }
}

/// The report on a page names the storage that its slices are on, counts its slices, and divides
/// the bytes of the page into free and full ones; it is full as far as slices that are in use
/// reach.
pub proof fn sliced_report_adds_up(
    pool: SlicedPool,
    free: Seq<Seq<bool>>,
    report: SlicedPoolReport,
    i: int,
)
    requires
        pool.wf(),
        pool.observes(free),
        pool.reports(free, Some(report)),
        0 <= i < pool.pages().keys().len(),
    ensures
        report.pages@.len() == pool.pages().keys().len(),
        report.pages@[i].id == storage_under(pool, i),
        report.pages@[i].num_slices == pool.pages().values()[i].0.slices().len(),
        report.pages@[i].amount_total == pool.page_size(),
        report.pages@[i].amount_free + report.pages@[i].amount_full == pool.page_size(),
        forall|j: int| #![trigger free[i][j]]
            0 <= j < free[i].len() ==> pool.pages().values()[i].0.slices()[j].room() <= if free[i][j] {
                report.pages@[i].amount_free
            } else {
                report.pages@[i].amount_full
            },
{
    let page = pool.pages().values()[i].0;
    pool.pages().lemma_keys();
    lemma_storage_under(pool);
    assert(pool.pages().lookup(pool.pages().keys()[i]) is Some);
    assert(pool.admits(pool.pages().keys()[i], pool.pages().values()[i]));
    assert(free[i].len() == page.slices().len());
    assert(report.pages@[i] == report.pages@[i]);
    lemma_tiles_sum(page.slices(), free[i], page.start(), page.end());
    assert forall|j: int| #![trigger free[i][j]] 0 <= j < free[i].len() implies page.slices()[j].room()
        <= if free[i][j] {
        report.pages@[i].amount_free
    } else {
        report.pages@[i].amount_full
    } by {
        lemma_sum_includes(page.slices(), free[i], free[i][j], room(), j);
    }
}

} // verus!
