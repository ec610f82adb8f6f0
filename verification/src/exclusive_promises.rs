//! What an exclusive pool does with pages, said of the pages themselves: when they are checked,
//! which are handed out, which go back to the storage.

use crate::align::{lemma_aligned, lemma_is_aligned, padding};
use crate::error::IoError;
use crate::exclusive_laws::{deallocs_of, is_on_distinct_storage};
use crate::exclusive_pool::{
    is_given_up, one, padded, reused, sum_used, total, usable, ExclusiveMemoryPool,
    ExclusivePoolReport, MemoryPage,
};
use crate::handle::{
    holders_leave_free, sharers_allow_mut, ManagedMemoryHandle, MemoryIds, MemoryLocation,
};
use crate::page_key::PageKey;
use crate::slice::Slice;
use crate::storage::{StorageCall, StorageHandle, StorageId};
use crate::usage::MemoryUsage;
use vstd::prelude::*;

verus! {

/// A cleanup that was not asked for leaves the pool and the storage alone as long as fewer
/// allocations than a fifth of the deallocation period have passed since the last check, and checks
/// the pages from then on; one that was asked for checks them always.
pub proof fn exclusive_cleanup_waits_a_fifth_of_the_period(
    pool: ExclusiveMemoryPool,
    free: Seq<bool>,
    alloc_nr: u64,
    explicit: bool,
    calls: Seq<StorageCall>,
    after: ExclusiveMemoryPool,
    calls_after: Seq<StorageCall>,
)
    requires
        explicit || alloc_nr >= pool.last_dealloc_check(),
        pool.is_due(alloc_nr, explicit) ==> {
            &&& pool.checks(free, alloc_nr, explicit, after)
            &&& calls_after == calls + pool.releases(
                free,
                explicit,
                pool.pages().keys().len() as int,
            )
        },
        !pool.is_due(alloc_nr, explicit) ==> after == pool && calls_after == calls,
    ensures
        !explicit && 5 * (alloc_nr - pool.last_dealloc_check()) + 5 <= pool.dealloc_period()
            ==> after == pool && calls_after == calls,
        explicit || 5 * (alloc_nr - pool.last_dealloc_check()) + 5 > pool.dealloc_period()
            ==> after.last_dealloc_check() == alloc_nr && pool.checks(
            free,
            alloc_nr,
            explicit,
            after,
        ),
{
    lemma_fifth_of_the_period(pool);
}

/// The check period is a fifth of the deallocation period, rounded down.
proof fn lemma_fifth_of_the_period(pool: ExclusiveMemoryPool)
    ensures
        5 * pool.check_period() <= pool.dealloc_period() < 5 * pool.check_period() + 5,
{
    let period = pool.dealloc_period();
    assert(pool.check_period() == period / 5);
}

/// Five checks, none of which was asked for, take more than the deallocation period less five
/// allocations: `states[n]` is the pool before the `n`-th of them, which comes after `numbers[n]`
/// allocations.
pub proof fn exclusive_five_checks_take_the_period(
    states: Seq<ExclusiveMemoryPool>,
    numbers: Seq<u64>,
)
    requires
        states.len() == 5,
        numbers.len() == 5,
        forall|n: int| #![trigger states[n]]
            0 <= n < 5 ==> {
                &&& states[n].is_due(numbers[n], false)
                &&& states[n].dealloc_period() == states[0].dealloc_period()
                &&& numbers[n] >= states[n].last_dealloc_check()
            },
        forall|n: int, m: int| #![trigger states[n], states[m]]
            0 <= n && m == n + 1 && m < 5 ==> states[m].last_dealloc_check() == numbers[n],
    ensures
        numbers[4] - states[0].last_dealloc_check() > states[0].dealloc_period() - 5,
{
    assert forall|n: int| #![trigger states[n]] 0 <= n < 5 implies 5 * (numbers[n]
        - states[n].last_dealloc_check()) > states[0].dealloc_period() - 5 by {
        lemma_fifth_of_the_period(states[n]);
    }
    assert(states[0].dealloc_period() == states[0].dealloc_period());
    assert(states[1].last_dealloc_check() == numbers[0]);
    assert(states[2].last_dealloc_check() == numbers[1]);
    assert(states[3].last_dealloc_check() == numbers[2]);
    assert(states[4].last_dealloc_check() == numbers[3]);
}

/// A check takes a page out if it finds it free and the check was asked for, or if it finds it free
/// after four times that it was found free and not used since. Otherwise it counts that the page was
/// free, or leaves it as it is where it is in use.
pub proof fn exclusive_check_of_a_page(
    pool: ExclusiveMemoryPool,
    free: Seq<bool>,
    alloc_nr: u64,
    explicit: bool,
    after: ExclusiveMemoryPool,
    i: int,
)
    requires
        pool.wf(),
        pool.checks(free, alloc_nr, explicit, after),
        0 <= i < pool.pages().keys().len(),
    ensures
        ({
            let key = pool.pages().keys()[i];
            let page = pool.pages().values()[i];
            &&& after.pages().lookup(key) is None <==> free[i] && (explicit || page.free_count >= 4)
            &&& after.pages().lookup(key) is Some ==> {
                let kept = after.pages().lookup(key)->0;
                &&& kept.slice == page.slice
                &&& kept.alloc_size == page.alloc_size
                &&& kept.free_count == page.free_count + if free[i] {
                    1int
                } else {
                    0int
                }
            }
        }),
{
    pool.pages().lemma_keys();
    assert(pool.pages().lookup(pool.pages().keys()[i]) is Some);
    assert(pool.admits(pool.page(pool.pages().keys()[i])));
    assert(pool.checks_page(i, free, explicit, after));
}

/// A check gives the storage of a page back once if the page has gone afterwards, and not at all if
/// it is still there; and it gives nothing else back.
pub proof fn exclusive_cleanup_deallocates_what_goes(
    pool: ExclusiveMemoryPool,
    free: Seq<bool>,
    alloc_nr: u64,
    explicit: bool,
    calls: Seq<StorageCall>,
    after: ExclusiveMemoryPool,
    calls_after: Seq<StorageCall>,
)
    requires
        pool.wf(),
        pool.checks(free, alloc_nr, explicit, after),
        calls_after == calls + pool.releases(free, explicit, pool.pages().keys().len() as int),
        is_on_distinct_storage(pool),
    ensures
        forall|key: PageKey| #![trigger pool.pages().lookup(key)]
            pool.pages().lookup(key) is Some ==> deallocs_of(
                calls_after,
                pool.page(key).slice.storage.id,
            ) == deallocs_of(calls, pool.page(key).slice.storage.id) + if after.pages().lookup(
                key,
            ) is None {
                1nat
            } else {
                0nat
            },
        forall|id: StorageId| #![trigger deallocs_of(calls_after, id)]
            (forall|key: PageKey| #![trigger pool.pages().lookup(key)]
                pool.pages().lookup(key) is Some ==> pool.page(key).slice.storage.id != id)
                ==> deallocs_of(calls_after, id) == deallocs_of(calls, id),
{
    let keys = pool.pages().keys();
    let count = keys.len() as int;
    pool.pages().lemma_keys();
    assert forall|key: PageKey| #[trigger] pool.pages().lookup(key) is Some implies deallocs_of(
        calls_after,
        pool.page(key).slice.storage.id,
    ) == deallocs_of(calls, pool.page(key).slice.storage.id) + if after.pages().lookup(key) is None {
        1nat
    } else {
        0nat
    } by {
        let id = pool.page(key).slice.storage.id;
        assert(keys.contains(key));
        let place = choose|i: int| 0 <= i < count && keys[i] == key;
        assert forall|j: int| #![trigger pool.pages().keys()[j]] 0 <= j < count implies (
        pool.pages().values()[j].slice.storage.id == id <==> j == place) by {
            assert(pool.pages().lookup(keys[j]) is Some);
            if j < place {
                assert(keys[j].slot() < keys[place].slot());
            } else if place < j {
                assert(keys[place].slot() < keys[j].slot());
            }
        }
        lemma_releases_of(pool, free, explicit, calls, id, place, count);
        assert(pool.checks_page(place, free, explicit, after));
    }
    assert forall|id: StorageId| (forall|key: PageKey| #![trigger pool.pages().lookup(key)]
        pool.pages().lookup(key) is Some ==> pool.page(key).slice.storage.id
            != id) implies #[trigger] deallocs_of(calls_after, id) == deallocs_of(calls, id) by {
        assert forall|j: int| #![trigger pool.pages().keys()[j]] 0 <= j < count implies (
        pool.pages().values()[j].slice.storage.id == id <==> j == -1) by {
            assert(pool.pages().lookup(keys[j]) is Some);
        }
        lemma_releases_of(pool, free, explicit, calls, id, -1, count);
    }
}

/// Of the first `n` pages, only the one at `place` is on the storage that `id` names.
proof fn lemma_releases_of(
    pool: ExclusiveMemoryPool,
    free: Seq<bool>,
    explicit: bool,
    calls: Seq<StorageCall>,
    id: StorageId,
    place: int,
    n: int,
)
    requires
        0 <= n <= pool.pages().keys().len(),
        forall|i: int| #![trigger pool.pages().keys()[i]]
            0 <= i < pool.pages().keys().len() ==> (pool.pages().values()[i].slice.storage.id == id
                <==> i == place),
    ensures
        deallocs_of(calls + pool.releases(free, explicit, n), id) == deallocs_of(calls, id) + if 0
            <= place < n && is_given_up(pool.pages().values()[place], free[place], explicit) {
            1nat
        } else {
            0nat
        },
    decreases n,
{
    if n > 0 {
        lemma_releases_of(pool, free, explicit, calls, id, place, n - 1);
        let before = calls + pool.releases(free, explicit, n - 1);
        let after = calls + pool.releases(free, explicit, n);
        let key = pool.pages().keys()[n - 1];
        if is_given_up(pool.pages().values()[n - 1], free[n - 1], explicit) {
            assert(after.drop_last() =~= before);
        } else {
            assert(after =~= before);
        }
    } else {
        assert(calls + pool.releases(free, explicit, n) =~= calls);
    }
}

/// An exclusive pool refuses a reservation if and only if each of its pages is in use or smaller than
/// the size asked for; it is then left as it is.
pub proof fn exclusive_refuses_only_without_a_free_page(
    pool: ExclusiveMemoryPool,
    free: Seq<bool>,
    size: u64,
    after: ExclusiveMemoryPool,
    handle: Option<ManagedMemoryHandle>,
)
    requires
        pool.reserves(free, size, after, handle),
    ensures
        handle is None <==> forall|i: int| #![trigger pool.pages().values()[i]]
            0 <= i < pool.pages().keys().len() ==> !free[i] || pool.pages().values()[i].alloc_size
                < size,
        handle is None ==> after.pages().values() == pool.pages().values(),
{
    let pages = pool.pages().values();
    if handle is None {
        assert forall|i: int| #![trigger pages[i]] 0 <= i < pool.pages().keys().len() implies !free[i]
            || pages[i].alloc_size < size by {
            assert(!pool.suits(i, free, size));
        }
    } else {
        let i = choose|i: int| #[trigger]
            pool.prefers(i, free, size) && handle->0 == pages[i].slice.handle
                && after.pages().values() == pages.update(
                i,
                reused(
                    pages[i],
                    size,
                    padding(size as int, pool.alignment() as int) as u64,
                ),
            );
        assert(pool.suits(i, free, size));
        assert(free[i] && pages[i].alloc_size >= size);
    }
}

/// The page that an exclusive pool hands out is free and large enough. Of those that are, none has a
/// smaller free count, and none before it has the same. It is then in use for exactly the bytes asked
/// for, from its first one on, padded up to the next multiple of the alignment, and one less free
/// time is counted for it; all else stays.
pub proof fn exclusive_hands_out_the_page_found_free_least(
    pool: ExclusiveMemoryPool,
    free: Seq<bool>,
    size: u64,
    need: int,
    after: ExclusiveMemoryPool,
    handle: ManagedMemoryHandle,
) -> (place: int)
    requires
        pool.wf(),
        pool.reserves(free, size, after, Some(handle)),
        need % (pool.alignment() as int) == 0,
        size <= need < size + pool.alignment(),
    ensures
        0 <= place < pool.pages().keys().len(),
        after.pages().keys() == pool.pages().keys(),
        ({
            let pages = pool.pages().values();
            let pages_after = after.pages().values();
            &&& free[place]
            &&& size <= pages[place].alloc_size
            &&& pages[place].slice.handle == handle
            &&& forall|j: int| #![trigger pages[j]]
                0 <= j < pages.len() && free[j] && size <= pages[j].alloc_size
                    ==> pages[place].free_count <= pages[j].free_count && (j < place
                    ==> pages[place].free_count < pages[j].free_count)
            &&& pages_after[place].slice.handle == handle
            &&& pages_after[place].slice.start() == 0
            &&& pages_after[place].slice.storage.id == pages[place].slice.storage.id
            &&& pages_after[place].slice.storage.utilization.size == size
            &&& pages_after[place].slice.room() == need
            &&& pages_after[place].slice.cursor == pages[place].slice.cursor
            &&& pages_after[place].alloc_size == pages[place].alloc_size
            &&& pages_after[place].free_count == if pages[place].free_count == 0 {
                0
            } else {
                pages[place].free_count - 1
            }
            &&& pages_after.len() == pages.len()
            &&& forall|j: int| #![trigger pages_after[j]]
                0 <= j < pages.len() && j != place ==> pages_after[j] == pages[j]
        }),
{
    let pages = pool.pages().values();
    lemma_is_aligned(size as int, need, pool.alignment() as int);
    lemma_aligned(size as int, pool.alignment() as int);
    pool.pages().lemma_keys();
    let place = choose|i: int| #[trigger]
        pool.prefers(i, free, size) && handle == pages[i].slice.handle && after.pages().values()
            == pages.update(
            i,
            reused(
                pages[i],
                size,
                padding(size as int, pool.alignment() as int) as u64,
            ),
        );
    assert(pool.suits(place, free, size));
    assert(pool.pages().lookup(pool.pages().keys()[place]) is Some);
    assert(pool.admits(pages[place]));
    assert forall|j: int| #![trigger pages[j]]
        0 <= j < pages.len() && free[j] && size <= pages[j].alloc_size implies pages[place].free_count
        <= pages[j].free_count && (j < place ==> pages[place].free_count < pages[j].free_count) by {
        assert(pool.suits(j, free, size));
    }
    assert(size + padding(size as int, pool.alignment() as int) == need);
    place
}

/// A page that is allocated is a multiple of the alignment, holds what was asked for and what is
/// asked for on average, and is no larger than that requires.
pub proof fn exclusive_page_is_as_large_as_it_has_to_be(
    pool: ExclusiveMemoryPool,
    size: u64,
    average: u64,
)
    requires
        pool.wf(),
    ensures
        pool.page_size_for(size, average) % (pool.alignment() as int) == 0,
        size <= pool.page_size_for(size, average),
        average <= pool.page_size_for(size, average),
        pool.page_size_for(size, average) < size + pool.alignment() || pool.page_size_for(
            size,
            average,
        ) < average + pool.alignment(),
{
    lemma_aligned(size as int, pool.alignment() as int);
    lemma_aligned(average as int, pool.alignment() as int);
}

/// What an exclusive pool allocates is a new page, in use from its first byte on for exactly the size
/// asked for, padded up to the next multiple of the alignment, which counts as found free four times;
/// all other pages stay.
pub proof fn exclusive_allocates_a_page(
    pool: ExclusiveMemoryPool,
    key: PageKey,
    storage: StorageHandle,
    size: u64,
    need: int,
    alloc_size: u64,
    ids: MemoryIds,
    after: ExclusiveMemoryPool,
    ids_after: MemoryIds,
    handle: ManagedMemoryHandle,
)
    requires
        pool.wf(),
        pool.allocates_on(key, storage, size, alloc_size, ids, after, ids_after, handle),
        need % (pool.alignment() as int) == 0,
        size <= need < size + pool.alignment(),
        need <= alloc_size,
    ensures
        pool.pages().lookup(key) is None,
        after.pages().lookup(key) is Some,
        ({
            let page = after.page(key);
            &&& page.slice.handle == handle
            &&& page.slice.storage.id == storage.id
            &&& page.slice.start() == 0
            &&& page.slice.storage.utilization.size == size
            &&& page.slice.room() == need
            &&& page.slice.cursor == 0
            &&& page.alloc_size == alloc_size
            &&& page.free_count == 4
        }),
        handle.id().value == ids.next(),
        ids_after.next() == ids.next() + 1,
        exists|location: MemoryLocation| #[trigger]
            handle.shared().locations().contains(location) && location.page == key && location.slice
                == pool.location_base().slice && location.pool == pool.location_base().pool
                && location.init == pool.location_base().init,
        after.bytes_reserved() == pool.bytes_reserved() + alloc_size,
        forall|other: PageKey| #![trigger after.pages().lookup(other)]
            other != key ==> after.pages().lookup(other) == pool.pages().lookup(other),
{
    lemma_is_aligned(size as int, need, pool.alignment() as int);
    lemma_aligned(size as int, pool.alignment() as int);
    assert(handle.shared().locations().contains(pool.location_on(key)));
}

/// Looking a location up finds the slice of the page that it names, where the page is there, and
/// nothing otherwise.
pub proof fn exclusive_find_is_exact(
    pool: ExclusiveMemoryPool,
    location: MemoryLocation,
    found: Result<&Slice, IoError>,
)
    requires
        pool.finds(location, found),
    ensures
        found is Ok <==> pool.pages().lookup(location.page) is Some,
        found is Ok ==> *found->Ok_0 == pool.page(location.page).slice,
        found is Err ==> found->Err_0 == (IoError::NotFound { page: location.page }),
{
}

/// Binding gives a page another handle and another cursor and changes nothing else, neither of the
/// page nor of the others; the handle has then been told the location that was bound.
pub proof fn exclusive_bind_changes_handle_and_cursor(
    pool: ExclusiveMemoryPool,
    location: MemoryLocation,
    assigned: ManagedMemoryHandle,
    cursor: u64,
    after: ExclusiveMemoryPool,
    result: Result<(), IoError>,
)
    requires
        pool.binds(location, assigned, cursor, after, result),
    ensures
        result is Ok <==> pool.pages().lookup(location.page) is Some,
        after.pages().keys() == pool.pages().keys(),
        after.last_dealloc_check() == pool.last_dealloc_check(),
        forall|other: PageKey| #![trigger after.pages().lookup(other)]
            other != location.page || result is Err ==> after.pages().lookup(other)
                == pool.pages().lookup(other),
        result is Ok ==> {
            let page = pool.page(location.page);
            let bound = after.page(location.page);
            &&& after.pages().lookup(location.page) is Some
            &&& bound.slice.handle == assigned
            &&& bound.slice.cursor == cursor
            &&& bound.slice.storage == page.slice.storage
            &&& bound.slice.padding == page.slice.padding
            &&& bound.alloc_size == page.alloc_size
            &&& bound.free_count == page.free_count
            &&& assigned.shared().locations().contains(location)
        },
{
}

/// Where every page is free, nothing is in use.
pub proof fn exclusive_usage_of_free_pages_is_none(
    pool: ExclusiveMemoryPool,
    free: Seq<bool>,
    usage: MemoryUsage,
)
    requires
        free.len() == pool.pages().keys().len(),
        pool.uses(free, usage),
        forall|i: int| #![trigger free[i]] 0 <= i < free.len() ==> free[i],
    ensures
        usage.number_allocs == 0,
        usage.bytes_in_use == 0,
        usage.bytes_padding == 0,
{
    lemma_nothing_in_use(pool.pages().values(), free, one(), free.len() as int);
    lemma_nothing_in_use(pool.pages().values(), free, usable(), free.len() as int);
    lemma_nothing_in_use(pool.pages().values(), free, padded(), free.len() as int);
}

proof fn lemma_nothing_in_use(
    pages: Seq<MemoryPage>,
    free: Seq<bool>,
    part: spec_fn(MemoryPage) -> int,
    n: int,
)
    requires
        0 <= n <= free.len(),
        forall|i: int| #![trigger free[i]] 0 <= i < free.len() ==> free[i],
    ensures
        sum_used(pages, free, part, n) == 0,
    decreases n,
{
    if n > 0 {
        lemma_nothing_in_use(pages, free, part, n - 1);
        assert(free[n - 1]);
    }
}

/// A page that comes into use adds one allocation, its bytes and its padding to the memory usage, and
/// nothing else.
pub proof fn exclusive_usage_counts_every_page(
    pool: ExclusiveMemoryPool,
    free: Seq<bool>,
    i: int,
    usage: MemoryUsage,
    usage_after: MemoryUsage,
)
    requires
        free.len() == pool.pages().keys().len(),
        0 <= i < free.len(),
        free[i],
        pool.uses(free, usage),
        pool.uses(free.update(i, false), usage_after),
    ensures
        usage_after.number_allocs == usage.number_allocs + 1,
        usage_after.bytes_in_use == usage.bytes_in_use
            + pool.pages().values()[i].slice.storage.utilization.size,
        usage_after.bytes_padding == usage.bytes_padding + pool.pages().values()[i].slice.padding,
        usage_after.bytes_reserved == usage.bytes_reserved,
{
    let pages = pool.pages().values();
    let count = free.len() as int;
    lemma_one_more_in_use(pages, free, i, one(), count);
    lemma_one_more_in_use(pages, free, i, usable(), count);
    lemma_one_more_in_use(pages, free, i, padded(), count);
}

proof fn lemma_one_more_in_use(
    pages: Seq<MemoryPage>,
    free: Seq<bool>,
    i: int,
    part: spec_fn(MemoryPage) -> int,
    n: int,
)
    requires
        0 <= i < free.len(),
        free[i],
        0 <= n <= free.len(),
    ensures
        sum_used(pages, free.update(i, false), part, n) == sum_used(pages, free, part, n) + if i < n {
            part(pages[i])
        } else {
            0
        },
    decreases n,
{
    if n > 0 {
        lemma_one_more_in_use(pages, free, i, part, n - 1);
    }
}

/// The bytes that are reserved are those of the pages: none without pages, and a page that goes takes
/// its own with it.
pub proof fn exclusive_reserved_bytes_are_those_of_the_pages(
    pool: ExclusiveMemoryPool,
    after: ExclusiveMemoryPool,
    place: int,
)
    requires
        0 <= place < pool.pages().values().len(),
        after.pages().values() == pool.pages().values().remove(place),
    ensures
        after.bytes_reserved() == pool.bytes_reserved() - pool.pages().values()[place].alloc_size,
        after.pages().values().len() == 0 ==> after.bytes_reserved() == 0,
{
    lemma_total_without(pool.pages().values(), place);
}

proof fn lemma_total_without(pages: Seq<MemoryPage>, place: int)
    requires
        0 <= place < pages.len(),
    ensures
        total(pages.remove(place)) == total(pages) - pages[place].alloc_size,
    decreases pages.len(),
{
    let rest = pages.remove(place);
    if place == pages.len() - 1 {
        assert(rest =~= pages.drop_last());
    } else {
        assert(rest.drop_last() =~= pages.drop_last().remove(place));
        assert(rest.last() == pages.last());
        lemma_total_without(pages.drop_last(), place);
    }
}

/// The report on a page says how many bytes its slice takes up, as whoever looks the page up finds
/// it, and whether the page is free; the pages that are not are those that the usage counts.
pub proof fn exclusive_report_agrees_with_find(
    pool: ExclusiveMemoryPool,
    free: Seq<bool>,
    report: ExclusivePoolReport,
    i: int,
    location: MemoryLocation,
    found: Result<&Slice, IoError>,
)
    requires
        pool.wf(),
        pool.reports(free, report),
        0 <= i < pool.pages().keys().len(),
        location.page == pool.pages().keys()[i],
        pool.finds(location, found),
    ensures
        report.pages@.len() == pool.pages().keys().len(),
        found is Ok,
        report.pages@[i].size == found->Ok_0.storage.utilization.size + found->Ok_0.padding,
        report.pages@[i].is_free == free[i],
        report.max_alloc_size == pool.max_alloc_size(),
        report.usage is Some,
        pool.uses(free, report.usage->0),
{
    pool.pages().lemma_keys();
    assert(pool.pages().lookup(pool.pages().keys()[i]) is Some);
    assert(report.pages@[i] == report.pages@[i]);
}

/// Memory can be modified in place where at most one other handle shares it, and is free where no one
/// else names it.
pub proof fn counts_leave_memory_to_its_holders(count: usize)
    requires
        count >= 1,
    ensures
        sharers_allow_mut(count) <==> count - 1 <= 1,
        holders_leave_free(count) <==> count - 1 == 0,
{
}

} // verus!
