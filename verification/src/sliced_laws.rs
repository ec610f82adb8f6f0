//! What holds of a sliced pool across operations.

use crate::align::{aligned, lemma_aligned, lemma_aligned_sum};
use crate::error::IoError;
use crate::handle::{ManagedMemoryBinding, ManagedMemoryHandle, MemoryIds, MemoryLocation};
use crate::laws::{advancing_is_transitive, is_stale, stale_key_finds_nothing};
use crate::memory_page::{
    coalesced, fits, is_first_fit, lemma_coalesced, lemma_coalesced_keeps_used,
    lemma_room_is_usable_and_padded, lemma_some_fit_is_first, lemma_sum_includes, lemma_tiles,
    lemma_tiles_sum, padded, reserves, room, sum_where, usable, MemoryPage,
};
use crate::page_key::PageKey;
use crate::page_map::generations_advance;
use crate::slice::Slice;
use crate::sliced_pool::{is_all_free, SlicedPool};
use crate::storage::{StorageCall, StorageHandle};
use crate::usage::MemoryUsage;
use vstd::arithmetic::div_mod::{lemma_fundamental_div_mod, lemma_mod_multiples_vanish};
use vstd::prelude::*;

verus! {

/// A cleanup of a sliced pool moves no slot back to an earlier generation, unless a page
/// goes whose slot has had its last generation; and every key whose page goes is stale.
pub proof fn sliced_cleanup_advances(
    pool: SlicedPool,
    free: Seq<Seq<bool>>,
    after: SlicedPool,
)
    requires
        pool.wf(),
        pool.cleans(free, after),
        forall|i: int| #![trigger pool.pages().keys()[i]]
            0 <= i < pool.pages().keys().len() && is_all_free(
                pool.pages().values()[i].0,
                free[i],
            ) ==> pool.pages().keys()[i].generation() < u32::MAX,
    ensures
        generations_advance(pool.pages().generations(), after.pages().generations()),
        forall|key: PageKey| #![trigger after.pages().lookup(key)]
            pool.pages().lookup(key) is Some && after.pages().lookup(key) is None ==> is_stale(
                after.pages().generations(),
                key,
            ),
{
    let before = pool.pages().generations();
    let later = after.pages().generations();
    pool.pages().lemma_keys();
    assert forall|slot: int| 0 <= slot < before.len() implies before[slot] <= later[slot] by {
        if pool.has_page_in(slot) {
            let i = choose|i: int|
                0 <= i < pool.pages().keys().len() && (#[trigger] pool.pages().keys()[i]).slot()
                    == slot;
            assert(pool.cleans_page(i, free, after));
        } else {
            assert(later[slot] == before[slot]);
        }
    }
    assert forall|key: PageKey| #[trigger]
        after.pages().lookup(key) is None && pool.pages().lookup(key) is Some implies is_stale(
        later,
        key,
    ) by {
        assert(pool.pages().keys().contains(key));
        let i = choose|i: int| 0 <= i < pool.pages().keys().len() && pool.pages().keys()[i] == key;
        assert(pool.cleans_page(i, free, after));
    }
}

/// A binding whose page a cleanup has deallocated is not found in any later state of the
/// pool, even where another page is in the same slot by then.
pub proof fn sliced_stale_location_is_not_found(
    pool: SlicedPool,
    free: Seq<Seq<bool>>,
    cleaned: SlicedPool,
    later: SlicedPool,
    location: MemoryLocation,
    found: Result<&Slice, IoError>,
)
    requires
        pool.wf(),
        pool.cleans(free, cleaned),
        pool.pages().lookup(location.page) is Some,
        cleaned.pages().lookup(location.page) is None,
        location.page.generation() < u32::MAX,
        later.wf(),
        generations_advance(cleaned.pages().generations(), later.pages().generations()),
        later.finds(location, found),
    ensures
        found is Err,
        found->Err_0 == (IoError::NotFound { page: location.page }),
{
    let key = location.page;
    pool.pages().lemma_keys();
    assert(pool.pages().keys().contains(key));
    let i = choose|i: int| 0 <= i < pool.pages().keys().len() && pool.pages().keys()[i] == key;
    assert(pool.cleans_page(i, free, cleaned));
    stale_key_finds_nothing(cleaned.pages().generations(), later.pages(), key);
}

/// Whether `after` is `before` with one more page.
pub open spec fn sliced_adds(before: SlicedPool, after: SlicedPool) -> bool {
    exists|key: PageKey| #[trigger] before.adds_page(key, after)
}

/// Whether `after` is `before` cleaned up, and no page has gone whose slot has had its last
/// generation.
pub open spec fn sliced_cleans(before: SlicedPool, after: SlicedPool) -> bool {
    exists|free: Seq<Seq<bool>>| #[trigger]
        before.cleans(free, after) && forall|i: int| #![trigger before.pages().keys()[i]]
            0 <= i < before.pages().keys().len() && is_all_free(
                before.pages().values()[i].0,
                free[i],
            ) ==> before.pages().keys()[i].generation() < u32::MAX
}

/// Whether one operation on a sliced pool can make `after` of `before`: the pages stay, or one
/// is added, or some go, but none whose slot has had its last generation.
pub open spec fn sliced_step(before: SlicedPool, after: SlicedPool) -> bool {
    ||| after.same_keys(before)
    ||| sliced_adds(before, after)
    ||| sliced_cleans(before, after)
}

/// To bind and to allocate are such operations, whatever comes of them. (To reserve is one,
/// too: the pages stay.)
pub proof fn sliced_operations_are_steps(
    pool: SlicedPool,
    location: MemoryLocation,
    assigned: ManagedMemoryHandle,
    cursor: u64,
    after_bind: SlicedPool,
    bind_result: Result<(), IoError>,
    reply: Result<StorageHandle, IoError>,
    size: u64,
    ids: MemoryIds,
    after_allocate: SlicedPool,
    ids_after: MemoryIds,
    allocate_result: Result<ManagedMemoryHandle, IoError>,
)
    ensures
        pool.binds(location, assigned, cursor, after_bind, bind_result) ==> sliced_step(
            pool,
            after_bind,
        ),
        pool.allocates(reply, size, ids, after_allocate, ids_after, allocate_result)
            ==> sliced_step(pool, after_allocate),
{
    if pool.allocates(reply, size, ids, after_allocate, ids_after, allocate_result)
        && reply is Ok {
        let key = choose|key: PageKey| #[trigger]
            pool.allocates_on(
                key,
                reply->Ok_0,
                size,
                ids,
                after_allocate,
                ids_after,
                allocate_result->Ok_0,
            );
        assert(pool.adds_page(key, after_allocate));
    }
}

/// Once a page of a sliced pool has gone, a location on it is not found again, whatever
/// operations follow and whatever page is in its slot by then.
pub proof fn sliced_page_that_went_is_never_found(
    states: Seq<SlicedPool>,
    location: MemoryLocation,
    found: Result<&Slice, IoError>,
)
    requires
        states.len() > 1,
        forall|n: int| #![trigger states[n]] 0 <= n < states.len() ==> states[n].wf(),
        forall|n: int, m: int| #![trigger states[n], states[m]]
            0 <= n && m == n + 1 && m < states.len() ==> sliced_step(states[n], states[m]),
        states[0].pages().lookup(location.page) is Some,
        states[1].pages().lookup(location.page) is None,
        states.last().finds(location, found),
    ensures
        found is Err,
        found->Err_0 == (IoError::NotFound { page: location.page }),
{
    let key = location.page;
    states[0].pages().lemma_keys();
    states[1].pages().lemma_keys();
    assert(sliced_step(states[0], states[1]));
    if states[1].same_keys(states[0]) {
        assert(states[0].pages().keys().contains(key));
        assert(states[1].pages().keys().contains(key));
        let i = choose|i: int| 0 <= i < states[1].pages().keys().len()
            && states[1].pages().keys()[i] == key;
        assert(states[1].pages().lookup(states[1].pages().keys()[i]) is Some);
    } else if sliced_adds(states[0], states[1]) {
        let added = choose|added: PageKey| #[trigger] states[0].adds_page(added, states[1]);
        assert(states[1].pages().lookup(key) is None);
    } else {
        let free = choose|free: Seq<Seq<bool>>| #[trigger]
            states[0].cleans(free, states[1]) && forall|i: int|
                #![trigger states[0].pages().keys()[i]]
                0 <= i < states[0].pages().keys().len() && is_all_free(
                    states[0].pages().values()[i].0,
                    free[i],
                ) ==> states[0].pages().keys()[i].generation() < u32::MAX;
        sliced_cleanup_advances(states[0], free, states[1]);
    }
    assert(is_stale(states[1].pages().generations(), key));
    lemma_sliced_steps_advance(states, states.len() - 1);
    stale_key_finds_nothing(states[1].pages().generations(), states.last().pages(), key);
}

proof fn lemma_sliced_steps_advance(states: Seq<SlicedPool>, n: int)
    requires
        1 <= n < states.len(),
        forall|n: int| #![trigger states[n]] 0 <= n < states.len() ==> states[n].wf(),
        forall|n: int, m: int| #![trigger states[n], states[m]]
            0 <= n && m == n + 1 && m < states.len() ==> sliced_step(states[n], states[m]),
    ensures
        generations_advance(states[1].pages().generations(), states[n].pages().generations()),
    decreases n,
{
    if n > 1 {
        let m = n - 1;
        lemma_sliced_steps_advance(states, m);
        assert(sliced_step(states[m], states[n]));
        if sliced_cleans(states[m], states[n]) {
            let free = choose|free: Seq<Seq<bool>>| #[trigger]
                states[m].cleans(free, states[n]) && forall|i: int|
                    #![trigger states[m].pages().keys()[i]]
                    0 <= i < states[m].pages().keys().len() && is_all_free(
                        states[m].pages().values()[i].0,
                        free[i],
                    ) ==> states[m].pages().keys()[i].generation() < u32::MAX;
            sliced_cleanup_advances(states[m], free, states[n]);
        }
        assert(generations_advance(
            states[m].pages().generations(),
            states[n].pages().generations(),
        ));
        advancing_is_transitive(
            states[1].pages().generations(),
            states[m].pages().generations(),
            states[n].pages().generations(),
        );
    }
}

/// Whether one operation on a sliced pool can make `after` of `before`: the pages stay, or one
/// is added, or some go.
pub open spec fn sliced_operation(before: SlicedPool, after: SlicedPool) -> bool {
    ||| after.same_keys(before)
    ||| sliced_adds(before, after)
    ||| exists|free: Seq<Seq<bool>>| #[trigger] before.cleans(free, after)
}

/// Whether `states` are those of a sliced pool, the new one first, each made of the one before
/// it by an operation.
pub open spec fn sliced_run(states: Seq<SlicedPool>) -> bool {
    &&& states.len() > 0
    &&& states[0].pages().generations() == seq![0u32]
    &&& forall|n: int| #![trigger states[n]] 0 <= n < states.len() ==> states[n].wf()
    &&& forall|n: int, m: int| #![trigger states[n], states[m]]
        0 <= n && m == n + 1 && m < states.len() ==> sliced_operation(states[n], states[m])
}

/// Every operation on a sliced pool moves a slot on by at most one generation, so in a run of
/// fewer than 2^32 - 1 operations no slot has its last generation, and none starts anew.
pub proof fn sliced_generations_are_counted(states: Seq<SlicedPool>, n: int)
    requires
        sliced_run(states),
        states.len() <= u32::MAX,
        0 <= n < states.len(),
    ensures
        forall|slot: int| #![trigger states[n].pages().generations()[slot]]
            0 <= slot < states[n].pages().generations().len()
                ==> states[n].pages().generations()[slot] <= n,
        n + 1 < states.len() ==> sliced_step(states[n], states[n + 1]),
    decreases n,
{
    let later = states[n].pages().generations();
    if n > 0 {
        let m = n - 1;
        let before = states[m].pages().generations();
        sliced_generations_are_counted(states, m);
        states[m].pages().lemma_keys();
        assert(sliced_operation(states[m], states[n]));
        assert forall|slot: int| 0 <= slot < later.len() implies #[trigger] later[slot] <= n by {
            if states[n].same_keys(states[m]) {
                assert(before[slot] <= m);
            } else if sliced_adds(states[m], states[n]) {
                let key = choose|key: PageKey| #[trigger] states[m].adds_page(key, states[n]);
                if slot < before.len() {
                    assert(before[slot] <= m);
                }
            } else {
                let free = choose|free: Seq<Seq<bool>>| #[trigger]
                    states[m].cleans(free, states[n]);
                assert(before[slot] <= m);
                if states[m].has_page_in(slot) {
                    let i = choose|i: int|
                        0 <= i < states[m].pages().keys().len()
                            && (#[trigger] states[m].pages().keys()[i]).slot() == slot;
                    assert(states[m].cleans_page(i, free, states[n]));
                } else {
                    assert(later[slot] == before[slot]);
                }
            }
        }
    }
    if n + 1 < states.len() {
        let next = states[n + 1];
        states[n].pages().lemma_keys();
        assert(sliced_operation(states[n], next));
        if !next.same_keys(states[n]) && !sliced_adds(states[n], next) {
            let free = choose|free: Seq<Seq<bool>>| #[trigger] states[n].cleans(free, next);
            assert forall|i: int| #![trigger states[n].pages().keys()[i]]
                0 <= i < states[n].pages().keys().len() && is_all_free(
                    states[n].pages().values()[i].0,
                    free[i],
                ) implies states[n].pages().keys()[i].generation() < u32::MAX by {
                assert(later[states[n].pages().keys()[i].slot()] <= n);
            }
            assert(sliced_cleans(states[n], next));
        }
    }
}

/// Once a page of a sliced pool has gone, a location on it is not found again in any run of
/// fewer than 2^32 - 1 operations.
pub proof fn sliced_run_never_finds_a_page_that_went(
    states: Seq<SlicedPool>,
    n: int,
    location: MemoryLocation,
    found: Result<&Slice, IoError>,
)
    requires
        sliced_run(states),
        states.len() <= u32::MAX,
        0 <= n < states.len() - 1,
        states[n].pages().lookup(location.page) is Some,
        states[n + 1].pages().lookup(location.page) is None,
        states.last().finds(location, found),
    ensures
        found is Err,
        found->Err_0 == (IoError::NotFound { page: location.page }),
{
    let rest = states.skip(n);
    assert forall|a: int, b: int| #![trigger rest[a], rest[b]]
        0 <= a && b == a + 1 && b < rest.len() implies sliced_step(rest[a], rest[b]) by {
        sliced_generations_are_counted(states, n + a);
    }
    assert(rest.last() == states.last());
    sliced_page_that_went_is_never_found(rest, location, found);
}

/// A binding none of whose locations names a page of the pool is not found.
pub proof fn sliced_lost_binding_is_not_found(
    pool: SlicedPool,
    binding: ManagedMemoryBinding,
    found: Result<&Slice, IoError>,
)
    requires
        exists|location: MemoryLocation| #[trigger]
            binding.shared().locations().contains(location) && pool.finds(location, found),
        forall|location: MemoryLocation| #[trigger]
            binding.shared().locations().contains(location) ==> pool.pages().lookup(
                location.page,
            ) is None,
    ensures
        found is Err,
        found->Err_0 is NotFound,
{
}

/// A page of a sliced pool with a slice in use that is not empty survives a cleanup, under
/// its key and on its storage, and the slice with it: its
/// handle has been told where it then is.
pub proof fn sliced_page_in_use_survives(
    pool: SlicedPool,
    free: Seq<Seq<bool>>,
    after: SlicedPool,
    i: int,
    j: int,
)
    requires
        pool.wf(),
        pool.observes(free),
        pool.cleans(free, after),
        0 <= i < pool.pages().keys().len(),
        0 <= j < free[i].len(),
        !free[i][j],
        pool.pages().values()[i].0.slices()[j].room() > 0,
        after.wf(),
    ensures
        after.pages().lookup(pool.pages().keys()[i]) is Some,
        after.storage_of(pool.pages().keys()[i]) == pool.pages().values()[i].1,
        exists|place: int|
            0 <= place < after.page(pool.pages().keys()[i]).slices().len() && (
            #[trigger] after.page(pool.pages().keys()[i]).slices()[place])
                == pool.pages().values()[i].0.slices()[j]
                && pool.pages().values()[i].0.slices()[j].was_told(
                after.page(pool.pages().keys()[i]).location_of(place),
            ),
{
    let key = pool.pages().keys()[i];
    let page = pool.pages().values()[i].0;
    pool.pages().lemma_keys();
    assert(pool.pages().lookup(key) is Some);
    assert(free[i].len() == page.slices().len());
    lemma_tiles_sum(page.slices(), free[i], page.start(), page.end());
    lemma_sum_includes(page.slices(), free[i], false, room(), j);
    assert(pool.cleans_page(i, free, after));
    let place = lemma_coalesced_keeps_used(page.slices(), free[i], j);
    assert(after.page(key).slices()[place] == page.slices()[j]);
}

/// Looking up what was bound gives back the slice under the handle and the cursor it was
/// bound with.
pub proof fn sliced_bind_then_find(
    pool: SlicedPool,
    location: MemoryLocation,
    assigned: ManagedMemoryHandle,
    cursor: u64,
    after: SlicedPool,
    result: Result<(), IoError>,
    before_found: Result<&Slice, IoError>,
    found: Result<&Slice, IoError>,
)
    requires
        pool.binds(location, assigned, cursor, after, result),
        pool.finds(location, before_found),
        after.finds(location, found),
    ensures
        result is Ok <==> before_found is Ok,
        result is Ok ==> {
            &&& found is Ok
            &&& found->Ok_0.handle == assigned
            &&& found->Ok_0.cursor == cursor
            &&& found->Ok_0.storage == before_found->Ok_0.storage
            &&& found->Ok_0.padding == before_found->Ok_0.padding
        },
        result is Err ==> found is Err && found->Err_0 == result->Err_0 && before_found->Err_0
            == result->Err_0,
{
}

/// Binding at one location changes nothing at any other.
pub proof fn sliced_bind_elsewhere(
    pool: SlicedPool,
    location: MemoryLocation,
    assigned: ManagedMemoryHandle,
    cursor: u64,
    after: SlicedPool,
    result: Result<(), IoError>,
    other: MemoryLocation,
    found: Result<&Slice, IoError>,
)
    requires
        pool.binds(location, assigned, cursor, after, result),
        other.page != location.page || other.slice != location.slice,
        pool.finds(other, found),
    ensures
        after.finds(other, found),
{
}

/// Looking up what was allocated gives back a slice of the size asked for, under the handle
/// that was handed out, at the location that the handle has been told; and what could be
/// found before is found as before.
pub proof fn sliced_allocate_then_find(
    pool: SlicedPool,
    key: PageKey,
    storage: StorageHandle,
    size: u64,
    ids: MemoryIds,
    after: SlicedPool,
    ids_after: MemoryIds,
    handle: ManagedMemoryHandle,
    found: Result<&Slice, IoError>,
    other: MemoryLocation,
    other_found: Result<&Slice, IoError>,
)
    requires
        pool.wf(),
        pool.allocates_on(key, storage, size, ids, after, ids_after, handle),
        after.finds(pool.location_on(key), found),
        pool.finds(other, other_found),
        other_found is Ok,
    ensures
        handle.shared().locations().contains(pool.location_on(key)),
        found is Ok,
        found->Ok_0.handle == handle,
        found->Ok_0.storage.id == storage.id,
        found->Ok_0.storage.utilization.size == size,
        after.finds(other, other_found),
{
}

/// No two slices of a page overlap, and none leaves the page.
pub proof fn slices_do_not_overlap(page: MemoryPage, i: int, j: int)
    requires
        page.wf(),
        0 <= i < j < page.slices().len(),
    ensures
        page.start() <= page.slices()[i].start(),
        page.slices()[i].end() <= page.slices()[j].start(),
        page.slices()[j].end() <= page.end(),
{
    lemma_tiles(page.slices(), page.start(), page.end());
}

/// Every slice of a page starts at a multiple of the alignment.
pub proof fn slices_are_aligned(page: MemoryPage, i: int)
    requires
        page.wf(),
        0 <= i < page.slices().len(),
    ensures
        page.slices()[i].start() % (page.alignment() as int) == 0,
{
}

/// Once adjacent free slices are merged, a free slice has slices in use on both sides, and
/// merging again changes nothing.
pub proof fn coalescing_is_complete(page: MemoryPage, free: Seq<bool>)
    requires
        page.wf(),
        free.len() == page.slices().len(),
    ensures
        ({
            let (slices, now_free) = coalesced(page.slices(), free);
            &&& forall|i: int, j: int| #![trigger now_free[i], now_free[j]]
                0 <= i < now_free.len() && j == i + 1 && j < now_free.len() ==> !(now_free[i]
                    && now_free[j])
            &&& coalesced(slices, now_free) == (slices, now_free)
        }),
{
    lemma_coalesced(page.slices(), free, page.start(), page.end());
    let (slices, now_free) = coalesced(page.slices(), free);
    lemma_nothing_to_merge(slices, now_free);
}

proof fn lemma_nothing_to_merge(slices: Seq<Slice>, free: Seq<bool>)
    requires
        slices.len() == free.len(),
        forall|i: int, j: int| #![trigger free[i], free[j]]
            0 <= i < free.len() && j == i + 1 && j < free.len() ==> !(free[i] && free[j]),
    ensures
        coalesced(slices, free) == (slices, free),
    decreases slices.len(),
{
    if slices.len() == 0 {
        assert(slices =~= Seq::<Slice>::empty());
        assert(free =~= Seq::<bool>::empty());
    } else {
        lemma_nothing_to_merge(slices.drop_last(), free.drop_last());
        assert(slices.drop_last().push(slices.last()) =~= slices);
        assert(free.drop_last().push(free.last()) =~= free);
        if free.len() > 1 {
            assert(free.drop_last().last() == free[free.len() - 2]);
        }
    }
}

/// A page refuses a reservation only if no free slice has the room, or the page is cut into as
/// many slices as it can be.
pub proof fn refused_only_without_room(
    slices: Seq<Slice>,
    free: Seq<bool>,
    size: u64,
    alignment: u64,
    ids: MemoryIds,
    after: Seq<Slice>,
    ids_after: MemoryIds,
    i: int,
)
    requires
        reserves(slices, free, size, alignment, ids, after, ids_after, None),
        0 <= i < slices.len(),
    ensures
        !fits(slices[i], free[i], aligned(size as int, alignment as int), slices.len()),
        after == slices,
{
    if fits(slices[i], free[i], aligned(size as int, alignment as int), slices.len()) {
        let _ = lemma_some_fit_is_first(
            slices,
            free,
            aligned(size as int, alignment as int),
            i,
        );
    }
}

/// What is in use in a sliced pool, and its padding, is never more than what is reserved.
pub proof fn sliced_usage_is_within_reserved(
    pool: SlicedPool,
    free: Seq<Seq<bool>>,
    usage: MemoryUsage,
)
    requires
        pool.wf(),
        pool.observes(free),
        pool.uses(free, usage),
    ensures
        usage.bytes_in_use + usage.bytes_padding <= usage.bytes_reserved,
{
    lemma_sliced_usage(pool, free, free.len() as int);
}

proof fn lemma_sliced_usage(pool: SlicedPool, free: Seq<Seq<bool>>, n: int)
    requires
        pool.wf(),
        pool.observes(free),
        0 <= n <= free.len(),
    ensures
        pool.in_use(free, usable(), n) + pool.in_use(free, padded(), n) <= n * pool.page_size(),
    decreases n,
{
    if n > 0 {
        lemma_sliced_usage(pool, free, n - 1);
        pool.lemma_page_in_use(free, n - 1);
        assert(n * pool.page_size() == (n - 1) * pool.page_size() + pool.page_size())
            by (nonlinear_arith);
    }
}

/// A cleanup of a sliced pool keeps no more bytes than there were.
pub proof fn sliced_cleanup_keeps_no_more(pool: SlicedPool, free: Seq<Seq<bool>>, after: SlicedPool)
    requires
        pool.cleans(free, after),
    ensures
        after.pages().keys().len() <= pool.pages().keys().len(),
        after.bytes_reserved() <= pool.bytes_reserved(),
{
    lemma_sliced_survivors(pool, free, pool.pages().keys().len() as int);
    let kept = after.pages().keys().len();
    let count = pool.pages().keys().len();
    let size = pool.page_size();
    assert(kept * size <= count * size) by (nonlinear_arith)
        requires
            kept <= count,
            0 <= size,
    ;
}

proof fn lemma_sliced_survivors(pool: SlicedPool, free: Seq<Seq<bool>>, n: int)
    requires
        0 <= n,
    ensures
        pool.survivors(free, n).len() <= n,
    decreases n,
{
    if n > 0 {
        lemma_sliced_survivors(pool, free, n - 1);
    }
}

/// An allocation in a sliced pool reserves one more page.
pub proof fn sliced_allocate_reserves_a_page(pool: SlicedPool, key: PageKey, after: SlicedPool)
    requires
        pool.adds_page(key, after),
    ensures
        after.bytes_reserved() == pool.bytes_reserved() + pool.page_size(),
{
    let count = pool.pages().keys().len();
    let size = pool.page_size();
    assert(after.pages().keys().len() == count + 1);
    assert((count + 1) * size == count * size + size) by (nonlinear_arith);
}

/// A size that a sliced pool accepts can be allocated on a page, where slices are no larger than
/// pages and pages are aligned.
pub proof fn sliced_accepted_size_fits_a_page(pool: SlicedPool, size: u64)
    requires
        pool.accepts(size),
        pool.max_alloc_size() <= pool.page_size(),
        pool.alignment() > 0,
        pool.page_size() % pool.alignment() == 0,
    ensures
        aligned(size as int, pool.alignment() as int) <= pool.page_size(),
{
    let alignment = pool.alignment() as int;
    lemma_aligned(size as int, alignment);
    assert((pool.page_size() as int) % alignment == 0);
}

/// What is in use in a sliced pool, with its padding, and what is reserved are multiples of the
/// alignment, where the pages are.
pub proof fn sliced_usage_is_aligned(pool: SlicedPool, free: Seq<Seq<bool>>, usage: MemoryUsage)
    requires
        pool.wf(),
        pool.observes(free),
        pool.uses(free, usage),
        pool.alignment() > 0,
        pool.page_size() % pool.alignment() == 0,
    ensures
        (usage.bytes_in_use + usage.bytes_padding) % (pool.alignment() as int) == 0,
        usage.bytes_reserved % pool.alignment() == 0,
{
    lemma_sliced_in_use_is_aligned(pool, free, free.len() as int);
    lemma_multiple_is_aligned(
        pool.pages().keys().len() as int,
        pool.page_size() as int,
        pool.alignment() as int,
    );
}

/// A multiple of a multiple of `alignment` is one.
proof fn lemma_multiple_is_aligned(times: int, size: int, alignment: int)
    requires
        0 < alignment,
        size % alignment == 0,
    ensures
        (times * size) % alignment == 0,
{
    let steps = size / alignment;
    lemma_fundamental_div_mod(size, alignment);
    assert(times * size == alignment * (times * steps)) by (nonlinear_arith)
        requires
            size == alignment * steps,
    ;
    lemma_mod_multiples_vanish(times * steps, 0, alignment);
}

proof fn lemma_sliced_in_use_is_aligned(pool: SlicedPool, free: Seq<Seq<bool>>, n: int)
    requires
        pool.wf(),
        pool.observes(free),
        0 <= n <= free.len(),
        pool.alignment() > 0,
        pool.page_size() % pool.alignment() == 0,
    ensures
        (pool.in_use(free, usable(), n) + pool.in_use(free, padded(), n)) % (pool.alignment() as int)
            == 0,
    decreases n,
{
    let alignment = pool.alignment() as int;
    assert(0int % alignment == 0) by (nonlinear_arith)
        requires
            0 < alignment,
    ;
    if n > 0 {
        let page = pool.pages().values()[n - 1].0;
        lemma_sliced_in_use_is_aligned(pool, free, n - 1);
        pool.lemma_page_in_use(free, n - 1);
        assert(free[n - 1].len() == page.slices().len());
        assert(page.end() == pool.page_size());
        assert forall|i: int| 0 <= i < page.slices().len() implies (
        #[trigger] page.slices()[i]).room() % alignment == 0 by {
            slices_have_aligned_rooms(page, i);
        }
        lemma_room_is_usable_and_padded(page.slices(), free[n - 1], false);
        lemma_rooms_are_aligned(page.slices(), free[n - 1], false, alignment);
        lemma_aligned_sum(
            pool.in_use(free, usable(), n - 1) + pool.in_use(free, padded(), n - 1),
            sum_where(page.slices(), free[n - 1], false, room()),
            alignment,
        );
    }
}

/// Every slice of a page takes up a multiple of the alignment, where the page ends at one.
pub proof fn slices_have_aligned_rooms(page: MemoryPage, i: int)
    requires
        page.wf(),
        page.end() % (page.alignment() as int) == 0,
        0 <= i < page.slices().len(),
    ensures
        page.slices()[i].room() % (page.alignment() as int) == 0,
{
    let alignment = page.alignment() as int;
    let slices = page.slices();
    let end = slices[i].end();
    let start = slices[i].start();
    assert(start % alignment == 0);
    assert(end % alignment == 0) by {
        if i + 1 < slices.len() {
            assert(slices[i + 1].start() == end);
        }
    }
    lemma_fundamental_div_mod(end, alignment);
    lemma_fundamental_div_mod(start, alignment);
    let steps = end / alignment - start / alignment;
    assert(end - start == alignment * steps) by (nonlinear_arith)
        requires
            end == alignment * (end / alignment),
            start == alignment * (start / alignment),
            steps == end / alignment - start / alignment,
    ;
    lemma_mod_multiples_vanish(steps, 0, alignment);
}

proof fn lemma_rooms_are_aligned(slices: Seq<Slice>, free: Seq<bool>, want: bool, alignment: int)
    requires
        0 < alignment,
        free.len() == slices.len(),
        forall|i: int| #![trigger slices[i]]
            0 <= i < slices.len() ==> slices[i].room() % alignment == 0,
    ensures
        sum_where(slices, free, want, room()) % alignment == 0,
    decreases slices.len(),
{
    assert(0int % alignment == 0) by (nonlinear_arith)
        requires
            0 < alignment,
    ;
    if slices.len() > 0 {
        let front = slices.drop_last();
        assert forall|i: int| 0 <= i < front.len() implies (#[trigger] front[i]).room() % alignment
            == 0 by {
            assert(slices[i].room() % alignment == 0);
        }
        lemma_rooms_are_aligned(front, free.drop_last(), want, alignment);
        assert(slices[slices.len() - 1].room() % alignment == 0);
        lemma_aligned_sum(
            sum_where(front, free.drop_last(), want, room()),
            slices.last().room(),
            alignment,
        );
    }
}

/// How many allocations are left of some calls on a storage: those that it has made, less those
/// that it was given back.
pub open spec fn held(calls: Seq<StorageCall>) -> int
    decreases calls.len(),
{
    if calls.len() == 0 {
        0
    } else {
        held(calls.drop_last()) + match calls.last() {
            StorageCall::Alloc { size, reply } => if reply is Ok {
                1int
            } else {
                0int
            },
            StorageCall::Dealloc { id } => -1int,
        }
    }
}

/// Whether an allocation makes `after` of the sliced pool `before`, with one call on the storage.
pub open spec fn sliced_allocates_with(
    before: SlicedPool,
    calls: Seq<StorageCall>,
    after: SlicedPool,
    calls_after: Seq<StorageCall>,
) -> bool {
    exists|
        reply: Result<StorageHandle, IoError>,
        size: u64,
        ids: MemoryIds,
        ids_after: MemoryIds,
        result: Result<ManagedMemoryHandle, IoError>,
    | #[trigger]
        before.allocates(reply, size, ids, after, ids_after, result) && calls_after == calls.push(
            StorageCall::Alloc { size: before.page_size(), reply },
        )
}

/// Whether a cleanup makes `after` of the sliced pool `before`, with a call on the storage for
/// every page that goes.
pub open spec fn sliced_cleans_with(
    before: SlicedPool,
    calls: Seq<StorageCall>,
    after: SlicedPool,
    calls_after: Seq<StorageCall>,
) -> bool {
    exists|free: Seq<Seq<bool>>| #[trigger]
        before.cleans(free, after) && calls_after == calls + before.releases(
            free,
            before.pages().keys().len() as int,
        )
}

/// The bytes that a sliced pool has reserved are those of the pages that its storage has made and
/// was not given back: `pools[n]` is what `n` operations make of a pool without pages, and
/// `calls[n]` are the calls on its storage until then.
pub proof fn sliced_bytes_are_held_by_the_storage(
    pools: Seq<SlicedPool>,
    calls: Seq<Seq<StorageCall>>,
    n: int,
)
    requires
        0 <= n < pools.len(),
        calls.len() == pools.len(),
        pools[0].pages().keys().len() == 0,
        forall|k: int, m: int| #![trigger pools[k], pools[m]]
            0 <= k && m == k + 1 && m < pools.len() ==> {
                ||| pools[m].same_keys(pools[k]) && calls[m] == calls[k]
                ||| sliced_allocates_with(pools[k], calls[k], pools[m], calls[m])
                ||| sliced_cleans_with(pools[k], calls[k], pools[m], calls[m])
            },
    ensures
        pools[n].page_size() == pools[0].page_size(),
        pools[n].pages().keys().len() == held(calls[n]) - held(calls[0]),
        pools[n].bytes_reserved() == (held(calls[n]) - held(calls[0])) * pools[0].page_size(),
    decreases n,
{
    if n > 0 {
        let m = n - 1;
        sliced_bytes_are_held_by_the_storage(pools, calls, m);
        assert(pools[m].pages().keys().len() == held(calls[m]) - held(calls[0]));
        if pools[n].same_keys(pools[m]) && calls[n] == calls[m] {
        } else if sliced_allocates_with(pools[m], calls[m], pools[n], calls[n]) {
            let (reply, size, ids, ids_after, result) = choose|
                reply: Result<StorageHandle, IoError>,
                size: u64,
                ids: MemoryIds,
                ids_after: MemoryIds,
                result: Result<ManagedMemoryHandle, IoError>,
            | #[trigger]
                pools[m].allocates(reply, size, ids, pools[n], ids_after, result) && calls[n]
                    == calls[m].push(StorageCall::Alloc { size: pools[m].page_size(), reply });
            assert(calls[n].drop_last() =~= calls[m]);
        } else {
            let free = choose|free: Seq<Seq<bool>>| #[trigger]
                pools[m].cleans(free, pools[n]) && calls[n] == calls[m] + pools[m].releases(
                    free,
                    pools[m].pages().keys().len() as int,
                );
            lemma_releases_are_not_held(
                pools[m],
                free,
                calls[m],
                pools[m].pages().keys().len() as int,
            );
        }
    }
}

/// Every page that does not survive a cleanup is given back.
proof fn lemma_releases_are_not_held(
    pool: SlicedPool,
    free: Seq<Seq<bool>>,
    calls: Seq<StorageCall>,
    n: int,
)
    requires
        0 <= n,
    ensures
        held(calls + pool.releases(free, n)) == held(calls) - (n - pool.survivors(free, n).len()),
    decreases n,
{
    if n > 0 {
        lemma_releases_are_not_held(pool, free, calls, n - 1);
        let before = calls + pool.releases(free, n - 1);
        let after = calls + pool.releases(free, n);
        if is_all_free(pool.pages().values()[n - 1].0, free[n - 1]) {
            assert(after.drop_last() =~= before);
        } else {
            assert(after =~= before);
        }
    } else {
        assert(calls + pool.releases(free, n) =~= calls);
    }
}

/// A slice of a sliced pool that is not empty and is never named by its own handle alone, as where
/// a clone or a binding of that handle is kept, survives a cleanup as it is, on the same page and
/// storage, whatever the cleanup reads and whichever pages go; it is found where its handle has
/// been told that it is.
pub proof fn sliced_slice_that_is_never_free_survives(
    pool: SlicedPool,
    free: Seq<Seq<bool>>,
    after: SlicedPool,
    i: int,
    j: int,
) -> (location: MemoryLocation)
    requires
        pool.wf(),
        pool.reads_as(free),
        pool.cleans(free, after),
        after.wf(),
        0 <= i < pool.pages().keys().len(),
        0 <= j < pool.pages().values()[i].0.slices().len(),
        !pool.pages().values()[i].0.slices()[j].handle.reads_as(true),
        pool.pages().values()[i].0.slices()[j].room() > 0,
    ensures
        location.page == pool.pages().keys()[i],
        after.storage_of(location.page) == pool.pages().values()[i].1,
        pool.pages().values()[i].0.slices()[j].was_told(location),
        forall|found: Result<&Slice, IoError>| #[trigger]
            after.finds(location, found) ==> found is Ok && *found->Ok_0
                == pool.pages().values()[i].0.slices()[j],
{
    let key = pool.pages().keys()[i];
    let page = pool.pages().values()[i].0;
    assert(page.reads_as(free[i]));
    assert(page.slices()[j].handle.reads_as(free[i][j]));
    assert forall|k: int| 0 <= k < free.len() implies (#[trigger] free[k]).len()
        == pool.pages().values()[k].0.slices().len() by {
        assert(pool.pages().values()[k].0.reads_as(free[k]));
    }
    sliced_page_in_use_survives(pool, free, after, i, j);
    let place = choose|place: int|
        0 <= place < after.page(key).slices().len() && (#[trigger] after.page(key).slices()[place])
            == page.slices()[j] && page.slices()[j].was_told(after.page(key).location_of(place));
    assert(after.admits(key, after.pages().lookup(key)->0));
    after.page(key).location_of(place)
}

/// A new page, which is one free slice, supplies what fits on it once it is aligned, and nothing
/// else; so it supplies every size that the pool accepts, where slices are no larger than pages
/// and pages are aligned.
pub proof fn sliced_new_page_supplies_what_fits(
    pool: SlicedPool,
    whole: Slice,
    size: u64,
    ids: MemoryIds,
    after: Seq<Slice>,
    ids_after: MemoryIds,
    handle: Option<ManagedMemoryHandle>,
)
    requires
        pool.alignment() > 0,
        whole.room() == pool.page_size(),
        reserves(seq![whole], seq![true], size, pool.alignment(), ids, after, ids_after, handle),
    ensures
        handle is Some <==> aligned(size as int, pool.alignment() as int) <= pool.page_size(),
        pool.accepts(size) && pool.max_alloc_size() <= pool.page_size() && pool.page_size()
            % pool.alignment() == 0 ==> handle is Some,
{
    let need = aligned(size as int, pool.alignment() as int);
    if need <= pool.page_size() {
        assert(is_first_fit(seq![whole], seq![true], need, 0));
    }
    if pool.accepts(size) && pool.max_alloc_size() <= pool.page_size() && pool.page_size()
        % pool.alignment() == 0 {
        sliced_accepted_size_fits_a_page(pool, size);
    }
}

} // verus!
