//! What holds of an exclusive pool across operations.

use crate::align::{lemma_aligned, lemma_aligned_sum, padding};
use crate::error::IoError;
use crate::exclusive_pool::{
    is_given_up, one, padded, reused, sum_used, total, usable, ExclusiveMemoryPool, MemoryPage,
    ALLOC_AFTER_FREE,
};
use crate::handle::{ManagedMemoryBinding, ManagedMemoryHandle, MemoryIds, MemoryLocation};
use crate::laws::{advancing_is_transitive, is_stale, stale_key_finds_nothing};
use crate::page_key::PageKey;
use crate::page_map::generations_advance;
use crate::slice::Slice;
use crate::storage::{StorageCall, StorageHandle, StorageId};
use crate::usage::MemoryUsage;
use vstd::prelude::*;

verus! {

/// A cleanup of an exclusive pool moves no slot back to an earlier generation, unless a page
/// goes whose slot has had its last generation; and every key whose page goes is stale.
pub proof fn exclusive_cleanup_advances(
    pool: ExclusiveMemoryPool,
    free: Seq<bool>,
    alloc_nr: u64,
    explicit: bool,
    after: ExclusiveMemoryPool,
)
    requires
        pool.wf(),
        pool.checks(free, alloc_nr, explicit, after),
        forall|i: int| #![trigger pool.pages().keys()[i]]
            0 <= i < pool.pages().keys().len() && is_given_up(
                pool.pages().values()[i],
                free[i],
                explicit,
            ) ==> pool.pages().keys()[i].generation() < u32::MAX,
    ensures
        generations_advance(pool.pages().generations(), after.pages().generations()),
        forall|key: PageKey| #![trigger after.pages().lookup(key)]
            pool.pages().lookup(key) is Some && after.pages().lookup(key) is None ==> is_stale(
                after.pages().generations(),
                key,
            ),
{
    let before = pool.pages().generations();
    let later = after.pages().generations();
    pool.pages().lemma_keys();
    assert forall|slot: int| 0 <= slot < before.len() implies before[slot] <= later[slot] by {
        if pool.has_page_in(slot) {
            let i = choose|i: int|
                0 <= i < pool.pages().keys().len() && (#[trigger] pool.pages().keys()[i]).slot()
                    == slot;
            assert(pool.checks_page(i, free, explicit, after));
        } else {
            assert(later[slot] == before[slot]);
        }
    }
    assert forall|key: PageKey| #[trigger]
        after.pages().lookup(key) is None && pool.pages().lookup(key) is Some implies is_stale(
        later,
        key,
    ) by {
        assert(pool.pages().keys().contains(key));
        let i = choose|i: int| 0 <= i < pool.pages().keys().len() && pool.pages().keys()[i] == key;
        assert(pool.checks_page(i, free, explicit, after));
    }
}

/// A binding whose page a cleanup has deallocated is not found in any later state of the
/// pool, even where another page is in the same slot by then.
pub proof fn exclusive_stale_location_is_not_found(
    pool: ExclusiveMemoryPool,
    free: Seq<bool>,
    alloc_nr: u64,
    explicit: bool,
    cleaned: ExclusiveMemoryPool,
    later: ExclusiveMemoryPool,
    location: MemoryLocation,
    found: Result<&Slice, IoError>,
)
    requires
        pool.wf(),
        pool.checks(free, alloc_nr, explicit, cleaned),
        pool.pages().lookup(location.page) is Some,
        cleaned.pages().lookup(location.page) is None,
        location.page.generation() < u32::MAX,
        later.wf(),
        generations_advance(cleaned.pages().generations(), later.pages().generations()),
        later.finds(location, found),
    ensures
        found is Err,
        found->Err_0 == (IoError::NotFound { page: location.page }),
{
    let key = location.page;
    pool.pages().lemma_keys();
    assert(pool.pages().keys().contains(key));
    let i = choose|i: int| 0 <= i < pool.pages().keys().len() && pool.pages().keys()[i] == key;
    assert(pool.checks_page(i, free, explicit, cleaned));
    stale_key_finds_nothing(cleaned.pages().generations(), later.pages(), key);
}

/// Whether `after` is `before` with one more page.
pub open spec fn exclusive_adds(before: ExclusiveMemoryPool, after: ExclusiveMemoryPool) -> bool {
    exists|key: PageKey, page: MemoryPage| #[trigger]
        before.adds_page(key, page, after)
}

/// Whether `after` is `before` cleaned up, and no page has gone whose slot has had its last
/// generation.
pub open spec fn exclusive_cleans(before: ExclusiveMemoryPool, after: ExclusiveMemoryPool) -> bool {
    exists|free: Seq<bool>, alloc_nr: u64, explicit: bool| #[trigger]
        before.checks(free, alloc_nr, explicit, after) && forall|i: int| #![trigger before.pages().keys()[i]]
            0 <= i < before.pages().keys().len() && is_given_up(
                before.pages().values()[i],
                free[i],
                explicit,
            ) ==> before.pages().keys()[i].generation() < u32::MAX
}

/// Whether one operation on an exclusive pool can make `after` of `before`: the pages stay, or one
/// is added, or some go, but none whose slot has had its last generation.
pub open spec fn exclusive_step(before: ExclusiveMemoryPool, after: ExclusiveMemoryPool) -> bool {
    ||| after.same_keys(before)
    ||| exclusive_adds(before, after)
    ||| exclusive_cleans(before, after)
}

/// To bind and to allocate are such operations, whatever comes of them. (To reserve is one,
/// too: the pages stay.)
pub proof fn exclusive_operations_are_steps(
    pool: ExclusiveMemoryPool,
    location: MemoryLocation,
    assigned: ManagedMemoryHandle,
    cursor: u64,
    after_bind: ExclusiveMemoryPool,
    bind_result: Result<(), IoError>,
    reply: Result<StorageHandle, IoError>,
    size: u64,
    alloc_size: u64,
    ids: MemoryIds,
    after_allocate: ExclusiveMemoryPool,
    ids_after: MemoryIds,
    allocate_result: Result<ManagedMemoryHandle, IoError>,
)
    ensures
        pool.binds(location, assigned, cursor, after_bind, bind_result) ==> exclusive_step(
            pool,
            after_bind,
        ),
        pool.allocates(reply, size, alloc_size, ids, after_allocate, ids_after, allocate_result)
            ==> exclusive_step(pool, after_allocate),
{
    if pool.allocates(reply, size, alloc_size, ids, after_allocate, ids_after, allocate_result)
        && reply is Ok {
        let key = choose|key: PageKey| #[trigger]
            pool.allocates_on(
                key,
                reply->Ok_0,
                size,
                alloc_size,
                ids,
                after_allocate,
                ids_after,
                allocate_result->Ok_0,
            );
        assert(pool.adds_page(
            key,
            pool.new_page(reply->Ok_0, allocate_result->Ok_0, size, alloc_size),
            after_allocate,
        ));
    }
}

/// Once a page of an exclusive pool has gone, a location on it is not found again, whatever
/// operations follow and whatever page is in its slot by then.
pub proof fn exclusive_page_that_went_is_never_found(
    states: Seq<ExclusiveMemoryPool>,
    location: MemoryLocation,
    found: Result<&Slice, IoError>,
)
    requires
        states.len() > 1,
        forall|n: int| #![trigger states[n]] 0 <= n < states.len() ==> states[n].wf(),
        forall|n: int, m: int| #![trigger states[n], states[m]]
            0 <= n && m == n + 1 && m < states.len() ==> exclusive_step(states[n], states[m]),
        states[0].pages().lookup(location.page) is Some,
        states[1].pages().lookup(location.page) is None,
        states.last().finds(location, found),
    ensures
        found is Err,
        found->Err_0 == (IoError::NotFound { page: location.page }),
{
    let key = location.page;
    states[0].pages().lemma_keys();
    states[1].pages().lemma_keys();
    assert(exclusive_step(states[0], states[1]));
    if states[1].same_keys(states[0]) {
        assert(states[0].pages().keys().contains(key));
        assert(states[1].pages().keys().contains(key));
        let i = choose|i: int| 0 <= i < states[1].pages().keys().len()
            && states[1].pages().keys()[i] == key;
        assert(states[1].pages().lookup(states[1].pages().keys()[i]) is Some);
    } else if exclusive_adds(states[0], states[1]) {
        let (added, page) = choose|added: PageKey, page: MemoryPage| #[trigger]
            states[0].adds_page(added, page, states[1]);
        assert(states[1].pages().lookup(key) is None);
    } else {
        let (free, alloc_nr, explicit) = choose|free: Seq<bool>, alloc_nr: u64, explicit: bool| #[trigger]
            states[0].checks(free, alloc_nr, explicit, states[1]) && forall|i: int|
                #![trigger states[0].pages().keys()[i]]
                0 <= i < states[0].pages().keys().len() && is_given_up(
                    states[0].pages().values()[i],
                    free[i],
                    explicit,
                ) ==> states[0].pages().keys()[i].generation() < u32::MAX;
        exclusive_cleanup_advances(states[0], free, alloc_nr, explicit, states[1]);
    }
    assert(is_stale(states[1].pages().generations(), key));
    lemma_exclusive_steps_advance(states, states.len() - 1);
    stale_key_finds_nothing(states[1].pages().generations(), states.last().pages(), key);
}

proof fn lemma_exclusive_steps_advance(states: Seq<ExclusiveMemoryPool>, n: int)
    requires
        1 <= n < states.len(),
        forall|n: int| #![trigger states[n]] 0 <= n < states.len() ==> states[n].wf(),
        forall|n: int, m: int| #![trigger states[n], states[m]]
            0 <= n && m == n + 1 && m < states.len() ==> exclusive_step(states[n], states[m]),
    ensures
        generations_advance(states[1].pages().generations(), states[n].pages().generations()),
    decreases n,
{
    if n > 1 {
        let m = n - 1;
        lemma_exclusive_steps_advance(states, m);
        assert(exclusive_step(states[m], states[n]));
        if exclusive_cleans(states[m], states[n]) {
            let (free, alloc_nr, explicit) = choose|free: Seq<bool>, alloc_nr: u64, explicit: bool| #[trigger]
                states[m].checks(free, alloc_nr, explicit, states[n]) && forall|i: int|
                    #![trigger states[m].pages().keys()[i]]
                    0 <= i < states[m].pages().keys().len() && is_given_up(
                        states[m].pages().values()[i],
                        free[i],
                        explicit,
                    ) ==> states[m].pages().keys()[i].generation() < u32::MAX;
            exclusive_cleanup_advances(states[m], free, alloc_nr, explicit, states[n]);
        }
        assert(generations_advance(
            states[m].pages().generations(),
            states[n].pages().generations(),
        ));
        advancing_is_transitive(
            states[1].pages().generations(),
            states[m].pages().generations(),
            states[n].pages().generations(),
        );
    }
}

/// Whether one operation on an exclusive pool can make `after` of `before`: the pages stay, or one
/// is added, or some go.
pub open spec fn exclusive_operation(before: ExclusiveMemoryPool, after: ExclusiveMemoryPool) -> bool {
    ||| after.same_keys(before)
    ||| exclusive_adds(before, after)
    ||| exists|free: Seq<bool>, alloc_nr: u64, explicit: bool| #[trigger]
        before.checks(free, alloc_nr, explicit, after)
}

/// Whether `states` are those of an exclusive pool, the new one first, each made of the one before
/// it by an operation.
pub open spec fn exclusive_run(states: Seq<ExclusiveMemoryPool>) -> bool {
    &&& states.len() > 0
    &&& states[0].pages().generations() == seq![0u32]
    &&& forall|n: int| #![trigger states[n]] 0 <= n < states.len() ==> states[n].wf()
    &&& forall|n: int, m: int| #![trigger states[n], states[m]]
        0 <= n && m == n + 1 && m < states.len() ==> exclusive_operation(states[n], states[m])
}

/// Every operation on an exclusive pool moves a slot on by at most one generation, so in a run of
/// fewer than 2^32 - 1 operations no slot has its last generation, and none starts anew.
pub proof fn exclusive_generations_are_counted(states: Seq<ExclusiveMemoryPool>, n: int)
    requires
        exclusive_run(states),
        states.len() <= u32::MAX,
        0 <= n < states.len(),
    ensures
        forall|slot: int| #![trigger states[n].pages().generations()[slot]]
            0 <= slot < states[n].pages().generations().len()
                ==> states[n].pages().generations()[slot] <= n,
        n + 1 < states.len() ==> exclusive_step(states[n], states[n + 1]),
    decreases n,
{
    let later = states[n].pages().generations();
    if n > 0 {
        let m = n - 1;
        let before = states[m].pages().generations();
        exclusive_generations_are_counted(states, m);
        states[m].pages().lemma_keys();
        assert(exclusive_operation(states[m], states[n]));
        assert forall|slot: int| 0 <= slot < later.len() implies #[trigger] later[slot] <= n by {
            if states[n].same_keys(states[m]) {
                assert(before[slot] <= m);
            } else if exclusive_adds(states[m], states[n]) {
                let (key, page) = choose|key: PageKey, page: MemoryPage| #[trigger]
                    states[m].adds_page(key, page, states[n]);
                if slot < before.len() {
                    assert(before[slot] <= m);
                }
            } else {
                let (free, alloc_nr, explicit) = choose|
                    free: Seq<bool>,
                    alloc_nr: u64,
                    explicit: bool,
                | #[trigger]
                    states[m].checks(free, alloc_nr, explicit, states[n]);
                assert(before[slot] <= m);
                if states[m].has_page_in(slot) {
                    let i = choose|i: int|
                        0 <= i < states[m].pages().keys().len()
                            && (#[trigger] states[m].pages().keys()[i]).slot() == slot;
                    assert(states[m].checks_page(i, free, explicit, states[n]));
                } else {
                    assert(later[slot] == before[slot]);
                }
            }
        }
    }
    if n + 1 < states.len() {
        let next = states[n + 1];
        states[n].pages().lemma_keys();
        assert(exclusive_operation(states[n], next));
        if !next.same_keys(states[n]) && !exclusive_adds(states[n], next) {
            let (free, alloc_nr, explicit) = choose|
                free: Seq<bool>,
                alloc_nr: u64,
                explicit: bool,
            | #[trigger]
                states[n].checks(free, alloc_nr, explicit, next);
            assert forall|i: int| #![trigger states[n].pages().keys()[i]]
                0 <= i < states[n].pages().keys().len() && is_given_up(
                    states[n].pages().values()[i],
                    free[i],
                    explicit,
                ) implies states[n].pages().keys()[i].generation() < u32::MAX by {
                assert(later[states[n].pages().keys()[i].slot()] <= n);
            }
            assert(exclusive_cleans(states[n], next));
        }
    }
}

/// Once a page of an exclusive pool has gone, a location on it is not found again in any run of
/// fewer than 2^32 - 1 operations.
pub proof fn exclusive_run_never_finds_a_page_that_went(
    states: Seq<ExclusiveMemoryPool>,
    n: int,
    location: MemoryLocation,
    found: Result<&Slice, IoError>,
)
    requires
        exclusive_run(states),
        states.len() <= u32::MAX,
        0 <= n < states.len() - 1,
        states[n].pages().lookup(location.page) is Some,
        states[n + 1].pages().lookup(location.page) is None,
        states.last().finds(location, found),
    ensures
        found is Err,
        found->Err_0 == (IoError::NotFound { page: location.page }),
{
    let rest = states.skip(n);
    assert forall|a: int, b: int| #![trigger rest[a], rest[b]]
        0 <= a && b == a + 1 && b < rest.len() implies exclusive_step(rest[a], rest[b]) by {
        exclusive_generations_are_counted(states, n + a);
    }
    assert(rest.last() == states.last());
    exclusive_page_that_went_is_never_found(rest, location, found);
}

/// A binding none of whose locations names a page of the pool is not found.
pub proof fn exclusive_lost_binding_is_not_found(
    pool: ExclusiveMemoryPool,
    binding: ManagedMemoryBinding,
    found: Result<&Slice, IoError>,
)
    requires
        exists|location: MemoryLocation| #[trigger]
            binding.shared().locations().contains(location) && pool.finds(location, found),
        forall|location: MemoryLocation| #[trigger]
            binding.shared().locations().contains(location) ==> pool.pages().lookup(
                location.page,
            ) is None,
    ensures
        found is Err,
        found->Err_0 is NotFound,
{
}

/// A page of an exclusive pool that is in use survives a cleanup as it is, under its key.
pub proof fn exclusive_page_in_use_survives(
    pool: ExclusiveMemoryPool,
    free: Seq<bool>,
    alloc_nr: u64,
    explicit: bool,
    after: ExclusiveMemoryPool,
    i: int,
)
    requires
        pool.wf(),
        pool.checks(free, alloc_nr, explicit, after),
        0 <= i < pool.pages().keys().len(),
        !free[i],
    ensures
        after.pages().lookup(pool.pages().keys()[i]) == Some(pool.pages().values()[i]),
{
    assert(pool.checks_page(i, free, explicit, after));
}

/// A cleanup that was asked for leaves no free page behind.
pub proof fn exclusive_explicit_cleanup_keeps_only_pages_in_use(
    pool: ExclusiveMemoryPool,
    free: Seq<bool>,
    alloc_nr: u64,
    after: ExclusiveMemoryPool,
    i: int,
)
    requires
        pool.wf(),
        pool.checks(free, alloc_nr, true, after),
        0 <= i < pool.pages().keys().len(),
    ensures
        after.pages().lookup(pool.pages().keys()[i]) is Some <==> !free[i],
{
    assert(pool.checks_page(i, free, true, after));
}

/// Whether `after[n]` is what the `n`-th of some checks makes of `before[n]`, each finds the
/// page that `key` names free, if it is there, and between two checks the page is left alone.
pub open spec fn finds_free_each_time(
    before: Seq<ExclusiveMemoryPool>,
    free: Seq<Seq<bool>>,
    alloc_nrs: Seq<u64>,
    explicit: Seq<bool>,
    after: Seq<ExclusiveMemoryPool>,
    key: PageKey,
) -> bool {
    &&& before.len() == after.len()
    &&& forall|n: int| #![trigger before[n]]
        0 <= n < before.len() ==> {
            &&& before[n].wf()
            &&& before[n].checks(free[n], alloc_nrs[n], explicit[n], after[n])
            &&& forall|i: int| #![trigger before[n].pages().keys()[i]]
                0 <= i < before[n].pages().keys().len() && before[n].pages().keys()[i] == key
                    ==> free[n][i]
        }
    &&& forall|n: int, m: int| #![trigger after[n], before[m]]
        0 <= n && m == n + 1 && m < before.len() ==> {
            &&& before[m].pages().lookup(key) == after[n].pages().lookup(key)
            &&& before[m].same_pool(after[n])
            &&& before[m].last_dealloc_check() == after[n].last_dealloc_check()
        }
}

/// A page that is found free by as many checks as it takes, and left alone between them, has
/// gone after them. If each of them came no later than it was due, that was within the
/// deallocation period.
pub proof fn exclusive_unused_page_goes(
    before: Seq<ExclusiveMemoryPool>,
    free: Seq<Seq<bool>>,
    alloc_nrs: Seq<u64>,
    explicit: Seq<bool>,
    after: Seq<ExclusiveMemoryPool>,
    key: PageKey,
)
    requires
        finds_free_each_time(before, free, alloc_nrs, explicit, after, key),
        before.len() == ALLOC_AFTER_FREE,
    ensures
        after[ALLOC_AFTER_FREE - 1].pages().lookup(key) is None,
        (forall|n: int| #![trigger alloc_nrs[n]]
            0 <= n < before.len() ==> alloc_nrs[n] <= before[n].last_dealloc_check()
                + before[n].check_period()) ==> alloc_nrs[ALLOC_AFTER_FREE - 1]
            <= before[0].last_dealloc_check() + before[0].dealloc_period(),
{
    let last = ALLOC_AFTER_FREE - 1;
    lemma_free_count_grows(before, free, alloc_nrs, explicit, after, key, last);
    lemma_page_found_free(before[last], free[last], alloc_nrs[last], explicit[last], after[last], key);
    if forall|n: int| #![trigger alloc_nrs[n]]
        0 <= n < before.len() ==> alloc_nrs[n] <= before[n].last_dealloc_check()
            + before[n].check_period() {
        lemma_checks_in_time(before, free, alloc_nrs, explicit, after, key, last);
        let period = before[0].dealloc_period();
        assert(5 * (period / 5) <= period);
    }
}

/// A check that finds a page free gives it up or counts that.
proof fn lemma_page_found_free(
    before: ExclusiveMemoryPool,
    free: Seq<bool>,
    alloc_nr: u64,
    explicit: bool,
    after: ExclusiveMemoryPool,
    key: PageKey,
)
    requires
        before.wf(),
        before.checks(free, alloc_nr, explicit, after),
        forall|i: int| #![trigger before.pages().keys()[i]]
            0 <= i < before.pages().keys().len() && before.pages().keys()[i] == key ==> free[i],
    ensures
        after.pages().lookup(key) is Some ==> {
            &&& before.pages().lookup(key) is Some
            &&& after.page(key).free_count == before.page(key).free_count + 1
            &&& after.page(key).free_count < ALLOC_AFTER_FREE
        },
{
    before.pages().lemma_keys();
    if after.pages().lookup(key) is Some {
        assert(before.pages().lookup(key) is Some);
        assert(before.pages().keys().contains(key));
        let i = choose|i: int|
            0 <= i < before.pages().keys().len() && before.pages().keys()[i] == key;
        assert(before.checks_page(i, free, explicit, after));
        assert(before.admits(before.page(key)));
    }
}

/// The `n`-th check finds a page that was found free `n` times.
proof fn lemma_free_count_grows(
    before: Seq<ExclusiveMemoryPool>,
    free: Seq<Seq<bool>>,
    alloc_nrs: Seq<u64>,
    explicit: Seq<bool>,
    after: Seq<ExclusiveMemoryPool>,
    key: PageKey,
    n: int,
)
    requires
        finds_free_each_time(before, free, alloc_nrs, explicit, after, key),
        0 <= n < before.len(),
    ensures
        before[n].pages().lookup(key) is Some ==> before[n].page(key).free_count >= n,
    decreases n,
{
    if n > 0 {
        let m = n - 1;
        lemma_free_count_grows(before, free, alloc_nrs, explicit, after, key, m);
        lemma_page_found_free(before[m], free[m], alloc_nrs[m], explicit[m], after[m], key);
        assert(before[n].pages().lookup(key) == after[m].pages().lookup(key));
    }
}

/// Where no check is late, the `n`-th comes after at most `n + 1` check periods.
proof fn lemma_checks_in_time(
    before: Seq<ExclusiveMemoryPool>,
    free: Seq<Seq<bool>>,
    alloc_nrs: Seq<u64>,
    explicit: Seq<bool>,
    after: Seq<ExclusiveMemoryPool>,
    key: PageKey,
    n: int,
)
    requires
        finds_free_each_time(before, free, alloc_nrs, explicit, after, key),
        0 <= n < before.len(),
        forall|n: int| #![trigger alloc_nrs[n]]
            0 <= n < before.len() ==> alloc_nrs[n] <= before[n].last_dealloc_check()
                + before[n].check_period(),
    ensures
        before[n].same_pool(before[0]),
        alloc_nrs[n] <= before[0].last_dealloc_check() + (n + 1) * before[0].check_period(),
    decreases n,
{
    let step = before[0].check_period() as int;
    assert((n + 1) * step == n * step + step) by (nonlinear_arith);
    assert(alloc_nrs[n] <= before[n].last_dealloc_check() + before[n].check_period());
    if n > 0 {
        let m = n - 1;
        lemma_checks_in_time(before, free, alloc_nrs, explicit, after, key, m);
        assert(before[m].checks(free[m], alloc_nrs[m], explicit[m], after[m]));
        assert(before[n].same_pool(after[m]));
    }
}

/// A cleanup is due once the check period has passed since the last check, and not before;
/// as many checks as it takes to give a page up fit into the deallocation period.
pub proof fn exclusive_checks_fit_the_period(pool: ExclusiveMemoryPool, alloc_nr: u64)
    requires
        alloc_nr >= pool.last_dealloc_check(),
    ensures
        pool.is_due(alloc_nr, false) <==> alloc_nr >= pool.last_dealloc_check()
            + pool.check_period(),
        ALLOC_AFTER_FREE * pool.check_period() <= pool.dealloc_period(),
{
    let period = pool.dealloc_period();
    assert(5 * (period / 5) <= period);
    assert(pool.check_period() == period / 5);
}

/// Looking up what was bound gives back the page's slice under the handle and the cursor it
/// was bound with; what is found elsewhere stays.
pub proof fn exclusive_bind_then_find(
    pool: ExclusiveMemoryPool,
    location: MemoryLocation,
    assigned: ManagedMemoryHandle,
    cursor: u64,
    after: ExclusiveMemoryPool,
    result: Result<(), IoError>,
    before_found: Result<&Slice, IoError>,
    found: Result<&Slice, IoError>,
    other: MemoryLocation,
    other_found: Result<&Slice, IoError>,
)
    requires
        pool.binds(location, assigned, cursor, after, result),
        pool.finds(location, before_found),
        after.finds(location, found),
        other.page != location.page,
        pool.finds(other, other_found),
    ensures
        result is Ok <==> before_found is Ok,
        result is Ok ==> {
            &&& found is Ok
            &&& found->Ok_0.handle == assigned
            &&& found->Ok_0.cursor == cursor
            &&& found->Ok_0.storage == before_found->Ok_0.storage
            &&& found->Ok_0.padding == before_found->Ok_0.padding
        },
        result is Err ==> found is Err && found->Err_0 == result->Err_0,
        after.finds(other, other_found),
{
}

/// Looking up what was allocated gives back a slice of the size asked for, under the handle
/// that was handed out, at the location that the handle has been told; and what could be
/// found before is found as before.
pub proof fn exclusive_allocate_then_find(
    pool: ExclusiveMemoryPool,
    key: PageKey,
    storage: StorageHandle,
    size: u64,
    alloc_size: u64,
    ids: MemoryIds,
    after: ExclusiveMemoryPool,
    ids_after: MemoryIds,
    handle: ManagedMemoryHandle,
    found: Result<&Slice, IoError>,
    other: MemoryLocation,
    other_found: Result<&Slice, IoError>,
)
    requires
        pool.allocates_on(key, storage, size, alloc_size, ids, after, ids_after, handle),
        after.finds(pool.location_on(key), found),
        pool.finds(other, other_found),
        other_found is Ok,
    ensures
        handle.shared().locations().contains(pool.location_on(key)),
        found is Ok,
        found->Ok_0.handle == handle,
        found->Ok_0.storage.id == storage.id,
        found->Ok_0.storage.utilization.size == size,
        after.finds(other, other_found),
{
}

/// A page that is reserved was free, is large enough, and is from then on in use for exactly
/// the bytes asked for; its key and all other pages stay.
pub proof fn exclusive_reserves_a_free_page(
    pool: ExclusiveMemoryPool,
    free: Seq<bool>,
    size: u64,
    after: ExclusiveMemoryPool,
    handle: ManagedMemoryHandle,
)
    requires
        pool.wf(),
        pool.reserves(free, size, after, Some(handle)),
    ensures
        exists|i: int| {
            &&& #[trigger] pool.suits(i, free, size)
            &&& free[i]
            &&& size <= pool.pages().values()[i].alloc_size
            &&& after.pages().values()[i].slice.handle == handle
            &&& after.pages().values()[i].slice.storage.utilization.size == size
            &&& after.pages().values()[i].alloc_size == pool.pages().values()[i].alloc_size
            &&& forall|j: int| #![trigger after.pages().values()[j]]
                0 <= j < pool.pages().keys().len() && j != i ==> after.pages().values()[j]
                    == pool.pages().values()[j]
        },
        after.pages().keys() == pool.pages().keys(),
{
    let i = choose|i: int| #[trigger]
        pool.prefers(i, free, size) && handle == pool.pages().values()[i].slice.handle
            && after.pages().values() == pool.pages().values().update(
            i,
            reused(
                pool.pages().values()[i],
                size,
                padding(size as int, pool.alignment() as int) as u64,
            ),
        );
    assert(pool.suits(i, free, size));
}

/// What is in use in an exclusive pool, and its padding, is never more than what is reserved.
pub proof fn exclusive_usage_is_within_reserved(
    pool: ExclusiveMemoryPool,
    free: Seq<bool>,
    usage: MemoryUsage,
)
    requires
        pool.wf(),
        free.len() == pool.pages().keys().len(),
        pool.uses(free, usage),
    ensures
        usage.bytes_in_use + usage.bytes_padding <= usage.bytes_reserved,
        usage.number_allocs <= pool.pages().keys().len(),
{
    lemma_exclusive_usage(pool, free, free.len() as int);
    assert(pool.pages().values().take(free.len() as int) =~= pool.pages().values());
}

proof fn lemma_exclusive_usage(pool: ExclusiveMemoryPool, free: Seq<bool>, n: int)
    requires
        pool.wf(),
        free.len() == pool.pages().keys().len(),
        0 <= n <= free.len(),
    ensures
        sum_used(pool.pages().values(), free, usable(), n) + sum_used(
            pool.pages().values(),
            free,
            padded(),
            n,
        ) <= total(pool.pages().values().take(n)),
        sum_used(pool.pages().values(), free, one(), n) <= n,
    decreases n,
{
    if n > 0 {
        let pages = pool.pages().values();
        lemma_exclusive_usage(pool, free, n - 1);
        pool.pages().lemma_keys();
        assert(pool.pages().lookup(pool.pages().keys()[n - 1]) is Some);
        assert(pages.take(n).drop_last() =~= pages.take(n - 1));
    }
}

/// A cleanup of an exclusive pool keeps no more bytes than there were.
pub proof fn exclusive_cleanup_keeps_no_more(
    pool: ExclusiveMemoryPool,
    free: Seq<bool>,
    alloc_nr: u64,
    explicit: bool,
    after: ExclusiveMemoryPool,
)
    requires
        pool.wf(),
        free.len() == pool.pages().keys().len(),
        pool.checks(free, alloc_nr, explicit, after),
    ensures
        after.bytes_reserved() <= pool.bytes_reserved(),
{
    let count = pool.pages().keys().len() as int;
    lemma_survivors_bytes(pool, free, alloc_nr, explicit, after, count);
    assert(pool.pages().values().take(count) =~= pool.pages().values());
    assert(after.pages().values() =~= pages_of(after, after.pages().keys()));
}

/// The pages that `keys` name.
pub open spec fn pages_of(pool: ExclusiveMemoryPool, keys: Seq<PageKey>) -> Seq<MemoryPage> {
    Seq::new(keys.len(), |i: int| pool.page(keys[i]))
}

proof fn lemma_survivors_bytes(
    pool: ExclusiveMemoryPool,
    free: Seq<bool>,
    alloc_nr: u64,
    explicit: bool,
    after: ExclusiveMemoryPool,
    n: int,
)
    requires
        pool.wf(),
        free.len() == pool.pages().keys().len(),
        pool.checks(free, alloc_nr, explicit, after),
        0 <= n <= free.len(),
    ensures
        total(pages_of(after, pool.survivors(free, explicit, n))) <= total(
            pool.pages().values().take(n),
        ),
    decreases n,
{
    if n > 0 {
        let pages = pool.pages().values();
        let kept = pool.survivors(free, explicit, n - 1);
        lemma_survivors_bytes(pool, free, alloc_nr, explicit, after, n - 1);
        assert(pages.take(n).drop_last() =~= pages.take(n - 1));
        let key = pool.pages().keys()[n - 1];
        assert(pool.checks_page(n - 1, free, explicit, after));
        if !is_given_up(pages[n - 1], free[n - 1], explicit) {
            assert(pages_of(after, kept.push(key)).drop_last() =~= pages_of(after, kept));
        }
    } else {
        assert(pages_of(after, pool.survivors(free, explicit, n)) =~= Seq::empty());
    }
}

/// Reserving a page of an exclusive pool changes nothing about the bytes that it holds.
pub proof fn exclusive_reserve_keeps_bytes(
    pool: ExclusiveMemoryPool,
    free: Seq<bool>,
    size: u64,
    after: ExclusiveMemoryPool,
    handle: Option<ManagedMemoryHandle>,
)
    requires
        pool.reserves(free, size, after, handle),
    ensures
        after.bytes_reserved() == pool.bytes_reserved(),
{
    let pages = pool.pages().values();
    let pages_after = after.pages().values();
    assert(pages_after.len() == pages.len());
    assert forall|i: int| 0 <= i < pages.len() implies (#[trigger] pages_after[i]).alloc_size
        == pages[i].alloc_size by {
    }
    lemma_total_of_same_sizes(pages, pages_after);
}

proof fn lemma_total_of_same_sizes(a: Seq<MemoryPage>, b: Seq<MemoryPage>)
    requires
        a.len() == b.len(),
        forall|i: int| #![trigger b[i]] 0 <= i < a.len() ==> b[i].alloc_size == a[i].alloc_size,
    ensures
        total(a) == total(b),
    decreases a.len(),
{
    if a.len() > 0 {
        assert(b[b.len() - 1].alloc_size == a[a.len() - 1].alloc_size);
        assert forall|i: int| 0 <= i < a.len() - 1 implies (#[trigger] b.drop_last()[i]).alloc_size
            == a.drop_last()[i].alloc_size by {
            assert(b[i].alloc_size == a[i].alloc_size);
        }
        lemma_total_of_same_sizes(a.drop_last(), b.drop_last());
    }
}

/// A size that an exclusive pool accepts is allocated on a page that is no larger than the
/// largest allocation, unless requests are larger than that on average.
pub proof fn exclusive_accepted_size_fits_a_page(
    pool: ExclusiveMemoryPool,
    size: u64,
    average: u64,
)
    requires
        pool.wf(),
        size <= pool.max_alloc_size(),
        average <= pool.max_alloc_size(),
    ensures
        pool.page_size_for(size, average) <= pool.max_alloc_size(),
{
    let alignment = pool.alignment() as int;
    lemma_aligned(size as int, alignment);
    lemma_aligned(average as int, alignment);
    assert((pool.max_alloc_size() as int) % alignment == 0);
}

/// What is in use in an exclusive pool, with its padding, and what is reserved are multiples of
/// the alignment.
pub proof fn exclusive_usage_is_aligned(
    pool: ExclusiveMemoryPool,
    free: Seq<bool>,
    usage: MemoryUsage,
)
    requires
        pool.wf(),
        free.len() == pool.pages().keys().len(),
        pool.uses(free, usage),
    ensures
        (usage.bytes_in_use + usage.bytes_padding) % (pool.alignment() as int) == 0,
        usage.bytes_reserved % pool.alignment() == 0,
{
    lemma_exclusive_usage_is_aligned(pool, free, free.len() as int);
    assert(pool.pages().values().take(free.len() as int) =~= pool.pages().values());
}

proof fn lemma_exclusive_usage_is_aligned(pool: ExclusiveMemoryPool, free: Seq<bool>, n: int)
    requires
        pool.wf(),
        free.len() == pool.pages().keys().len(),
        0 <= n <= free.len(),
    ensures
        (sum_used(pool.pages().values(), free, usable(), n) + sum_used(
            pool.pages().values(),
            free,
            padded(),
            n,
        )) % (pool.alignment() as int) == 0,
        total(pool.pages().values().take(n)) % (pool.alignment() as int) == 0,
    decreases n,
{
    if n > 0 {
        let alignment = pool.alignment() as int;
        let pages = pool.pages().values();
        lemma_exclusive_usage_is_aligned(pool, free, n - 1);
        pool.pages().lemma_keys();
        assert(pool.pages().lookup(pool.pages().keys()[n - 1]) is Some);
        assert(pool.admits(pages[n - 1]));
        assert(pages.take(n).drop_last() =~= pages.take(n - 1));
        assert((pages[n - 1].alloc_size as int) % alignment == 0);
        lemma_aligned_sum(total(pages.take(n - 1)), pages[n - 1].alloc_size as int, alignment);
        lemma_aligned_sum(
            sum_used(pages, free, usable(), n - 1) + sum_used(
                pages,
                free,
                padded(),
                n - 1,
            ),
            pages[n - 1].slice.room(),
            alignment,
        );
    }
}

/// How many of some calls on a storage give back what `id` names.
pub open spec fn deallocs_of(calls: Seq<StorageCall>, id: StorageId) -> nat
    decreases calls.len(),
{
    if calls.len() == 0 {
        0
    } else {
        deallocs_of(calls.drop_last(), id) + if calls.last() == (StorageCall::Dealloc { id }) {
            1nat
        } else {
            0nat
        }
    }
}

/// Whether no page of the pool but the one that `key` names is on the storage that `id` names.
pub open spec fn no_other_is_on(pool: ExclusiveMemoryPool, key: PageKey, id: StorageId) -> bool {
    forall|i: int| #![trigger pool.pages().keys()[i]]
        0 <= i < pool.pages().keys().len() && pool.pages().keys()[i] != key
            ==> pool.pages().values()[i].slice.storage.id != id
}

/// Whether a check that finds the pages as `free` says gives up the page that `key` names.
pub open spec fn gives_up(
    pool: ExclusiveMemoryPool,
    free: Seq<bool>,
    explicit: bool,
    key: PageKey,
) -> bool {
    exists|i: int| #![trigger pool.pages().keys()[i]]
        0 <= i < pool.pages().keys().len() && pool.pages().keys()[i] == key && is_given_up(
            pool.pages().values()[i],
            free[i],
            explicit,
        )
}

/// A check gives a page back to the storage once, if it gives it up, and not at all otherwise.
pub proof fn exclusive_page_is_deallocated_once(
    pool: ExclusiveMemoryPool,
    free: Seq<bool>,
    explicit: bool,
    key: PageKey,
    id: StorageId,
)
    requires
        pool.wf(),
        pool.pages().lookup(key) is Some ==> pool.page(key).slice.storage.id == id,
        no_other_is_on(pool, key, id),
    ensures
        deallocs_of(pool.releases(free, explicit, pool.pages().keys().len() as int), id) == if gives_up(
            pool,
            free,
            explicit,
            key,
        ) {
            1nat
        } else {
            0nat
        },
{
    let count = pool.pages().keys().len() as int;
    pool.pages().lemma_keys();
    if exists|i: int| 0 <= i < count && #[trigger] pool.pages().keys()[i] == key {
        let place = choose|i: int| 0 <= i < count && #[trigger] pool.pages().keys()[i] == key;
        lemma_deallocs_of(pool, free, explicit, id, place, count);
        assert(pool.pages().lookup(pool.pages().keys()[place]) is Some);
        assert forall|i: int| #![trigger pool.pages().keys()[i]]
            0 <= i < count && pool.pages().keys()[i] == key implies i == place by {
            if i < place {
                assert(pool.pages().keys()[i].slot() < pool.pages().keys()[place].slot());
            } else if place < i {
                assert(pool.pages().keys()[place].slot() < pool.pages().keys()[i].slot());
            }
        }
    } else {
        lemma_deallocs_of(pool, free, explicit, id, count, count);
    }
}

/// Of the first `n` pages, only the one at `place` is on the storage that `id` names.
proof fn lemma_deallocs_of(
    pool: ExclusiveMemoryPool,
    free: Seq<bool>,
    explicit: bool,
    id: StorageId,
    place: int,
    n: int,
)
    requires
        0 <= n <= pool.pages().keys().len(),
        forall|i: int| #![trigger pool.pages().keys()[i]]
            0 <= i < pool.pages().keys().len() ==> (pool.pages().values()[i].slice.storage.id == id
                <==> i == place),
    ensures
        deallocs_of(pool.releases(free, explicit, n), id) == if place < n && 0 <= place
            && is_given_up(pool.pages().values()[place], free[place], explicit) {
            1nat
        } else {
            0nat
        },
    decreases n,
{
    if n > 0 {
        lemma_deallocs_of(pool, free, explicit, id, place, n - 1);
        if is_given_up(pool.pages().values()[n - 1], free[n - 1], explicit) {
            assert(pool.releases(free, explicit, n).drop_last() =~= pool.releases(
                free,
                explicit,
                n - 1,
            ));
        }
    }
}

/// Whether `after[n]` is what the `n`-th of some reservations makes of `before[n]`, each takes
/// the page that `key` names, and between two reservations the page is left alone.
pub open spec fn takes_each_time(
    before: Seq<ExclusiveMemoryPool>,
    free: Seq<Seq<bool>>,
    sizes: Seq<u64>,
    handles: Seq<ManagedMemoryHandle>,
    after: Seq<ExclusiveMemoryPool>,
    key: PageKey,
) -> bool {
    &&& before.len() == after.len()
    &&& forall|n: int| #![trigger before[n]]
        0 <= n < before.len() ==> {
            &&& before[n].wf()
            &&& after[n].wf()
            &&& before[n].reserves(free[n], sizes[n], after[n], Some(handles[n]))
            &&& exists|i: int| #[trigger]
                before[n].prefers(i, free[n], sizes[n]) && before[n].pages().keys()[i] == key
        }
    &&& forall|n: int, m: int| #![trigger after[n], before[m]]
        0 <= n && m == n + 1 && m < before.len() ==> before[m].pages().lookup(key)
            == after[n].pages().lookup(key)
}

/// How many checks that find it free a page survives once it has been taken again `uses` times
/// since it was allocated.
pub open spec fn checks_survived(uses: nat) -> nat {
    if uses < 4 {
        uses
    } else {
        4
    }
}

/// A page that is allocated, then taken again a number of times, and then found free by one check
/// after the other, survives as many of these checks as it was taken again, but at most four; the
/// next one gives it up, and gives it back to the storage once.
pub proof fn exclusive_page_survives_as_many_checks_as_uses(
    pool: ExclusiveMemoryPool,
    key: PageKey,
    storage: StorageHandle,
    size: u64,
    alloc_size: u64,
    ids: MemoryIds,
    allocated: ExclusiveMemoryPool,
    ids_after: MemoryIds,
    handle: ManagedMemoryHandle,
    used: Seq<ExclusiveMemoryPool>,
    used_free: Seq<Seq<bool>>,
    sizes: Seq<u64>,
    handles: Seq<ManagedMemoryHandle>,
    used_after: Seq<ExclusiveMemoryPool>,
    before: Seq<ExclusiveMemoryPool>,
    free: Seq<Seq<bool>>,
    alloc_nrs: Seq<u64>,
    explicit: Seq<bool>,
    after: Seq<ExclusiveMemoryPool>,
    n: int,
)
    requires
        pool.allocates_on(key, storage, size, alloc_size, ids, allocated, ids_after, handle),
        takes_each_time(used, used_free, sizes, handles, used_after, key),
        used.len() > 0 ==> used[0].pages().lookup(key) == allocated.pages().lookup(key),
        finds_free_each_time(before, free, alloc_nrs, explicit, after, key),
        before[0].pages().lookup(key) == if used.len() == 0 {
            allocated.pages().lookup(key)
        } else {
            used_after.last().pages().lookup(key)
        },
        forall|i: int| #![trigger explicit[i]] 0 <= i < before.len() ==> !explicit[i],
        0 <= n < before.len(),
    ensures
        after[n].pages().lookup(key) is Some <==> n < checks_survived(used.len()),
        gives_up(before[n], free[n], explicit[n], key) <==> n == checks_survived(used.len()),
        no_other_is_on(before[n], key, storage.id) ==> deallocs_of(
            before[n].releases(free[n], explicit[n], before[n].pages().keys().len() as int),
            storage.id,
        ) == if n == checks_survived(used.len()) {
            1nat
        } else {
            0nat
        },
{
    let start = if used.len() == 0 {
        allocated.pages().lookup(key)
    } else {
        used_after.last().pages().lookup(key)
    };
    if used.len() > 0 {
        lemma_uses_are_counted(used, used_free, sizes, handles, used_after, key, used.len() - 1);
    }
    let uses = used.len();
    assert(start is Some && start->0.slice.storage.id == storage.id && start->0.free_count
        == ALLOC_AFTER_FREE - 1 - checks_survived(uses));
    lemma_checks_are_counted(
        before,
        free,
        alloc_nrs,
        explicit,
        after,
        key,
        checks_survived(uses),
        storage.id,
        n,
    );
    if no_other_is_on(before[n], key, storage.id) {
        exclusive_page_is_deallocated_once(before[n], free[n], explicit[n], key, storage.id);
    }
}

/// Every use of a page takes one off its free count, down to 0.
proof fn lemma_uses_are_counted(
    before: Seq<ExclusiveMemoryPool>,
    free: Seq<Seq<bool>>,
    sizes: Seq<u64>,
    handles: Seq<ManagedMemoryHandle>,
    after: Seq<ExclusiveMemoryPool>,
    key: PageKey,
    n: int,
)
    requires
        takes_each_time(before, free, sizes, handles, after, key),
        0 <= n < before.len(),
    ensures
        before[0].pages().lookup(key) is Some,
        after[n].pages().lookup(key) is Some,
        after[n].page(key).slice.storage.id == before[0].page(key).slice.storage.id,
        after[n].page(key).free_count == if before[0].page(key).free_count <= n + 1 {
            0
        } else {
            before[0].page(key).free_count - (n + 1)
        },
    decreases n,
{
    if n > 0 {
        lemma_uses_are_counted(before, free, sizes, handles, after, key, n - 1);
        assert(before[n].pages().lookup(key) == after[n - 1].pages().lookup(key));
    }
    let pool = before[n];
    pool.pages().lemma_keys();
    after[n].pages().lemma_keys();
    let place = choose|i: int| #[trigger]
        pool.prefers(i, free[n], sizes[n]) && pool.pages().keys()[i] == key;
    let bytes = padding(sizes[n] as int, pool.alignment() as int) as u64;
    let i = choose|i: int| #[trigger]
        pool.prefers(i, free[n], sizes[n]) && handles[n] == pool.pages().values()[i].slice.handle
            && after[n].pages().values() == pool.pages().values().update(
            i,
            reused(pool.pages().values()[i], sizes[n], bytes),
        );
    assert(pool.suits(place, free[n], sizes[n]) && pool.suits(i, free[n], sizes[n]));
    assert(i == place);
    assert(pool.pages().lookup(pool.pages().keys()[place]) is Some);
    assert(after[n].pages().lookup(after[n].pages().keys()[place]) is Some);
    assert(after[n].pages().values()[place] == reused(pool.page(key), sizes[n], bytes));
    assert(before[0].pages().lookup(key) is Some);
}

/// Every check that finds a page free adds one to its free count, until it is given up.
proof fn lemma_checks_are_counted(
    before: Seq<ExclusiveMemoryPool>,
    free: Seq<Seq<bool>>,
    alloc_nrs: Seq<u64>,
    explicit: Seq<bool>,
    after: Seq<ExclusiveMemoryPool>,
    key: PageKey,
    survived: nat,
    id: StorageId,
    n: int,
)
    requires
        finds_free_each_time(before, free, alloc_nrs, explicit, after, key),
        forall|i: int| #![trigger explicit[i]] 0 <= i < before.len() ==> !explicit[i],
        survived < ALLOC_AFTER_FREE,
        0 <= n < before.len(),
        before[0].pages().lookup(key) is Some,
        before[0].page(key).free_count == ALLOC_AFTER_FREE - 1 - survived,
        before[0].page(key).slice.storage.id == id,
    ensures
        before[n].pages().lookup(key) is Some <==> n <= survived,
        n <= survived ==> before[n].page(key).free_count == ALLOC_AFTER_FREE - 1 - survived + n
            && before[n].page(key).slice.storage.id == id,
        after[n].pages().lookup(key) is Some <==> n < survived,
        gives_up(before[n], free[n], explicit[n], key) <==> n == survived,
    decreases n,
{
    if n > 0 {
        let m = n - 1;
        lemma_checks_are_counted(
            before,
            free,
            alloc_nrs,
            explicit,
            after,
            key,
            survived,
            id,
            m,
        );
        assert(before[n].pages().lookup(key) == after[m].pages().lookup(key));
        if n <= survived {
            let i = lemma_place_of(before[m], key);
            assert(before[m].checks_page(i, free[m], explicit[m], after[m]));
        }
    }
    assert(!explicit[n]);
    if before[n].pages().lookup(key) is Some {
        let i = lemma_place_of(before[n], key);
        assert(before[n].checks_page(i, free[n], explicit[n], after[n]));
        if gives_up(before[n], free[n], explicit[n], key) {
            assert(before[n].page(key).free_count + 1 >= ALLOC_AFTER_FREE);
        }
    } else {
        before[n].pages().lemma_keys();
        assert forall|i: int| 0 <= i < before[n].pages().keys().len() implies #[trigger] before[n].pages().keys()[i]
            != key by {
            assert(before[n].pages().lookup(before[n].pages().keys()[i]) is Some);
        }
    }
}

/// Where the page that `key` names stands among the pages.
proof fn lemma_place_of(pool: ExclusiveMemoryPool, key: PageKey) -> (place: int)
    requires
        pool.wf(),
        pool.pages().lookup(key) is Some,
    ensures
        0 <= place < pool.pages().keys().len(),
        pool.pages().keys()[place] == key,
        pool.pages().values()[place] == pool.page(key),
{
    pool.pages().lemma_keys();
    assert(pool.pages().keys().contains(key));
    choose|i: int| 0 <= i < pool.pages().keys().len() && pool.pages().keys()[i] == key
}

/// Whether `after[t]` is what a cleanup after `first + t` allocations, that was not asked for,
/// makes of `before[t]`; each finds the page that `key` names free, if it is there, and between
/// two cleanups the page is left alone.
pub open spec fn cleans_at_every_number(
    before: Seq<ExclusiveMemoryPool>,
    free: Seq<Seq<bool>>,
    first: u64,
    after: Seq<ExclusiveMemoryPool>,
    key: PageKey,
) -> bool {
    &&& before.len() == after.len()
    &&& first + before.len() <= u64::MAX + 1
    &&& forall|t: int| #![trigger before[t]]
        0 <= t < before.len() ==> {
            &&& before[t].wf()
            &&& before[t].is_due((first + t) as u64, false) ==> before[t].checks(
                free[t],
                (first + t) as u64,
                false,
                after[t],
            )
            &&& !before[t].is_due((first + t) as u64, false) ==> after[t] == before[t]
            &&& forall|i: int| #![trigger before[t].pages().keys()[i]]
                0 <= i < before[t].pages().keys().len() && before[t].pages().keys()[i] == key
                    ==> free[t][i]
        }
    &&& forall|t: int, u: int| #![trigger after[t], before[u]]
        0 <= t && u == t + 1 && u < before.len() ==> {
            &&& before[u].pages().lookup(key) == after[t].pages().lookup(key)
            &&& before[u].same_pool(after[t])
            &&& before[u].last_dealloc_check() == after[t].last_dealloc_check()
        }
}

/// How many times the first `n` of these cleanups give back to the storage what `id` names.
pub open spec fn deallocs_in_run(
    before: Seq<ExclusiveMemoryPool>,
    free: Seq<Seq<bool>>,
    first: u64,
    id: StorageId,
    n: int,
) -> nat
    decreases n,
{
    if n <= 0 {
        0
    } else {
        deallocs_in_run(before, free, first, id, n - 1) + if before[n - 1].is_due(
            (first + n - 1) as u64,
            false,
        ) {
            deallocs_of(
                before[n - 1].releases(
                    free[n - 1],
                    false,
                    before[n - 1].pages().keys().len() as int,
                ),
                id,
            )
        } else {
            0
        }
    }
}

/// Whether the cleanup after `first + t` allocations gives up the page that `key` names.
pub open spec fn goes_at(
    before: Seq<ExclusiveMemoryPool>,
    free: Seq<Seq<bool>>,
    first: u64,
    key: PageKey,
    t: int,
) -> bool {
    &&& 0 <= t < before.len()
    &&& before[t].is_due((first + t) as u64, false)
    &&& gives_up(before[t], free[t], false, key)
}

/// A page that is free from the allocation `first` on, and left alone, has gone by the time that
/// the deallocation period has passed, if a cleanup follows every allocation. One of the cleanups
/// gives it up, and deallocates its storage; that is the only time, unless another page is on
/// the same storage. (A period of less than four has too few cleanups for that.)
pub proof fn exclusive_unused_page_goes_within_the_period(
    before: Seq<ExclusiveMemoryPool>,
    free: Seq<Seq<bool>>,
    first: u64,
    after: Seq<ExclusiveMemoryPool>,
    key: PageKey,
)
    requires
        cleans_at_every_number(before, free, first, after, key),
        before.len() == before[0].dealloc_period() + 1,
        before[0].dealloc_period() >= ALLOC_AFTER_FREE - 1,
        before[0].last_dealloc_check() <= first,
    ensures
        after.last().pages().lookup(key) is None,
        before[0].pages().lookup(key) is Some ==> exists|t: int|
            {
                &&& #[trigger] goes_at(before, free, first, key, t)
                &&& forall|u: int| #[trigger] goes_at(before, free, first, key, u) ==> u == t
                &&& deallocs_of(
                    before[t].releases(free[t], false, before[t].pages().keys().len() as int),
                    before[0].page(key).slice.storage.id,
                ) >= 1
            },
        ({
            let id = before[0].page(key).slice.storage.id;
            before[0].pages().lookup(key) is Some && (forall|t: int| #![trigger before[t]]
                0 <= t < before.len() ==> no_other_is_on(before[t], key, id)) ==> deallocs_in_run(
                before,
                free,
                first,
                id,
                before.len() as int,
            ) == 1
        }),
{
    let period = before[0].dealloc_period();
    let last = before.len() - 1;
    let checks = lemma_checks_in_a_run(before, free, first, after, key, last);
    let step = before[0].check_period() as int;
    assert(5 * (period / 5) <= period);
    if checks < ALLOC_AFTER_FREE {
        assert((checks + 1) * step <= 5 * step) by (nonlinear_arith)
            requires
                checks + 1 <= 5,
                0 <= step,
        ;
    }
    let id = before[0].page(key).slice.storage.id;
    if before[0].pages().lookup(key) is Some {
        let t = lemma_goes_once(before, free, first, after, key, id, last);
        let i = lemma_place_of(before[t], key);
        lemma_page_given_up_is_deallocated(
            before[t],
            free[t],
            false,
            i,
            before[t].pages().keys().len() as int,
        );
    }
    if before[0].pages().lookup(key) is Some && forall|t: int| #![trigger before[t]]
        0 <= t < before.len() ==> no_other_is_on(before[t], key, id) {
        lemma_deallocs_in_a_run(before, free, first, after, key, id, last);
    }
}

/// After the cleanup at `first + t` the pages have been checked a number of times, the last time
/// not longer ago than the check period; and a page that is still there has been found free as
/// often.
proof fn lemma_checks_in_a_run(
    before: Seq<ExclusiveMemoryPool>,
    free: Seq<Seq<bool>>,
    first: u64,
    after: Seq<ExclusiveMemoryPool>,
    key: PageKey,
    t: int,
) -> (checks: nat)
    requires
        cleans_at_every_number(before, free, first, after, key),
        before[0].last_dealloc_check() <= first,
        0 <= t < before.len(),
    ensures
        after[t].same_pool(before[0]),
        after[t].last_dealloc_check() <= first + t,
        before[0].check_period() > 0 ==> after[t].last_dealloc_check() <= first + checks
            * before[0].check_period(),
        before[0].check_period() > 0 ==> t + 1 <= (checks + 1) * before[0].check_period(),
        before[0].check_period() == 0 ==> checks == t + 1,
        after[t].pages().lookup(key) is Some ==> after[t].page(key).free_count >= checks
            && (checks > 0 ==> after[t].page(key).free_count < ALLOC_AFTER_FREE),
    decreases t,
{
    let period = before[0].check_period() as int;
    let pool = before[t];
    let number = (first + t) as u64;
    let done: nat = if t == 0 {
        0
    } else {
        lemma_checks_in_a_run(before, free, first, after, key, t - 1)
    };
    if t > 0 {
        assert(pool.pages().lookup(key) == after[t - 1].pages().lookup(key));
        assert(pool.same_pool(after[t - 1]));
        assert(pool.last_dealloc_check() == after[t - 1].last_dealloc_check());
    }
    assert(pool.wf());
    assert(number == first + t);
    assert((done + 1) * period == done * period + period) by (nonlinear_arith);
    assert((done + 2) * period == done * period + period + period) by (nonlinear_arith);
    if pool.is_due(number, false) {
        lemma_page_found_free(pool, free[t], number, false, after[t], key);
        (done + 1) as nat
    } else {
        done
    }
}

/// Of the cleanups up to `first + t`, one gives a page up, if it has gone by then, and none
/// before.
proof fn lemma_goes_once(
    before: Seq<ExclusiveMemoryPool>,
    free: Seq<Seq<bool>>,
    first: u64,
    after: Seq<ExclusiveMemoryPool>,
    key: PageKey,
    id: StorageId,
    t: int,
) -> (when: int)
    requires
        cleans_at_every_number(before, free, first, after, key),
        before[0].pages().lookup(key) is Some,
        before[0].page(key).slice.storage.id == id,
        0 <= t < before.len(),
    ensures
        after[t].pages().lookup(key) is Some ==> {
            &&& after[t].page(key).slice.storage.id == id
            &&& forall|u: int| u <= t ==> !#[trigger] goes_at(before, free, first, key, u)
        },
        after[t].pages().lookup(key) is None ==> {
            &&& when <= t
            &&& goes_at(before, free, first, key, when)
            &&& before[when].pages().lookup(key) is Some
            &&& before[when].page(key).slice.storage.id == id
            &&& is_given_up(before[when].page(key), true, false)
            &&& forall|u: int|
                u <= t && #[trigger] goes_at(before, free, first, key, u) ==> u == when
        },
    decreases t,
{
    let pool = before[t];
    let number = (first + t) as u64;
    let earlier = if t > 0 {
        lemma_goes_once(before, free, first, after, key, id, t - 1)
    } else {
        -1
    };
    if t > 0 {
        assert(pool.pages().lookup(key) == after[t - 1].pages().lookup(key));
    }
    assert(pool.wf());
    pool.pages().lemma_keys();
    if pool.pages().lookup(key) is Some {
        let i = lemma_place_of(pool, key);
        if pool.is_due(number, false) {
            assert(pool.checks_page(i, free[t], false, after[t]));
            if gives_up(pool, free[t], false, key) {
                assert(is_given_up(pool.page(key), true, false));
            }
        }
        t
    } else {
        assert forall|i: int| 0 <= i < pool.pages().keys().len() implies #[trigger] pool.pages().keys()[i]
            != key by {
            assert(pool.pages().lookup(pool.pages().keys()[i]) is Some);
        }
        assert(!goes_at(before, free, first, key, t));
        assert(after[t].pages().lookup(key) is None);
        earlier
    }
}

/// What is given up is deallocated.
proof fn lemma_page_given_up_is_deallocated(
    pool: ExclusiveMemoryPool,
    free: Seq<bool>,
    explicit: bool,
    place: int,
    n: int,
)
    requires
        0 <= place < n <= pool.pages().keys().len(),
        is_given_up(pool.pages().values()[place], free[place], explicit),
    ensures
        deallocs_of(
            pool.releases(free, explicit, n),
            pool.pages().values()[place].slice.storage.id,
        ) >= 1,
    decreases n,
{
    if place < n - 1 {
        lemma_page_given_up_is_deallocated(pool, free, explicit, place, n - 1);
    }
    if is_given_up(pool.pages().values()[n - 1], free[n - 1], explicit) {
        assert(pool.releases(free, explicit, n).drop_last() =~= pool.releases(
            free,
            explicit,
            n - 1,
        ));
    }
}

/// The cleanups up to `first + t` give a page back once, if it has gone by then, and not at all
/// before.
proof fn lemma_deallocs_in_a_run(
    before: Seq<ExclusiveMemoryPool>,
    free: Seq<Seq<bool>>,
    first: u64,
    after: Seq<ExclusiveMemoryPool>,
    key: PageKey,
    id: StorageId,
    t: int,
)
    requires
        cleans_at_every_number(before, free, first, after, key),
        before[0].pages().lookup(key) is Some,
        before[0].page(key).slice.storage.id == id,
        forall|t: int| #![trigger before[t]]
            0 <= t < before.len() ==> no_other_is_on(before[t], key, id),
        0 <= t < before.len(),
    ensures
        after[t].pages().lookup(key) is Some ==> after[t].page(key).slice.storage.id == id,
        deallocs_in_run(before, free, first, id, t + 1) == if after[t].pages().lookup(key) is Some {
            0nat
        } else {
            1nat
        },
    decreases t,
{
    let pool = before[t];
    let number = (first + t) as u64;
    if t > 0 {
        lemma_deallocs_in_a_run(before, free, first, after, key, id, t - 1);
        assert(pool.pages().lookup(key) == after[t - 1].pages().lookup(key));
    } else {
        assert(deallocs_in_run(before, free, first, id, 0) == 0);
    }
    assert(no_other_is_on(pool, key, id));
    if pool.is_due(number, false) {
        exclusive_page_is_deallocated_once(pool, free[t], false, key, id);
        if pool.pages().lookup(key) is Some {
            let i = lemma_place_of(pool, key);
            assert(pool.checks_page(i, free[t], false, after[t]));
            if gives_up(pool, free[t], false, key) {
                assert(is_given_up(pool.page(key), true, false));
            }
        } else {
            pool.pages().lemma_keys();
            assert forall|i: int| 0 <= i < pool.pages().keys().len() implies #[trigger] pool.pages().keys()[i]
                != key by {
                assert(pool.pages().lookup(pool.pages().keys()[i]) is Some);
            }
        }
    }
}

/// A page of an exclusive pool that is never named by its own handle alone, as where a clone or a
/// binding of that handle is kept, survives a cleanup as it is, whatever the cleanup reads and
/// whichever other pages go: it is found under its key, and the slice is the same.
pub proof fn exclusive_page_that_is_never_free_survives(
    pool: ExclusiveMemoryPool,
    free: Seq<bool>,
    alloc_nr: u64,
    explicit: bool,
    after: ExclusiveMemoryPool,
    key: PageKey,
    location: MemoryLocation,
    found: Result<&Slice, IoError>,
)
    requires
        pool.wf(),
        pool.reads_as(free),
        pool.is_due(alloc_nr, explicit) ==> pool.checks(free, alloc_nr, explicit, after),
        !pool.is_due(alloc_nr, explicit) ==> after == pool,
        pool.pages().lookup(key) is Some,
        !pool.page(key).slice.handle.reads_as(true),
        location.page == key,
        after.finds(location, found),
    ensures
        after.pages().lookup(key) == pool.pages().lookup(key),
        pool.finds(location, found),
        found is Ok,
        *found->Ok_0 == pool.page(key).slice,
{
    let i = lemma_place_of(pool, key);
    assert(pool.pages().values()[i].slice.handle.reads_as(free[i]));
    if pool.is_due(alloc_nr, explicit) {
        exclusive_page_in_use_survives(pool, free, alloc_nr, explicit, after, i);
    }
}

/// Whether no two pages of the pool are on the same storage.
pub open spec fn is_on_distinct_storage(pool: ExclusiveMemoryPool) -> bool {
    forall|a: PageKey, b: PageKey| #![trigger pool.pages().lookup(a), pool.pages().lookup(b)]
        a != b && pool.pages().lookup(a) is Some && pool.pages().lookup(b) is Some ==> pool.page(
            a,
        ).slice.storage.id != pool.page(b).slice.storage.id
}

/// No operation puts two pages of an exclusive pool on the same storage, unless the storage gives
/// out an allocation that a page is on; and then no page but its own is on what a page is on.
pub proof fn exclusive_storage_stays_distinct(
    pool: ExclusiveMemoryPool,
    after: ExclusiveMemoryPool,
    free: Seq<bool>,
    size: u64,
    reserved: Option<ManagedMemoryHandle>,
    location: MemoryLocation,
    assigned: ManagedMemoryHandle,
    cursor: u64,
    bind_result: Result<(), IoError>,
    alloc_nr: u64,
    explicit: bool,
    key: PageKey,
    storage: StorageHandle,
    alloc_size: u64,
    ids: MemoryIds,
    ids_after: MemoryIds,
    handle: ManagedMemoryHandle,
)
    requires
        pool.wf(),
        after.wf(),
        is_on_distinct_storage(pool),
        ({
            ||| pool.reserves(free, size, after, reserved)
            ||| pool.binds(location, assigned, cursor, after, bind_result)
            ||| pool.checks(free, alloc_nr, explicit, after)
            ||| pool.allocates_on(key, storage, size, alloc_size, ids, after, ids_after, handle)
                && forall|other: PageKey| #![trigger pool.pages().lookup(other)]
                pool.pages().lookup(other) is Some ==> pool.page(other).slice.storage.id
                    != storage.id
        }),
    ensures
        is_on_distinct_storage(after),
        forall|other: PageKey| #![trigger after.pages().lookup(other)]
            after.pages().lookup(other) is Some ==> no_other_is_on(
                after,
                other,
                after.page(other).slice.storage.id,
            ),
{
    pool.pages().lemma_keys();
    after.pages().lemma_keys();
    assert forall|other: PageKey| #[trigger] after.pages().lookup(other) is Some implies {
        ||| pool.pages().lookup(other) is Some && after.page(other).slice.storage.id == pool.page(
            other,
        ).slice.storage.id
        ||| pool.allocates_on(key, storage, size, alloc_size, ids, after, ids_after, handle)
            && other == key && after.page(other).slice.storage.id == storage.id
    } by {
        if pool.reserves(free, size, after, reserved) {
            let i = lemma_place_of(after, other);
            assert(pool.pages().lookup(pool.pages().keys()[i]) is Some);
            assert(after.pages().values()[i].slice.storage.id
                == pool.pages().values()[i].slice.storage.id);
        } else if pool.binds(location, assigned, cursor, after, bind_result) {
            assert(other != location.page ==> pool.pages().lookup(other)
                == after.pages().lookup(other));
        } else if pool.checks(free, alloc_nr, explicit, after) {
            let i = lemma_place_of(pool, other);
            assert(pool.checks_page(i, free, explicit, after));
        }
    }
    assert forall|a: PageKey, b: PageKey|
        #![trigger after.pages().lookup(a), after.pages().lookup(b)]
        a != b && after.pages().lookup(a) is Some && after.pages().lookup(b) is Some implies after.page(
        a,
    ).slice.storage.id != after.page(b).slice.storage.id by {
        assert(pool.pages().lookup(a) is Some || pool.pages().lookup(b) is Some);
    }
    assert forall|other: PageKey| #[trigger] after.pages().lookup(other) is Some implies no_other_is_on(
        after,
        other,
        after.page(other).slice.storage.id,
    ) by {
        assert forall|i: int| #![trigger after.pages().keys()[i]]
            0 <= i < after.pages().keys().len() && after.pages().keys()[i]
                != other implies after.pages().values()[i].slice.storage.id != after.page(
            other,
        ).slice.storage.id by {
            assert(after.pages().lookup(after.pages().keys()[i]) is Some);
        }
    }
}

} // verus!
