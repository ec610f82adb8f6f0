//! A page of memory that is cut into slices.

use crate::align::{
    aligned, calculate_padding, lemma_aligned, lemma_aligned_sum, padding,
};
use crate::error::{page_not_found, IoError};
use crate::handle::{ManagedMemoryHandle, MemoryIds, MemoryLocation};
use crate::slice::Slice;
use crate::storage::{StorageHandle, StorageUtilization};
use crate::tiling::Tiling;
use crate::usage::MemoryUsage;
use vstd::prelude::*;

verus! {

/// The most slices that a page is cut into.
pub const MAX_SLICES: usize = 0xffff_ffff;

/// A page of memory, cut into slices without gaps.
#[derive(Debug)]
pub struct MemoryPage {
    storage: StorageHandle,
    slices: Tiling,
    alignment: u64,
    location_base: MemoryLocation,
}

/// What the slices of a page amount to.
#[derive(Clone, Copy, Debug, PartialEq, Eq, Structural)]
pub struct MemoryPageSummary {
    /// The bytes of the free slices.
    pub amount_free: u64,
    /// The bytes of the slices in use.
    pub amount_full: u64,
    pub amount_total: u64,
    pub num_free: usize,
    pub num_full: usize,
    pub num_total: usize,
}

/// Whether `slices` cover the bytes from `start` to `end` one after the other.
pub open spec fn tiles(slices: Seq<Slice>, start: int, end: int) -> bool {
    &&& slices.len() > 0
    &&& slices[0].start() == start
    &&& slices[slices.len() - 1].end() == end
    &&& forall|i: int, j: int| #![trigger slices[i], slices[j]]
        0 <= i < slices.len() && j == i + 1 && j < slices.len() ==> slices[j].start()
            == slices[i].end()
}

/// What `part` comes to over the slices that `free` says are free, if `want`, or
/// over the others.
pub open spec fn sum_where(
    slices: Seq<Slice>,
    free: Seq<bool>,
    want: bool,
    part: spec_fn(Slice) -> int,
) -> int
    decreases slices.len(),
{
    if slices.len() == 0 {
        0
    } else {
        let rest = sum_where(slices.drop_last(), free.drop_last(), want, part);
        if free.last() == want {
            rest + part(slices.last())
        } else {
            rest
        }
    }
}

/// The bytes that a slice takes up.
pub open spec fn room() -> spec_fn(Slice) -> int {
    |slice: Slice| slice.room()
}

/// The bytes of a slice that can be used.
pub open spec fn usable() -> spec_fn(Slice) -> int {
    |slice: Slice| slice.storage.utilization.size as int
}

/// The bytes that a slice is padded with.
pub open spec fn padded() -> spec_fn(Slice) -> int {
    |slice: Slice| slice.padding as int
}

/// Counts a slice.
pub open spec fn one() -> spec_fn(Slice) -> int {
    |slice: Slice| 1int
}

/// Two adjacent free slices as one.
pub open spec fn merged(a: Slice, b: Slice) -> Slice {
    Slice {
        storage: StorageHandle {
            id: a.storage.id,
            utilization: StorageUtilization {
                offset: a.storage.utilization.offset,
                size: (a.room() + b.room()) as u64,
            },
        },
        handle: a.handle,
        padding: 0,
        cursor: 0,
    }
}

/// The slices with each run of adjacent free ones merged into its first, and
/// which of them are then free.
pub open spec fn coalesced(slices: Seq<Slice>, free: Seq<bool>) -> (Seq<Slice>, Seq<bool>)
    decreases slices.len(),
{
    if slices.len() == 0 {
        (Seq::empty(), Seq::empty())
    } else {
        let (kept, kept_free) = coalesced(slices.drop_last(), free.drop_last());
        if free.last() && kept_free.len() > 0 && kept_free.last() {
            (kept.update(kept.len() - 1, merged(kept.last(), slices.last())), kept_free)
        } else {
            (kept.push(slices.last()), kept_free.push(free.last()))
        }
    }
}

/// Tiles follow one another, so none reaches beyond the end.
pub proof fn lemma_tiles(slices: Seq<Slice>, start: int, end: int)
    requires
        tiles(slices, start, end),
    ensures
        forall|i: int, j: int| #![trigger slices[i], slices[j]]
            0 <= i < j < slices.len() ==> slices[i].end() <= slices[j].start(),
        forall|i: int| #![trigger slices[i]]
            0 <= i < slices.len() ==> start <= slices[i].start() && slices[i].end() <= end,
        start <= end,
{
    assert forall|i: int, j: int| 0 <= i < j < slices.len() implies (#[trigger] slices[i]).end() <= (
    #[trigger] slices[j]).start() by {
        lemma_tiles_in_order(slices, start, end, i, j);
    }
    assert forall|i: int| 0 <= i < slices.len() implies start <= (#[trigger] slices[i]).start()
        && slices[i].end() <= end by {
        if i > 0 {
            lemma_tiles_in_order(slices, start, end, 0, i);
        }
        if i < slices.len() - 1 {
            lemma_tiles_in_order(slices, start, end, i, slices.len() - 1);
        }
    }
    assert(slices[0].start() == start);
}

proof fn lemma_tiles_in_order(slices: Seq<Slice>, start: int, end: int, i: int, j: int)
    requires
        tiles(slices, start, end),
        0 <= i < j < slices.len(),
    ensures
        slices[i].end() <= slices[j].start(),
    decreases j - i,
{
    assert(slices[j].start() == slices[j - 1].end());
    if i < j - 1 {
        lemma_tiles_in_order(slices, start, end, i, j - 1);
    }
}

/// Every byte belongs to a slice that is free or to one that is not.
pub proof fn lemma_tiles_sum(slices: Seq<Slice>, free: Seq<bool>, start: int, end: int)
    requires
        tiles(slices, start, end),
        free.len() == slices.len(),
    ensures
        sum_where(slices, free, true, room()) + sum_where(slices, free, false, room()) == end
            - start,
    decreases slices.len(),
{
    let front = slices.drop_last();
    if front.len() > 0 {
        assert(tiles(front, start, front.last().end())) by {
            assert forall|i: int, j: int|
                0 <= i < front.len() && j == i + 1 && j < front.len() implies (
            #[trigger] front[j]).start() == (#[trigger] front[i]).end() by {
                assert(slices[j].start() == slices[i].end());
            }
        }
        lemma_tiles_sum(front, free.drop_last(), start, front.last().end());
        assert(slices[slices.len() - 1].start() == slices[slices.len() - 2].end());
    } else {
        reveal_with_fuel(sum_where, 2);
    }
}

/// A part that is never negative sums up to no less than 0, and to no more than a
/// part that is never smaller.
pub proof fn lemma_sum_bounds(
    slices: Seq<Slice>,
    free: Seq<bool>,
    want: bool,
    part: spec_fn(Slice) -> int,
    bound: spec_fn(Slice) -> int,
)
    requires
        free.len() == slices.len(),
        forall|slice: Slice| 0 <= #[trigger] part(slice) <= bound(slice),
    ensures
        0 <= sum_where(slices, free, want, part) <= sum_where(slices, free, want, bound),
    decreases slices.len(),
{
    if slices.len() > 0 {
        lemma_sum_bounds(slices.drop_last(), free.drop_last(), want, part, bound);
        assert(0 <= part(slices.last()) <= bound(slices.last()));
    }
}

/// One more slice adds its part, if it is wanted.
proof fn lemma_sum_step(
    slices: Seq<Slice>,
    free: Seq<bool>,
    want: bool,
    part: spec_fn(Slice) -> int,
    n: int,
)
    requires
        free.len() == slices.len(),
        0 <= n < slices.len(),
    ensures
        sum_where(slices.take(n + 1), free.take(n + 1), want, part) == sum_where(
            slices.take(n),
            free.take(n),
            want,
            part,
        ) + if free[n] == want {
            part(slices[n])
        } else {
            0
        },
{
    assert(slices.take(n + 1).drop_last() =~= slices.take(n));
    assert(free.take(n + 1).drop_last() =~= free.take(n));
}

/// The first `n` slices cover the bytes up to the end of the last of them.
proof fn lemma_prefix_sums(slices: Seq<Slice>, free: Seq<bool>, start: int, end: int, n: int)
    requires
        tiles(slices, start, end),
        free.len() == slices.len(),
        0 < n <= slices.len(),
    ensures
        sum_where(slices.take(n), free.take(n), true, room()) + sum_where(
            slices.take(n),
            free.take(n),
            false,
            room(),
        ) == slices[n - 1].end() - start,
        0 <= sum_where(slices.take(n), free.take(n), true, room()),
        0 <= sum_where(slices.take(n), free.take(n), false, usable()),
        0 <= sum_where(slices.take(n), free.take(n), false, padded()),
        sum_where(slices.take(n), free.take(n), false, usable()) + sum_where(
            slices.take(n),
            free.take(n),
            false,
            padded(),
        ) == sum_where(slices.take(n), free.take(n), false, room()),
        0 <= sum_where(slices.take(n), free.take(n), true, one()),
        0 <= sum_where(slices.take(n), free.take(n), false, one()),
        sum_where(slices.take(n), free.take(n), true, one()) + sum_where(
            slices.take(n),
            free.take(n),
            false,
            one(),
        ) == n,
        slices[n - 1].end() <= end,
{
    let first = slices.take(n);
    let first_free = free.take(n);
    assert(tiles(first, start, slices[n - 1].end())) by {
        assert forall|i: int, j: int|
            0 <= i < first.len() && j == i + 1 && j < first.len() implies (
        #[trigger] first[j]).start() == (#[trigger] first[i]).end() by {
            assert(slices[j].start() == slices[i].end());
        }
    }
    lemma_tiles_sum(first, first_free, start, slices[n - 1].end());
    lemma_tiles(slices, start, end);
    lemma_sum_bounds(first, first_free, true, room(), room());
    lemma_sum_bounds(first, first_free, false, usable(), room());
    lemma_sum_bounds(first, first_free, false, padded(), room());
    lemma_sum_bounds(first, first_free, true, one(), one());
    lemma_sum_bounds(first, first_free, false, one(), one());
    lemma_room_is_usable_and_padded(first, first_free, false);
    lemma_counts(first, first_free);
}

/// What slices take up is what can be used of them, and their padding.
pub proof fn lemma_room_is_usable_and_padded(slices: Seq<Slice>, free: Seq<bool>, want: bool)
    requires
        free.len() == slices.len(),
    ensures
        sum_where(slices, free, want, usable()) + sum_where(slices, free, want, padded())
            == sum_where(slices, free, want, room()),
    decreases slices.len(),
{
    if slices.len() > 0 {
        lemma_room_is_usable_and_padded(slices.drop_last(), free.drop_last(), want);
    }
}

/// Every slice is free or it is not.
pub proof fn lemma_counts(slices: Seq<Slice>, free: Seq<bool>)
    requires
        free.len() == slices.len(),
    ensures
        sum_where(slices, free, true, one()) + sum_where(slices, free, false, one())
            == slices.len(),
    decreases slices.len(),
{
    if slices.len() > 0 {
        lemma_counts(slices.drop_last(), free.drop_last());
    }
}

/// All but the last of some tiles are tiles.
proof fn lemma_tiles_front(slices: Seq<Slice>, start: int, end: int)
    requires
        tiles(slices, start, end),
        slices.len() > 1,
    ensures
        tiles(slices.drop_last(), start, slices[slices.len() - 2].end()),
        slices.last().start() == slices[slices.len() - 2].end(),
{
    let front = slices.drop_last();
    assert forall|i: int, j: int| 0 <= i < front.len() && j == i + 1 && j < front.len() implies (
    #[trigger] front[j]).start() == (#[trigger] front[i]).end() by {
        assert(slices[j].start() == slices[i].end());
    }
    assert(slices[slices.len() - 1].start() == slices[slices.len() - 2].end());
}

/// Coalescing covers the same bytes with slices that start where others did, and
/// leaves no two adjacent slices free.
pub proof fn lemma_coalesced(slices: Seq<Slice>, free: Seq<bool>, start: int, end: int)
    requires
        tiles(slices, start, end),
        free.len() == slices.len(),
        0 <= start,
        end <= u64::MAX,
    ensures
        ({
            let (kept, kept_free) = coalesced(slices, free);
            &&& kept.len() == kept_free.len()
            &&& 0 < kept.len() <= slices.len()
            &&& tiles(kept, start, end)
            &&& kept_free.last() == free.last()
            &&& forall|i: int| #![trigger kept[i]]
                0 <= i < kept.len() ==> exists|j: int| #![trigger slices[j]]
                    0 <= j < slices.len() && kept[i].start() == slices[j].start()
                        && kept[i].storage.id == slices[j].storage.id && kept[i].handle
                        == slices[j].handle && kept_free[i] == free[j] && (!kept_free[i] ==> kept[i]
                        == slices[j])
            &&& forall|i: int, j: int| #![trigger kept_free[i], kept_free[j]]
                0 <= i < kept_free.len() && j == i + 1 && j < kept_free.len() ==> !(kept_free[i]
                    && kept_free[j])
        }),
    decreases slices.len(),
{
    let (kept, kept_free) = coalesced(slices, free);
    let last = slices.len() - 1;
    if slices.len() == 1 {
        reveal_with_fuel(coalesced, 2);
        assert(kept =~= slices);
        assert(kept_free =~= free);
        assert(kept[0] == slices[0]);
    } else {
        let front = slices.drop_last();
        let front_free = free.drop_last();
        let (front_kept, front_kept_free) = coalesced(front, front_free);
        let middle = slices[last - 1].end();
        lemma_tiles_front(slices, start, end);
        lemma_tiles(slices, start, end);
        lemma_coalesced(front, front_free, start, middle);
        lemma_tiles(front_kept, start, middle);
        let top = front_kept.len() - 1;
        if free.last() && front_kept_free.last() {
            assert(front_kept[top].room() + slices[last].room() <= end - start);
            assert(kept[top].start() == front_kept[top].start());
            assert(kept[top].end() == slices[last].end());
            assert forall|i: int, j: int|
                0 <= i < kept.len() && j == i + 1 && j < kept.len() implies (
            #[trigger] kept[j]).start() == (#[trigger] kept[i]).end() by {
                assert(front_kept[j].start() == front_kept[i].end());
            }
        } else {
            assert forall|i: int, j: int|
                0 <= i < kept.len() && j == i + 1 && j < kept.len() implies (
            #[trigger] kept[j]).start() == (#[trigger] kept[i]).end() by {
                if j <= top {
                    assert(front_kept[j].start() == front_kept[i].end());
                }
            }
        }
        assert forall|i: int| 0 <= i < kept.len() implies exists|j: int|
            #![trigger slices[j]]
            0 <= j < slices.len() && (#[trigger] kept[i]).start() == slices[j].start()
                && kept[i].storage.id == slices[j].storage.id && kept[i].handle
                == slices[j].handle && kept_free[i] == free[j] && (!kept_free[i] ==> kept[i]
                == slices[j]) by {
            if i <= top {
                assert(kept[i].start() == front_kept[i].start());
                let j = choose|j: int|
                    #![trigger front[j]]
                    0 <= j < front.len() && front_kept[i].start() == front[j].start()
                        && front_kept[i].storage.id == front[j].storage.id && front_kept[i].handle
                        == front[j].handle && front_kept_free[i] == front_free[j] && (
                    !front_kept_free[i] ==> front_kept[i] == front[j]);
                assert(slices[j] == front[j]);
            } else {
                assert(kept[i] == slices[last]);
            }
        }
        assert forall|i: int, j: int|
            0 <= i < kept_free.len() && j == i + 1 && j < kept_free.len() implies !(
        #[trigger] kept_free[i] && #[trigger] kept_free[j]) by {
            if j <= top {
                assert(!(front_kept_free[i] && front_kept_free[j]));
            }
        }
    }
}

/// Coalescing leaves the slices in use as they are, and what is free as much.
pub proof fn lemma_coalesced_sums(slices: Seq<Slice>, free: Seq<bool>, start: int, end: int)
    requires
        tiles(slices, start, end),
        free.len() == slices.len(),
        0 <= start,
        end <= u64::MAX,
    ensures
        ({
            let (kept, kept_free) = coalesced(slices, free);
            &&& sum_where(kept, kept_free, true, room()) == sum_where(slices, free, true, room())
            &&& forall|part: spec_fn(Slice) -> int| #[trigger]
                sum_where(kept, kept_free, false, part) == sum_where(slices, free, false, part)
        }),
    decreases slices.len(),
{
    let (kept, kept_free) = coalesced(slices, free);
    let last = slices.len() - 1;
    if slices.len() == 1 {
        reveal_with_fuel(coalesced, 2);
        assert(kept =~= slices);
        assert(kept_free =~= free);
    } else {
        let front = slices.drop_last();
        let front_free = free.drop_last();
        let (front_kept, front_kept_free) = coalesced(front, front_free);
        let middle = slices[last - 1].end();
        lemma_tiles_front(slices, start, end);
        lemma_tiles(slices, start, end);
        lemma_coalesced(front, front_free, start, middle);
        lemma_coalesced_sums(front, front_free, start, middle);
        lemma_tiles(front_kept, start, middle);
        let top = front_kept.len() - 1;
        if free.last() && front_kept_free.last() {
            assert(kept.drop_last() =~= front_kept.drop_last());
            assert(front_kept[top].room() + slices[last].room() <= end - start);
            assert(kept.last().room() == front_kept.last().room() + slices.last().room());
        } else {
            assert(kept.drop_last() =~= front_kept);
            assert(kept_free.drop_last() =~= front_kept_free);
        }
        assert forall|part: spec_fn(Slice) -> int| #[trigger]
            sum_where(kept, kept_free, false, part) == sum_where(slices, free, false, part) by {
            assert(sum_where(front_kept, front_kept_free, false, part) == sum_where(
                front,
                front_free,
                false,
                part,
            ));
        }
    }
}

/// Coalescing says of each slice that is left whether it is free.
pub proof fn lemma_coalesced_len(slices: Seq<Slice>, free: Seq<bool>)
    requires
        free.len() == slices.len(),
    ensures
        coalesced(slices, free).0.len() == coalesced(slices, free).1.len(),
    decreases slices.len(),
{
    if slices.len() > 0 {
        lemma_coalesced_len(slices.drop_last(), free.drop_last());
    }
}

/// Coalescing leaves a slice in use as it is, and in use.
pub proof fn lemma_coalesced_keeps_used(slices: Seq<Slice>, free: Seq<bool>, j: int) -> (place: int)
    requires
        free.len() == slices.len(),
        0 <= j < slices.len(),
        !free[j],
    ensures
        0 <= place < coalesced(slices, free).0.len(),
        coalesced(slices, free).0[place] == slices[j],
        !coalesced(slices, free).1[place],
        coalesced(slices, free).0.len() == coalesced(slices, free).1.len(),
    decreases slices.len(),
{
    lemma_coalesced_len(slices, free);
    lemma_coalesced_len(slices.drop_last(), free.drop_last());
    if j == slices.len() - 1 {
        coalesced(slices, free).0.len() - 1
    } else {
        lemma_coalesced_keeps_used(slices.drop_last(), free.drop_last(), j)
    }
}

/// A sum is no less than any one of its parts.
pub proof fn lemma_sum_includes(
    slices: Seq<Slice>,
    free: Seq<bool>,
    want: bool,
    part: spec_fn(Slice) -> int,
    j: int,
)
    requires
        free.len() == slices.len(),
        0 <= j < slices.len(),
        free[j] == want,
        forall|slice: Slice| 0 <= #[trigger] part(slice),
    ensures
        part(slices[j]) <= sum_where(slices, free, want, part),
    decreases slices.len(),
{
    if j == slices.len() - 1 {
        lemma_sum_bounds(slices.drop_last(), free.drop_last(), want, part, part);
    } else {
        lemma_sum_includes(slices.drop_last(), free.drop_last(), want, part, j);
        assert(0 <= part(slices.last()));
    }
}

/// Whether a slice, out of `count`, can be handed out for `need` bytes.
pub open spec fn fits(slice: Slice, free: bool, need: int, count: nat) -> bool {
    &&& free
    &&& need <= slice.room()
    &&& slice.room() == need || count < MAX_SLICES
}

/// Whether slice `i` is the first that can be handed out for `need` bytes.
pub open spec fn is_first_fit(slices: Seq<Slice>, free: Seq<bool>, need: int, i: int) -> bool {
    &&& 0 <= i < slices.len()
    &&& fits(slices[i], free[i], need, slices.len())
    &&& forall|j: int| 0 <= j < i ==> !fits(#[trigger] slices[j], free[j], need, slices.len())
}

/// Whether reserving `need` bytes cuts a slice in two, so that what is left of it needs
/// an identifier.
pub open spec fn cuts(slices: Seq<Slice>, free: Seq<bool>, need: int) -> bool {
    exists|i: int| #[trigger]
        is_first_fit(slices, free, need, i) && slices[i].room() != need
}

/// A slice of which `size` bytes are in use.
pub open spec fn taken(slice: Slice, size: u64, padding: u64) -> Slice {
    Slice {
        storage: StorageHandle {
            id: slice.storage.id,
            utilization: StorageUtilization { offset: slice.storage.utilization.offset, size },
        },
        handle: slice.handle,
        padding,
        cursor: slice.cursor,
    }
}

/// What is left of a slice behind its first `need` bytes.
pub open spec fn rest(slice: Slice, need: int) -> StorageHandle {
    StorageHandle {
        id: slice.storage.id,
        utilization: StorageUtilization {
            offset: (slice.start() + need) as u64,
            size: (slice.room() - need) as u64,
        },
    }
}

/// Whether `after` is `before` once `size` bytes of slice `i` are in use: what the
/// slice has beyond them and their padding has become a slice of its own.
pub open spec fn takes(
    before: Seq<Slice>,
    after: Seq<Slice>,
    i: int,
    size: u64,
    padding: u64,
) -> bool {
    if before[i].room() == size + padding {
        after == before.update(i, taken(before[i], size, padding))
    } else {
        &&& after.len() == before.len() + 1
        &&& after == before.update(i, taken(before[i], size, padding)).insert(i + 1, after[i + 1])
        &&& after[i + 1].storage == rest(before[i], size + padding)
        &&& after[i + 1].padding == 0
        &&& after[i + 1].cursor == 0
    }
}

/// Taking bytes of a slice covers the same bytes, and a new slice starts aligned.
pub proof fn lemma_takes(
    before: Seq<Slice>,
    after: Seq<Slice>,
    i: int,
    size: u64,
    padding: u64,
    start: int,
    end: int,
    alignment: int,
)
    requires
        tiles(before, start, end),
        0 <= start,
        end <= u64::MAX,
        0 <= i < before.len(),
        takes(before, after, i, size, padding),
        size + padding <= before[i].room(),
        0 < alignment,
        (size + padding) % alignment == 0,
        forall|j: int| #![trigger before[j]]
            0 <= j < before.len() ==> before[j].start() % alignment == 0 && before[j].storage.id
                == before[i].storage.id,
    ensures
        tiles(after, start, end),
        forall|j: int| #![trigger after[j]]
            0 <= j < after.len() ==> after[j].start() % alignment == 0 && after[j].storage.id
                == before[i].storage.id,
{
    let need = size + padding;
    lemma_tiles(before, start, end);
    lemma_aligned_sum(before[i].start(), need, alignment);
    assert(before[i].end() <= end);
    if before[i].room() == need {
        assert forall|j: int, k: int| 0 <= j < after.len() && k == j + 1 && k < after.len() implies (
        #[trigger] after[k]).start() == (#[trigger] after[j]).end() by {
            assert(before[k].start() == before[j].end());
        }
        assert forall|j: int| 0 <= j < after.len() implies (#[trigger] after[j]).start() % alignment
            == 0 && after[j].storage.id == before[i].storage.id by {
            assert(before[j].start() % alignment == 0);
        }
    } else {
        let old_index = |j: int|
            if j <= i {
                j
            } else {
                j - 1
            };
        assert forall|j: int| 0 <= j < after.len() && j != i && j != i + 1 implies #[trigger] after[j]
            == before[old_index(j)] by {
        }
        assert(after[i] == taken(before[i], size, padding));
        assert forall|j: int, k: int| 0 <= j < after.len() && k == j + 1 && k < after.len() implies (
        #[trigger] after[k]).start() == (#[trigger] after[j]).end() by {
            if j < i {
                assert(before[k].start() == before[j].end());
            } else if j > i {
                assert(before[k - 1].start() == before[j - 1].end());
            }
        }
        assert forall|j: int| 0 <= j < after.len() implies (#[trigger] after[j]).start() % alignment
            == 0 && after[j].storage.id == before[i].storage.id by {
            assert(before[old_index(j)].start() % alignment == 0);
        }
    }
}

/// A slice under a new handle.
pub open spec fn bound(slice: Slice, assigned: ManagedMemoryHandle, cursor: u64) -> Slice {
    Slice { storage: slice.storage, handle: assigned, padding: slice.padding, cursor }
}

/// Whether `after`, `ids_after` and `handle` are what becomes of the slices
/// `before` and of `ids` when `size` bytes are reserved: the first slice that fits
/// is taken, if there is one.
pub open spec fn reserves(
    before: Seq<Slice>,
    free: Seq<bool>,
    size: u64,
    alignment: u64,
    ids: MemoryIds,
    after: Seq<Slice>,
    ids_after: MemoryIds,
    handle: Option<ManagedMemoryHandle>,
) -> bool {
    let need = aligned(size as int, alignment as int);
    let bytes = padding(size as int, alignment as int) as u64;
    match handle {
        Some(handle) => exists|i: int| #[trigger]
            is_first_fit(before, free, need, i) && {
                &&& takes(before, after, i, size, bytes)
                &&& handle == before[i].handle
                &&& if before[i].room() == need {
                    ids_after == ids
                } else {
                    &&& after[i + 1].handle.id().value == ids.next()
                    &&& ids_after.next() == ids.next() + 1
                }
            },
        None => {
            &&& forall|i: int| !#[trigger] is_first_fit(before, free, need, i)
            &&& after == before
            &&& ids_after == ids
        },
    }
}

/// Where a slice fits, some slice is the first that does.
pub proof fn lemma_some_fit_is_first(slices: Seq<Slice>, free: Seq<bool>, need: int, i: int) -> (first:
    int)
    requires
        0 <= i < slices.len(),
        fits(slices[i], free[i], need, slices.len()),
    ensures
        is_first_fit(slices, free, need, first),
        first <= i,
    decreases i,
{
    if exists|j: int| 0 <= j < i && fits(#[trigger] slices[j], free[j], need, slices.len()) {
        let j = choose|j: int|
            0 <= j < i && fits(#[trigger] slices[j], free[j], need, slices.len());
        lemma_some_fit_is_first(slices, free, need, j)
    } else {
        i
    }
}

impl MemoryPage {
    pub closed spec fn slices(self) -> Seq<Slice> {
        self.slices@
    }

    pub closed spec fn storage(self) -> StorageHandle {
        self.storage
    }

    pub closed spec fn alignment(self) -> u64 {
        self.alignment
    }

    /// The location of the page's first slice.
    pub closed spec fn location_base(self) -> MemoryLocation {
        self.location_base
    }

    /// What the handle of each slice was told last.
    pub closed spec fn told(self) -> Seq<Option<MemoryLocation>> {
        self.slices.told()
    }

    /// The first byte of the page.
    pub open spec fn start(self) -> int {
        self.storage().utilization.offset as int
    }

    /// The first byte behind the page.
    pub open spec fn end(self) -> int {
        self.start() + self.storage().utilization.size
    }

    /// The location of slice `i`.
    pub open spec fn location_of(self, i: int) -> MemoryLocation {
        MemoryLocation { slice: i as u32, ..self.location_base() }
    }

    /// Slices tile the page, each starts aligned, and each was last told where it is.
    pub open spec fn wf(self) -> bool {
        &&& self.alignment() > 0
        &&& self.end() <= u64::MAX
        &&& self.slices().len() <= MAX_SLICES
        &&& tiles(self.slices(), self.start(), self.end())
        &&& self.told().len() == self.slices().len()
        &&& forall|i: int| #![trigger self.slices()[i]]
            0 <= i < self.slices().len() ==> {
                &&& self.slices()[i].storage.id == self.storage().id
                &&& self.slices()[i].start() % (self.alignment() as int) == 0
                &&& self.slices()[i].was_told(self.location_of(i))
                &&& self.told()[i] == Some(self.location_of(i))
            }
    }

    /// Whether the page is the same but for how it is cut.
    pub open spec fn same_page(self, other: MemoryPage) -> bool {
        &&& self.storage() == other.storage()
        &&& self.alignment() == other.alignment()
        &&& self.location_base() == other.location_base()
    }

    /// Whether `free` says of each slice what its own handle can be read as.
    pub open spec fn reads_as(self, free: Seq<bool>) -> bool {
        &&& free.len() == self.slices().len()
        &&& forall|i: int| #![trigger free[i]]
            0 <= i < free.len() ==> self.slices()[i].handle.reads_as(free[i])
    }

    /// A page that is one slice, with `handle` on it.
    pub fn new(
        storage: StorageHandle,
        handle: ManagedMemoryHandle,
        alignment: u64,
        location_base: MemoryLocation,
    ) -> (page: Self)
        requires
            alignment > 0,
            storage.utilization.offset % alignment == 0,
            storage.utilization.offset + storage.utilization.size <= u64::MAX,
        ensures
            page.wf(),
            page.storage() == storage,
            page.alignment() == alignment,
            page.location_base() == (MemoryLocation { slice: 0, ..location_base }),
            page.slices() == seq![Slice { storage, handle, padding: 0, cursor: 0 }],
    {
        let location_base = location_base.at_slice(0);
        let mut slices: Vec<Slice> = Vec::new();
        slices.push(Slice { storage, handle, padding: 0, cursor: 0 });
        let mut page = MemoryPage { storage, slices: Tiling::of(slices), alignment, location_base };
        page.stamp(0);
        page
    }

    /// Which slices are free at the moment.
    pub fn observe(&self) -> (free: Vec<bool>)
        ensures
            self.reads_as(free@),
    {
        let mut free: Vec<bool> = Vec::new();
        let mut i: usize = 0;
        while i < self.slices.len()
            invariant
                i <= self.slices@.len(),
                free@.len() == i,
                forall|j: int| #![trigger free@[j]]
                    0 <= j < i ==> self.slices@[j].handle.reads_as(free@[j]),
            decreases self.slices@.len() - i,
        {
            free.push(self.slices.get(i).is_free());
            i = i + 1;
        }
        free
    }

    /// Tells the slices from `from` on where they are.
    fn stamp(&mut self, from: usize)
        requires
            old(self).slices().len() <= MAX_SLICES,
            old(self).told().len() == old(self).slices().len(),
        ensures
            final(self).same_page(*old(self)),
            final(self).slices() == old(self).slices(),
            final(self).told().len() == old(self).told().len(),
            forall|i: int| #![trigger final(self).told()[i]]
                0 <= i < from && i < old(self).told().len() ==> final(self).told()[i]
                    == old(self).told()[i],
            forall|i: int| #![trigger final(self).slices()[i]]
                from <= i < final(self).slices().len() ==> {
                    &&& final(self).slices()[i].was_told(final(self).location_of(i))
                    &&& final(self).told()[i] == Some(final(self).location_of(i))
                },
    {
        let mut i: usize = from;
        while i < self.slices.len()
            invariant
                from <= i,
                self.same_page(*old(self)),
                self.slices() == old(self).slices(),
                self.slices().len() <= MAX_SLICES,
                self.told().len() == self.slices().len(),
                self.told().len() == old(self).told().len(),
                forall|j: int| #![trigger self.told()[j]]
                    0 <= j < from && j < self.told().len() ==> self.told()[j]
                        == old(self).told()[j],
                forall|j: int| #![trigger self.slices()[j]]
                    from <= j < i && j < self.slices().len() ==> {
                        &&& self.slices()[j].was_told(self.location_of(j))
                        &&& self.told()[j] == Some(self.location_of(j))
                    },
            decreases self.slices().len() - i,
        {
            self.slices.tell(i, self.location_base.at_slice(i as u32));
            i = i + 1;
        }
    }

    /// Gets the memory usage of the page, if the slices that are free are those
    /// that `free` says.
    pub fn memory_usage_with(&self, free: &Vec<bool>) -> (usage: MemoryUsage)
        requires
            self.wf(),
            free@.len() == self.slices().len(),
        ensures
            usage.number_allocs == sum_where(self.slices(), free@, false, one()),
            usage.bytes_in_use == sum_where(self.slices(), free@, false, usable()),
            usage.bytes_padding == sum_where(self.slices(), free@, false, padded()),
            usage.bytes_reserved == self.storage().utilization.size,
    {
        let mut usage = MemoryUsage::none();
        let mut i: usize = 0;
        while i < self.slices.len()
            invariant
                self.wf(),
                i <= self.slices@.len(),
                free@.len() == self.slices@.len(),
                usage.number_allocs == sum_where(
                    self.slices@.take(i as int),
                    free@.take(i as int),
                    false,
                    one(),
                ),
                usage.bytes_in_use == sum_where(
                    self.slices@.take(i as int),
                    free@.take(i as int),
                    false,
                    usable(),
                ),
                usage.bytes_padding == sum_where(
                    self.slices@.take(i as int),
                    free@.take(i as int),
                    false,
                    padded(),
                ),
                usage.bytes_reserved == if i == 0 {
                    0
                } else {
                    self.slices@[i - 1].end() - self.start()
                },
            decreases self.slices@.len() - i,
        {
            proof {
                let n = i as int;
                lemma_prefix_sums(self.slices@, free@, self.start(), self.end(), n + 1);
                lemma_sum_step(self.slices@, free@, false, one(), n);
                lemma_sum_step(self.slices@, free@, false, usable(), n);
                lemma_sum_step(self.slices@, free@, false, padded(), n);
                if i > 0 {
                    assert(self.slices()[n].start() == self.slices()[n - 1].end());
                }
                assert(self.slices()[n].start() == self.start() + usage.bytes_reserved);
            }
            usage.bytes_reserved = usage.bytes_reserved + self.slices.get(i).effective_size();
            if !free[i] {
                usage.number_allocs = usage.number_allocs + 1;
                usage.bytes_in_use = usage.bytes_in_use + self.slices.get(i).storage.size();
                usage.bytes_padding = usage.bytes_padding + self.slices.get(i).padding;
            }
            i = i + 1;
        }
        proof {
            assert(self.slices@.take(i as int) =~= self.slices@);
            assert(free@.take(i as int) =~= free@);
        }
        usage
    }

    /// Gets the summary of the page, if the slices that are free are those that
    /// `free` says.
    pub fn summary_with(&self, free: &Vec<bool>) -> (summary: MemoryPageSummary)
        requires
            self.wf(),
            free@.len() == self.slices().len(),
        ensures
            summary.amount_free == sum_where(self.slices(), free@, true, room()),
            summary.amount_full == sum_where(self.slices(), free@, false, room()),
            summary.amount_total == self.storage().utilization.size,
            summary.num_free == sum_where(self.slices(), free@, true, one()),
            summary.num_full == sum_where(self.slices(), free@, false, one()),
            summary.num_total == self.slices().len(),
    {
        let mut amount_free: u64 = 0;
        let mut amount_full: u64 = 0;
        let mut num_free: usize = 0;
        let mut num_full: usize = 0;
        let mut i: usize = 0;
        while i < self.slices.len()
            invariant
                self.wf(),
                i <= self.slices@.len(),
                free@.len() == self.slices@.len(),
                amount_free == sum_where(
                    self.slices@.take(i as int),
                    free@.take(i as int),
                    true,
                    room(),
                ),
                amount_full == sum_where(
                    self.slices@.take(i as int),
                    free@.take(i as int),
                    false,
                    room(),
                ),
                num_free == sum_where(self.slices@.take(i as int), free@.take(i as int), true, one()),
                num_full == sum_where(
                    self.slices@.take(i as int),
                    free@.take(i as int),
                    false,
                    one(),
                ),
            decreases self.slices@.len() - i,
        {
            proof {
                let n = i as int;
                lemma_prefix_sums(self.slices@, free@, self.start(), self.end(), n + 1);
                lemma_sum_step(self.slices@, free@, true, room(), n);
                lemma_sum_step(self.slices@, free@, false, room(), n);
                lemma_sum_step(self.slices@, free@, true, one(), n);
                lemma_sum_step(self.slices@, free@, false, one(), n);
                lemma_tiles(self.slices(), self.start(), self.end());
                assert(self.slices()[n].end() <= self.end());
            }
            if free[i] {
                amount_free = amount_free + self.slices.get(i).effective_size();
                num_free = num_free + 1;
            } else {
                amount_full = amount_full + self.slices.get(i).effective_size();
                num_full = num_full + 1;
            }
            i = i + 1;
        }
        proof {
            assert(self.slices@.take(i as int) =~= self.slices@);
            assert(free@.take(i as int) =~= free@);
            lemma_tiles_sum(self.slices(), free@, self.start(), self.end());
            lemma_counts(self.slices(), free@);
        }
        MemoryPageSummary {
            amount_free,
            amount_full,
            amount_total: amount_free + amount_full,
            num_free,
            num_full,
            num_total: num_free + num_full,
        }
    }

    /// Merges adjacent free slices, if the slices that are free are those that
    /// `free` says. Returns which of the slices are then free.
    ///
    /// This is necessary to allow bigger slices to be reserved on the page.
    #[verifier::spinoff_prover]
    #[verifier::rlimit(40)]
    pub fn coalesce_with(&mut self, free: &Vec<bool>) -> (now_free: Vec<bool>)
        requires
            old(self).wf(),
            free@.len() == old(self).slices().len(),
        ensures
            final(self).wf(),
            final(self).same_page(*old(self)),
            (final(self).slices(), now_free@) == coalesced(old(self).slices(), free@),
            now_free@.len() == final(self).slices().len(),
    {
        let ghost before = self.slices@;
        let slices = self.slices.take_all();
        let mut kept: Vec<Slice> = Vec::new();
        let mut kept_free: Vec<bool> = Vec::new();
        let mut i: usize = 0;
        for slice in iter: slices
            invariant
                iter.seq() == before,
                i == iter.index(),
                i <= before.len() <= MAX_SLICES,
                free@.len() == before.len(),
                tiles(before, old(self).start(), old(self).end()),
                old(self).end() <= u64::MAX,
                i > 0 ==> tiles(
                    before.take(i as int),
                    old(self).start(),
                    before[i - 1].end(),
                ),
                (kept@, kept_free@) == coalesced(before.take(i as int), free@.take(i as int)),
                kept@.len() == kept_free@.len(),
        {
            proof {
                let n = i as int;
                let next = before.take(n + 1);
                let next_free = free@.take(n + 1);
                assert(next.drop_last() =~= before.take(n));
                assert(next_free.drop_last() =~= free@.take(n));
                lemma_tiles(before, old(self).start(), old(self).end());
                assert(tiles(next, old(self).start(), before[n].end())) by {
                    assert forall|i: int, j: int|
                        0 <= i < next.len() && j == i + 1 && j < next.len() implies (
                    #[trigger] next[j]).start() == (#[trigger] next[i]).end() by {
                        assert(before[j].start() == before[i].end());
                    }
                }
                if n > 0 {
                    lemma_coalesced(
                        before.take(n),
                        free@.take(n),
                        old(self).start(),
                        before[n - 1].end(),
                    );
                    lemma_tiles(kept@, old(self).start(), before[n - 1].end());
                    assert(before[n].start() == before[n - 1].end());
                    assert(kept@.last().room() + before[n].room() <= u64::MAX);
                }
            }
            let is_free = free[i];
            let count: usize = kept.len();
            if is_free && count > 0 && kept_free[count - 1] {
                let last = kept.pop().unwrap();
                let size: u64 = last.effective_size() + slice.effective_size();
                kept.push(
                    Slice {
                        storage: StorageHandle {
                            id: last.storage.id,
                            utilization: StorageUtilization { offset: last.storage.offset(), size },
                        },
                        handle: last.handle,
                        padding: 0,
                        cursor: 0,
                    },
                );
            } else {
                kept.push(slice);
                kept_free.push(is_free);
            }
            i = i + 1;
            proof {
                let (old_kept, old_kept_free) = coalesced(before.take(i - 1), free@.take(i - 1));
                if is_free && count > 0 && old_kept_free.last() {
                    assert(kept@ =~= old_kept.update(
                        old_kept.len() - 1,
                        merged(old_kept.last(), before[i - 1]),
                    ));
                }
            }
        }
        self.slices = Tiling::of(kept);
        proof {
            assert(before.take(i as int) =~= before);
            assert(free@.take(i as int) =~= free@);
            lemma_coalesced(before, free@, self.start(), self.end());
            assert forall|k: int| 0 <= k < self.slices().len() implies {
                &&& (#[trigger] self.slices()[k]).storage.id == self.storage().id
                &&& self.slices()[k].start() % (self.alignment() as int) == 0
            } by {
                let j = choose|j: int|
                    #![trigger before[j]]
                    0 <= j < before.len() && self.slices()[k].start() == before[j].start()
                        && self.slices()[k].storage.id == before[j].storage.id;
                assert(old(self).slices()[j] == before[j]);
            }
        }
        self.stamp(0);
        kept_free
    }

    /// Reserves a slice of the given size if there is enough place in the page and
    /// the slices that are free are those that `free` says.
    ///
    /// Where the page is fragmented, adjacent free slices may first have to be
    /// merged, with [`Self::coalesce_with`].
    pub fn try_reserve_with(&mut self, size: u64, free: &Vec<bool>, ids: &mut MemoryIds) -> (handle:
        Option<ManagedMemoryHandle>)
        requires
            old(self).wf(),
            free@.len() == old(self).slices().len(),
            cuts(
                old(self).slices(),
                free@,
                aligned(size as int, old(self).alignment() as int),
            ) ==> old(ids).left() > 0,
        ensures
            final(self).wf(),
            final(self).same_page(*old(self)),
            reserves(
                old(self).slices(),
                free@,
                size,
                old(self).alignment(),
                *old(ids),
                final(self).slices(),
                *final(ids),
                handle,
            ),
    {
        let ghost before = self.slices@;
        let bytes: u64 = calculate_padding(size, self.alignment);
        let ghost need = aligned(size as int, self.alignment as int);
        proof {
            lemma_tiles(before, self.start(), self.end());
            lemma_aligned(size as int, self.alignment as int);
        }
        let effective_size: u64 = match size.checked_add(bytes) {
            Some(effective_size) => effective_size,
            None => {
                assert forall|i: int| !#[trigger] is_first_fit(before, free@, need, i) by {
                    if is_first_fit(before, free@, need, i) {
                        assert(before[i].end() <= self.end());
                    }
                }
                return None;
            },
        };
        let mut i: usize = 0;
        while i < self.slices.len()
            invariant
                self.wf(),
                self.slices@ == before,
                i <= before.len(),
                free@.len() == before.len(),
                effective_size == need,
                forall|j: int| 0 <= j < i ==> !fits(
                    #[trigger] before[j],
                    free@[j],
                    need,
                    before.len(),
                ),
                forall|j: int| #![trigger before[j]]
                    0 <= j < before.len() ==> before[j].end() <= u64::MAX,
            ensures
                i < before.len() ==> is_first_fit(before, free@, need, i as int),
            decreases before.len() - i,
        {
            let available: u64 = self.slices.get(i).effective_size();
            if free[i] && effective_size <= available && (available == effective_size
                || self.slices.len() < MAX_SLICES) {
                break;
            }
            i = i + 1;
        }
        if i == self.slices.len() {
            return None;
        }
        let offset: u64 = self.slices.get(i).storage.offset();
        let id = self.slices.get(i).storage.id;
        let available: u64 = self.slices.get(i).effective_size();
        self.slices.set_part(i, size, bytes);
        assert(self.slices@ =~= before.update(i as int, taken(before[i as int], size, bytes)));
        if effective_size < available {
            assert(is_first_fit(before, free@, need, i as int));
            let behind = Slice::new(
                StorageHandle {
                    id,
                    utilization: StorageUtilization {
                        offset: offset + effective_size,
                        size: available - effective_size,
                    },
                },
                0,
                ids,
            );
            self.slices.insert(i + 1, behind);
            proof {
                assert(self.slices@ =~= before.update(
                    i as int,
                    taken(before[i as int], size, bytes),
                ).insert(i + 1, behind));
            }
            self.stamp(i + 1);
        }
        proof {
            let after = self.slices@;
            if effective_size == available {
                assert(after =~= before.update(i as int, taken(before[i as int], size, bytes)));
            }
            assert(takes(before, after, i as int, size, bytes));
            lemma_takes(
                before,
                after,
                i as int,
                size,
                bytes,
                self.start(),
                self.end(),
                self.alignment as int,
            );
            assert(is_first_fit(before, free@, need, i as int));
            assert forall|j: int| 0 <= j < after.len() implies {
                &&& (#[trigger] after[j]).was_told(self.location_of(j))
                &&& self.told()[j] == Some(self.location_of(j))
            } by {
                if j < i || j == i || effective_size == available {
                    assert(old(self).slices()[j].was_told(old(self).location_of(j)));
                    assert(after[j].handle == before[j].handle);
                    assert(self.told()[j] == old(self).told()[j]);
                } else {
                    assert(self.slices()[j].was_told(self.location_of(j)));
                }
            }
        }
        Some(self.slices.hand_out(i))
    }

    /// The slice at `position`.
    pub fn find(&self, position: usize) -> (found: Result<&Slice, IoError>)
        ensures
            match found {
                Ok(slice) => position < self.slices().len() && *slice
                    == self.slices()[position as int],
                Err(error) => position >= self.slices().len() && error == (IoError::NotFound {
                    page: self.location_base().page,
                }),
            },
    {
        if position < self.slices.len() {
            Ok(self.slices.get(position))
        } else {
            Err(page_not_found(self.location_base.page))
        }
    }

    /// Gives the slice at `position` the handle `assigned`, which then knows where
    /// it is.
    pub fn bind(&mut self, position: usize, assigned: ManagedMemoryHandle, cursor: u64) -> (result:
        Result<(), IoError>)
        requires
            old(self).wf(),
        ensures
            final(self).wf(),
            final(self).same_page(*old(self)),
            match result {
                Ok(_) => {
                    &&& position < old(self).slices().len()
                    &&& final(self).slices() == old(self).slices().update(
                        position as int,
                        bound(old(self).slices()[position as int], assigned, cursor),
                    )
                    &&& assigned.shared().locations().contains(
                        old(self).location_of(position as int),
                    )
                },
                Err(error) => {
                    &&& position >= old(self).slices().len()
                    &&& *final(self) == *old(self)
                    &&& error == (IoError::NotFound { page: old(self).location_base().page })
                },
            },
    {
        if position >= self.slices.len() {
            return Err(page_not_found(self.location_base.page));
        }
        self.slices.assign(position, assigned, cursor);
        self.slices.tell(position, self.location_base.at_slice(position as u32));
        proof {
            let before = old(self).slices();
            let after = self.slices();
            assert(after =~= before.update(
                position as int,
                bound(before[position as int], assigned, cursor),
            ));
            assert forall|i: int, j: int|
                0 <= i < after.len() && j == i + 1 && j < after.len() implies (
            #[trigger] after[j]).start() == (#[trigger] after[i]).end() by {
                assert(before[j].start() == before[i].end());
            }
            assert forall|i: int| 0 <= i < after.len() implies {
                &&& (#[trigger] after[i]).storage.id == self.storage().id
                &&& after[i].start() % (self.alignment() as int) == 0
                &&& after[i].was_told(self.location_of(i))
                &&& self.told()[i] == Some(self.location_of(i))
            } by {
                assert(before[i].was_told(old(self).location_of(i)));
            }
        }
        Ok(())
    }
}

} // verus!
