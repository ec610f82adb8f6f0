//! What holds of keys, identifiers and alignments.

use crate::align::{clamped, is_next_power_of_two};
use crate::handle::{ManagedMemoryHandle, MemoryIds};
use crate::page_key::{is_live, PageKey};
use crate::page_map::{generations_advance, PageMap};
use vstd::arithmetic::power2::{lemma2_to64, pow2};
use vstd::prelude::*;

verus! {

/// Whether `key` names an occupant of its slot that has left.
pub open spec fn is_stale(generations: Seq<u32>, key: PageKey) -> bool {
    0 <= key.slot() < generations.len() && key.generation() < generations[key.slot()]
}

/// A stale key stays stale as long as no slot goes back to an earlier generation, and
/// finds nothing, whoever is in its slot by then.
pub proof fn stale_key_finds_nothing<V>(before: Seq<u32>, later: PageMap<V>, key: PageKey)
    requires
        is_stale(before, key),
        later.wf(),
        generations_advance(before, later.generations()),
    ensures
        is_stale(later.generations(), key),
        later.lookup(key) is None,
{
    later.lemma_keys();
    assert(before[key.slot()] <= later.generations()[key.slot()]);
    assert(!is_live(later.generations(), key));
}

/// The null key finds nothing.
pub proof fn null_key_finds_nothing<V>(map: PageMap<V>, key: PageKey)
    requires
        map.wf(),
        key.is_null(),
    ensures
        map.lookup(key) is None,
{
    map.lemma_keys();
    assert(map.lookup(key) is Some ==> !key.is_null());
}

/// A key that is made differs from every key that is live, and from every key that is
/// stale.
pub proof fn new_key_is_new<V>(before: PageMap<V>, key: PageKey, after: PageMap<V>, other: PageKey)
    requires
        after.wf(),
        before.lookup(key) is None,
        after.lookup(key) is Some,
        generations_advance(before.generations(), after.generations()),
        is_stale(before.generations(), other) || before.lookup(other) is Some,
    ensures
        key != other,
{
    if is_stale(before.generations(), other) {
        stale_key_finds_nothing(before.generations(), after, other);
    }
}

/// Generations that advance twice have advanced.
pub proof fn advancing_is_transitive(a: Seq<u32>, b: Seq<u32>, c: Seq<u32>)
    requires
        generations_advance(a, b),
        generations_advance(b, c),
    ensures
        generations_advance(a, c),
{
    assert forall|slot: int| 0 <= slot < a.len() implies a[slot] <= c[slot] by {
        assert(a[slot] <= b[slot]);
        assert(b[slot] <= c[slot]);
    }
}

/// Identifiers that are drawn one after the other differ.
pub proof fn ids_differ(
    first: MemoryIds,
    first_handle: ManagedMemoryHandle,
    first_after: MemoryIds,
    second: MemoryIds,
    second_handle: ManagedMemoryHandle,
)
    requires
        first_handle.id().value == first.next(),
        first_after.next() == first.next() + 1,
        first_after.next() <= second.next(),
        second_handle.id().value == second.next(),
    ensures
        first_handle.id() != second_handle.id(),
{
}

/// The alignment of a dimension that is no unit lies between 16 and the alignment of the
/// buffer, covers the row as far as the buffer's alignment lets it, and is a power of two if
/// the buffer's is.
pub proof fn alignment_is_within_bounds(size: nat, power: nat, buffer_align: nat)
    requires
        16 <= buffer_align,
        is_next_power_of_two(power, size),
    ensures
        ({
            let align = clamped(power as int, 16, buffer_align as int);
            &&& 16 <= align <= buffer_align
            &&& size <= align || align == buffer_align
            &&& is_power_of_two(buffer_align) ==> is_power_of_two(align as nat)
        }),
{
    assert(pow2(4) == 16) by {
        lemma2_to64();
    }
    assert(is_power_of_two(16));
    let exponent = choose|exponent: nat| power == #[trigger] pow2(exponent);
    assert(is_power_of_two(power));
}

/// Whether `n` is a power of two.
pub open spec fn is_power_of_two(n: nat) -> bool {
    exists|exponent: nat| n == #[trigger] pow2(exponent)
}

} // verus!
