//! Keys of pages, and the table that hands them out.
//!
//! A key names a slot and the generation of the slot's occupant. A table raises
//! the generation of a slot when its occupant leaves, so a key that outlives its
//! page resolves to nothing, even once the slot has a new occupant.

use vstd::prelude::*;

verus! {

/// The number of keys that differ in nothing but their generation.
pub const GENERATION: u64 = 0x1_0000_0000;

/// Identifies a page in a memory pool: the slot the page occupies, plus the
/// generation that says which occupant of that slot it is.
///
/// Occupants have odd generations; an even one belongs to a vacant slot, which
/// no key names.
#[derive(Clone, Copy, Debug, PartialEq, Eq, Hash, Structural)]
pub struct PageKey {
    pub(crate) value: u64,
}

impl PageKey {
    #[verifier::type_invariant]
    pub open spec fn names_an_occupant(self) -> bool {
        self.generation() % 2 == 1
    }

    /// The slot that the key names.
    pub closed spec fn slot(self) -> int {
        (self.value % GENERATION) as int
    }

    /// The generation of the slot's occupant that the key names.
    pub closed spec fn generation(self) -> int {
        (self.value / GENERATION) as int
    }

    /// The key that no page ever has.
    pub open spec fn is_null(self) -> bool {
        self.slot() == u32::MAX && self.generation() == 1
    }

    /// A slot and a generation determine the key.
    pub proof fn lemma_parts_determine_key(a: PageKey, b: PageKey)
        requires
            a.slot() == b.slot(),
            a.generation() == b.generation(),
        ensures
            a == b,
    {
    }

    pub proof fn lemma_parts_in_range(self)
        ensures
            0 <= self.slot() <= u32::MAX,
            0 <= self.generation() <= u32::MAX,
    {
    }

    pub(crate) fn slot_index(self) -> (index: usize)
        ensures
            index == self.slot(),
    {
        (self.value % GENERATION) as usize
    }
}

impl Default for PageKey {
    /// The null key.
    fn default() -> (key: Self)
        ensures
            key.is_null(),
    {
        PageKey { value: 0x1_ffff_ffff }
    }
}

/// Slots with their generations; `slotmap` keeps them and decides which slot a
/// new key names.
#[verifier::external_body]
pub struct KeyTable {
    slots: slotmap::SlotMap<slotmap::DefaultKey, ()>,
}

/// What a table holds: the generation of every slot, by slot. Slot 0 is never
/// occupied.
pub uninterp spec fn generations(table: KeyTable) -> Seq<u32>;

/// Whether `key` names the present occupant of its slot.
pub open spec fn is_live(generations: Seq<u32>, key: PageKey) -> bool {
    0 <= key.slot() < generations.len() && generations[key.slot()] == key.generation()
}

/// Whether a key can be made out of slot `slot` as it stands.
pub open spec fn is_vacant(generations: Seq<u32>, slot: int) -> bool {
    0 < slot < generations.len() && generations[slot] % 2 == 0
}

/// Whether there is a slot for one more key.
pub open spec fn has_room(generations: Seq<u32>) -> bool {
    generations.len() < u32::MAX || exists|slot: int| is_vacant(generations, slot)
}

/// Whether `after` is `before` once `key` has been made out of a slot: a vacant one,
/// which goes on to the next generation, or else one that is added.
pub open spec fn occupies(before: Seq<u32>, key: PageKey, after: Seq<u32>) -> bool {
    if is_vacant(before, key.slot()) {
        &&& key.generation() == before[key.slot()] + 1
        &&& after == before.update(key.slot(), key.generation() as u32)
    } else {
        &&& forall|slot: int| !is_vacant(before, slot)
        &&& key.slot() == before.len()
        &&& key.generation() == 1
        &&& after == before.push(1)
    }
}

/// The generation that follows `generation`; the last one is followed by 0.
pub open spec fn next_generation(generation: u32) -> u32 {
    if generation == u32::MAX {
        0
    } else {
        (generation + 1) as u32
    }
}

/// The live keys, by slot.
pub open spec fn live_keys(generations: Seq<u32>) -> Seq<PageKey>
    decreases generations.len(),
{
    if generations.len() == 0 {
        Seq::empty()
    } else {
        let rest = live_keys(generations.drop_last());
        if generations.last() % 2 == 1 {
            rest.push(key_of(generations.len() - 1, generations.last()))
        } else {
            rest
        }
    }
}

/// The key that names slot `slot` in generation `generation`.
pub closed spec fn key_of(slot: int, generation: u32) -> PageKey {
    PageKey { value: (generation * GENERATION + slot) as u64 }
}

pub proof fn lemma_key_of(slot: int, generation: u32)
    requires
        0 <= slot <= u32::MAX,
    ensures
        key_of(slot, generation).slot() == slot,
        key_of(slot, generation).generation() == generation,
{
    assert(generation * GENERATION + slot <= u64::MAX) by (nonlinear_arith)
        requires
            slot <= u32::MAX,
            generation <= u32::MAX,
            GENERATION == 0x1_0000_0000,
    ;
}

/// The live keys are those that name the present occupant of their slot, each
/// listed once, by slot.
pub proof fn lemma_live_keys(generations: Seq<u32>)
    requires
        generations.len() <= u32::MAX,
    ensures
        live_keys(generations).len() <= generations.len(),
        forall|i: int| #![trigger live_keys(generations)[i]]
            0 <= i < live_keys(generations).len() ==> {
                &&& is_live(generations, live_keys(generations)[i])
                &&& live_keys(generations)[i].generation() % 2 == 1
            },
        forall|i: int, j: int| #![trigger live_keys(generations)[i], live_keys(generations)[j]]
            0 <= i < j < live_keys(generations).len() ==> live_keys(generations)[i].slot()
                < live_keys(generations)[j].slot(),
        forall|key: PageKey| #![trigger live_keys(generations).contains(key)]
            is_live(generations, key) && key.generation() % 2 == 1 ==> live_keys(
                generations,
            ).contains(key),
    decreases generations.len(),
{
    if generations.len() > 0 {
        let front = generations.drop_last();
        let last = generations.len() - 1;
        let keys = live_keys(generations);
        lemma_live_keys(front);
        lemma_key_of(last, generations.last());
        assert forall|i: int| 0 <= i < keys.len() implies {
            &&& is_live(generations, #[trigger] keys[i])
            &&& keys[i].generation() % 2 == 1
        } by {
            if i < live_keys(front).len() {
                assert(keys[i] == live_keys(front)[i]);
            }
        }
        assert forall|i: int, j: int| 0 <= i < j < keys.len() implies (#[trigger] keys[i]).slot()
            < (#[trigger] keys[j]).slot() by {
            assert(keys[i] == live_keys(front)[i]);
            if j < live_keys(front).len() {
                assert(keys[j] == live_keys(front)[j]);
            }
        }
        assert forall|key: PageKey|
            is_live(generations, key) && key.generation() % 2 == 1 implies #[trigger] keys.contains(
            key,
        ) by {
            if key.slot() == last {
                PageKey::lemma_parts_determine_key(key, key_of(last, generations.last()));
                assert(keys[keys.len() - 1] == key);
            } else {
                assert(is_live(front, key));
                assert(live_keys(front).contains(key));
                let i = choose|i: int|
                    0 <= i < live_keys(front).len() && live_keys(front)[i] == key;
                assert(keys[i] == key);
            }
        }
    }
}

/// A slot that becomes occupied adds its key between those of the slots before
/// it and those of the slots behind it.
pub proof fn lemma_live_keys_occupy(generations: Seq<u32>, slot: int, generation: u32)
    requires
        0 <= slot < generations.len(),
        generations[slot] % 2 == 0,
        generation % 2 == 1,
    ensures
        live_keys(generations.take(slot)).len() <= live_keys(generations).len(),
        live_keys(generations.update(slot, generation)) == live_keys(generations).insert(
            live_keys(generations.take(slot)).len() as int,
            key_of(slot, generation),
        ),
    decreases generations.len(),
{
    let after = generations.update(slot, generation);
    if slot == generations.len() - 1 {
        assert(generations.take(slot) =~= generations.drop_last());
        assert(after.drop_last() =~= generations.drop_last());
        assert(live_keys(after) =~= live_keys(generations).insert(
            live_keys(generations.take(slot)).len() as int,
            key_of(slot, generation),
        ));
    } else {
        let front = generations.drop_last();
        lemma_live_keys_occupy(front, slot, generation);
        assert(front.take(slot) =~= generations.take(slot));
        assert(after.drop_last() =~= front.update(slot, generation));
        assert(live_keys(after) =~= live_keys(generations).insert(
            live_keys(generations.take(slot)).len() as int,
            key_of(slot, generation),
        ));
    }
}

/// A slot that becomes vacant takes its key out and leaves the others in order.
pub proof fn lemma_live_keys_vacate(generations: Seq<u32>, slot: int, generation: u32)
    requires
        0 <= slot < generations.len(),
        generations[slot] % 2 == 1,
        generation % 2 == 0,
    ensures
        live_keys(generations.take(slot)).len() < live_keys(generations).len(),
        live_keys(generations)[live_keys(generations.take(slot)).len() as int] == key_of(
            slot,
            generations[slot],
        ),
        live_keys(generations.update(slot, generation)) == live_keys(generations).remove(
            live_keys(generations.take(slot)).len() as int,
        ),
    decreases generations.len(),
{
    let after = generations.update(slot, generation);
    if slot == generations.len() - 1 {
        assert(generations.take(slot) =~= generations.drop_last());
        assert(after.drop_last() =~= generations.drop_last());
        assert(live_keys(after) =~= live_keys(generations).remove(
            live_keys(generations.take(slot)).len() as int,
        ));
    } else {
        let front = generations.drop_last();
        lemma_live_keys_vacate(front, slot, generation);
        assert(front.take(slot) =~= generations.take(slot));
        assert(after.drop_last() =~= front.update(slot, generation));
        assert(live_keys(after) =~= live_keys(generations).remove(
            live_keys(generations.take(slot)).len() as int,
        ));
    }
}

impl KeyTable {
    /// `slotmap::SlotMap::with_key`: no key, and a single slot that stays vacant.
    #[verifier::external_body]
    pub(crate) fn with_key() -> (table: Self)
        ensures
            generations(table) == seq![0u32],
    {
        KeyTable { slots: slotmap::SlotMap::with_key() }
    }

    /// `slotmap::SlotMap::insert`: makes a key out of some vacant slot, whose
    /// generation becomes the next, odd one. Which of several vacant slots it is,
    /// is not stated. Only where none is vacant, a slot is added.
    #[verifier::external_body]
    pub(crate) fn insert(&mut self) -> (key: PageKey)
        requires
            has_room(generations(*old(self))),
        ensures
            occupies(generations(*old(self)), key, generations(*final(self))),
    {
        PageKey { value: slotmap::Key::data(&self.slots.insert(())).as_ffi() }
    }

    /// `slotmap::SlotMap::contains_key`.
    #[verifier::external_body]
    pub(crate) fn contains_key(&self, key: PageKey) -> (live: bool)
        requires
            key.generation() % 2 == 1,
        ensures
            live == is_live(generations(*self), key),
    {
        self.slots.contains_key(slotmap::KeyData::from_ffi(key.value).into())
    }

    /// `slotmap::SlotMap::remove`: a live key is taken out, and its slot goes on
    /// to the next generation; of any other key nothing is changed.
    #[verifier::external_body]
    pub(crate) fn remove(&mut self, key: PageKey) -> (removed: bool)
        requires
            key.generation() % 2 == 1,
        ensures
            removed == is_live(generations(*old(self)), key),
            generations(*final(self)) == if is_live(generations(*old(self)), key) {
                generations(*old(self)).update(key.slot(), next_generation(key.generation() as u32))
            } else {
                generations(*old(self))
            },
    {
        self.slots.remove(slotmap::KeyData::from_ffi(key.value).into()).is_some()
    }

    /// `slotmap::SlotMap::keys`: the live keys, slot by slot.
    #[verifier::external_body]
    pub(crate) fn keys(&self) -> (keys: Vec<PageKey>)
        ensures
            keys@ == live_keys(generations(*self)),
    {
        self.slots.keys().map(|key| PageKey { value: slotmap::Key::data(&key).as_ffi() }).collect()
    }
}

} // verus!
