//! Pages under keys that stay valid for as long as the page is there.

use crate::page_key::{
    generations, has_room, is_live, is_vacant, key_of, lemma_key_of, lemma_live_keys,
    lemma_live_keys_occupy, lemma_live_keys_vacate, live_keys, next_generation, occupies, KeyTable,
    PageKey,
};
use vstd::prelude::*;

verus! {

/// Pages by key. A page keeps its key until it is removed, whatever becomes of
/// the others.
pub struct PageMap<V> {
    /// Makes the keys and knows which of them are live.
    table: KeyTable,
    /// The page of each slot of `table`.
    pages: Vec<Option<V>>,
}

impl<V> PageMap<V> {
    pub closed spec fn wf(self) -> bool {
        &&& 0 < self.pages@.len() <= u32::MAX
        &&& self.pages@.len() == self.generations().len()
        &&& self.generations()[0] == 0
        &&& forall|slot: int| #![trigger self.pages@[slot]]
            0 <= slot < self.pages@.len() ==> (self.pages@[slot] is Some <==> self.generations()[slot]
                % 2 == 1)
    }

    /// The generation of every slot.
    pub closed spec fn generations(self) -> Seq<u32> {
        generations(self.table)
    }

    /// The keys of the pages, by slot.
    pub closed spec fn keys(self) -> Seq<PageKey> {
        live_keys(self.generations())
    }

    /// The page that `key` names, if it is still there.
    pub closed spec fn lookup(self, key: PageKey) -> Option<V> {
        if is_live(self.generations(), key) {
            self.pages@[key.slot()]
        } else {
            None
        }
    }

    /// The pages in the order of their keys.
    pub open spec fn values(self) -> Seq<V> {
        Seq::new(self.keys().len(), |i: int| self.lookup(self.keys()[i])->0)
    }

    /// Where `key` stands, or would stand, among the keys.
    pub closed spec fn place(self, key: PageKey) -> int {
        live_keys(self.generations().take(key.slot())).len() as int
    }

    /// The keys are those that find a page, each listed once.
    pub proof fn lemma_keys(self)
        requires
            self.wf(),
        ensures
            self.generations().len() <= u32::MAX,
            self.keys().len() < u32::MAX,
            forall|i: int| #![trigger self.keys()[i]]
                0 <= i < self.keys().len() ==> {
                    &&& self.lookup(self.keys()[i]) is Some
                    &&& is_live(self.generations(), self.keys()[i])
                    &&& self.keys()[i].generation() % 2 == 1
                    &&& !self.keys()[i].is_null()
                },
            forall|i: int, j: int| #![trigger self.keys()[i], self.keys()[j]]
                0 <= i < j < self.keys().len() ==> self.keys()[i].slot() < self.keys()[j].slot(),
            forall|key: PageKey| #![trigger self.lookup(key)]
                key.generation() % 2 == 1 ==> (self.lookup(key) is Some <==> self.keys().contains(
                    key,
                )),
            forall|key: PageKey| #![trigger self.lookup(key)]
                self.lookup(key) is Some ==> is_live(self.generations(), key) && key.generation()
                    % 2 == 1 && !key.is_null(),
            forall|key: PageKey| #![trigger self.lookup(key)]
                !is_live(self.generations(), key) ==> self.lookup(key) is None,
    {
        let generations = self.generations();
        lemma_live_keys(generations);
        assert(live_keys(generations).len() < generations.len()) by {
            lemma_sentinel_has_no_key(generations);
        }
        assert forall|i: int| 0 <= i < self.keys().len() implies {
            &&& self.lookup(#[trigger] self.keys()[i]) is Some
            &&& is_live(generations, self.keys()[i])
            &&& self.keys()[i].generation() % 2 == 1
            &&& !self.keys()[i].is_null()
        } by {
            let key = self.keys()[i];
            assert(self.pages@[key.slot()] is Some);
        }
        assert forall|key: PageKey| key.generation() % 2 == 1 implies (#[trigger] self.lookup(
            key,
        ) is Some <==> self.keys().contains(key)) by {
            if self.lookup(key) is Some {
                assert(live_keys(generations).contains(key));
            }
            if self.keys().contains(key) {
                let i = choose|i: int| 0 <= i < self.keys().len() && self.keys()[i] == key;
                assert(self.lookup(self.keys()[i]) is Some);
            }
        }
        assert forall|key: PageKey| #[trigger] self.lookup(key) is Some implies is_live(
            generations,
            key,
        ) && key.generation() % 2 == 1 && !key.is_null() by {
            assert(self.pages@[key.slot()] is Some);
        }
    }

    pub fn new() -> (map: Self)
        ensures
            map.wf(),
            map.generations() == seq![0u32],
            map.keys() == Seq::<PageKey>::empty(),
            forall|key: PageKey| map.lookup(key) is None,
    {
        let mut pages: Vec<Option<V>> = Vec::new();
        pages.push(None);
        let map = PageMap { table: KeyTable::with_key(), pages };
        proof {
            reveal_with_fuel(live_keys, 2);
            assert(map.keys() =~= Seq::<PageKey>::empty());
            assert(map.pages@[0] is None);
        }
        map
    }

    /// Whether there is a slot for one more page.
    pub fn has_room(&self) -> (room: bool)
        requires
            self.wf(),
        ensures
            room == has_room(self.generations()),
    {
        if self.pages.len() < u32::MAX as usize {
            return true;
        }
        let mut slot: usize = 1;
        while slot < self.pages.len()
            invariant
                self.wf(),
                1 <= slot <= self.pages@.len(),
                forall|i: int| 0 < i < slot ==> !is_vacant(self.generations(), i),
            decreases self.pages@.len() - slot,
        {
            if self.pages[slot].is_none() {
                assert(is_vacant(self.generations(), slot as int));
                return true;
            }
            slot = slot + 1;
        }
        false
    }

    /// The keys of the pages, by slot.
    pub fn list_keys(&self) -> (keys: Vec<PageKey>)
        ensures
            keys@ == self.keys(),
    {
        self.table.keys()
    }

    pub fn get(&self, key: PageKey) -> (page: Option<&V>)
        requires
            self.wf(),
        ensures
            match page {
                Some(page) => self.lookup(key) == Some(*page),
                None => self.lookup(key) is None,
            },
    {
        proof {
            use_type_invariant(&key);
            key.lemma_parts_in_range();
        }
        if self.table.contains_key(key) {
            self.pages[key.slot_index()].as_ref()
        } else {
            None
        }
    }

    pub fn get_mut(&mut self, key: PageKey) -> (page: Option<&mut V>)
        requires
            old(self).wf(),
        ensures
            final(self).wf(),
            final(self).generations() == old(self).generations(),
            final(self).keys() == old(self).keys(),
            match page {
                Some(page) => {
                    &&& old(self).lookup(key) == Some(*page)
                    &&& final(self).lookup(key) == Some(*final(page))
                    &&& forall|other: PageKey| #![trigger final(self).lookup(other)]
                        other != key ==> final(self).lookup(other) == old(self).lookup(other)
                },
                None => {
                    &&& old(self).lookup(key) is None
                    &&& forall|other: PageKey| #![trigger final(self).lookup(other)]
                        final(self).lookup(other) == old(self).lookup(other)
                },
            },
    {
        proof {
            use_type_invariant(&key);
            key.lemma_parts_in_range();
        }
        if !self.table.contains_key(key) {
            return None;
        }
        assert(self.pages@[key.slot()] is Some);
        assert forall|other: PageKey|
            is_live(self.generations(), other) && other.slot() == key.slot() implies other == key by {
            PageKey::lemma_parts_determine_key(other, key);
        }
        self.pages[key.slot_index()].as_mut()
    }

    /// Adds the page that `page` makes of its key.
    pub fn insert_with_key<F: FnOnce(PageKey) -> V>(&mut self, page: F) -> (key: PageKey)
        requires
            old(self).wf(),
            has_room(old(self).generations()),
            forall|key: PageKey| #[trigger] page.requires((key,)),
        ensures
            final(self).wf(),
            !is_live(old(self).generations(), key),
            is_live(final(self).generations(), key),
            old(self).lookup(key) is None,
            final(self).lookup(key) is Some,
            page.ensures((key,), final(self).lookup(key)->0),
            forall|other: PageKey| #![trigger final(self).lookup(other)]
                other != key ==> final(self).lookup(other) == old(self).lookup(other),
            final(self).keys() == old(self).keys().insert(old(self).place(key), key),
            0 <= old(self).place(key) <= old(self).keys().len(),
            occupies(old(self).generations(), key, final(self).generations()),
    {
        let key = self.table.insert();
        let slot: usize = key.slot_index();
        let value = page(key);
        if slot < self.pages.len() {
            self.pages.set(slot, Some(value));
        } else {
            self.pages.push(Some(value));
        }
        proof {
            let before = old(self).generations();
            key.lemma_parts_in_range();
            lemma_key_of(key.slot(), key.generation() as u32);
            PageKey::lemma_parts_determine_key(key, key_of(key.slot(), key.generation() as u32));
            if is_vacant(before, key.slot()) {
                lemma_live_keys_occupy(before, key.slot(), key.generation() as u32);
            } else {
                assert(before.take(key.slot()) =~= before);
                assert(before.push(1).drop_last() =~= before);
                assert(self.keys() =~= old(self).keys().insert(old(self).place(key), key));
            }
            assert forall|other: PageKey| other != key implies #[trigger] self.lookup(other) == old(
                self,
            ).lookup(other) by {
                if other.slot() == key.slot() {
                    if is_live(self.generations(), other) {
                        PageKey::lemma_parts_determine_key(other, key);
                    }
                    assert(old(self).lookup(other) is None) by {
                        if is_live(before, other) {
                            assert(old(self).pages@[key.slot()] is None);
                        }
                    }
                }
            }
        }
        key
    }

    /// Adds a page and returns its key.
    pub fn insert(&mut self, page: V) -> (key: PageKey)
        requires
            old(self).wf(),
            has_room(old(self).generations()),
        ensures
            final(self).wf(),
            old(self).lookup(key) is None,
            final(self).lookup(key) == Some(page),
            forall|other: PageKey| #![trigger final(self).lookup(other)]
                other != key ==> final(self).lookup(other) == old(self).lookup(other),
            final(self).keys() == old(self).keys().insert(old(self).place(key), key),
            0 <= old(self).place(key) <= old(self).keys().len(),
            occupies(old(self).generations(), key, final(self).generations()),
    {
        let give_page = |_key: PageKey| -> (given: V)
            ensures given == page
        {
            page
        };
        self.insert_with_key(give_page)
    }

    /// Takes out the page that `key` names, if it is still there; the key then
    /// finds nothing.
    pub fn remove(&mut self, key: PageKey) -> (page: Option<V>)
        requires
            old(self).wf(),
        ensures
            final(self).wf(),
            page == old(self).lookup(key),
            final(self).lookup(key) is None,
            forall|other: PageKey| #![trigger final(self).lookup(other)]
                other != key ==> final(self).lookup(other) == old(self).lookup(other),
            page is Some ==> {
                &&& 0 <= old(self).place(key) < old(self).keys().len()
                &&& old(self).keys()[old(self).place(key)] == key
                &&& final(self).keys() == old(self).keys().remove(old(self).place(key))
                &&& final(self).generations() == old(self).generations().update(
                    key.slot(),
                    next_generation(key.generation() as u32),
                )
            },
            page is None ==> {
                &&& final(self).keys() == old(self).keys()
                &&& final(self).generations() == old(self).generations()
            },
    {
        proof {
            use_type_invariant(&key);
            key.lemma_parts_in_range();
        }
        if !self.table.remove(key) {
            return None;
        }
        assert(old(self).pages@[key.slot()] is Some);
        let page = self.pages[key.slot_index()].take();
        proof {
            let before = old(self).generations();
            lemma_key_of(key.slot(), key.generation() as u32);
            PageKey::lemma_parts_determine_key(key, key_of(key.slot(), key.generation() as u32));
            lemma_live_keys_vacate(before, key.slot(), next_generation(key.generation() as u32));
            assert forall|other: PageKey| other != key implies #[trigger] self.lookup(other) == old(
                self,
            ).lookup(other) by {
                if other.slot() == key.slot() && is_live(before, other) {
                    PageKey::lemma_parts_determine_key(other, key);
                }
            }
        }
        page
    }
}

/// No slot has gone back to an earlier generation, and none has gone.
pub open spec fn generations_advance(before: Seq<u32>, after: Seq<u32>) -> bool {
    &&& before.len() <= after.len()
    &&& forall|slot: int| 0 <= slot < before.len() ==> before[slot] <= after[slot]
}

/// Slot 0 never adds a key.
proof fn lemma_sentinel_has_no_key(generations: Seq<u32>)
    requires
        generations.len() > 0,
        generations[0] == 0,
    ensures
        live_keys(generations).len() < generations.len(),
    decreases generations.len(),
{
    if generations.len() > 1 {
        lemma_sentinel_has_no_key(generations.drop_last());
    } else {
        reveal_with_fuel(live_keys, 2);
    }
}

} // verus!
