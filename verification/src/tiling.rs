//! The slices of a page in their order, and what each of them was told last.

use crate::handle::{ManagedMemoryHandle, MemoryLocation};
use crate::slice::Slice;
use vstd::prelude::*;

verus! {

/// The slices of a page, one after the other. A page tells their handles where they are
/// through this type, which keeps what the handle of each slice was told last.
#[derive(Debug)]
pub struct Tiling {
    slices: Vec<Slice>,
    told: Vec<Option<MemoryLocation>>,
}

impl View for Tiling {
    type V = Seq<Slice>;

    closed spec fn view(&self) -> Seq<Slice> {
        self.slices@
    }
}

impl Tiling {
    /// What the handle of each slice was told last, if it was told anything since the
    /// slice came here.
    pub closed spec fn told(self) -> Seq<Option<MemoryLocation>> {
        self.told@
    }

    /// The slices in this order. None of them has been told anything here.
    pub fn of(slices: Vec<Slice>) -> (tiling: Self)
        ensures
            tiling@ == slices@,
            tiling.told() == Seq::new(slices@.len(), |i: int| None::<MemoryLocation>),
    {
        let mut told: Vec<Option<MemoryLocation>> = Vec::new();
        while told.len() < slices.len()
            invariant
                told@.len() <= slices@.len(),
                told@ == Seq::new(told@.len(), |i: int| None::<MemoryLocation>),
            decreases slices@.len() - told@.len(),
        {
            told.push(None);
        }
        Tiling { slices, told }
    }

    /// How many slices there are.
    pub fn len(&self) -> (count: usize)
        ensures
            count == self@.len(),
    {
        self.slices.len()
    }

    /// The slice at `i`.
    pub fn get(&self, i: usize) -> (slice: &Slice)
        requires
            i < self@.len(),
        ensures
            *slice == self@[i as int],
    {
        &self.slices[i]
    }

    /// One more handle on the slice at `i`.
    pub fn hand_out(&self, i: usize) -> (handle: ManagedMemoryHandle)
        requires
            i < self@.len(),
        ensures
            handle == self@[i as int].handle,
    {
        self.slices[i].handle.clone()
    }

    /// Takes all slices out.
    pub fn take_all(&mut self) -> (slices: Vec<Slice>)
        ensures
            slices@ == old(self)@,
            final(self)@ == Seq::<Slice>::empty(),
            final(self).told() == Seq::<Option<MemoryLocation>>::empty(),
    {
        let mut slices: Vec<Slice> = Vec::new();
        std::mem::swap(&mut self.slices, &mut slices);
        self.told = Vec::new();
        slices
    }

    /// Tells the slice at `i` that it is at `location`.
    pub fn tell(&mut self, i: usize, location: MemoryLocation)
        requires
            i < old(self)@.len(),
            old(self).told().len() == old(self)@.len(),
        ensures
            final(self)@ == old(self)@,
            final(self).told() == old(self).told().update(i as int, Some(location)),
            final(self)@[i as int].was_told(location),
    {
        self.slices[i].handle.descriptor().update_location(location);
        self.told.set(i, Some(location));
    }

    /// Has `size` bytes of the slice at `i` be in use, followed by `padding`.
    pub fn set_part(&mut self, i: usize, size: u64, padding: u64)
        requires
            i < old(self)@.len(),
        ensures
            final(self).told() == old(self).told(),
            final(self)@.len() == old(self)@.len(),
            forall|j: int| #![trigger final(self)@[j]]
                0 <= j < old(self)@.len() && j != i ==> final(self)@[j] == old(self)@[j],
            final(self)@[i as int].storage.id == old(self)@[i as int].storage.id,
            final(self)@[i as int].storage.utilization.offset
                == old(self)@[i as int].storage.utilization.offset,
            final(self)@[i as int].storage.utilization.size == size,
            final(self)@[i as int].handle == old(self)@[i as int].handle,
            final(self)@[i as int].padding == padding,
            final(self)@[i as int].cursor == old(self)@[i as int].cursor,
    {
        self.slices[i].storage.utilization.size = size;
        self.slices[i].padding = padding;
    }

    /// Puts one more slice at `i`, which has not been told anything here.
    pub fn insert(&mut self, i: usize, slice: Slice)
        requires
            i <= old(self)@.len(),
            old(self).told().len() == old(self)@.len(),
        ensures
            final(self)@ == old(self)@.insert(i as int, slice),
            final(self).told() == old(self).told().insert(i as int, None),
    {
        self.slices.insert(i, slice);
        self.told.insert(i, None);
    }

    /// Gives the slice at `i` the handle `assigned`, which has not been told anything here.
    pub fn assign(&mut self, i: usize, assigned: ManagedMemoryHandle, cursor: u64)
        requires
            i < old(self)@.len(),
            old(self).told().len() == old(self)@.len(),
        ensures
            final(self).told() == old(self).told().update(i as int, None),
            final(self)@ == old(self)@.update(
                i as int,
                Slice {
                    storage: old(self)@[i as int].storage,
                    handle: assigned,
                    padding: old(self)@[i as int].padding,
                    cursor,
                },
            ),
    {
        self.slices[i].handle = assigned;
        self.slices[i].cursor = cursor;
        self.told.set(i, None);
    }
}

} // verus!
