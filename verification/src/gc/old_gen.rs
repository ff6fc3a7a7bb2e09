//! The old generation: objects that survived two collections of the nursery.
//!
//! A major collection marks and sweeps them. A collection of the nursery looks at those
//! of them that the remembered set or the roots lead to.

use crate::gc::object::Obj;
use crate::gc::store;
use crate::gc::store::{Color, Store, StoreModel};
use vstd::prelude::*;

verus! {

/// How many slots one card of the remembered set covers.
pub const CARD_SIZE: u32 = 512;

/// The old generation.
#[derive(Debug)]
pub struct OldGen {
    /// The slots.
    pub store: Store,
}

impl View for OldGen {
    type V = StoreModel;

    open spec fn view(&self) -> StoreModel {
        self.store@
    }
}

/// How many cards cover `n` slots.
pub open spec fn cards_for(n: int) -> int {
    (n + 511) / 512
}

impl OldGen {
    /// An empty generation.
    pub fn new() -> (r: OldGen)
        ensures
            r@ == (StoreModel { slots: Seq::empty(), free: Seq::empty(), allocations: 0 }),
            r@.wf(),
    {
        OldGen { store: Store::new() }
    }

    /// How many objects are live.
    pub fn live(&self) -> (r: u32)
        requires
            self@.wf(),
        ensures
            r == self@.live().len(),
    {
        self.store.live()
    }

    /// How many objects were ever promoted.
    pub fn total_allocations(&self) -> (r: u64)
        ensures
            r == self@.allocations,
    {
        self.store.allocations
    }

    /// How many slots there are, live or free.
    pub fn capacity(&self) -> (r: u32)
        requires
            self@.wf(),
        ensures
            r == self@.slots.len(),
    {
        assert(self@.slots.len() == self.store.slots@.len());
        self.store.slots.len() as u32
    }

    /// How many cards cover the slots.
    pub fn card_count(&self) -> (r: u32)
        requires
            self@.wf(),
        ensures
            r == cards_for(self@.slots.len() as int),
    {
        (self.capacity() + (CARD_SIZE - 1)) / CARD_SIZE
    }

    /// The card that covers a slot.
    pub fn card_for_slot(slot_idx: u32) -> (r: u32)
        ensures
            r == slot_idx / 512,
    {
        slot_idx / CARD_SIZE
    }

    /// Puts a promoted object in and returns its slot.
    pub fn promote_in(&mut self, obj: Obj) -> (idx: u32)
        requires
            old(self)@.wf(),
            old(self)@.has_room(),
        ensures
            idx == old(self)@.next(),
            final(self)@ == old(self)@.with(obj@),
            final(self)@.wf(),
    {
        self.store.put(obj)
    }

    /// Borrows an object.
    pub fn get(&self, idx: u32) -> (r: Option<&Obj>)
        ensures
            r is Some <==> self@.at(idx as int) is Some,
            r is Some ==> r->0@ == self@.at(idx as int)->0,
    {
        self.store.get(idx)
    }

    /// Borrows an object to change it.
    pub fn get_mut(&mut self, idx: u32) -> (r: Option<&mut Obj>)
        ensures
            r is Some <==> old(self)@.at(idx as int) is Some,
            match r {
                Some(o) => o@ == old(self)@.at(idx as int)->0 && final(self)@ == old(self)@.replaced(
                    idx as int,
                    final(o)@,
                ),
                None => final(self)@ == old(self)@,
            },
    {
        self.store.get_mut(idx)
    }

    /// Makes every live slot white.
    pub fn whiten(&mut self)
        requires
            old(self)@.wf(),
        ensures
            final(self)@ == old(self)@.whitened(),
            final(self)@.wf(),
    {
        self.store.whiten()
    }

    /// Makes a slot black. Says whether it is live and was not black before.
    pub fn mark_black(&mut self, idx: u32) -> (r: bool)
        requires
            old(self)@.wf(),
        ensures
            r == (old(self)@.at(idx as int) is Some && old(self)@.slots[idx as int].color != Color::Black),
            final(self)@ == if r {
                old(self)@.blackened(idx as int)
            } else {
                old(self)@
            },
            final(self)@.wf(),
    {
        self.store.mark_black(idx)
    }

    /// The mark of a slot; white for one that does not exist.
    pub fn color(&self, idx: u32) -> (r: Color)
        ensures
            r == if idx < self@.slots.len() {
                self@.slots[idx as int].color
            } else {
                Color::White
            },
    {
        self.store.color(idx)
    }

    /// Frees the white slots and returns how many there were.
    pub fn sweep(&mut self) -> (freed: u64)
        requires
            old(self)@.wf(),
        ensures
            freed == old(self)@.doomed_below(old(self)@.slots.len() as int).len(),
            final(self)@ == old(self)@.swept(false),
            final(self)@.wf(),
    {
        self.store.sweep(false)
    }

    /// The live slots, in order.
    pub fn live_indices(&self) -> (r: Vec<u32>)
        requires
            self@.wf(),
        ensures
            r@ == self@.live(),
    {
        self.store.live_indices()
    }
}

} // verus!
