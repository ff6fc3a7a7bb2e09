//! The young generation.
//!
//! Every object is born here. The first collection that it survives keeps it here, one
//! collection older; the second promotes it to the old generation.

use crate::gc::object::Obj;
use crate::gc::store;
use crate::gc::store::{Color, Store, StoreModel};
use vstd::prelude::*;

verus! {

/// How many live objects call for a collection.
pub const NURSERY_SOFT_CAP: u32 = 65_536;

/// How many collections an object survives before it is promoted.
pub const PROMOTION_AGE: u8 = 2;

/// The young generation.
#[derive(Debug)]
pub struct Nursery {
    /// The slots.
    pub store: Store,
}

impl View for Nursery {
    type V = StoreModel;

    open spec fn view(&self) -> StoreModel {
        self.store@
    }
}

impl Nursery {
    /// An empty nursery.
    pub fn new() -> (r: Nursery)
        ensures
            r@ == (StoreModel { slots: Seq::empty(), free: Seq::empty(), allocations: 0 }),
            r@.wf(),
    {
        Nursery { store: Store::new() }
    }

    /// How many objects are live.
    pub fn live(&self) -> (r: u32)
        requires
            self@.wf(),
        ensures
            r == self@.live().len(),
    {
        self.store.live()
    }

    /// How many objects were ever allocated.
    pub fn total_allocations(&self) -> (r: u64)
        ensures
            r == self@.allocations,
    {
        self.store.allocations
    }

    /// Whether so many objects are live that a collection is called for.
    pub fn over_cap(&self) -> (r: bool)
        requires
            self@.wf(),
        ensures
            r == (self@.live().len() >= NURSERY_SOFT_CAP),
    {
        self.live() >= NURSERY_SOFT_CAP
    }

    /// Allocates an object and returns its slot: the one freed last, else a new one.
    pub fn allocate(&mut self, obj: Obj) -> (idx: u32)
        requires
            old(self)@.wf(),
            old(self)@.has_room(),
        ensures
            idx == old(self)@.next(),
            final(self)@ == old(self)@.with(obj@),
            final(self)@.wf(),
    {
        self.store.put(obj)
    }

    /// Borrows an object.
    pub fn get(&self, idx: u32) -> (r: Option<&Obj>)
        ensures
            r is Some <==> self@.at(idx as int) is Some,
            r is Some ==> r->0@ == self@.at(idx as int)->0,
    {
        self.store.get(idx)
    }

    /// Borrows an object to change it.
    pub fn get_mut(&mut self, idx: u32) -> (r: Option<&mut Obj>)
        ensures
            r is Some <==> old(self)@.at(idx as int) is Some,
            match r {
                Some(o) => o@ == old(self)@.at(idx as int)->0 && final(self)@ == old(self)@.replaced(
                    idx as int,
                    final(o)@,
                ),
                None => final(self)@ == old(self)@,
            },
    {
        self.store.get_mut(idx)
    }

    /// Makes every live slot white.
    pub fn whiten(&mut self)
        requires
            old(self)@.wf(),
        ensures
            final(self)@ == old(self)@.whitened(),
            final(self)@.wf(),
    {
        self.store.whiten()
    }

    /// Makes a slot black. Says whether it is live and was not black before.
    pub fn mark_black(&mut self, idx: u32) -> (r: bool)
        requires
            old(self)@.wf(),
        ensures
            r == (old(self)@.at(idx as int) is Some && old(self)@.slots[idx as int].color != Color::Black),
            final(self)@ == if r {
                old(self)@.blackened(idx as int)
            } else {
                old(self)@
            },
            final(self)@.wf(),
    {
        self.store.mark_black(idx)
    }

    /// The mark of a slot; white for one that does not exist.
    pub fn color(&self, idx: u32) -> (r: Color)
        ensures
            r == if idx < self@.slots.len() {
                self@.slots[idx as int].color
            } else {
                Color::White
            },
    {
        self.store.color(idx)
    }

    /// How many collections a slot has survived; zero for one that does not exist.
    pub fn age(&self, idx: u32) -> (r: u8)
        ensures
            r == if idx < self@.slots.len() {
                self@.slots[idx as int].age
            } else {
                0
            },
    {
        self.store.age(idx)
    }

    /// Frees the white slots and returns how many there were. The others grow older.
    pub fn sweep(&mut self) -> (freed: u64)
        requires
            old(self)@.wf(),
        ensures
            freed == old(self)@.doomed_below(old(self)@.slots.len() as int).len(),
            final(self)@ == old(self)@.swept(true),
            final(self)@.wf(),
    {
        self.store.sweep(true)
    }

    /// Takes an object out, to be promoted, and frees its slot.
    pub fn promote(&mut self, idx: u32) -> (r: Option<Obj>)
        requires
            old(self)@.wf(),
        ensures
            r is Some <==> old(self)@.at(idx as int) is Some,
            match r {
                Some(o) => o@ == old(self)@.at(idx as int)->0 && final(self)@ == old(self)@.without(idx as int),
                None => final(self)@ == old(self)@,
            },
            final(self)@.wf(),
    {
        self.store.take(idx)
    }

    /// The live slots, in order.
    pub fn live_indices(&self) -> (r: Vec<u32>)
        requires
            self@.wf(),
        ensures
            r@ == self@.live(),
    {
        self.store.live_indices()
    }
}

} // verus!
