//! The remembered set: which old objects may point into the nursery.
//!
//! One byte per card of [`CARD_SIZE`](crate::gc::old_gen::CARD_SIZE) slots says whether a
//! store into that card was recorded; the entries say into which objects.

use crate::gc::object::GcHandle;
use crate::gc::old_gen;
use crate::gc::old_gen::CARD_SIZE;
use vstd::prelude::*;

verus! {

/// Dirty cards and the objects that were stored into.
#[derive(Debug)]
pub struct RememberedSet {
    /// One byte per card; other than zero where the card is dirty.
    pub cards: Vec<u8>,
    /// The objects that were stored into, once per store.
    pub entries: Vec<GcHandle>,
}

/// Model of a remembered set.
#[verifier::ext_equal]
pub struct RememberedModel {
    pub cards: Seq<u8>,
    pub entries: Seq<GcHandle>,
}

impl View for RememberedSet {
    type V = RememberedModel;

    open spec fn view(&self) -> RememberedModel {
        RememberedModel { cards: self.cards@, entries: self.entries@ }
    }
}

impl RememberedModel {
    /// Whether a card is dirty.
    pub open spec fn dirty(self, card: int) -> bool {
        0 <= card < self.cards.len() && self.cards[card] != 0
    }

    /// How many of the first `k` cards are dirty.
    pub open spec fn dirty_below(self, k: int) -> nat
        decreases k,
    {
        if k <= 0 {
            0
        } else {
            self.dirty_below(k - 1) + if self.dirty(k - 1) {
                1nat
            } else {
                0
            }
        }
    }

    /// The set with cards for `n` slots.
    pub open spec fn sized(self, n: int) -> RememberedModel {
        let needed = old_gen::cards_for(n);
        if needed > self.cards.len() {
            RememberedModel {
                cards: self.cards + Seq::new((needed - self.cards.len()) as nat, |i: int| 0u8),
                ..self
            }
        } else {
            self
        }
    }

    /// The set with the card of a slot dirty.
    pub open spec fn dirtied(self, slot: int) -> RememberedModel {
        if slot / 512 < self.cards.len() {
            RememberedModel { cards: self.cards.update(slot / 512, 1), ..self }
        } else {
            self
        }
    }

    /// The set with one more entry.
    pub open spec fn recorded(self, h: GcHandle) -> RememberedModel {
        RememberedModel { entries: self.entries.push(h), ..self }
    }

    /// The set without entries and dirty cards.
    pub open spec fn cleared(self) -> RememberedModel {
        RememberedModel { cards: Seq::new(self.cards.len(), |i: int| 0u8), entries: Seq::empty() }
    }
}

impl RememberedSet {
    /// An empty set.
    pub fn new() -> (r: RememberedSet)
        ensures
            r@ == (RememberedModel { cards: Seq::empty(), entries: Seq::empty() }),
    {
        RememberedSet { cards: Vec::new(), entries: Vec::new() }
    }

    /// Makes room for the cards of `slot_count` slots.
    pub fn resize_for(&mut self, slot_count: u32)
        ensures
            final(self)@ == old(self)@.sized(slot_count as int),
    {
        let needed: usize = ((slot_count as u64 + (CARD_SIZE as u64 - 1)) / CARD_SIZE as u64) as usize;
        let ghost before = self@;
        while self.cards.len() < needed
            invariant
                needed == old_gen::cards_for(slot_count as int),
                before == old(self)@,
                self.entries@ == before.entries,
                before.cards.len() <= self.cards@.len(),
                self.cards@.len() <= needed || self.cards@.len() == before.cards.len(),
                self.cards@ == before.cards + Seq::new((self.cards@.len() - before.cards.len()) as nat, |i: int| 0u8),
            decreases needed - self.cards.len(),
        {
            self.cards.push(0);
            assert(self.cards@ =~= before.cards + Seq::new(
                (self.cards@.len() - before.cards.len()) as nat,
                |i: int| 0u8,
            ));
        }
        assert(self@ =~= before.sized(slot_count as int));
    }

    /// Makes the card of a slot dirty, if there is one.
    pub fn dirty_card_for_slot(&mut self, old_slot_idx: u32)
        ensures
            final(self)@ == old(self)@.dirtied(old_slot_idx as int),
    {
        let card: usize = (old_slot_idx / CARD_SIZE) as usize;
        if card < self.cards.len() {
            self.cards.set(card, 1);
        }
        assert(self@ =~= old(self)@.dirtied(old_slot_idx as int));
    }

    /// Records that `source` was stored into.
    pub fn record(&mut self, source: GcHandle)
        ensures
            final(self)@ == old(self)@.recorded(source),
    {
        self.entries.push(source);
    }

    /// How many cards are dirty.
    pub fn dirty_count(&self) -> (r: u32)
        requires
            self@.cards.len() <= u32::MAX,
        ensures
            r == self@.dirty_below(self@.cards.len() as int),
    {
        let mut n: u32 = 0;
        let mut i: usize = 0;
        while i < self.cards.len()
            invariant
                i <= self.cards@.len() <= u32::MAX,
                n == self@.dirty_below(i as int),
                n <= i,
            decreases self.cards.len() - i,
        {
            if self.cards[i] != 0 {
                n += 1;
            }
            i += 1;
        }
        n
    }

    /// The objects that were stored into.
    pub fn entries(&self) -> (r: &[GcHandle])
        ensures
            r@ == self@.entries,
    {
        self.entries.as_slice()
    }

    /// Forgets everything.
    pub fn clear(&mut self)
        ensures
            final(self)@ == old(self)@.cleared(),
    {
        let n: usize = self.cards.len();
        let mut i: usize = 0;
        while i < n
            invariant
                i <= n == self.cards@.len() == old(self).cards@.len(),
                forall|j: int| 0 <= j < i ==> self.cards@[j] == 0,
            decreases n - i,
        {
            self.cards.set(i, 0);
            i += 1;
        }
        self.entries.clear();
        assert(self@ =~= old(self)@.cleared());
    }

    /// Whether a card is dirty.
    pub fn card_dirty(&self, card: u32) -> (r: bool)
        ensures
            r == self@.dirty(card as int),
    {
        (card as usize) < self.cards.len() && self.cards[card as usize] != 0
    }
}

} // verus!
