//! Slots for objects: the storage of one generation.

use crate::gc::object::{move_obj, Moves, Obj, ObjModel};
use crate::gc::object;
use vstd::prelude::*;

verus! {

/// The mark of an object during a collection.
#[derive(Clone, Copy, Debug, PartialEq, Eq, Structural)]
pub enum Color {
    /// Not reached.
    White,
    /// Reached, not yet scanned.
    Grey,
    /// Reached and scanned.
    Black,
}

/// One slot.
#[derive(Debug)]
pub struct Slot {
    /// The object; `None` where the slot is free.
    pub obj: Option<Obj>,
    /// Its mark.
    pub color: Color,
    /// How many collections of the nursery it has survived there.
    pub age: u8,
}

/// Model of a slot.
#[verifier::ext_equal]
pub struct SlotModel {
    pub obj: Option<ObjModel>,
    pub color: Color,
    pub age: u8,
}

impl View for Slot {
    type V = SlotModel;

    open spec fn view(&self) -> SlotModel {
        SlotModel {
            obj: match self.obj {
                Some(o) => Some(o@),
                None => None,
            },
            color: self.color,
            age: self.age,
        }
    }
}

/// Slots and the list of the free ones among them.
#[derive(Debug)]
pub struct Store {
    /// The slots.
    pub slots: Vec<Slot>,
    /// The free ones; the last is taken first.
    pub free: Vec<u32>,
    /// How many objects were ever put in.
    pub allocations: u64,
}

/// Model of a store.
#[verifier::ext_equal]
pub struct StoreModel {
    pub slots: Seq<SlotModel>,
    pub free: Seq<u32>,
    pub allocations: u64,
}

impl View for Store {
    type V = StoreModel;

    open spec fn view(&self) -> StoreModel {
        StoreModel { slots: crate::views::views(self.slots@), free: self.free@, allocations: self.allocations }
    }
}

/// How many slots a generation can have.
pub const MAX_SLOTS: u32 = 0x8000_0000;

/// A count that stops at the largest number.
pub open spec fn sat_add(a: u64, b: int) -> u64 {
    if a + b > u64::MAX {
        u64::MAX
    } else {
        (a + b) as u64
    }
}

pub(crate) fn count(a: u64, b: u64) -> (r: u64)
    ensures
        r == sat_add(a, b as int),
{
    if a > u64::MAX - b {
        u64::MAX
    } else {
        a + b
    }
}

impl StoreModel {
    /// The object in a slot.
    pub open spec fn at(self, i: int) -> Option<ObjModel> {
        if 0 <= i < self.slots.len() {
            self.slots[i].obj
        } else {
            None
        }
    }

    /// Whether slots can be told apart in a handle, and the free list holds each of its
    /// slots once, all of them empty.
    pub open spec fn wf(self) -> bool {
        &&& self.slots.len() <= MAX_SLOTS
        &&& forall|k: int|
            0 <= k < self.free.len() ==> (#[trigger] self.free[k]) < self.slots.len()
                && self.slots[self.free[k] as int].obj is None
        &&& forall|j: int, k: int|
            0 <= j < k < self.free.len() ==> #[trigger] self.free[j] != #[trigger] self.free[k]
    }

    /// Whether another object can be put in.
    pub open spec fn has_room(self) -> bool {
        self.free.len() > 0 || self.slots.len() < MAX_SLOTS
    }

    /// The slot that the next object goes to.
    pub open spec fn next(self) -> int {
        if self.free.len() > 0 {
            self.free.last() as int
        } else {
            self.slots.len() as int
        }
    }

    /// The store with another object in it.
    pub open spec fn with(self, o: ObjModel) -> StoreModel {
        let slot = SlotModel { obj: Some(o), color: Color::White, age: 0 };
        let allocations = sat_add(self.allocations, 1);
        if self.free.len() > 0 {
            StoreModel {
                slots: self.slots.update(self.free.last() as int, slot),
                free: self.free.drop_last(),
                allocations,
            }
        } else {
            StoreModel { slots: self.slots.push(slot), free: self.free, allocations }
        }
    }

    /// The store with another object in a slot.
    pub open spec fn replaced(self, i: int, o: ObjModel) -> StoreModel {
        StoreModel { slots: self.slots.update(i, SlotModel { obj: Some(o), ..self.slots[i] }), ..self }
    }

    /// The store with every live slot white.
    pub open spec fn whitened(self) -> StoreModel {
        StoreModel {
            slots: Seq::new(
                self.slots.len(),
                |i: int|
                    if self.slots[i].obj is Some {
                        SlotModel { color: Color::White, ..self.slots[i] }
                    } else {
                        self.slots[i]
                    },
            ),
            ..self
        }
    }

    /// The store with the marked live slots black and the other live slots white.
    pub open spec fn painted(self, marks: Seq<bool>) -> StoreModel {
        StoreModel {
            slots: Seq::new(
                self.slots.len(),
                |i: int|
                    if self.slots[i].obj is Some {
                        SlotModel {
                            color: if marks[i] {
                                Color::Black
                            } else {
                                Color::White
                            },
                            ..self.slots[i]
                        }
                    } else {
                        self.slots[i]
                    },
            ),
            ..self
        }
    }

    /// The store with a slot black.
    pub open spec fn blackened(self, i: int) -> StoreModel {
        StoreModel { slots: self.slots.update(i, SlotModel { color: Color::Black, ..self.slots[i] }), ..self }
    }

    /// Whether a slot would be freed by a sweep.
    pub open spec fn doomed(self, i: int) -> bool {
        self.slots[i].obj is Some && self.slots[i].color == Color::White
    }

    /// The slots below `k` that a sweep frees, in order.
    pub open spec fn doomed_below(self, k: int) -> Seq<u32>
        decreases k,
    {
        if k <= 0 {
            Seq::empty()
        } else if self.doomed(k - 1) {
            self.doomed_below(k - 1).push((k - 1) as u32)
        } else {
            self.doomed_below(k - 1)
        }
    }

    /// A slot after a sweep.
    pub open spec fn swept_slot(self, i: int, aging: bool) -> SlotModel {
        if self.doomed(i) {
            SlotModel { obj: None, ..self.slots[i] }
        } else if self.slots[i].obj is Some && aging && self.slots[i].age < 255 {
            SlotModel { age: (self.slots[i].age + 1) as u8, ..self.slots[i] }
        } else {
            self.slots[i]
        }
    }

    /// The store after a sweep: white objects are gone and their slots free; where `aging`,
    /// the others are one collection older.
    pub open spec fn swept(self, aging: bool) -> StoreModel {
        StoreModel {
            slots: Seq::new(self.slots.len(), |i: int| self.swept_slot(i, aging)),
            free: self.free + self.doomed_below(self.slots.len() as int),
            ..self
        }
    }

    /// The store with the object of a slot taken out.
    pub open spec fn without(self, i: int) -> StoreModel {
        StoreModel {
            slots: self.slots.update(i, SlotModel { obj: None, color: Color::White, age: 0 }),
            free: self.free.push(i as u32),
            ..self
        }
    }

    /// The live slots below `k`, in order.
    pub open spec fn live_below(self, k: int) -> Seq<u32>
        decreases k,
    {
        if k <= 0 {
            Seq::empty()
        } else if self.slots[k - 1].obj is Some {
            self.live_below(k - 1).push((k - 1) as u32)
        } else {
            self.live_below(k - 1)
        }
    }

    /// The live slots, in order.
    pub open spec fn live(self) -> Seq<u32> {
        self.live_below(self.slots.len() as int)
    }

    /// The store with every value given the handle it has after the moves.
    pub open spec fn relocated(self, moves: Moves) -> StoreModel {
        StoreModel {
            slots: Seq::new(
                self.slots.len(),
                |i: int|
                    match self.slots[i].obj {
                        Some(o) => SlotModel { obj: Some(object::moved_obj(o, moves)), ..self.slots[i] },
                        None => self.slots[i],
                    },
            ),
            ..self
        }
    }
}

pub proof fn lemma_doomed(s: StoreModel, k: int)
    requires
        0 <= k <= s.slots.len() <= MAX_SLOTS,
    ensures
        s.doomed_below(k).len() <= k,
        forall|j: int| 0 <= j < s.doomed_below(k).len() ==> (#[trigger] s.doomed_below(k)[j]) < k && s.doomed(
            s.doomed_below(k)[j] as int,
        ),
        forall|i: int, j: int|
            0 <= i < j < s.doomed_below(k).len() ==> #[trigger] s.doomed_below(k)[i] != #[trigger] s.doomed_below(k)[j],
    decreases k,
{
    if k > 0 {
        lemma_doomed(s, k - 1);
    }
}

pub proof fn lemma_live(s: StoreModel, k: int)
    requires
        0 <= k <= s.slots.len() <= MAX_SLOTS,
    ensures
        s.live_below(k).len() <= k,
        forall|j: int| 0 <= j < s.live_below(k).len() ==> (#[trigger] s.live_below(k)[j]) < k && s.slots[s.live_below(
            k,
        )[j] as int].obj is Some,
        forall|i: int, j: int|
            0 <= i < j < s.live_below(k).len() ==> #[trigger] s.live_below(k)[i] < #[trigger] s.live_below(k)[j],
        forall|i: int| 0 <= i < k && s.slots[i].obj is Some ==> s.live_below(k).contains(i as u32),
    decreases k,
{
    if k > 0 {
        lemma_live(s, k - 1);
        let a = s.live_below(k - 1);
        let b = s.live_below(k);
        assert forall|i: int| 0 <= i < k && s.slots[i].obj is Some implies b.contains(i as u32) by {
            if i < k - 1 {
                assert(a.contains(i as u32));
                let j = choose|j: int| 0 <= j < a.len() && a[j] == i as u32;
                assert(b[j] == i as u32);
            } else {
                assert(b.last() == i as u32);
            }
        }
    }
}

/// Putting an object in, taking one out, and sweeping keep a store well-formed.
pub proof fn lemma_store_kept(s: StoreModel, o: ObjModel, i: int, aging: bool, moves: Moves)
    requires
        s.wf(),
    ensures
        s.has_room() ==> s.with(o).wf(),
        0 <= i < s.slots.len() && s.slots[i].obj is Some ==> s.without(i).wf() && s.replaced(i, o).wf(),
        s.swept(aging).wf(),
        s.relocated(moves).wf(),
{
    lemma_doomed(s, s.slots.len() as int);
    if s.has_room() {
        let t = s.with(o);
        if s.free.len() > 0 {
            assert forall|k: int| 0 <= k < t.free.len() implies (#[trigger] t.free[k]) < t.slots.len()
                && t.slots[t.free[k] as int].obj is None by {
                assert(t.free[k] == s.free[k]);
                assert(s.free[k] != s.free[s.free.len() - 1]);
            }
        } else {
            assert(t.free =~= s.free);
        }
    }
    if 0 <= i < s.slots.len() && s.slots[i].obj is Some {
        let t = s.without(i);
        assert forall|k: int| 0 <= k < t.free.len() implies (#[trigger] t.free[k]) < t.slots.len()
            && t.slots[t.free[k] as int].obj is None by {
            if k < s.free.len() {
                assert(t.free[k] == s.free[k]);
            }
        }
        assert forall|j: int, k: int| 0 <= j < k < t.free.len() implies #[trigger] t.free[j] != #[trigger] t.free[k] by {
            assert(t.free[j] == s.free[j]);
            if k < s.free.len() {
                assert(t.free[k] == s.free[k]);
            }
        }
        let u = s.replaced(i, o);
        assert forall|k: int| 0 <= k < u.free.len() implies (#[trigger] u.free[k]) < u.slots.len()
            && u.slots[u.free[k] as int].obj is None by {
            assert(u.free[k] == s.free[k]);
        }
    }
    let w = s.swept(aging);
    let d = s.doomed_below(s.slots.len() as int);
    assert forall|k: int| 0 <= k < w.free.len() implies (#[trigger] w.free[k]) < w.slots.len()
        && w.slots[w.free[k] as int].obj is None by {
        if k < s.free.len() {
            assert(w.free[k] == s.free[k]);
        } else {
            assert(w.free[k] == d[k - s.free.len()]);
        }
    }
    assert forall|j: int, k: int| 0 <= j < k < w.free.len() implies #[trigger] w.free[j] != #[trigger] w.free[k] by {
        if j < s.free.len() {
            assert(w.free[j] == s.free[j]);
        } else {
            assert(w.free[j] == d[j - s.free.len()]);
        }
        if k < s.free.len() {
            assert(w.free[k] == s.free[k]);
        } else {
            assert(w.free[k] == d[k - s.free.len()]);
        }
    }
    let r = s.relocated(moves);
    assert forall|k: int| 0 <= k < r.free.len() implies (#[trigger] r.free[k]) < r.slots.len()
        && r.slots[r.free[k] as int].obj is None by {
        assert(r.free[k] == s.free[k]);
    }
}

impl Store {
    /// An empty store.
    pub fn new() -> (r: Store)
        ensures
            r@ == (StoreModel { slots: Seq::empty(), free: Seq::empty(), allocations: 0 }),
            r@.wf(),
    {
        let r = Store { slots: Vec::new(), free: Vec::new(), allocations: 0 };
        assert(r@ =~= (StoreModel { slots: Seq::empty(), free: Seq::empty(), allocations: 0 }));
        r
    }

    /// Whether another object can be put in.
    pub fn has_room(&self) -> (r: bool)
        ensures
            r == self@.has_room(),
    {
        assert(self@.slots.len() == self.slots@.len());
        self.free.len() > 0 || self.slots.len() < MAX_SLOTS as usize
    }

    /// Puts an object in and returns its slot.
    pub fn put(&mut self, obj: Obj) -> (idx: u32)
        requires
            old(self)@.wf(),
            old(self)@.has_room(),
        ensures
            idx == old(self)@.next(),
            final(self)@ == old(self)@.with(obj@),
            final(self)@.wf(),
    {
        proof {
            lemma_store_kept(self@, obj@, 0, false, Seq::empty());
        }
        let ghost before = self@;
        let ghost o = obj@;
        self.allocations = count(self.allocations, 1);
        let slot = Slot { obj: Some(obj), color: Color::White, age: 0 };
        match self.free.pop() {
            Some(idx) => {
                assert(idx == before.free.last());
                assert(idx == before.free[before.free.len() - 1]);
                assert(self.slots@.len() == before.slots.len());
                self.slots.set(idx as usize, slot);
                assert(self@ =~= before.with(o));
                idx
            },
            None => {
                let idx: u32 = self.slots.len() as u32;
                self.slots.push(slot);
                assert(self@ =~= before.with(o));
                idx
            },
        }
    }

    /// Borrows the object in a slot.
    pub fn get(&self, idx: u32) -> (r: Option<&Obj>)
        ensures
            r is Some <==> self@.at(idx as int) is Some,
            r is Some ==> r->0@ == self@.at(idx as int)->0,
    {
        if (idx as usize) < self.slots.len() {
            assert(self@.slots[idx as int] == self.slots@[idx as int]@);
            self.slots[idx as usize].obj.as_ref()
        } else {
            None
        }
    }

    /// Borrows the object in a slot to change it.
    pub fn get_mut(&mut self, idx: u32) -> (r: Option<&mut Obj>)
        ensures
            r is Some <==> old(self)@.at(idx as int) is Some,
            match r {
                Some(o) => o@ == old(self)@.at(idx as int)->0 && final(self)@ == old(self)@.replaced(
                    idx as int,
                    final(o)@,
                ),
                None => final(self)@ == old(self)@,
            },
    {
        if (idx as usize) < self.slots.len() {
            match &mut self.slots[idx as usize].obj {
                Some(o) => Some(o),
                None => None,
            }
        } else {
            None
        }
    }

    /// Makes every live slot white.
    pub fn whiten(&mut self)
        requires
            old(self)@.wf(),
        ensures
            final(self)@ == old(self)@.whitened(),
            final(self)@.wf(),
    {
        let ghost before = self@;
        let n: usize = self.slots.len();
        let mut i: usize = 0;
        while i < n
            invariant
                i <= n == self.slots@.len(),
                before == old(self)@,
                before.slots.len() == n,
                self.free@ == before.free,
                self.allocations == before.allocations,
                forall|j: int| 0 <= j < i ==> (#[trigger] self.slots@[j])@ == before.whitened().slots[j],
                forall|j: int| i <= j < n ==> (#[trigger] self.slots@[j])@ == before.slots[j],
            decreases n - i,
        {
            if self.slots[i].obj.is_some() {
                self.slots[i].color = Color::White;
            }
            i += 1;
        }
        assert(self@ =~= before.whitened());
        proof {
            lemma_same_objects(before, self@);
        }
    }

    /// Makes the marked live slots black and the other live slots white.
    pub fn paint(&mut self, marks: &Vec<bool>)
        requires
            old(self)@.wf(),
            marks@.len() == old(self)@.slots.len(),
        ensures
            final(self)@ == old(self)@.painted(marks@),
            final(self)@.wf(),
    {
        let ghost before = self@;
        let n: usize = self.slots.len();
        let mut i: usize = 0;
        while i < n
            invariant
                i <= n == self.slots@.len(),
                before == old(self)@,
                before.slots.len() == n,
                marks@.len() == n,
                self.free@ == before.free,
                self.allocations == before.allocations,
                forall|j: int| 0 <= j < i ==> (#[trigger] self.slots@[j])@ == before.painted(marks@).slots[j],
                forall|j: int| i <= j < n ==> (#[trigger] self.slots@[j])@ == before.slots[j],
            decreases n - i,
        {
            if self.slots[i].obj.is_some() {
                self.slots[i].color = if marks[i] { Color::Black } else { Color::White };
            }
            i += 1;
        }
        assert(self@ =~= before.painted(marks@));
        proof {
            lemma_same_objects(before, self@);
        }
    }

    /// Makes a slot black. Says whether it is live and was not black before.
    pub fn mark_black(&mut self, idx: u32) -> (r: bool)
        requires
            old(self)@.wf(),
        ensures
            r == (old(self)@.at(idx as int) is Some && old(self)@.slots[idx as int].color != Color::Black),
            final(self)@ == if r {
                old(self)@.blackened(idx as int)
            } else {
                old(self)@
            },
            final(self)@.wf(),
    {
        let ghost before = self@;
        if (idx as usize) >= self.slots.len() {
            return false;
        }
        assert(before.slots[idx as int] == self.slots@[idx as int]@);
        if self.slots[idx as usize].color == Color::Black || self.slots[idx as usize].obj.is_none() {
            return false;
        }
        self.slots[idx as usize].color = Color::Black;
        assert(self@ =~= before.blackened(idx as int));
        proof {
            lemma_same_objects(before, self@);
        }
        true
    }

    /// The mark of a slot; white for one that does not exist.
    pub fn color(&self, idx: u32) -> (r: Color)
        ensures
            r == if idx < self@.slots.len() {
                self@.slots[idx as int].color
            } else {
                Color::White
            },
    {
        if (idx as usize) < self.slots.len() {
            assert(self@.slots[idx as int] == self.slots@[idx as int]@);
            self.slots[idx as usize].color
        } else {
            Color::White
        }
    }

    /// The age of a slot; zero for one that does not exist.
    pub fn age(&self, idx: u32) -> (r: u8)
        ensures
            r == if idx < self@.slots.len() {
                self@.slots[idx as int].age
            } else {
                0
            },
    {
        if (idx as usize) < self.slots.len() {
            assert(self@.slots[idx as int] == self.slots@[idx as int]@);
            self.slots[idx as usize].age
        } else {
            0
        }
    }

    /// Frees the white slots and returns how many there were.
    pub fn sweep(&mut self, aging: bool) -> (freed: u64)
        requires
            old(self)@.wf(),
        ensures
            freed == old(self)@.doomed_below(old(self)@.slots.len() as int).len(),
            final(self)@ == old(self)@.swept(aging),
            final(self)@.wf(),
    {
        let ghost before = self@;
        proof {
            lemma_store_kept(before, ObjModel::Array(Seq::empty()), 0, aging, Seq::empty());
            lemma_doomed(before, before.slots.len() as int);
        }
        let n: usize = self.slots.len();
        let mut freed: u64 = 0;
        let mut i: usize = 0;
        assert(self.free@ =~= before.free + before.doomed_below(0));
        while i < n
            invariant
                i <= n == self.slots@.len(),
                n <= MAX_SLOTS,
                before == old(self)@,
                before.slots.len() == n,
                freed == before.doomed_below(i as int).len(),
                freed <= i,
                self.free@ == before.free + before.doomed_below(i as int),
                self.allocations == before.allocations,
                forall|j: int| 0 <= j < i ==> (#[trigger] self.slots@[j])@ == before.swept_slot(j, aging),
                forall|j: int| i <= j < n ==> (#[trigger] self.slots@[j])@ == before.slots[j],
            decreases n - i,
        {
            assert(self.slots@[i as int]@ == before.slots[i as int]);
            if self.slots[i].obj.is_some() {
                if self.slots[i].color == Color::White {
                    self.slots[i].obj = None;
                    self.free.push(i as u32);
                    freed += 1;
                } else if aging && self.slots[i].age < 255 {
                    self.slots[i].age = self.slots[i].age + 1;
                }
            }
            i += 1;
            assert(self.free@ =~= before.free + before.doomed_below(i as int));
        }
        assert(self@ =~= before.swept(aging));
        freed
    }

    /// Takes the object out of a slot and frees the slot.
    pub fn take(&mut self, idx: u32) -> (r: Option<Obj>)
        requires
            old(self)@.wf(),
        ensures
            r is Some <==> old(self)@.at(idx as int) is Some,
            match r {
                Some(o) => o@ == old(self)@.at(idx as int)->0 && final(self)@ == old(self)@.without(idx as int),
                None => final(self)@ == old(self)@,
            },
            final(self)@.wf(),
    {
        let ghost before = self@;
        proof {
            lemma_store_kept(before, ObjModel::Array(Seq::empty()), idx as int, false, Seq::empty());
        }
        if (idx as usize) >= self.slots.len() {
            return None;
        }
        assert(before.slots[idx as int] == self.slots@[idx as int]@);
        if self.slots[idx as usize].obj.is_none() {
            return None;
        }
        let mut slot = Slot { obj: None, color: Color::White, age: 0 };
        core::mem::swap(&mut slot, &mut self.slots[idx as usize]);
        self.free.push(idx);
        assert(self@ =~= before.without(idx as int));
        slot.obj
    }

    /// The live slots, in order.
    pub fn live_indices(&self) -> (r: Vec<u32>)
        requires
            self@.wf(),
        ensures
            r@ == self@.live(),
    {
        let ghost m = self@;
        let mut out: Vec<u32> = Vec::new();
        let mut i: usize = 0;
        while i < self.slots.len()
            invariant
                i <= self.slots@.len() <= MAX_SLOTS,
                m == self@,
                out@ == m.live_below(i as int),
            decreases self.slots.len() - i,
        {
            assert(m.slots[i as int] == self.slots@[i as int]@);
            if self.slots[i].obj.is_some() {
                out.push(i as u32);
            }
            i += 1;
        }
        out
    }

    /// How many slots are live.
    pub fn live(&self) -> (r: u32)
        requires
            self@.wf(),
        ensures
            r == self@.live().len(),
    {
        let ghost m = self@;
        let mut n: u32 = 0;
        let mut i: usize = 0;
        while i < self.slots.len()
            invariant
                i <= self.slots@.len() <= MAX_SLOTS,
                m == self@,
                n == m.live_below(i as int).len(),
                n <= i,
            decreases self.slots.len() - i,
        {
            assert(m.slots[i as int] == self.slots@[i as int]@);
            if self.slots[i].obj.is_some() {
                n += 1;
            }
            i += 1;
        }
        n
    }

    /// Gives every value the handle that its object has after the moves.
    pub fn relocate(&mut self, moves: &Vec<Option<u32>>)
        requires
            old(self)@.wf(),
        ensures
            final(self)@ == old(self)@.relocated(moves@),
            final(self)@.wf(),
    {
        let ghost before = self@;
        proof {
            lemma_store_kept(before, ObjModel::Array(Seq::empty()), 0, false, moves@);
        }
        let n: usize = self.slots.len();
        let mut i: usize = 0;
        while i < n
            invariant
                i <= n == self.slots@.len(),
                before == old(self)@,
                before.slots.len() == n,
                self.free@ == before.free,
                self.allocations == before.allocations,
                forall|j: int| 0 <= j < i ==> (#[trigger] self.slots@[j])@ == before.relocated(moves@).slots[j],
                forall|j: int| i <= j < n ==> (#[trigger] self.slots@[j])@ == before.slots[j],
            decreases n - i,
        {
            assert(self.slots@[i as int]@ == before.slots[i as int]);
            let mut slot = Slot { obj: None, color: Color::White, age: 0 };
            core::mem::swap(&mut slot, &mut self.slots[i]);
            let moved = match slot.obj {
                Some(o) => {
                    let mut p = o;
                    move_obj(&mut p, moves);
                    Some(p)
                },
                None => None,
            };
            self.slots.set(i, Slot { obj: moved, color: slot.color, age: slot.age });
            i += 1;
        }
        assert(self@ =~= before.relocated(moves@));
    }
}

/// Marks and ages do not matter to well-formedness.
pub proof fn lemma_same_objects(a: StoreModel, b: StoreModel)
    requires
        a.wf(),
        b.slots.len() == a.slots.len(),
        b.free == a.free,
        forall|i: int| 0 <= i < a.slots.len() ==> #[trigger] b.slots[i].obj == a.slots[i].obj,
    ensures
        b.wf(),
{
}

} // verus!
