//! The heap of both generations.

use crate::gc::nursery::{Nursery, NURSERY_SOFT_CAP, PROMOTION_AGE};
use crate::gc::object;
use crate::gc::object::{push_all_roots, scan_obj_into, GcHandle, Moves, Obj, ObjModel};
use crate::gc::old_gen::OldGen;
use crate::gc::remembered::{RememberedModel, RememberedSet};
use crate::gc::store;
use crate::gc::store::{count, Color, StoreModel, MAX_SLOTS};
use crate::views;
use crate::vm::value;
use crate::vm::value::Value;
use vstd::prelude::*;

verus! {

/// Knobs.
#[derive(Clone, Copy, Debug, PartialEq, Eq, Structural)]
pub struct GcConfig {
    /// Budget of one step of incremental marking, in microseconds.
    pub tick_budget_us: u32,
    /// Heap growth threshold: a minor collection is called for when the allocations since the
    /// last collection exceed this many objects.
    pub collect_after_allocations: u32,
}

impl Default for GcConfig {
    fn default() -> (r: GcConfig)
        ensures
            r == (GcConfig { tick_budget_us: 250, collect_after_allocations: 4096 }),
    {
        GcConfig { tick_budget_us: 250, collect_after_allocations: 4096 }
    }
}

/// Counters.
#[derive(Clone, Copy, Debug, Default, PartialEq, Eq, Structural)]
pub struct GcStats {
    /// Objects that are live, in both generations.
    pub live: u32,
    /// Objects ever allocated.
    pub allocations: u64,
    /// Objects ever freed.
    pub frees: u64,
    /// Collections of the whole heap.
    pub collections: u64,
    /// Collections of the nursery.
    pub minor_collections: u64,
    /// Objects promoted.
    pub promotions: u64,
}

/// The heap.
#[derive(Debug)]
pub struct Heap {
    /// Young objects.
    pub nursery: Nursery,
    /// Old objects.
    pub old_gen: OldGen,
    /// Old objects that may point to young ones.
    pub remembered: RememberedSet,
    /// Knobs.
    pub knobs: GcConfig,
    /// Counters, but for `live`, which is counted when asked for.
    pub counters: GcStats,
    /// Allocations since the last collection.
    pub fresh: u64,
}

/// Model of the heap.
#[verifier::ext_equal]
pub struct HeapModel {
    pub young: StoreModel,
    pub old: StoreModel,
    pub remembered: RememberedModel,
    pub knobs: GcConfig,
    pub counters: GcStats,
    pub fresh: u64,
}

/// The default knobs.
pub open spec fn default_knobs() -> GcConfig {
    GcConfig { tick_budget_us: 250, collect_after_allocations: 4096 }
}

/// A heap before anything is allocated.
pub open spec fn empty_heap(knobs: GcConfig) -> HeapModel {
    let none = StoreModel { slots: Seq::empty(), free: Seq::empty(), allocations: 0 };
    HeapModel {
        young: none,
        old: none,
        remembered: RememberedModel { cards: Seq::empty(), entries: Seq::empty() },
        knobs,
        counters: GcStats {
            live: 0,
            allocations: 0,
            frees: 0,
            collections: 0,
            minor_collections: 0,
            promotions: 0,
        },
        fresh: 0,
    }
}

impl View for Heap {
    type V = HeapModel;

    open spec fn view(&self) -> HeapModel {
        HeapModel {
            young: self.nursery@,
            old: self.old_gen@,
            remembered: self.remembered@,
            knobs: self.knobs,
            counters: self.counters,
            fresh: self.fresh,
        }
    }
}

impl HeapModel {
    /// Whether both generations are well-formed.
    pub open spec fn wf(self) -> bool {
        self.young.wf() && self.old.wf()
    }

    /// The object behind a handle.
    pub open spec fn at(self, h: GcHandle) -> Option<ObjModel> {
        if object::is_old(h) {
            self.old.at(object::slot_of(h))
        } else {
            self.young.at(object::slot_of(h))
        }
    }

    /// Whether the object behind `a` holds `b`.
    pub open spec fn edge(self, a: GcHandle, b: GcHandle) -> bool {
        match self.at(a) {
            Some(o) => object::handles(object::held(o)).contains(b),
            None => false,
        }
    }

    /// Whether `p` leads from one of `roots` along live objects.
    pub open spec fn path(self, roots: Seq<GcHandle>, p: Seq<GcHandle>) -> bool {
        &&& p.len() > 0
        &&& roots.contains(p[0])
        &&& forall|i: int| 0 <= i < p.len() ==> self.at(#[trigger] p[i]) is Some
        &&& forall|i: int| 0 < i < p.len() ==> self.edge(p[i - 1], #[trigger] p[i])
    }

    /// Whether an object is live and can be reached from `roots`.
    pub open spec fn reachable(self, roots: Seq<GcHandle>, h: GcHandle) -> bool {
        exists|p: Seq<GcHandle>| #[trigger] self.path(roots, p) && p.last() == h
    }

    /// The nursery slots that can be reached.
    pub open spec fn young_reached(self, roots: Seq<GcHandle>) -> Seq<bool> {
        Seq::new(self.young.slots.len(), |i: int| self.reachable(roots, object::young_handle(i)))
    }

    /// The old slots that can be reached.
    pub open spec fn old_reached(self, roots: Seq<GcHandle>) -> Seq<bool> {
        Seq::new(self.old.slots.len(), |i: int| self.reachable(roots, object::old_handle(i)))
    }

    /// The counters, with the live objects counted.
    pub open spec fn stats(self) -> GcStats {
        GcStats { live: (self.young.live().len() + self.old.live().len()) as u32, ..self.counters }
    }

    /// The heap with another young object.
    pub open spec fn with(self, o: ObjModel) -> HeapModel {
        HeapModel {
            young: self.young.with(o),
            counters: GcStats { allocations: store::sat_add(self.counters.allocations, 1), ..self.counters },
            fresh: store::sat_add(self.fresh, 1),
            ..self
        }
    }

    /// The handle of the next object.
    pub open spec fn next(self) -> GcHandle {
        object::young_handle(self.young.next())
    }

    /// The heap with another object behind a live handle.
    pub open spec fn replaced(self, h: GcHandle, o: ObjModel) -> HeapModel {
        if object::is_old(h) {
            HeapModel { old: self.old.replaced(object::slot_of(h), o), ..self }
        } else {
            HeapModel { young: self.young.replaced(object::slot_of(h), o), ..self }
        }
    }

    /// The heap after a store of `target` into `source`.
    pub open spec fn noted(self, source: GcHandle, target: GcHandle) -> HeapModel {
        if object::is_old(source) && !object::is_old(target) {
            HeapModel {
                remembered: self.remembered.sized(self.old.slots.len() as int).dirtied(object::slot_of(source)).recorded(
                    source,
                ),
                ..self
            }
        } else {
            self
        }
    }

    /// The heap after a major collection: what the roots do not reach is gone, the rest is
    /// where it was.
    pub open spec fn collected(self, roots: Seq<GcHandle>) -> HeapModel {
        let young = self.young.painted(self.young_reached(roots));
        let old = self.old.painted(self.old_reached(roots));
        HeapModel {
            young: young.swept(true),
            old: old.swept(false),
            remembered: self.remembered.cleared(),
            knobs: self.knobs,
            counters: GcStats {
                frees: store::sat_add(
                    self.counters.frees,
                    (young.doomed_below(young.slots.len() as int).len() + old.doomed_below(
                        old.slots.len() as int,
                    ).len()) as int,
                ),
                collections: store::sat_add(self.counters.collections, 1),
                ..self.counters
            },
            fresh: 0,
        }
    }
}

/// The slots below `k` whose objects were reached and are old enough to be promoted.
pub open spec fn ripe(s: StoreModel, k: int) -> Seq<u32>
    decreases k,
{
    if k <= 0 {
        Seq::empty()
    } else if s.slots[k - 1].obj is Some && s.slots[k - 1].color == Color::Black && s.slots[k - 1].age + 1
        >= PROMOTION_AGE {
        ripe(s, k - 1).push((k - 1) as u32)
    } else {
        ripe(s, k - 1)
    }
}

/// The generations while objects are promoted.
pub struct Promotion {
    pub young: StoreModel,
    pub old: StoreModel,
    pub moves: Moves,
    pub remap: Seq<(GcHandle, GcHandle)>,
}

/// The generations once the first `k` of the ripe slots are promoted, as far as the old
/// generation has room.
pub open spec fn promoted(young: StoreModel, old: StoreModel, slots: Seq<u32>, k: int) -> Promotion
    decreases k,
{
    if k <= 0 {
        Promotion { young, old, moves: Seq::new(young.slots.len(), |i: int| None), remap: Seq::empty() }
    } else {
        let p = promoted(young, old, slots, k - 1);
        let i = slots[k - 1] as int;
        match p.young.at(i) {
            Some(o) => if p.old.has_room() {
                Promotion {
                    young: p.young.without(i),
                    old: p.old.with(o),
                    moves: p.moves.update(i, Some(p.old.next() as u32)),
                    remap: p.remap.push((object::young_handle(i), object::old_handle(p.old.next()))),
                }
            } else {
                p
            },
            None => p,
        }
    }
}

impl HeapModel {
    /// What a collection of the nursery starts from.
    pub open spec fn minor_roots(self, roots: Seq<GcHandle>) -> Seq<GcHandle> {
        roots + self.remembered.entries
    }

    /// The nursery with what was reached marked.
    pub open spec fn minor_painted(self, roots: Seq<GcHandle>) -> StoreModel {
        self.young.painted(self.young_reached(self.minor_roots(roots)))
    }

    /// What a collection of the nursery promotes.
    pub open spec fn minor_promotion(self, roots: Seq<GcHandle>) -> Promotion {
        let young = self.minor_painted(roots);
        let slots = ripe(young, young.slots.len() as int);
        promoted(young, self.old, slots, slots.len() as int)
    }

    /// The heap after a collection of the nursery.
    pub open spec fn minor_collected(self, roots: Seq<GcHandle>) -> HeapModel {
        let p = self.minor_promotion(roots);
        HeapModel {
            young: p.young.swept(true).relocated(p.moves),
            old: p.old.relocated(p.moves),
            remembered: self.remembered.cleared(),
            knobs: self.knobs,
            counters: GcStats {
                frees: store::sat_add(
                    self.counters.frees,
                    p.young.doomed_below(p.young.slots.len() as int).len() as int,
                ),
                minor_collections: store::sat_add(self.counters.minor_collections, 1),
                promotions: store::sat_add(self.counters.promotions, p.remap.len() as int),
                ..self.counters
            },
            fresh: 0,
        }
    }
}

// --- marking ------------------------------------------------------------------------

/// Whether a handle is marked.
pub open spec fn is_marked(young: Seq<bool>, old: Seq<bool>, h: GcHandle) -> bool {
    let s = object::slot_of(h);
    if object::is_old(h) {
        s < old.len() && old[s]
    } else {
        s < young.len() && young[s]
    }
}

/// Whether a handle is a root, or held by an object that can be reached.
pub open spec fn leads(h: HeapModel, roots: Seq<GcHandle>, g: GcHandle) -> bool {
    roots.contains(g) || exists|y: GcHandle| #[trigger] h.reachable(roots, y) && h.edge(y, g)
}

/// What marking keeps: marks are on reachable objects only, and whatever a mark or a root
/// leads to is marked or still to be looked at.
pub open spec fn marking(h: HeapModel, roots: Seq<GcHandle>, young: Seq<bool>, old: Seq<bool>, grey: Seq<GcHandle>) -> bool {
    &&& young.len() == h.young.slots.len()
    &&& old.len() == h.old.slots.len()
    &&& forall|x: GcHandle| #[trigger] is_marked(young, old, x) ==> h.reachable(roots, x)
    &&& forall|k: int| 0 <= k < grey.len() ==> leads(h, roots, #[trigger] grey[k])
    &&& forall|x: GcHandle, y: GcHandle|
        is_marked(young, old, x) && #[trigger] h.edge(x, y) && h.at(y) is Some ==> is_marked(young, old, y)
            || grey.contains(y)
    &&& forall|r: GcHandle|
        #[trigger] roots.contains(r) && h.at(r) is Some ==> is_marked(young, old, r) || grey.contains(r)
}

proof fn lemma_led_is_reachable(h: HeapModel, roots: Seq<GcHandle>, g: GcHandle)
    requires
        leads(h, roots, g),
        h.at(g) is Some,
    ensures
        h.reachable(roots, g),
{
    if roots.contains(g) {
        let p = seq![g];
        assert(h.path(roots, p));
        assert(p.last() == g);
    } else {
        let y = choose|y: GcHandle| #[trigger] h.reachable(roots, y) && h.edge(y, g);
        let p = choose|p: Seq<GcHandle>| #[trigger] h.path(roots, p) && p.last() == y;
        let q = p.push(g);
        assert forall|i: int| 0 <= i < q.len() implies h.at(#[trigger] q[i]) is Some by {
            if i < p.len() {
                assert(q[i] == p[i]);
            }
        }
        assert forall|i: int| 0 < i < q.len() implies h.edge(q[i - 1], #[trigger] q[i]) by {
            if i < p.len() {
                assert(q[i] == p[i] && q[i - 1] == p[i - 1]);
            } else {
                assert(q[i - 1] == y);
            }
        }
        assert(q[0] == p[0]);
        assert(h.path(roots, q));
        assert(q.last() == g);
    }
}

proof fn lemma_pop(h: HeapModel, roots: Seq<GcHandle>, young: Seq<bool>, old: Seq<bool>, grey: Seq<GcHandle>)
    requires
        marking(h, roots, young, old, grey),
        grey.len() > 0,
        is_marked(young, old, grey.last()) || h.at(grey.last()) is None,
    ensures
        marking(h, roots, young, old, grey.drop_last()),
{
    let g = grey.last();
    let rest = grey.drop_last();
    assert forall|k: int| 0 <= k < rest.len() implies leads(h, roots, #[trigger] rest[k]) by {
        assert(rest[k] == grey[k]);
    }
    assert forall|y: GcHandle| grey.contains(y) && h.at(y) is Some implies is_marked(young, old, y) || #[trigger] rest.contains(
        y,
    ) by {
        let k = choose|k: int| 0 <= k < grey.len() && grey[k] == y;
        if k < grey.len() - 1 {
            assert(rest[k] == y);
        }
    }
    assert forall|x: GcHandle, y: GcHandle|
        is_marked(young, old, x) && #[trigger] h.edge(x, y) && h.at(y) is Some implies is_marked(young, old, y)
        || rest.contains(y) by {
        if !is_marked(young, old, y) {
            assert(grey.contains(y));
        }
    }
    assert forall|r: GcHandle| #[trigger] roots.contains(r) && h.at(r) is Some implies is_marked(young, old, r)
        || rest.contains(r) by {
        if !is_marked(young, old, r) {
            assert(grey.contains(r));
        }
    }
}

proof fn lemma_mark(
    h: HeapModel,
    roots: Seq<GcHandle>,
    young: Seq<bool>,
    old: Seq<bool>,
    grey: Seq<GcHandle>,
    young2: Seq<bool>,
    old2: Seq<bool>,
)
    requires
        h.wf(),
        marking(h, roots, young, old, grey),
        grey.len() > 0,
        h.at(grey.last()) is Some,
        young2 == if object::is_old(grey.last()) {
            young
        } else {
            young.update(object::slot_of(grey.last()), true)
        },
        old2 == if object::is_old(grey.last()) {
            old.update(object::slot_of(grey.last()), true)
        } else {
            old
        },
    ensures
        marking(
            h,
            roots,
            young2,
            old2,
            grey.drop_last() + object::handles(object::held(h.at(grey.last())->0)),
        ),
{
    let g = grey.last();
    let kids = object::handles(object::held(h.at(g)->0));
    let rest = grey.drop_last();
    let next = rest + kids;
    assert(grey[grey.len() - 1] == g);
    lemma_led_is_reachable(h, roots, g);
    assert forall|x: GcHandle| #[trigger] is_marked(young2, old2, x) implies x == g || is_marked(young, old, x) by {
        object::lemma_handle_of_slot(x);
        object::lemma_handle_of_slot(g);
    }
    assert(is_marked(young2, old2, g));
    assert forall|x: GcHandle| is_marked(young, old, x) implies #[trigger] is_marked(young2, old2, x) by {
    }
    assert forall|k: int| 0 <= k < next.len() implies leads(h, roots, #[trigger] next[k]) by {
        if k < rest.len() {
            assert(next[k] == grey[k]);
        } else {
            assert(next[k] == kids[k - rest.len()]);
            assert(h.reachable(roots, g) && h.edge(g, next[k]));
        }
    }
    assert forall|y: GcHandle| grey.contains(y) implies y == g || #[trigger] next.contains(y) by {
        let k = choose|k: int| 0 <= k < grey.len() && grey[k] == y;
        if k < grey.len() - 1 {
            assert(next[k] == y);
        }
    }
    assert forall|x: GcHandle, y: GcHandle|
        is_marked(young2, old2, x) && #[trigger] h.edge(x, y) && h.at(y) is Some implies is_marked(young2, old2, y)
        || next.contains(y) by {
        if x == g {
            let k = choose|k: int| 0 <= k < kids.len() && kids[k] == y;
            assert(next[rest.len() + k] == y);
        } else {
            assert(is_marked(young, old, x));
            if !is_marked(young, old, y) {
                assert(grey.contains(y));
            }
        }
    }
    assert forall|r: GcHandle| #[trigger] roots.contains(r) && h.at(r) is Some implies is_marked(young2, old2, r)
        || next.contains(r) by {
        if !is_marked(young, old, r) {
            assert(grey.contains(r));
        }
    }
}

proof fn lemma_path_marked(h: HeapModel, roots: Seq<GcHandle>, young: Seq<bool>, old: Seq<bool>, p: Seq<GcHandle>, k: int)
    requires
        marking(h, roots, young, old, Seq::empty()),
        h.path(roots, p),
        0 <= k < p.len(),
    ensures
        is_marked(young, old, p[k]),
    decreases k,
{
    let none = Seq::<GcHandle>::empty();
    assert(!none.contains(p[k]));
    if k > 0 {
        lemma_path_marked(h, roots, young, old, p, k - 1);
        assert(h.edge(p[k - 1], p[k]));
    }
}

proof fn lemma_marked_all(h: HeapModel, roots: Seq<GcHandle>, young: Seq<bool>, old: Seq<bool>)
    requires
        h.wf(),
        marking(h, roots, young, old, Seq::empty()),
    ensures
        young == h.young_reached(roots),
        old == h.old_reached(roots),
{
    assert forall|x: GcHandle| #[trigger] is_marked(young, old, x) == h.reachable(roots, x) by {
        if h.reachable(roots, x) {
            let p = choose|p: Seq<GcHandle>| #[trigger] h.path(roots, p) && p.last() == x;
            lemma_path_marked(h, roots, young, old, p, p.len() - 1);
        }
    }
    assert forall|i: int| 0 <= i < young.len() implies young[i] == h.young_reached(roots)[i] by {
        object::law_handle_round_trip(i);
        assert(is_marked(young, old, object::young_handle(i)) == h.reachable(roots, object::young_handle(i)));
    }
    assert forall|i: int| 0 <= i < old.len() implies old[i] == h.old_reached(roots)[i] by {
        object::law_handle_round_trip(i);
        assert(is_marked(young, old, object::old_handle(i)) == h.reachable(roots, object::old_handle(i)));
    }
    assert(young =~= h.young_reached(roots));
    assert(old =~= h.old_reached(roots));
}

/// How many entries are false.
spec fn unset(s: Seq<bool>) -> nat
    decreases s.len(),
{
    if s.len() == 0 {
        0
    } else {
        unset(s.drop_last()) + if s.last() {
            0nat
        } else {
            1
        }
    }
}

proof fn lemma_unset(s: Seq<bool>, i: int)
    requires
        0 <= i < s.len(),
        !s[i],
    ensures
        unset(s.update(i, true)) + 1 == unset(s),
    decreases s.len(),
{
    let t = s.update(i, true);
    if i == s.len() - 1 {
        assert(t.drop_last() =~= s.drop_last());
    } else {
        assert(t.drop_last() =~= s.drop_last().update(i, true));
        assert(t.last() == s.last());
        lemma_unset(s.drop_last(), i);
    }
}

fn all_false(n: usize) -> (r: Vec<bool>)
    ensures
        r@ == Seq::new(n as nat, |i: int| false),
{
    let mut out: Vec<bool> = Vec::new();
    while out.len() < n
        invariant
            out@.len() <= n,
            forall|i: int| 0 <= i < out@.len() ==> !out@[i],
        decreases n - out.len(),
    {
        out.push(false);
    }
    assert(out@ =~= Seq::new(n as nat, |i: int| false));
    out
}

impl Heap {
    /// A heap with the default knobs.
    pub fn with_default_config() -> (r: Heap)
        ensures
            r@ == empty_heap(default_knobs()),
            r@.wf(),
    {
        Heap::with_config(GcConfig { tick_budget_us: 250, collect_after_allocations: 4096 })
    }

    /// A heap with the given knobs.
    pub fn with_config(config: GcConfig) -> (r: Heap)
        ensures
            r@ == empty_heap(config),
            r@.wf(),
    {
        Heap {
            nursery: Nursery::new(),
            old_gen: OldGen::new(),
            remembered: RememberedSet::new(),
            knobs: config,
            counters: GcStats {
                live: 0,
                allocations: 0,
                frees: 0,
                collections: 0,
                minor_collections: 0,
                promotions: 0,
            },
            fresh: 0,
        }
    }

    /// The knobs.
    pub fn config(&self) -> (r: &GcConfig)
        ensures
            *r == self@.knobs,
    {
        &self.knobs
    }

    /// The counters.
    pub fn stats(&self) -> (r: GcStats)
        requires
            self@.wf(),
        ensures
            r == self@.stats(),
    {
        let mut s = self.counters;
        proof {
            store::lemma_live(self@.young, self@.young.slots.len() as int);
            store::lemma_live(self@.old, self@.old.slots.len() as int);
        }
        let n: u64 = self.nursery.live() as u64 + self.old_gen.live() as u64;
        s.live = #[verifier::truncate] (n as u32);
        s
    }

    /// Whether another object can be allocated.
    pub fn has_room(&self) -> (r: bool)
        ensures
            r == self@.young.has_room(),
    {
        self.nursery.store.has_room()
    }

    /// Allocates a young object and returns its handle.
    pub fn allocate(&mut self, obj: Obj) -> (h: GcHandle)
        requires
            old(self)@.wf(),
            old(self)@.young.has_room(),
        ensures
            h == old(self)@.next(),
            !object::is_old(h),
            final(self)@ == old(self)@.with(obj@),
            final(self)@.wf(),
            final(self)@.at(h) == Some(obj@),
    {
        let idx: u32 = self.nursery.allocate(obj);
        self.counters.allocations = count(self.counters.allocations, 1);
        self.fresh = count(self.fresh, 1);
        proof {
            assert(idx < MAX_SLOTS) by {
                let s = old(self)@.young;
                if s.free.len() > 0 {
                    assert(s.free[s.free.len() - 1] < s.slots.len());
                }
            }
            object::law_handle_round_trip(idx as int);
        }
        GcHandle::nursery(idx)
    }

    /// Borrows an object.
    pub fn get(&self, h: GcHandle) -> (r: Option<&Obj>)
        ensures
            r is Some <==> self@.at(h) is Some,
            r is Some ==> r->0@ == self@.at(h)->0,
    {
        if h.is_old() {
            self.old_gen.get(h.index())
        } else {
            self.nursery.get(h.index())
        }
    }

    /// Borrows an object to change it.
    pub fn get_mut(&mut self, h: GcHandle) -> (r: Option<&mut Obj>)
        ensures
            r is Some <==> old(self)@.at(h) is Some,
            match r {
                Some(o) => o@ == old(self)@.at(h)->0 && final(self)@ == old(self)@.replaced(h, final(o)@),
                None => final(self)@ == old(self)@,
            },
    {
        if h.is_old() {
            self.old_gen.get_mut(h.index())
        } else {
            self.nursery.get_mut(h.index())
        }
    }

    /// Whether a collection is called for.
    pub fn should_collect(&self) -> (r: bool)
        requires
            self@.wf(),
        ensures
            r == (self@.fresh > self@.knobs.collect_after_allocations || self@.young.live().len()
                >= NURSERY_SOFT_CAP),
    {
        self.fresh > self.knobs.collect_after_allocations as u64 || self.nursery.over_cap()
    }

    /// Records that `target` was stored into `source`, where the collection of the nursery
    /// has to know.
    pub fn write_barrier(&mut self, source: GcHandle, target: GcHandle)
        requires
            old(self)@.wf(),
        ensures
            final(self)@ == old(self)@.noted(source, target),
            final(self)@.wf(),
    {
        if source.is_old() && target.is_young() {
            self.remembered.resize_for(self.old_gen.capacity());
            self.remembered.dirty_card_for_slot(source.index());
            self.remembered.record(source);
        }
    }

    /// Marks everything that `grey` leads to.
    fn mark_loop(&self, grey: Vec<GcHandle>) -> (r: (Vec<bool>, Vec<bool>))
        requires
            self@.wf(),
        ensures
            r.0@ == self@.young_reached(grey@),
            r.1@ == self@.old_reached(grey@),
    {
        let ghost h = self@;
        let ghost roots = grey@;
        let mut young: Vec<bool> = all_false(self.nursery.store.slots.len());
        let mut old_marks: Vec<bool> = all_false(self.old_gen.store.slots.len());
        let mut rest = grey;
        assert(marking(h, roots, young@, old_marks@, rest@)) by {
            assert forall|k: int| 0 <= k < rest@.len() implies leads(h, roots, #[trigger] rest@[k]) by {
                assert(roots.contains(rest@[k]));
            }
        }
        while rest.len() > 0
            invariant
                h == self@,
                h.wf(),
                marking(h, roots, young@, old_marks@, rest@),
            decreases unset(young@) + unset(old_marks@), rest.len(),
        {
            let ghost before = rest@;
            let ghost y0 = young@;
            let ghost o0 = old_marks@;
            let g: GcHandle = rest[rest.len() - 1];
            let _ = rest.pop();
            assert(rest@ =~= before.drop_last());
            let idx: usize = g.index() as usize;
            match self.get(g) {
                None => {
                    proof {
                        lemma_pop(h, roots, y0, o0, before);
                    }
                },
                Some(obj) => {
                    if g.is_old() {
                        if old_marks[idx] {
                            proof {
                                lemma_pop(h, roots, y0, o0, before);
                            }
                        } else {
                            proof {
                                lemma_unset(o0, idx as int);
                                lemma_mark(h, roots, y0, o0, before, y0, o0.update(idx as int, true));
                            }
                            old_marks.set(idx, true);
                            scan_obj_into(obj, &mut rest);
                        }
                    } else {
                        if young[idx] {
                            proof {
                                lemma_pop(h, roots, y0, o0, before);
                            }
                        } else {
                            proof {
                                lemma_unset(y0, idx as int);
                                lemma_mark(h, roots, y0, o0, before, y0.update(idx as int, true), o0);
                            }
                            young.set(idx, true);
                            scan_obj_into(obj, &mut rest);
                        }
                    }
                },
            }
        }
        proof {
            assert(rest@ =~= Seq::empty());
            lemma_marked_all(h, roots, young@, old_marks@);
        }
        (young, old_marks)
    }

    /// A major collection: frees what `roots` do not reach, in both generations. Handles
    /// stay as they are. Returns the counters.
    pub fn collect(&mut self, roots: &[Value]) -> (r: GcStats)
        requires
            old(self)@.wf(),
        ensures
            final(self)@ == old(self)@.collected(object::handles(views::views(roots@))),
            final(self)@.wf(),
            r == final(self)@.stats(),
    {
        let ghost h = self@;
        let mut grey: Vec<GcHandle> = Vec::new();
        push_all_roots(roots, &mut grey);
        assert(grey@ =~= object::handles(views::views(roots@)));
        let (young, old_marks) = self.mark_loop(grey);
        self.nursery.store.paint(&young);
        self.old_gen.store.paint(&old_marks);
        proof {
            store::lemma_doomed(self@.young, self@.young.slots.len() as int);
            store::lemma_doomed(self@.old, self@.old.slots.len() as int);
        }
        let freed_n: u64 = self.nursery.sweep();
        let freed_o: u64 = self.old_gen.sweep();
        self.remembered.clear();
        self.counters.frees = count(self.counters.frees, freed_n + freed_o);
        self.counters.collections = count(self.counters.collections, 1);
        self.fresh = 0;
        self.stats()
    }

    fn ripe_slots(&self) -> (r: Vec<u32>)
        requires
            self@.wf(),
        ensures
            r@ == ripe(self@.young, self@.young.slots.len() as int),
    {
        let ghost m = self@.young;
        let mut out: Vec<u32> = Vec::new();
        let mut i: usize = 0;
        let n: usize = self.nursery.store.slots.len();
        while i < n
            invariant
                i <= n == self.nursery.store.slots@.len(),
                n <= MAX_SLOTS,
                m == self@.young,
                out@ == ripe(m, i as int),
            decreases n - i,
        {
            assert(m.slots[i as int] == self.nursery.store.slots@[i as int]@);
            let slot = &self.nursery.store.slots[i];
            if slot.obj.is_some() && slot.color == Color::Black && slot.age as u16 + 1 >= PROMOTION_AGE as u16 {
                out.push(i as u32);
            }
            i += 1;
        }
        out
    }

    /// A collection of the nursery: frees the young objects that neither `roots` nor the
    /// remembered objects reach, and promotes those that survive for the second time.
    ///
    /// Values in the heap follow the promoted objects. The caller gets the pairs of former
    /// and new handles, to do the same with values elsewhere.
    pub fn minor_collect(&mut self, roots: &[Value]) -> (remap: Vec<(GcHandle, GcHandle)>)
        requires
            old(self)@.wf(),
        ensures
            final(self)@ == old(self)@.minor_collected(object::handles(views::views(roots@))),
            final(self)@.wf(),
            remap@ == old(self)@.minor_promotion(object::handles(views::views(roots@))).remap,
    {
        let ghost h = self@;
        let ghost rs = object::handles(views::views(roots@));
        let mut grey: Vec<GcHandle> = Vec::new();
        push_all_roots(roots, &mut grey);
        let mut e: usize = 0;
        assert(grey@ =~= rs + h.remembered.entries.take(0));
        while e < self.remembered.entries.len()
            invariant
                e <= self.remembered.entries@.len(),
                h == self@,
                grey@ == rs + h.remembered.entries.take(e as int),
            decreases self.remembered.entries.len() - e,
        {
            grey.push(self.remembered.entries[e]);
            e += 1;
            assert(grey@ =~= rs + h.remembered.entries.take(e as int));
        }
        assert(h.remembered.entries.take(e as int) =~= h.remembered.entries);
        let (young, _) = self.mark_loop(grey);
        self.nursery.store.paint(&young);
        let ghost y1 = self@.young;
        let slots = self.ripe_slots();
        let size: usize = self.nursery.store.slots.len();
        let mut moves: Vec<Option<u32>> = Vec::new();
        while moves.len() < size
            invariant
                moves@.len() <= size,
                forall|i: int| 0 <= i < moves@.len() ==> moves@[i] == None::<u32>,
            decreases size - moves.len(),
        {
            moves.push(None);
        }
        let mut remap: Vec<(GcHandle, GcHandle)> = Vec::new();
        let mut k: usize = 0;
        let ghost p0 = promoted(y1, h.old, slots@, 0);
        assert(moves@ =~= p0.moves);
        assert(remap@ =~= p0.remap);
        proof {
            lemma_ripe(y1, y1.slots.len() as int);
        }
        while k < slots.len()
            invariant
                k <= slots@.len(),
                size == y1.slots.len(),
                slots@ == ripe(y1, y1.slots.len() as int),
                forall|j: int| 0 <= j < slots@.len() ==> (#[trigger] slots@[j]) < y1.slots.len(),
                self@.wf(),
                self@.young == promoted(y1, h.old, slots@, k as int).young,
                self@.young.slots.len() == size,
                self@.old == promoted(y1, h.old, slots@, k as int).old,
                moves@ == promoted(y1, h.old, slots@, k as int).moves,
                moves@.len() == size,
                remap@ == promoted(y1, h.old, slots@, k as int).remap,
                remap@.len() <= k,
                self@.remembered == h.remembered,
                self@.knobs == h.knobs,
                self@.counters == h.counters,
            decreases slots.len() - k,
        {
            let idx: u32 = slots[k];
            assert(idx < y1.slots.len());
            if self.old_gen.store.has_room() {
                if let Some(obj) = self.nursery.promote(idx) {
                    let ghost before = self@.old;
                    let to: u32 = self.old_gen.promote_in(obj);
                    assert(to == before.next());
                    moves.set(idx as usize, Some(to));
                    remap.push((GcHandle::nursery(idx), GcHandle::old_gen(to)));
                }
            }
            k += 1;
        }
        let freed: u64 = self.nursery.sweep();
        self.nursery.store.relocate(&moves);
        self.old_gen.store.relocate(&moves);
        self.remembered.clear();
        self.counters.frees = count(self.counters.frees, freed);
        self.counters.minor_collections = count(self.counters.minor_collections, 1);
        self.counters.promotions = count(self.counters.promotions, remap.len() as u64);
        self.fresh = 0;
        remap
    }

    /// The handles of all live objects, the young ones first.
    pub fn live_handles(&self) -> (r: Vec<GcHandle>)
        requires
            self@.wf(),
        ensures
            r@ == Seq::new(
                self@.young.live().len() + self@.old.live().len(),
                |i: int|
                    if i < self@.young.live().len() {
                        object::young_handle(self@.young.live()[i] as int)
                    } else {
                        object::old_handle(self@.old.live()[i - self@.young.live().len()] as int)
                    },
            ),
    {
        let ys = self.nursery.live_indices();
        let os = self.old_gen.live_indices();
        let mut out: Vec<GcHandle> = Vec::new();
        let mut i: usize = 0;
        while i < ys.len()
            invariant
                i <= ys@.len(),
                out@.len() == i,
                forall|j: int| 0 <= j < i ==> out@[j] == object::young_handle(ys@[j] as int),
            decreases ys.len() - i,
        {
            out.push(GcHandle::nursery(ys[i]));
            i += 1;
        }
        let mut k: usize = 0;
        while k < os.len()
            invariant
                k <= os@.len(),
                out@.len() == ys@.len() + k,
                forall|j: int| 0 <= j < ys@.len() ==> out@[j] == object::young_handle(ys@[j] as int),
                forall|j: int|
                    0 <= j < k ==> #[trigger] out@[ys@.len() + j] == object::old_handle(os@[j] as int),
            decreases os.len() - k,
        {
            out.push(GcHandle::old_gen(os[k]));
            k += 1;
        }
        assert forall|i: int| ys@.len() <= i < out@.len() implies out@[i] == object::old_handle(
            os@[i - ys@.len()] as int,
        ) by {
            assert(out@[ys@.len() + (i - ys@.len())] == object::old_handle(os@[i - ys@.len()] as int));
        }
        out
    }
}

pub proof fn lemma_ripe(s: StoreModel, k: int)
    requires
        0 <= k <= s.slots.len() <= MAX_SLOTS,
    ensures
        forall|j: int| 0 <= j < ripe(s, k).len() ==> (#[trigger] ripe(s, k)[j]) < k && s.slots[ripe(s, k)[j] as int].obj is Some
            && s.slots[ripe(s, k)[j] as int].color == Color::Black,
        forall|i: int, j: int| 0 <= i < j < ripe(s, k).len() ==> #[trigger] ripe(s, k)[i] < #[trigger] ripe(s, k)[j],
    decreases k,
{
    if k > 0 {
        lemma_ripe(s, k - 1);
    }
}

} // verus!
