//! What the counters of the heap count.

use crate::gc::heap;
use crate::gc::heap::{GcConfig, HeapModel};
use crate::gc::laws;
use crate::gc::object;
use crate::gc::object::{GcHandle, ObjModel};
use crate::gc::store;
use crate::gc::store::StoreModel;
use vstd::prelude::*;

verus! {

/// Slots that hold objects in the same places count the same.
proof fn lemma_same_live(a: StoreModel, b: StoreModel, k: int)
    requires
        0 <= k <= a.slots.len(),
        k <= b.slots.len(),
        forall|i: int| 0 <= i < k ==> (#[trigger] a.slots[i]).obj is Some == b.slots[i].obj is Some,
    ensures
        a.live_below(k).len() == b.live_below(k).len(),
    decreases k,
{
    if k > 0 {
        lemma_same_live(a, b, k - 1);
        assert(a.slots[k - 1].obj is Some == b.slots[k - 1].obj is Some);
    }
}

/// One object more, in a slot below `k`.
proof fn lemma_one_more(a: StoreModel, b: StoreModel, at: int, k: int)
    requires
        0 <= at < k <= a.slots.len(),
        k <= b.slots.len(),
        a.slots[at].obj is None,
        b.slots[at].obj is Some,
        forall|i: int| 0 <= i < k && i != at ==> (#[trigger] a.slots[i]).obj is Some == b.slots[i].obj is Some,
    ensures
        b.live_below(k).len() == a.live_below(k).len() + 1,
    decreases k,
{
    if at == k - 1 {
        lemma_same_live(a, b, k - 1);
    } else {
        lemma_one_more(a, b, at, k - 1);
        assert(a.slots[k - 1].obj is Some == b.slots[k - 1].obj is Some);
    }
}

proof fn lemma_with_counts(s: StoreModel, o: ObjModel)
    requires
        s.wf(),
        s.has_room(),
    ensures
        s.with(o).live().len() == s.live().len() + 1,
        s.with(o).wf(),
{
    let t = s.with(o);
    store::lemma_store_kept(s, o, 0, false, Seq::empty());
    if s.free.len() > 0 {
        let i = s.free.last() as int;
        assert(s.free[s.free.len() - 1] < s.slots.len());
        lemma_one_more(s, t, i, s.slots.len() as int);
    } else {
        lemma_same_live(s, t, s.slots.len() as int);
    }
}

proof fn lemma_without_counts(s: StoreModel, i: int)
    requires
        0 <= i < s.slots.len(),
        s.slots[i].obj is Some,
    ensures
        s.live().len() == s.without(i).live().len() + 1,
{
    lemma_one_more(s.without(i), s, i, s.slots.len() as int);
}

proof fn lemma_sweep_counts(s: StoreModel, aging: bool, k: int)
    requires
        0 <= k <= s.slots.len(),
    ensures
        s.swept(aging).live_below(k).len() + s.doomed_below(k).len() == s.live_below(k).len(),
    decreases k,
{
    if k > 0 {
        lemma_sweep_counts(s, aging, k - 1);
    }
}

proof fn lemma_promotion_counts(young: StoreModel, old: StoreModel, slots: Seq<u32>, k: int)
    requires
        young.wf(),
        old.wf(),
        0 <= k <= slots.len(),
        slots == heap::ripe(young, young.slots.len() as int),
        slots.len() <= young.slots.len(),
    ensures
        ({
            let p = heap::promoted(young, old, slots, k);
            p.young.live().len() + p.old.live().len() == young.live().len() + old.live().len()
        }),
    decreases k,
{
    if k > 0 {
        lemma_promotion_counts(young, old, slots, k - 1);
        laws::lemma_promotion_keeps(young, old, slots, k - 1);
        let p = heap::promoted(young, old, slots, k - 1);
        let i = slots[k - 1] as int;
        if let Some(o) = p.young.at(i) {
            if p.old.has_room() {
                lemma_with_counts(p.old, o);
                lemma_without_counts(p.young, i);
            }
        }
    }
}

/// A request to the heap.
pub enum Request {
    /// Allocate an object.
    Allocate(ObjModel),
    /// Change the object behind a handle.
    Change(GcHandle, ObjModel),
    /// Note that the second was stored into the first.
    Note(GcHandle, GcHandle),
    /// Collect the whole heap.
    Collect(Seq<GcHandle>),
    /// Collect the nursery.
    Minor(Seq<GcHandle>),
}

/// Whether a request can be met: there is room for an object, and an object to be changed
/// is there.
pub open spec fn possible(h: HeapModel, r: Request) -> bool {
    match r {
        Request::Allocate(_) => h.young.has_room(),
        Request::Change(x, _) => h.at(x) is Some,
        _ => true,
    }
}

/// The heap after a request.
pub open spec fn met(h: HeapModel, r: Request) -> HeapModel {
    match r {
        Request::Allocate(o) => h.with(o),
        Request::Change(x, o) => h.replaced(x, o),
        Request::Note(a, b) => h.noted(a, b),
        Request::Collect(roots) => h.collected(roots),
        Request::Minor(roots) => h.minor_collected(roots),
    }
}

/// The heap after the first `k` of some requests.
pub open spec fn after(knobs: GcConfig, rs: Seq<Request>, k: int) -> HeapModel
    decreases k,
{
    if k <= 0 {
        heap::empty_heap(knobs)
    } else {
        met(after(knobs, rs, k - 1), rs[k - 1])
    }
}

/// How many of the first `k` requests are allocations.
pub open spec fn allocated(rs: Seq<Request>, k: int) -> nat
    decreases k,
{
    if k <= 0 {
        0
    } else {
        allocated(rs, k - 1) + if rs[k - 1] is Allocate {
            1nat
        } else {
            0
        }
    }
}

/// How many of the first `k` requests are collections of the whole heap.
pub open spec fn collected(rs: Seq<Request>, k: int) -> nat
    decreases k,
{
    if k <= 0 {
        0
    } else {
        collected(rs, k - 1) + if rs[k - 1] is Collect {
            1nat
        } else {
            0
        }
    }
}

/// How many of the first `k` requests are collections of the nursery.
pub open spec fn minor(rs: Seq<Request>, k: int) -> nat
    decreases k,
{
    if k <= 0 {
        0
    } else {
        minor(rs, k - 1) + if rs[k - 1] is Minor {
            1nat
        } else {
            0
        }
    }
}

/// How many objects are live.
pub open spec fn live_count(h: HeapModel) -> nat {
    h.young.live().len() + h.old.live().len()
}

proof fn lemma_minor_counts(h: HeapModel, roots: Seq<GcHandle>)
    requires
        h.wf(),
    ensures
        ({
            let p = h.minor_promotion(roots);
            &&& live_count(h.minor_collected(roots)) + p.young.doomed_below(p.young.slots.len() as int).len()
                == live_count(h)
            &&& h.minor_collected(roots).wf()
        }),
{
    let young = h.minor_painted(roots);
    let slots = heap::ripe(young, young.slots.len() as int);
    let p = h.minor_promotion(roots);
    store::lemma_same_objects(h.young, young);
    laws::lemma_ripe_count(young);
    lemma_same_live(h.young, young, young.slots.len() as int);
    lemma_promotion_counts(young, h.old, slots, slots.len() as int);
    laws::lemma_promotion_keeps(young, h.old, slots, slots.len() as int);
    let n = p.young.slots.len() as int;
    lemma_sweep_counts(p.young, true, n);
    let w = p.young.swept(true);
    lemma_same_live(w, w.relocated(p.moves), n);
    lemma_same_live(p.old, p.old.relocated(p.moves), p.old.slots.len() as int);
    store::lemma_store_kept(p.young, arbitrary_object(), -1, true, p.moves);
    store::lemma_store_kept(w, arbitrary_object(), -1, true, p.moves);
    store::lemma_store_kept(p.old, arbitrary_object(), -1, true, p.moves);
}

spec fn arbitrary_object() -> ObjModel {
    arbitrary()
}

#[verifier::spinoff_prover]
#[verifier::rlimit(40)]
proof fn lemma_counts(knobs: GcConfig, rs: Seq<Request>, k: int)
    requires
        0 <= k <= rs.len() <= u64::MAX,
        forall|i: int| 0 <= i < k ==> possible(after(knobs, rs, i), #[trigger] rs[i]),
    ensures
        ({
            let h = after(knobs, rs, k);
            &&& h.wf()
            &&& h.counters.allocations == allocated(rs, k) <= k
            &&& h.counters.collections == collected(rs, k) <= k
            &&& h.counters.minor_collections == minor(rs, k) <= k
            &&& live_count(h) + h.counters.frees == h.counters.allocations
        }),
    decreases k,
{
    if k > 0 {
        lemma_counts(knobs, rs, k - 1);
        let h = after(knobs, rs, k - 1);
        let g = after(knobs, rs, k);
        assert(possible(h, rs[k - 1]));
        match rs[k - 1] {
            Request::Allocate(o) => {
                lemma_with_counts(h.young, o);
            },
            Request::Change(x, o) => {
                let i = object::slot_of(x);
                if object::is_old(x) {
                    store::lemma_store_kept(h.old, o, i, false, Seq::empty());
                    lemma_same_live(h.old, g.old, h.old.slots.len() as int);
                } else {
                    store::lemma_store_kept(h.young, o, i, false, Seq::empty());
                    lemma_same_live(h.young, g.young, h.young.slots.len() as int);
                }
            },
            Request::Note(a, b) => {},
            Request::Collect(roots) => {
                let y = h.young.painted(h.young_reached(roots));
                let o = h.old.painted(h.old_reached(roots));
                store::lemma_same_objects(h.young, y);
                store::lemma_same_objects(h.old, o);
                lemma_same_live(h.young, y, y.slots.len() as int);
                lemma_same_live(h.old, o, o.slots.len() as int);
                lemma_sweep_counts(y, true, y.slots.len() as int);
                lemma_sweep_counts(o, false, o.slots.len() as int);
                store::lemma_store_kept(y, arbitrary_object(), -1, true, Seq::empty());
                store::lemma_store_kept(o, arbitrary_object(), -1, false, Seq::empty());
            },
            Request::Minor(roots) => {
                lemma_minor_counts(h, roots);
            },
        }
    }
}

/// The counters count: from a fresh heap on, allocations and both kinds of collections are as
/// many as were asked for, a promotion being no allocation, and the live objects are those
/// allocated and not freed.
pub proof fn law_counters_count(knobs: GcConfig, rs: Seq<Request>)
    requires
        rs.len() <= u64::MAX,
        forall|i: int| 0 <= i < rs.len() ==> possible(after(knobs, rs, i), #[trigger] rs[i]),
    ensures
        ({
            let h = after(knobs, rs, rs.len() as int);
            let s = h.stats();
            &&& s.allocations == allocated(rs, rs.len() as int)
            &&& s.collections == collected(rs, rs.len() as int)
            &&& s.minor_collections == minor(rs, rs.len() as int)
            &&& live_count(h) == s.allocations - s.frees
            &&& live_count(h) <= u32::MAX ==> s.live == s.allocations - s.frees
        }),
{
    lemma_counts(knobs, rs, rs.len() as int);
}

} // verus!
