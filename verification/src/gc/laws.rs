//! What collections keep.

use crate::gc::heap;
use crate::gc::heap::HeapModel;
use crate::gc::nursery::PROMOTION_AGE;
use crate::gc::object;
use crate::gc::object::{GcHandle, ObjModel};
use crate::gc::store;
use crate::gc::store::{Color, StoreModel, MAX_SLOTS};
use vstd::prelude::*;

verus! {

/// A major collection keeps exactly what the roots reach, each object under its handle.
pub proof fn law_collect_keeps_the_reachable(h: HeapModel, roots: Seq<GcHandle>, x: GcHandle)
    requires
        h.wf(),
    ensures
        h.collected(roots).at(x) == if h.reachable(roots, x) {
            h.at(x)
        } else {
            None
        },
{
    object::lemma_handle_of_slot(x);
    if h.reachable(roots, x) {
        let p = choose|p: Seq<GcHandle>| #[trigger] h.path(roots, p) && p.last() == x;
        assert(h.at(p[p.len() - 1]) is Some);
    }
}

/// A store through the write barrier keeps a young object alive: once an old object holds
/// it and the store was noted, a collection of the nursery reaches it without any roots.
pub proof fn law_barrier_keeps_target(h: HeapModel, source: GcHandle, target: GcHandle)
    requires
        object::is_old(source),
        !object::is_old(target),
        h.at(source) is Some,
        h.at(target) is Some,
        h.edge(source, target),
    ensures
        h.noted(source, target).reachable(h.noted(source, target).minor_roots(Seq::empty()), target),
{
    let n = h.noted(source, target);
    let roots = n.minor_roots(Seq::empty());
    assert(roots[roots.len() - 1] == source);
    let p = seq![source, target];
    assert(n.at(source) == h.at(source) && n.at(target) == h.at(target));
    assert(n.edge(p[0], p[1]));
    assert(n.path(roots, p));
    assert(p.last() == target);
}

/// What promotion keeps, once `k` slots have been looked at.
spec fn promoting(young: StoreModel, old: StoreModel, slots: Seq<u32>, k: int) -> bool {
    let p = heap::promoted(young, old, slots, k);
    &&& p.young.wf()
    &&& p.old.wf()
    &&& p.young.slots.len() == young.slots.len()
    &&& p.moves.len() == young.slots.len()
    &&& p.old.slots.len() <= old.slots.len() + k
    &&& forall|i: int| 0 <= i < young.slots.len() ==> match #[trigger] p.moves[i] {
        Some(to) => p.young.at(i) is None && to < MAX_SLOTS && young.at(i) is Some && p.old.at(to as int) == young.at(i),
        None => p.young.slots[i] == young.slots[i],
    }
    &&& forall|i: int| 0 <= i < old.slots.len() && old.at(i) is Some ==> #[trigger] p.old.at(i) == old.at(i)
    &&& forall|i: int, j: int|
        0 <= i < old.slots.len() && old.at(i) is Some && 0 <= j < young.slots.len() ==> #[trigger] p.moves[j] != Some(
            #[trigger] (i as u32),
        )
    &&& forall|j: int| k <= j < slots.len() ==> p.moves[#[trigger] slots[j] as int] is None
    &&& (old.slots.len() + young.slots.len() <= MAX_SLOTS ==> forall|j: int|
        0 <= j < k ==> p.moves[#[trigger] slots[j] as int] is Some)
}

proof fn lemma_with(s: StoreModel, o: ObjModel)
    requires
        s.wf(),
        s.has_room(),
    ensures
        s.with(o).wf(),
        s.next() < MAX_SLOTS,
        s.at(s.next()) is None,
        s.with(o).at(s.next()) == Some(o),
        s.with(o).slots.len() <= s.slots.len() + 1,
        forall|i: int| 0 <= i < s.slots.len() && s.at(i) is Some ==> #[trigger] s.with(o).at(i) == s.at(i),
{
    store::lemma_store_kept(s, o, 0, false, Seq::empty());
    if s.free.len() > 0 {
        assert(s.free[s.free.len() - 1] < s.slots.len());
        assert(s.slots[s.free[s.free.len() - 1] as int].obj is None);
    }
}

#[verifier::spinoff_prover]
#[verifier::rlimit(60)]
proof fn lemma_promoting(young: StoreModel, old: StoreModel, slots: Seq<u32>, k: int)
    requires
        young.wf(),
        old.wf(),
        0 <= k <= slots.len(),
        slots == heap::ripe(young, young.slots.len() as int),
        slots.len() <= young.slots.len(),
    ensures
        promoting(young, old, slots, k),
    decreases k,
{
    heap::lemma_ripe(young, young.slots.len() as int);
    if k > 0 {
        lemma_promoting(young, old, slots, k - 1);
        let p = heap::promoted(young, old, slots, k - 1);
        let q = heap::promoted(young, old, slots, k);
        let i = slots[k - 1] as int;
        assert(p.moves[slots[k - 1] as int] is None);
        assert(p.young.slots[i] == young.slots[i]);
        assert(p.young.at(i) is Some);
        if p.old.has_room() {
            let o = p.young.at(i)->0;
            lemma_with(p.old, o);
            store::lemma_store_kept(p.young, o, i, false, Seq::empty());
            let to = p.old.next() as u32;
            assert(q.moves == p.moves.update(i, Some(to)));
            assert forall|j: int| 0 <= j < young.slots.len() implies match #[trigger] q.moves[j] {
                Some(t) => q.young.at(j) is None && t < MAX_SLOTS && young.at(j) is Some && q.old.at(t as int)
                    == young.at(j),
                None => q.young.slots[j] == young.slots[j],
            } by {
                if j != i {
                    assert(q.moves[j] == p.moves[j]);
                    match p.moves[j] {
                        Some(t) => {
                            assert(p.old.at(t as int) is Some);
                            assert(p.old.with(o).at(t as int) == p.old.at(t as int));
                        },
                        None => {},
                    }
                }
            }
            assert forall|j: int| 0 <= j < old.slots.len() && old.at(j) is Some implies #[trigger] q.old.at(j)
                == old.at(j) by {
                assert(p.old.at(j) == old.at(j));
                assert(p.old.with(o).at(j) == p.old.at(j));
            }
            assert forall|a: int, j: int|
                0 <= a < old.slots.len() && old.at(a) is Some && 0 <= j < young.slots.len() implies #[trigger] q.moves[j]
                != Some(#[trigger] (a as u32)) by {
                assert(p.old.at(a) == old.at(a));
                assert(p.moves[j] != Some(a as u32));
            }
            assert forall|j: int| k <= j < slots.len() implies q.moves[#[trigger] slots[j] as int] is None by {
                assert(slots[k - 1] < slots[j]);
                assert(p.moves[slots[j] as int] is None);
            }
            assert(old.slots.len() + young.slots.len() <= MAX_SLOTS ==> forall|j: int|
                0 <= j < k ==> q.moves[#[trigger] slots[j] as int] is Some) by {
                if old.slots.len() + young.slots.len() <= MAX_SLOTS {
                    assert forall|j: int| 0 <= j < k implies q.moves[#[trigger] slots[j] as int] is Some by {
                        if j < k - 1 {
                            assert(p.moves[slots[j] as int] is Some);
                        }
                    }
                }
            }
        } else {
            assert(p.old.slots.len() == MAX_SLOTS);
            assert forall|j: int| k <= j < slots.len() implies q.moves[#[trigger] slots[j] as int] is None by {
                assert(p.moves[slots[j] as int] is None);
            }
        }
    } else {
        let p = heap::promoted(young, old, slots, 0);
        assert forall|j: int| 0 <= j < slots.len() implies p.moves[#[trigger] slots[j] as int] is None by {
            assert(slots[j] < young.slots.len());
        }
    }
}

proof fn lemma_ripe_len(s: StoreModel, k: int)
    requires
        0 <= k <= s.slots.len(),
    ensures
        heap::ripe(s, k).len() <= k,
        forall|i: int|
            0 <= i < k && s.slots[i].obj is Some && s.slots[i].color == Color::Black && s.slots[i].age + 1
                >= PROMOTION_AGE ==> heap::ripe(s, k).contains(i as u32),
    decreases k,
{
    if k > 0 {
        lemma_ripe_len(s, k - 1);
        let a = heap::ripe(s, k - 1);
        let b = heap::ripe(s, k);
        assert forall|i: int|
            0 <= i < k && s.slots[i].obj is Some && s.slots[i].color == Color::Black && s.slots[i].age + 1
                >= PROMOTION_AGE implies b.contains(i as u32) by {
            if i < k - 1 {
                let j = choose|j: int| 0 <= j < a.len() && a[j] == i as u32;
                assert(b[j] == i as u32);
            } else {
                assert(b.last() == i as u32);
            }
        }
    }
}

/// No more slots are ripe than there are.
pub(crate) proof fn lemma_ripe_count(s: StoreModel)
    ensures
        heap::ripe(s, s.slots.len() as int).len() <= s.slots.len(),
{
    lemma_ripe_len(s, s.slots.len() as int);
}

/// Promotion keeps both generations well-formed and the slots of the young one.
pub(crate) proof fn lemma_promotion_keeps(young: StoreModel, old: StoreModel, slots: Seq<u32>, k: int)
    requires
        young.wf(),
        old.wf(),
        0 <= k <= slots.len(),
        slots == heap::ripe(young, young.slots.len() as int),
        slots.len() <= young.slots.len(),
    ensures
        ({
            let p = heap::promoted(young, old, slots, k);
            &&& p.young.wf()
            &&& p.old.wf()
            &&& p.young.slots.len() == young.slots.len()
        }),
        forall|j: int| 0 <= j < slots.len() ==> (#[trigger] slots[j]) < young.slots.len(),
{
    lemma_promoting(young, old, slots, k);
    heap::lemma_ripe(young, young.slots.len() as int);
}

proof fn lemma_minor(h: HeapModel, roots: Seq<GcHandle>)
    requires
        h.wf(),
    ensures
        ({
            let young = h.minor_painted(roots);
            let slots = heap::ripe(young, young.slots.len() as int);
            young.wf() && promoting(young, h.old, slots, slots.len() as int)
        }),
{
    let young = h.minor_painted(roots);
    let slots = heap::ripe(young, young.slots.len() as int);
    store::lemma_same_objects(h.young, young);
    lemma_ripe_len(young, young.slots.len() as int);
    lemma_promoting(young, h.old, slots, slots.len() as int);
}

/// A collection of the nursery keeps what the roots and the remembered objects reach: each
/// such object is found under its handle, or under the one it moved to, and what it holds
/// has followed the moves.
pub proof fn law_minor_keeps_the_reachable(h: HeapModel, roots: Seq<GcHandle>, x: GcHandle)
    requires
        h.wf(),
        h.reachable(h.minor_roots(roots), x),
    ensures
        h.at(x) is Some,
        h.minor_collected(roots).at(object::moved_handle(x, h.minor_promotion(roots).moves)) == Some(
            object::moved_obj(h.at(x)->0, h.minor_promotion(roots).moves),
        ),
{
    object::lemma_handle_of_slot(x);
    let all = h.minor_roots(roots);
    let path = choose|p: Seq<GcHandle>| #[trigger] h.path(all, p) && p.last() == x;
    assert(h.at(path[path.len() - 1]) is Some);
    lemma_minor(h, roots);
    let young = h.minor_painted(roots);
    let p = h.minor_promotion(roots);
    let i = object::slot_of(x);
    if object::is_old(x) {
        assert(p.old.at(i) == h.old.at(i));
    } else {
        assert(young.slots[i].color == Color::Black);
        match p.moves[i] {
            Some(to) => {
                object::law_handle_round_trip(to as int);
                assert(p.old.at(to as int) == young.at(i));
            },
            None => {
                assert(p.young.slots[i] == young.slots[i]);
            },
        }
    }
}

/// A collection of the nursery frees every young object that neither the roots nor the
/// remembered objects reach, and frees no old object.
pub proof fn law_minor_frees_the_rest(h: HeapModel, roots: Seq<GcHandle>, x: GcHandle)
    requires
        h.wf(),
    ensures
        !object::is_old(x) && !h.reachable(h.minor_roots(roots), x) ==> h.minor_collected(roots).at(x) is None,
        object::is_old(x) && h.at(x) is Some ==> h.minor_collected(roots).at(x) is Some,
{
    object::lemma_handle_of_slot(x);
    lemma_minor(h, roots);
    let young = h.minor_painted(roots);
    let p = h.minor_promotion(roots);
    let i = object::slot_of(x);
    if object::is_old(x) {
        if h.at(x) is Some {
            assert(p.old.at(i) == h.old.at(i));
        }
    } else if i < young.slots.len() && !h.reachable(h.minor_roots(roots), x) {
        match p.moves[i] {
            Some(to) => {},
            None => {
                assert(p.young.slots[i] == young.slots[i]);
            },
        }
    }
}

/// A young object that a collection of the nursery reaches grows older the first time, and
/// is promoted the second time, as long as the old generation has room.
pub proof fn law_promotion_on_second_survival(h: HeapModel, roots: Seq<GcHandle>, i: int)
    requires
        h.wf(),
        0 <= i < h.young.slots.len(),
        h.reachable(h.minor_roots(roots), object::young_handle(i)),
        h.young.slots.len() + h.old.slots.len() <= MAX_SLOTS,
    ensures
        h.young.slots[i].age + 1 < PROMOTION_AGE ==> h.minor_promotion(roots).moves[i] is None && h.minor_collected(
            roots,
        ).young.slots[i].age == h.young.slots[i].age + 1,
        h.young.slots[i].age + 1 >= PROMOTION_AGE ==> h.minor_promotion(roots).moves[i] is Some,
{
    lemma_minor(h, roots);
    law_minor_keeps_the_reachable(h, roots, object::young_handle(i));
    object::law_handle_round_trip(i);
    let young = h.minor_painted(roots);
    let slots = heap::ripe(young, young.slots.len() as int);
    lemma_ripe_len(young, young.slots.len() as int);
    heap::lemma_ripe(young, young.slots.len() as int);
    let p = h.minor_promotion(roots);
    assert(young.slots[i].color == Color::Black);
    if h.young.slots[i].age + 1 >= PROMOTION_AGE {
        assert(slots.contains(i as u32));
        let j = choose|j: int| 0 <= j < slots.len() && slots[j] == i as u32;
        assert(p.moves[slots[j] as int] is Some);
    } else {
        lemma_unripe_stays(young, h.old, slots, slots.len() as int, i);
    }
}

proof fn lemma_unripe_stays(young: StoreModel, old: StoreModel, slots: Seq<u32>, k: int, i: int)
    requires
        young.slots.len() <= MAX_SLOTS,
        slots == heap::ripe(young, young.slots.len() as int),
        0 <= k <= slots.len(),
        0 <= i < young.slots.len(),
        young.slots[i].age + 1 < PROMOTION_AGE,
    ensures
        heap::promoted(young, old, slots, k).moves.len() == young.slots.len(),
        heap::promoted(young, old, slots, k).moves[i] is None,
        heap::promoted(young, old, slots, k).young.slots.len() == young.slots.len(),
        heap::promoted(young, old, slots, k).young.slots[i] == young.slots[i],
    decreases k,
{
    if k > 0 {
        lemma_unripe_stays(young, old, slots, k - 1, i);
        lemma_ripe_age(young, young.slots.len() as int, k - 1);
    }
}

proof fn lemma_ripe_age(s: StoreModel, n: int, j: int)
    requires
        0 <= n <= s.slots.len() <= MAX_SLOTS,
        0 <= j < heap::ripe(s, n).len(),
    ensures
        heap::ripe(s, n)[j] < n,
        s.slots[heap::ripe(s, n)[j] as int].age + 1 >= PROMOTION_AGE,
    decreases n,
{
    if n > 0 {
        if j < heap::ripe(s, n - 1).len() {
            lemma_ripe_age(s, n - 1, j);
        }
    }
}

} // verus!
