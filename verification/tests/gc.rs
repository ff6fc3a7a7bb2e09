//! The collector keeps what is reachable and frees the rest.

use sliced_engine::gc::barrier::{is_old, is_young, would_fire, write_barrier_hook};
use sliced_engine::gc::nursery::{Nursery, PROMOTION_AGE};
use sliced_engine::gc::old_gen::{OldGen, CARD_SIZE};
use sliced_engine::gc::remembered::RememberedSet;
use sliced_engine::gc::{GcConfig, GcHandle, Heap, Obj};
use sliced_engine::vm::Value;

#[test]
fn classification() {
    let young = GcHandle(0x0000_00FF);
    let old = GcHandle(0x8000_00FF);
    assert!(is_young(young));
    assert!(is_old(old));
    assert!(!is_old(young));
    assert!(!is_young(old));
}

#[test]
fn would_fire_only_for_old_to_young() {
    let young_a = GcHandle(0x0000_0001);
    let young_b = GcHandle(0x0000_0002);
    let old_a = GcHandle(0x8000_0001);
    let old_b = GcHandle(0x8000_0002);
    assert!(!would_fire(young_a, young_b));
    assert!(!would_fire(young_a, old_b));
    assert!(!would_fire(old_a, old_b));
    assert!(would_fire(old_a, young_b));
}

#[test]
fn handle_encoding_roundtrip() {
    let n = GcHandle::nursery(42);
    assert!(n.is_young());
    assert!(!n.is_old());
    assert_eq!(n.index(), 42);
    let o = GcHandle::old_gen(7);
    assert!(o.is_old());
    assert!(!o.is_young());
    assert_eq!(o.index(), 7);
}

#[test]
fn alloc_starts_in_nursery() {
    let mut h = Heap::with_default_config();
    let g = h.allocate(Obj::Array(vec![Value::Int(1)]));
    assert!(g.is_young());
    assert!(h.get(g).is_some());
}

#[test]
fn promotion_after_two_minor_collects() {
    let mut h = Heap::with_default_config();
    let kept = h.allocate(Obj::Array(vec![Value::Int(99)]));
    let roots = vec![Value::Array(kept)];

    let remap1 = h.minor_collect(&roots);
    assert!(remap1.is_empty(), "first survival ages but does not promote");
    assert!(kept.is_young());
    assert!(h.get(kept).is_some());

    let remap2 = h.minor_collect(&roots);
    assert_eq!(remap2.len(), 1, "second survival promotes");
    let (old_handle, new_handle) = remap2[0];
    assert_eq!(old_handle, kept);
    assert!(new_handle.is_old());
    assert!(h.get(new_handle).is_some());
    assert!(h.get(kept).is_none(), "nursery slot is reclaimed");
}

#[test]
fn write_barrier_records_old_to_young() {
    let mut h = Heap::with_default_config();
    // Force an old-gen object into existence by promoting.
    let child = h.allocate(Obj::Array(vec![Value::Int(7)]));
    let parent = h.allocate(Obj::Array(vec![Value::Array(child)]));
    let roots = vec![Value::Array(parent)];
    h.minor_collect(&roots);
    let remap = h.minor_collect(&roots);
    // Both should have been promoted.
    let parent_old = remap
        .iter()
        .find_map(|(o, n)| if *o == parent { Some(*n) } else { None })
        .expect("parent promoted");

    // Allocate a fresh nursery object and store it into the
    // (old-gen) parent. The write barrier should record the edge.
    let fresh = h.allocate(Obj::Array(vec![Value::Int(123)]));
    h.write_barrier(parent_old, fresh);

    let remap2 = h.minor_collect(&[Value::Array(parent_old)]);
    // `fresh` is reachable via parent's children (we recorded the
    // barrier, but didn't actually mutate parent's contents — this
    // test verifies the remembered set is consulted, not that
    // mutation is wired). The remembered-set source is treated as
    // a root for scanning; since `fresh` isn't actually inside
    // parent's Obj::Array, it should be collected. Test that:
    assert!(remap2.is_empty(), "fresh not actually inside parent; collected");
    assert!(h.get(fresh).is_none());
}

#[test]
fn major_collect_sweeps_both_gens() {
    let mut h = Heap::with_default_config();
    let keep = h.allocate(Obj::Array(vec![Value::Int(1)]));
    let drop_ = h.allocate(Obj::Array(vec![Value::Int(2)]));
    let roots = vec![Value::Array(keep)];
    // Two minor collects to promote `keep`.
    let _ = h.minor_collect(&roots);
    let remap = h.minor_collect(&roots);
    let keep_old = remap[0].1;
    // Allocate another nursery object and drop it.
    let _ephemeral = h.allocate(Obj::Array(vec![Value::Int(3)]));
    let stats = h.collect(&[Value::Array(keep_old)]);
    assert_eq!(stats.live, 1);
    assert!(h.get(keep_old).is_some());
    // The originally-allocated `drop_` was collected by the first
    // minor (or in this case, the major sweep).
    assert!(h.get(drop_).is_none());
}

#[test]
fn alloc_and_get() {
    let mut n = Nursery::new();
    let idx = n.allocate(Obj::Array(vec![Value::Int(1)]));
    assert!(n.get(idx).is_some());
    assert_eq!(n.live(), 1);
}

#[test]
fn sweep_unmarked() {
    let mut n = Nursery::new();
    let _ = n.allocate(Obj::Array(vec![]));
    let kept = n.allocate(Obj::Array(vec![]));
    n.whiten();
    n.mark_black(kept);
    let freed = n.sweep();
    assert_eq!(freed, 1);
    assert_eq!(n.live(), 1);
    assert!(n.get(kept).is_some());
}

#[test]
fn aging_then_promotion() {
    let mut n = Nursery::new();
    let idx = n.allocate(Obj::Array(vec![Value::Int(7)]));
    // Survive collection 1.
    n.whiten();
    n.mark_black(idx);
    n.sweep();
    assert_eq!(n.age(idx), 1);
    // Survive collection 2 — eligible for promotion now.
    n.whiten();
    n.mark_black(idx);
    n.sweep();
    assert_eq!(n.age(idx), PROMOTION_AGE);
    let promoted = n.promote(idx);
    assert!(matches!(promoted, Some(Obj::Array(_))));
    assert!(n.get(idx).is_none());
}

#[test]
fn promote_and_get() {
    let mut o = OldGen::new();
    let idx = o.promote_in(Obj::Array(vec![Value::Int(42)]));
    assert!(o.get(idx).is_some());
    assert_eq!(o.live(), 1);
}

#[test]
fn major_sweep_drops_white() {
    let mut o = OldGen::new();
    let dead = o.promote_in(Obj::Array(vec![]));
    let live = o.promote_in(Obj::Array(vec![]));
    o.whiten();
    o.mark_black(live);
    let freed = o.sweep();
    assert_eq!(freed, 1);
    assert!(o.get(dead).is_none());
    assert!(o.get(live).is_some());
}

#[test]
fn old_gen_card_indexing() {
    assert_eq!(OldGen::card_for_slot(0), 0);
    assert_eq!(OldGen::card_for_slot(CARD_SIZE - 1), 0);
    assert_eq!(OldGen::card_for_slot(CARD_SIZE), 1);
    assert_eq!(OldGen::card_for_slot(CARD_SIZE * 3 + 7), 3);
}

#[test]
fn record_and_clear() {
    let mut r = RememberedSet::new();
    r.resize_for(2048);
    r.dirty_card_for_slot(100);
    r.dirty_card_for_slot(700);
    r.record(GcHandle(0x8000_0001));
    assert_eq!(r.dirty_count(), 2);
    assert_eq!(r.entries().len(), 1);
    r.clear();
    assert_eq!(r.dirty_count(), 0);
    assert_eq!(r.entries().len(), 0);
}

#[test]
fn remembered_card_indexing() {
    let mut r = RememberedSet::new();
    r.resize_for(CARD_SIZE * 4);
    r.dirty_card_for_slot(0);
    r.dirty_card_for_slot(CARD_SIZE * 2);
    assert!(r.card_dirty(0));
    assert!(r.card_dirty(2));
    assert!(!r.card_dirty(1));
    assert!(!r.card_dirty(3));
}

#[test]
fn kept_handles_survive_collection() {
    let mut heap = Heap::with_default_config();
    let h0 = heap.allocate(Obj::Array(vec![Value::Int(1)]));
    let h1 = heap.allocate(Obj::Array(vec![Value::Int(2)]));
    let h2 = heap.allocate(Obj::Array(vec![Value::Int(3)]));

    // Keep h0 and h2; drop h1.
    let roots = vec![Value::Array(h0), Value::Array(h2)];
    let stats = heap.collect(&roots);
    assert_eq!(stats.live, 2);

    assert!(heap.get(h0).is_some());
    assert!(heap.get(h1).is_none(), "h1 should have been swept");
    assert!(heap.get(h2).is_some());
}

#[test]
fn transitive_reachability() {
    let mut heap = Heap::with_default_config();
    let child = heap.allocate(Obj::Array(vec![Value::Int(99)]));
    let parent = heap.allocate(Obj::Array(vec![Value::Array(child)]));

    let roots = vec![Value::Array(parent)];
    let stats = heap.collect(&roots);
    assert_eq!(stats.live, 2);
    assert!(heap.get(parent).is_some());
    assert!(heap.get(child).is_some());
}

#[test]
fn dropping_parent_collects_child() {
    let mut heap = Heap::with_default_config();
    let child = heap.allocate(Obj::Array(vec![Value::Int(99)]));
    let _parent = heap.allocate(Obj::Array(vec![Value::Array(child)]));

    let roots: Vec<Value> = Vec::new();
    let stats = heap.collect(&roots);
    assert_eq!(stats.live, 0);
    assert!(heap.get(child).is_none());
}

#[test]
fn churn_100k_objects() {
    // Allocate 100k objects, drop most refs, collect, assert no
    // overcollect or under-collect.
    let mut heap = Heap::with_default_config();
    let mut handles = Vec::with_capacity(100_000);
    for i in 0..100_000 {
        handles.push(heap.allocate(Obj::Array(vec![Value::Int(i)])));
    }
    // Keep every 10th handle.
    let roots: Vec<Value> = handles
        .iter()
        .enumerate()
        .filter(|(i, _)| i % 10 == 0)
        .map(|(_, h)| Value::Array(*h))
        .collect();
    let stats = heap.collect(&roots);
    assert_eq!(stats.live, 10_000);
}

#[test]
fn free_list_recycles_slots() {
    let mut heap = Heap::with_default_config();
    let h0 = heap.allocate(Obj::Array(vec![]));
    let h1 = heap.allocate(Obj::Array(vec![]));
    heap.collect(&[]); // drop both
    assert!(heap.get(h0).is_none());
    assert!(heap.get(h1).is_none());
    let h2 = heap.allocate(Obj::Array(vec![]));
    // Slot reuse — h2 should occupy one of the freed indices.
    let live = heap.live_handles();
    assert_eq!(live.len(), 1);
    assert_eq!(live[0], h2);
}

#[test]
fn collections_are_called_for_beyond_the_threshold() {
    let mut heap = Heap::with_config(GcConfig {
        tick_budget_us: 250,
        collect_after_allocations: 2,
    });
    heap.allocate(Obj::Array(vec![]));
    heap.allocate(Obj::Array(vec![]));
    assert!(!heap.should_collect());
    heap.allocate(Obj::Array(vec![]));
    assert!(heap.should_collect());
    heap.collect(&[]);
    assert!(!heap.should_collect());
}

#[test]
fn the_counters_count_what_happened() {
    let mut heap = Heap::with_default_config();
    let kept = heap.allocate(Obj::Array(vec![]));
    heap.allocate(Obj::Array(vec![]));
    heap.allocate(Obj::Array(vec![]));
    let roots = [Value::Array(kept)];
    heap.minor_collect(&roots);
    let moved = heap.minor_collect(&roots);
    assert_eq!(moved.len(), 1);
    heap.allocate(Obj::Array(vec![]));
    heap.collect(&[]);
    let stats = heap.stats();
    assert_eq!((stats.allocations, stats.frees, stats.live), (4, 4, 0));
    assert_eq!((stats.collections, stats.minor_collections, stats.promotions), (1, 2, 1));
}

#[test]
fn the_barrier_hook_changes_nothing() {
    let mut heap = Heap::with_default_config();
    let a = heap.allocate(Obj::Array(vec![]));
    let b = heap.allocate(Obj::Array(vec![]));
    write_barrier_hook(a, b);
    assert_eq!(heap.live_handles(), vec![a, b]);
}
