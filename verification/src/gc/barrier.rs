//! When a store has to be recorded.

use crate::gc::object;
use crate::gc::object::GcHandle;
use vstd::prelude::*;

verus! {

/// Whether `h` points into the old generation.
pub fn is_old(h: GcHandle) -> (r: bool)
    ensures
        r == object::is_old(h),
{
    h.is_old()
}

/// Whether `h` points into the nursery.
pub fn is_young(h: GcHandle) -> (r: bool)
    ensures
        r == !object::is_old(h),
{
    h.is_young()
}

/// Whether a store of `target` into `source` has to be recorded: only one of a young
/// object into an old one.
pub fn would_fire(source: GcHandle, target: GcHandle) -> (r: bool)
    ensures
        r == (object::is_old(source) && !object::is_old(target)),
{
    is_old(source) && is_young(target)
}

/// A place to hook into stores. It does nothing: the heap records a store itself, in
/// `Heap::write_barrier`.
pub fn write_barrier_hook(_source: GcHandle, _target: GcHandle) {
}

} // verus!
