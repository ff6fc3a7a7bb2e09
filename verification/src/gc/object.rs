//! Handles and the objects behind them.

use crate::vm::value;
use crate::vm::value::{Value, ValueModel};
use crate::views;
use vstd::prelude::*;

verus! {

/// The bit of a handle that is set where it stands for an object of the old generation.
pub const OLD_GEN_BIT: u32 = 0x8000_0000;

/// The bits of a handle that hold the slot.
pub const INDEX_MASK: u32 = 0x7FFF_FFFF;

/// A handle to a heap object: the generation in the high bit, the slot in the others.
///
/// A handle stays good as long as its object stays in its generation. Promotion gives an
/// object a new handle.
#[derive(Clone, Copy, Debug, PartialEq, Eq, Hash, Structural)]
pub struct GcHandle(pub u32);

/// Whether a handle stands for an object of the old generation.
pub open spec fn is_old(h: GcHandle) -> bool {
    h.0 >= OLD_GEN_BIT
}

/// The slot of a handle within its generation.
pub open spec fn slot_of(h: GcHandle) -> int {
    if is_old(h) {
        h.0 - OLD_GEN_BIT
    } else {
        h.0 as int
    }
}

/// The handle of a slot of the nursery.
pub open spec fn young_handle(slot: int) -> GcHandle {
    GcHandle((slot % 0x8000_0000) as u32)
}

/// The handle of a slot of the old generation.
pub open spec fn old_handle(slot: int) -> GcHandle {
    GcHandle((slot % 0x8000_0000 + 0x8000_0000) as u32)
}

/// A handle says which generation and which slot it was made for.
pub proof fn law_handle_round_trip(slot: int)
    requires
        0 <= slot < 0x8000_0000,
    ensures
        !is_old(young_handle(slot)),
        slot_of(young_handle(slot)) == slot,
        is_old(old_handle(slot)),
        slot_of(old_handle(slot)) == slot,
{
}

/// A handle is the handle of its slot.
pub proof fn lemma_handle_of_slot(h: GcHandle)
    ensures
        0 <= slot_of(h) < 0x8000_0000,
        is_old(h) ==> h == old_handle(slot_of(h)),
        !is_old(h) ==> h == young_handle(slot_of(h)),
{
}

impl GcHandle {
    /// Whether this handle points into the old generation.
    pub fn is_old(self) -> (r: bool)
        ensures
            r == is_old(self),
    {
        self.0 >= OLD_GEN_BIT
    }

    /// Whether this handle points into the nursery.
    pub fn is_young(self) -> (r: bool)
        ensures
            r == !is_old(self),
    {
        self.0 < OLD_GEN_BIT
    }

    /// The slot within its generation.
    pub fn index(self) -> (r: u32)
        ensures
            r == slot_of(self),
    {
        if self.0 >= OLD_GEN_BIT {
            self.0 - OLD_GEN_BIT
        } else {
            self.0
        }
    }

    /// The handle of a slot of the nursery.
    pub fn nursery(slot: u32) -> (r: GcHandle)
        ensures
            r == young_handle(slot as int),
    {
        GcHandle(slot % OLD_GEN_BIT)
    }

    /// The handle of a slot of the old generation.
    pub fn old_gen(slot: u32) -> (r: GcHandle)
        ensures
            r == old_handle(slot as int),
    {
        GcHandle(slot % OLD_GEN_BIT + OLD_GEN_BIT)
    }
}

/// One heap object.
#[derive(Debug)]
pub enum Obj {
    /// Values in order.
    Array(Vec<Value>),
    /// Values under names, in the order in which the names first came.
    Dict(Vec<(String, Value)>),
    /// The fields of a struct, in the order in which they were first set.
    Struct(Vec<(String, Value)>),
    /// A function and the values it captured.
    Closure {
        /// The place of the function in its module.
        function_id: u16,
        /// The captured values.
        upvalues: Vec<Value>,
    },
}

/// Model of an object.
#[verifier::ext_equal]
pub enum ObjModel {
    Array(Seq<ValueModel>),
    Dict(Seq<(Seq<char>, ValueModel)>),
    Struct(Seq<(Seq<char>, ValueModel)>),
    Closure(u16, Seq<ValueModel>),
}

/// Model of named values.
pub open spec fn entries_model(es: Seq<(String, Value)>) -> Seq<(Seq<char>, ValueModel)> {
    Seq::new(es.len(), |i: int| (es[i].0@, es[i].1@))
}

impl View for Obj {
    type V = ObjModel;

    open spec fn view(&self) -> ObjModel {
        match *self {
            Obj::Array(vs) => ObjModel::Array(views::views(vs@)),
            Obj::Dict(es) => ObjModel::Dict(entries_model(es@)),
            Obj::Struct(es) => ObjModel::Struct(entries_model(es@)),
            Obj::Closure { function_id, upvalues } => ObjModel::Closure(function_id, views::views(upvalues@)),
        }
    }
}

/// The values of named values.
pub open spec fn entry_values(es: Seq<(Seq<char>, ValueModel)>) -> Seq<ValueModel> {
    Seq::new(es.len(), |i: int| es[i].1)
}

/// The values that an object holds.
pub open spec fn held(o: ObjModel) -> Seq<ValueModel> {
    match o {
        ObjModel::Array(vs) => vs,
        ObjModel::Dict(es) => entry_values(es),
        ObjModel::Struct(es) => entry_values(es),
        ObjModel::Closure(_, vs) => vs,
    }
}

/// The handles among the first `k` values, in order.
pub open spec fn handles_in(vs: Seq<ValueModel>, k: int) -> Seq<GcHandle>
    decreases k,
{
    if k <= 0 {
        Seq::empty()
    } else {
        match value::handle_of(vs[k - 1]) {
            Some(h) => handles_in(vs, k - 1).push(h),
            None => handles_in(vs, k - 1),
        }
    }
}

/// The handles among values.
pub open spec fn handles(vs: Seq<ValueModel>) -> Seq<GcHandle> {
    handles_in(vs, vs.len() as int)
}

/// Adds the handle of `v`, where it has one.
pub(crate) fn push_value_roots(v: &Value, out: &mut Vec<GcHandle>)
    ensures
        final(out)@ == match value::handle_of(v@) {
            Some(h) => old(out)@.push(h),
            None => old(out)@,
        },
{
    if let Some(h) = v.handle() {
        out.push(h);
    }
}

/// Adds the handles of all of `vs`.
pub(crate) fn push_all_roots(vs: &[Value], out: &mut Vec<GcHandle>)
    ensures
        final(out)@ == old(out)@ + handles(views::views(vs@)),
{
    let ghost m = views::views(vs@);
    let mut i: usize = 0;
    assert(out@ =~= old(out)@ + handles_in(m, 0));
    while i < vs.len()
        invariant
            i <= vs@.len(),
            m == views::views(vs@),
            out@ == old(out)@ + handles_in(m, i as int),
        decreases vs.len() - i,
    {
        assert(m[i as int] == vs@[i as int]@);
        push_value_roots(&vs[i], out);
        i += 1;
        assert(out@ =~= old(out)@ + handles_in(m, i as int));
    }
}

fn push_entry_roots(es: &Vec<(String, Value)>, out: &mut Vec<GcHandle>)
    ensures
        final(out)@ == old(out)@ + handles(entry_values(entries_model(es@))),
{
    let ghost m = entry_values(entries_model(es@));
    let mut i: usize = 0;
    assert(out@ =~= old(out)@ + handles_in(m, 0));
    while i < es.len()
        invariant
            i <= es@.len(),
            m == entry_values(entries_model(es@)),
            out@ == old(out)@ + handles_in(m, i as int),
        decreases es.len() - i,
    {
        assert(m[i as int] == es@[i as int].1@);
        push_value_roots(&es[i].1, out);
        i += 1;
        assert(out@ =~= old(out)@ + handles_in(m, i as int));
    }
}

/// Adds the handles that `obj` holds.
pub(crate) fn scan_obj_into(obj: &Obj, out: &mut Vec<GcHandle>)
    ensures
        final(out)@ == old(out)@ + handles(held(obj@)),
{
    match obj {
        Obj::Array(vs) => push_all_roots(vs.as_slice(), out),
        Obj::Dict(es) => push_entry_roots(es, out),
        Obj::Struct(es) => push_entry_roots(es, out),
        Obj::Closure { function_id, upvalues } => push_all_roots(upvalues.as_slice(), out),
    }
}

// --- moved objects ------------------------------------------------------------------

/// Where nursery slots have moved to in the old generation, by slot.
pub type Moves = Seq<Option<u32>>;

/// The handle under which an object is found after the moves.
pub open spec fn moved_handle(h: GcHandle, moves: Moves) -> GcHandle {
    if !is_old(h) && slot_of(h) < moves.len() {
        match moves[slot_of(h)] {
            Some(to) => old_handle(to as int),
            None => h,
        }
    } else {
        h
    }
}

/// A value after the moves.
pub open spec fn moved_value(v: ValueModel, moves: Moves) -> ValueModel {
    match value::handle_of(v) {
        Some(h) => value::with_handle(v, moved_handle(h, moves)),
        None => v,
    }
}

/// Values after the moves.
pub open spec fn moved_values(vs: Seq<ValueModel>, moves: Moves) -> Seq<ValueModel> {
    Seq::new(vs.len(), |i: int| moved_value(vs[i], moves))
}

/// Named values after the moves.
pub open spec fn moved_entries(es: Seq<(Seq<char>, ValueModel)>, moves: Moves) -> Seq<(Seq<char>, ValueModel)> {
    Seq::new(es.len(), |i: int| (es[i].0, moved_value(es[i].1, moves)))
}

/// An object after the moves.
pub open spec fn moved_obj(o: ObjModel, moves: Moves) -> ObjModel {
    match o {
        ObjModel::Array(vs) => ObjModel::Array(moved_values(vs, moves)),
        ObjModel::Dict(es) => ObjModel::Dict(moved_entries(es, moves)),
        ObjModel::Struct(es) => ObjModel::Struct(moved_entries(es, moves)),
        ObjModel::Closure(f, vs) => ObjModel::Closure(f, moved_values(vs, moves)),
    }
}

fn move_value(v: &mut Value, moves: &Vec<Option<u32>>)
    ensures
        final(v)@ == moved_value(old(v)@, moves@),
{
    if let Some(h) = v.handle() {
        if h.is_young() && (h.index() as usize) < moves.len() {
            if let Some(to) = moves[h.index() as usize] {
                v.set_handle(GcHandle::old_gen(to));
            }
        }
    }
}

fn move_values(vs: &mut Vec<Value>, moves: &Vec<Option<u32>>)
    ensures
        views::views(final(vs)@) == moved_values(views::views(old(vs)@), moves@),
{
    let ghost m = views::views(vs@);
    let n: usize = vs.len();
    let mut i: usize = 0;
    while i < n
        invariant
            i <= n == vs@.len() == old(vs)@.len(),
            m == views::views(old(vs)@),
            forall|j: int| 0 <= j < i ==> (#[trigger] vs@[j])@ == moved_value(m[j], moves@),
            forall|j: int| i <= j < n ==> #[trigger] vs@[j] == old(vs)@[j],
        decreases n - i,
    {
        assert(m[i as int] == old(vs)@[i as int]@);
        move_value(&mut vs[i], moves);
        i += 1;
    }
    assert(views::views(vs@) =~= moved_values(m, moves@));
}

fn move_entries(es: &mut Vec<(String, Value)>, moves: &Vec<Option<u32>>)
    ensures
        entries_model(final(es)@) == moved_entries(entries_model(old(es)@), moves@),
{
    let ghost m = entries_model(es@);
    let n: usize = es.len();
    let mut i: usize = 0;
    while i < n
        invariant
            i <= n == es@.len() == old(es)@.len(),
            m == entries_model(old(es)@),
            forall|j: int| 0 <= j < i ==> (#[trigger] es@[j]).0@ == m[j].0 && es@[j].1@ == moved_value(m[j].1, moves@),
            forall|j: int| i <= j < n ==> #[trigger] es@[j] == old(es)@[j],
        decreases n - i,
    {
        assert(m[i as int] == (old(es)@[i as int].0@, old(es)@[i as int].1@));
        move_value(&mut es[i].1, moves);
        i += 1;
    }
    assert(entries_model(es@) =~= moved_entries(m, moves@));
}

/// Gives every value in `o` the handle that its object has after the moves.
pub(crate) fn move_obj(o: &mut Obj, moves: &Vec<Option<u32>>)
    ensures
        final(o)@ == moved_obj(old(o)@, moves@),
{
    match o {
        Obj::Array(vs) => move_values(vs, moves),
        Obj::Dict(es) => move_entries(es, moves),
        Obj::Struct(es) => move_entries(es, moves),
        Obj::Closure { function_id, upvalues } => move_values(upvalues, moves),
    }
}

} // verus!
