//! A machine: a module, its heap and its host functions.

use crate::bytecode;
use crate::bytecode::{Module, ModuleModel};
use crate::ffi::{BindingModel, CallTable};
use crate::gc::heap;
use crate::gc::heap::{Heap, HeapModel};
use crate::views;
use crate::vm::dispatch;
use crate::vm::dispatch::{run, StopReason};
use crate::vm::frame;
use crate::vm::frame::{CallFrame, FrameModel};
use crate::vm::step;
use crate::vm::step::{MachineModel, StopModel, Trouble};
use crate::vm::value::{Value, ValueModel};
use vstd::prelude::*;

verus! {

/// A machine.
#[derive(Debug)]
pub struct Vm<F> {
    /// The code.
    pub module: Module,
    /// Arrays, maps, structs and closures.
    pub heap: Heap,
    /// Host functions.
    pub ffi: CallTable<F>,
    /// The call frames of a run that has not come to its end.
    pub stack: Vec<CallFrame>,
}

/// The first frame of a call by name.
pub open spec fn first_frame(m: ModuleModel, name: Seq<char>, args: Seq<ValueModel>) -> Result<FrameModel, Trouble> {
    match bytecode::id_from(m.index, name, 0) {
        None => Err(Trouble::Other("no function named `"@ + name + "`"@)),
        Some(id) => if id >= m.functions.len() {
            Err(Trouble::Malformed)
        } else if args.len() > m.functions[id as int].max_register {
            Err(Trouble::TooManyArguments)
        } else {
            Ok(frame::entry_frame(id, m.functions[id as int].max_register as int, args, None))
        },
    }
}

/// Where a run from `frames` ends.
pub open spec fn run_from<F>(m: ModuleModel, table: Seq<BindingModel<F>>, frames: Seq<FrameModel>, heap: HeapModel) -> (
    MachineModel,
    StopModel,
) {
    step::ran(m, table, MachineModel { frames, heap }, u64::MAX as nat)
}

/// Where a call by name ends.
pub open spec fn call_from<F>(
    m: ModuleModel,
    table: Seq<BindingModel<F>>,
    heap: HeapModel,
    name: Seq<char>,
    args: Seq<ValueModel>,
) -> (MachineModel, StopModel) {
    match first_frame(m, name, args) {
        Err(t) => (MachineModel { frames: Seq::empty(), heap }, StopModel::Error(t)),
        Ok(f) => run_from(m, table, seq![f], heap),
    }
}

/// Where a run ends that goes on with the result of a host function.
pub open spec fn resume_from<F>(
    m: ModuleModel,
    table: Seq<BindingModel<F>>,
    s: MachineModel,
    dst: u8,
    result: Result<ValueModel, Seq<char>>,
) -> (MachineModel, StopModel) {
    match result {
        Err(e) => (s, StopModel::Error(Trouble::Other("ffi error: "@ + e))),
        Ok(v) => if s.frames.len() == 0 {
            (s, StopModel::Error(Trouble::Malformed))
        } else {
            match step::given(s.frames, dst, v, s.heap) {
                (t, Some(stop)) => (t, stop),
                (t, None) => run_from(m, table, t.frames, t.heap),
            }
        },
    }
}

impl<F> Vm<F> {
    /// The stack and the heap.
    pub open spec fn state(&self) -> MachineModel {
        MachineModel { frames: views::views(self.stack@), heap: self.heap@ }
    }

    /// A machine for `module`, with an empty heap and no host functions.
    pub fn new(module: Module) -> (r: Vm<F>)
        ensures
            r.module == module,
            r.heap@ == heap::empty_heap(heap::default_knobs()),
            r.heap@.wf(),
            r.ffi@.len() == 0,
            r.stack@.len() == 0,
    {
        Vm { module, heap: Heap::with_default_config(), ffi: CallTable::new(), stack: Vec::new() }
    }

    /// Calls a function by name and runs it until it stops.
    pub fn call(&mut self, name: &str, args: Vec<Value>) -> (r: StopReason)
        requires
            old(self).heap@.wf(),
        ensures
            final(self).module == old(self).module,
            final(self).ffi == old(self).ffi,
            final(self).heap@.wf(),
            ({
                let (m, s) = call_from(
                    old(self).module@,
                    old(self).ffi@,
                    old(self).heap@,
                    name@,
                    views::views(args@),
                );
                final(self).state() == m && dispatch::stop_agrees(r, s)
            }),
    {
        let ghost am = views::views(args@);
        assert(am.len() == args@.len());
        self.stack = Vec::new();
        assert(views::views(self.stack@) =~= Seq::empty());
        let id: u16 = match self.module.function_id(name) {
            None => {
                let mut e = "no function named `".to_owned();
                e.append(name);
                e.append("`");
                return StopReason::Error(e);
            },
            Some(id) => id,
        };
        if id as usize >= self.module.functions.len() {
            return StopReason::Error("malformed bytecode".to_owned());
        }
        assert(self.module@.functions[id as int] == self.module.functions@[id as int]@);
        let n: u8 = self.module.functions[id as usize].max_register;
        if args.len() > n as usize {
            return StopReason::Error("too many arguments for the callee's registers".to_owned());
        }
        let f = CallFrame::entering(id, n, args, None);
        self.stack.push(f);
        assert(views::views(self.stack@) =~= seq![f@]);
        run(&self.module, &mut self.stack, &mut self.heap, &self.ffi)
    }

    /// Goes on with the result of the host function that the last stop asked for.
    pub fn resume(&mut self, dst: u8, result: Result<Value, String>) -> (r: StopReason)
        requires
            old(self).heap@.wf(),
        ensures
            final(self).module == old(self).module,
            final(self).ffi == old(self).ffi,
            final(self).heap@.wf(),
            ({
                let (m, s) = resume_from(
                    old(self).module@,
                    old(self).ffi@,
                    old(self).state(),
                    dst,
                    match result {
                        Ok(v) => Ok(v@),
                        Err(e) => Err(e@),
                    },
                );
                final(self).state() == m && dispatch::stop_agrees(r, s)
            }),
    {
        assert(views::views(self.stack@).len() == self.stack@.len());
        match result {
            Err(why) => {
                let mut e = "ffi error: ".to_owned();
                e.append(why.as_str());
                StopReason::Error(e)
            },
            Ok(v) => {
                if self.stack.len() == 0 {
                    return StopReason::Error("malformed bytecode".to_owned());
                }
                match dispatch::give(&mut self.stack, dst, v, Ghost(self.heap@)) {
                    Some(s) => s,
                    None => run(&self.module, &mut self.stack, &mut self.heap, &self.ffi),
                }
            },
        }
    }
}

} // verus!
