//! Table of host functions that scripts can call.
//!
//! The table keeps what was registered, in order; an index into it is what the `FfiCall`
//! instruction holds. It checks a call, and hands out the callback; the host runs it.

use crate::text;
use crate::text::push_dec;
use vstd::prelude::*;

verus! {

/// A host function: its name, how many arguments it takes (`None`: any number), and what
/// the host calls.
#[derive(Clone, Debug)]
pub struct Binding<F> {
    /// Name in script source.
    pub name: String,
    /// Number of arguments.
    pub arity: Option<u8>,
    /// What the host calls.
    pub callback: F,
}

/// Model of a binding.
pub struct BindingModel<F> {
    pub name: Seq<char>,
    pub arity: Option<u8>,
    pub callback: F,
}

impl<F> View for Binding<F> {
    type V = BindingModel<F>;

    open spec fn view(&self) -> BindingModel<F> {
        BindingModel { name: self.name@, arity: self.arity, callback: self.callback }
    }
}

/// The table.
#[derive(Debug)]
pub struct CallTable<F> {
    /// What was registered, in order.
    pub bindings: Vec<Binding<F>>,
}

impl<F> View for CallTable<F> {
    type V = Seq<BindingModel<F>>;

    open spec fn view(&self) -> Seq<BindingModel<F>> {
        crate::views::views(self.bindings@)
    }
}

/// The first place from `i` on with a name.
pub open spec fn place_from<F>(t: Seq<BindingModel<F>>, name: Seq<char>, i: int) -> Option<int>
    decreases t.len() - i,
{
    if i < 0 || i >= t.len() {
        None
    } else if t[i].name == name {
        Some(i)
    } else {
        place_from(t, name, i + 1)
    }
}

/// Why a call with `n` arguments is refused.
pub open spec fn refusal<F>(t: Seq<BindingModel<F>>, id: u16, n: int) -> Option<Seq<char>> {
    if id >= t.len() {
        Some("no ffi binding at index "@ + text::dec(id as nat))
    } else {
        match t[id as int].arity {
            Some(expected) => if expected != n {
                Some(
                    "ffi `"@ + t[id as int].name + "` expected "@ + text::dec(expected as nat) + " args, got "@
                        + text::dec(n as nat),
                )
            } else {
                None
            },
            None => None,
        }
    }
}

impl<F> CallTable<F> {
    /// An empty table.
    pub fn new() -> (r: CallTable<F>)
        ensures
            r@ == Seq::<BindingModel<F>>::empty(),
    {
        let r = CallTable { bindings: Vec::new() };
        assert(r@ =~= Seq::<BindingModel<F>>::empty());
        r
    }

    /// Registers a host function and returns the low 16 bits of its index.
    pub fn register(&mut self, name: String, arity: Option<u8>, callback: F) -> (id: u16)
        ensures
            id == old(self)@.len() % 0x1_0000,
            final(self)@ == old(self)@.push(BindingModel { name: name@, arity, callback }),
    {
        let id: u16 = (self.bindings.len() % 0x1_0000) as u16;
        let b = Binding { name, arity, callback };
        proof {
            crate::views::lemma_views_push(self.bindings@, b);
        }
        self.bindings.push(b);
        id
    }

    /// The low 16 bits of the first index with this name.
    pub fn id_of(&self, name: &str) -> (r: Option<u16>)
        ensures
            match place_from(self@, name@, 0) {
                Some(i) => r == Some((i % 0x1_0000) as u16),
                None => r is None,
            },
    {
        let ghost t = self@;
        let mut i: usize = 0;
        while i < self.bindings.len()
            invariant
                i <= self.bindings@.len(),
                t == self@,
                place_from(t, name@, 0) == place_from(t, name@, i as int),
            decreases self.bindings.len() - i,
        {
            assert(t[i as int] == self.bindings@[i as int]@);
            if self.bindings[i].name.as_str().eq(name) {
                return Some((i % 0x1_0000) as u16);
            }
            i += 1;
        }
        None
    }

    /// Borrows a binding.
    pub fn binding(&self, id: u16) -> (r: Option<&Binding<F>>)
        ensures
            r is Some <==> id < self@.len(),
            r is Some ==> r->0@ == self@[id as int],
    {
        if (id as usize) < self.bindings.len() {
            Some(&self.bindings[id as usize])
        } else {
            None
        }
    }

    /// Checks a call with `n` arguments, and hands out the callback that the host is to run
    /// with them.
    pub fn call(&self, id: u16, n: usize) -> (r: Result<&F, String>)
        ensures
            match r {
                Ok(f) => refusal(self@, id, n as int) is None && *f == self@[id as int].callback,
                Err(e) => refusal(self@, id, n as int) == Some(e@),
            },
    {
        match self.binding(id) {
            None => {
                let mut m = "no ffi binding at index ".to_owned();
                push_dec(&mut m, id as u64);
                Err(m)
            },
            Some(b) => {
                if let Some(expected) = b.arity {
                    if expected as usize != n {
                        let mut m = "ffi `".to_owned();
                        m.append(b.name.as_str());
                        m.append("` expected ");
                        push_dec(&mut m, expected as u64);
                        m.append(" args, got ");
                        push_dec(&mut m, n as u64);
                        return Err(m);
                    }
                }
                Ok(&b.callback)
            },
        }
    }

    /// How many host functions there are.
    pub fn len(&self) -> (r: usize)
        ensures
            r == self@.len(),
    {
        self.bindings.len()
    }

    /// Whether there are none.
    pub fn is_empty(&self) -> (r: bool)
        ensures
            r == (self@.len() == 0),
    {
        self.bindings.len() == 0
    }
}

/// Registering keeps every index that was handed out.
pub proof fn law_indexes_are_stable<F>(t: Seq<BindingModel<F>>, b: BindingModel<F>, i: int)
    requires
        0 <= i < t.len(),
    ensures
        t.push(b)[i] == t[i],
{
}

} // verus!
