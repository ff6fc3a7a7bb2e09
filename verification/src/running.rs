//! What programs mean: an evaluator of the typed tree.
//!
//! Values lie in cells. A name stands for a cell, and what a name is bound to or what an
//! operand is, is a cell too: `let b = a;` makes `b` another name for the cell of `a`. Every
//! expression but a name puts its value in a new cell.
//!
//! Where the evaluator says nothing (`Lost`), no meaning is claimed: a type error, a division
//! by zero, a place out of bounds, a heap without room, what is not evaluated here (closures,
//! `break` and `continue`), or more turns of loops and calls than `fuel`.

use crate::ast;
use crate::ast::{BlockModel, ExprKindModel, ExprModel, FnDeclModel, LitModel, ParamModel, StmtKindModel, StmtModel, TypeModel};
use crate::float;
use crate::gc::heap::HeapModel;
use crate::gc::object::ObjModel;
use crate::meaning;
use crate::vm::value;
use crate::vm::value::ValueModel;
use vstd::prelude::*;

verus! {

/// The cells of the function that runs, and the heap.
pub struct World {
    pub cells: Seq<ValueModel>,
    pub heap: HeapModel,
}

/// The cells of names, the latest last.
pub type Names = Seq<(Seq<char>, int)>;

/// The functions of a program, by name.
pub type Program = Map<Seq<char>, FnDeclModel>;

/// How something ends.
pub enum Ends<T> {
    /// It runs to its end.
    Here(World, T),
    /// The function returns.
    Back(HeapModel, ValueModel),
    /// Nothing is claimed.
    Lost,
}

/// The cell of a name.
pub open spec fn cell_of(names: Names, n: Seq<char>) -> Option<int>
    decreases names.len(),
{
    if names.len() == 0 {
        None
    } else if names.last().0 == n {
        Some(names.last().1)
    } else {
        cell_of(names.drop_last(), n)
    }
}

/// A value in a new cell.
pub open spec fn fresh(w: World, v: ValueModel) -> Ends<Option<int>> {
    Ends::Here(World { cells: w.cells.push(v), ..w }, Some(w.cells.len() as int))
}

/// The values of some cells.
pub open spec fn values(w: World, cs: Seq<int>) -> Seq<ValueModel> {
    Seq::new(cs.len(), |i: int| w.cells[cs[i]])
}

/// The value of a literal. An integer literal of a float type is the nearest float.
pub open spec fn literal(l: LitModel, ty: TypeModel) -> ValueModel {
    match l {
        LitModel::Int(v) => if ast::floating(ty) {
            ValueModel::Float(float::of_int(v as int))
        } else {
            ValueModel::Int(v)
        },
        _ => meaning::lit_value(l),
    }
}

/// The first value under a name; nil where there is none.
pub open spec fn found(es: Seq<(Seq<char>, ValueModel)>, n: Seq<char>) -> ValueModel
    decreases es.len(),
{
    if es.len() == 0 {
        ValueModel::Nil
    } else if es[0].0 == n {
        es[0].1
    } else {
        found(es.skip(1), n)
    }
}

/// The element of an array, or what stands under a key of a map.
pub open spec fn picked(ty: TypeModel, x: ValueModel, i: ValueModel, heap: HeapModel) -> Option<ValueModel> {
    match (ty, x, i) {
        (TypeModel::Array(_), ValueModel::Array(h), ValueModel::Int(k)) => match heap.at(h) {
            Some(ObjModel::Array(vs)) => if 0 <= k < vs.len() {
                Some(vs[k as int])
            } else {
                None
            },
            _ => None,
        },
        (TypeModel::Dict(_, _), ValueModel::Dict(h), ValueModel::Str(s)) => match heap.at(h) {
            Some(ObjModel::Dict(es)) => Some(found(es, s)),
            _ => None,
        },
        _ => None,
    }
}

/// The field of a struct.
pub open spec fn field_of(x: ValueModel, n: Seq<char>, heap: HeapModel) -> Option<ValueModel> {
    match x {
        ValueModel::Struct(h) => match heap.at(h) {
            Some(ObjModel::Struct(es)) => Some(found(es, n)),
            _ => None,
        },
        _ => None,
    }
}

/// Named values with a value under a name: in the place of the first of that name, or else
/// behind them all.
pub open spec fn put(es: Seq<(Seq<char>, ValueModel)>, n: Seq<char>, v: ValueModel) -> Seq<(Seq<char>, ValueModel)>
    decreases es.len(),
{
    if es.len() == 0 {
        seq![(n, v)]
    } else if es[0].0 == n {
        seq![(n, v)] + es.skip(1)
    } else {
        seq![es[0]] + put(es.skip(1), n, v)
    }
}

/// The first `k` named values, each under its name: of two under one name, the later.
pub open spec fn put_all(es: Seq<(Seq<char>, ValueModel)>, k: int) -> Seq<(Seq<char>, ValueModel)>
    decreases k,
{
    if k <= 0 {
        Seq::empty()
    } else {
        put(put_all(es, k - 1), es[k - 1].0, es[k - 1].1)
    }
}

/// The values of cells under the names of fields.
pub open spec fn fields_in(w: World, fs: Seq<(Seq<char>, ExprModel)>, cs: Seq<int>) -> Seq<(Seq<char>, ValueModel)> {
    Seq::new(cs.len(), |i: int| (fs[i].0, w.cells[cs[i]]))
}

/// Whether the keys in some cells are texts.
pub open spec fn text_keys(w: World, cs: Seq<(int, int)>) -> bool {
    forall|i: int| 0 <= i < cs.len() ==> w.cells[(#[trigger] cs[i]).0] is Str
}

/// The values of cells under the texts of others.
pub open spec fn entries_in(w: World, cs: Seq<(int, int)>) -> Seq<(Seq<char>, ValueModel)> {
    Seq::new(cs.len(), |i: int| (w.cells[cs[i].0]->Str_0, w.cells[cs[i].1]))
}

/// A new object, and the value that stands for it.
pub open spec fn composed(w: World, o: ObjModel, x: ValueModel) -> Ends<Option<int>> {
    if w.heap.wf() && w.heap.young.has_room() {
        fresh(World { heap: w.heap.with(o), ..w }, x)
    } else {
        Ends::Lost
    }
}

/// The cells of parameters: the first ones.
pub open spec fn first_cells(ps: Seq<ParamModel>) -> Names {
    Seq::new(ps.len(), |i: int| (ps[i].name, i))
}

/// What a call comes to, once the body of the function has ended: what it returns, or else
/// the value of the body, or nil where the body has none.
pub open spec fn result_of(body: BlockModel, o: Ends<Option<int>>) -> Option<(HeapModel, ValueModel)> {
    match o {
        Ends::Back(h, v) => Some((h, v)),
        Ends::Here(w, Some(c)) => Some((w.heap, w.cells[c])),
        Ends::Here(w, None) => if body.tail is None {
            Some((w.heap, ValueModel::Nil))
        } else {
            None
        },
        Ends::Lost => None,
    }
}

/// What a function comes to on some arguments.
pub open spec fn x_call(f: FnDeclModel, args: Seq<ValueModel>, heap: HeapModel, p: Program, fuel: nat) -> Option<
    (HeapModel, ValueModel),
> {
    result_of(f.body, x_block(f.body, first_cells(f.params), World { cells: args, heap }, p, fuel))
}

/// An expression: the cell of its value, where it has one.
#[verifier::opaque]
pub open spec fn x_expr(e: ExprModel, names: Names, w: World, p: Program, fuel: nat) -> Ends<Option<int>>
    decreases fuel, e, 1int,
{
    match e.kind {
        ExprKindModel::Lit(l) => fresh(w, literal(l, e.ty)),
        ExprKindModel::Ident(n) => match cell_of(names, n) {
            Some(c) => Ends::Here(w, Some(c)),
            None => Ends::Lost,
        },
        ExprKindModel::Unary(op, x) => match x_expr(*x.it, names, w, p, fuel) {
            Ends::Here(w1, Some(c)) => match meaning::turned(op, w1.cells[c]) {
                Some(v) => fresh(w1, v),
                None => Ends::Lost,
            },
            Ends::Back(h, v) => Ends::Back(h, v),
            _ => Ends::Lost,
        },
        ExprKindModel::Binary(op, l, r) => match x_expr(*l.it, names, w, p, fuel) {
            Ends::Here(w1, Some(a)) => match x_expr(*r.it, names, w1, p, fuel) {
                Ends::Here(w2, Some(b)) => match meaning::operated(op, w2.cells[a], w2.cells[b]) {
                    Some(v) => fresh(w2, v),
                    None => Ends::Lost,
                },
                Ends::Back(h, v) => Ends::Back(h, v),
                _ => Ends::Lost,
            },
            Ends::Back(h, v) => Ends::Back(h, v),
            _ => Ends::Lost,
        },
        ExprKindModel::Call(c, args) => match c.it.kind {
            ExprKindModel::Ident(n) => match x_exprs(args, args.len() as int, names, w, p, fuel) {
                Ends::Here(w1, cs) => if p.dom().contains(n) && p[n].params.len() == args.len() && fuel > 0 {
                    match result_of(
                        p[n].body,
                        x_block(
                            p[n].body,
                            first_cells(p[n].params),
                            World { cells: values(w1, cs), heap: w1.heap },
                            p,
                            (fuel - 1) as nat,
                        ),
                    ) {
                        Some((h, v)) => fresh(World { heap: h, ..w1 }, v),
                        None => Ends::Lost,
                    }
                } else {
                    Ends::Lost
                },
                Ends::Back(h, v) => Ends::Back(h, v),
                Ends::Lost => Ends::Lost,
            },
            _ => Ends::Lost,
        },
        ExprKindModel::ArrayLit(es) => match x_exprs(es, es.len() as int, names, w, p, fuel) {
            Ends::Here(w1, cs) => if w1.heap.young.has_room() {
                fresh(World { heap: w1.heap.with(ObjModel::Array(values(w1, cs))), ..w1 }, ValueModel::Array(w1.heap.next()))
            } else {
                Ends::Lost
            },
            Ends::Back(h, v) => Ends::Back(h, v),
            Ends::Lost => Ends::Lost,
        },
        ExprKindModel::StructLit(_, fs) => match x_inits(fs, fs.len() as int, names, w, p, fuel) {
            Ends::Here(w1, cs) => composed(
                w1,
                ObjModel::Struct(put_all(fields_in(w1, fs, cs), cs.len() as int)),
                ValueModel::Struct(w1.heap.next()),
            ),
            Ends::Back(h, v) => Ends::Back(h, v),
            Ends::Lost => Ends::Lost,
        },
        ExprKindModel::MapLit(ps) => match x_pairs(ps, ps.len() as int, names, w, p, fuel) {
            Ends::Here(w1, cs) => if text_keys(w1, cs) {
                composed(
                    w1,
                    ObjModel::Dict(put_all(entries_in(w1, cs), cs.len() as int)),
                    ValueModel::Dict(w1.heap.next()),
                )
            } else {
                Ends::Lost
            },
            Ends::Back(h, v) => Ends::Back(h, v),
            Ends::Lost => Ends::Lost,
        },
        ExprKindModel::Index(x, i) => match x_expr(*x.it, names, w, p, fuel) {
            Ends::Here(w1, Some(a)) => match x_expr(*i.it, names, w1, p, fuel) {
                Ends::Here(w2, Some(b)) => match picked(x.it.ty, w2.cells[a], w2.cells[b], w2.heap) {
                    Some(v) => fresh(w2, v),
                    None => Ends::Lost,
                },
                Ends::Back(h, v) => Ends::Back(h, v),
                _ => Ends::Lost,
            },
            Ends::Back(h, v) => Ends::Back(h, v),
            _ => Ends::Lost,
        },
        ExprKindModel::Field(x, n) => match x_expr(*x.it, names, w, p, fuel) {
            Ends::Here(w1, Some(c)) => match field_of(w1.cells[c], n, w1.heap) {
                Some(v) => fresh(w1, v),
                None => Ends::Lost,
            },
            Ends::Back(h, v) => Ends::Back(h, v),
            _ => Ends::Lost,
        },
        ExprKindModel::Block(b) => match x_block(*b.it, names, w, p, fuel) {
            Ends::Here(w1, v) => if b.it.tail is None {
                fresh(w1, ValueModel::Nil)
            } else {
                Ends::Here(w1, v)
            },
            Ends::Back(h, v) => Ends::Back(h, v),
            Ends::Lost => Ends::Lost,
        },
        ExprKindModel::If(c, yes, no) => match x_expr(*c.it, names, w, p, fuel) {
            Ends::Here(w1, Some(q)) => match w1.cells[q] {
                ValueModel::Bool(true) => taken(x_block(*yes.it, names, w1, p, fuel)),
                ValueModel::Bool(false) => match no {
                    Some(b) => taken(x_block(*b.it, names, w1, p, fuel)),
                    None => fresh(w1, ValueModel::Nil),
                },
                _ => Ends::Lost,
            },
            Ends::Back(h, v) => Ends::Back(h, v),
            _ => Ends::Lost,
        },
        _ => Ends::Lost,
    }
}

/// The value of an `if` is that of the arm that was taken.
pub open spec fn taken(arm: Ends<Option<int>>) -> Ends<Option<int>> {
    match arm {
        Ends::Here(w, Some(c)) => fresh(w, w.cells[c]),
        _ => arm,
    }
}

/// The first `k` expressions: the cells of their values.
#[verifier::opaque]
pub open spec fn x_exprs(es: Seq<ExprModel>, k: int, names: Names, w: World, p: Program, fuel: nat) -> Ends<Seq<int>>
    decreases fuel, es, k,
{
    if k <= 0 || k > es.len() {
        Ends::Here(w, Seq::empty())
    } else {
        match x_exprs(es, k - 1, names, w, p, fuel) {
            Ends::Here(w1, cs) => match x_expr(es[k - 1], names, w1, p, fuel) {
                Ends::Here(w2, Some(c)) => Ends::Here(w2, cs.push(c)),
                Ends::Back(h, v) => Ends::Back(h, v),
                _ => Ends::Lost,
            },
            Ends::Back(h, v) => Ends::Back(h, v),
            Ends::Lost => Ends::Lost,
        }
    }
}

/// The first `k` initializers: the cells of their values.
#[verifier::opaque]
pub open spec fn x_inits(fs: Seq<(Seq<char>, ExprModel)>, k: int, names: Names, w: World, p: Program, fuel: nat) -> Ends<Seq<int>>
    decreases fuel, fs, k,
{
    if k <= 0 || k > fs.len() {
        Ends::Here(w, Seq::empty())
    } else {
        match x_inits(fs, k - 1, names, w, p, fuel) {
            Ends::Here(w1, cs) => match x_expr(fs[k - 1].1, names, w1, p, fuel) {
                Ends::Here(w2, Some(c)) => Ends::Here(w2, cs.push(c)),
                Ends::Back(h, v) => Ends::Back(h, v),
                _ => Ends::Lost,
            },
            Ends::Back(h, v) => Ends::Back(h, v),
            Ends::Lost => Ends::Lost,
        }
    }
}

/// The first `k` entries: the cells of their keys and values.
#[verifier::opaque]
pub open spec fn x_pairs(ps: Seq<(ExprModel, ExprModel)>, k: int, names: Names, w: World, p: Program, fuel: nat) -> Ends<
    Seq<(int, int)>,
>
    decreases fuel, ps, k,
{
    if k <= 0 || k > ps.len() {
        Ends::Here(w, Seq::empty())
    } else {
        match x_pairs(ps, k - 1, names, w, p, fuel) {
            Ends::Here(w1, cs) => match x_expr(ps[k - 1].0, names, w1, p, fuel) {
                Ends::Here(w2, Some(a)) => match x_expr(ps[k - 1].1, names, w2, p, fuel) {
                    Ends::Here(w3, Some(b)) => Ends::Here(w3, cs.push((a, b))),
                    Ends::Back(h, v) => Ends::Back(h, v),
                    _ => Ends::Lost,
                },
                Ends::Back(h, v) => Ends::Back(h, v),
                _ => Ends::Lost,
            },
            Ends::Back(h, v) => Ends::Back(h, v),
            Ends::Lost => Ends::Lost,
        }
    }
}

/// A block: the cell of its value, where it has one.
#[verifier::opaque]
pub open spec fn x_block(b: BlockModel, names: Names, w: World, p: Program, fuel: nat) -> Ends<Option<int>>
    decreases fuel, b, 0int,
{
    match x_stmts(b.stmts, b.stmts.len() as int, names, w, p, fuel) {
        Ends::Here(w1, inner) => match b.tail {
            Some(e) => x_expr(e, inner, w1, p, fuel),
            None => Ends::Here(w1, None),
        },
        Ends::Back(h, v) => Ends::Back(h, v),
        Ends::Lost => Ends::Lost,
    }
}

/// The first `k` statements: the names then.
#[verifier::opaque]
pub open spec fn x_stmts(ss: Seq<StmtModel>, k: int, names: Names, w: World, p: Program, fuel: nat) -> Ends<Names>
    decreases fuel, ss, k,
{
    if k <= 0 || k > ss.len() {
        Ends::Here(w, names)
    } else {
        match x_stmts(ss, k - 1, names, w, p, fuel) {
            Ends::Here(w1, inner) => x_stmt(ss[k - 1], inner, w1, p, fuel),
            Ends::Back(h, v) => Ends::Back(h, v),
            Ends::Lost => Ends::Lost,
        }
    }
}

/// The names stay as they were.
pub open spec fn done(names: Names, o: Ends<Option<int>>) -> Ends<Names> {
    match o {
        Ends::Here(w, _) => Ends::Here(w, names),
        Ends::Back(h, v) => Ends::Back(h, v),
        Ends::Lost => Ends::Lost,
    }
}

/// A statement: the names behind it.
#[verifier::opaque]
pub open spec fn x_stmt(st: StmtModel, names: Names, w: World, p: Program, fuel: nat) -> Ends<Names>
    decreases fuel, st, 0int,
{
    match st.kind {
        StmtKindModel::Let { name, ty, mutable, init } => match x_expr(init, names, w, p, fuel) {
            Ends::Here(w1, Some(c)) => Ends::Here(w1, names.push((name, c))),
            Ends::Back(h, v) => Ends::Back(h, v),
            _ => Ends::Lost,
        },
        StmtKindModel::Assign(t, v) => match x_expr(v, names, w, p, fuel) {
            Ends::Here(w1, Some(c)) => match t.kind {
                ExprKindModel::Ident(n) => match cell_of(names, n) {
                    Some(d) => Ends::Here(World { cells: w1.cells.update(d, w1.cells[c]), ..w1 }, names),
                    None => Ends::Lost,
                },
                _ => Ends::Lost,
            },
            Ends::Back(h, r) => Ends::Back(h, r),
            _ => Ends::Lost,
        },
        StmtKindModel::Expr(e) => done(names, x_expr(e, names, w, p, fuel)),
        StmtKindModel::Return(None) => Ends::Back(w.heap, ValueModel::Nil),
        StmtKindModel::Return(Some(e)) => match x_expr(e, names, w, p, fuel) {
            Ends::Here(w1, Some(c)) => Ends::Back(w1.heap, w1.cells[c]),
            Ends::Back(h, v) => Ends::Back(h, v),
            _ => Ends::Lost,
        },
        StmtKindModel::While(c, b) => match x_expr(c, names, w, p, fuel) {
            Ends::Here(w1, Some(q)) => match w1.cells[q] {
                ValueModel::Bool(false) => Ends::Here(w1, names),
                ValueModel::Bool(true) => match x_block(*b.it, names, w1, p, fuel) {
                    Ends::Here(w2, _) => if fuel == 0 {
                        Ends::Lost
                    } else {
                        x_stmt(st, names, w2, p, (fuel - 1) as nat)
                    },
                    Ends::Back(h, v) => Ends::Back(h, v),
                    Ends::Lost => Ends::Lost,
                },
                _ => Ends::Lost,
            },
            Ends::Back(h, v) => Ends::Back(h, v),
            _ => Ends::Lost,
        },
        StmtKindModel::If(c, yes, no) => match x_expr(c, names, w, p, fuel) {
            Ends::Here(w1, Some(q)) => match w1.cells[q] {
                ValueModel::Bool(true) => done(names, x_block(*yes.it, names, w1, p, fuel)),
                ValueModel::Bool(false) => match no {
                    Some(b) => done(names, x_block(*b.it, names, w1, p, fuel)),
                    None => Ends::Here(w1, names),
                },
                _ => Ends::Lost,
            },
            Ends::Back(h, v) => Ends::Back(h, v),
            _ => Ends::Lost,
        },
        _ => Ends::Lost,
    }
}

} // verus!
