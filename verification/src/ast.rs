//! Typed AST for sli.
//!
//! The AST is the parser's output and the type-checker's input. Nodes carry
//! source spans for diagnostic rendering; type slots are filled in by
//! [`crate::typeck`] and consumed by [`crate::ir`].
//!
//! Each node type has a model of the same shape, in which lists are sequences and
//! names are sequences of characters; contracts speak of the models.

use crate::source::Span;
use vstd::prelude::*;

verus! {

/// A surface type written by the user or inferred by the checker.
#[derive(Debug, PartialEq)]
pub enum Type {
    /// Inferred / not yet resolved.
    Unknown,
    /// The type checker has already flagged this position; suppress
    /// further errors.
    Error,
    /// `nil`
    Nil,
    /// `bool`
    Bool,
    /// `i32`
    I32,
    /// `i64`
    I64,
    /// `f32`
    F32,
    /// `f64`
    F64,
    /// `str`
    Str,
    /// `Entity`
    Entity,
    /// `Query<T>` — ECS query over a single component.
    Query(Box<Type>),
    /// `Res<T>` — read-only resource borrow.
    Res(Box<Type>),
    /// `ResMut<T>` — mutable resource borrow.
    ResMut(Box<Type>),
    /// `Array<T>`
    Array(Box<Type>),
    /// `Map<K, V>`
    Dict(Box<Type>, Box<Type>),
    /// `fn(P1, P2, ...) -> R`
    Fn(Vec<Type>, Box<Type>),
    /// Reference to a user-declared `struct` by name.
    Struct(String),
}

impl Type {
    /// Whether `self` is one of the four built-in numeric types.
    pub fn is_numeric(&self) -> (r: bool)
        ensures
            r == numeric(self@),
    {
        matches!(self, Type::I32 | Type::I64 | Type::F32 | Type::F64)
    }

    /// Whether `self` is one of the two integer types.
    pub fn is_integer(&self) -> (r: bool)
        ensures
            r == integer(self@),
    {
        matches!(self, Type::I32 | Type::I64)
    }

    /// Whether `self` is one of the two floating-point types.
    pub fn is_float(&self) -> (r: bool)
        ensures
            r == floating(self@),
    {
        matches!(self, Type::F32 | Type::F64)
    }

    /// Whether two types are the same type.
    pub fn same(&self, other: &Type) -> (r: bool)
        ensures
            r == (self@ == other@),
    {
        same_type(self, other)
    }
}

/// Binary operator. Lowered straight to bytecode with no operator
/// overloading.
#[derive(Clone, Copy, Debug, PartialEq, Eq, Structural)]
pub enum BinOp {
    /// `+`
    Add,
    /// `-`
    Sub,
    /// `*`
    Mul,
    /// `/`
    Div,
    /// `%`
    Mod,
    /// `==`
    Eq,
    /// `!=`
    Ne,
    /// `<`
    Lt,
    /// `<=`
    Le,
    /// `>`
    Gt,
    /// `>=`
    Ge,
    /// `&&`
    And,
    /// `||`
    Or,
}

/// Unary operator.
#[derive(Clone, Copy, Debug, PartialEq, Eq, Structural)]
pub enum UnOp {
    /// `-`
    Neg,
    /// `!`
    Not,
}

/// A literal whose value is fully decoded at parse time.
#[derive(Debug, PartialEq)]
pub enum Lit {
    /// `nil`
    Nil,
    /// `true` / `false`
    Bool(bool),
    /// Integer.
    Int(i64),
    /// Float — stored by bit pattern so [`Lit`] keeps `PartialEq` total.
    Float(u64),
    /// String literal (already escape-decoded).
    Str(String),
}

/// One expression node.
#[derive(Debug, PartialEq)]
pub struct Expr {
    /// Variant.
    pub kind: ExprKind,
    /// Source span of the whole expression.
    pub span: Span,
    /// Type slot, filled by the type checker.
    pub ty: Type,
}

/// Expression variants.
#[derive(Debug, PartialEq)]
pub enum ExprKind {
    /// Literal.
    Lit(Lit),
    /// Name reference.
    Ident(String),
    /// `lhs OP rhs`
    Binary(BinOp, Box<Expr>, Box<Expr>),
    /// `OP expr`
    Unary(UnOp, Box<Expr>),
    /// `callee(args...)`
    Call(Box<Expr>, Vec<Expr>),
    /// `expr.name`
    Field(Box<Expr>, String),
    /// `expr[idx]`
    Index(Box<Expr>, Box<Expr>),
    /// `TyName { field: expr, ... }`
    StructLit(String, Vec<(String, Expr)>),
    /// `[e1, e2, ...]` — array literal (homogeneous, type inferred from
    /// the first element). Empty `[]` requires an outer type annotation
    /// (e.g. `let xs: Array<i32> = [];`).
    ArrayLit(Vec<Expr>),
    /// `[k1 => v1, k2 => v2, ...]` — map literal (homogeneous keys +
    /// values, types inferred from the first pair). Empty `[:]`
    /// requires an outer type annotation.
    MapLit(Vec<(Expr, Expr)>),
    /// `|p1, p2| body`
    Closure(Vec<Param>, Box<Expr>),
    /// A braced block as an expression. The block's tail value (if any)
    /// is the expression's value.
    Block(Box<Block>),
    /// `if c { ... } else { ... }`
    If(Box<Expr>, Box<Block>, Option<Box<Block>>),
}

/// Function or closure parameter.
#[derive(Debug, PartialEq)]
pub struct Param {
    /// Parameter name.
    pub name: String,
    /// Declared parameter type. May be [`Type::Unknown`] for closure params.
    pub ty: Type,
    /// Span of the parameter name.
    pub span: Span,
}

/// One statement.
#[derive(Debug, PartialEq)]
pub struct Stmt {
    /// Variant.
    pub kind: StmtKind,
    /// Source span.
    pub span: Span,
}

/// Statement variants.
#[derive(Debug, PartialEq)]
pub enum StmtKind {
    /// `let name(: ty)? = init;`
    Let {
        /// Bound name.
        name: String,
        /// Optional declared type.
        ty: Type,
        /// Whether the binding is `let mut`.
        mutable: bool,
        /// Initializer.
        init: Expr,
    },
    /// `place = value;`
    Assign(Expr, Expr),
    /// Expression statement (`expr;`).
    Expr(Expr),
    /// `return expr?;`
    Return(Option<Expr>),
    /// `while cond { body }`
    While(Expr, Box<Block>),
    /// `if`/`else` used in statement position. The expression form is
    /// folded into the same node via [`ExprKind::If`]; this variant
    /// exists so a trailing `if` without a tail value parses cleanly.
    If(Expr, Box<Block>, Option<Box<Block>>),
    /// `break;`
    Break,
    /// `continue;`
    Continue,
}

/// Braced block — a list of statements and an optional tail expression.
#[derive(Debug, PartialEq)]
pub struct Block {
    /// Statements that execute in order.
    pub stmts: Vec<Stmt>,
    /// Optional tail expression — the block's value.
    pub tail: Option<Expr>,
    /// Source span of the whole block.
    pub span: Span,
}

/// A function declaration.
#[derive(Debug, PartialEq)]
pub struct FnDecl {
    /// Function name.
    pub name: String,
    /// Parameters in declaration order.
    pub params: Vec<Param>,
    /// Return type.
    pub ret: Type,
    /// Body.
    pub body: Block,
    /// Source span of the whole declaration.
    pub span: Span,
}

/// A struct declaration.
#[derive(Debug, PartialEq)]
pub struct StructDecl {
    /// Type name.
    pub name: String,
    /// `(field_name, field_type, field_span)` in declaration order.
    pub fields: Vec<(String, Type, Span)>,
    /// Source span of the whole declaration.
    pub span: Span,
}

/// A `const` declaration.
#[derive(Debug, PartialEq)]
pub struct ConstDecl {
    /// Bound name.
    pub name: String,
    /// Declared type.
    pub ty: Type,
    /// Initializer — must be a const-evaluable expression.
    pub init: Expr,
    /// Source span.
    pub span: Span,
}

/// One top-level declaration in a module.
#[derive(Debug, PartialEq)]
pub enum Decl {
    /// `fn ...`
    Fn(FnDecl),
    /// `struct ...`
    Struct(StructDecl),
    /// `const ...`
    Const(ConstDecl),
}

/// One parsed sli module.
#[derive(Debug, PartialEq)]
pub struct Module {
    /// Declarations in source order.
    pub decls: Vec<Decl>,
}

/// A subtree of a model.
pub struct Node<T> {
    pub it: Box<T>,
}

/// The subtree that holds `x`.
pub open spec fn node<T>(x: T) -> Node<T> {
    Node { it: Box::new(x) }
}

/// The model of a [`Type`].
pub enum TypeModel {
    Unknown,
    Error,
    Nil,
    Bool,
    I32,
    I64,
    F32,
    F64,
    Str,
    Entity,
    Query(Node<TypeModel>),
    Res(Node<TypeModel>),
    ResMut(Node<TypeModel>),
    Array(Node<TypeModel>),
    Dict(Node<TypeModel>, Node<TypeModel>),
    Fn(Seq<TypeModel>, Node<TypeModel>),
    Struct(Seq<char>),
}

/// The model of a [`Lit`].
pub enum LitModel {
    Nil,
    Bool(bool),
    Int(i64),
    Float(u64),
    Str(Seq<char>),
}

/// The model of an [`Expr`].
pub struct ExprModel {
    pub kind: ExprKindModel,
    pub span: Span,
    pub ty: TypeModel,
}

/// The model of an [`ExprKind`].
pub enum ExprKindModel {
    Lit(LitModel),
    Ident(Seq<char>),
    Binary(BinOp, Node<ExprModel>, Node<ExprModel>),
    Unary(UnOp, Node<ExprModel>),
    Call(Node<ExprModel>, Seq<ExprModel>),
    Field(Node<ExprModel>, Seq<char>),
    Index(Node<ExprModel>, Node<ExprModel>),
    StructLit(Seq<char>, Seq<(Seq<char>, ExprModel)>),
    ArrayLit(Seq<ExprModel>),
    MapLit(Seq<(ExprModel, ExprModel)>),
    Closure(Seq<ParamModel>, Node<ExprModel>),
    Block(Node<BlockModel>),
    If(Node<ExprModel>, Node<BlockModel>, Option<Node<BlockModel>>),
}

/// The model of a [`Param`].
pub struct ParamModel {
    pub name: Seq<char>,
    pub ty: TypeModel,
    pub span: Span,
}

/// The model of a [`Stmt`].
pub struct StmtModel {
    pub kind: StmtKindModel,
    pub span: Span,
}

/// The model of a [`StmtKind`].
pub enum StmtKindModel {
    Let { name: Seq<char>, ty: TypeModel, mutable: bool, init: ExprModel },
    Assign(ExprModel, ExprModel),
    Expr(ExprModel),
    Return(Option<ExprModel>),
    While(ExprModel, Node<BlockModel>),
    If(ExprModel, Node<BlockModel>, Option<Node<BlockModel>>),
    Break,
    Continue,
}

/// The model of a [`Block`].
pub struct BlockModel {
    pub stmts: Seq<StmtModel>,
    pub tail: Option<ExprModel>,
    pub span: Span,
}

/// The model of a [`FnDecl`].
pub struct FnDeclModel {
    pub name: Seq<char>,
    pub params: Seq<ParamModel>,
    pub ret: TypeModel,
    pub body: BlockModel,
    pub span: Span,
}

/// The model of a [`StructDecl`].
pub struct StructDeclModel {
    pub name: Seq<char>,
    pub fields: Seq<(Seq<char>, TypeModel, Span)>,
    pub span: Span,
}

/// The model of a [`ConstDecl`].
pub struct ConstDeclModel {
    pub name: Seq<char>,
    pub ty: TypeModel,
    pub init: ExprModel,
    pub span: Span,
}

/// The model of a [`Decl`].
pub enum DeclModel {
    Fn(FnDeclModel),
    Struct(StructDeclModel),
    Const(ConstDeclModel),
}

/// The model of a [`Module`].
pub struct ModuleModel {
    pub decls: Seq<DeclModel>,
}

/// Whether a type is one of the four numeric types.
pub open spec fn numeric(t: TypeModel) -> bool {
    t is I32 || t is I64 || t is F32 || t is F64
}

/// Whether a type is one of the two integer types.
pub open spec fn integer(t: TypeModel) -> bool {
    t is I32 || t is I64
}

/// Whether a type is one of the two floating-point types.
pub open spec fn floating(t: TypeModel) -> bool {
    t is F32 || t is F64
}

pub open spec fn type_model(t: Type) -> TypeModel
    decreases t,
{
    match t {
        Type::Unknown => TypeModel::Unknown,
        Type::Error => TypeModel::Error,
        Type::Nil => TypeModel::Nil,
        Type::Bool => TypeModel::Bool,
        Type::I32 => TypeModel::I32,
        Type::I64 => TypeModel::I64,
        Type::F32 => TypeModel::F32,
        Type::F64 => TypeModel::F64,
        Type::Str => TypeModel::Str,
        Type::Entity => TypeModel::Entity,
        Type::Query(a) => TypeModel::Query(node(type_model(*a))),
        Type::Res(a) => TypeModel::Res(node(type_model(*a))),
        Type::ResMut(a) => TypeModel::ResMut(node(type_model(*a))),
        Type::Array(a) => TypeModel::Array(node(type_model(*a))),
        Type::Dict(a, b) => TypeModel::Dict(node(type_model(*a)), node(type_model(*b))),
        Type::Fn(ps, r) => TypeModel::Fn(types_model(ps@), node(type_model(*r))),
        Type::Struct(s) => TypeModel::Struct(s@),
    }
}

pub open spec fn types_model(v: Seq<Type>) -> Seq<TypeModel>
    decreases v,
{
    Seq::new(v.len(), |i: int| if 0 <= i < v.len() { type_model(v[i]) } else { arbitrary() })
}

pub open spec fn lit_model(l: Lit) -> LitModel {
    match l {
        Lit::Nil => LitModel::Nil,
        Lit::Bool(b) => LitModel::Bool(b),
        Lit::Int(n) => LitModel::Int(n),
        Lit::Float(b) => LitModel::Float(b),
        Lit::Str(s) => LitModel::Str(s@),
    }
}

pub open spec fn expr_model(e: Expr) -> ExprModel
    decreases e,
{
    ExprModel { kind: expr_kind_model(e.kind), span: e.span, ty: type_model(e.ty) }
}

pub open spec fn expr_kind_model(k: ExprKind) -> ExprKindModel
    decreases k,
{
    match k {
        ExprKind::Lit(l) => ExprKindModel::Lit(lit_model(l)),
        ExprKind::Ident(s) => ExprKindModel::Ident(s@),
        ExprKind::Binary(op, a, b) => ExprKindModel::Binary(op, node(expr_model(*a)), node(expr_model(*b))),
        ExprKind::Unary(op, a) => ExprKindModel::Unary(op, node(expr_model(*a))),
        ExprKind::Call(f, args) => ExprKindModel::Call(node(expr_model(*f)), exprs_model(args@)),
        ExprKind::Field(a, n) => ExprKindModel::Field(node(expr_model(*a)), n@),
        ExprKind::Index(a, b) => ExprKindModel::Index(node(expr_model(*a)), node(expr_model(*b))),
        ExprKind::StructLit(n, fs) => ExprKindModel::StructLit(n@, inits_model(fs@)),
        ExprKind::ArrayLit(es) => ExprKindModel::ArrayLit(exprs_model(es@)),
        ExprKind::MapLit(ps) => ExprKindModel::MapLit(pairs_model(ps@)),
        ExprKind::Closure(ps, b) => ExprKindModel::Closure(params_model(ps@), node(expr_model(*b))),
        ExprKind::Block(b) => ExprKindModel::Block(node(block_model(*b))),
        ExprKind::If(c, a, b) => ExprKindModel::If(
            node(expr_model(*c)),
            node(block_model(*a)),
            match b {
                Some(x) => Some(node(block_model(*x))),
                None => None,
            },
        ),
    }
}

pub open spec fn exprs_model(v: Seq<Expr>) -> Seq<ExprModel>
    decreases v,
{
    Seq::new(v.len(), |i: int| if 0 <= i < v.len() { expr_model(v[i]) } else { arbitrary() })
}

pub open spec fn inits_model(v: Seq<(String, Expr)>) -> Seq<(Seq<char>, ExprModel)>
    decreases v,
{
    Seq::new(v.len(), |i: int| if 0 <= i < v.len() { (v[i].0@, expr_model(v[i].1)) } else { arbitrary() })
}

pub open spec fn pairs_model(v: Seq<(Expr, Expr)>) -> Seq<(ExprModel, ExprModel)>
    decreases v,
{
    Seq::new(v.len(), |i: int| if 0 <= i < v.len() { (expr_model(v[i].0), expr_model(v[i].1)) } else { arbitrary() })
}

pub open spec fn param_model(p: Param) -> ParamModel {
    ParamModel { name: p.name@, ty: type_model(p.ty), span: p.span }
}

pub open spec fn params_model(v: Seq<Param>) -> Seq<ParamModel> {
    Seq::new(v.len(), |i: int| param_model(v[i]))
}

pub open spec fn stmt_model(s: Stmt) -> StmtModel
    decreases s,
{
    StmtModel { kind: stmt_kind_model(s.kind), span: s.span }
}

pub open spec fn stmt_kind_model(k: StmtKind) -> StmtKindModel
    decreases k,
{
    match k {
        StmtKind::Let { name, ty, mutable, init } => StmtKindModel::Let {
            name: name@,
            ty: type_model(ty),
            mutable,
            init: expr_model(init),
        },
        StmtKind::Assign(a, b) => StmtKindModel::Assign(expr_model(a), expr_model(b)),
        StmtKind::Expr(e) => StmtKindModel::Expr(expr_model(e)),
        StmtKind::Return(e) => StmtKindModel::Return(
            match e {
                Some(x) => Some(expr_model(x)),
                None => None,
            },
        ),
        StmtKind::While(c, b) => StmtKindModel::While(expr_model(c), node(block_model(*b))),
        StmtKind::If(c, a, b) => StmtKindModel::If(
            expr_model(c),
            node(block_model(*a)),
            match b {
                Some(x) => Some(node(block_model(*x))),
                None => None,
            },
        ),
        StmtKind::Break => StmtKindModel::Break,
        StmtKind::Continue => StmtKindModel::Continue,
    }
}

pub open spec fn stmts_model(v: Seq<Stmt>) -> Seq<StmtModel>
    decreases v,
{
    Seq::new(v.len(), |i: int| if 0 <= i < v.len() { stmt_model(v[i]) } else { arbitrary() })
}

pub open spec fn block_model(b: Block) -> BlockModel
    decreases b,
{
    BlockModel {
        stmts: stmts_model(b.stmts@),
        tail: match b.tail {
            Some(x) => Some(expr_model(x)),
            None => None,
        },
        span: b.span,
    }
}

pub open spec fn fn_decl_model(f: FnDecl) -> FnDeclModel {
    FnDeclModel {
        name: f.name@,
        params: params_model(f.params@),
        ret: type_model(f.ret),
        body: block_model(f.body),
        span: f.span,
    }
}

pub open spec fn struct_fields_model(v: Seq<(String, Type, Span)>) -> Seq<(Seq<char>, TypeModel, Span)> {
    Seq::new(v.len(), |i: int| (v[i].0@, type_model(v[i].1), v[i].2))
}

pub open spec fn decl_model(d: Decl) -> DeclModel {
    match d {
        Decl::Fn(f) => DeclModel::Fn(fn_decl_model(f)),
        Decl::Struct(s) => DeclModel::Struct(
            StructDeclModel { name: s.name@, fields: struct_fields_model(s.fields@), span: s.span },
        ),
        Decl::Const(c) => DeclModel::Const(
            ConstDeclModel { name: c.name@, ty: type_model(c.ty), init: expr_model(c.init), span: c.span },
        ),
    }
}

pub open spec fn module_model(m: Module) -> ModuleModel {
    ModuleModel { decls: Seq::new(m.decls@.len(), |i: int| decl_model(m.decls@[i])) }
}

impl View for Type {
    type V = TypeModel;

    open spec fn view(&self) -> TypeModel {
        type_model(*self)
    }
}

impl View for Lit {
    type V = LitModel;

    open spec fn view(&self) -> LitModel {
        lit_model(*self)
    }
}

impl View for Expr {
    type V = ExprModel;

    open spec fn view(&self) -> ExprModel {
        expr_model(*self)
    }
}

impl View for ExprKind {
    type V = ExprKindModel;

    open spec fn view(&self) -> ExprKindModel {
        expr_kind_model(*self)
    }
}

impl View for Param {
    type V = ParamModel;

    open spec fn view(&self) -> ParamModel {
        param_model(*self)
    }
}

impl View for Stmt {
    type V = StmtModel;

    open spec fn view(&self) -> StmtModel {
        stmt_model(*self)
    }
}

impl View for StmtKind {
    type V = StmtKindModel;

    open spec fn view(&self) -> StmtKindModel {
        stmt_kind_model(*self)
    }
}

impl View for Block {
    type V = BlockModel;

    open spec fn view(&self) -> BlockModel {
        block_model(*self)
    }
}

impl View for FnDecl {
    type V = FnDeclModel;

    open spec fn view(&self) -> FnDeclModel {
        fn_decl_model(*self)
    }
}

impl View for Decl {
    type V = DeclModel;

    open spec fn view(&self) -> DeclModel {
        decl_model(*self)
    }
}

impl View for Module {
    type V = ModuleModel;

    open spec fn view(&self) -> ModuleModel {
        module_model(*self)
    }
}

fn same_type(a: &Type, b: &Type) -> (r: bool)
    ensures
        r == (type_model(*a) == type_model(*b)),
    decreases *a,
{
    match (a, b) {
        (Type::Unknown, Type::Unknown) => true,
        (Type::Error, Type::Error) => true,
        (Type::Nil, Type::Nil) => true,
        (Type::Bool, Type::Bool) => true,
        (Type::I32, Type::I32) => true,
        (Type::I64, Type::I64) => true,
        (Type::F32, Type::F32) => true,
        (Type::F64, Type::F64) => true,
        (Type::Str, Type::Str) => true,
        (Type::Entity, Type::Entity) => true,
        (Type::Query(x), Type::Query(y)) => same_type(x, y),
        (Type::Res(x), Type::Res(y)) => same_type(x, y),
        (Type::ResMut(x), Type::ResMut(y)) => same_type(x, y),
        (Type::Array(x), Type::Array(y)) => same_type(x, y),
        (Type::Dict(x, x2), Type::Dict(y, y2)) => same_type(x, y) && same_type(x2, y2),
        (Type::Struct(x), Type::Struct(y)) => *x == *y,
        (Type::Fn(xs, x), Type::Fn(ys, y)) => {
            let ghost am = type_model(*a)->Fn_0;
            let ghost bm = type_model(*b)->Fn_0;
            if xs.len() != ys.len() {
                assert(am == types_model(xs@) && bm == types_model(ys@));
                assert(types_model(xs@).len() != types_model(ys@).len());
                return false;
            }
            let mut i: usize = 0;
            while i < xs.len()
                invariant
                    i <= xs@.len(),
                    xs@.len() == ys@.len(),
                    *a == Type::Fn(*xs, *x),
                    *b == Type::Fn(*ys, *y),
                    am == types_model(xs@),
                    bm == types_model(ys@),
                    am == type_model(*a)->Fn_0,
                    bm == type_model(*b)->Fn_0,
                    forall|j: int| 0 <= j < i ==> type_model(xs@[j]) == type_model(ys@[j]),
                decreases xs.len() - i,
            {
                assert(decreases_to!(xs@ => xs@[i as int]));
                assert(decreases_to!(*xs => xs@));
                assert(decreases_to!(*a => a->Fn_0));
                if !same_type(&xs[i], &ys[i]) {
                    assert(am[i as int] != bm[i as int]);
                    return false;
                }
                i += 1;
            }
            assert(am =~= bm);
            same_type(x, y)
        },
        _ => false,
    }
}

fn copy_type(t: &Type) -> (r: Type)
    ensures
        type_model(r) == type_model(*t),
    decreases *t,
{
    match t {
        Type::Unknown => Type::Unknown,
        Type::Error => Type::Error,
        Type::Nil => Type::Nil,
        Type::Bool => Type::Bool,
        Type::I32 => Type::I32,
        Type::I64 => Type::I64,
        Type::F32 => Type::F32,
        Type::F64 => Type::F64,
        Type::Str => Type::Str,
        Type::Entity => Type::Entity,
        Type::Query(a) => Type::Query(Box::new(copy_type(a))),
        Type::Res(a) => Type::Res(Box::new(copy_type(a))),
        Type::ResMut(a) => Type::ResMut(Box::new(copy_type(a))),
        Type::Array(a) => Type::Array(Box::new(copy_type(a))),
        Type::Dict(a, b) => Type::Dict(Box::new(copy_type(a)), Box::new(copy_type(b))),
        Type::Struct(s) => Type::Struct(s.clone()),
        Type::Fn(ps, ret) => {
            let mut out: Vec<Type> = Vec::new();
            let mut i: usize = 0;
            while i < ps.len()
                invariant
                    i <= ps@.len(),
                    *t == Type::Fn(*ps, *ret),
                    out@.len() == i,
                    forall|j: int| 0 <= j < i ==> type_model(out@[j]) == type_model(ps@[j]),
                decreases ps.len() - i,
            {
                assert(decreases_to!(ps@ => ps@[i as int]));
                assert(decreases_to!(*ps => ps@));
                assert(decreases_to!(*t => t->Fn_0));
                let x = copy_type(&ps[i]);
                out.push(x);
                i += 1;
            }
            let r = Type::Fn(out, Box::new(copy_type(ret)));
            assert(types_model(out@) =~= types_model(ps@));
            r
        },
    }
}

impl Clone for Type {
    fn clone(&self) -> (r: Type)
        ensures
            r@ == self@,
    {
        copy_type(self)
    }
}

pub proof fn lemma_exprs_push(v: Seq<Expr>, x: Expr)
    ensures
        exprs_model(v.push(x)) == exprs_model(v).push(x@),
{
    assert(exprs_model(v.push(x)) =~= exprs_model(v).push(x@));
}

pub proof fn lemma_types_push(v: Seq<Type>, x: Type)
    ensures
        types_model(v.push(x)) == types_model(v).push(x@),
{
    assert(types_model(v.push(x)) =~= types_model(v).push(x@));
}

pub proof fn lemma_inits_push(v: Seq<(String, Expr)>, x: (String, Expr))
    ensures
        inits_model(v.push(x)) == inits_model(v).push((x.0@, x.1@)),
{
    assert(inits_model(v.push(x)) =~= inits_model(v).push((x.0@, x.1@)));
}

pub proof fn lemma_pairs_push(v: Seq<(Expr, Expr)>, x: (Expr, Expr))
    ensures
        pairs_model(v.push(x)) == pairs_model(v).push((x.0@, x.1@)),
{
    assert(pairs_model(v.push(x)) =~= pairs_model(v).push((x.0@, x.1@)));
}

pub proof fn lemma_params_push(v: Seq<Param>, x: Param)
    ensures
        params_model(v.push(x)) == params_model(v).push(x@),
{
    assert(params_model(v.push(x)) =~= params_model(v).push(x@));
}

pub proof fn lemma_stmts_push(v: Seq<Stmt>, x: Stmt)
    ensures
        stmts_model(v.push(x)) == stmts_model(v).push(x@),
{
    assert(stmts_model(v.push(x)) =~= stmts_model(v).push(x@));
}

} // verus!
