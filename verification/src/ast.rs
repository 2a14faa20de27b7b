use vstd::prelude::*;
use crate::symbol::Symbol;

verus! {

/// Index of a function in `AST::fns`.
pub type FnId = usize;

/// A statement list.
pub type Body = Vec<Stmt>;

/// A whole program: its functions, one of which is the entry point.
pub struct AST {
    pub fns: Vec<FnDef>,
    pub main_fn: FnId,
}

/// A function definition.
pub struct FnDef {
    pub name: Symbol,
    pub args: Vec<Symbol>,
    pub body: Body,
}

pub enum Stmt {
    Global(Symbol),
    Return(Expr),
    Assign(Symbol, Expr),
    /// `list.push(value)`
    Push(Expr, Expr),
    /// `list[int] = v`
    ListStore(Expr, Expr, Expr),
    /// `dict[k] = v`
    DictStore(Expr, Expr, Expr),
    If(Expr, Body, Body),
    While(Expr, Body),
    Print(Expr),
}

pub enum Expr {
    /// A reference to the function `AST::fns[id]`.
    FnId(FnId),
    NewList,
    NewDict,
    IndexList(Box<Expr>, Box<Expr>),
    IndexDict(Box<Expr>, Box<Expr>),
    BinOp(BinOpKind, Box<Expr>, Box<Expr>),
    Length(Box<Expr>),
    Var(Symbol),
    Input,
    FnCall(Box<Expr>, Vec<Expr>),
    IntLit(i64),
    StringLit(String),
    BoolLit(bool),
    NilLit,
}

#[derive(Clone, Copy, Debug, PartialEq, Eq, Structural)]
pub enum BinOpKind {
    Lt,
    Gt,
    Mod,
    Plus,
    Mul,
    Minus,
    Equ,
    /// `!=`
    Ne,
}

/// The target of an assignment, as the parser sees it.
pub enum LValue {
    IndexList(Expr, Expr),
    IndexDict(Expr, Expr),
    Var(Symbol),
}

/// A node of the syntax tree: a statement or an expression.
pub enum Node {
    S(Stmt),
    E(Expr),
}

/// The nodes of an expression in pre-order: the expression itself, then the
/// nodes of its sub-expressions from left to right.
pub open spec fn expr_nodes(e: Expr) -> Seq<Node>
    decreases e,
{
    seq![Node::E(e)] + match e {
        Expr::IndexList(l, i) => expr_nodes(*l) + expr_nodes(*i),
        Expr::IndexDict(t, k) => expr_nodes(*t) + expr_nodes(*k),
        Expr::BinOp(_, a, b) => expr_nodes(*a) + expr_nodes(*b),
        Expr::Length(l) => expr_nodes(*l),
        Expr::FnCall(f, args) => expr_nodes(*f) + exprs_nodes(args@),
        _ => Seq::empty(),
    }
}

/// The nodes of a list of expressions, one after the other.
pub open spec fn exprs_nodes(es: Seq<Expr>) -> Seq<Node>
    decreases es,
{
    if es.len() == 0 {
        Seq::empty()
    } else {
        exprs_nodes(es.drop_last()) + expr_nodes(es.last())
    }
}

/// The nodes of a statement in pre-order.
pub open spec fn stmt_nodes(s: Stmt) -> Seq<Node>
    decreases s,
{
    seq![Node::S(s)] + match s {
        Stmt::Global(_) => Seq::empty(),
        Stmt::ListStore(l, i, v) => expr_nodes(l) + expr_nodes(i) + expr_nodes(v),
        Stmt::DictStore(t, k, v) => expr_nodes(t) + expr_nodes(k) + expr_nodes(v),
        Stmt::Push(l, v) => expr_nodes(l) + expr_nodes(v),
        Stmt::Return(e) => expr_nodes(e),
        Stmt::Assign(_, e) => expr_nodes(e),
        Stmt::If(c, t, f) => expr_nodes(c) + body_nodes(t@) + body_nodes(f@),
        Stmt::While(c, b) => expr_nodes(c) + body_nodes(b@),
        Stmt::Print(e) => expr_nodes(e),
    }
}

/// The nodes of a statement list, one statement after the other.
pub open spec fn body_nodes(b: Seq<Stmt>) -> Seq<Node>
    decreases b,
{
    if b.len() == 0 {
        Seq::empty()
    } else {
        body_nodes(b.drop_last()) + stmt_nodes(b.last())
    }
}

} // verus!
