use vstd::prelude::*;
use crate::assoc::AssocMap;
use crate::ast::BinOpKind;
use crate::text::{bool_text, dec, int_text, push_bool, push_char, push_int, push_str, push_usize};

verus! {

/// Function id.
pub type FnId = usize;

/// Block id.
pub type BlkId = usize;

/// Id of a value local to a function (each is defined once).
pub type ValueId = usize;

/// Id of a global variable.
pub type GlobalId = usize;

/// A jump target with the values handed to the block's arguments.
pub type AppliedBlk = (BlkId, Vec<ValueId>);

/// A program in block form.
pub struct IR {
    pub fns: AssocMap<FnId, FnDef>,
    pub start: FnId,
    pub global_types: AssocMap<GlobalId, Ty>,
}

/// A function: its blocks, the block it starts in (whose arguments are the
/// function's arguments) and the type it returns.
pub struct FnDef {
    pub blocks: AssocMap<BlkId, BlkDef>,
    pub start: BlkId,
    pub retty: Ty,
}

/// A block.  The values usable in a block are its `args` and those its
/// statements compute.
pub struct BlkDef {
    pub stmts: Vec<Stmt>,
    pub terminator: Terminator,
    pub args: Vec<ValueId>,
    pub types: AssocMap<ValueId, Ty>,
}

pub enum Stmt {
    Compute(ValueId, Expr),
    WriteGlobal(GlobalId, ValueId),
    /// `list.push(value)`
    Push(ValueId, ValueId),
    /// `list[int] = v`
    ListStore(ValueId, ValueId, ValueId),
    /// `dict[k] = v`
    DictStore(ValueId, ValueId, ValueId),
    Print(ValueId),
}

pub enum Expr {
    FnCall(ValueId, Vec<ValueId>),
    LoadGlobal(GlobalId),
    Fn(FnId),
    NewList,
    NewDict,
    IndexList(ValueId, ValueId),
    IndexDict(ValueId, ValueId),
    BinOp(BinOpKind, ValueId, ValueId),
    Length(ValueId),
    Input,
    IntLit(i64),
    StringLit(String),
    BoolLit(bool),
    NilLit,
    /// Wraps a value of the given type into a `Value`.
    TToValue(ValueId, Ty),
    /// Unwraps a `Value` into the given type.
    ValueToT(ValueId, Ty),
}

pub enum Terminator {
    Exit,
    Return(ValueId),
    Goto(AppliedBlk),
    IfGoto(ValueId, AppliedBlk, AppliedBlk),
}

#[derive(Clone, Copy, PartialEq, Eq, Structural, Debug)]
pub enum Ty {
    Value,
    Int,
    String,
    Fn,
    Bool,
    Nil,
}

/// How `{:?}` shows a string: quoted, with special characters escaped.
pub uninterp spec fn debug_text(s: Seq<char>) -> Seq<char>;

/// Appends `s` as `{:?}` shows it (std's `Debug` for `String`).
#[verifier::external_body]
fn push_debug_str(out: &mut String, s: &String)
    ensures
        final(out)@ == old(out)@ + debug_text(s@),
{
    out.push_str(&format!("{:?}", s));
}

/// `name(f1, f2, ...)`, as `{:?}` shows a tuple variant.
pub open spec fn tuple_text(name: Seq<char>, fields: Seq<Seq<char>>) -> Seq<char> {
    name + seq!['('] + join(fields) + seq![')']
}

/// The texts `t`, separated by `", "`.
pub open spec fn join(t: Seq<Seq<char>>) -> Seq<char>
    decreases t.len(),
{
    if t.len() == 0 {
        Seq::empty()
    } else if t.len() == 1 {
        t[0]
    } else {
        join(t.drop_last()) + ", "@ + t.last()
    }
}

/// Joining one more text adds a separator and the text.
pub proof fn lemma_join_step(t: Seq<Seq<char>>, i: int)
    requires
        0 <= i < t.len(),
    ensures
        join(t.take(i + 1)) == (if i == 0 { t[0] } else { join(t.take(i)) + ", "@ + t[i] }),
{
    let u = t.take(i + 1);
    assert(u.drop_last() =~= t.take(i));
}

/// The texts `t`, one after the other.
pub open spec fn cat(t: Seq<Seq<char>>) -> Seq<char>
    decreases t.len(),
{
    if t.len() == 0 {
        Seq::empty()
    } else {
        cat(t.drop_last()) + t.last()
    }
}

/// The join of one, two or three texts.
pub proof fn lemma_join3(a: Seq<char>, b: Seq<char>, c: Seq<char>)
    ensures
        join(seq![a]) == a,
        join(seq![a, b]) == a + ", "@ + b,
        join(seq![a, b, c]) == a + ", "@ + b + ", "@ + c,
{
    assert(seq![a, b].drop_last() =~= seq![a]);
    assert(seq![a, b, c].drop_last() =~= seq![a, b]);
    assert(join(seq![a]) == a);
    assert(join(seq![a, b]) == join(seq![a]) + ", "@ + b);
    assert(join(seq![a, b, c]) == join(seq![a, b]) + ", "@ + c);
    assert(join(seq![a, b, c]) =~= a + ", "@ + b + ", "@ + c);
}

/// The decimal notations of `v`.
pub open spec fn nums(v: Seq<usize>) -> Seq<Seq<char>> {
    v.map_values(|x: usize| dec(x as nat))
}

/// `v_a, v_b, ...` for the values `v`.
pub open spec fn vals_text(v: Seq<usize>) -> Seq<Seq<char>> {
    v.map_values(|x: usize| "v_"@ + dec(x as nat))
}

pub open spec fn ty_debug(t: Ty) -> Seq<char> {
    match t {
        Ty::Value => "Value"@,
        Ty::Int => "Int"@,
        Ty::String => "String"@,
        Ty::Fn => "Fn"@,
        Ty::Bool => "Bool"@,
        Ty::Nil => "Nil"@,
    }
}

pub open spec fn binop_debug(k: BinOpKind) -> Seq<char> {
    match k {
        BinOpKind::Lt => "Lt"@,
        BinOpKind::Gt => "Gt"@,
        BinOpKind::Mod => "Mod"@,
        BinOpKind::Plus => "Plus"@,
        BinOpKind::Mul => "Mul"@,
        BinOpKind::Minus => "Minus"@,
        BinOpKind::Equ => "Equ"@,
        BinOpKind::Ne => "Ne"@,
    }
}

/// How `{:?}` shows an expression.
pub open spec fn expr_debug(e: Expr) -> Seq<char> {
    match e {
        Expr::FnCall(f, args) => tuple_text("FnCall"@, seq![dec(f as nat), seq!['['] + join(nums(args@)) + seq![']']]),
        Expr::LoadGlobal(g) => tuple_text("LoadGlobal"@, seq![dec(g as nat)]),
        Expr::Fn(f) => tuple_text("Fn"@, seq![dec(f as nat)]),
        Expr::NewList => "NewList"@,
        Expr::NewDict => "NewDict"@,
        Expr::IndexList(a, b) => tuple_text("IndexList"@, seq![dec(a as nat), dec(b as nat)]),
        Expr::IndexDict(a, b) => tuple_text("IndexDict"@, seq![dec(a as nat), dec(b as nat)]),
        Expr::BinOp(k, a, b) => tuple_text("BinOp"@, seq![binop_debug(k), dec(a as nat), dec(b as nat)]),
        Expr::Length(a) => tuple_text("Length"@, seq![dec(a as nat)]),
        Expr::Input => "Input"@,
        Expr::IntLit(x) => tuple_text("IntLit"@, seq![int_text(x as int)]),
        Expr::StringLit(s) => tuple_text("StringLit"@, seq![debug_text(s@)]),
        Expr::BoolLit(b) => tuple_text("BoolLit"@, seq![bool_text(b)]),
        Expr::NilLit => "NilLit"@,
        Expr::TToValue(v, t) => tuple_text("TToValue"@, seq![dec(v as nat), ty_debug(t)]),
        Expr::ValueToT(v, t) => tuple_text("ValueToT"@, seq![dec(v as nat), ty_debug(t)]),
    }
}

/// How the dump shows a statement: a computation as `v_n = expr`, any
/// other statement as `{:?}` shows it.
pub open spec fn stmt_dump(s: Stmt) -> Seq<char> {
    match s {
        Stmt::Compute(n, e) => "v_"@ + dec(n as nat) + " = "@ + expr_debug(e),
        Stmt::WriteGlobal(g, v) => tuple_text("WriteGlobal"@, seq![dec(g as nat), dec(v as nat)]),
        Stmt::Push(a, b) => tuple_text("Push"@, seq![dec(a as nat), dec(b as nat)]),
        Stmt::ListStore(a, b, c) => tuple_text("ListStore"@, seq![dec(a as nat), dec(b as nat), dec(c as nat)]),
        Stmt::DictStore(a, b, c) => tuple_text("DictStore"@, seq![dec(a as nat), dec(b as nat), dec(c as nat)]),
        Stmt::Print(v) => tuple_text("Print"@, seq![dec(v as nat)]),
    }
}

/// `goto bb_b(v_x, ...)`.
pub open spec fn goto_dump(t: AppliedBlk) -> Seq<char> {
    "goto bb_"@ + dec(t.0 as nat) + seq!['('] + join(vals_text(t.1@)) + seq![')']
}

/// The line of a terminator.
pub open spec fn term_dump(t: Terminator) -> Seq<char> {
    match t {
        Terminator::Goto(x) => "    "@ + goto_dump(x) + seq!['\n'],
        Terminator::IfGoto(c, x, y) => "    if v_"@ + dec(c as nat) + ": "@ + goto_dump(x) + " else "@ + goto_dump(y) + seq!['\n'],
        Terminator::Exit => "    exit\n"@,
        Terminator::Return(v) => "    return v_"@ + dec(v as nat) + seq!['\n'],
    }
}

/// The lines of the statements `s`.
pub open spec fn stmts_dump(s: Seq<Stmt>) -> Seq<char>
    decreases s.len(),
{
    if s.len() == 0 {
        Seq::empty()
    } else {
        stmts_dump(s.drop_last()) + "    "@ + stmt_dump(s.last()) + seq!['\n']
    }
}

/// The lines of block `b`, marked as the start block where it is `start`.
pub open spec fn blk_dump(b: BlkId, d: BlkDef, start: BlkId) -> Seq<char> {
    "  "@ + (if b == start { "start "@ } else { Seq::empty() }) + "bb_"@ + dec(b as nat) + seq!['(']
        + join(vals_text(d.args@)) + "):\n"@ + stmts_dump(d.stmts@) + term_dump(d.terminator)
}

/// The lines of the blocks `bs`, in order.
pub open spec fn blks_dump(bs: Seq<(BlkId, BlkDef)>, start: BlkId) -> Seq<char>
    decreases bs.len(),
{
    if bs.len() == 0 {
        Seq::empty()
    } else {
        blks_dump(bs.drop_last(), start) + blk_dump(bs.last().0, bs.last().1, start)
    }
}

/// The lines of function `f`.
pub open spec fn fn_dump(f: FnId, d: FnDef) -> Seq<char> {
    "fn fn_"@ + dec(f as nat) + ":\n"@ + blks_dump(d.blocks.entries@, d.start)
}

/// The lines of the functions `fs`, in order.
pub open spec fn fns_dump(fs: Seq<(FnId, FnDef)>) -> Seq<char>
    decreases fs.len(),
{
    if fs.len() == 0 {
        Seq::empty()
    } else {
        fns_dump(fs.drop_last()) + fn_dump(fs.last().0, fs.last().1)
    }
}

/// Appends `v_a, v_b, ...`, or the plain numbers when `prefixed` is false.
fn push_list(out: &mut String, v: &Vec<ValueId>, prefixed: bool)
    ensures
        final(out)@ == old(out)@ + join(if prefixed { vals_text(v@) } else { nums(v@) }),
{
    let ghost t = if prefixed { vals_text(v@) } else { nums(v@) };
    let mut i: usize = 0;
    while i < v.len()
        invariant
            i <= v@.len(),
            t == (if prefixed { vals_text(v@) } else { nums(v@) }),
            t.len() == v@.len(),
            out@ == old(out)@ + join(t.take(i as int)),
        decreases v.len() - i,
    {
        let ghost o = out@;
        if i > 0 {
            push_str(out, ", ");
        }
        if prefixed {
            push_str(out, "v_");
        }
        push_usize(out, v[i]);
        proof {
            let u = t.take(i + 1);
            assert(u.drop_last() =~= t.take(i as int));
            if i == 0 {
                assert(join(u) == u[0]);
            }
            assert(out@ =~= old(out)@ + join(u));
        }
        i = i + 1;
    }
    assert(t.take(v@.len() as int) =~= t);
}

fn push_ty_debug(out: &mut String, t: Ty)
    ensures
        final(out)@ == old(out)@ + ty_debug(t),
{
    match t {
        Ty::Value => push_str(out, "Value"),
        Ty::Int => push_str(out, "Int"),
        Ty::String => push_str(out, "String"),
        Ty::Fn => push_str(out, "Fn"),
        Ty::Bool => push_str(out, "Bool"),
        Ty::Nil => push_str(out, "Nil"),
    }
}

fn push_binop_debug(out: &mut String, k: BinOpKind)
    ensures
        final(out)@ == old(out)@ + binop_debug(k),
{
    match k {
        BinOpKind::Lt => push_str(out, "Lt"),
        BinOpKind::Gt => push_str(out, "Gt"),
        BinOpKind::Mod => push_str(out, "Mod"),
        BinOpKind::Plus => push_str(out, "Plus"),
        BinOpKind::Mul => push_str(out, "Mul"),
        BinOpKind::Minus => push_str(out, "Minus"),
        BinOpKind::Equ => push_str(out, "Equ"),
        BinOpKind::Ne => push_str(out, "Ne"),
    }
}

/// Appends `name(a)`, `name(a, b)` or `name(a, b, c)` for the first `k`
/// of the numbers `a`, `b`, `c`.
fn push_num_tuple(out: &mut String, name: &str, k: usize, a: usize, b: usize, c: usize)
    requires
        1 <= k <= 3,
    ensures
        k == 1 ==> final(out)@ == old(out)@ + tuple_text(name@, seq![dec(a as nat)]),
        k == 2 ==> final(out)@ == old(out)@ + tuple_text(name@, seq![dec(a as nat), dec(b as nat)]),
        k == 3 ==> final(out)@ == old(out)@ + tuple_text(name@, seq![dec(a as nat), dec(b as nat), dec(c as nat)]),
{
    push_str(out, name);
    push_char(out, '(');
    push_usize(out, a);
    if k >= 2 {
        push_str(out, ", ");
        push_usize(out, b);
    }
    if k >= 3 {
        push_str(out, ", ");
        push_usize(out, c);
    }
    push_char(out, ')');
    proof {
        lemma_join3(dec(a as nat), dec(b as nat), dec(c as nat));
        if k == 1 {
            assert(out@ =~= old(out)@ + tuple_text(name@, seq![dec(a as nat)]));
        } else if k == 2 {
            assert(out@ =~= old(out)@ + tuple_text(name@, seq![dec(a as nat), dec(b as nat)]));
        } else {
            assert(out@ =~= old(out)@ + tuple_text(name@, seq![dec(a as nat), dec(b as nat), dec(c as nat)]));
        }
    }
}

fn push_fncall_debug(out: &mut String, e: &Expr)
    requires
        e is FnCall,
    ensures
        final(out)@ == old(out)@ + expr_debug(*e),
{
    let (f, args) = match e {
        Expr::FnCall(f, args) => (*f, args),
        _ => { return; },
    };
    push_str(out, "FnCall");
    push_char(out, '(');
    push_usize(out, f);
    push_str(out, ", ");
    push_char(out, '[');
    push_list(out, args, false);
    push_char(out, ']');
    push_char(out, ')');
    proof {
        let fs = seq![dec(f as nat), seq!['['] + join(nums(args@)) + seq![']']];
        lemma_join3(dec(f as nat), seq!['['] + join(nums(args@)) + seq![']'], Seq::empty());
        assert(out@ =~= old(out)@ + tuple_text("FnCall"@, fs));
    }
}

fn push_binop_expr_debug(out: &mut String, k: BinOpKind, a: ValueId, b: ValueId)
    ensures
        final(out)@ == old(out)@ + expr_debug(Expr::BinOp(k, a, b)),
{
    push_str(out, "BinOp");
    push_char(out, '(');
    push_binop_debug(out, k);
    push_str(out, ", ");
    push_usize(out, a);
    push_str(out, ", ");
    push_usize(out, b);
    push_char(out, ')');
    proof {
        let fs = seq![binop_debug(k), dec(a as nat), dec(b as nat)];
        lemma_join3(binop_debug(k), dec(a as nat), dec(b as nat));
        assert(out@ =~= old(out)@ + tuple_text("BinOp"@, fs));
    }
}

/// Appends `name(v, T)`.
fn push_cast_debug(out: &mut String, name: &str, v: ValueId, t: Ty)
    ensures
        final(out)@ == old(out)@ + tuple_text(name@, seq![dec(v as nat), ty_debug(t)]),
{
    push_str(out, name);
    push_char(out, '(');
    push_usize(out, v);
    push_str(out, ", ");
    push_ty_debug(out, t);
    push_char(out, ')');
    proof {
        lemma_join3(dec(v as nat), ty_debug(t), Seq::empty());
        assert(out@ =~= old(out)@ + tuple_text(name@, seq![dec(v as nat), ty_debug(t)]));
    }
}

fn push_lit_debug(out: &mut String, e: &Expr)
    requires
        e is IntLit || e is StringLit || e is BoolLit,
    ensures
        final(out)@ == old(out)@ + expr_debug(*e),
{
    match e {
        Expr::IntLit(x) => {
            push_str(out, "IntLit");
            push_char(out, '(');
            push_int(out, *x);
            push_char(out, ')');
            assert(out@ =~= old(out)@ + tuple_text("IntLit"@, seq![int_text(*x as int)]));
        },
        Expr::StringLit(x) => {
            push_str(out, "StringLit");
            push_char(out, '(');
            push_debug_str(out, x);
            push_char(out, ')');
            assert(out@ =~= old(out)@ + tuple_text("StringLit"@, seq![debug_text(x@)]));
        },
        Expr::BoolLit(b) => {
            push_str(out, "BoolLit");
            push_char(out, '(');
            push_bool(out, *b);
            push_char(out, ')');
            assert(out@ =~= old(out)@ + tuple_text("BoolLit"@, seq![bool_text(*b)]));
        },
        _ => {},
    }
}

/// Appends the `{:?}` text of `e`.
fn push_expr_debug(out: &mut String, e: &Expr)
    ensures
        final(out)@ == old(out)@ + expr_debug(*e),
{
    match e {
        Expr::FnCall(..) => push_fncall_debug(out, e),
        Expr::LoadGlobal(g) => push_num_tuple(out, "LoadGlobal", 1, *g, 0, 0),
        Expr::Fn(f) => push_num_tuple(out, "Fn", 1, *f, 0, 0),
        Expr::NewList => push_str(out, "NewList"),
        Expr::NewDict => push_str(out, "NewDict"),
        Expr::IndexList(a, b) => push_num_tuple(out, "IndexList", 2, *a, *b, 0),
        Expr::IndexDict(a, b) => push_num_tuple(out, "IndexDict", 2, *a, *b, 0),
        Expr::BinOp(k, a, b) => push_binop_expr_debug(out, *k, *a, *b),
        Expr::Length(a) => push_num_tuple(out, "Length", 1, *a, 0, 0),
        Expr::Input => push_str(out, "Input"),
        Expr::IntLit(_) => push_lit_debug(out, e),
        Expr::StringLit(_) => push_lit_debug(out, e),
        Expr::BoolLit(_) => push_lit_debug(out, e),
        Expr::NilLit => push_str(out, "NilLit"),
        Expr::TToValue(v, t) => push_cast_debug(out, "TToValue", *v, *t),
        Expr::ValueToT(v, t) => push_cast_debug(out, "ValueToT", *v, *t),
    }
}

fn push_stmt_dump(out: &mut String, st: &Stmt)
    ensures
        final(out)@ == old(out)@ + stmt_dump(*st),
{
    match st {
        Stmt::Compute(n, e) => {
            push_str(out, "v_");
            push_usize(out, *n);
            push_str(out, " = ");
            push_expr_debug(out, e);
            assert(out@ =~= old(out)@ + stmt_dump(*st));
        },
        Stmt::WriteGlobal(g, v) => push_num_tuple(out, "WriteGlobal", 2, *g, *v, 0),
        Stmt::Push(a, b) => push_num_tuple(out, "Push", 2, *a, *b, 0),
        Stmt::ListStore(a, b, c) => push_num_tuple(out, "ListStore", 3, *a, *b, *c),
        Stmt::DictStore(a, b, c) => push_num_tuple(out, "DictStore", 3, *a, *b, *c),
        Stmt::Print(v) => push_num_tuple(out, "Print", 1, *v, 0, 0),
    }
}

fn push_goto_dump(out: &mut String, t: &AppliedBlk)
    ensures
        final(out)@ == old(out)@ + goto_dump(*t),
{
    push_str(out, "goto bb_");
    push_usize(out, t.0);
    push_char(out, '(');
    push_list(out, &t.1, true);
    push_char(out, ')');
    assert(out@ =~= old(out)@ + goto_dump(*t));
}

fn push_term_dump(out: &mut String, t: &Terminator)
    ensures
        final(out)@ == old(out)@ + term_dump(*t),
{
    match t {
        Terminator::Goto(x) => {
            push_str(out, "    ");
            push_goto_dump(out, x);
            push_char(out, '\n');
        },
        Terminator::IfGoto(c, x, y) => {
            push_str(out, "    if v_");
            push_usize(out, *c);
            push_str(out, ": ");
            push_goto_dump(out, x);
            push_str(out, " else ");
            push_goto_dump(out, y);
            push_char(out, '\n');
        },
        Terminator::Exit => push_str(out, "    exit\n"),
        Terminator::Return(v) => {
            push_str(out, "    return v_");
            push_usize(out, *v);
            push_char(out, '\n');
        },
    }
    assert(out@ =~= old(out)@ + term_dump(*t));
}

fn push_blk_dump(out: &mut String, b: BlkId, d: &BlkDef, start: BlkId)
    ensures
        final(out)@ == old(out)@ + blk_dump(b, *d, start),
{
    push_str(out, "  ");
    if b == start {
        push_str(out, "start ");
    }
    push_str(out, "bb_");
    push_usize(out, b);
    push_char(out, '(');
    push_list(out, &d.args, true);
    push_str(out, "):\n");
    let ghost mid = out@;
    let mut i: usize = 0;
    while i < d.stmts.len()
        invariant
            i <= d.stmts@.len(),
            out@ == mid + stmts_dump(d.stmts@.take(i as int)),
        decreases d.stmts.len() - i,
    {
        push_str(out, "    ");
        push_stmt_dump(out, &d.stmts[i]);
        push_char(out, '\n');
        proof {
            assert(d.stmts@.take(i + 1).drop_last() =~= d.stmts@.take(i as int));
        }
        assert(out@ =~= mid + stmts_dump(d.stmts@.take(i + 1)));
        i = i + 1;
    }
    assert(d.stmts@.take(d.stmts@.len() as int) =~= d.stmts@);
    push_term_dump(out, &d.terminator);
    assert(out@ =~= old(out)@ + blk_dump(b, *d, start));
}

fn push_fn_dump(out: &mut String, f: FnId, d: &FnDef)
    ensures
        final(out)@ == old(out)@ + fn_dump(f, *d),
{
    push_str(out, "fn fn_");
    push_usize(out, f);
    push_str(out, ":\n");
    let ghost mid = out@;
    let es = &d.blocks.entries;
    let mut i: usize = 0;
    while i < es.len()
        invariant
            i <= es@.len(),
            *es == d.blocks.entries,
            out@ == mid + blks_dump(es@.take(i as int), d.start),
        decreases es.len() - i,
    {
        push_blk_dump(out, es[i].0, &es[i].1, d.start);
        proof {
            assert(es@.take(i + 1).drop_last() =~= es@.take(i as int));
        }
        assert(out@ =~= mid + blks_dump(es@.take(i + 1), d.start));
        i = i + 1;
    }
    assert(es@.take(es@.len() as int) =~= es@);
    assert(out@ =~= old(out)@ + fn_dump(f, *d));
}

impl IR {
    /// The text of the program: each function (in the order of
    /// `fns.entries`) with each of its blocks, their statements and
    /// terminators, one per line.
    pub fn dump(&self) -> (r: String)
        ensures
            r@ == fns_dump(self.fns.entries@),
    {
        let mut out = String::new();
        let es = &self.fns.entries;
        let mut i: usize = 0;
        while i < es.len()
            invariant
                i <= es@.len(),
                *es == self.fns.entries,
                out@ == fns_dump(es@.take(i as int)),
            decreases es.len() - i,
        {
            push_fn_dump(&mut out, es[i].0, &es[i].1);
            proof {
                assert(es@.take(i + 1).drop_last() =~= es@.take(i as int));
            }
            assert(out@ =~= fns_dump(es@.take(i + 1)));
            i = i + 1;
        }
        assert(es@.take(es@.len() as int) =~= es@);
        out
    }
}

} // verus!
