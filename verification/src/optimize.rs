use vstd::prelude::*;
use crate::ir::{AppliedBlk, BlkDef, BlkId, Expr, FnDef, FnId, IR, Stmt, Terminator, Ty, ValueId};
use crate::lower::{TermV, term_view};

verus! {

/// `v` with `from` replaced by `to`.
pub open spec fn rv(v: ValueId, from: ValueId, to: ValueId) -> ValueId {
    if v == from { to } else { v }
}

/// The values `s` with `from` replaced by `to`.
pub open spec fn rvs(s: Seq<ValueId>, from: ValueId, to: ValueId) -> Seq<ValueId> {
    s.map_values(|v: ValueId| rv(v, from, to))
}

/// Whether `b` is `a` with every value it reads that is `from` replaced by
/// `to`.
pub open spec fn expr_replaced(a: Expr, b: Expr, from: ValueId, to: ValueId) -> bool {
    match a {
        Expr::FnCall(f, xs) => b matches Expr::FnCall(g, ys) && g == rv(f, from, to) && ys@ == rvs(xs@, from, to),
        Expr::IndexList(x, y) => b == Expr::IndexList(rv(x, from, to), rv(y, from, to)),
        Expr::IndexDict(x, y) => b == Expr::IndexDict(rv(x, from, to), rv(y, from, to)),
        Expr::BinOp(k, x, y) => b == Expr::BinOp(k, rv(x, from, to), rv(y, from, to)),
        Expr::Length(x) => b == Expr::Length(rv(x, from, to)),
        Expr::TToValue(x, t) => b == Expr::TToValue(rv(x, from, to), t),
        Expr::ValueToT(x, t) => b == Expr::ValueToT(rv(x, from, to), t),
        _ => b == a,
    }
}

/// Whether `b` is `a` with every value it reads that is `from` replaced by
/// `to`; the value a computation defines stays.
pub open spec fn stmt_replaced(a: Stmt, b: Stmt, from: ValueId, to: ValueId) -> bool {
    match a {
        Stmt::Compute(v, e) => b matches Stmt::Compute(w, f) && w == v && expr_replaced(e, f, from, to),
        Stmt::WriteGlobal(g, x) => b == Stmt::WriteGlobal(g, rv(x, from, to)),
        Stmt::Push(x, y) => b == Stmt::Push(rv(x, from, to), rv(y, from, to)),
        Stmt::ListStore(x, y, z) => b == Stmt::ListStore(rv(x, from, to), rv(y, from, to), rv(z, from, to)),
        Stmt::DictStore(x, y, z) => b == Stmt::DictStore(rv(x, from, to), rv(y, from, to), rv(z, from, to)),
        Stmt::Print(x) => b == Stmt::Print(rv(x, from, to)),
    }
}

/// A terminator with every value it reads that is `from` replaced by `to`.
pub open spec fn term_replaced(t: TermV, from: ValueId, to: ValueId) -> TermV {
    match t {
        TermV::Exit => TermV::Exit,
        TermV::Return(v) => TermV::Return(rv(v, from, to)),
        TermV::Goto(b, xs) => TermV::Goto(b, rvs(xs, from, to)),
        TermV::IfGoto(c, b1, x1, b2, x2) => TermV::IfGoto(rv(c, from, to), b1, rvs(x1, from, to), b2, rvs(x2, from, to)),
    }
}

/// The values an expression reads.
pub open spec fn expr_reads(e: Expr) -> Seq<ValueId> {
    match e {
        Expr::FnCall(f, xs) => seq![f] + xs@,
        Expr::IndexList(x, y) => seq![x, y],
        Expr::IndexDict(x, y) => seq![x, y],
        Expr::BinOp(_, x, y) => seq![x, y],
        Expr::Length(x) => seq![x],
        Expr::TToValue(x, _) => seq![x],
        Expr::ValueToT(x, _) => seq![x],
        _ => Seq::empty(),
    }
}

/// The values a statement reads.
pub open spec fn stmt_reads(s: Stmt) -> Seq<ValueId> {
    match s {
        Stmt::Compute(_, e) => expr_reads(e),
        Stmt::WriteGlobal(_, x) => seq![x],
        Stmt::Push(x, y) => seq![x, y],
        Stmt::ListStore(x, y, z) => seq![x, y, z],
        Stmt::DictStore(x, y, z) => seq![x, y, z],
        Stmt::Print(x) => seq![x],
    }
}

/// The values a terminator reads.
pub open spec fn term_reads(t: TermV) -> Seq<ValueId> {
    match t {
        TermV::Exit => Seq::empty(),
        TermV::Return(v) => seq![v],
        TermV::Goto(_, xs) => xs,
        TermV::IfGoto(c, _, x1, _, x2) => seq![c] + x1 + x2,
    }
}

/// Whether some statement or the terminator of `bd` reads `x`.
pub open spec fn reads(bd: BlkDef, x: ValueId) -> bool {
    ||| exists|j: int| 0 <= j < bd.stmts@.len() && #[trigger] stmt_reads(bd.stmts@[j]).contains(x)
    ||| term_reads(term_view(bd.terminator)).contains(x)
}

/// Whether `s` computes `v`.
pub open spec fn defines(s: Stmt, v: ValueId) -> bool {
    s matches Stmt::Compute(w, _) && w == v
}

/// Whether statement `j` of `s` is the first computation of `v`.
pub open spec fn first_def(s: Seq<Stmt>, v: ValueId, j: int) -> bool {
    &&& 0 <= j < s.len()
    &&& s[j] matches Stmt::Compute(w, _) && w == v
    &&& forall|i: int| 0 <= i < j ==> !defines(#[trigger] s[i], v)
}

/// The expression of the first computation of `v` among `s`, if any.
pub open spec fn def_of(s: Seq<Stmt>, v: ValueId) -> Option<Expr> {
    if exists|j: int| first_def(s, v, j) {
        match s[choose|j: int| first_def(s, v, j)] {
            Stmt::Compute(_, e) => Some(e),
            _ => None,
        }
    } else {
        None
    }
}

/// The expression that computes `v` in `bdef`, if any: that of the first
/// computation of `v`.
pub fn expr_of(v: ValueId, bdef: &BlkDef) -> (r: Option<&Expr>)
    ensures
        r matches Some(e) ==> def_of(bdef.stmts@, v) == Some(*e),
        r is None ==> def_of(bdef.stmts@, v) is None,
{
    let mut i: usize = 0;
    while i < bdef.stmts.len()
        invariant
            i <= bdef.stmts@.len(),
            forall|k: int| 0 <= k < i ==> !defines(#[trigger] bdef.stmts@[k], v),
        decreases bdef.stmts.len() - i,
    {
        match &bdef.stmts[i] {
            Stmt::Compute(v2, e) => {
                if v == *v2 {
                    proof {
                        assert(first_def(bdef.stmts@, v, i as int));
                        let j = choose|j: int| first_def(bdef.stmts@, v, j);
                        assert(j == i) by {
                            if j < i {
                                assert(!defines(bdef.stmts@[j], v));
                            } else if j > i {
                                assert(!defines(bdef.stmts@[i as int], v));
                            }
                        }
                    }
                    return Some(e);
                }
            },
            _ => {},
        }
        i = i + 1;
    }
    proof {
        if exists|j: int| first_def(bdef.stmts@, v, j) {
            let j = choose|j: int| first_def(bdef.stmts@, v, j);
            assert(!defines(bdef.stmts@[j], v));
        }
    }
    None
}

/// Whether evaluating `e` has no effect other than its value: it cannot
/// fail, read input or call a function.
pub open spec fn side_effect_free(e: Expr) -> bool {
    match e {
        Expr::ValueToT(..) | Expr::Input | Expr::IndexList(..) | Expr::IndexDict(..) | Expr::FnCall(..) => false,
        _ => true,
    }
}

/// Whether evaluating `e` has no effect other than its value.  Unwrapping a
/// `Value` counts as an effect, since it fails on a value of another type.
pub fn is_side_effect_free(e: &Expr) -> (r: bool)
    ensures
        r == side_effect_free(*e),
{
    match e {
        Expr::ValueToT(..) | Expr::Input | Expr::IndexList(..) | Expr::IndexDict(..) | Expr::FnCall(..) => false,
        _ => true,
    }
}

fn vals_contain(v: &Vec<ValueId>, x: ValueId) -> (r: bool)
    ensures
        r == v@.contains(x),
{
    let mut i: usize = 0;
    while i < v.len()
        invariant
            i <= v@.len(),
            forall|k: int| 0 <= k < i ==> v@[k] != x,
        decreases v.len() - i,
    {
        if v[i] == x {
            assert(v@[i as int] == x);
            return true;
        }
        i = i + 1;
    }
    false
}

/// The values statement `s` reads.
fn stmt_reads_vec(s: &Stmt) -> (r: Vec<ValueId>)
    ensures
        r@ == stmt_reads(*s),
{
    let r = match s {
        Stmt::Compute(_, e) => match e {
            Expr::FnCall(f, xs) => {
                let mut r = vec![*f];
                let mut i: usize = 0;
                while i < xs.len()
                    invariant
                        i <= xs@.len(),
                        r@ == seq![*f] + xs@.take(i as int),
                    decreases xs.len() - i,
                {
                    r.push(xs[i]);
                    assert(r@ =~= seq![*f] + xs@.take(i + 1));
                    i = i + 1;
                }
                assert(xs@.take(xs@.len() as int) =~= xs@);
                r
            },
            Expr::IndexList(a, b) | Expr::IndexDict(a, b) | Expr::BinOp(_, a, b) => vec![*a, *b],
            Expr::Length(a) | Expr::TToValue(a, _) | Expr::ValueToT(a, _) => vec![*a],
            _ => Vec::new(),
        },
        Stmt::WriteGlobal(_, a) | Stmt::Print(a) => vec![*a],
        Stmt::Push(a, b) => vec![*a, *b],
        Stmt::ListStore(a, b, c) | Stmt::DictStore(a, b, c) => vec![*a, *b, *c],
    };
    assert(r@ =~= stmt_reads(*s));
    r
}

/// Whether statement `s` reads `x`.
fn stmt_reads_val(s: &Stmt, x: ValueId) -> (r: bool)
    ensures
        r == stmt_reads(*s).contains(x),
{
    let v = stmt_reads_vec(s);
    vals_contain(&v, x)
}

/// Whether terminator `t` reads `x`.
fn term_reads_val(t: &Terminator, x: ValueId) -> (r: bool)
    ensures
        r == term_reads(term_view(*t)).contains(x),
{
    match t {
        Terminator::Exit => false,
        Terminator::Return(v) => {
            let r = *v == x;
            assert(r ==> seq![*v][0] == x);
            r
        },
        Terminator::Goto(a) => vals_contain(&a.1, x),
        Terminator::IfGoto(c, a, b) => {
            let r1 = *c == x;
            let r2 = vals_contain(&a.1, x);
            let r3 = vals_contain(&b.1, x);
            proof {
                let rs = seq![*c] + a.1@ + b.1@;
                assert(rs == term_reads(term_view(*t)));
                if r2 {
                    let k = choose|k: int| 0 <= k < a.1@.len() && a.1@[k] == x;
                    assert(rs[k + 1] == x);
                }
                if r3 {
                    let k = choose|k: int| 0 <= k < b.1@.len() && b.1@[k] == x;
                    assert(rs[k + 1 + a.1@.len()] == x);
                }
                if r1 {
                    assert(rs[0] == x);
                }
                if rs.contains(x) {
                    let k = choose|k: int| 0 <= k < rs.len() && rs[k] == x;
                    if k == 0 {
                    } else if k < 1 + a.1@.len() {
                        assert(a.1@[k - 1] == x);
                    } else {
                        assert(b.1@[k - 1 - a.1@.len()] == x);
                    }
                }
            }
            r1 || r2 || r3
        },
    }
}

/// Whether no statement and not the terminator of `bdef` reads `x`.
pub fn unused(x: ValueId, bdef: &BlkDef) -> (r: bool)
    ensures
        r == !reads(*bdef, x),
{
    let mut i: usize = 0;
    while i < bdef.stmts.len()
        invariant
            i <= bdef.stmts@.len(),
            forall|k: int| 0 <= k < i ==> !(#[trigger] stmt_reads(bdef.stmts@[k]).contains(x)),
        decreases bdef.stmts.len() - i,
    {
        if stmt_reads_val(&bdef.stmts[i], x) {
            return false;
        }
        i = i + 1;
    }
    !term_reads_val(&bdef.terminator, x)
}

fn rv_exec(v: ValueId, from: ValueId, to: ValueId) -> (r: ValueId)
    ensures
        r == rv(v, from, to),
{
    if v == from { to } else { v }
}

fn replace_vals(v: &Vec<ValueId>, from: ValueId, to: ValueId) -> (r: Vec<ValueId>)
    ensures
        r@ == rvs(v@, from, to),
{
    let mut r: Vec<ValueId> = Vec::new();
    let mut i: usize = 0;
    while i < v.len()
        invariant
            i <= v@.len(),
            r@ == rvs(v@.take(i as int), from, to),
        decreases v.len() - i,
    {
        r.push(rv_exec(v[i], from, to));
        assert(r@ =~= rvs(v@.take(i + 1), from, to));
        i = i + 1;
    }
    assert(v@.take(v@.len() as int) =~= v@);
    r
}

fn replace_expr(e: &Expr, from: ValueId, to: ValueId) -> (r: Expr)
    ensures
        expr_replaced(*e, r, from, to),
{
    match e {
        Expr::FnCall(f, xs) => Expr::FnCall(rv_exec(*f, from, to), replace_vals(xs, from, to)),
        Expr::LoadGlobal(g) => Expr::LoadGlobal(*g),
        Expr::Fn(f) => Expr::Fn(*f),
        Expr::NewList => Expr::NewList,
        Expr::NewDict => Expr::NewDict,
        Expr::IndexList(x, y) => Expr::IndexList(rv_exec(*x, from, to), rv_exec(*y, from, to)),
        Expr::IndexDict(x, y) => Expr::IndexDict(rv_exec(*x, from, to), rv_exec(*y, from, to)),
        Expr::BinOp(k, x, y) => Expr::BinOp(*k, rv_exec(*x, from, to), rv_exec(*y, from, to)),
        Expr::Length(x) => Expr::Length(rv_exec(*x, from, to)),
        Expr::Input => Expr::Input,
        Expr::IntLit(i) => Expr::IntLit(*i),
        Expr::StringLit(x) => Expr::StringLit(x.clone()),
        Expr::BoolLit(b) => Expr::BoolLit(*b),
        Expr::NilLit => Expr::NilLit,
        Expr::TToValue(x, t) => Expr::TToValue(rv_exec(*x, from, to), *t),
        Expr::ValueToT(x, t) => Expr::ValueToT(rv_exec(*x, from, to), *t),
    }
}

fn replace_stmt(s: &Stmt, from: ValueId, to: ValueId) -> (r: Stmt)
    ensures
        stmt_replaced(*s, r, from, to),
{
    match s {
        Stmt::Compute(v, e) => Stmt::Compute(*v, replace_expr(e, from, to)),
        Stmt::WriteGlobal(g, x) => Stmt::WriteGlobal(*g, rv_exec(*x, from, to)),
        Stmt::Push(x, y) => Stmt::Push(rv_exec(*x, from, to), rv_exec(*y, from, to)),
        Stmt::ListStore(x, y, z) => Stmt::ListStore(rv_exec(*x, from, to), rv_exec(*y, from, to), rv_exec(*z, from, to)),
        Stmt::DictStore(x, y, z) => Stmt::DictStore(rv_exec(*x, from, to), rv_exec(*y, from, to), rv_exec(*z, from, to)),
        Stmt::Print(x) => Stmt::Print(rv_exec(*x, from, to)),
    }
}

fn replace_term(t: &Terminator, from: ValueId, to: ValueId) -> (r: Terminator)
    ensures
        term_view(r) == term_replaced(term_view(*t), from, to),
{
    match t {
        Terminator::Exit => Terminator::Exit,
        Terminator::Return(v) => Terminator::Return(rv_exec(*v, from, to)),
        Terminator::Goto(a) => Terminator::Goto((a.0, replace_vals(&a.1, from, to))),
        Terminator::IfGoto(c, a, b) => Terminator::IfGoto(rv_exec(*c, from, to), (a.0, replace_vals(&a.1, from, to)),
            (b.0, replace_vals(&b.1, from, to))),
    }
}

/// Whether statement `k` of `s` is the last computation of `v`.
pub open spec fn last_def(s: Seq<Stmt>, v: ValueId, k: int) -> bool {
    &&& 0 <= k < s.len()
    &&& s[k] matches Stmt::Compute(w, _) && w == v
    &&& forall|i: int| k < i < s.len() ==> !defines(#[trigger] s[i], v)
}

/// Whether `b` is block `a` with every value read that is `from` replaced
/// by `to` and the last computation of `from` dropped; its arguments and
/// types stay.
pub open spec fn blk_replaced(a: BlkDef, b: BlkDef, from: ValueId, to: ValueId) -> bool {
    let s = a.stmts@;
    let t = b.stmts@;
    let k = choose|k: int| last_def(s, from, k);
    &&& t.len() + 1 == s.len()
    &&& forall|j: int| 0 <= j < k ==> stmt_replaced(s[j], #[trigger] t[j], from, to)
    &&& forall|j: int| k < j < s.len() ==> stmt_replaced(#[trigger] s[j], t[j - 1], from, to)
    &&& term_view(b.terminator) == term_replaced(term_view(a.terminator), from, to)
    &&& b.args == a.args
    &&& b.types == a.types
}

/// Replaces every read of `from` in `bdef` by `to` and drops the last
/// computation of `from`.
pub fn replace_value_id(from: ValueId, to: ValueId, bdef: &mut BlkDef)
    requires
        exists|k: int| 0 <= k < old(bdef).stmts@.len() && defines(old(bdef).stmts@[k], from),
    ensures
        blk_replaced(*old(bdef), *final(bdef), from, to),
{
    let ghost s = bdef.stmts@;
    let n = bdef.stmts.len();
    let mut idx: usize = n;
    let mut j: usize = 0;
    while j < n
        invariant
            j <= n,
            idx <= n,
            n == s.len(),
            s == bdef.stmts@,
            idx == n ==> forall|i: int| 0 <= i < j ==> !defines(#[trigger] s[i], from),
            idx < n ==> idx < j && defines(s[idx as int], from)
                && forall|i: int| idx < i < j ==> !defines(#[trigger] s[i], from),
        decreases n - j,
    {
        match &bdef.stmts[j] {
            Stmt::Compute(from2, _) => {
                if *from2 == from {
                    idx = j;
                }
            },
            _ => {},
        }
        j = j + 1;
    }
    proof {
        if idx == n {
            assert(s == old(bdef).stmts@);
            assert(exists|k: int| 0 <= k < s.len() && defines(s[k], from));
            let k = choose|k: int| 0 <= k < s.len() && defines(s[k], from);
            assert(!defines(s[k], from));
        }
        assert(last_def(s, from, idx as int));
        let k = choose|k: int| last_def(s, from, k);
        assert(k == idx) by {
            if k < idx {
                assert(!defines(s[idx as int], from));
            } else if k > idx {
                assert(!defines(s[k], from));
            }
        }
    }
    let mut out: Vec<Stmt> = Vec::new();
    let mut i: usize = 0;
    while i < n
        invariant
            i <= n,
            n == s.len(),
            s == bdef.stmts@,
            idx < n,
            out@.len() == if i <= idx { i as int } else { i - 1 },
            forall|m: int| 0 <= m < i && m < idx ==> stmt_replaced(s[m], #[trigger] out@[m], from, to),
            forall|m: int| idx < m < i ==> stmt_replaced(#[trigger] s[m], out@[m - 1], from, to),
        decreases n - i,
    {
        let st = replace_stmt(&bdef.stmts[i], from, to);
        if i != idx {
            out.push(st);
        }
        i = i + 1;
    }
    bdef.stmts = out;
    let t = replace_term(&bdef.terminator, from, to);
    bdef.terminator = t;
}

/// The block at position `bi` of the function at position `fi`.
pub open spec fn blk_at(ir: IR, fi: int, bi: int) -> BlkDef {
    ir.fns.entries@[fi].1.blocks.entries@[bi].1
}

/// Whether `fi` and `bi` are positions of a function and one of its blocks.
pub open spec fn valid_pos(ir: IR, fi: int, bi: int) -> bool {
    &&& 0 <= fi < ir.fns.entries@.len()
    &&& 0 <= bi < ir.fns.entries@[fi].1.blocks.entries@.len()
}

/// Whether `(a0, a1, a2)` comes before `(b0, b1, b2)`.
pub open spec fn lex_lt(a0: int, a1: int, a2: int, b0: int, b1: int, b2: int) -> bool {
    a0 < b0 || (a0 == b0 && (a1 < b1 || (a1 == b1 && a2 < b2)))
}

/// Whether `b` is `a` except for the block at position `bi` of the
/// function at position `fi`, which keeps its id.
pub open spec fn same_but_block(a: IR, b: IR, fi: int, bi: int) -> bool {
    &&& valid_pos(a, fi, bi)
    &&& b.start == a.start
    &&& b.global_types == a.global_types
    &&& b.fns.entries@.len() == a.fns.entries@.len()
    &&& forall|k: int| 0 <= k < a.fns.entries@.len() && k != fi ==> #[trigger] b.fns.entries@[k] == a.fns.entries@[k]
    &&& b.fns.entries@[fi].0 == a.fns.entries@[fi].0
    &&& b.fns.entries@[fi].1.start == a.fns.entries@[fi].1.start
    &&& b.fns.entries@[fi].1.retty == a.fns.entries@[fi].1.retty
    &&& b.fns.entries@[fi].1.blocks.entries@.len() == a.fns.entries@[fi].1.blocks.entries@.len()
    &&& forall|k: int| 0 <= k < a.fns.entries@[fi].1.blocks.entries@.len() && k != bi ==>
        #[trigger] b.fns.entries@[fi].1.blocks.entries@[k] == a.fns.entries@[fi].1.blocks.entries@[k]
    &&& b.fns.entries@[fi].1.blocks.entries@[bi].0 == a.fns.entries@[fi].1.blocks.entries@[bi].0
}

/// The value that `v` can stand for: where `v` unwraps a `Value` that was
/// just made by wrapping `v3` of the same type, `v3`.
pub open spec fn cast_target(s: Seq<Stmt>, v: ValueId) -> Option<ValueId> {
    match def_of(s, v) {
        Some(Expr::ValueToT(v2, ty)) => match def_of(s, v2) {
            Some(Expr::TToValue(v3, ty2)) => if ty == ty2 { Some(v3) } else { None },
            _ => None,
        },
        _ => None,
    }
}

/// Whether the `ti`-th typed value of block `bi` of function `fi` unwraps a
/// value that was just wrapped.
pub open spec fn cast_hit(ir: IR, fi: int, bi: int, ti: int) -> bool {
    &&& valid_pos(ir, fi, bi)
    &&& 0 <= ti < blk_at(ir, fi, bi).types.entries@.len()
    &&& cast_target(blk_at(ir, fi, bi).stmts@, blk_at(ir, fi, bi).types.entries@[ti].0) is Some
}

/// Whether `(fi, bi, ti)` is the first such place in the order of the
/// functions, blocks and typed values.
pub open spec fn first_cast(ir: IR, fi: int, bi: int, ti: int) -> bool {
    &&& cast_hit(ir, fi, bi, ti)
    &&& forall|f: int, b: int, t: int| lex_lt(f, b, t, fi, bi, ti) ==> !#[trigger] cast_hit(ir, f, b, t)
}

/// Whether the program has such a place.
pub open spec fn some_cast(ir: IR) -> bool {
    exists|f: int, b: int, t: int| #[trigger] cast_hit(ir, f, b, t)
}

/// Whether `b` is `a` with the first such cast removed: the unwrapped value
/// replaced by the wrapped one in its block.
pub open spec fn cast_step(a: IR, b: IR) -> bool {
    exists|fi: int, bi: int, ti: int| #[trigger] first_cast(a, fi, bi, ti) && same_but_block(a, b, fi, bi)
        && blk_replaced(blk_at(a, fi, bi), blk_at(b, fi, bi), blk_at(a, fi, bi).types.entries@[ti].0,
            cast_target(blk_at(a, fi, bi).stmts@, blk_at(a, fi, bi).types.entries@[ti].0)->0)
}

/// The first place where a value is unwrapped right after being wrapped,
/// and the value it can be replaced by.
fn find_cast(ir: &IR) -> (r: Option<(usize, usize, usize, ValueId)>)
    ensures
        r matches Some((f, b, t, v3)) ==> first_cast(*ir, f as int, b as int, t as int)
            && cast_target(blk_at(*ir, f as int, b as int).stmts@, blk_at(*ir, f as int, b as int).types.entries@[t as int].0) == Some(v3),
        r is None ==> !some_cast(*ir),
{
    let fs = &ir.fns.entries;
    let mut f: usize = 0;
    while f < fs.len()
        invariant
            f <= fs@.len(),
            *fs == ir.fns.entries,
            forall|f2: int, b2: int, t2: int| f2 < f ==> !#[trigger] cast_hit(*ir, f2, b2, t2),
        decreases fs.len() - f,
    {
        let bs = &fs[f].1.blocks.entries;
        let mut b: usize = 0;
        while b < bs.len()
            invariant
                f < fs@.len(),
                b <= bs@.len(),
                *fs == ir.fns.entries,
                *bs == fs@[f as int].1.blocks.entries,
                forall|f2: int, b2: int, t2: int| f2 < f ==> !#[trigger] cast_hit(*ir, f2, b2, t2),
                forall|b2: int, t2: int| b2 < b ==> !#[trigger] cast_hit(*ir, f as int, b2, t2),
            decreases bs.len() - b,
        {
            let bdef = &bs[b].1;
            let ts = &bdef.types.entries;
            let mut t: usize = 0;
            while t < ts.len()
                invariant
                    f < fs@.len(),
                    b < bs@.len(),
                    t <= ts@.len(),
                    *fs == ir.fns.entries,
                    *bs == fs@[f as int].1.blocks.entries,
                    *bdef == bs@[b as int].1,
                    *ts == bdef.types.entries,
                    forall|f2: int, b2: int, t2: int| f2 < f ==> !#[trigger] cast_hit(*ir, f2, b2, t2),
                    forall|b2: int, t2: int| b2 < b ==> !#[trigger] cast_hit(*ir, f as int, b2, t2),
                    forall|t2: int| t2 < t ==> !#[trigger] cast_hit(*ir, f as int, b as int, t2),
                decreases ts.len() - t,
            {
                let v = ts[t].0;
                let hit = match expr_of(v, bdef) {
                    Some(Expr::ValueToT(v2, ty)) => match expr_of(*v2, bdef) {
                        Some(Expr::TToValue(v3, ty2)) => if *ty == *ty2 { Some(*v3) } else { None },
                        _ => None,
                    },
                    _ => None,
                };
                assert(hit == cast_target(bdef.stmts@, v));
                match hit {
                    Some(v3) => {
                        proof {
                            assert(cast_hit(*ir, f as int, b as int, t as int));
                            assert forall|f2: int, b2: int, t2: int| lex_lt(f2, b2, t2, f as int, b as int, t as int) implies
                                !#[trigger] cast_hit(*ir, f2, b2, t2) by {
                                if f2 == f && b2 == b {
                                    assert(!cast_hit(*ir, f as int, b as int, t2));
                                } else if f2 == f {
                                    assert(!cast_hit(*ir, f as int, b2, t2));
                                }
                            }
                        }
                        return Some((f, b, t, v3));
                    },
                    None => {},
                }
                t = t + 1;
            }
            proof {
                assert forall|t2: int| #![trigger cast_hit(*ir, f as int, b as int, t2)] true implies !cast_hit(*ir, f as int, b as int, t2) by {
                    if 0 <= t2 < ts@.len() {
                    }
                }
            }
            b = b + 1;
        }
        f = f + 1;
    }
    None
}

/// Replaces the first value that unwraps a value just wrapped by the
/// wrapped value, and drops its computation; whether there was one.
pub fn optimize_cast_around(ir: &mut IR) -> (r: bool)
    ensures
        r == some_cast(*old(ir)),
        r ==> cast_step(*old(ir), *final(ir)),
        !r ==> *final(ir) == *old(ir),
{
    match find_cast(ir) {
        None => false,
        Some((f, b, t, v3)) => {
            let v = ir.fns.entries[f].1.blocks.entries[b].1.types.entries[t].0;
            proof {
                let s = blk_at(*ir, f as int, b as int).stmts@;
                let j = choose|j: int| first_def(s, v, j);
                assert(defines(s[j], v));
            }
            let ghost old_ir = *ir;
            replace_value_id(v, v3, &mut ir.fns.entries[f].1.blocks.entries[b].1);
            proof {
                assert(same_but_block(old_ir, *ir, f as int, b as int));
                assert(first_cast(old_ir, f as int, b as int, t as int));
                assert(some_cast(old_ir));
            }
            true
        },
    }
}

/// Whether statement `i` of block `bi` of function `fi` computes a value,
/// without other effect, that nothing in its block reads.
pub open spec fn unused_hit(ir: IR, fi: int, bi: int, i: int) -> bool {
    &&& valid_pos(ir, fi, bi)
    &&& 0 <= i < blk_at(ir, fi, bi).stmts@.len()
    &&& blk_at(ir, fi, bi).stmts@[i] matches Stmt::Compute(a, ex)
        && side_effect_free(ex) && !reads(blk_at(ir, fi, bi), a)
}

/// Whether `(fi, bi, i)` is the first such statement.
pub open spec fn first_unused(ir: IR, fi: int, bi: int, i: int) -> bool {
    &&& unused_hit(ir, fi, bi, i)
    &&& forall|f: int, b: int, j: int| lex_lt(f, b, j, fi, bi, i) ==> !#[trigger] unused_hit(ir, f, b, j)
}

/// Whether the program has such a statement.
pub open spec fn some_unused(ir: IR) -> bool {
    exists|f: int, b: int, i: int| #[trigger] unused_hit(ir, f, b, i)
}

/// Whether `b` is `a` with the first such statement removed.
pub open spec fn unused_step(a: IR, b: IR) -> bool {
    exists|fi: int, bi: int, i: int| #[trigger] first_unused(a, fi, bi, i) && same_but_block(a, b, fi, bi)
        && blk_at(b, fi, bi).stmts@ == blk_at(a, fi, bi).stmts@.remove(i)
        && blk_at(b, fi, bi).terminator == blk_at(a, fi, bi).terminator
        && blk_at(b, fi, bi).args == blk_at(a, fi, bi).args
        && blk_at(b, fi, bi).types == blk_at(a, fi, bi).types
}

fn find_unused(ir: &IR) -> (r: Option<(usize, usize, usize)>)
    ensures
        r matches Some((f, b, i)) ==> first_unused(*ir, f as int, b as int, i as int),
        r is None ==> !some_unused(*ir),
{
    let fs = &ir.fns.entries;
    let mut f: usize = 0;
    while f < fs.len()
        invariant
            f <= fs@.len(),
            *fs == ir.fns.entries,
            forall|f2: int, b2: int, j2: int| f2 < f ==> !#[trigger] unused_hit(*ir, f2, b2, j2),
        decreases fs.len() - f,
    {
        let bs = &fs[f].1.blocks.entries;
        let mut b: usize = 0;
        while b < bs.len()
            invariant
                f < fs@.len(),
                b <= bs@.len(),
                *fs == ir.fns.entries,
                *bs == fs@[f as int].1.blocks.entries,
                forall|f2: int, b2: int, j2: int| f2 < f ==> !#[trigger] unused_hit(*ir, f2, b2, j2),
                forall|b2: int, j2: int| b2 < b ==> !#[trigger] unused_hit(*ir, f as int, b2, j2),
            decreases bs.len() - b,
        {
            let bdef = &bs[b].1;
            let mut i: usize = 0;
            while i < bdef.stmts.len()
                invariant
                    f < fs@.len(),
                    b < bs@.len(),
                    i <= bdef.stmts@.len(),
                    *fs == ir.fns.entries,
                    *bs == fs@[f as int].1.blocks.entries,
                    *bdef == bs@[b as int].1,
                    forall|f2: int, b2: int, j2: int| f2 < f ==> !#[trigger] unused_hit(*ir, f2, b2, j2),
                    forall|b2: int, j2: int| b2 < b ==> !#[trigger] unused_hit(*ir, f as int, b2, j2),
                    forall|j2: int| j2 < i ==> !#[trigger] unused_hit(*ir, f as int, b as int, j2),
                decreases bdef.stmts.len() - i,
            {
                let hit = match &bdef.stmts[i] {
                    Stmt::Compute(a, ex) => is_side_effect_free(ex) && unused(*a, bdef),
                    _ => false,
                };
                assert(hit == unused_hit(*ir, f as int, b as int, i as int));
                if hit {
                    proof {
                        assert forall|f2: int, b2: int, j2: int| lex_lt(f2, b2, j2, f as int, b as int, i as int) implies
                            !#[trigger] unused_hit(*ir, f2, b2, j2) by {
                            if f2 == f && b2 == b {
                                assert(!unused_hit(*ir, f as int, b as int, j2));
                            } else if f2 == f {
                                assert(!unused_hit(*ir, f as int, b2, j2));
                            }
                        }
                    }
                    return Some((f, b, i));
                }
                i = i + 1;
            }
            b = b + 1;
        }
        f = f + 1;
    }
    None
}

/// Removes the first computation, without other effect, of a value that
/// nothing in its block reads; whether there was one.
pub fn optimize_unused_exprs(ir: &mut IR) -> (r: bool)
    ensures
        r == some_unused(*old(ir)),
        r ==> unused_step(*old(ir), *final(ir)),
        !r ==> *final(ir) == *old(ir),
{
    match find_unused(ir) {
        None => false,
        Some((f, b, i)) => {
            let ghost old_ir = *ir;
            ir.fns.entries[f].1.blocks.entries[b].1.stmts.remove(i);
            proof {
                assert(same_but_block(old_ir, *ir, f as int, b as int));
                assert(first_unused(old_ir, f as int, b as int, i as int));
                assert(some_unused(old_ir));
            }
            true
        },
    }
}

/// Applies one optimization: the first removable cast if there is one,
/// else the first removable unused computation; whether one applied.  Each
/// optimization that applies takes out one statement, so calling this until
/// it answers `false` stops after at most as many calls as the program has
/// statements.
pub fn optimize(ir: &mut IR) -> (r: bool)
    ensures
        r == (some_cast(*old(ir)) || some_unused(*old(ir))),
        some_cast(*old(ir)) ==> cast_step(*old(ir), *final(ir)),
        !some_cast(*old(ir)) && some_unused(*old(ir)) ==> unused_step(*old(ir), *final(ir)),
        !r ==> *final(ir) == *old(ir),
        r ==> stmt_count(*final(ir)) + 1 == stmt_count(*old(ir)),
{
    let ghost ir0 = *ir;
    if optimize_cast_around(ir) {
        proof {
            lemma_cast_step_count(ir0, *ir);
        }
        return true;
    }
    if optimize_unused_exprs(ir) {
        proof {
            lemma_unused_step_count(ir0, *ir);
        }
        return true;
    }
    false
}

/// The optimiser only drops what cannot matter.  A removed computation has
/// no effect (it calls no function, reads no input, unwraps no value and
/// indexes no list or dict) and nothing in its block reads its value.  A
/// replaced value unwraps, as type `t`, a value that wraps another value
/// `w` as the same type `t`, and `w` takes its place.
pub proof fn lemma_optimize_keeps_meaning(a: IR, b: IR)
    ensures
        unused_step(a, b) ==> exists|fi: int, bi: int, i: int| #![trigger blk_at(a, fi, bi).stmts@[i]] {
            &&& valid_pos(a, fi, bi)
            &&& 0 <= i < blk_at(a, fi, bi).stmts@.len()
            &&& blk_at(b, fi, bi).stmts@ == blk_at(a, fi, bi).stmts@.remove(i)
            &&& blk_at(a, fi, bi).stmts@[i] matches Stmt::Compute(v, ex) && !reads(blk_at(a, fi, bi), v)
                && !(ex is FnCall || ex is Input || ex is ValueToT || ex is IndexList || ex is IndexDict)
        },
        cast_step(a, b) ==> exists|fi: int, bi: int, v: ValueId, v2: ValueId|
            #![trigger def_of(blk_at(a, fi, bi).stmts@, v), def_of(blk_at(a, fi, bi).stmts@, v2)] {
            &&& valid_pos(a, fi, bi)
            &&& def_of(blk_at(a, fi, bi).stmts@, v) matches Some(Expr::ValueToT(v2b, t)) && v2b == v2
                && (def_of(blk_at(a, fi, bi).stmts@, v2) matches Some(Expr::TToValue(w, t2)) && t2 == t
                && blk_replaced(blk_at(a, fi, bi), blk_at(b, fi, bi), v, w))
        },
{
    if unused_step(a, b) {
        let (fi, bi, i) = choose|fi: int, bi: int, i: int| #[trigger] first_unused(a, fi, bi, i) && same_but_block(a, b, fi, bi)
            && blk_at(b, fi, bi).stmts@ == blk_at(a, fi, bi).stmts@.remove(i)
            && blk_at(b, fi, bi).terminator == blk_at(a, fi, bi).terminator
            && blk_at(b, fi, bi).args == blk_at(a, fi, bi).args
            && blk_at(b, fi, bi).types == blk_at(a, fi, bi).types;
        assert(0 <= i < blk_at(a, fi, bi).stmts@.len());
    }
    if cast_step(a, b) {
        let (fi, bi, ti) = choose|fi: int, bi: int, ti: int| #[trigger] first_cast(a, fi, bi, ti) && same_but_block(a, b, fi, bi)
            && blk_replaced(blk_at(a, fi, bi), blk_at(b, fi, bi), blk_at(a, fi, bi).types.entries@[ti].0,
                cast_target(blk_at(a, fi, bi).stmts@, blk_at(a, fi, bi).types.entries@[ti].0)->0);
        let s = blk_at(a, fi, bi).stmts@;
        let v = blk_at(a, fi, bi).types.entries@[ti].0;
        if let Some(Expr::ValueToT(v2, t)) = def_of(s, v) {
            if let Some(Expr::TToValue(w, t2)) = def_of(s, v2) {
                assert(t == t2);
                assert(def_of(blk_at(a, fi, bi).stmts@, v) == Some(Expr::ValueToT(v2, t)));
                assert(def_of(blk_at(a, fi, bi).stmts@, v2) == Some(Expr::TToValue(w, t)));
            }
        }
    }
}

/// The number of statements of the blocks `bs`.
pub open spec fn blocks_stmts(bs: Seq<(BlkId, BlkDef)>) -> nat
    decreases bs.len(),
{
    if bs.len() == 0 {
        0
    } else {
        blocks_stmts(bs.drop_last()) + bs.last().1.stmts@.len()
    }
}

/// The number of statements of the functions `fs`.
pub open spec fn fns_stmts(fs: Seq<(FnId, FnDef)>) -> nat
    decreases fs.len(),
{
    if fs.len() == 0 {
        0
    } else {
        fns_stmts(fs.drop_last()) + blocks_stmts(fs.last().1.blocks.entries@)
    }
}

/// The number of statements of the program, over all blocks of all
/// functions.
pub open spec fn stmt_count(ir: IR) -> nat {
    fns_stmts(ir.fns.entries@)
}

/// Blocks that agree but for one, which has one statement less, have one
/// statement less in all.
proof fn lemma_blocks_one_less(a: Seq<(BlkId, BlkDef)>, b: Seq<(BlkId, BlkDef)>, bi: int)
    requires
        a.len() == b.len(),
        0 <= bi < a.len(),
        forall|k: int| 0 <= k < a.len() && k != bi ==> #[trigger] b[k] == a[k],
        b[bi].1.stmts@.len() + 1 == a[bi].1.stmts@.len(),
    ensures
        blocks_stmts(b) + 1 == blocks_stmts(a),
    decreases a.len(),
{
    if bi == a.len() - 1 {
        assert(b.drop_last() =~= a.drop_last()) by {
            assert forall|k: int| 0 <= k < a.len() - 1 implies b.drop_last()[k] == a.drop_last()[k] by {
                assert(b[k] == a[k]);
            }
        }
    } else {
        assert forall|k: int| 0 <= k < a.len() - 1 && k != bi implies #[trigger] b.drop_last()[k] == a.drop_last()[k] by {
            assert(b[k] == a[k]);
        }
        lemma_blocks_one_less(a.drop_last(), b.drop_last(), bi);
        assert(b[a.len() - 1] == a[a.len() - 1]);
    }
}

/// Functions that agree but for one, which has one statement less, have one
/// statement less in all.
proof fn lemma_fns_one_less(a: Seq<(FnId, FnDef)>, b: Seq<(FnId, FnDef)>, fi: int)
    requires
        a.len() == b.len(),
        0 <= fi < a.len(),
        forall|k: int| 0 <= k < a.len() && k != fi ==> #[trigger] b[k] == a[k],
        blocks_stmts(b[fi].1.blocks.entries@) + 1 == blocks_stmts(a[fi].1.blocks.entries@),
    ensures
        fns_stmts(b) + 1 == fns_stmts(a),
    decreases a.len(),
{
    if fi == a.len() - 1 {
        assert(b.drop_last() =~= a.drop_last()) by {
            assert forall|k: int| 0 <= k < a.len() - 1 implies b.drop_last()[k] == a.drop_last()[k] by {
                assert(b[k] == a[k]);
            }
        }
    } else {
        assert forall|k: int| 0 <= k < a.len() - 1 && k != fi implies #[trigger] b.drop_last()[k] == a.drop_last()[k] by {
            assert(b[k] == a[k]);
        }
        lemma_fns_one_less(a.drop_last(), b.drop_last(), fi);
        assert(b[a.len() - 1] == a[a.len() - 1]);
    }
}

/// Changing one block to one with a statement less leaves the program with
/// a statement less.
proof fn lemma_block_count(a: IR, b: IR, fi: int, bi: int)
    requires
        same_but_block(a, b, fi, bi),
        blk_at(b, fi, bi).stmts@.len() + 1 == blk_at(a, fi, bi).stmts@.len(),
    ensures
        stmt_count(b) + 1 == stmt_count(a),
{
    let ba = a.fns.entries@[fi].1.blocks.entries@;
    let bb = b.fns.entries@[fi].1.blocks.entries@;
    lemma_blocks_one_less(ba, bb, bi);
    lemma_fns_one_less(a.fns.entries@, b.fns.entries@, fi);
}

/// Removing a cast takes out one statement.
proof fn lemma_cast_step_count(a: IR, b: IR)
    requires
        cast_step(a, b),
    ensures
        stmt_count(b) + 1 == stmt_count(a),
{
    let (fi, bi, ti) = choose|fi: int, bi: int, ti: int| #[trigger] first_cast(a, fi, bi, ti) && same_but_block(a, b, fi, bi)
        && blk_replaced(blk_at(a, fi, bi), blk_at(b, fi, bi), blk_at(a, fi, bi).types.entries@[ti].0,
            cast_target(blk_at(a, fi, bi).stmts@, blk_at(a, fi, bi).types.entries@[ti].0)->0);
    lemma_block_count(a, b, fi, bi);
}

/// Removing an unused computation takes out one statement.
proof fn lemma_unused_step_count(a: IR, b: IR)
    requires
        unused_step(a, b),
    ensures
        stmt_count(b) + 1 == stmt_count(a),
{
    let (fi, bi, i) = choose|fi: int, bi: int, i: int| #[trigger] first_unused(a, fi, bi, i) && same_but_block(a, b, fi, bi)
        && blk_at(b, fi, bi).stmts@ == blk_at(a, fi, bi).stmts@.remove(i)
        && blk_at(b, fi, bi).terminator == blk_at(a, fi, bi).terminator
        && blk_at(b, fi, bi).args == blk_at(a, fi, bi).args
        && blk_at(b, fi, bi).types == blk_at(a, fi, bi).types;
    lemma_block_count(a, b, fi, bi);
}

/// A place an abstract interpretation tracks.
#[derive(Clone, Copy, PartialEq, Eq, Structural)]
pub enum AiLocation {
    Local(ValueId),
    Global(crate::ir::GlobalId),
    Ret(crate::ir::FnId),
}

impl crate::assoc::Key for AiLocation {
    fn same(&self, other: &Self) -> (r: bool) {
        *self == *other
    }
}

/// What kinds of values may be at a place.
pub struct AbstractValue {
    pub string: bool,
    pub int: bool,
    pub nil: bool,
    pub fns: Vec<crate::ir::FnId>,
    pub dict: bool,
    pub list: bool,
}

/// The state of an abstract interpretation.
pub type AIState = crate::assoc::AssocMap<AiLocation, AbstractValue>;

/// Whether the start block of the start function exists and has no
/// statements: the only programs the interpretation handles so far.
pub open spec fn ai_ready(ir: IR) -> bool {
    &&& ir.fns.wf()
    &&& ir.fns.view().contains_key(ir.start)
    &&& ir.fns.view()[ir.start].blocks.wf()
    &&& ir.fns.view()[ir.start].blocks.view().contains_key(ir.fns.view()[ir.start].start)
    &&& ir.fns.view()[ir.start].blocks.view()[ir.fns.view()[ir.start].start].stmts@.len() == 0
}

/// Runs the abstract interpretation from the start block of the start
/// function; it records nothing for a start block without statements.
pub fn abstract_interpretation(ir: &IR) -> (r: AIState)
    requires
        ai_ready(*ir),
    ensures
        r.wf(),
        r.entries@.len() == 0,
{
    let mut state: AIState = crate::assoc::AssocMap::new();
    let fstart = ir.start;
    let fdef = ir.fns.get(&fstart).unwrap();
    let bstart = fdef.start;
    ai_run(bstart, fstart, ir, &mut state);
    state
}

/// Interprets block `bid` of function `fid`, which has no statements.
fn ai_run(bid: crate::ir::BlkId, fid: crate::ir::FnId, ir: &IR, state: &mut AIState)
    requires
        ir.fns.wf(),
        ir.fns.view().contains_key(fid),
        ir.fns.view()[fid].blocks.wf(),
        ir.fns.view()[fid].blocks.view().contains_key(bid),
        ir.fns.view()[fid].blocks.view()[bid].stmts@.len() == 0,
    ensures
        *final(state) == *old(state),
{
    let fdef = ir.fns.get(&fid).unwrap();
    let bdef = fdef.blocks.get(&bid).unwrap();
    assert(bdef.stmts@.len() == 0);
}

} // verus!
