use vstd::prelude::*;
use crate::analysis::{
    Lat, Location, call_effect, ctx_le, infer_body, infer_expr, infer_exprs, infer_fns, infer_round,
    infer_stmt, is_analysis, iterate, lat_bot, lat_le, lat_merge, push_args, sadd, sget,
};
use crate::ast::{AST, Expr, FnId, Stmt};
use crate::fnset::lemma_merge_ids_contains;
use crate::nameres::Nameres;
use crate::analysis::lat_allows;
use crate::interp::{St, Val, eval_spec};
use crate::symbol::Symbol;

verus! {

// The analysis step is monotone: a context that records more gives a
// context that records more.  Hence the analysis, which iterates the step
// from the empty context, ends at the least context the step leaves
// unchanged.

/// A join is above both of its sides.
proof fn lemma_le_merge(x: Lat, y: Lat)
    ensures
        lat_le(x, lat_merge(x, y)),
        lat_le(y, lat_merge(x, y)),
{
    lemma_merge_ids_contains(x.fns, y.fns);
}

/// A join is below every common upper bound of its sides.
proof fn lemma_merge_le(x: Lat, y: Lat, z: Lat)
    requires
        lat_le(x, z),
        lat_le(y, z),
    ensures
        lat_le(lat_merge(x, y), z),
{
    lemma_merge_ids_contains(x.fns, y.fns);
}

/// The order of the lattice is transitive.
proof fn lemma_le_trans(x: Lat, y: Lat, z: Lat)
    requires
        lat_le(x, y),
        lat_le(y, z),
    ensures
        lat_le(x, z),
{
    assert forall|f: FnId| #[trigger] x.fns.contains(f) implies z.fns.contains(f) by {
        assert(y.fns.contains(f));
    }
}

/// The order of contexts is transitive.
proof fn lemma_ctx_trans(a: Map<Location, Lat>, b: Map<Location, Lat>, c: Map<Location, Lat>)
    requires
        ctx_le(a, b),
        ctx_le(b, c),
    ensures
        ctx_le(a, c),
{
    assert forall|l: Location| #[trigger] a.contains_key(l) implies c.contains_key(l) && lat_le(a[l], c[l]) by {
        lemma_le_trans(a[l], b[l], c[l]);
    }
}

/// Reading a context that records more reads more.
proof fn lemma_sget_mono(c: Map<Location, Lat>, d: Map<Location, Lat>, l: Location)
    requires
        ctx_le(c, d),
    ensures
        lat_le(sget(c, l), sget(d, l)),
{
}

/// Joining more into a context that records more records more.
proof fn lemma_sadd_mono(c: Map<Location, Lat>, d: Map<Location, Lat>, l: Location, t: Lat, u: Lat)
    requires
        ctx_le(c, d),
        lat_le(t, u),
    ensures
        ctx_le(sadd(c, l, t), sadd(d, l, u)),
{
    lemma_sget_mono(c, d, l);
    lemma_le_merge(u, sget(d, l));
    lemma_le_trans(t, u, lat_merge(u, sget(d, l)));
    lemma_le_trans(sget(c, l), sget(d, l), lat_merge(u, sget(d, l)));
    lemma_merge_le(t, sget(c, l), lat_merge(u, sget(d, l)));
}

/// Joining into a context only adds to it, and records the joined value.
proof fn lemma_sadd_grows(c: Map<Location, Lat>, l: Location, t: Lat)
    ensures
        ctx_le(c, sadd(c, l, t)),
        sadd(c, l, t).contains_key(l),
        lat_le(t, sadd(c, l, t)[l]),
{
    lemma_le_merge(t, sget(c, l));
    assert forall|k: Location| #[trigger] c.contains_key(k) implies sadd(c, l, t).contains_key(k)
        && lat_le(c[k], sadd(c, l, t)[k]) by {
        if k == l {
            assert(sget(c, l) == c[k]);
        }
    }
}

/// Joining a value below what `e` records at `l` into a context below `e`
/// stays below `e`.
proof fn lemma_sadd_below(c: Map<Location, Lat>, e: Map<Location, Lat>, l: Location, t: Lat)
    requires
        ctx_le(c, e),
        e.contains_key(l),
        lat_le(t, e[l]),
    ensures
        ctx_le(sadd(c, l, t), e),
{
    lemma_sget_mono(c, e, l);
    lemma_merge_le(t, sget(c, l), e[l]);
}


/// The location of parameter `k` of function `cal`.
pub open spec fn param_loc(ast: AST, cal: FnId, k: int) -> Location {
    Location::Var(cal, ast.fns@[cal as int].args@[k])
}

/// Whether `e` records, at each parameter `k` of `cal`, at least `ls[k]`.
pub open spec fn args_below(ast: AST, cal: FnId, ls: Seq<Lat>, e: Map<Location, Lat>) -> bool {
    forall|k: int| 0 <= k < ls.len() ==> e.contains_key(#[trigger] param_loc(ast, cal, k))
        && lat_le(ls[k], e[param_loc(ast, cal, k)])
}

/// What is recorded at parameters stays recorded in a context above.
proof fn lemma_args_below_mono(ast: AST, cal: FnId, ls: Seq<Lat>, c: Map<Location, Lat>, e: Map<Location, Lat>)
    requires
        args_below(ast, cal, ls, c),
        ctx_le(c, e),
    ensures
        args_below(ast, cal, ls, e),
{
    assert forall|k: int| 0 <= k < ls.len() implies e.contains_key(#[trigger] param_loc(ast, cal, k))
        && lat_le(ls[k], e[param_loc(ast, cal, k)]) by {
        let l = param_loc(ast, cal, k);
        lemma_le_trans(ls[k], c[l], e[l]);
    }
}

/// Passing arguments only adds to the context, records each argument at its
/// parameter, and leaves return values alone.
proof fn lemma_push_grows(ast: AST, cal: FnId, ls: Seq<Lat>, c: Map<Location, Lat>)
    requires
        ls.len() <= ast.fns@[cal as int].args@.len(),
    ensures
        ctx_le(c, push_args(cal, ast.fns@[cal as int].args@, ls, c)),
        args_below(ast, cal, ls, push_args(cal, ast.fns@[cal as int].args@, ls, c)),
        forall|f: FnId| #[trigger] sget(push_args(cal, ast.fns@[cal as int].args@, ls, c), Location::RetVal(f))
            == sget(c, Location::RetVal(f)),
    decreases ls.len(),
{
    let ps = ast.fns@[cal as int].args@;
    if ls.len() > 0 {
        let k = ls.len() - 1;
        let p = ls.drop_last();
        lemma_push_grows(ast, cal, p, c);
        let c0 = push_args(cal, ps, p, c);
        let l = Location::Var(cal, ps[k]);
        assert(push_args(cal, ps, ls, c) == sadd(c0, l, ls[k]));
        lemma_sadd_grows(c0, l, ls[k]);
        lemma_ctx_trans(c, c0, sadd(c0, l, ls[k]));
        lemma_args_below_mono(ast, cal, p, c0, sadd(c0, l, ls[k]));
        assert forall|j: int| 0 <= j < ls.len() implies sadd(c0, l, ls[k]).contains_key(#[trigger] param_loc(ast, cal, j))
            && lat_le(ls[j], sadd(c0, l, ls[k])[param_loc(ast, cal, j)]) by {
            if j < k {
                assert(p[j] == ls[j]);
            }
        }
        assert forall|f: FnId| #[trigger] sget(sadd(c0, l, ls[k]), Location::RetVal(f)) == sget(c, Location::RetVal(f)) by {
            assert(sget(c0, Location::RetVal(f)) == sget(c, Location::RetVal(f)));
        }
    }
}

/// Passing arguments into a context below `e` stays below `e` when `e`
/// already records them at the parameters.
proof fn lemma_push_below(ast: AST, cal: FnId, ls: Seq<Lat>, c: Map<Location, Lat>, e: Map<Location, Lat>)
    requires
        ls.len() <= ast.fns@[cal as int].args@.len(),
        ctx_le(c, e),
        args_below(ast, cal, ls, e),
    ensures
        ctx_le(push_args(cal, ast.fns@[cal as int].args@, ls, c), e),
    decreases ls.len(),
{
    let ps = ast.fns@[cal as int].args@;
    if ls.len() > 0 {
        let k = ls.len() - 1;
        let p = ls.drop_last();
        assert(args_below(ast, cal, p, e)) by {
            assert forall|j: int| 0 <= j < p.len() implies e.contains_key(#[trigger] param_loc(ast, cal, j))
                && lat_le(p[j], e[param_loc(ast, cal, j)]) by {
                assert(p[j] == ls[j]);
            }
        }
        lemma_push_below(ast, cal, p, c, e);
        let c0 = push_args(cal, ps, p, c);
        let l = param_loc(ast, cal, k);
        assert(e.contains_key(l) && lat_le(ls[k], e[l]));
        lemma_sadd_below(c0, e, l, ls[k]);
    }
}

/// What a call adds: the context grows, every matching callee records the
/// arguments at its parameters, and the value of the call is above the
/// return value of every matching callee.
proof fn lemma_call_grows(ast: AST, ds: Seq<FnId>, ls: Seq<Lat>, d: Map<Location, Lat>, r0: Lat)
    ensures
        ctx_le(d, call_effect(ast, ds, ls, d, r0).1),
        lat_le(r0, call_effect(ast, ds, ls, d, r0).0),
        forall|cal: FnId| #![trigger ds.contains(cal)] ds.contains(cal) && ast.fns@[cal as int].args@.len() == ls.len() ==>
            args_below(ast, cal, ls, call_effect(ast, ds, ls, d, r0).1)
            && lat_le(sget(d, Location::RetVal(cal)), call_effect(ast, ds, ls, d, r0).0),
    decreases ds.len(),
{
    let (r, e) = call_effect(ast, ds, ls, d, r0);
    if ds.len() == 0 {
        assert forall|l: Location| #[trigger] d.contains_key(l) implies e.contains_key(l) && lat_le(d[l], e[l]) by {}
    } else {
        let cal = ds[0];
        let rest = ds.drop_first();
        let ps = ast.fns@[cal as int].args@;
        if ps.len() != ls.len() {
            lemma_call_grows(ast, rest, ls, d, r0);
            assert forall|x: FnId| #![trigger ds.contains(x)] ds.contains(x) && ast.fns@[x as int].args@.len() == ls.len() implies
                args_below(ast, x, ls, e) && lat_le(sget(d, Location::RetVal(x)), r) by {
                let j = choose|j: int| 0 <= j < ds.len() && ds[j] == x;
                assert(j != 0);
                assert(rest[j - 1] == x);
                assert(rest.contains(x));
            }
        } else {
            let c1 = push_args(cal, ps, ls, d);
            lemma_push_grows(ast, cal, ls, d);
            let r1 = lat_merge(r0, sget(c1, Location::RetVal(cal)));
            lemma_le_merge(r0, sget(c1, Location::RetVal(cal)));
            lemma_call_grows(ast, rest, ls, c1, r1);
            lemma_ctx_trans(d, c1, e);
            lemma_le_trans(r0, r1, r);
            lemma_args_below_mono(ast, cal, ls, c1, e);
            lemma_le_trans(sget(c1, Location::RetVal(cal)), r1, r);
            assert forall|x: FnId| #![trigger ds.contains(x)] ds.contains(x) && ast.fns@[x as int].args@.len() == ls.len() implies
                args_below(ast, x, ls, e) && lat_le(sget(d, Location::RetVal(x)), r) by {
                if x != cal {
                    let j = choose|j: int| 0 <= j < ds.len() && ds[j] == x;
                    assert(rest[j - 1] == x);
                    assert(rest.contains(x));
                    assert(sget(c1, Location::RetVal(x)) == sget(d, Location::RetVal(x)));
                }
            }
        }
    }
}

/// A call from a context below `e` stays below `e` when `e` records the
/// arguments at the parameters of every matching callee, and its value is
/// below `rt` when `rt` is above the return values of the matching callees.
proof fn lemma_call_below(ast: AST, cs: Seq<FnId>, ls: Seq<Lat>, c: Map<Location, Lat>, r0: Lat, e: Map<Location, Lat>, rt: Lat)
    requires
        ctx_le(c, e),
        lat_le(r0, rt),
        forall|cal: FnId| #![trigger cs.contains(cal)] cs.contains(cal) && ast.fns@[cal as int].args@.len() == ls.len() ==>
            args_below(ast, cal, ls, e) && lat_le(sget(c, Location::RetVal(cal)), rt),
    ensures
        ctx_le(call_effect(ast, cs, ls, c, r0).1, e),
        lat_le(call_effect(ast, cs, ls, c, r0).0, rt),
    decreases cs.len(),
{
    if cs.len() > 0 {
        let cal = cs[0];
        let rest = cs.drop_first();
        let ps = ast.fns@[cal as int].args@;
        assert forall|x: FnId| #![trigger rest.contains(x)] rest.contains(x) implies cs.contains(x) by {
            let j = choose|j: int| 0 <= j < rest.len() && rest[j] == x;
            assert(cs[j + 1] == x);
        }
        assert(cs.contains(cal)) by {
            assert(cs[0] == cal);
        }
        if ps.len() != ls.len() {
            lemma_call_below(ast, rest, ls, c, r0, e, rt);
        } else {
            let c1 = push_args(cal, ps, ls, c);
            lemma_push_below(ast, cal, ls, c, e);
            lemma_push_grows(ast, cal, ls, c);
            let r1 = lat_merge(r0, sget(c1, Location::RetVal(cal)));
            lemma_merge_le(r0, sget(c1, Location::RetVal(cal)), rt);
            assert forall|x: FnId| #![trigger rest.contains(x)] rest.contains(x) && ast.fns@[x as int].args@.len() == ls.len() implies
                args_below(ast, x, ls, e) && lat_le(sget(c1, Location::RetVal(x)), rt) by {
                assert(cs.contains(x));
            }
            lemma_call_below(ast, rest, ls, c1, r1, e, rt);
        }
    }
}


/// Whether each of `a` is below the value at its position in `b`.
pub open spec fn lats_le(a: Seq<Lat>, b: Seq<Lat>) -> bool {
    &&& a.len() == b.len()
    &&& forall|i: int| 0 <= i < a.len() ==> lat_le(#[trigger] a[i], b[i])
}

/// Smaller arguments are recorded where larger ones are.
proof fn lemma_args_below_lower(ast: AST, cal: FnId, a: Seq<Lat>, b: Seq<Lat>, e: Map<Location, Lat>)
    requires
        lats_le(a, b),
        args_below(ast, cal, b, e),
    ensures
        args_below(ast, cal, a, e),
{
    assert forall|k: int| 0 <= k < a.len() implies e.contains_key(#[trigger] param_loc(ast, cal, k))
        && lat_le(a[k], e[param_loc(ast, cal, k)]) by {
        lemma_le_trans(a[k], b[k], e[param_loc(ast, cal, k)]);
    }
}

/// The analysis step of an expression is monotone.
proof fn lemma_expr_mono(ast: AST, nr: Nameres, fid: int, e: Expr, c: Map<Location, Lat>, d: Map<Location, Lat>)
    requires
        ctx_le(c, d),
    ensures
        lat_le(infer_expr(ast, nr, fid, e, c).0, infer_expr(ast, nr, fid, e, d).0),
        ctx_le(infer_expr(ast, nr, fid, e, c).1, infer_expr(ast, nr, fid, e, d).1),
    decreases e,
{
    match e {
        Expr::Length(l) => {
            lemma_expr_mono(ast, nr, fid, *l, c, d);
        },
        Expr::IndexList(l, i) | Expr::IndexDict(l, i) | Expr::BinOp(_, l, i) => {
            lemma_expr_mono(ast, nr, fid, *l, c, d);
            let c1 = infer_expr(ast, nr, fid, *l, c).1;
            let d1 = infer_expr(ast, nr, fid, *l, d).1;
            lemma_expr_mono(ast, nr, fid, *i, c1, d1);
            let c2 = infer_expr(ast, nr, fid, *i, c1).1;
            let d2 = infer_expr(ast, nr, fid, *i, d1).1;
            lemma_sget_mono(c2, d2, Location::ListItem);
            lemma_sget_mono(c2, d2, Location::DictValue);
        },
        Expr::FnCall(f, args) => {
            lemma_expr_mono(ast, nr, fid, *f, c, d);
            let (flc, c1) = infer_expr(ast, nr, fid, *f, c);
            let (fld, d1) = infer_expr(ast, nr, fid, *f, d);
            lemma_exprs_mono(ast, nr, fid, args@, c1, d1);
            let (alc, c2) = infer_exprs(ast, nr, fid, args@, c1);
            let (ald, d2) = infer_exprs(ast, nr, fid, args@, d1);
            let (rd, ed) = call_effect(ast, fld.fns, ald, d2, lat_bot());
            lemma_call_grows(ast, fld.fns, ald, d2, lat_bot());
            lemma_ctx_trans(c2, d2, ed);
            assert forall|cal: FnId| #![trigger flc.fns.contains(cal)] flc.fns.contains(cal) && ast.fns@[cal as int].args@.len() == alc.len() implies
                args_below(ast, cal, alc, ed) && lat_le(sget(c2, Location::RetVal(cal)), rd) by {
                assert(fld.fns.contains(cal));
                lemma_args_below_lower(ast, cal, alc, ald, ed);
                lemma_sget_mono(c2, d2, Location::RetVal(cal));
                lemma_le_trans(sget(c2, Location::RetVal(cal)), sget(d2, Location::RetVal(cal)), rd);
            }
            lemma_call_below(ast, flc.fns, alc, c2, lat_bot(), ed, rd);
        },
        Expr::Var(v) => {
            lemma_sget_mono(c, d, crate::analysis::var_loc(nr, fid, v));
        },
        _ => {},
    }
}

/// The analysis step of a list of expressions is monotone.
proof fn lemma_exprs_mono(ast: AST, nr: Nameres, fid: int, es: Seq<Expr>, c: Map<Location, Lat>, d: Map<Location, Lat>)
    requires
        ctx_le(c, d),
    ensures
        lats_le(infer_exprs(ast, nr, fid, es, c).0, infer_exprs(ast, nr, fid, es, d).0),
        ctx_le(infer_exprs(ast, nr, fid, es, c).1, infer_exprs(ast, nr, fid, es, d).1),
    decreases es,
{
    if es.len() > 0 {
        lemma_exprs_mono(ast, nr, fid, es.drop_last(), c, d);
        let (lc, c1) = infer_exprs(ast, nr, fid, es.drop_last(), c);
        let (ld, d1) = infer_exprs(ast, nr, fid, es.drop_last(), d);
        lemma_expr_mono(ast, nr, fid, es.last(), c1, d1);
        let (xc, c2) = infer_expr(ast, nr, fid, es.last(), c1);
        let (xd, d2) = infer_expr(ast, nr, fid, es.last(), d1);
        assert forall|i: int| 0 <= i < lc.push(xc).len() implies lat_le(#[trigger] lc.push(xc)[i], ld.push(xd)[i]) by {
            if i < lc.len() {
                assert(lc.push(xc)[i] == lc[i]);
                assert(ld.push(xd)[i] == ld[i]);
            }
        }
    }
}

/// The analysis step of a statement is monotone.
proof fn lemma_stmt_mono(ast: AST, nr: Nameres, fid: int, s: Stmt, c: Map<Location, Lat>, d: Map<Location, Lat>)
    requires
        ctx_le(c, d),
    ensures
        ctx_le(infer_stmt(ast, nr, fid, s, c), infer_stmt(ast, nr, fid, s, d)),
    decreases s,
{
    match s {
        Stmt::Global(_) => {},
        Stmt::ListStore(l, i, v) => {
            lemma_expr_mono(ast, nr, fid, l, c, d);
            let c1 = infer_expr(ast, nr, fid, l, c).1;
            let d1 = infer_expr(ast, nr, fid, l, d).1;
            lemma_expr_mono(ast, nr, fid, i, c1, d1);
            let c2 = infer_expr(ast, nr, fid, i, c1).1;
            let d2 = infer_expr(ast, nr, fid, i, d1).1;
            lemma_expr_mono(ast, nr, fid, v, c2, d2);
            let (vc, c3) = infer_expr(ast, nr, fid, v, c2);
            let (vd, d3) = infer_expr(ast, nr, fid, v, d2);
            lemma_sadd_mono(c3, d3, Location::ListItem, vc, vd);
        },
        Stmt::Push(l, v) => {
            lemma_expr_mono(ast, nr, fid, l, c, d);
            let c1 = infer_expr(ast, nr, fid, l, c).1;
            let d1 = infer_expr(ast, nr, fid, l, d).1;
            lemma_expr_mono(ast, nr, fid, v, c1, d1);
            let (vc, c2) = infer_expr(ast, nr, fid, v, c1);
            let (vd, d2) = infer_expr(ast, nr, fid, v, d1);
            lemma_sadd_mono(c2, d2, Location::ListItem, vc, vd);
        },
        Stmt::DictStore(t, k, v) => {
            lemma_expr_mono(ast, nr, fid, t, c, d);
            let c1 = infer_expr(ast, nr, fid, t, c).1;
            let d1 = infer_expr(ast, nr, fid, t, d).1;
            lemma_expr_mono(ast, nr, fid, k, c1, d1);
            let (kc, c2) = infer_expr(ast, nr, fid, k, c1);
            let (kd, d2) = infer_expr(ast, nr, fid, k, d1);
            lemma_expr_mono(ast, nr, fid, v, c2, d2);
            let (vc, c3) = infer_expr(ast, nr, fid, v, c2);
            let (vd, d3) = infer_expr(ast, nr, fid, v, d2);
            lemma_sadd_mono(c3, d3, Location::DictKey, kc, kd);
            lemma_sadd_mono(sadd(c3, Location::DictKey, kc), sadd(d3, Location::DictKey, kd), Location::DictValue, vc, vd);
        },
        Stmt::Assign(x, e) => {
            lemma_expr_mono(ast, nr, fid, e, c, d);
            let (rc, c1) = infer_expr(ast, nr, fid, e, c);
            let (rd, d1) = infer_expr(ast, nr, fid, e, d);
            lemma_sadd_mono(c1, d1, crate::analysis::var_loc(nr, fid, x), rc, rd);
        },
        Stmt::Return(e) => {
            lemma_expr_mono(ast, nr, fid, e, c, d);
            let (rc, c1) = infer_expr(ast, nr, fid, e, c);
            let (rd, d1) = infer_expr(ast, nr, fid, e, d);
            lemma_sadd_mono(c1, d1, Location::RetVal(fid as FnId), rc, rd);
        },
        Stmt::If(cond, t, f) => {
            lemma_expr_mono(ast, nr, fid, cond, c, d);
            let c1 = infer_expr(ast, nr, fid, cond, c).1;
            let d1 = infer_expr(ast, nr, fid, cond, d).1;
            lemma_body_mono(ast, nr, fid, t@, c1, d1);
            lemma_body_mono(ast, nr, fid, f@, infer_body(ast, nr, fid, t@, c1), infer_body(ast, nr, fid, t@, d1));
        },
        Stmt::While(cond, b) => {
            lemma_expr_mono(ast, nr, fid, cond, c, d);
            let c1 = infer_expr(ast, nr, fid, cond, c).1;
            let d1 = infer_expr(ast, nr, fid, cond, d).1;
            lemma_body_mono(ast, nr, fid, b@, c1, d1);
        },
        Stmt::Print(e) => {
            lemma_expr_mono(ast, nr, fid, e, c, d);
        },
    }
}

/// The analysis step of a statement list is monotone.
proof fn lemma_body_mono(ast: AST, nr: Nameres, fid: int, b: Seq<Stmt>, c: Map<Location, Lat>, d: Map<Location, Lat>)
    requires
        ctx_le(c, d),
    ensures
        ctx_le(infer_body(ast, nr, fid, b, c), infer_body(ast, nr, fid, b, d)),
    decreases b,
{
    if b.len() > 0 {
        lemma_body_mono(ast, nr, fid, b.drop_last(), c, d);
        lemma_stmt_mono(ast, nr, fid, b.last(), infer_body(ast, nr, fid, b.drop_last(), c), infer_body(ast, nr, fid, b.drop_last(), d));
    }
}

/// One analysis step over the first `k` functions is monotone.
proof fn lemma_fns_mono(ast: AST, nr: Nameres, k: nat, c: Map<Location, Lat>, d: Map<Location, Lat>)
    requires
        ctx_le(c, d),
    ensures
        ctx_le(infer_fns(ast, nr, k, c), infer_fns(ast, nr, k, d)),
    decreases k,
{
    if k > 0 {
        lemma_fns_mono(ast, nr, (k - 1) as nat, c, d);
        let f = (k - 1) as int;
        lemma_body_mono(ast, nr, f, ast.fns@[f].body@, infer_fns(ast, nr, (k - 1) as nat, c), infer_fns(ast, nr, (k - 1) as nat, d));
    }
}

/// The contexts the analysis goes through stay below every context that an
/// analysis round leaves unchanged.
proof fn lemma_iterate_below(ast: AST, nr: Nameres, k: nat, m: Map<Location, Lat>)
    requires
        infer_round(ast, nr, m) == m,
    ensures
        ctx_le(iterate(ast, nr, k), m),
    decreases k,
{
    if k > 0 {
        lemma_iterate_below(ast, nr, (k - 1) as nat, m);
        lemma_fns_mono(ast, nr, ast.fns@.len() as nat, iterate(ast, nr, (k - 1) as nat), m);
    }
}

/// The analysis step is monotone: from a context that records more, one
/// round records more.
pub proof fn lemma_round_mono(ast: AST, nr: Nameres, c: Map<Location, Lat>, d: Map<Location, Lat>)
    requires
        ctx_le(c, d),
    ensures
        ctx_le(infer_round(ast, nr, c), infer_round(ast, nr, d)),
{
    lemma_fns_mono(ast, nr, ast.fns@.len() as nat, c, d);
}

/// What `analyze` computes is the least context an analysis round leaves
/// unchanged: every such context records at least as much at every
/// location.
pub proof fn lemma_analysis_least(ast: AST, nr: Nameres, a: Map<Location, Lat>, m: Map<Location, Lat>)
    requires
        is_analysis(ast, nr, a),
        infer_round(ast, nr, m) == m,
    ensures
        ctx_le(a, m),
{
    let k = choose|k: nat| #[trigger] iterate(ast, nr, k) == a;
    lemma_iterate_below(ast, nr, k, m);
}


/// The order of contexts is reflexive.
proof fn lemma_ctx_refl(c: Map<Location, Lat>)
    ensures
        ctx_le(c, c),
{
}

/// The analysis step of an expression only adds to the context.
proof fn lemma_expr_grows(ast: AST, nr: Nameres, fid: int, e: Expr, c: Map<Location, Lat>)
    ensures
        ctx_le(c, infer_expr(ast, nr, fid, e, c).1),
    decreases e,
{
    match e {
        Expr::Length(l) => {
            lemma_expr_grows(ast, nr, fid, *l, c);
        },
        Expr::IndexList(l, i) | Expr::IndexDict(l, i) | Expr::BinOp(_, l, i) => {
            lemma_expr_grows(ast, nr, fid, *l, c);
            let c1 = infer_expr(ast, nr, fid, *l, c).1;
            lemma_expr_grows(ast, nr, fid, *i, c1);
            lemma_ctx_trans(c, c1, infer_expr(ast, nr, fid, *i, c1).1);
        },
        Expr::FnCall(f, args) => {
            lemma_expr_grows(ast, nr, fid, *f, c);
            let (fl, c1) = infer_expr(ast, nr, fid, *f, c);
            lemma_exprs_grows(ast, nr, fid, args@, c1);
            let (al, c2) = infer_exprs(ast, nr, fid, args@, c1);
            lemma_call_grows(ast, fl.fns, al, c2, lat_bot());
            lemma_ctx_trans(c, c1, c2);
            lemma_ctx_trans(c, c2, call_effect(ast, fl.fns, al, c2, lat_bot()).1);
        },
        _ => {
            lemma_ctx_refl(c);
        },
    }
}

/// The analysis step of a list of expressions only adds to the context.
proof fn lemma_exprs_grows(ast: AST, nr: Nameres, fid: int, es: Seq<Expr>, c: Map<Location, Lat>)
    ensures
        ctx_le(c, infer_exprs(ast, nr, fid, es, c).1),
    decreases es,
{
    if es.len() == 0 {
        lemma_ctx_refl(c);
    } else {
        lemma_exprs_grows(ast, nr, fid, es.drop_last(), c);
        let c1 = infer_exprs(ast, nr, fid, es.drop_last(), c).1;
        lemma_expr_grows(ast, nr, fid, es.last(), c1);
        lemma_ctx_trans(c, c1, infer_expr(ast, nr, fid, es.last(), c1).1);
    }
}

/// The analysis step of a statement never loses information: every
/// location recorded before is recorded after, with at least as much.
pub proof fn lemma_stmt_grows(ast: AST, nr: Nameres, fid: int, s: Stmt, c: Map<Location, Lat>)
    ensures
        ctx_le(c, infer_stmt(ast, nr, fid, s, c)),
    decreases s,
{
    match s {
        Stmt::Global(_) => {
            lemma_ctx_refl(c);
        },
        Stmt::ListStore(l, i, v) => {
            lemma_expr_grows(ast, nr, fid, l, c);
            let c1 = infer_expr(ast, nr, fid, l, c).1;
            lemma_expr_grows(ast, nr, fid, i, c1);
            let c2 = infer_expr(ast, nr, fid, i, c1).1;
            lemma_expr_grows(ast, nr, fid, v, c2);
            let (vl, c3) = infer_expr(ast, nr, fid, v, c2);
            lemma_sadd_grows(c3, Location::ListItem, vl);
            lemma_ctx_trans(c, c1, c2);
            lemma_ctx_trans(c, c2, c3);
            lemma_ctx_trans(c, c3, sadd(c3, Location::ListItem, vl));
        },
        Stmt::Push(l, v) => {
            lemma_expr_grows(ast, nr, fid, l, c);
            let c1 = infer_expr(ast, nr, fid, l, c).1;
            lemma_expr_grows(ast, nr, fid, v, c1);
            let (vl, c2) = infer_expr(ast, nr, fid, v, c1);
            lemma_sadd_grows(c2, Location::ListItem, vl);
            lemma_ctx_trans(c, c1, c2);
            lemma_ctx_trans(c, c2, sadd(c2, Location::ListItem, vl));
        },
        Stmt::DictStore(t, k, v) => {
            lemma_expr_grows(ast, nr, fid, t, c);
            let c1 = infer_expr(ast, nr, fid, t, c).1;
            lemma_expr_grows(ast, nr, fid, k, c1);
            let (kl, c2) = infer_expr(ast, nr, fid, k, c1);
            lemma_expr_grows(ast, nr, fid, v, c2);
            let (vl, c3) = infer_expr(ast, nr, fid, v, c2);
            let c4 = sadd(c3, Location::DictKey, kl);
            lemma_sadd_grows(c3, Location::DictKey, kl);
            lemma_sadd_grows(c4, Location::DictValue, vl);
            lemma_ctx_trans(c, c1, c2);
            lemma_ctx_trans(c, c2, c3);
            lemma_ctx_trans(c, c3, c4);
            lemma_ctx_trans(c, c4, sadd(c4, Location::DictValue, vl));
        },
        Stmt::Assign(x, e) => {
            lemma_expr_grows(ast, nr, fid, e, c);
            let (r, c1) = infer_expr(ast, nr, fid, e, c);
            let l = crate::analysis::var_loc(nr, fid, x);
            lemma_sadd_grows(c1, l, r);
            lemma_ctx_trans(c, c1, sadd(c1, l, r));
        },
        Stmt::Return(e) => {
            lemma_expr_grows(ast, nr, fid, e, c);
            let (r, c1) = infer_expr(ast, nr, fid, e, c);
            lemma_sadd_grows(c1, Location::RetVal(fid as FnId), r);
            lemma_ctx_trans(c, c1, sadd(c1, Location::RetVal(fid as FnId), r));
        },
        Stmt::If(cond, t, f) => {
            lemma_expr_grows(ast, nr, fid, cond, c);
            let c1 = infer_expr(ast, nr, fid, cond, c).1;
            lemma_body_grows(ast, nr, fid, t@, c1);
            let c2 = infer_body(ast, nr, fid, t@, c1);
            lemma_body_grows(ast, nr, fid, f@, c2);
            lemma_ctx_trans(c, c1, c2);
            lemma_ctx_trans(c, c2, infer_body(ast, nr, fid, f@, c2));
        },
        Stmt::While(cond, b) => {
            lemma_expr_grows(ast, nr, fid, cond, c);
            let c1 = infer_expr(ast, nr, fid, cond, c).1;
            lemma_body_grows(ast, nr, fid, b@, c1);
            lemma_ctx_trans(c, c1, infer_body(ast, nr, fid, b@, c1));
        },
        Stmt::Print(e) => {
            lemma_expr_grows(ast, nr, fid, e, c);
        },
    }
}

/// The analysis step of a statement list never loses information.
proof fn lemma_body_grows(ast: AST, nr: Nameres, fid: int, b: Seq<Stmt>, c: Map<Location, Lat>)
    ensures
        ctx_le(c, infer_body(ast, nr, fid, b, c)),
    decreases b,
{
    if b.len() == 0 {
        lemma_ctx_refl(c);
    } else {
        lemma_body_grows(ast, nr, fid, b.drop_last(), c);
        let c1 = infer_body(ast, nr, fid, b.drop_last(), c);
        lemma_stmt_grows(ast, nr, fid, b.last(), c1);
        lemma_ctx_trans(c, c1, infer_stmt(ast, nr, fid, b.last(), c1));
    }
}


/// Running the step over `a + b` runs it over `a`, then over `b`.
proof fn lemma_body_append(ast: AST, nr: Nameres, fid: int, a: Seq<Stmt>, b: Seq<Stmt>, c: Map<Location, Lat>)
    ensures
        infer_body(ast, nr, fid, a + b, c) == infer_body(ast, nr, fid, b, infer_body(ast, nr, fid, a, c)),
    decreases b.len(),
{
    if b.len() == 0 {
        assert(a + b =~= a);
    } else {
        lemma_body_append(ast, nr, fid, a, b.drop_last(), c);
        assert((a + b).drop_last() =~= a + b.drop_last());
        assert((a + b).last() == b.last());
    }
}

/// A step over more functions records at least as much.
proof fn lemma_fns_grow(ast: AST, nr: Nameres, k: nat, j: nat, c: Map<Location, Lat>)
    requires
        k <= j,
    ensures
        ctx_le(infer_fns(ast, nr, k, c), infer_fns(ast, nr, j, c)),
    decreases j,
{
    if k == j {
        lemma_ctx_refl(infer_fns(ast, nr, k, c));
    } else {
        lemma_fns_grow(ast, nr, k, (j - 1) as nat, c);
        let f = (j - 1) as int;
        let p = infer_fns(ast, nr, (j - 1) as nat, c);
        lemma_body_grows(ast, nr, f, ast.fns@[f].body@, p);
        lemma_ctx_trans(infer_fns(ast, nr, k, c), p, infer_fns(ast, nr, j, c));
    }
}

/// In a context that an analysis round leaves unchanged (such as what
/// `analyze` computes), what a top-level assignment `v = e` of function `f`
/// stores is recorded at `v`'s location, and what a top-level `return e`
/// returns is recorded at `f`'s return value: the location allows at least
/// what the analysis gives `e`.
pub proof fn lemma_stores_recorded(ast: AST, nr: Nameres, m: Map<Location, Lat>, f: int, j: int)
    requires
        infer_round(ast, nr, m) == m,
        0 <= f < ast.fns@.len(),
        0 <= j < ast.fns@[f].body@.len(),
    ensures
        ast.fns@[f].body@[j] matches Stmt::Assign(v, e) ==> lat_le(
            infer_expr(ast, nr, f, e, m).0,
            sget(m, crate::analysis::var_loc(nr, f, v)),
        ),
        ast.fns@[f].body@[j] matches Stmt::Return(e) ==> lat_le(
            infer_expr(ast, nr, f, e, m).0,
            sget(m, Location::RetVal(f as FnId)),
        ),
{
    let b = ast.fns@[f].body@;
    let n = ast.fns@.len() as nat;
    let c0 = infer_fns(ast, nr, f as nat, m);
    lemma_fns_grow(ast, nr, 0, f as nat, m);
    lemma_fns_grow(ast, nr, (f + 1) as nat, n, m);
    let cj = infer_body(ast, nr, f, b.take(j), c0);
    lemma_body_grows(ast, nr, f, b.take(j), c0);
    lemma_ctx_trans(m, c0, cj);
    let cn = infer_stmt(ast, nr, f, b[j], cj);
    assert(b.take(j + 1).drop_last() =~= b.take(j));
    assert(infer_body(ast, nr, f, b.take(j + 1), c0) == cn);
    assert(b =~= b.take(j + 1) + b.skip(j + 1));
    lemma_body_append(ast, nr, f, b.take(j + 1), b.skip(j + 1), c0);
    lemma_body_grows(ast, nr, f, b.skip(j + 1), cn);
    assert(infer_fns(ast, nr, (f + 1) as nat, m) == infer_body(ast, nr, f, b, c0));
    lemma_ctx_trans(cn, infer_fns(ast, nr, (f + 1) as nat, m), m);
    match b[j] {
        Stmt::Assign(v, e) => {
            let (r, c1) = infer_expr(ast, nr, f, e, cj);
            let l = crate::analysis::var_loc(nr, f, v);
            lemma_sadd_grows(c1, l, r);
            lemma_sget_mono(cn, m, l);
            lemma_expr_mono(ast, nr, f, e, m, cj);
            lemma_le_trans(r, cn[l], sget(m, l));
            lemma_le_trans(infer_expr(ast, nr, f, e, m).0, r, sget(m, l));
        },
        Stmt::Return(e) => {
            let (r, c1) = infer_expr(ast, nr, f, e, cj);
            let l = Location::RetVal(f as FnId);
            lemma_sadd_grows(c1, l, r);
            lemma_sget_mono(cn, m, l);
            lemma_expr_mono(ast, nr, f, e, m, cj);
            lemma_le_trans(r, cn[l], sget(m, l));
            lemma_le_trans(infer_expr(ast, nr, f, e, m).0, r, sget(m, l));
        },
        _ => {},
    }
}

/// Whether, in `m`, the statement `s` of function `f` is accounted for:
/// an assignment `v = e` has at `v`'s location at least what the analysis
/// gives `e`, a `return e` has it at the function's return value, and the
/// statements in branches and loop bodies are accounted for in turn.
pub open spec fn stmt_recorded(ast: AST, nr: Nameres, f: int, s: Stmt, m: Map<Location, Lat>) -> bool
    decreases s,
{
    match s {
        Stmt::Assign(v, e) => lat_le(infer_expr(ast, nr, f, e, m).0, sget(m, crate::analysis::var_loc(nr, f, v))),
        Stmt::Return(e) => lat_le(infer_expr(ast, nr, f, e, m).0, sget(m, Location::RetVal(f as FnId))),
        Stmt::If(_, t, e) => body_recorded(ast, nr, f, t@, m) && body_recorded(ast, nr, f, e@, m),
        Stmt::While(_, b) => body_recorded(ast, nr, f, b@, m),
        _ => true,
    }
}

/// Whether every statement of `b` is accounted for in `m`.
pub open spec fn body_recorded(ast: AST, nr: Nameres, f: int, b: Seq<Stmt>, m: Map<Location, Lat>) -> bool
    decreases b,
{
    if b.len() == 0 {
        true
    } else {
        body_recorded(ast, nr, f, b.drop_last(), m) && stmt_recorded(ast, nr, f, b.last(), m)
    }
}

proof fn lemma_stmt_recorded(ast: AST, nr: Nameres, f: int, s: Stmt, p: Map<Location, Lat>, m: Map<Location, Lat>)
    requires
        ctx_le(m, p),
        ctx_le(infer_stmt(ast, nr, f, s, p), m),
    ensures
        stmt_recorded(ast, nr, f, s, m),
    decreases s,
{
    match s {
        Stmt::Assign(v, e) => {
            let (r, c1) = infer_expr(ast, nr, f, e, p);
            let l = crate::analysis::var_loc(nr, f, v);
            lemma_sadd_grows(c1, l, r);
            lemma_sget_mono(sadd(c1, l, r), m, l);
            lemma_expr_mono(ast, nr, f, e, m, p);
            lemma_le_trans(r, sadd(c1, l, r)[l], sget(m, l));
            lemma_le_trans(infer_expr(ast, nr, f, e, m).0, r, sget(m, l));
        },
        Stmt::Return(e) => {
            let (r, c1) = infer_expr(ast, nr, f, e, p);
            let l = Location::RetVal(f as FnId);
            lemma_sadd_grows(c1, l, r);
            lemma_sget_mono(sadd(c1, l, r), m, l);
            lemma_expr_mono(ast, nr, f, e, m, p);
            lemma_le_trans(r, sadd(c1, l, r)[l], sget(m, l));
            lemma_le_trans(infer_expr(ast, nr, f, e, m).0, r, sget(m, l));
        },
        Stmt::If(cond, t, e) => {
            lemma_expr_grows(ast, nr, f, cond, p);
            let c1 = infer_expr(ast, nr, f, cond, p).1;
            lemma_ctx_trans(m, p, c1);
            let c2 = infer_body(ast, nr, f, t@, c1);
            lemma_body_grows(ast, nr, f, t@, c1);
            lemma_body_grows(ast, nr, f, e@, c2);
            lemma_ctx_trans(c2, infer_body(ast, nr, f, e@, c2), m);
            lemma_ctx_trans(m, c1, c2);
            lemma_body_recorded(ast, nr, f, t@, c1, m);
            lemma_body_recorded(ast, nr, f, e@, c2, m);
        },
        Stmt::While(cond, b) => {
            lemma_expr_grows(ast, nr, f, cond, p);
            let c1 = infer_expr(ast, nr, f, cond, p).1;
            lemma_ctx_trans(m, p, c1);
            lemma_body_recorded(ast, nr, f, b@, c1, m);
        },
        _ => {},
    }
}

proof fn lemma_body_recorded(ast: AST, nr: Nameres, f: int, b: Seq<Stmt>, c: Map<Location, Lat>, m: Map<Location, Lat>)
    requires
        ctx_le(m, c),
        ctx_le(infer_body(ast, nr, f, b, c), m),
    ensures
        body_recorded(ast, nr, f, b, m),
    decreases b,
{
    if b.len() > 0 {
        let p = infer_body(ast, nr, f, b.drop_last(), c);
        lemma_body_grows(ast, nr, f, b.drop_last(), c);
        lemma_ctx_trans(m, c, p);
        lemma_stmt_grows(ast, nr, f, b.last(), p);
        lemma_ctx_trans(p, infer_stmt(ast, nr, f, b.last(), p), m);
        lemma_body_recorded(ast, nr, f, b.drop_last(), c, m);
        lemma_stmt_recorded(ast, nr, f, b.last(), p, m);
    }
}

/// In a context that an analysis round leaves unchanged (such as what
/// `analyze` computes), every statement of every function is accounted
/// for: each assignment `v = e`, in a branch or a loop body too, records at
/// `v`'s location at least what the analysis gives `e`, and each
/// `return e` records it at the function's return value.
pub proof fn lemma_analysis_records(ast: AST, nr: Nameres, m: Map<Location, Lat>, f: int)
    requires
        infer_round(ast, nr, m) == m,
        0 <= f < ast.fns@.len(),
    ensures
        body_recorded(ast, nr, f, ast.fns@[f].body@, m),
{
    let n = ast.fns@.len() as nat;
    let c0 = infer_fns(ast, nr, f as nat, m);
    lemma_fns_grow(ast, nr, 0, f as nat, m);
    lemma_fns_grow(ast, nr, (f + 1) as nat, n, m);
    assert(infer_fns(ast, nr, (f + 1) as nat, m) == infer_body(ast, nr, f, ast.fns@[f].body@, c0));
    lemma_body_recorded(ast, nr, f, ast.fns@[f].body@, c0, m);
}

/// The analysis is sound for a top-level assignment `v = e` (with `e` not a
/// call) of function `f`: in a context that an analysis round leaves
/// unchanged, if each variable holds a value that its location allows, the
/// value the interpreter stores in `v` is allowed at `v`'s location too.
pub proof fn lemma_assign_sound(
    ast: AST,
    nr: Nameres,
    m: Map<Location, Lat>,
    f: int,
    j: int,
    vars: Map<Symbol, Val>,
    input: Seq<Seq<char>>,
    st: St,
    fuel: nat,
)
    requires
        infer_round(ast, nr, m) == m,
        0 <= f < ast.fns@.len(),
        0 <= j < ast.fns@[f].body@.len(),
        forall|x: Symbol| #[trigger] vars.contains_key(x) ==> lat_allows(sget(m, crate::analysis::var_loc(nr, f, x)), vars[x]),
    ensures
        ast.fns@[f].body@[j] matches Stmt::Assign(v, e) ==> (!(e is FnCall) ==> (eval_spec(ast, e, vars, input, st, fuel).0 matches Ok(val)
            ==> lat_allows(sget(m, crate::analysis::var_loc(nr, f, v)), val))),
{
    lemma_stores_recorded(ast, nr, m, f, j);
    if let Stmt::Assign(v, e) = ast.fns@[f].body@[j] {
        if !(e is FnCall) {
            crate::analysis::lemma_infer_expr_sound(ast, nr, f, e, m, vars, input, st, fuel);
        }
    }
}

} // verus!
