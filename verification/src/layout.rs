use vstd::prelude::*;
use crate::analysis::{
    ACtxt, Lat, Location, TypeLattice, analysis_ready, body_ok, copy_ctx, ctx_ok, ctx_wf, cview,
    expr_ok, exprs_ok, infer_expr, lemma_body_ok_at, lemma_exprs_ok_at, stmt_ok, ty_infer_expr,
};
use crate::assoc::{AssocMap, Key};
use crate::ast::{AST, Body, Expr, FnId, Stmt};
use crate::symbol::Symbol;

verus! {

/// Functions with a common tag share one calling layout.
pub type FnTag = usize;

/// A union-find forest over function ids, where a missing parent marks a
/// root.  `root` and `depth` are bookkeeping for the proofs: the root each
/// id leads to, and a rank that strictly falls from an id to its parent.
pub struct UnionFind {
    pub parent: Vec<Option<FnId>>,
    pub root: Ghost<Seq<FnId>>,
    pub depth: Ghost<Seq<nat>>,
}

impl UnionFind {
    /// Whether the parent links form a forest and `root` names the root each
    /// id leads to.
    pub open spec fn wf(&self) -> bool {
        let p = self.parent@;
        let r = self.root@;
        let d = self.depth@;
        &&& r.len() == p.len()
        &&& d.len() == p.len()
        &&& forall|x: int| 0 <= x < p.len() ==> match #[trigger] p[x] {
            None => r[x] == x,
            Some(y) => y < p.len() && r[x] == r[y as int] && d[y as int] < d[x],
        }
        &&& forall|x: int| 0 <= x < p.len() ==> (#[trigger] r[x]) < p.len() && p[r[x] as int] is None
    }

    /// The forest of `n` singleton trees.
    pub fn new(n: usize) -> (u: UnionFind)
        ensures
            u.wf(),
            u.parent@.len() == n,
            u.root@ == Seq::new(n as nat, |i: int| i as FnId),
    {
        let mut parent: Vec<Option<FnId>> = Vec::new();
        let mut i: usize = 0;
        while i < n
            invariant
                i <= n,
                parent@.len() == i,
                forall|j: int| 0 <= j < i ==> parent@[j] is None,
            decreases n - i,
        {
            parent.push(None);
            i = i + 1;
        }
        let u = UnionFind {
            parent,
            root: Ghost(Seq::new(n as nat, |i: int| i as FnId)),
            depth: Ghost(Seq::new(n as nat, |i: int| 0nat)),
        };
        assert(u.wf());
        u
    }
}

/// The roots after the tree rooted at `a` has been put below the root `b`.
pub open spec fn union_roots(root: Seq<FnId>, a: FnId, b: FnId) -> Seq<FnId> {
    if a == b {
        root
    } else {
        root.map_values(|z: FnId| if z == a { b } else { z })
    }
}

/// The root of the tree that holds `x`.
pub fn uf_find(x: FnId, uf: &UnionFind) -> (r: FnId)
    requires
        uf.wf(),
        x < uf.parent@.len(),
    ensures
        r == uf.root@[x as int],
{
    let x0 = x;
    let mut x = x;
    while uf.parent[x].is_some()
        invariant
            uf.wf(),
            x < uf.parent@.len(),
            x0 < uf.parent@.len(),
            uf.root@[x as int] == uf.root@[x0 as int],
        decreases uf.depth@[x as int],
    {
        x = uf.parent[x].unwrap();
    }
    x
}

/// Puts the tree of `x` below the root of the tree of `y`, unless they are
/// already one tree.
pub fn uf_union(x: FnId, y: FnId, uf: &mut UnionFind)
    requires
        old(uf).wf(),
        x < old(uf).parent@.len(),
        y < old(uf).parent@.len(),
    ensures
        final(uf).wf(),
        final(uf).parent@.len() == old(uf).parent@.len(),
        final(uf).root@ == union_roots(old(uf).root@, old(uf).root@[x as int], old(uf).root@[y as int]),
        final(uf).parent@ == if old(uf).root@[x as int] == old(uf).root@[y as int] {
            old(uf).parent@
        } else {
            old(uf).parent@.update(old(uf).root@[x as int] as int, Some(old(uf).root@[y as int]))
        },
        forall|z: int| 0 <= z < old(uf).parent@.len() ==> #[trigger] final(uf).root@[z] == if old(uf).root@[z]
            == old(uf).root@[x as int] || old(uf).root@[z] == old(uf).root@[y as int] {
            old(uf).root@[y as int]
        } else {
            old(uf).root@[z]
        },
{
    let rx = uf_find(x, uf);
    let ry = uf_find(y, uf);
    if rx == ry {
        return;
    }
    let ghost r = uf.root@;
    let ghost d = uf.depth@;
    let ghost p = uf.parent@;
    proof {
        assert(p[rx as int] is None);
        assert(p[ry as int] is None);
        assert(r[rx as int] == rx) by {
            assert(r[rx as int] == rx);
        }
    }
    uf.parent.set(rx, Some(ry));
    proof {
        uf.root@ = r.map_values(|z: FnId| if z == rx { ry } else { z });
        uf.depth@ = Seq::new(d.len(), |z: int| if r[z] == rx { d[z] + d[ry as int] + 1 } else { d[z] });
        let p2 = uf.parent@;
        let r2 = uf.root@;
        let d2 = uf.depth@;
        assert(r[ry as int] == ry);
        assert forall|z: int| 0 <= z < p2.len() implies match #[trigger] p2[z] {
            None => r2[z] == z,
            Some(w) => w < p2.len() && r2[z] == r2[w as int] && d2[w as int] < d2[z],
        } by {
            if z == rx {
            } else {
                assert(p2[z] == p[z]);
                match p[z] {
                    None => {
                        assert(r[z] == z);
                    },
                    Some(w) => {
                        assert(r[z] == r[w as int]);
                    },
                }
            }
        }
        assert forall|z: int| 0 <= z < p2.len() implies (#[trigger] r2[z]) < p2.len() && p2[r2[z] as int] is None by {
            assert(r[z] < p.len() && p[r[z] as int] is None);
        }
        assert(r2 =~= union_roots(r, r[x as int], r[y as int]));
    }
}

/// A call expression: the `index`-th call, in pre-order, of the body of the
/// function `fid`.
#[derive(Clone, Copy, PartialEq, Eq, Structural, Debug)]
pub struct CallSite {
    pub fid: FnId,
    pub index: usize,
}

impl Key for CallSite {
    fn same(&self, other: &Self) -> (r: bool) {
        *self == *other
    }
}

/// The possible callees in `fns` that take `nargs` arguments, in order.
pub open spec fn matching(ast: AST, fns: Seq<FnId>, nargs: nat) -> Seq<FnId>
    decreases fns.len(),
{
    if fns.len() == 0 {
        Seq::empty()
    } else {
        let p = matching(ast, fns.drop_last(), nargs);
        if ast.fns@[fns.last() as int].args@.len() == nargs {
            p.push(fns.last())
        } else {
            p
        }
    }
}

/// The roots after `first` has been united with each of `rest` in order.
pub open spec fn union_all(root: Seq<FnId>, first: FnId, rest: Seq<FnId>) -> Seq<FnId>
    decreases rest.len(),
{
    if rest.len() == 0 {
        root
    } else {
        union_all(union_roots(root, root[first as int], root[rest[0] as int]), first, rest.drop_first())
    }
}

/// `c + 1`, or `c` at the largest value.
pub open spec fn sat_inc(c: usize) -> usize {
    if c < usize::MAX { (c + 1) as usize } else { c }
}

/// What the scan for call sites has gathered: the analysis context it
/// refines, the roots of the grouping of functions, each call site with its
/// first possible callee, the possible callees of each such site, and how
/// many calls it has seen.
pub struct ScanSt {
    pub ctx: Map<Location, Lat>,
    pub root: Seq<FnId>,
    pub calls: Seq<(CallSite, FnId)>,
    pub groups: Seq<Seq<FnId>>,
    pub count: usize,
}

/// The scan step at a call `ce(args)` with `nargs` arguments in the function
/// `fid`: the callee expression is analysed, and all its possible callees
/// of the right arity are grouped together.
pub open spec fn call_step(ast: AST, nr: crate::nameres::Nameres, fid: int, ce: Expr, nargs: nat, st: ScanSt) -> ScanSt {
    let (lat, ctx1) = infer_expr(ast, nr, fid, ce, st.ctx);
    let callees = matching(ast, lat.fns, nargs);
    let site = CallSite { fid: fid as FnId, index: st.count };
    if callees.len() >= 1 {
        ScanSt {
            ctx: ctx1,
            root: union_all(st.root, callees[0], callees.drop_first()),
            calls: st.calls.push((site, callees[0])),
            groups: st.groups.push(callees),
            count: sat_inc(st.count),
        }
    } else {
        ScanSt { ctx: ctx1, count: sat_inc(st.count), ..st }
    }
}

/// The scan of an expression in pre-order.
pub open spec fn scanned_expr(ast: AST, nr: crate::nameres::Nameres, fid: int, e: Expr, st: ScanSt) -> ScanSt
    decreases e,
{
    match e {
        Expr::FnCall(ce, args) => scanned_exprs(ast, nr, fid, args@,
            scanned_expr(ast, nr, fid, *ce, call_step(ast, nr, fid, *ce, args@.len(), st))),
        Expr::IndexList(a, b) => scanned_expr(ast, nr, fid, *b, scanned_expr(ast, nr, fid, *a, st)),
        Expr::IndexDict(a, b) => scanned_expr(ast, nr, fid, *b, scanned_expr(ast, nr, fid, *a, st)),
        Expr::BinOp(_, a, b) => scanned_expr(ast, nr, fid, *b, scanned_expr(ast, nr, fid, *a, st)),
        Expr::Length(a) => scanned_expr(ast, nr, fid, *a, st),
        _ => st,
    }
}

/// The scan of each expression of `es` in order.
pub open spec fn scanned_exprs(ast: AST, nr: crate::nameres::Nameres, fid: int, es: Seq<Expr>, st: ScanSt) -> ScanSt
    decreases es,
{
    if es.len() == 0 {
        st
    } else {
        scanned_expr(ast, nr, fid, es.last(), scanned_exprs(ast, nr, fid, es.drop_last(), st))
    }
}

/// The scan of a statement in pre-order.
pub open spec fn scanned_stmt(ast: AST, nr: crate::nameres::Nameres, fid: int, s: Stmt, st: ScanSt) -> ScanSt
    decreases s,
{
    match s {
        Stmt::Global(_) => st,
        Stmt::ListStore(a, b, c) => scanned_expr(ast, nr, fid, c, scanned_expr(ast, nr, fid, b, scanned_expr(ast, nr, fid, a, st))),
        Stmt::DictStore(a, b, c) => scanned_expr(ast, nr, fid, c, scanned_expr(ast, nr, fid, b, scanned_expr(ast, nr, fid, a, st))),
        Stmt::Push(a, b) => scanned_expr(ast, nr, fid, b, scanned_expr(ast, nr, fid, a, st)),
        Stmt::Return(e) => scanned_expr(ast, nr, fid, e, st),
        Stmt::Assign(_, e) => scanned_expr(ast, nr, fid, e, st),
        Stmt::If(c, t, f) => scanned_body(ast, nr, fid, f@, scanned_body(ast, nr, fid, t@, scanned_expr(ast, nr, fid, c, st))),
        Stmt::While(c, b) => scanned_body(ast, nr, fid, b@, scanned_expr(ast, nr, fid, c, st)),
        Stmt::Print(e) => scanned_expr(ast, nr, fid, e, st),
    }
}

/// The scan of each statement of `b` in order.
pub open spec fn scanned_body(ast: AST, nr: crate::nameres::Nameres, fid: int, b: Seq<Stmt>, st: ScanSt) -> ScanSt
    decreases b,
{
    if b.len() == 0 {
        st
    } else {
        scanned_stmt(ast, nr, fid, b.last(), scanned_body(ast, nr, fid, b.drop_last(), st))
    }
}

/// The scan of the bodies of the first `k` functions, each with its call
/// count starting from zero.
pub open spec fn scanned_fns(ast: AST, nr: crate::nameres::Nameres, k: nat, st: ScanSt) -> ScanSt
    decreases k,
{
    if k == 0 {
        st
    } else {
        let prev = scanned_fns(ast, nr, (k - 1) as nat, st);
        scanned_body(ast, nr, k - 1, ast.fns@[k - 1].body@, ScanSt { count: 0, ..prev })
    }
}

/// Whether the members of every group have the same root.
pub open spec fn groups_joined(root: Seq<FnId>, groups: Seq<Seq<FnId>>) -> bool {
    forall|g: int, a: int, b: int| 0 <= g < groups.len() && 0 <= a < groups[g].len() && 0 <= b < groups[g].len()
        ==> root[#[trigger] groups[g][a] as int] == root[#[trigger] groups[g][b] as int]
}

/// Whether every id of every group is below `n`.
pub open spec fn groups_below(groups: Seq<Seq<FnId>>, n: nat) -> bool {
    forall|g: int, a: int| 0 <= g < groups.len() && 0 <= a < groups[g].len() ==> #[trigger] groups[g][a] < n
}

/// Whether `root` maps each id below `n` to an id below `n`.
pub open spec fn roots_ok(root: Seq<FnId>, n: nat) -> bool {
    &&& root.len() == n
    &&& forall|i: int| 0 <= i < n ==> #[trigger] root[i] < n
}

/// Uniting two trees keeps ids that shared a root together and brings
/// the two united ids together.
pub proof fn lemma_union_roots(root: Seq<FnId>, x: FnId, y: FnId, n: nat)
    requires
        roots_ok(root, n),
        x < n,
        y < n,
    ensures
        roots_ok(union_roots(root, root[x as int], root[y as int]), n),
        union_roots(root, root[x as int], root[y as int])[x as int] == union_roots(root, root[x as int], root[y as int])[y as int],
        forall|u: int, v: int| 0 <= u < n && 0 <= v < n && root[u] == root[v] ==>
            #[trigger] union_roots(root, root[x as int], root[y as int])[u] == #[trigger] union_roots(root, root[x as int], root[y as int])[v],
{
}

/// Uniting `first` with each of `rest` brings them all together and keeps
/// ids that shared a root together.
pub proof fn lemma_union_all(root: Seq<FnId>, first: FnId, rest: Seq<FnId>, n: nat)
    requires
        roots_ok(root, n),
        first < n,
        forall|i: int| 0 <= i < rest.len() ==> #[trigger] rest[i] < n,
    ensures
        roots_ok(union_all(root, first, rest), n),
        forall|i: int| 0 <= i < rest.len() ==> union_all(root, first, rest)[#[trigger] rest[i] as int] == union_all(root, first, rest)[first as int],
        forall|u: int, v: int| 0 <= u < n && 0 <= v < n && root[u] == root[v] ==>
            #[trigger] union_all(root, first, rest)[u] == #[trigger] union_all(root, first, rest)[v],
    decreases rest.len(),
{
    if rest.len() > 0 {
        let r1 = union_roots(root, root[first as int], root[rest[0] as int]);
        lemma_union_roots(root, first, rest[0], n);
        let rest2 = rest.drop_first();
        assert forall|i: int| 0 <= i < rest2.len() implies #[trigger] rest2[i] < n by {
            assert(rest2[i] == rest[i + 1]);
        }
        lemma_union_all(r1, first, rest2, n);
        let fin = union_all(root, first, rest);
        assert forall|i: int| 0 <= i < rest.len() implies fin[#[trigger] rest[i] as int] == fin[first as int] by {
            if i > 0 {
                assert(rest[i] == rest2[i - 1]);
            }
        }
    }
}

/// The state of the scan for call sites.
pub struct Scanner {
    pub actxt: ACtxt,
    pub uf: UnionFind,
    pub calls: Vec<(CallSite, FnId)>,
    pub groups: Ghost<Seq<Seq<FnId>>>,
    pub count: usize,
}

impl Scanner {
    pub open spec fn view(&self) -> ScanSt {
        ScanSt {
            ctx: cview(self.actxt),
            root: self.uf.root@,
            calls: self.calls@,
            groups: self.groups@,
            count: self.count,
        }
    }

    /// The context stays valid for `ast`, the forest is over the functions of
    /// `ast`, and every group found so far is within one tree.
    pub open spec fn inv(&self, ast: AST, nr: crate::nameres::Nameres) -> bool {
        let n = ast.fns@.len() as nat;
        &&& analysis_ready(ast, nr)
        &&& ctx_wf(self.actxt)
        &&& ctx_ok(ast, nr, cview(self.actxt))
        &&& self.uf.wf()
        &&& self.uf.parent@.len() == n
        &&& groups_below(self.groups@, n)
        &&& groups_joined(self.uf.root@, self.groups@)
        &&& forall|i: int| 0 <= i < self.calls@.len() ==> (#[trigger] self.calls@[i]).1 < n
    }
}

/// The callees of `fns` that take `nargs` arguments.
pub(crate) fn matching_callees(ast: &AST, fns: &Vec<FnId>, nargs: usize) -> (r: Vec<FnId>)
    requires
        forall|i: int| 0 <= i < fns@.len() ==> #[trigger] fns@[i] < ast.fns@.len(),
    ensures
        r@ == matching(*ast, fns@, nargs as nat),
        forall|i: int| 0 <= i < r@.len() ==> #[trigger] r@[i] < ast.fns@.len(),
{
    let mut out: Vec<FnId> = Vec::new();
    let mut k: usize = 0;
    while k < fns.len()
        invariant
            k <= fns.len(),
            forall|i: int| 0 <= i < fns@.len() ==> #[trigger] fns@[i] < ast.fns@.len(),
            out@ == matching(*ast, fns@.take(k as int), nargs as nat),
            forall|i: int| 0 <= i < out@.len() ==> #[trigger] out@[i] < ast.fns@.len(),
        decreases fns.len() - k,
    {
        proof {
            assert(fns@.take(k + 1).drop_last() =~= fns@.take(k as int));
        }
        let f = fns[k];
        if ast.fns[f].args.len() == nargs {
            out.push(f);
        }
        k = k + 1;
    }
    assert(fns@.take(fns.len() as int) =~= fns@);
    out
}

/// Unites the first of `callees` with each of the others, in order.
fn union_group(callees: &Vec<FnId>, uf: &mut UnionFind, n: Ghost<nat>)
    requires
        callees@.len() >= 1,
        old(uf).wf(),
        old(uf).parent@.len() == n@,
        forall|i: int| 0 <= i < callees@.len() ==> #[trigger] callees@[i] < n@,
    ensures
        final(uf).wf(),
        final(uf).parent@.len() == n@,
        final(uf).root@ == union_all(old(uf).root@, callees@[0], callees@.drop_first()),
{
    let first = callees[0];
    let ghost r0 = uf.root@;
    assert(callees@.skip(1) =~= callees@.drop_first());
    let mut j: usize = 1;
    while j < callees.len()
        invariant
            1 <= j <= callees.len(),
            uf.wf(),
            uf.parent@.len() == n@,
            first == callees@[0],
            forall|i: int| 0 <= i < callees@.len() ==> #[trigger] callees@[i] < n@,
            union_all(r0, first, callees@.drop_first()) == union_all(uf.root@, first, callees@.skip(j as int)),
        decreases callees.len() - j,
    {
        proof {
            let rest = callees@.skip(j as int);
            assert(rest[0] == callees@[j as int]);
            assert(rest.drop_first() =~= callees@.skip(j + 1));
        }
        uf_union(first, callees[j], uf);
        j = j + 1;
    }
    assert(callees@.skip(callees.len() as int).len() == 0);
}

/// The scan step at a call with callee expression `ce` and `nargs` arguments.
fn call_site(ce: &Expr, nargs: usize, fid: FnId, ast: &AST, nameres: &crate::nameres::Nameres, sc: &mut Scanner)
    requires
        old(sc).inv(*ast, *nameres),
        fid < ast.fns@.len(),
        expr_ok(*ce, ast.fns@.len() as nat, nameres.vars@[fid as int].view()),
    ensures
        final(sc).inv(*ast, *nameres),
        final(sc).view() == call_step(*ast, *nameres, fid as int, *ce, nargs as nat, old(sc).view()),
{
    let ghost n = ast.fns@.len() as nat;
    let lat = ty_infer_expr(ce, fid, ast, nameres, &mut sc.actxt);
    let callees = matching_callees(ast, &lat.fn_options, nargs);
    let site = CallSite { fid, index: sc.count };
    if callees.len() >= 1 {
        let first = callees[0];
        sc.calls.push((site, first));
        let ghost r0 = sc.uf.root@;
        proof {
            lemma_union_all(r0, first, callees@.drop_first(), n);
        }
        union_group(&callees, &mut sc.uf, Ghost(n));
        proof {
            let g0 = sc.groups@;
            sc.groups@ = g0.push(callees@);
            let root = sc.uf.root@;
            assert(groups_below(sc.groups@, n)) by {
                assert forall|g: int, a: int| 0 <= g < sc.groups@.len() && 0 <= a < sc.groups@[g].len() implies #[trigger] sc.groups@[g][a] < n by {
                    if g < g0.len() {
                        assert(sc.groups@[g] == g0[g]);
                    }
                }
            }
            assert forall|g: int, a: int, b: int| 0 <= g < sc.groups@.len() && 0 <= a < sc.groups@[g].len() && 0 <= b < sc.groups@[g].len()
                implies root[#[trigger] sc.groups@[g][a] as int] == root[#[trigger] sc.groups@[g][b] as int] by {
                if g < g0.len() {
                    assert(sc.groups@[g] == g0[g]);
                    assert(r0[g0[g][a] as int] == r0[g0[g][b] as int]);
                } else {
                    let rest = callees@.drop_first();
                    if a > 0 {
                        assert(callees@[a] == rest[a - 1]);
                    }
                    if b > 0 {
                        assert(callees@[b] == rest[b - 1]);
                    }
                }
            }
        }
    }
    sc.count = if sc.count < usize::MAX { sc.count + 1 } else { sc.count };
}

/// The scan of an expression of the function `fid`.
fn scan_expr(e: &Expr, fid: FnId, ast: &AST, nameres: &crate::nameres::Nameres, sc: &mut Scanner)
    requires
        old(sc).inv(*ast, *nameres),
        fid < ast.fns@.len(),
        expr_ok(*e, ast.fns@.len() as nat, nameres.vars@[fid as int].view()),
    ensures
        final(sc).inv(*ast, *nameres),
        final(sc).view() == scanned_expr(*ast, *nameres, fid as int, *e, old(sc).view()),
    decreases *e,
{
    match e {
        Expr::FnCall(ce, args) => {
            call_site(ce, args.len(), fid, ast, nameres, sc);
            scan_expr(ce, fid, ast, nameres, sc);
            let ghost s1 = sc.view();
            let mut i: usize = 0;
            while i < args.len()
                invariant
                    i <= args.len(),
                    sc.inv(*ast, *nameres),
                    fid < ast.fns@.len(),
                    exprs_ok(args@, ast.fns@.len() as nat, nameres.vars@[fid as int].view()),
                    sc.view() == scanned_exprs(*ast, *nameres, fid as int, args@.take(i as int), s1),
                    *e is FnCall,
                    (*e)->FnCall_1 == *args,
                decreases args.len() - i,
            {
                proof {
                    assert(decreases_to!(*e => (*e)->FnCall_1));
                    assert(decreases_to!((*e)->FnCall_1 => (*e)->FnCall_1@));
                    assert(decreases_to!(args@ => args@[i as int]));
                    lemma_exprs_ok_at(args@, ast.fns@.len() as nat, nameres.vars@[fid as int].view(), i as int);
                    assert(args@.take(i + 1).drop_last() =~= args@.take(i as int));
                }
                scan_expr(&args[i], fid, ast, nameres, sc);
                i = i + 1;
            }
            assert(args@.take(args.len() as int) =~= args@);
        },
        Expr::IndexList(a, b) | Expr::IndexDict(a, b) | Expr::BinOp(_, a, b) => {
            scan_expr(a, fid, ast, nameres, sc);
            scan_expr(b, fid, ast, nameres, sc);
        },
        Expr::Length(a) => {
            scan_expr(a, fid, ast, nameres, sc);
        },
        _ => {},
    }
}

/// The scan of a statement of the function `fid`.
fn scan_stmt(s: &Stmt, fid: FnId, ast: &AST, nameres: &crate::nameres::Nameres, sc: &mut Scanner)
    requires
        old(sc).inv(*ast, *nameres),
        fid < ast.fns@.len(),
        stmt_ok(*s, ast.fns@.len() as nat, nameres.vars@[fid as int].view()),
    ensures
        final(sc).inv(*ast, *nameres),
        final(sc).view() == scanned_stmt(*ast, *nameres, fid as int, *s, old(sc).view()),
    decreases *s, 0nat,
{
    match s {
        Stmt::Global(_) => {},
        Stmt::ListStore(a, b, c) | Stmt::DictStore(a, b, c) => {
            scan_expr(a, fid, ast, nameres, sc);
            scan_expr(b, fid, ast, nameres, sc);
            scan_expr(c, fid, ast, nameres, sc);
        },
        Stmt::Push(a, b) => {
            scan_expr(a, fid, ast, nameres, sc);
            scan_expr(b, fid, ast, nameres, sc);
        },
        Stmt::Return(e) | Stmt::Assign(_, e) | Stmt::Print(e) => {
            scan_expr(e, fid, ast, nameres, sc);
        },
        Stmt::If(c, t, f) => {
            scan_expr(c, fid, ast, nameres, sc);
            scan_body(t, fid, ast, nameres, sc);
            scan_body(f, fid, ast, nameres, sc);
        },
        Stmt::While(c, b) => {
            scan_expr(c, fid, ast, nameres, sc);
            scan_body(b, fid, ast, nameres, sc);
        },
    }
}

/// The scan of the statements of `body`, in order.
fn scan_body(body: &Body, fid: FnId, ast: &AST, nameres: &crate::nameres::Nameres, sc: &mut Scanner)
    requires
        old(sc).inv(*ast, *nameres),
        fid < ast.fns@.len(),
        body_ok(body@, ast.fns@.len() as nat, nameres.vars@[fid as int].view()),
    ensures
        final(sc).inv(*ast, *nameres),
        final(sc).view() == scanned_body(*ast, *nameres, fid as int, body@, old(sc).view()),
    decreases body@, 1nat,
{
    let ghost s0 = sc.view();
    let mut i: usize = 0;
    while i < body.len()
        invariant
            i <= body.len(),
            sc.inv(*ast, *nameres),
            fid < ast.fns@.len(),
            body_ok(body@, ast.fns@.len() as nat, nameres.vars@[fid as int].view()),
            sc.view() == scanned_body(*ast, *nameres, fid as int, body@.take(i as int), s0),
        decreases body.len() - i,
    {
        proof {
            lemma_body_ok_at(body@, ast.fns@.len() as nat, nameres.vars@[fid as int].view(), i as int);
            assert(body@.take(i + 1).drop_last() =~= body@.take(i as int));
        }
        scan_stmt(&body[i], fid, ast, nameres, sc);
        i = i + 1;
    }
    assert(body@.take(body.len() as int) =~= body@);
}

/// How many entries of `s` are set.
pub open spec fn nsome(s: Seq<Option<FnTag>>) -> nat
    decreases s.len(),
{
    if s.len() == 0 {
        0
    } else {
        nsome(s.drop_last()) + (if s.last() is Some { 1nat } else { 0nat })
    }
}

/// Setting one entry counts one more set entry if it was unset, and as
/// many otherwise; there are never more set entries than entries.
pub proof fn lemma_nsome_set(s: Seq<Option<FnTag>>, i: int, v: FnTag)
    requires
        0 <= i < s.len(),
    ensures
        nsome(s.update(i, Some(v))) == nsome(s) + (if s[i] is None { 1nat } else { 0nat }),
        nsome(s) <= s.len(),
    decreases s.len(),
{
    let t = s.update(i, Some(v));
    if i < s.len() - 1 {
        lemma_nsome_set(s.drop_last(), i, v);
        assert(t.drop_last() =~= s.drop_last().update(i, Some(v)));
    } else {
        assert(t.drop_last() =~= s.drop_last());
        lemma_nsome_len(s.drop_last());
    }
}

proof fn lemma_nsome_len(s: Seq<Option<FnTag>>)
    ensures
        nsome(s) <= s.len(),
    decreases s.len(),
{
    if s.len() > 0 {
        lemma_nsome_len(s.drop_last());
    }
}

/// The scan of the whole program, each function's calls counted from zero,
/// starting from the context `ctx` and all functions apart.
pub open spec fn program_scan(ast: AST, nr: crate::nameres::Nameres, ctx: Map<Location, Lat>) -> ScanSt {
    scanned_fns(ast, nr, ast.fns@.len() as nat, ScanSt {
        ctx: ctx,
        root: Seq::new(ast.fns@.len() as nat, |i: int| i as FnId),
        calls: Seq::empty(),
        groups: Seq::empty(),
        count: 0,
    })
}

/// Whether `tags` gives each function a tag of at least 10, equal tags to
/// exactly the functions with the same root, and whether `call_tags` gives
/// each recorded call site the tag of its first callee.
pub open spec fn tags_fit(root: Seq<FnId>, calls: Seq<(CallSite, FnId)>, tags: Seq<FnTag>, call_tags: Map<CallSite, FnTag>) -> bool {
    &&& tags.len() == root.len()
    &&& forall|f: int| 0 <= f < tags.len() ==> #[trigger] tags[f] >= 10
    &&& forall|f: int, g: int| 0 <= f < tags.len() && 0 <= g < tags.len() ==>
        (#[trigger] tags[f] == #[trigger] tags[g] <==> root[f] == root[g])
    &&& call_tags == crate::assoc::map_of(calls).map_values(|f: FnId| tags[f as int])
}

/// Groups the functions: the possible callees of each call site share a
/// group, and groups are merged when they meet.  Each group gets a tag (from
/// 10 upward, by the order in which groups first appear among the function
/// ids), and each call site the tag of its callees.
pub fn choose_tags(ast: &AST, nameres: &crate::nameres::Nameres, actxt: &ACtxt) -> (r: (Vec<FnTag>, AssocMap<CallSite, FnTag>))
    requires
        analysis_ready(*ast, *nameres),
        ctx_wf(*actxt),
        ctx_ok(*ast, *nameres, cview(*actxt)),
        ast.fns.len() + 10 <= usize::MAX,
    ensures
        r.0@.len() == ast.fns@.len(),
        r.1.wf(),
        tags_fit(program_scan(*ast, *nameres, cview(*actxt)).root, program_scan(*ast, *nameres, cview(*actxt)).calls, r.0@, r.1.view()),
        groups_joined(r.0@, program_scan(*ast, *nameres, cview(*actxt)).groups),
{
    let n = ast.fns.len();
    let mut sc = Scanner {
        actxt: copy_ctx(actxt),
        uf: UnionFind::new(n),
        calls: Vec::new(),
        groups: Ghost(Seq::empty()),
        count: 0,
    };
    assert(sc.view() =~= ScanSt {
        ctx: cview(*actxt),
        root: Seq::new(ast.fns@.len() as nat, |i: int| i as FnId),
        calls: Seq::empty(),
        groups: Seq::empty(),
        count: 0,
    });
    let ghost s0 = sc.view();
    let mut fid: usize = 0;
    while fid < n
        invariant
            fid <= n,
            n == ast.fns@.len(),
            sc.inv(*ast, *nameres),
            sc.view() == scanned_fns(*ast, *nameres, fid as nat, s0),
        decreases n - fid,
    {
        sc.count = 0;
        proof {
            assert(body_ok(ast.fns@[fid as int].body@, n as nat, nameres.vars@[fid as int].view()));
        }
        scan_body(&ast.fns[fid].body, fid, ast, nameres, &mut sc);
        fid = fid + 1;
    }
    let ghost root = sc.uf.root@;
    // Number the groups.
    let mut tag_of: Vec<Option<FnTag>> = Vec::new();
    let mut i: usize = 0;
    while i < n
        invariant
            i <= n,
            tag_of@.len() == i,
            forall|j: int| 0 <= j < i ==> tag_of@[j] is None,
            nsome(tag_of@) == 0,
        decreases n - i,
    {
        assert(tag_of@.push(None).drop_last() =~= tag_of@);
        tag_of.push(None);
        i = i + 1;
    }
    let mut len: usize = 0;
    let mut follower: usize = 0;
    while follower < n
        invariant
            follower <= n,
            n == ast.fns@.len(),
            n + 10 <= usize::MAX,
            len == nsome(tag_of@),
            sc.uf.wf(),
            sc.uf.parent@.len() == n,
            sc.uf.root@ == root,
            tag_of@.len() == n,
            forall|x: int| 0 <= x < n ==> (#[trigger] tag_of@[x] matches Some(t) ==> 10 <= t < len + 10),
            forall|x: int| 0 <= x < n && tag_of@[x] is Some ==> x < follower || root[x] == x,
            forall|f: int| 0 <= f < follower ==> (#[trigger] tag_of@[f]) is Some && tag_of@[f] == tag_of@[root[f] as int],
            forall|a: int, b: int| 0 <= a < n && 0 <= b < n && root[a] == a && root[b] == b && a != b
                && (#[trigger] tag_of@[a]) is Some && (#[trigger] tag_of@[b]) is Some ==> tag_of@[a] != tag_of@[b],
        decreases n - follower,
    {
        let leader = uf_find(follower, &sc.uf);
        proof {
            assert(root[leader as int] == leader);
        }
        if tag_of[leader].is_none() {
            proof {
                lemma_nsome_set(tag_of@, leader as int, (len + 10) as FnTag);
            }
            tag_of.set(leader, Some(len + 10));
            len = len + 1;
        }
        let v = tag_of[leader].unwrap();
        proof {
            lemma_nsome_set(tag_of@, follower as int, v);
            lemma_nsome_len(tag_of@.update(follower as int, Some(v)));
        }
        if tag_of[follower].is_none() {
            len = len + 1;
        }
        tag_of.set(follower, Some(v));
        follower = follower + 1;
    }
    let mut fn_to_tag: Vec<FnTag> = Vec::new();
    let mut k: usize = 0;
    while k < n
        invariant
            k <= n,
            tag_of@.len() == n,
            forall|f: int| 0 <= f < n ==> (#[trigger] tag_of@[f]) is Some,
            fn_to_tag@.len() == k,
            forall|f: int| 0 <= f < k ==> Some(#[trigger] fn_to_tag@[f]) == tag_of@[f],
        decreases n - k,
    {
        fn_to_tag.push(tag_of[k].unwrap());
        k = k + 1;
    }
    proof {
        assert forall|f: int, g: int| 0 <= f < n && 0 <= g < n implies
            (#[trigger] fn_to_tag@[f] == #[trigger] fn_to_tag@[g] <==> root[f] == root[g]) by {
            assert(root[f] < n && root[g] < n);
            assert(root[root[f] as int] == root[f]) by {
                assert(sc.uf.parent@[root[f] as int] is None);
            }
            assert(root[root[g] as int] == root[g]) by {
                assert(sc.uf.parent@[root[g] as int] is None);
            }
        }
    }
    // Tag each call site.
    let mut call_to_tag: AssocMap<CallSite, FnTag> = AssocMap::new();
    let mut c: usize = 0;
    while c < sc.calls.len()
        invariant
            c <= sc.calls.len(),
            n == ast.fns@.len(),
            fn_to_tag@.len() == n,
            forall|i: int| 0 <= i < sc.calls@.len() ==> (#[trigger] sc.calls@[i]).1 < n,
            call_to_tag.wf(),
            call_to_tag.view() == crate::assoc::map_of(sc.calls@.take(c as int)).map_values(|f: FnId| fn_to_tag@[f as int]),
        decreases sc.calls.len() - c,
    {
        let (site, f) = sc.calls[c];
        call_to_tag.insert(site, fn_to_tag[f]);
        proof {
            let t = sc.calls@.take(c + 1);
            assert(t.drop_last() =~= sc.calls@.take(c as int));
            assert(call_to_tag.view() =~= crate::assoc::map_of(t).map_values(|f: FnId| fn_to_tag@[f as int]));
        }
        c = c + 1;
    }
    assert(sc.calls@.take(sc.calls.len() as int) =~= sc.calls@);
    proof {
        let groups = sc.groups@;
        assert forall|g: int, a: int, b: int| 0 <= g < groups.len() && 0 <= a < groups[g].len() && 0 <= b < groups[g].len()
            implies fn_to_tag@[#[trigger] groups[g][a] as int] == fn_to_tag@[#[trigger] groups[g][b] as int] by {
            assert(root[groups[g][a] as int] == root[groups[g][b] as int]);
        }
    }
    (fn_to_tag, call_to_tag)
}

/// Where a value is stored, as far as its representation is concerned.
#[derive(Clone, Copy, PartialEq, Eq, Structural, Debug, Hash)]
pub enum LayoutLocation {
    /// The `i`-th argument of the functions with a tag.
    Arg(FnTag, usize),
    /// The return value of the functions with a tag.
    RetVal(FnTag),
    /// A variable of a function that is not one of its arguments.
    Var(FnId, Symbol),
    GlobalVar(Symbol),
    ListItem,
    DictKey,
    DictValue,
}

impl Key for LayoutLocation {
    fn same(&self, other: &Self) -> (r: bool) {
        *self == *other
    }
}

/// How a value is represented.
#[derive(Clone, Copy, PartialEq, Eq, Structural, Debug)]
pub enum LayoutType {
    Bool,
    Nil,
    Str,
    Int,
    List,
    Dict,
    /// A function with the given tag.
    Fn(FnTag),
    /// Any value, tagged at run time.
    Value,
}

/// The outcome of layout selection.
pub struct LCtxt {
    /// The tag of each function.
    pub fn_to_tag: Vec<FnTag>,
    /// The tag of the callees of each call site that has any.
    pub call_to_tag: AssocMap<CallSite, FnTag>,
    /// The representation chosen for each place.
    pub locs: AssocMap<LayoutLocation, LayoutType>,
}

/// How many kinds of values `x` allows, counting all functions as one kind.
pub open spec fn kinds(x: Lat) -> int {
    (if x.boolean { 1int } else { 0 }) + (if x.nil { 1int } else { 0 }) + (if x.string { 1int } else { 0 })
        + (if x.int { 1int } else { 0 }) + (if x.list { 1int } else { 0 }) + (if x.dict { 1int } else { 0 })
        + (if x.fns.len() > 0 { 1int } else { 0 })
}

/// The representation of values allowed by `x`: the one kind if there is
/// exactly one (functions only if all have one tag), else `Value`.
pub open spec fn layout_of(x: Lat, tags: Seq<FnTag>) -> LayoutType {
    if kinds(x) != 1 {
        LayoutType::Value
    } else if x.boolean {
        LayoutType::Bool
    } else if x.int {
        LayoutType::Int
    } else if x.string {
        LayoutType::Str
    } else if x.nil {
        LayoutType::Nil
    } else if x.list {
        LayoutType::List
    } else if x.dict {
        LayoutType::Dict
    } else if forall|i: int| 0 <= i < x.fns.len() ==> tags[#[trigger] x.fns[i] as int] == tags[x.fns[0] as int] {
        LayoutType::Fn(tags[x.fns[0] as int])
    } else {
        LayoutType::Value
    }
}

/// The representation of values allowed by `x`.
pub fn layout_lat(x: &TypeLattice, fn_to_tag: &Vec<FnTag>) -> (r: LayoutType)
    requires
        forall|i: int| 0 <= i < x.fn_options@.len() ==> #[trigger] x.fn_options@[i] < fn_to_tag@.len(),
    ensures
        r == layout_of(x.view(), fn_to_tag@),
{
    let n: u8 = (if x.might_be_int { 1u8 } else { 0 }) + (if x.might_be_bool { 1u8 } else { 0 })
        + (if x.might_be_nil { 1u8 } else { 0 }) + (if x.might_be_str { 1u8 } else { 0 })
        + (if x.might_be_list { 1u8 } else { 0 }) + (if x.might_be_dict { 1u8 } else { 0 })
        + (if x.fn_options.len() > 0 { 1u8 } else { 0 });
    if n != 1 {
        LayoutType::Value
    } else if x.might_be_bool {
        LayoutType::Bool
    } else if x.might_be_int {
        LayoutType::Int
    } else if x.might_be_str {
        LayoutType::Str
    } else if x.might_be_nil {
        LayoutType::Nil
    } else if x.might_be_list {
        LayoutType::List
    } else if x.might_be_dict {
        LayoutType::Dict
    } else if x.fn_options.len() > 0 {
        let tag = fn_to_tag[x.fn_options[0]];
        let mut i: usize = 0;
        while i < x.fn_options.len()
            invariant
                i <= x.fn_options.len(),
                x.fn_options@.len() > 0,
                tag == fn_to_tag@[x.fn_options@[0] as int],
                forall|j: int| 0 <= j < x.fn_options@.len() ==> #[trigger] x.fn_options@[j] < fn_to_tag@.len(),
                forall|j: int| 0 <= j < i ==> fn_to_tag@[#[trigger] x.fn_options@[j] as int] == tag,
            decreases x.fn_options.len() - i,
        {
            if tag != fn_to_tag[x.fn_options[i]] {
                return LayoutType::Value;
            }
            i = i + 1;
        }
        LayoutType::Fn(tag)
    } else {
        LayoutType::Value
    }
}

/// The representation chosen for a lattice holds every value the lattice
/// allows: a lattice that allows booleans gets `Bool` or `Value`, one that
/// allows `nil` gets `Nil` or `Value`, and so on for strings, integers,
/// lists and dicts, and one that allows function `f` gets `Value` or the
/// function representation of `f`'s tag.  It is `Value` only where it must
/// be: where the lattice allows two kinds of values, or none, or functions
/// of different tags.
pub proof fn lemma_layout_sound(x: Lat, tags: Seq<FnTag>)
    requires
        forall|i: int| 0 <= i < x.fns.len() ==> #[trigger] x.fns[i] < tags.len(),
    ensures
        x.boolean ==> layout_of(x, tags) == LayoutType::Bool || layout_of(x, tags) == LayoutType::Value,
        x.nil ==> layout_of(x, tags) == LayoutType::Nil || layout_of(x, tags) == LayoutType::Value,
        x.string ==> layout_of(x, tags) == LayoutType::Str || layout_of(x, tags) == LayoutType::Value,
        x.int ==> layout_of(x, tags) == LayoutType::Int || layout_of(x, tags) == LayoutType::Value,
        x.list ==> layout_of(x, tags) == LayoutType::List || layout_of(x, tags) == LayoutType::Value,
        x.dict ==> layout_of(x, tags) == LayoutType::Dict || layout_of(x, tags) == LayoutType::Value,
        forall|i: int| 0 <= i < x.fns.len() ==> layout_of(x, tags) == LayoutType::Value
            || layout_of(x, tags) == LayoutType::Fn(tags[#[trigger] x.fns[i] as int]),
        layout_of(x, tags) == LayoutType::Value ==> kinds(x) != 1 || exists|i: int, j: int|
            0 <= i < x.fns.len() && 0 <= j < x.fns.len() && tags[#[trigger] x.fns[i] as int] != tags[#[trigger] x.fns[j] as int],
{
    let l = layout_of(x, tags);
    if kinds(x) == 1 && x.fns.len() > 0 && !(x.boolean || x.int || x.string || x.nil || x.list || x.dict) {
        if l == LayoutType::Value {
            let i = choose|i: int| 0 <= i < x.fns.len() && !(tags[#[trigger] x.fns[i] as int] == tags[x.fns[0] as int]);
            assert(tags[x.fns[i] as int] != tags[x.fns[0] as int]);
        }
    }
}

/// A lattice that allows one kind of values only gets that kind's
/// representation.
pub proof fn lemma_layout_single(tags: Seq<FnTag>)
    ensures
        layout_of((Lat { boolean: true, ..crate::analysis::lat_bot() }), tags) == LayoutType::Bool,
        layout_of((Lat { nil: true, ..crate::analysis::lat_bot() }), tags) == LayoutType::Nil,
        layout_of((Lat { string: true, ..crate::analysis::lat_bot() }), tags) == LayoutType::Str,
        layout_of((Lat { int: true, ..crate::analysis::lat_bot() }), tags) == LayoutType::Int,
        layout_of((Lat { list: true, ..crate::analysis::lat_bot() }), tags) == LayoutType::List,
        layout_of((Lat { dict: true, ..crate::analysis::lat_bot() }), tags) == LayoutType::Dict,
        layout_of(crate::analysis::lat_bot(), tags) == LayoutType::Value,
{
}

/// Whether `i` is the first position of `x` in `s`.
pub open spec fn first_pos(s: Seq<Symbol>, x: Symbol, i: int) -> bool {
    0 <= i < s.len() && s[i] == x && forall|j: int| 0 <= j < i ==> s[j] != x
}

/// The layout location of an analysis location: an argument is identified
/// by its function's tag and its first position, a return value by its
/// function's tag.
pub open spec fn layout_loc(loc: Location, ast: AST, tags: Seq<FnTag>) -> LayoutLocation {
    match loc {
        Location::Var(f, var) => {
            let args = ast.fns@[f as int].args@;
            if args.contains(var) {
                let i = choose|i: int| first_pos(args, var, i);
                LayoutLocation::Arg(tags[f as int], i as usize)
            } else {
                LayoutLocation::Var(f, var)
            }
        },
        Location::GlobalVar(v) => LayoutLocation::GlobalVar(v),
        Location::RetVal(f) => LayoutLocation::RetVal(tags[f as int]),
        Location::ListItem => LayoutLocation::ListItem,
        Location::DictKey => LayoutLocation::DictKey,
        Location::DictValue => LayoutLocation::DictValue,
    }
}

/// The layout location of an analysis location.
pub fn to_layout_location(loc: Location, ast: &AST, fn_to_tag: &Vec<FnTag>) -> (r: LayoutLocation)
    requires
        fn_to_tag@.len() == ast.fns@.len(),
        loc matches Location::Var(f, _) ==> f < ast.fns@.len(),
        loc matches Location::RetVal(f) ==> f < ast.fns@.len(),
    ensures
        r == layout_loc(loc, *ast, fn_to_tag@),
{
    match loc {
        Location::Var(f, var) => {
            let args = &ast.fns[f].args;
            let mut i: usize = 0;
            while i < args.len()
                invariant
                    i <= args.len(),
                    loc == Location::Var(f, var),
                    f < ast.fns@.len(),
                    fn_to_tag@.len() == ast.fns@.len(),
                    *args == ast.fns@[f as int].args,
                    forall|j: int| 0 <= j < i ==> args@[j] != var,
                decreases args.len() - i,
            {
                if args[i] == var {
                    proof {
                        assert(first_pos(args@, var, i as int));
                        assert(args@.contains(var));
                        let k = choose|k: int| first_pos(args@, var, k);
                        assert(k == i) by {
                            if k < i {
                                assert(args@[k] != var);
                            }
                            if k > i {
                                assert(args@[i as int] != var);
                            }
                        }
                    }
                    return LayoutLocation::Arg(fn_to_tag[f], i);
                }
                i = i + 1;
            }
            LayoutLocation::Var(f, var)
        },
        Location::GlobalVar(v) => LayoutLocation::GlobalVar(v),
        Location::RetVal(f) => LayoutLocation::RetVal(fn_to_tag[f]),
        Location::ListItem => LayoutLocation::ListItem,
        Location::DictKey => LayoutLocation::DictKey,
        Location::DictValue => LayoutLocation::DictValue,
    }
}

/// The joins, per layout location, of the values of the entries `e` whose
/// locations map there, taken in order.
pub open spec fn grouped(e: Seq<(Location, TypeLattice)>, ast: AST, tags: Seq<FnTag>) -> Map<LayoutLocation, Lat>
    decreases e.len(),
{
    if e.len() == 0 {
        Map::empty()
    } else {
        let m = grouped(e.drop_last(), ast, tags);
        let l = layout_loc(e.last().0, ast, tags);
        let prev = if m.contains_key(l) { m[l] } else { crate::analysis::lat_bot() };
        m.insert(l, crate::analysis::lat_merge(prev, e.last().1.view()))
    }
}


/// Whether each entry of `e` names only functions below `n`, and lists its
/// functions in order.
pub open spec fn entries_fit(e: Seq<(Location, TypeLattice)>, n: nat) -> bool {
    forall|i: int| 0 <= i < e.len() ==> {
        &&& (#[trigger] e[i]).1.wf()
        &&& crate::analysis::lat_ok(e[i].1.view(), n)
        &&& (e[i].0 matches Location::Var(f, _) ==> f < n)
        &&& (e[i].0 matches Location::RetVal(f) ==> f < n)
    }
}

/// A context that the analysis may produce has entries that fit.
pub proof fn lemma_entries_fit(ast: AST, nr: crate::nameres::Nameres, a: ACtxt)
    requires
        ctx_wf(a),
        ctx_ok(ast, nr, cview(a)),
    ensures
        entries_fit(a.entries@, ast.fns@.len() as nat),
{
    assert forall|i: int| 0 <= i < a.entries@.len() implies {
        &&& (#[trigger] a.entries@[i]).1.wf()
        &&& crate::analysis::lat_ok(a.entries@[i].1.view(), ast.fns@.len() as nat)
        &&& (a.entries@[i].0 matches Location::Var(f, _) ==> f < ast.fns@.len())
        &&& (a.entries@[i].0 matches Location::RetVal(f) ==> f < ast.fns@.len())
    } by {
        crate::assoc::lemma_map_of_entry(a.entries@, i);
        assert(cview(a).contains_key(a.entries@[i].0));
    }
}

/// The lattice values of a map from layout locations.
pub open spec fn lview(m: AssocMap<LayoutLocation, TypeLattice>) -> Map<LayoutLocation, Lat> {
    m.view().map_values(|t: TypeLattice| t.view())
}

/// Joins, per layout location, what the analysis recorded at the locations
/// that map there, and picks the representation of each join.
pub fn build_locs(ast: &AST, actxt: &ACtxt, fn_to_tag: &Vec<FnTag>) -> (r: AssocMap<LayoutLocation, LayoutType>)
    requires
        fn_to_tag@.len() == ast.fns@.len(),
        entries_fit(actxt.entries@, ast.fns@.len() as nat),
    ensures
        r.wf(),
        r.view() == grouped(actxt.entries@, *ast, fn_to_tag@).map_values(|l: Lat| layout_of(l, fn_to_tag@)),
{
    let ghost n = ast.fns@.len() as nat;
    let mut map: AssocMap<LayoutLocation, TypeLattice> = AssocMap::new();
    assert(lview(map) =~= grouped(actxt.entries@.take(0), *ast, fn_to_tag@));
    let mut i: usize = 0;
    while i < actxt.entries.len()
        invariant
            i <= actxt.entries@.len(),
            n == ast.fns@.len(),
            fn_to_tag@.len() == n,
            entries_fit(actxt.entries@, n),
            map.wf(),
            forall|j: int| 0 <= j < map.entries@.len() ==> (#[trigger] map.entries@[j]).1.wf()
                && crate::analysis::lat_ok(map.entries@[j].1.view(), n),
            lview(map) == grouped(actxt.entries@.take(i as int), *ast, fn_to_tag@),
        decreases actxt.entries.len() - i,
    {
        let loc = actxt.entries[i].0;
        let lat = &actxt.entries[i].1;
        let loc2 = to_layout_location(loc, ast, fn_to_tag);
        let prev = match map.position(&loc2) {
            Some(k) => {
                proof {
                    crate::assoc::lemma_map_of_entry(map.entries@, k as int);
                }
                map.entries[k].1.copy()
            },
            None => TypeLattice::bot(),
        };
        proof {
            crate::analysis::lemma_merge(prev.view(), lat.view(), n);
        }
        let merged = TypeLattice::merge(&prev, lat);
        let ghost m0 = map.view();
        map.insert(loc2, merged);
        proof {
            let t = actxt.entries@.take(i + 1);
            assert(t.drop_last() =~= actxt.entries@.take(i as int));
            assert(t.last() == actxt.entries@[i as int]);
            assert(lview(map) =~= grouped(t, *ast, fn_to_tag@));
        }
        i = i + 1;
    }
    assert(actxt.entries@.take(actxt.entries@.len() as int) =~= actxt.entries@);
    let mut out: AssocMap<LayoutLocation, LayoutType> = AssocMap::new();
    assert(out.view() =~= crate::assoc::map_of(map.entries@.take(0)).map_values(|t: TypeLattice| layout_of(t.view(), fn_to_tag@)));
    let mut j: usize = 0;
    while j < map.entries.len()
        invariant
            j <= map.entries@.len(),
            fn_to_tag@.len() == n,
            forall|k: int| 0 <= k < map.entries@.len() ==> (#[trigger] map.entries@[k]).1.wf()
                && crate::analysis::lat_ok(map.entries@[k].1.view(), n),
            out.wf(),
            out.view() == crate::assoc::map_of(map.entries@.take(j as int)).map_values(|t: TypeLattice| layout_of(t.view(), fn_to_tag@)),
        decreases map.entries.len() - j,
    {
        let t = layout_lat(&map.entries[j].1, fn_to_tag);
        out.insert(map.entries[j].0, t);
        proof {
            let s = map.entries@.take(j + 1);
            assert(s.drop_last() =~= map.entries@.take(j as int));
            assert(out.view() =~= crate::assoc::map_of(s).map_values(|t: TypeLattice| layout_of(t.view(), fn_to_tag@)));
        }
        j = j + 1;
    }
    assert(map.entries@.take(map.entries@.len() as int) =~= map.entries@);
    assert(out.view() =~= grouped(actxt.entries@, *ast, fn_to_tag@).map_values(|l: Lat| layout_of(l, fn_to_tag@)));
    out
}

/// Chooses the tags of the functions and call sites and the representation
/// of each place, from what the analysis `actxt` recorded.
pub fn layout(ast: &AST, nameres: &crate::nameres::Nameres, actxt: &ACtxt) -> (r: LCtxt)
    requires
        analysis_ready(*ast, *nameres),
        ctx_wf(*actxt),
        ctx_ok(*ast, *nameres, cview(*actxt)),
        ast.fns.len() + 10 <= usize::MAX,
    ensures
        r.fn_to_tag@.len() == ast.fns@.len(),
        r.call_to_tag.wf(),
        r.locs.wf(),
        tags_fit(program_scan(*ast, *nameres, cview(*actxt)).root, program_scan(*ast, *nameres, cview(*actxt)).calls,
            r.fn_to_tag@, r.call_to_tag.view()),
        groups_joined(r.fn_to_tag@, program_scan(*ast, *nameres, cview(*actxt)).groups),
        r.locs.view() == grouped(actxt.entries@, *ast, r.fn_to_tag@).map_values(|l: Lat| layout_of(l, r.fn_to_tag@)),
{
    let (fn_to_tag, call_to_tag) = choose_tags(ast, nameres, actxt);
    proof {
        lemma_entries_fit(*ast, *nameres, *actxt);
    }
    let locs = build_locs(ast, actxt, &fn_to_tag);
    LCtxt { fn_to_tag, call_to_tag, locs }
}

} // verus!
