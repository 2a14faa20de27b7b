use vstd::prelude::*;
use crate::analysis::{Lat, lat_bot, lat_le, lat_merge, lat_ok, lat_only, lemma_merge};
use crate::assoc::{AssocMap, Key};
use crate::ast::{AST, BinOpKind, Body, Expr, FnDef, FnId, Node, Stmt, body_nodes};
use crate::fnset::{copy_ids, lemma_merge_ids, lemma_sorted_same_ids, merge_id_vecs, merge_ids, sorted};
use crate::layout::{matching, matching_callees};
use crate::symbol::Symbol;
use crate::analysis::lat_allows;
use crate::interp::{St, Val, binop_spec, eval_spec, input_value, line_at};
use crate::vars::{Collector, Occurrence, body_assigns, body_reads, lemma_collect, occurs_at};
use crate::visit::visit_body;

verus! {

/// The kinds of values that may be stored somewhere, for the type
/// inference that runs a fixed number of rounds.
pub struct TypeLattice {
    pub might_be_bool: bool,
    pub might_be_nil: bool,
    pub might_be_str: bool,
    pub might_be_int: bool,
    pub might_be_list: bool,
    /// The functions the value may be, in increasing order.
    pub fn_options: Vec<FnId>,
}

impl TypeLattice {
    /// The mathematical value; this lattice has no dictionaries.
    pub open spec fn view(&self) -> Lat {
        Lat {
            boolean: self.might_be_bool,
            nil: self.might_be_nil,
            string: self.might_be_str,
            int: self.might_be_int,
            list: self.might_be_list,
            dict: false,
            fns: self.fn_options@,
        }
    }

    /// The function ids are listed in increasing order.
    pub open spec fn wf(&self) -> bool {
        sorted(self.fn_options@)
    }

    /// The bottom of the lattice.
    pub fn bot() -> (r: TypeLattice)
        ensures
            r.view() == lat_bot(),
            r.wf(),
    {
        TypeLattice {
            might_be_bool: false,
            might_be_nil: false,
            might_be_str: false,
            might_be_int: false,
            might_be_list: false,
            fn_options: Vec::new(),
        }
    }

    /// The join of two lattice values.
    pub fn merge(x: &TypeLattice, y: &TypeLattice) -> (r: TypeLattice)
        requires
            x.wf(),
            y.wf(),
        ensures
            r.view() == lat_merge(x.view(), y.view()),
            r.wf(),
    {
        proof {
            lemma_merge_ids(x.fn_options@, y.fn_options@);
        }
        TypeLattice {
            might_be_bool: x.might_be_bool || y.might_be_bool,
            might_be_nil: x.might_be_nil || y.might_be_nil,
            might_be_str: x.might_be_str || y.might_be_str,
            might_be_int: x.might_be_int || y.might_be_int,
            might_be_list: x.might_be_list || y.might_be_list,
            fn_options: merge_id_vecs(&x.fn_options, &y.fn_options),
        }
    }

    fn copy(&self) -> (r: TypeLattice)
        ensures
            r.view() == self.view(),
            r.wf() == self.wf(),
    {
        TypeLattice {
            might_be_bool: self.might_be_bool,
            might_be_nil: self.might_be_nil,
            might_be_str: self.might_be_str,
            might_be_int: self.might_be_int,
            might_be_list: self.might_be_list,
            fn_options: copy_ids(&self.fn_options),
        }
    }

    fn only(b: bool, nil: bool, s: bool, i: bool, l: bool) -> (r: TypeLattice)
        ensures
            r.view() == lat_only(b, nil, s, i, l, false),
            r.wf(),
    {
        TypeLattice {
            might_be_bool: b,
            might_be_nil: nil,
            might_be_str: s,
            might_be_int: i,
            might_be_list: l,
            fn_options: Vec::new(),
        }
    }
}

/// A representation chosen for values, with the argument and result
/// representations of functions.
#[derive(PartialEq, Eq, Debug)]
pub enum LayoutType {
    Bool,
    Nil,
    Str,
    Int,
    List,
    Fn(Vec<LayoutType>, Box<LayoutType>),
    /// Any value, tagged at run time.
    Value,
}

/// The mathematical value of a `LayoutType`.
pub enum LayoutV {
    Bool,
    Nil,
    Str,
    Int,
    List,
    Fn(Seq<LayoutV>, Box<LayoutV>),
    Value,
}

/// A place where values are stored, as this inference sees it.
#[derive(Clone, Copy, PartialEq, Eq, Structural, Debug, Hash)]
pub enum Location {
    /// A variable (or argument) of a function.
    Var(FnId, Symbol),
    GlobalVar(Symbol),
    /// The return value of a function.
    RetVal(FnId),
    /// Any list element.
    ListItem,
}

impl Key for Location {
    fn same(&self, other: &Self) -> (r: bool) {
        *self == *other
    }
}

/// What the inference records at each location.
pub type TyLatticeCtxt = AssocMap<Location, TypeLattice>;

/// The representation chosen for each location.
pub type TyCtxt = AssocMap<Location, LayoutType>;

/// The mathematical value of a context.
pub open spec fn tview(a: TyLatticeCtxt) -> Map<Location, Lat> {
    a.view().map_values(|t: TypeLattice| t.view())
}

/// Every entry lists its functions in order.
pub open spec fn tctx_wf(a: TyLatticeCtxt) -> bool {
    &&& a.wf()
    &&& forall|i: int| 0 <= i < a.entries@.len() ==> (#[trigger] a.entries@[i]).1.wf()
}

/// What is recorded at `l`: bottom where nothing is recorded.
pub open spec fn tget(c: Map<Location, Lat>, l: Location) -> Lat {
    if c.contains_key(l) { c[l] } else { lat_bot() }
}

/// `c` with `t` joined into what is recorded at `l`.
pub open spec fn tadd(c: Map<Location, Lat>, l: Location, t: Lat) -> Map<Location, Lat> {
    c.insert(l, lat_merge(t, tget(c, l)))
}

/// What is recorded at `x`, or the bottom of the lattice.
fn get(x: Location, ctxt: &TyLatticeCtxt) -> (r: TypeLattice)
    requires
        tctx_wf(*ctxt),
    ensures
        r.view() == tget(tview(*ctxt), x),
        r.wf(),
{
    match ctxt.position(&x) {
        Some(i) => {
            proof {
                crate::assoc::lemma_map_of_entry(ctxt.entries@, i as int);
            }
            ctxt.entries[i].1.copy()
        },
        None => TypeLattice::bot(),
    }
}

/// Joins `ty` into what is recorded at `v`.
fn add(v: Location, ty: &TypeLattice, ctxt: &mut TyLatticeCtxt)
    requires
        tctx_wf(*old(ctxt)),
        ty.wf(),
    ensures
        tctx_wf(*final(ctxt)),
        tview(*final(ctxt)) == tadd(tview(*old(ctxt)), v, ty.view()),
{
    let ty2 = get(v, ctxt);
    let t = TypeLattice::merge(ty, &ty2);
    let ghost e0 = ctxt.entries@;
    ctxt.insert(v, t);
    proof {
        assert(tview(*ctxt) =~= tadd(tview(*old(ctxt)), v, ty.view()));
    }
}

/// Whether the body of function `fid` assigns `varname` anywhere.
pub open spec fn assigned_in(ast: AST, fid: int, varname: Symbol) -> bool {
    body_assigns(ast.fns@[fid].body@, varname)
}

/// Whether the body of function `fid` assigns `varname` anywhere.
fn is_assigned(fid: FnId, varname: Symbol, ast: &AST) -> (r: bool)
    requires
        fid < ast.fns@.len(),
    ensures
        r == assigned_in(*ast, fid as int, varname),
{
    let body = &ast.fns[fid].body;
    let mut assigned = Collector { kind: Occurrence::Assigned, found: Vec::new() };
    visit_body(body, &mut assigned);
    proof {
        lemma_collect(Occurrence::Assigned, Seq::empty(), body_nodes(body@));
    }
    crate::nameres::vec_contains(&assigned.found, varname)
}

/// Whether `varname` is global in function `fid`: everything is global in
/// the entry function; elsewhere arguments are local, names declared
/// global at the top of the body are global, and so are names the body
/// never assigns.
pub open spec fn global_var(ast: AST, fid: int, varname: Symbol) -> bool {
    let f = ast.fns@[fid];
    if fid == ast.main_fn {
        true
    } else if f.args@.contains(varname) {
        false
    } else if f.body@.contains(Stmt::Global(varname)) {
        true
    } else {
        !assigned_in(ast, fid, varname)
    }
}

/// Whether `varname` is global in function `fid`.
pub fn is_global_var(fid: FnId, varname: Symbol, ast: &AST) -> (r: bool)
    requires
        fid < ast.fns@.len(),
    ensures
        r == global_var(*ast, fid as int, varname),
{
    if fid == ast.main_fn {
        return true;
    }
    let f = &ast.fns[fid];
    if crate::nameres::vec_contains(&f.args, varname) {
        return false;
    }
    let mut i: usize = 0;
    while i < f.body.len()
        invariant
            i <= f.body@.len(),
            fid < ast.fns@.len(),
            fid != ast.main_fn,
            *f == ast.fns@[fid as int],
            !f.args@.contains(varname),
            forall|j: int| 0 <= j < i ==> f.body@[j] != Stmt::Global(varname),
        decreases f.body.len() - i,
    {
        match &f.body[i] {
            Stmt::Global(x) => {
                if *x == varname {
                    assert(f.body@[i as int] == Stmt::Global(varname));
                    assert(f.body@.contains(Stmt::Global(varname)));
                    return true;
                }
            },
            _ => {},
        }
        i = i + 1;
    }
    assert(!f.body@.contains(Stmt::Global(varname))) by {
        if f.body@.contains(Stmt::Global(varname)) {
            let j = choose|j: int| 0 <= j < f.body@.len() && f.body@[j] == Stmt::Global(varname);
            assert(f.body@[j] != Stmt::Global(varname));
        }
    }
    !is_assigned(fid, varname, ast)
}

/// The location of the variable `v` of function `fid`.
pub open spec fn var_loc(ast: AST, fid: int, v: Symbol) -> Location {
    if global_var(ast, fid, v) { Location::GlobalVar(v) } else { Location::Var(fid as FnId, v) }
}

/// The location of the variable `varname` of function `fid`.
pub fn get_var_loc(fid: FnId, varname: Symbol, ast: &AST) -> (r: Location)
    requires
        fid < ast.fns@.len(),
    ensures
        r == var_loc(*ast, fid as int, varname),
{
    if is_global_var(fid, varname, ast) {
        Location::GlobalVar(varname)
    } else {
        Location::Var(fid, varname)
    }
}

/// Whether the inference handles `e`: every function it names is below
/// `n`, and it builds no dictionary.
pub open spec fn ty_expr_ok(e: Expr, n: nat) -> bool
    decreases e,
{
    match e {
        Expr::FnId(f) => f < n,
        Expr::NewDict => false,
        Expr::IndexDict(..) => false,
        Expr::IndexList(a, b) => ty_expr_ok(*a, n) && ty_expr_ok(*b, n),
        Expr::BinOp(_, a, b) => ty_expr_ok(*a, n) && ty_expr_ok(*b, n),
        Expr::Length(a) => ty_expr_ok(*a, n),
        Expr::FnCall(f, args) => ty_expr_ok(*f, n) && ty_exprs_ok(args@, n),
        _ => true,
    }
}

pub open spec fn ty_exprs_ok(es: Seq<Expr>, n: nat) -> bool
    decreases es,
{
    if es.len() == 0 {
        true
    } else {
        ty_exprs_ok(es.drop_last(), n) && ty_expr_ok(es.last(), n)
    }
}

/// Whether the inference handles `s`, whose assigned variables are among
/// `asg`.
pub open spec fn ty_stmt_ok(s: Stmt, n: nat, asg: Set<Symbol>) -> bool
    decreases s,
{
    match s {
        Stmt::Global(_) => true,
        Stmt::ListStore(a, b, c) => ty_expr_ok(a, n) && ty_expr_ok(b, n) && ty_expr_ok(c, n),
        Stmt::DictStore(..) => false,
        Stmt::Push(a, b) => ty_expr_ok(a, n) && ty_expr_ok(b, n),
        Stmt::Return(e) => ty_expr_ok(e, n),
        Stmt::Assign(v, e) => asg.contains(v) && ty_expr_ok(e, n),
        Stmt::If(c, t, f) => ty_expr_ok(c, n) && ty_body_ok(t@, n, asg) && ty_body_ok(f@, n, asg),
        Stmt::While(c, b) => ty_expr_ok(c, n) && ty_body_ok(b@, n, asg),
        Stmt::Print(e) => ty_expr_ok(e, n),
    }
}

/// `ty_stmt_ok` for each statement of `b`.
pub open spec fn ty_body_ok(b: Seq<Stmt>, n: nat, asg: Set<Symbol>) -> bool
    decreases b,
{
    if b.len() == 0 {
        true
    } else {
        ty_body_ok(b.drop_last(), n, asg) && ty_stmt_ok(b.last(), n, asg)
    }
}

/// The variables the body of function `fid` assigns.
pub open spec fn assigned(ast: AST, fid: int) -> Set<Symbol> {
    Set::new(|v: Symbol| body_assigns(ast.fns@[fid].body@, v))
}

/// Whether the inference can ever record something at `l`: the list
/// elements, a function's return value, a variable of a function, or a
/// global that is a variable of some function.
pub open spec fn ty_loc_ok(ast: AST, l: Location) -> bool {
    match l {
        Location::ListItem => true,
        Location::RetVal(f) => f < ast.fns@.len(),
        Location::Var(f, v) => f < ast.fns@.len() && fn_var(ast.fns@[f as int], v),
        Location::GlobalVar(v) => exists|f: int| 0 <= f < ast.fns@.len() && #[trigger] fn_var(ast.fns@[f], v),
    }
}

/// Whether every location of `c` is one the inference can record at.
pub open spec fn tkeys_ok(ast: AST, c: Map<Location, Lat>) -> bool {
    forall|l: Location| #[trigger] c.contains_key(l) ==> ty_loc_ok(ast, l)
}

/// Whether `d` records everything `c` records, and at least as much.
pub open spec fn tctx_le(c: Map<Location, Lat>, d: Map<Location, Lat>) -> bool {
    forall|l: Location| #[trigger] c.contains_key(l) ==> d.contains_key(l) && lat_le(c[l], d[l])
}

/// Whether every value recorded in `c` names only functions below `n`.
pub open spec fn tctx_ok(c: Map<Location, Lat>, n: nat) -> bool {
    forall|l: Location| #[trigger] c.contains_key(l) ==> lat_ok(c[l], n)
}

/// The parameter `i` of function `f`.
pub open spec fn param(ast: AST, f: FnId, i: int) -> Symbol {
    ast.fns@[f as int].args@[i]
}

/// `acc` joined with what is recorded at parameter `i` of each callee.
pub open spec fn acc_arg(ast: AST, callees: Seq<FnId>, i: int, acc: Lat, c: Map<Location, Lat>) -> Lat
    decreases callees.len(),
{
    if callees.len() == 0 {
        acc
    } else {
        lat_merge(acc_arg(ast, callees.drop_last(), i, acc, c), tget(c, Location::Var(callees.last(), param(ast, callees.last(), i))))
    }
}

/// `t` joined into parameter `i` of each callee in order.
pub open spec fn write_arg(ast: AST, callees: Seq<FnId>, i: int, t: Lat, c: Map<Location, Lat>) -> Map<Location, Lat>
    decreases callees.len(),
{
    if callees.len() == 0 {
        c
    } else {
        tadd(write_arg(ast, callees.drop_last(), i, t, c), Location::Var(callees.last(), param(ast, callees.last(), i)), t)
    }
}

/// The join of what is recorded at the return values of the callees.
pub open spec fn acc_ret(callees: Seq<FnId>, c: Map<Location, Lat>) -> Lat
    decreases callees.len(),
{
    if callees.len() == 0 {
        lat_bot()
    } else {
        lat_merge(acc_ret(callees.drop_last(), c), tget(c, Location::RetVal(callees.last())))
    }
}

/// `t` joined into the return value of each callee in order.
pub open spec fn write_ret(callees: Seq<FnId>, t: Lat, c: Map<Location, Lat>) -> Map<Location, Lat>
    decreases callees.len(),
{
    if callees.len() == 0 {
        c
    } else {
        tadd(write_ret(callees.drop_last(), t, c), Location::RetVal(callees.last()), t)
    }
}

/// The effect of one inference step on an expression of function `fid`:
/// the value it may have and the context after it.  A call makes all its
/// possible callees of the right arity agree: each argument's value is
/// joined with the callees' parameters and written back to all of them,
/// and likewise their return values.
pub open spec fn ty_expr(ast: AST, fid: int, e: Expr, c: Map<Location, Lat>) -> (Lat, Map<Location, Lat>)
    decreases e,
{
    match e {
        Expr::FnId(f) => (Lat { fns: seq![f], ..lat_bot() }, c),
        Expr::Length(l) => (lat_only(false, false, false, true, false, false), ty_expr(ast, fid, *l, c).1),
        Expr::NewList => (lat_only(false, false, false, false, true, false), c),
        Expr::IndexList(l, i) => {
            let c1 = ty_expr(ast, fid, *l, c).1;
            let c2 = ty_expr(ast, fid, *i, c1).1;
            (tget(c2, Location::ListItem), c2)
        },
        Expr::FnCall(f, args) => {
            let (fl, c1) = ty_expr(ast, fid, *f, c);
            let callees = matching(ast, fl.fns, args@.len());
            let c2 = ty_args(ast, fid, args@, callees, c1);
            let r = acc_ret(callees, c2);
            (r, write_ret(callees, r, c2))
        },
        Expr::BinOp(kind, l, r) => {
            let c1 = ty_expr(ast, fid, *l, c).1;
            let c2 = ty_expr(ast, fid, *r, c1).1;
            (crate::analysis::binop_lat(kind), c2)
        },
        Expr::IntLit(_) => (lat_only(false, false, false, true, false, false), c),
        Expr::StringLit(_) => (lat_only(false, false, true, false, false, false), c),
        Expr::BoolLit(_) => (lat_only(true, false, false, false, false, false), c),
        Expr::NilLit => (lat_only(false, true, false, false, false, false), c),
        Expr::Var(v) => (tget(c, var_loc(ast, fid, v)), c),
        Expr::Input => (lat_only(true, true, true, true, false, false), c),
        _ => (lat_bot(), c),
    }
}

/// The inference is sound for the interpreter: where each variable of the
/// function `fid` holds a value that the lattice recorded at its location
/// allows, every value that an expression other than a call evaluates to
/// is allowed by the lattice value the inference gives the expression.
pub proof fn lemma_ty_expr_sound(
    ast: AST,
    fid: int,
    e: Expr,
    c: Map<Location, Lat>,
    vars: Map<Symbol, Val>,
    input: Seq<Seq<char>>,
    st: St,
    fuel: nat,
)
    requires
        !(e is FnCall),
        forall|v: Symbol| #[trigger] vars.contains_key(v) ==> lat_allows(tget(c, var_loc(ast, fid, v)), vars[v]),
    ensures
        eval_spec(ast, e, vars, input, st, fuel).0 matches Ok(val) ==> lat_allows(ty_expr(ast, fid, e, c).0, val),
{
    match e {
        Expr::BinOp(op, l, r) => {
            let (r1, st1) = eval_spec(ast, *l, vars, input, st, fuel);
            if let Ok(v1) = r1 {
                let (r2, st2) = eval_spec(ast, *r, vars, input, st1, fuel);
                if let Ok(v2) = r2 {
                    assert(binop_spec(op, v1, v2) matches Ok(val) ==> lat_allows(crate::analysis::binop_lat(op), val));
                }
            }
        },
        Expr::Input => {
            let line = line_at(input, st.pos);
            assert(input_value(line) matches Ok(val) ==> lat_allows(lat_only(true, true, true, true, false, false), val));
        },
        _ => {},
    }
}

/// The arguments of a call with callees `callees`, from left to right.
pub open spec fn ty_args(ast: AST, fid: int, es: Seq<Expr>, callees: Seq<FnId>, c: Map<Location, Lat>) -> Map<Location, Lat>
    decreases es,
{
    if es.len() == 0 {
        c
    } else {
        let c1 = ty_args(ast, fid, es.drop_last(), callees, c);
        let i = es.len() - 1;
        let (l, c2) = ty_expr(ast, fid, es.last(), c1);
        write_arg(ast, callees, i, acc_arg(ast, callees, i, l, c2), c2)
    }
}

/// The effect of one inference step on a statement of function `fid`.
pub open spec fn ty_stmt(ast: AST, fid: int, s: Stmt, c: Map<Location, Lat>) -> Map<Location, Lat>
    decreases s,
{
    match s {
        Stmt::ListStore(l, i, v) => {
            let c1 = ty_expr(ast, fid, l, c).1;
            let c2 = ty_expr(ast, fid, i, c1).1;
            let (vl, c3) = ty_expr(ast, fid, v, c2);
            tadd(c3, Location::ListItem, vl)
        },
        Stmt::Push(l, v) => {
            let c1 = ty_expr(ast, fid, l, c).1;
            let (vl, c2) = ty_expr(ast, fid, v, c1);
            tadd(c2, Location::ListItem, vl)
        },
        Stmt::Assign(v, e) => {
            let (r, c1) = ty_expr(ast, fid, e, c);
            tadd(c1, var_loc(ast, fid, v), r)
        },
        Stmt::Return(e) => {
            let (r, c1) = ty_expr(ast, fid, e, c);
            tadd(c1, Location::RetVal(fid as FnId), r)
        },
        Stmt::If(cond, t, f) => {
            let c1 = ty_expr(ast, fid, cond, c).1;
            ty_body(ast, fid, f@, ty_body(ast, fid, t@, c1))
        },
        Stmt::While(cond, b) => {
            let c1 = ty_expr(ast, fid, cond, c).1;
            ty_body(ast, fid, b@, c1)
        },
        Stmt::Print(e) => ty_expr(ast, fid, e, c).1,
        _ => c,
    }
}

/// `ty_stmt` on each statement of `b` in order.
pub open spec fn ty_body(ast: AST, fid: int, b: Seq<Stmt>, c: Map<Location, Lat>) -> Map<Location, Lat>
    decreases b,
{
    if b.len() == 0 {
        c
    } else {
        ty_stmt(ast, fid, b.last(), ty_body(ast, fid, b.drop_last(), c))
    }
}


/// What is read at a location of a context with valid values is valid.
proof fn lemma_tget_ok(c: Map<Location, Lat>, l: Location, n: nat)
    requires
        tctx_ok(c, n),
    ensures
        lat_ok(tget(c, l), n),
{
    if !c.contains_key(l) {
        assert(lat_bot().fns =~= Seq::<FnId>::empty());
    }
}

/// Joining a valid value at a location the inference can record at keeps
/// the context valid and only adds to it.
proof fn lemma_tadd_ok(ast: AST, c: Map<Location, Lat>, l: Location, t: Lat, n: nat)
    requires
        tctx_ok(c, n),
        lat_ok(t, n),
        tkeys_ok(ast, c),
        ty_loc_ok(ast, l),
    ensures
        tctx_ok(tadd(c, l, t), n),
        tkeys_ok(ast, tadd(c, l, t)),
        tctx_le(c, tadd(c, l, t)),
{
    lemma_tget_ok(c, l, n);
    lemma_merge(t, tget(c, l), n);
}

/// The global location of a variable of a function can be recorded at.
proof fn lemma_global_loc_ok(ast: AST, f: int, v: Symbol)
    requires
        0 <= f < ast.fns@.len(),
        fn_var(ast.fns@[f], v),
    ensures
        ty_loc_ok(ast, Location::GlobalVar(v)),
{
    assert(exists|g: int| 0 <= g < ast.fns@.len() && #[trigger] fn_var(ast.fns@[g], v));
    let l = Location::GlobalVar(v);
    assert(l matches Location::GlobalVar(w) && w == v);
}

/// The order of contexts is transitive.
proof fn lemma_tctx_trans(a: Map<Location, Lat>, b: Map<Location, Lat>, c: Map<Location, Lat>)
    requires
        tctx_le(a, b),
        tctx_le(b, c),
    ensures
        tctx_le(a, c),
{
    assert forall|l: Location| #[trigger] a.contains_key(l) implies c.contains_key(l) && lat_le(a[l], c[l]) by {
        assert forall|f: FnId| #[trigger] a[l].fns.contains(f) implies c[l].fns.contains(f) by {
            assert(b[l].fns.contains(f));
        }
    }
}

/// The functions `matching` keeps take `nargs` arguments.
proof fn lemma_matching_arity(ast: AST, fns: Seq<FnId>, nargs: nat)
    ensures
        forall|j: int| 0 <= j < matching(ast, fns, nargs).len()
            ==> ast.fns@[#[trigger] matching(ast, fns, nargs)[j] as int].args@.len() == nargs,
    decreases fns.len(),
{
    if fns.len() > 0 {
        lemma_matching_arity(ast, fns.drop_last(), nargs);
        let p = matching(ast, fns.drop_last(), nargs);
        let m = matching(ast, fns, nargs);
        assert forall|j: int| 0 <= j < m.len() implies ast.fns@[m[j] as int].args@.len() == nargs by {
            if j < p.len() {
                assert(m[j] == p[j]);
            }
        }
    }
}

/// Each expression of a list the inference handles is handled.
proof fn lemma_ty_exprs_ok_at(es: Seq<Expr>, n: nat, i: int)
    requires
        ty_exprs_ok(es, n),
        0 <= i < es.len(),
    ensures
        ty_expr_ok(es[i], n),
    decreases es.len(),
{
    if i < es.len() - 1 {
        lemma_ty_exprs_ok_at(es.drop_last(), n, i);
        assert(es.drop_last()[i] == es[i]);
    }
}

/// Each statement of a list the inference handles is handled.
proof fn lemma_ty_body_ok_at(b: Seq<Stmt>, n: nat, asg: Set<Symbol>, i: int)
    requires
        ty_body_ok(b, n, asg),
        0 <= i < b.len(),
    ensures
        ty_stmt_ok(b[i], n, asg),
    decreases b.len(),
{
    if i < b.len() - 1 {
        lemma_ty_body_ok_at(b.drop_last(), n, asg, i);
        assert(b.drop_last()[i] == b[i]);
    }
}

/// Whether the inference step of function `fid` may run on `c`.
pub open spec fn ty_pre(ast: AST, fid: int, c: TyLatticeCtxt) -> bool {
    &&& 0 <= fid < ast.fns@.len()
    &&& tctx_wf(c)
    &&& tctx_ok(tview(c), ast.fns@.len() as nat)
    &&& tkeys_ok(ast, tview(c))
}

/// One inference step on an expression of function `fid`: records what
/// flows where, and says what values the expression may have.
pub fn ty_infer_expr(expr: &Expr, fid: FnId, ast: &AST, ctxt: &mut TyLatticeCtxt) -> (r: TypeLattice)
    requires
        ty_pre(*ast, fid as int, *old(ctxt)),
        ty_expr_ok(*expr, ast.fns@.len() as nat),
    ensures
        ty_pre(*ast, fid as int, *final(ctxt)),
        (r.view(), tview(*final(ctxt))) == ty_expr(*ast, fid as int, *expr, tview(*old(ctxt))),
        r.wf(),
        lat_ok(r.view(), ast.fns@.len() as nat),
        tctx_le(tview(*old(ctxt)), tview(*final(ctxt))),
    decreases *expr,
{
    let ghost n = ast.fns@.len() as nat;
    let ghost c_in = tview(*ctxt);
    match expr {
        Expr::FnId(f) => {
            let mut fns: Vec<FnId> = Vec::new();
            fns.push(*f);
            let r = TypeLattice { fn_options: fns, ..TypeLattice::bot() };
            assert(r.view() =~= Lat { fns: seq![*f], ..lat_bot() });
            r
        },
        Expr::Length(l) => {
            let _l = ty_infer_expr(l, fid, ast, ctxt);
            TypeLattice::only(false, false, false, true, false)
        },
        Expr::NewList => TypeLattice::only(false, false, false, false, true),
        Expr::IndexList(l, i) => {
            let _l = ty_infer_expr(l, fid, ast, ctxt);
            let ghost cm = tview(*ctxt);
            let _i = ty_infer_expr(i, fid, ast, ctxt);
            proof {
                lemma_tctx_trans(c_in, cm, tview(*ctxt));
                lemma_tget_ok(tview(*ctxt), Location::ListItem, n);
            }
            get(Location::ListItem, ctxt)
        },
        Expr::FnCall(f, args) => {
            let fl = ty_infer_expr(f, fid, ast, ctxt);
            proof {
                lemma_matching_arity(*ast, fl.fn_options@, args@.len() as nat);
            }
            let callees = matching_callees(ast, &fl.fn_options, args.len());
            let ghost c1 = tview(*ctxt);
            let mut i: usize = 0;
            while i < args.len()
                invariant
                    i <= args.len(),
                    n == ast.fns@.len(),
                    ty_pre(*ast, fid as int, *ctxt),
                    tctx_le(c_in, tview(*ctxt)),
                    ty_exprs_ok(args@, n),
                    callees@ == matching(*ast, fl.fn_options@, args@.len() as nat),
                    forall|j: int| 0 <= j < callees@.len() ==> #[trigger] callees@[j] < n,
                    forall|j: int| 0 <= j < callees@.len()
                        ==> ast.fns@[#[trigger] callees@[j] as int].args@.len() == args@.len(),
                    tview(*ctxt) == ty_args(*ast, fid as int, args@.take(i as int), callees@, c1),
                    *expr is FnCall,
                    (*expr)->FnCall_1 == *args,
                decreases args.len() - i,
            {
                proof {
                    assert(decreases_to!(*expr => (*expr)->FnCall_1));
                    assert(decreases_to!((*expr)->FnCall_1 => (*expr)->FnCall_1@));
                    assert(decreases_to!(args@ => args@[i as int]));
                    lemma_ty_exprs_ok_at(args@, n, i as int);
                    assert(args@.take(i + 1).drop_last() =~= args@.take(i as int));
                }
                let ghost cb = tview(*ctxt);
                let mut argty = ty_infer_expr(&args[i], fid, ast, ctxt);
                let ghost l0 = argty.view();
                let ghost c2 = tview(*ctxt);
                proof {
                    lemma_tctx_trans(c_in, cb, c2);
                }
                let mut k: usize = 0;
                while k < callees.len()
                    invariant
                        k <= callees.len(),
                        i < args.len(),
                        n == ast.fns@.len(),
                        ty_pre(*ast, fid as int, *ctxt),
                        tctx_le(c_in, tview(*ctxt)),
                    tctx_le(c_in, tview(*ctxt)),
                        tview(*ctxt) == c2,
                        forall|j: int| 0 <= j < callees@.len() ==> #[trigger] callees@[j] < n,
                        forall|j: int| 0 <= j < callees@.len()
                            ==> ast.fns@[#[trigger] callees@[j] as int].args@.len() == args@.len(),
                        argty.wf(),
                        lat_ok(argty.view(), n),
                        argty.view() == acc_arg(*ast, callees@.take(k as int), i as int, l0, c2),
                    decreases callees.len() - k,
                {
                    proof {
                        assert(callees@.take(k + 1).drop_last() =~= callees@.take(k as int));
                    }
                    let cf = callees[k];
                    assert(ast.fns@[callees@[k as int] as int].args@.len() == args@.len());
                    let p = ast.fns[cf].args[i];
                    proof {
                        lemma_tget_ok(c2, Location::Var(cf, p), n);
                        lemma_merge(argty.view(), tget(c2, Location::Var(cf, p)), n);
                    }
                    let g = get(Location::Var(cf, p), ctxt);
                    argty = TypeLattice::merge(&argty, &g);
                    k = k + 1;
                }
                assert(callees@.take(callees.len() as int) =~= callees@);
                let ghost t = argty.view();
                k = 0;
                while k < callees.len()
                    invariant
                        k <= callees.len(),
                        i < args.len(),
                        n == ast.fns@.len(),
                        ty_pre(*ast, fid as int, *ctxt),
                        tctx_le(c_in, tview(*ctxt)),
                    tctx_le(c_in, tview(*ctxt)),
                        forall|j: int| 0 <= j < callees@.len() ==> #[trigger] callees@[j] < n,
                        forall|j: int| 0 <= j < callees@.len()
                            ==> ast.fns@[#[trigger] callees@[j] as int].args@.len() == args@.len(),
                        argty.wf(),
                        argty.view() == t,
                        lat_ok(t, n),
                        tview(*ctxt) == write_arg(*ast, callees@.take(k as int), i as int, t, c2),
                    decreases callees.len() - k,
                {
                    proof {
                        assert(callees@.take(k + 1).drop_last() =~= callees@.take(k as int));
                    }
                    let cf = callees[k];
                    assert(ast.fns@[callees@[k as int] as int].args@.len() == args@.len());
                    let p = ast.fns[cf].args[i];
                    let ghost cb2 = tview(*ctxt);
                    proof {
                        assert(ast.fns@[cf as int].args@.contains(p)) by {
                            assert(ast.fns@[cf as int].args@[i as int] == p);
                        }
                        lemma_tadd_ok(*ast, tview(*ctxt), Location::Var(cf, p), t, n);
                    }
                    self::add(Location::Var(cf, p), &argty, ctxt);
                    proof {
                        lemma_tctx_trans(c_in, cb2, tview(*ctxt));
                    }
                    k = k + 1;
                }
                i = i + 1;
            }
            assert(args@.take(args.len() as int) =~= args@);
            let ghost c3 = tview(*ctxt);
            let mut ret = TypeLattice::bot();
            let mut k: usize = 0;
            while k < callees.len()
                invariant
                    k <= callees.len(),
                    n == ast.fns@.len(),
                    ty_pre(*ast, fid as int, *ctxt),
                    tctx_le(c_in, tview(*ctxt)),
                    tview(*ctxt) == c3,
                    forall|j: int| 0 <= j < callees@.len() ==> #[trigger] callees@[j] < n,
                    ret.wf(),
                    lat_ok(ret.view(), n),
                    ret.view() == acc_ret(callees@.take(k as int), c3),
                decreases callees.len() - k,
            {
                proof {
                    assert(callees@.take(k + 1).drop_last() =~= callees@.take(k as int));
                }
                let cf = callees[k];
                proof {
                    lemma_tget_ok(c3, Location::RetVal(cf), n);
                    lemma_merge(ret.view(), tget(c3, Location::RetVal(cf)), n);
                }
                let g = get(Location::RetVal(cf), ctxt);
                ret = TypeLattice::merge(&ret, &g);
                k = k + 1;
            }
            assert(callees@.take(callees.len() as int) =~= callees@);
            let ghost t = ret.view();
            k = 0;
            while k < callees.len()
                invariant
                    k <= callees.len(),
                    n == ast.fns@.len(),
                    ty_pre(*ast, fid as int, *ctxt),
                    tctx_le(c_in, tview(*ctxt)),
                    forall|j: int| 0 <= j < callees@.len() ==> #[trigger] callees@[j] < n,
                    ret.wf(),
                    ret.view() == t,
                    lat_ok(t, n),
                    tview(*ctxt) == write_ret(callees@.take(k as int), t, c3),
                decreases callees.len() - k,
            {
                proof {
                    assert(callees@.take(k + 1).drop_last() =~= callees@.take(k as int));
                }
                let cf = callees[k];
                let ghost cb2 = tview(*ctxt);
                proof {
                    lemma_tadd_ok(*ast, tview(*ctxt), Location::RetVal(cf), t, n);
                }
                self::add(Location::RetVal(cf), &ret, ctxt);
                proof {
                    lemma_tctx_trans(c_in, cb2, tview(*ctxt));
                }
                k = k + 1;
            }
            ret
        },
        Expr::BinOp(kind, l, r) => {
            let _l = ty_infer_expr(l, fid, ast, ctxt);
            let ghost cm = tview(*ctxt);
            let _r = ty_infer_expr(r, fid, ast, ctxt);
            proof {
                lemma_tctx_trans(c_in, cm, tview(*ctxt));
            }
            match kind {
                BinOpKind::Equ | BinOpKind::Ne | BinOpKind::Lt | BinOpKind::Gt => TypeLattice::only(true, false, false, false, false),
                _ => TypeLattice::only(false, false, false, true, false),
            }
        },
        Expr::IntLit(_) => TypeLattice::only(false, false, false, true, false),
        Expr::StringLit(_) => TypeLattice::only(false, false, true, false, false),
        Expr::BoolLit(_) => TypeLattice::only(true, false, false, false, false),
        Expr::NilLit => TypeLattice::only(false, true, false, false, false),
        Expr::Var(v) => {
            let l = get_var_loc(fid, *v, ast);
            proof {
                lemma_tget_ok(tview(*ctxt), l, n);
            }
            get(l, ctxt)
        },
        Expr::Input => TypeLattice::only(true, true, true, true, false),
        Expr::NewDict => TypeLattice::bot(),
        Expr::IndexDict(..) => TypeLattice::bot(),
    }
}


/// One inference step on the statements of `body`, in order.
fn ty_infer_body(body: &Body, fid: FnId, ast: &AST, ctxt: &mut TyLatticeCtxt)
    requires
        ty_pre(*ast, fid as int, *old(ctxt)),
        ty_body_ok(body@, ast.fns@.len() as nat, assigned(*ast, fid as int)),
    ensures
        ty_pre(*ast, fid as int, *final(ctxt)),
        tview(*final(ctxt)) == ty_body(*ast, fid as int, body@, tview(*old(ctxt))),
        tctx_le(tview(*old(ctxt)), tview(*final(ctxt))),
    decreases body@, 1nat,
{
    let ghost c0 = tview(*ctxt);
    let mut i: usize = 0;
    while i < body.len()
        invariant
            i <= body.len(),
            ty_pre(*ast, fid as int, *ctxt),
            tctx_le(c0, tview(*ctxt)),
            ty_body_ok(body@, ast.fns@.len() as nat, assigned(*ast, fid as int)),
            tview(*ctxt) == ty_body(*ast, fid as int, body@.take(i as int), c0),
        decreases body.len() - i,
    {
        proof {
            lemma_ty_body_ok_at(body@, ast.fns@.len() as nat, assigned(*ast, fid as int), i as int);
            assert(body@.take(i + 1).drop_last() =~= body@.take(i as int));
        }
        let ghost cb = tview(*ctxt);
        ty_infer_stmt(&body[i], fid, ast, ctxt);
        proof {
            lemma_tctx_trans(c0, cb, tview(*ctxt));
        }
        i = i + 1;
    }
    assert(body@.take(body.len() as int) =~= body@);
}

/// One inference step on a statement of function `fid`.
fn ty_infer_stmt(stmt: &Stmt, fid: FnId, ast: &AST, ctxt: &mut TyLatticeCtxt)
    requires
        ty_pre(*ast, fid as int, *old(ctxt)),
        ty_stmt_ok(*stmt, ast.fns@.len() as nat, assigned(*ast, fid as int)),
    ensures
        ty_pre(*ast, fid as int, *final(ctxt)),
        tview(*final(ctxt)) == ty_stmt(*ast, fid as int, *stmt, tview(*old(ctxt))),
        tctx_le(tview(*old(ctxt)), tview(*final(ctxt))),
    decreases *stmt, 0nat,
{
    let ghost n = ast.fns@.len() as nat;
    let ghost c0 = tview(*ctxt);
    match stmt {
        Stmt::Global(_) => {},
        Stmt::ListStore(l, i, v) => {
            let _l = ty_infer_expr(l, fid, ast, ctxt);
            let ghost c1 = tview(*ctxt);
            let _i = ty_infer_expr(i, fid, ast, ctxt);
            let ghost c2 = tview(*ctxt);
            let v = ty_infer_expr(v, fid, ast, ctxt);
            let ghost c3 = tview(*ctxt);
            proof {
                lemma_tadd_ok(*ast, tview(*ctxt), Location::ListItem, v.view(), n);
            }
            self::add(Location::ListItem, &v, ctxt);
            proof {
                lemma_tctx_trans(c0, c1, c2);
                lemma_tctx_trans(c0, c2, c3);
                lemma_tctx_trans(c0, c3, tview(*ctxt));
            }
        },
        Stmt::Push(l, v) => {
            let _l = ty_infer_expr(l, fid, ast, ctxt);
            let ghost c1 = tview(*ctxt);
            let v = ty_infer_expr(v, fid, ast, ctxt);
            let ghost c2 = tview(*ctxt);
            proof {
                lemma_tadd_ok(*ast, tview(*ctxt), Location::ListItem, v.view(), n);
            }
            self::add(Location::ListItem, &v, ctxt);
            proof {
                lemma_tctx_trans(c0, c1, c2);
                lemma_tctx_trans(c0, c2, tview(*ctxt));
            }
        },
        Stmt::DictStore(..) => {},
        Stmt::Assign(v, e) => {
            let r = ty_infer_expr(e, fid, ast, ctxt);
            let ghost c1 = tview(*ctxt);
            let l = get_var_loc(fid, *v, ast);
            proof {
                assert(assigned(*ast, fid as int).contains(*v));
                assert(fn_var(ast.fns@[fid as int], *v));
                if global_var(*ast, fid as int, *v) {
                    assert(l == Location::GlobalVar(*v));
                    let fi: int = fid as int;
                    assert(0 <= fi < ast.fns@.len() && fn_var(ast.fns@[fi], *v));
                    lemma_global_loc_ok(*ast, fi, *v);
                } else {
                    assert(l == Location::Var(fid, *v));
                    assert(ty_loc_ok(*ast, Location::Var(fid, *v)));
                }
                lemma_tadd_ok(*ast, tview(*ctxt), l, r.view(), n);
            }
            self::add(l, &r, ctxt);
            proof {
                lemma_tctx_trans(c0, c1, tview(*ctxt));
            }
        },
        Stmt::Return(e) => {
            let r = ty_infer_expr(e, fid, ast, ctxt);
            let ghost c1 = tview(*ctxt);
            proof {
                lemma_tadd_ok(*ast, tview(*ctxt), Location::RetVal(fid), r.view(), n);
            }
            self::add(Location::RetVal(fid), &r, ctxt);
            proof {
                lemma_tctx_trans(c0, c1, tview(*ctxt));
            }
        },
        Stmt::If(c, then_, else_) => {
            ty_infer_expr(c, fid, ast, ctxt);
            let ghost c1 = tview(*ctxt);
            ty_infer_body(then_, fid, ast, ctxt);
            let ghost c2 = tview(*ctxt);
            ty_infer_body(else_, fid, ast, ctxt);
            proof {
                lemma_tctx_trans(c0, c1, c2);
                lemma_tctx_trans(c0, c2, tview(*ctxt));
            }
        },
        Stmt::While(c, body) => {
            ty_infer_expr(c, fid, ast, ctxt);
            let ghost c1 = tview(*ctxt);
            ty_infer_body(body, fid, ast, ctxt);
            proof {
                lemma_tctx_trans(c0, c1, tview(*ctxt));
            }
        },
        Stmt::Print(e) => {
            ty_infer_expr(e, fid, ast, ctxt);
        },
    }
}

/// One inference step over the bodies of the first `k` functions in order.
pub open spec fn ty_fns(ast: AST, k: nat, c: Map<Location, Lat>) -> Map<Location, Lat>
    decreases k,
{
    if k == 0 {
        c
    } else {
        let f = (k - 1) as int;
        ty_body(ast, f, ast.fns@[f].body@, ty_fns(ast, (k - 1) as nat, c))
    }
}

/// `k` inference rounds over the whole program from `c`.
pub open spec fn ty_rounds(ast: AST, k: nat, c: Map<Location, Lat>) -> Map<Location, Lat>
    decreases k,
{
    if k == 0 {
        c
    } else {
        ty_fns(ast, ast.fns@.len() as nat, ty_rounds(ast, (k - 1) as nat, c))
    }
}

/// Whether the inference handles every function body of `ast`.
pub open spec fn ty_ready(ast: AST) -> bool {
    forall|f: int| 0 <= f < ast.fns@.len() ==> ty_body_ok(#[trigger] ast.fns@[f].body@, ast.fns@.len() as nat, assigned(ast, f))
}

/// One inference round over the bodies of all functions, in order.
fn ty_infer_round(ast: &AST, ctxt: &mut TyLatticeCtxt)
    requires
        ty_ready(*ast),
        tctx_wf(*old(ctxt)),
        tctx_ok(tview(*old(ctxt)), ast.fns@.len() as nat),
        tkeys_ok(*ast, tview(*old(ctxt))),
    ensures
        tctx_wf(*final(ctxt)),
        tctx_ok(tview(*final(ctxt)), ast.fns@.len() as nat),
        tkeys_ok(*ast, tview(*final(ctxt))),
        tview(*final(ctxt)) == ty_fns(*ast, ast.fns@.len() as nat, tview(*old(ctxt))),
        tctx_le(tview(*old(ctxt)), tview(*final(ctxt))),
{
    let ghost c0 = tview(*ctxt);
    let mut fid: usize = 0;
    while fid < ast.fns.len()
        invariant
            fid <= ast.fns.len(),
            ty_ready(*ast),
            tctx_wf(*ctxt),
            tctx_ok(tview(*ctxt), ast.fns@.len() as nat),
            tkeys_ok(*ast, tview(*ctxt)),
            tview(*ctxt) == ty_fns(*ast, fid as nat, c0),
            tctx_le(c0, tview(*ctxt)),
        decreases ast.fns.len() - fid,
    {
        proof {
            assert(ty_body_ok(ast.fns@[fid as int].body@, ast.fns@.len() as nat, assigned(*ast, fid as int)));
        }
        let ghost cb = tview(*ctxt);
        ty_infer_body(&ast.fns[fid].body, fid, ast, ctxt);
        proof {
            lemma_tctx_trans(c0, cb, tview(*ctxt));
        }
        fid = fid + 1;
    }
}


/// The mathematical value of a `LayoutType`.
pub open spec fn lt_view(t: LayoutType) -> LayoutV
    decreases t, 1nat,
{
    match t {
        LayoutType::Bool => LayoutV::Bool,
        LayoutType::Nil => LayoutV::Nil,
        LayoutType::Str => LayoutV::Str,
        LayoutType::Int => LayoutV::Int,
        LayoutType::List => LayoutV::List,
        LayoutType::Fn(a, r) => {
            proof {
                assert(decreases_to!(a => a@));
            }
            LayoutV::Fn(lts_view(a@), Box::new(lt_view(*r)))
        },
        LayoutType::Value => LayoutV::Value,
    }
}

/// The mathematical values of a list of `LayoutType`s.
pub open spec fn lts_view(s: Seq<LayoutType>) -> Seq<LayoutV>
    decreases s, 0nat,
{
    if s.len() == 0 {
        Seq::empty()
    } else {
        lts_view(s.drop_last()).push(lt_view(s.last()))
    }
}

/// The mathematical value of an optional `LayoutType`.
pub open spec fn opt_view(o: Option<LayoutType>) -> Option<LayoutV> {
    match o {
        Some(t) => Some(lt_view(t)),
        None => None,
    }
}

/// How many kinds of value `x` allows, all functions counting as one.
pub open spec fn kind_count(x: Lat) -> int {
    (if x.int { 1int } else { 0 }) + (if x.boolean { 1int } else { 0 }) + (if x.nil { 1int } else { 0 })
        + (if x.string { 1int } else { 0 }) + (if x.list { 1int } else { 0 }) + (if x.fns.len() > 0 { 1int } else { 0 })
}

/// The representation of values allowed by `x` in context `c`: `Value`
/// unless `x` allows exactly one kind; a function's representation lists
/// those of its parameters and result, taken from the first function `x`
/// allows.  `fuel` bounds how deeply function representations nest;
/// `None` when they nest deeper.
pub open spec fn layout_spec(ast: AST, c: Map<Location, Lat>, x: Lat, fuel: nat) -> Option<LayoutV>
    decreases fuel, 0nat, 0nat,
{
    if kind_count(x) != 1 {
        Some(LayoutV::Value)
    } else if x.boolean {
        Some(LayoutV::Bool)
    } else if x.int {
        Some(LayoutV::Int)
    } else if x.string {
        Some(LayoutV::Str)
    } else if x.nil {
        Some(LayoutV::Nil)
    } else if x.list {
        Some(LayoutV::List)
    } else if x.fns.len() > 0 {
        if fuel == 0 {
            None
        } else {
            fn_type_spec(ast, c, x.fns[0], (fuel - 1) as nat)
        }
    } else {
        Some(LayoutV::Value)
    }
}

/// The representation chosen for a lattice holds every value the lattice
/// allows: one that allows booleans gets `Bool` or `Value`, one that allows
/// `nil` gets `Nil` or `Value`, and so on for strings, integers and lists,
/// and one that allows functions gets a function representation or
/// `Value`.  It is `Value` only where the lattice allows no kind or more
/// than one.
pub proof fn lemma_layout_spec_sound(ast: AST, c: Map<Location, Lat>, x: Lat, fuel: nat)
    ensures
        layout_spec(ast, c, x, fuel) matches Some(l) ==> {
            &&& x.boolean ==> l == LayoutV::Bool || l == LayoutV::Value
            &&& x.nil ==> l == LayoutV::Nil || l == LayoutV::Value
            &&& x.string ==> l == LayoutV::Str || l == LayoutV::Value
            &&& x.int ==> l == LayoutV::Int || l == LayoutV::Value
            &&& x.list ==> l == LayoutV::List || l == LayoutV::Value
            &&& x.fns.len() > 0 ==> l is Fn || l == LayoutV::Value
            &&& l == LayoutV::Value ==> kind_count(x) != 1
        },
{
    if kind_count(x) == 1 && x.fns.len() > 0 && fuel > 0 {
        let f = x.fns[0];
        assert(fn_type_spec(ast, c, f, (fuel - 1) as nat) matches Some(l) ==> l is Fn);
    }
}

/// The representation of function `f`: those of its parameters and of its
/// return value in context `c`.
pub open spec fn fn_type_spec(ast: AST, c: Map<Location, Lat>, f: FnId, fuel: nat) -> Option<LayoutV>
    decreases fuel, 2nat, 0nat,
{
    let ps = ast.fns@[f as int].args@;
    match (args_layout(ast, c, f, ps, fuel), layout_spec(ast, c, tget(c, Location::RetVal(f)), fuel)) {
        (Some(a), Some(r)) => Some(LayoutV::Fn(a, Box::new(r))),
        _ => None,
    }
}

/// The representations of the parameters `ps` of function `f`.
pub open spec fn args_layout(ast: AST, c: Map<Location, Lat>, f: FnId, ps: Seq<Symbol>, fuel: nat) -> Option<Seq<LayoutV>>
    decreases fuel, 1nat, ps.len(),
{
    if ps.len() == 0 {
        Some(Seq::empty())
    } else {
        match (args_layout(ast, c, f, ps.drop_last(), fuel), layout_spec(ast, c, tget(c, Location::Var(f, ps.last())), fuel)) {
            (Some(a), Some(t)) => Some(a.push(t)),
            _ => None,
        }
    }
}

/// The representation of values allowed by `x`, with function
/// representations nested `fuel` deep at most.
fn layout_within(x: &TypeLattice, ctxt: &TyLatticeCtxt, ast: &AST, fuel: usize) -> (r: Option<LayoutType>)
    requires
        x.wf(),
        lat_ok(x.view(), ast.fns@.len() as nat),
        tctx_wf(*ctxt),
        tctx_ok(tview(*ctxt), ast.fns@.len() as nat),
    ensures
        opt_view(r) == layout_spec(*ast, tview(*ctxt), x.view(), fuel as nat),
    decreases fuel, 0nat,
{
    let mut count: usize = 0;
    if x.might_be_int {
        count = count + 1;
    }
    if x.might_be_bool {
        count = count + 1;
    }
    if x.might_be_nil {
        count = count + 1;
    }
    if x.might_be_str {
        count = count + 1;
    }
    if x.might_be_list {
        count = count + 1;
    }
    if x.fn_options.len() > 0 {
        count = count + 1;
    }
    if count != 1 {
        Some(LayoutType::Value)
    } else if x.might_be_bool {
        Some(LayoutType::Bool)
    } else if x.might_be_int {
        Some(LayoutType::Int)
    } else if x.might_be_str {
        Some(LayoutType::Str)
    } else if x.might_be_nil {
        Some(LayoutType::Nil)
    } else if x.might_be_list {
        Some(LayoutType::List)
    } else if x.fn_options.len() > 0 {
        if fuel == 0 {
            None
        } else {
            fn_type_within(x.fn_options[0], ast, ctxt, fuel - 1)
        }
    } else {
        Some(LayoutType::Value)
    }
}

/// The representation of function `fid`, with function representations
/// nested `fuel` deep at most.
fn fn_type_within(fid: FnId, ast: &AST, ctxt: &TyLatticeCtxt, fuel: usize) -> (r: Option<LayoutType>)
    requires
        fid < ast.fns@.len(),
        tctx_wf(*ctxt),
        tctx_ok(tview(*ctxt), ast.fns@.len() as nat),
    ensures
        opt_view(r) == fn_type_spec(*ast, tview(*ctxt), fid, fuel as nat),
    decreases fuel, 1nat,
{
    let ghost c = tview(*ctxt);
    let ghost n = ast.fns@.len() as nat;
    let args = &ast.fns[fid].args;
    let mut argtys: Vec<LayoutType> = Vec::new();
    let mut failed = false;
    let mut i: usize = 0;
    while i < args.len()
        invariant
            i <= args.len(),
            fid < ast.fns@.len(),
            *args == ast.fns@[fid as int].args,
            tctx_wf(*ctxt),
            tctx_ok(tview(*ctxt), n),
            n == ast.fns@.len(),
            c == tview(*ctxt),
            failed ==> args_layout(*ast, c, fid, args@.take(i as int), fuel as nat) is None,
            !failed ==> args_layout(*ast, c, fid, args@.take(i as int), fuel as nat) == Some(lts_view(argtys@)),
        decreases args.len() - i,
    {
        proof {
            assert(args@.take(i + 1).drop_last() =~= args@.take(i as int));
            lemma_tget_ok(c, Location::Var(fid, args@[i as int]), n);
        }
        let g = get(Location::Var(fid, args[i]), ctxt);
        match layout_within(&g, ctxt, ast, fuel) {
            None => {
                failed = true;
            },
            Some(t) => {
                if !failed {
                    let ghost a0 = argtys@;
                    argtys.push(t);
                    proof {
                        assert(argtys@.drop_last() =~= a0);
                    }
                }
            },
        }
        i = i + 1;
    }
    assert(args@.take(args.len() as int) =~= args@);
    proof {
        lemma_tget_ok(c, Location::RetVal(fid), n);
    }
    let rl = get(Location::RetVal(fid), ctxt);
    let rt = layout_within(&rl, ctxt, ast, fuel);
    if failed {
        return None;
    }
    match rt {
        None => None,
        Some(t) => Some(LayoutType::Fn(argtys, Box::new(t))),
    }
}


/// The representation of values allowed by `x` in context `ctxt`;
/// `None` when function representations nest deeper than there are
/// functions in `ast`.
pub fn layout(x: TypeLattice, ctxt: &TyLatticeCtxt, ast: &AST) -> (r: Option<LayoutType>)
    requires
        x.wf(),
        lat_ok(x.view(), ast.fns@.len() as nat),
        tctx_wf(*ctxt),
        tctx_ok(tview(*ctxt), ast.fns@.len() as nat),
    ensures
        opt_view(r) == layout_spec(*ast, tview(*ctxt), x.view(), ast.fns@.len() as nat),
{
    layout_within(&x, ctxt, ast, ast.fns.len())
}

/// The representation of function `fid` in context `ctxt`; `None` when
/// function representations nest deeper than there are functions in `ast`.
pub fn fn_type_of(fid: FnId, ast: &AST, ctxt: &TyLatticeCtxt) -> (r: Option<LayoutType>)
    requires
        fid < ast.fns@.len(),
        tctx_wf(*ctxt),
        tctx_ok(tview(*ctxt), ast.fns@.len() as nat),
    ensures
        opt_view(r) == fn_type_spec(*ast, tview(*ctxt), fid, ast.fns@.len() as nat),
{
    fn_type_within(fid, ast, ctxt, ast.fns.len())
}

/// Whether `v` is a variable of `f`: an argument, or a name its body reads
/// or assigns.
pub open spec fn fn_var(f: FnDef, v: Symbol) -> bool {
    f.args@.contains(v) || body_reads(f.body@, v) || body_assigns(f.body@, v)
}

/// Whether the inference starts with an entry at `l` for the first `k`
/// functions: their return values and the locations of their variables.
pub open spec fn init_key(ast: AST, k: int, l: Location) -> bool {
    match l {
        Location::RetVal(f) => f < k,
        Location::Var(f, v) => f < k && fn_var(ast.fns@[f as int], v) && !global_var(ast, f as int, v),
        Location::GlobalVar(v) => exists|f: int| 0 <= f < k && #[trigger] fn_var(ast.fns@[f], v) && global_var(ast, f, v),
        Location::ListItem => false,
    }
}

/// The context the inference starts from: the bottom of the lattice at
/// the return value and at every variable of each function, and at the
/// list elements.
pub open spec fn init_ctx(ast: AST) -> Map<Location, Lat> {
    Map::new(|l: Location| l == Location::ListItem || init_key(ast, ast.fns@.len() as int, l), |l: Location| lat_bot())
}

/// Whether `l` is the location of one of the variables `vs` of function `fid`.
pub open spec fn var_key(ast: AST, fid: int, vs: Seq<Symbol>, l: Location) -> bool {
    match l {
        Location::Var(f, v) => f == fid && vs.contains(v) && !global_var(ast, fid, v),
        Location::GlobalVar(v) => vs.contains(v) && global_var(ast, fid, v),
        _ => false,
    }
}

/// The context the inference starts from.
fn initial_ctxt(ast: &AST) -> (m: TyLatticeCtxt)
    ensures
        tctx_wf(m),
        tview(m) == init_ctx(*ast),
        tctx_ok(tview(m), ast.fns@.len() as nat),
{
    let ghost n = ast.fns@.len() as nat;
    let mut m: TyLatticeCtxt = AssocMap::new();
    assert(tview(m) =~= Map::new(|l: Location| init_key(*ast, 0, l), |l: Location| lat_bot()));
    let mut fid: usize = 0;
    while fid < ast.fns.len()
        invariant
            fid <= ast.fns.len(),
            n == ast.fns@.len(),
            tctx_wf(m),
            tview(m) == Map::new(|l: Location| init_key(*ast, fid as int, l), |l: Location| lat_bot()),
        decreases ast.fns.len() - fid,
    {
        let ghost t0 = tview(m);
        m.insert(Location::RetVal(fid), TypeLattice::bot());
        assert(tview(m) =~= t0.insert(Location::RetVal(fid), lat_bot()));
        let ghost pre = |l: Location| init_key(*ast, fid as int, l) || l == Location::RetVal(fid);
        assert(tview(m) =~= Map::new(|l: Location| pre(l) || var_key(*ast, fid as int, Seq::<Symbol>::empty(), l), |l: Location| lat_bot()));
        let vs = crate::vars::get_vars(&ast.fns[fid]);
        let mut j: usize = 0;
        while j < vs.len()
            invariant
                j <= vs.len(),
                fid < ast.fns@.len(),
                tctx_wf(m),
                tview(m) == Map::new(|l: Location| pre(l) || var_key(*ast, fid as int, vs@.take(j as int), l), |l: Location| lat_bot()),
            decreases vs.len() - j,
        {
            proof {
                crate::seqs::lemma_take_one_more(vs@, j as int);
            }
            let l = get_var_loc(fid, vs[j], ast);
            let ghost t1 = tview(m);
            m.insert(l, TypeLattice::bot());
            assert(tview(m) =~= t1.insert(l, lat_bot()));
            assert(tview(m) =~= Map::new(|l: Location| pre(l) || var_key(*ast, fid as int, vs@.take(j + 1), l), |l: Location| lat_bot()));
            j = j + 1;
        }
        assert(vs@.take(vs.len() as int) =~= vs@);
        assert forall|l: Location| #[trigger] init_key(*ast, fid + 1, l) <==> (pre(l) || var_key(*ast, fid as int, vs@, l)) by {
            match l {
                Location::GlobalVar(v) => {
                    if init_key(*ast, fid + 1, l) {
                        let f = choose|f: int| 0 <= f < fid + 1 && #[trigger] fn_var(ast.fns@[f], v) && global_var(*ast, f, v);
                        if f < fid {
                            assert(init_key(*ast, fid as int, l));
                        }
                    }
                    if var_key(*ast, fid as int, vs@, l) {
                        assert(fn_var(ast.fns@[fid as int], v));
                    }
                    if init_key(*ast, fid as int, l) {
                        let f = choose|f: int| 0 <= f < fid && #[trigger] fn_var(ast.fns@[f], v) && global_var(*ast, f, v);
                        assert(fn_var(ast.fns@[f], v));
                    }
                },
                _ => {},
            }
        }
        assert(tview(m) =~= Map::new(|l: Location| init_key(*ast, fid + 1, l), |l: Location| lat_bot()));
        fid = fid + 1;
    }
    let ghost t2 = tview(m);
    m.insert(Location::ListItem, TypeLattice::bot());
    assert(tview(m) =~= t2.insert(Location::ListItem, lat_bot()));
    assert(tview(m) =~= init_ctx(*ast));
    assert(lat_bot().fns =~= Seq::<FnId>::empty());
    m
}

/// The representation of each location of `c`, where every location has one.
pub open spec fn layouts_of(ast: AST, c: Map<Location, Lat>) -> Map<Location, LayoutV> {
    c.map_values(|t: Lat| layout_spec(ast, c, t, ast.fns@.len() as nat).unwrap())
}

/// Whether every location of `c` has a representation.
pub open spec fn all_laid_out(ast: AST, c: Map<Location, Lat>) -> bool {
    forall|l: Location| #[trigger] c.contains_key(l) ==> layout_spec(ast, c, c[l], ast.fns@.len() as nat) is Some
}

/// The mathematical value of a representation context.
pub open spec fn tyview(m: TyCtxt) -> Map<Location, LayoutV> {
    m.view().map_values(|t: LayoutType| lt_view(t))
}

/// Whether `c` is where the inference settles: reached by rounds from the
/// initial context, and left unchanged by one more round.
pub open spec fn is_ty_fixpoint(ast: AST, c: Map<Location, Lat>) -> bool {
    &&& exists|k: nat| #[trigger] ty_rounds(ast, k, init_ctx(ast)) == c
    &&& ty_fns(ast, ast.fns@.len() as nat, c) == c
}

/// The locations of the initial context can be recorded at.
proof fn lemma_init_keys(ast: AST)
    ensures
        tkeys_ok(ast, init_ctx(ast)),
        tctx_ok(init_ctx(ast), ast.fns@.len() as nat),
{
    assert(lat_bot().fns =~= Seq::<FnId>::empty());
    assert forall|l: Location| #[trigger] init_ctx(ast).contains_key(l) implies ty_loc_ok(ast, l) by {
        match l {
            Location::GlobalVar(v) => {
                let f = choose|f: int| 0 <= f < ast.fns@.len() as int && #[trigger] fn_var(ast.fns@[f], v) && global_var(ast, f, v);
            },
            _ => {},
        }
    }
}

/// The location a node names in function `f`, where it reads or assigns a
/// variable.
pub open spec fn node_loc(f: FnId, x: Node) -> Location {
    match x {
        Node::E(Expr::Var(v)) => Location::Var(f, v),
        Node::S(Stmt::Assign(v, _)) => Location::Var(f, v),
        _ => Location::ListItem,
    }
}

/// The global location a node names, where it reads or assigns a variable.
pub open spec fn node_gloc(x: Node) -> Location {
    match x {
        Node::E(Expr::Var(v)) => Location::GlobalVar(v),
        Node::S(Stmt::Assign(v, _)) => Location::GlobalVar(v),
        _ => Location::ListItem,
    }
}

/// The locations function `f` contributes to the universe.
pub open spec fn fn_tuniverse(ast: AST, f: int) -> Seq<Location> {
    let args = ast.fns@[f].args@;
    let nodes = body_nodes(ast.fns@[f].body@);
    seq![Location::RetVal(f as FnId)]
        + args.map_values(|a: Symbol| Location::Var(f as FnId, a))
        + args.map_values(|a: Symbol| Location::GlobalVar(a))
        + nodes.map_values(|x: Node| node_loc(f as FnId, x))
        + nodes.map_values(|x: Node| node_gloc(x))
}

/// The contributions of the first `k` functions, after the list elements.
pub open spec fn tuniverse_upto(ast: AST, k: nat) -> Seq<Location>
    decreases k,
{
    if k == 0 {
        seq![Location::ListItem]
    } else {
        tuniverse_upto(ast, (k - 1) as nat) + fn_tuniverse(ast, k - 1)
    }
}

/// A list of every location the inference can record at.
pub open spec fn tuniverse(ast: AST) -> Seq<Location> {
    tuniverse_upto(ast, ast.fns@.len() as nat)
}

proof fn lemma_tuniverse_upto(ast: AST, k: nat, f: int, l: Location)
    requires
        0 <= f < k,
        fn_tuniverse(ast, f).contains(l),
    ensures
        tuniverse_upto(ast, k).contains(l),
    decreases k,
{
    let u = tuniverse_upto(ast, k);
    let p = tuniverse_upto(ast, (k - 1) as nat);
    if f < k - 1 {
        lemma_tuniverse_upto(ast, (k - 1) as nat, f, l);
        let i = choose|i: int| 0 <= i < p.len() && p[i] == l;
        assert(u[i] == l);
    } else {
        let q = fn_tuniverse(ast, f);
        let i = choose|i: int| 0 <= i < q.len() && q[i] == l;
        assert(u[p.len() + i] == l);
    }
}

proof fn lemma_list_in_tuniverse(ast: AST, k: nat)
    ensures
        tuniverse_upto(ast, k).contains(Location::ListItem),
    decreases k,
{
    if k == 0 {
        assert(tuniverse_upto(ast, 0)[0] == Location::ListItem);
    } else {
        lemma_list_in_tuniverse(ast, (k - 1) as nat);
        let p = tuniverse_upto(ast, (k - 1) as nat);
        let i = choose|i: int| 0 <= i < p.len() && p[i] == Location::ListItem;
        assert(tuniverse_upto(ast, k)[i] == Location::ListItem);
    }
}

/// A variable of function `f` has its locations in `f`'s contribution.
proof fn lemma_fn_var_in(ast: AST, f: int, v: Symbol)
    requires
        0 <= f < ast.fns@.len(),
        fn_var(ast.fns@[f], v),
    ensures
        fn_tuniverse(ast, f).contains(Location::Var(f as FnId, v)),
        fn_tuniverse(ast, f).contains(Location::GlobalVar(v)),
{
    let args = ast.fns@[f].args@;
    let nodes = body_nodes(ast.fns@[f].body@);
    let q = fn_tuniverse(ast, f);
    let a = args.len();
    let m = nodes.len();
    if args.contains(v) {
        let i = choose|i: int| 0 <= i < args.len() && args[i] == v;
        assert(q[1 + i] == Location::Var(f as FnId, v));
        assert(q[1 + a + i] == Location::GlobalVar(v));
    } else {
        let i = if body_reads(ast.fns@[f].body@, v) {
            choose|i: int| 0 <= i < nodes.len() && #[trigger] occurs_at(Occurrence::Read, nodes[i], v)
        } else {
            choose|i: int| 0 <= i < nodes.len() && #[trigger] occurs_at(Occurrence::Assigned, nodes[i], v)
        };
        assert(node_loc(f as FnId, nodes[i]) == Location::Var(f as FnId, v));
        assert(node_gloc(nodes[i]) == Location::GlobalVar(v));
        assert(q[1 + 2 * a + i] == Location::Var(f as FnId, v));
        assert(q[1 + 2 * a + m + i] == Location::GlobalVar(v));
    }
}

/// Every location the inference can record at is in the universe.
proof fn lemma_in_tuniverse(ast: AST, l: Location)
    requires
        ty_loc_ok(ast, l),
    ensures
        tuniverse(ast).contains(l),
{
    let n = ast.fns@.len() as nat;
    match l {
        Location::ListItem => {
            lemma_list_in_tuniverse(ast, n);
        },
        Location::RetVal(f) => {
            assert(fn_tuniverse(ast, f as int)[0] == l);
            lemma_tuniverse_upto(ast, n, f as int, l);
        },
        Location::Var(f, v) => {
            lemma_fn_var_in(ast, f as int, v);
            lemma_tuniverse_upto(ast, n, f as int, l);
        },
        Location::GlobalVar(v) => {
            let f = choose|f: int| 0 <= f < ast.fns@.len() && #[trigger] fn_var(ast.fns@[f], v);
            lemma_fn_var_in(ast, f, v);
            lemma_tuniverse_upto(ast, n, f, l);
        },
    }
}

/// How much can still be learnt at `l`.
pub open spec fn tcost(c: Map<Location, Lat>, l: Location, n: nat) -> int {
    if c.contains_key(l) {
        6 + n as int - crate::analysis::lat_size(c[l])
    } else {
        7 + n as int
    }
}

/// How much can still be learnt at the locations `u`.
pub open spec fn tpotential(c: Map<Location, Lat>, u: Seq<Location>, n: nat) -> int
    decreases u.len(),
{
    if u.len() == 0 {
        0
    } else {
        tpotential(c, u.drop_last(), n) + tcost(c, u.last(), n)
    }
}

proof fn lemma_tpotential(c: Map<Location, Lat>, d: Map<Location, Lat>, u: Seq<Location>, n: nat)
    requires
        tctx_ok(c, n),
        tctx_ok(d, n),
        tctx_le(c, d),
    ensures
        tpotential(d, u, n) <= tpotential(c, u, n),
        0 <= tpotential(d, u, n),
        (exists|i: int| 0 <= i < u.len() && #[trigger] tcost(d, u[i], n) < tcost(c, u[i], n)) ==> tpotential(d, u, n) < tpotential(c, u, n),
    decreases u.len(),
{
    if u.len() > 0 {
        let p = u.drop_last();
        lemma_tpotential(c, d, p, n);
        let l = u.last();
        if d.contains_key(l) {
            crate::analysis::lemma_lat_size(d[l], d[l], n);
            if c.contains_key(l) {
                crate::analysis::lemma_lat_size(c[l], d[l], n);
            }
        }
        if exists|i: int| 0 <= i < u.len() && #[trigger] tcost(d, u[i], n) < tcost(c, u[i], n) {
            let i = choose|i: int| 0 <= i < u.len() && #[trigger] tcost(d, u[i], n) < tcost(c, u[i], n);
            if i < u.len() - 1 {
                assert(p[i] == u[i]);
                assert(tcost(d, p[i], n) < tcost(c, p[i], n));
            }
        }
    }
}

/// A round that changes a valid context strictly lowers its potential.
proof fn lemma_tprogress(ast: AST, c: Map<Location, Lat>, d: Map<Location, Lat>)
    requires
        tctx_ok(c, ast.fns@.len() as nat),
        tctx_ok(d, ast.fns@.len() as nat),
        tkeys_ok(ast, d),
        tctx_le(c, d),
        c != d,
    ensures
        0 <= tpotential(d, tuniverse(ast), ast.fns@.len() as nat) < tpotential(c, tuniverse(ast), ast.fns@.len() as nat),
{
    let n = ast.fns@.len() as nat;
    let u = tuniverse(ast);
    if !exists|l: Location| #[trigger] d.contains_key(l) && (!c.contains_key(l) || c[l] != d[l]) {
        assert(c =~= d);
    }
    let l = choose|l: Location| #[trigger] d.contains_key(l) && (!c.contains_key(l) || c[l] != d[l]);
    lemma_in_tuniverse(ast, l);
    let i = choose|i: int| 0 <= i < u.len() && u[i] == l;
    crate::analysis::lemma_lat_size(d[l], d[l], n);
    if c.contains_key(l) {
        crate::analysis::lemma_lat_size(c[l], d[l], n);
    }
    assert(tcost(d, u[i], n) < tcost(c, u[i], n));
    lemma_tpotential(c, d, u, n);
}

/// A copy of a context.
fn tcopy(a: &TyLatticeCtxt) -> (r: TyLatticeCtxt)
    requires
        tctx_wf(*a),
    ensures
        tctx_wf(r),
        tview(r) == tview(*a),
{
    let mut es: Vec<(Location, TypeLattice)> = Vec::new();
    let mut i: usize = 0;
    while i < a.entries.len()
        invariant
            i <= a.entries@.len(),
            tctx_wf(*a),
            es@.len() == i,
            forall|j: int| 0 <= j < i ==> (#[trigger] es@[j]).0 == a.entries@[j].0 && es@[j].1.view() == a.entries@[j].1.view()
                && es@[j].1.wf(),
        decreases a.entries.len() - i,
    {
        es.push((a.entries[i].0, a.entries[i].1.copy()));
        i = i + 1;
    }
    let r = AssocMap { entries: es };
    proof {
        let e = a.entries@;
        let f = r.entries@;
        assert(crate::assoc::keys_unique(f)) by {
            assert forall|x: int, y: int| 0 <= x < y < f.len() implies #[trigger] f[x].0 != #[trigger] f[y].0 by {
                assert(e[x].0 != e[y].0);
            }
        }
        crate::assoc::lemma_map_of_dom(e);
        crate::assoc::lemma_map_of_dom(f);
        assert forall|k: Location| #[trigger] tview(r).contains_key(k) <==> tview(*a).contains_key(k) by {
            if a.view().contains_key(k) {
                let q = choose|q: int| 0 <= q < e.len() && e[q].0 == k;
                assert(f[q].0 == k);
            }
            if r.view().contains_key(k) {
                let q = choose|q: int| 0 <= q < f.len() && f[q].0 == k;
                assert(e[q].0 == k);
            }
        }
        assert forall|k: Location| #[trigger] tview(r).contains_key(k) implies tview(r)[k] == tview(*a)[k] by {
            let q = choose|q: int| 0 <= q < f.len() && f[q].0 == k;
            crate::assoc::lemma_map_of_entry(e, q);
            crate::assoc::lemma_map_of_entry(f, q);
        }
        assert(tview(r) =~= tview(*a));
    }
    r
}

/// Whether two lattice values are the same.
fn tl_same(x: &TypeLattice, y: &TypeLattice) -> (r: bool)
    ensures
        r == (x.view() == y.view()),
{
    let s = crate::fnset::same_ids(&x.fn_options, &y.fn_options);
    x.might_be_bool == y.might_be_bool && x.might_be_nil == y.might_be_nil && x.might_be_str == y.might_be_str
        && x.might_be_int == y.might_be_int && x.might_be_list == y.might_be_list && s
}

/// Whether two contexts record the same.
fn tsame(a: &TyLatticeCtxt, b: &TyLatticeCtxt) -> (r: bool)
    requires
        tctx_wf(*a),
        tctx_wf(*b),
    ensures
        r == (tview(*a) == tview(*b)),
{
    proof {
        crate::assoc::lemma_map_of_dom(a.entries@);
        crate::assoc::lemma_map_of_dom(b.entries@);
    }
    let mut i: usize = 0;
    while i < a.entries.len()
        invariant
            i <= a.entries.len(),
            tctx_wf(*a),
            tctx_wf(*b),
            forall|j: int| 0 <= j < i ==> tview(*b).contains_key(#[trigger] a.entries@[j].0)
                && tview(*b)[a.entries@[j].0] == a.entries@[j].1.view(),
        decreases a.entries.len() - i,
    {
        let k = a.entries[i].0;
        proof {
            crate::assoc::lemma_map_of_entry(a.entries@, i as int);
        }
        match b.get(&k) {
            Some(w) => {
                if !tl_same(&a.entries[i].1, w) {
                    assert(tview(*a).contains_key(k) && tview(*a)[k] == a.entries@[i as int].1.view());
                    assert(tview(*b)[k] == w.view());
                    assert(tview(*a)[k] != tview(*b)[k]);
                    return false;
                }
            },
            None => {
                assert(tview(*a).contains_key(k));
                assert(!tview(*b).contains_key(k));
                return false;
            },
        }
        i = i + 1;
    }
    let mut j: usize = 0;
    while j < b.entries.len()
        invariant
            j <= b.entries.len(),
            tctx_wf(*a),
            tctx_wf(*b),
            forall|q: int| 0 <= q < j ==> tview(*a).contains_key(#[trigger] b.entries@[q].0),
        decreases b.entries.len() - j,
    {
        let k = b.entries[j].0;
        if a.position(&k).is_none() {
            proof {
                crate::assoc::lemma_map_of_entry(b.entries@, j as int);
                assert(tview(*b).contains_key(k));
                assert(!tview(*a).contains_key(k));
            }
            return false;
        }
        j = j + 1;
    }
    proof {
        crate::assoc::lemma_map_of_dom(a.entries@);
        crate::assoc::lemma_map_of_dom(b.entries@);
        assert forall|k: Location| #[trigger] tview(*a).contains_key(k) <==> tview(*b).contains_key(k) by {
            if a.view().contains_key(k) {
                let q = choose|q: int| 0 <= q < a.entries@.len() && a.entries@[q].0 == k;
                assert(tview(*b).contains_key(a.entries@[q].0));
            }
            if b.view().contains_key(k) {
                let q = choose|q: int| 0 <= q < b.entries@.len() && b.entries@[q].0 == k;
                assert(tview(*a).contains_key(b.entries@[q].0));
            }
        }
        assert forall|k: Location| #[trigger] tview(*a).contains_key(k) implies tview(*a)[k] == tview(*b)[k] by {
            let q = choose|q: int| 0 <= q < a.entries@.len() && a.entries@[q].0 == k;
            crate::assoc::lemma_map_of_entry(a.entries@, q);
            assert(tview(*b).contains_key(a.entries@[q].0));
        }
        assert(tview(*a) =~= tview(*b));
    }
    true
}

/// Type inference: inference rounds over the program from the initial
/// context until a round changes nothing, then the representation of each location; `None` in place of
/// the representations when one of them nests function representations
/// deeper than there are functions.
pub fn ty_infer(ast: &AST) -> (r: (TyLatticeCtxt, Option<TyCtxt>))
    requires
        ty_ready(*ast),
    ensures
        tctx_wf(r.0),
        is_ty_fixpoint(*ast, tview(r.0)),
        r.1 is Some <==> all_laid_out(*ast, tview(r.0)),
        r.1 matches Some(m2) ==> m2.wf() && tyview(m2) == layouts_of(*ast, tview(r.0)),
{
    let ghost n = ast.fns@.len() as nat;
    let mut m = initial_ctxt(ast);
    let ghost c0 = tview(m);
    let ghost mut k: nat = 0;
    proof {
        lemma_init_keys(*ast);
    }
    loop
        invariant
            ty_ready(*ast),
            tctx_wf(m),
            tctx_ok(tview(m), n),
            tkeys_ok(*ast, tview(m)),
            n == ast.fns@.len(),
            c0 == init_ctx(*ast),
            tview(m) == ty_rounds(*ast, k, c0),
        ensures
            tctx_wf(m),
            tctx_ok(tview(m), n),
            is_ty_fixpoint(*ast, tview(m)),
        decreases tpotential(tview(m), tuniverse(*ast), n),
    {
        let ghost cb = tview(m);
        let bkp = tcopy(&m);
        ty_infer_round(ast, &mut m);
        proof {
            k = k + 1;
        }
        if tsame(&bkp, &m) {
            proof {
                assert(ty_rounds(*ast, k, c0) == ty_fns(*ast, n, ty_rounds(*ast, (k - 1) as nat, c0)));
            }
            break;
        }
        proof {
            lemma_tprogress(*ast, cb, tview(m));
        }
    }
    let ghost c = tview(m);
    let mut m2: TyCtxt = AssocMap::new();
    let mut i: usize = 0;
    while i < m.entries.len()
        invariant
            i <= m.entries.len(),
            tctx_wf(m),
            tctx_ok(c, n),
            c == tview(m),
            is_ty_fixpoint(*ast, c),
            n == ast.fns@.len(),
            m2.wf(),
            forall|l: Location| #[trigger] m2.view().contains_key(l)
                <==> exists|j: int| 0 <= j < i && m.entries@[j].0 == l,
            forall|l: Location| #[trigger] m2.view().contains_key(l)
                ==> Some(lt_view(m2.view()[l])) == layout_spec(*ast, c, c[l], n),
        decreases m.entries.len() - i,
    {
        let loc = m.entries[i].0;
        proof {
            crate::assoc::lemma_map_of_entry(m.entries@, i as int);
            assert(c.contains_key(loc));
        }
        let t = layout(m.entries[i].1.copy(), &m, ast);
        match t {
            None => {
                return (m, None);
            },
            Some(lt) => {
                m2.insert(loc, lt);
                assert forall|l: Location| #[trigger] m2.view().contains_key(l)
                    <==> exists|j: int| 0 <= j < i + 1 && m.entries@[j].0 == l by {
                    if l == loc {
                        assert(m.entries@[i as int].0 == l);
                    }
                }
            },
        }
        i = i + 1;
    }
    proof {
        crate::assoc::lemma_map_of_dom(m.entries@);
        assert forall|l: Location| #[trigger] c.contains_key(l) implies m2.view().contains_key(l) by {
            let j = choose|j: int| 0 <= j < m.entries@.len() && m.entries@[j].0 == l;
        }
        assert(tyview(m2) =~= layouts_of(*ast, c));
    }
    (m, Some(m2))
}


/// Joining a value below `r` into `r` leaves `r`.
proof fn lemma_merge_absorb(r: Lat, x: Lat)
    requires
        sorted(r.fns),
        sorted(x.fns),
        lat_le(x, r),
    ensures
        lat_merge(r, x) == r,
{
    lemma_merge_ids(r.fns, x.fns);
    lemma_sorted_same_ids(merge_ids(r.fns, x.fns), r.fns);
}

/// The join over the callees' parameters is above the value it starts
/// from and above what each callee records at its parameter `i`.
proof fn lemma_acc_arg_bound(ast: AST, callees: Seq<FnId>, i: int, acc: Lat, c: Map<Location, Lat>, n: nat)
    requires
        tctx_ok(c, n),
        lat_ok(acc, n),
    ensures
        lat_ok(acc_arg(ast, callees, i, acc, c), n),
        lat_le(acc, acc_arg(ast, callees, i, acc, c)),
        forall|j: int| 0 <= j < callees.len() ==> lat_le(
            tget(c, Location::Var(#[trigger] callees[j], param(ast, callees[j], i))), acc_arg(ast, callees, i, acc, c)),
    decreases callees.len(),
{
    if callees.len() > 0 {
        let p = callees.drop_last();
        lemma_acc_arg_bound(ast, p, i, acc, c, n);
        let a = acc_arg(ast, p, i, acc, c);
        let g = tget(c, Location::Var(callees.last(), param(ast, callees.last(), i)));
        lemma_tget_ok(c, Location::Var(callees.last(), param(ast, callees.last(), i)), n);
        lemma_merge(a, g, n);
        assert forall|j: int| 0 <= j < callees.len() implies lat_le(
            tget(c, Location::Var(#[trigger] callees[j], param(ast, callees[j], i))), acc_arg(ast, callees, i, acc, c)) by {
            if j < p.len() {
                assert(p[j] == callees[j]);
            }
        }
    }
}

/// The join over the callees' return values is above what each callee
/// records there.
proof fn lemma_acc_ret_bound(callees: Seq<FnId>, c: Map<Location, Lat>, n: nat)
    requires
        tctx_ok(c, n),
    ensures
        lat_ok(acc_ret(callees, c), n),
        forall|j: int| 0 <= j < callees.len() ==> lat_le(tget(c, Location::RetVal(#[trigger] callees[j])), acc_ret(callees, c)),
    decreases callees.len(),
{
    if callees.len() == 0 {
        assert(lat_bot().fns =~= Seq::<FnId>::empty());
    } else {
        let p = callees.drop_last();
        lemma_acc_ret_bound(p, c, n);
        lemma_tget_ok(c, Location::RetVal(callees.last()), n);
        lemma_merge(acc_ret(p, c), tget(c, Location::RetVal(callees.last())), n);
        assert forall|j: int| 0 <= j < callees.len() implies lat_le(tget(c, Location::RetVal(#[trigger] callees[j])), acc_ret(callees, c)) by {
            if j < p.len() {
                assert(p[j] == callees[j]);
            }
        }
    }
}

/// Writing `t` back to the callees' parameters leaves each location as it
/// was or at `t`, and each callee's parameter `i` at `t`.
proof fn lemma_write_arg(ast: AST, callees: Seq<FnId>, i: int, t: Lat, c: Map<Location, Lat>, n: nat)
    requires
        tctx_ok(c, n),
        lat_ok(t, n),
        forall|j: int| 0 <= j < callees.len() ==> lat_le(tget(c, Location::Var(#[trigger] callees[j], param(ast, callees[j], i))), t),
    ensures
        forall|l: Location| #[trigger] tget(write_arg(ast, callees, i, t, c), l) == tget(c, l)
            || tget(write_arg(ast, callees, i, t, c), l) == t,
        forall|j: int| 0 <= j < callees.len()
            ==> tget(write_arg(ast, callees, i, t, c), Location::Var(#[trigger] callees[j], param(ast, callees[j], i))) == t,
    decreases callees.len(),
{
    if callees.len() > 0 {
        let p = callees.drop_last();
        assert forall|j: int| 0 <= j < p.len() implies lat_le(tget(c, Location::Var(#[trigger] p[j], param(ast, p[j], i))), t) by {
            assert(p[j] == callees[j]);
        }
        lemma_write_arg(ast, p, i, t, c, n);
        let w = write_arg(ast, p, i, t, c);
        let k = Location::Var(callees.last(), param(ast, callees.last(), i));
        assert(lat_le(tget(c, k), t));
        lemma_tget_ok(c, k, n);
        lemma_merge_absorb(t, tget(w, k));
        assert forall|l: Location| #[trigger] tget(write_arg(ast, callees, i, t, c), l) == tget(c, l)
            || tget(write_arg(ast, callees, i, t, c), l) == t by {
            assert(tget(w, l) == tget(c, l) || tget(w, l) == t);
        }
        assert forall|j: int| 0 <= j < callees.len()
            implies tget(write_arg(ast, callees, i, t, c), Location::Var(#[trigger] callees[j], param(ast, callees[j], i))) == t by {
            if j < p.len() {
                assert(p[j] == callees[j]);
            }
        }
    }
}

/// Writing `t` back to the callees' return values leaves each location as
/// it was or at `t`, and each callee's return value at `t`.
proof fn lemma_write_ret(callees: Seq<FnId>, t: Lat, c: Map<Location, Lat>, n: nat)
    requires
        tctx_ok(c, n),
        lat_ok(t, n),
        forall|j: int| 0 <= j < callees.len() ==> lat_le(tget(c, Location::RetVal(#[trigger] callees[j])), t),
    ensures
        forall|l: Location| #[trigger] tget(write_ret(callees, t, c), l) == tget(c, l) || tget(write_ret(callees, t, c), l) == t,
        forall|j: int| 0 <= j < callees.len() ==> tget(write_ret(callees, t, c), Location::RetVal(#[trigger] callees[j])) == t,
    decreases callees.len(),
{
    if callees.len() > 0 {
        let p = callees.drop_last();
        assert forall|j: int| 0 <= j < p.len() implies lat_le(tget(c, Location::RetVal(#[trigger] p[j])), t) by {
            assert(p[j] == callees[j]);
        }
        lemma_write_ret(p, t, c, n);
        let w = write_ret(p, t, c);
        let k = Location::RetVal(callees.last());
        assert(lat_le(tget(c, k), t));
        lemma_tget_ok(c, k, n);
        lemma_merge_absorb(t, tget(w, k));
        assert forall|l: Location| #[trigger] tget(write_ret(callees, t, c), l) == tget(c, l) || tget(write_ret(callees, t, c), l) == t by {
            assert(tget(w, l) == tget(c, l) || tget(w, l) == t);
        }
        assert forall|j: int| 0 <= j < callees.len() implies tget(write_ret(callees, t, c), Location::RetVal(#[trigger] callees[j])) == t by {
            if j < p.len() {
                assert(p[j] == callees[j]);
            }
        }
    }
}

/// A call makes all its possible callees agree, so that they get the same
/// representation: once an argument's value is joined with what the
/// callees record at that parameter and written back, every callee records
/// exactly that join there; and once their return values are joined and
/// written back, every callee records exactly the value of the call.
pub proof fn lemma_callees_agree(ast: AST, callees: Seq<FnId>, i: int, arg: Lat, c: Map<Location, Lat>, n: nat)
    requires
        tctx_ok(c, n),
        lat_ok(arg, n),
    ensures
        forall|j: int| 0 <= j < callees.len() ==> tget(
            write_arg(ast, callees, i, acc_arg(ast, callees, i, arg, c), c),
            Location::Var(#[trigger] callees[j], param(ast, callees[j], i)),
        ) == acc_arg(ast, callees, i, arg, c),
        forall|j: int| 0 <= j < callees.len() ==> tget(
            write_ret(callees, acc_ret(callees, c), c),
            Location::RetVal(#[trigger] callees[j]),
        ) == acc_ret(callees, c),
{
    lemma_acc_arg_bound(ast, callees, i, arg, c, n);
    lemma_write_arg(ast, callees, i, acc_arg(ast, callees, i, arg, c), c, n);
    lemma_acc_ret_bound(callees, c, n);
    lemma_write_ret(callees, acc_ret(callees, c), c, n);
}


/// More fuel does not change a representation that was found.
proof fn lemma_layout_mono(ast: AST, c: Map<Location, Lat>, x: Lat, f: nat)
    ensures
        layout_spec(ast, c, x, f) is Some ==> layout_spec(ast, c, x, f + 1) == layout_spec(ast, c, x, f),
    decreases f, 0nat, 0nat,
{
    if kind_count(x) == 1 && !x.boolean && !x.int && !x.string && !x.nil && !x.list && x.fns.len() > 0 && f > 0 {
        lemma_fn_type_mono(ast, c, x.fns[0], (f - 1) as nat);
    }
}

/// More fuel does not change a function representation that was found.
proof fn lemma_fn_type_mono(ast: AST, c: Map<Location, Lat>, g: FnId, f: nat)
    ensures
        fn_type_spec(ast, c, g, f) is Some ==> fn_type_spec(ast, c, g, f + 1) == fn_type_spec(ast, c, g, f),
    decreases f, 2nat, 0nat,
{
    lemma_args_mono(ast, c, g, ast.fns@[g as int].args@, f);
    lemma_layout_mono(ast, c, tget(c, Location::RetVal(g)), f);
}

/// More fuel does not change parameter representations that were found.
proof fn lemma_args_mono(ast: AST, c: Map<Location, Lat>, g: FnId, ps: Seq<Symbol>, f: nat)
    ensures
        args_layout(ast, c, g, ps, f) is Some ==> args_layout(ast, c, g, ps, f + 1) == args_layout(ast, c, g, ps, f),
    decreases f, 1nat, ps.len(),
{
    if ps.len() > 0 {
        lemma_args_mono(ast, c, g, ps.drop_last(), f);
        lemma_layout_mono(ast, c, tget(c, Location::Var(g, ps.last())), f);
    }
}

/// Any amount of further fuel does not change a function representation
/// that was found.
proof fn lemma_fn_type_mono_le(ast: AST, c: Map<Location, Lat>, g: FnId, f: nat, f2: nat)
    requires
        f <= f2,
        fn_type_spec(ast, c, g, f) is Some,
    ensures
        fn_type_spec(ast, c, g, f2) == fn_type_spec(ast, c, g, f),
    decreases f2 - f,
{
    if f < f2 {
        lemma_fn_type_mono(ast, c, g, f);
        lemma_fn_type_mono_le(ast, c, g, f + 1, f2);
    }
}

/// Whether `f` is the least fuel with which function `g` has a
/// representation.
spec fn least_fuel(ast: AST, c: Map<Location, Lat>, g: FnId, f: nat) -> bool {
    &&& fn_type_spec(ast, c, g, f) is Some
    &&& (f == 0 || fn_type_spec(ast, c, g, (f - 1) as nat) is None)
}

/// A function has one least fuel.
proof fn lemma_least_fuel_unique(ast: AST, c: Map<Location, Lat>, g: FnId, a: nat, b: nat)
    requires
        least_fuel(ast, c, g, a),
        least_fuel(ast, c, g, b),
    ensures
        a == b,
{
    if a < b {
        lemma_fn_type_mono_le(ast, c, g, a, (b - 1) as nat);
    } else if b < a {
        lemma_fn_type_mono_le(ast, c, g, b, (a - 1) as nat);
    }
}

/// A value that needs exactly `f` fuel is a function whose first
/// function needs exactly `f - 1`.
proof fn lemma_layout_step(ast: AST, c: Map<Location, Lat>, x: Lat, f: nat, n: nat)
    requires
        f >= 1,
        lat_ok(x, n),
        layout_spec(ast, c, x, f) is Some,
        layout_spec(ast, c, x, (f - 1) as nat) is None,
    ensures
        x.fns.len() > 0,
        x.fns[0] < n,
        least_fuel(ast, c, x.fns[0], (f - 1) as nat),
{
}

/// Parameters that need exactly `f` fuel include one that does.
proof fn lemma_args_step(ast: AST, c: Map<Location, Lat>, g: FnId, ps: Seq<Symbol>, f: nat)
    requires
        f >= 1,
        args_layout(ast, c, g, ps, f) is Some,
        args_layout(ast, c, g, ps, (f - 1) as nat) is None,
    ensures
        exists|j: int| 0 <= j < ps.len()
            && layout_spec(ast, c, tget(c, Location::Var(g, #[trigger] ps[j])), f) is Some
            && layout_spec(ast, c, tget(c, Location::Var(g, ps[j])), (f - 1) as nat) is None,
    decreases ps.len(),
{
    let p = ps.drop_last();
    let x = tget(c, Location::Var(g, ps.last()));
    if args_layout(ast, c, g, p, (f - 1) as nat) is None {
        lemma_args_step(ast, c, g, p, f);
        let j = choose|j: int| 0 <= j < p.len()
            && layout_spec(ast, c, tget(c, Location::Var(g, #[trigger] p[j])), f) is Some
            && layout_spec(ast, c, tget(c, Location::Var(g, p[j])), (f - 1) as nat) is None;
        assert(ps[j] == p[j]);
    } else {
        assert(layout_spec(ast, c, x, (f - 1) as nat) is None);
        assert(ps[ps.len() - 1] == ps.last());
    }
}

/// A function that needs exactly `f > 0` fuel reaches one that needs
/// exactly `f - 1`.
proof fn lemma_fn_step(ast: AST, c: Map<Location, Lat>, g: FnId, f: nat, n: nat)
    requires
        f >= 1,
        tctx_ok(c, n),
        least_fuel(ast, c, g, f),
    ensures
        exists|h: FnId| h < n && #[trigger] least_fuel(ast, c, h, (f - 1) as nat),
{
    let ps = ast.fns@[g as int].args@;
    let rx = tget(c, Location::RetVal(g));
    if args_layout(ast, c, g, ps, (f - 1) as nat) is None {
        lemma_args_step(ast, c, g, ps, f);
        let j = choose|j: int| 0 <= j < ps.len()
            && layout_spec(ast, c, tget(c, Location::Var(g, #[trigger] ps[j])), f) is Some
            && layout_spec(ast, c, tget(c, Location::Var(g, ps[j])), (f - 1) as nat) is None;
        let x = tget(c, Location::Var(g, ps[j]));
        lemma_tget_ok(c, Location::Var(g, ps[j]), n);
        lemma_layout_step(ast, c, x, f, n);
        assert(least_fuel(ast, c, x.fns[0], (f - 1) as nat));
    } else {
        lemma_tget_ok(c, Location::RetVal(g), n);
        lemma_layout_step(ast, c, rx, f, n);
        assert(least_fuel(ast, c, rx.fns[0], (f - 1) as nat));
    }
}

/// A chain of `f + 1` functions starting at `g`, the `i`-th needing
/// exactly `f - i` fuel.
proof fn lemma_fuel_chain(ast: AST, c: Map<Location, Lat>, g: FnId, f: nat, n: nat) -> (s: Seq<FnId>)
    requires
        g < n,
        tctx_ok(c, n),
        least_fuel(ast, c, g, f),
    ensures
        s.len() == f + 1,
        forall|i: int| 0 <= i < s.len() ==> #[trigger] s[i] < n && least_fuel(ast, c, s[i], (f - i) as nat),
    decreases f,
{
    if f == 0 {
        seq![g]
    } else {
        lemma_fn_step(ast, c, g, f, n);
        let h = choose|h: FnId| h < n && #[trigger] least_fuel(ast, c, h, (f - 1) as nat);
        let t = lemma_fuel_chain(ast, c, h, (f - 1) as nat, n);
        let s = seq![g] + t;
        assert forall|i: int| 0 <= i < s.len() implies #[trigger] s[i] < n && least_fuel(ast, c, s[i], (f - i) as nat) by {
            if i > 0 {
                assert(s[i] == t[i - 1]);
            }
        }
        s
    }
}

/// Distinct ids below `n` number at most `n`.
proof fn lemma_distinct_below(s: Seq<FnId>, n: nat)
    requires
        s.no_duplicates(),
        forall|i: int| 0 <= i < s.len() ==> s[i] < n,
    ensures
        s.len() <= n,
{
    let t = s.map_values(|x: FnId| x as int);
    assert(t.no_duplicates()) by {
        assert forall|i: int, j: int| 0 <= i < t.len() && 0 <= j < t.len() && i != j implies t[i] != t[j] by {
            assert(s[i] != s[j]);
        }
    }
    t.unique_seq_to_set();
    vstd::set_lib::lemma_int_range(0, n as int);
    assert(t.to_set().subset_of(vstd::set_lib::set_int_range(0, n as int))) by {
        assert forall|x: int| #[trigger] t.to_set().contains(x) implies 0 <= x < n by {
            let i = choose|i: int| 0 <= i < t.len() && t[i] == x;
        }
    }
    vstd::set_lib::lemma_len_subset(t.to_set(), vstd::set_lib::set_int_range(0, n as int));
}

/// A function that has a representation with some fuel needs less fuel
/// than there are functions.
proof fn lemma_fn_fuel_bound(ast: AST, c: Map<Location, Lat>, g: FnId, f: nat, n: nat)
    requires
        g < n,
        tctx_ok(c, n),
        fn_type_spec(ast, c, g, f) is Some,
    ensures
        n >= 1,
        fn_type_spec(ast, c, g, (n - 1) as nat) == fn_type_spec(ast, c, g, f),
    decreases f,
{
    if f > 0 && fn_type_spec(ast, c, g, (f - 1) as nat) is Some {
        lemma_fn_type_mono(ast, c, g, (f - 1) as nat);
        lemma_fn_fuel_bound(ast, c, g, (f - 1) as nat, n);
    } else {
        let s = lemma_fuel_chain(ast, c, g, f, n);
        assert(s.no_duplicates()) by {
            assert forall|i: int, j: int| 0 <= i < s.len() && 0 <= j < s.len() && i != j implies s[i] != s[j] by {
                if s[i] == s[j] {
                    lemma_least_fuel_unique(ast, c, s[i], (f - i) as nat, (f - j) as nat);
                }
            }
        }
        lemma_distinct_below(s, n);
        lemma_fn_type_mono_le(ast, c, g, f, (n - 1) as nat);
    }
}

/// The fuel `layout` gives is enough: where some fuel gives a value a
/// representation, fuel equal to the number of functions gives it the same
/// one.  So `layout` answers `None` only where function representations
/// would nest without end.
pub proof fn lemma_layout_fuel_enough(ast: AST, c: Map<Location, Lat>, x: Lat, fuel: nat)
    requires
        tctx_ok(c, ast.fns@.len() as nat),
        lat_ok(x, ast.fns@.len() as nat),
        layout_spec(ast, c, x, fuel) is Some,
    ensures
        layout_spec(ast, c, x, ast.fns@.len() as nat) == layout_spec(ast, c, x, fuel),
{
    let n = ast.fns@.len() as nat;
    if kind_count(x) == 1 && !x.boolean && !x.int && !x.string && !x.nil && !x.list && x.fns.len() > 0 {
        lemma_fn_fuel_bound(ast, c, x.fns[0], (fuel - 1) as nat, n);
    }
}


/// Whether the node `x` is one the inference handles: a function id it
/// names is below `n`, it builds or reads no dictionary, and a variable it
/// assigns is among `asg`.
pub open spec fn ty_node_ok(x: Node, n: nat, asg: Set<Symbol>) -> bool {
    match x {
        Node::E(Expr::FnId(f)) => f < n,
        Node::E(Expr::NewDict) => false,
        Node::E(Expr::IndexDict(..)) => false,
        Node::S(Stmt::DictStore(..)) => false,
        Node::S(Stmt::Assign(v, _)) => asg.contains(v),
        _ => true,
    }
}

/// Whether every node of `xs` is one the inference handles.
pub open spec fn ty_nodes_ok(xs: Seq<Node>, n: nat, asg: Set<Symbol>) -> bool {
    forall|i: int| 0 <= i < xs.len() ==> ty_node_ok(#[trigger] xs[i], n, asg)
}

proof fn lemma_ty_nodes_split(a: Seq<Node>, b: Seq<Node>, n: nat, asg: Set<Symbol>)
    requires
        ty_nodes_ok(a + b, n, asg),
    ensures
        ty_nodes_ok(a, n, asg),
        ty_nodes_ok(b, n, asg),
{
    assert forall|i: int| 0 <= i < a.len() implies ty_node_ok(#[trigger] a[i], n, asg) by {
        assert((a + b)[i] == a[i]);
    }
    assert forall|i: int| 0 <= i < b.len() implies ty_node_ok(#[trigger] b[i], n, asg) by {
        assert((a + b)[a.len() + i] == b[i]);
    }
}

proof fn lemma_ty_expr_nodes(e: Expr, n: nat, asg: Set<Symbol>)
    requires
        ty_nodes_ok(crate::ast::expr_nodes(e), n, asg),
    ensures
        ty_expr_ok(e, n),
    decreases e,
{
    let h = seq![Node::E(e)];
    assert(crate::ast::expr_nodes(e)[0] == Node::E(e));
    assert(ty_node_ok(crate::ast::expr_nodes(e)[0], n, asg));
    match e {
        Expr::IndexList(a, b) | Expr::BinOp(_, a, b) => {
            assert(crate::ast::expr_nodes(e) == h + crate::ast::expr_nodes(*a) + crate::ast::expr_nodes(*b));
            lemma_ty_nodes_split(h + crate::ast::expr_nodes(*a), crate::ast::expr_nodes(*b), n, asg);
            lemma_ty_nodes_split(h, crate::ast::expr_nodes(*a), n, asg);
            lemma_ty_expr_nodes(*a, n, asg);
            lemma_ty_expr_nodes(*b, n, asg);
        },
        Expr::Length(a) => {
            assert(crate::ast::expr_nodes(e) == h + crate::ast::expr_nodes(*a));
            lemma_ty_nodes_split(h, crate::ast::expr_nodes(*a), n, asg);
            lemma_ty_expr_nodes(*a, n, asg);
        },
        Expr::FnCall(f, args) => {
            assert(crate::ast::expr_nodes(e) == h + crate::ast::expr_nodes(*f) + crate::ast::exprs_nodes(args@));
            lemma_ty_nodes_split(h + crate::ast::expr_nodes(*f), crate::ast::exprs_nodes(args@), n, asg);
            lemma_ty_nodes_split(h, crate::ast::expr_nodes(*f), n, asg);
            lemma_ty_expr_nodes(*f, n, asg);
            lemma_ty_exprs_nodes(args@, n, asg);
        },
        _ => {},
    }
}

proof fn lemma_ty_exprs_nodes(es: Seq<Expr>, n: nat, asg: Set<Symbol>)
    requires
        ty_nodes_ok(crate::ast::exprs_nodes(es), n, asg),
    ensures
        ty_exprs_ok(es, n),
    decreases es,
{
    if es.len() > 0 {
        lemma_ty_nodes_split(crate::ast::exprs_nodes(es.drop_last()), crate::ast::expr_nodes(es.last()), n, asg);
        lemma_ty_exprs_nodes(es.drop_last(), n, asg);
        lemma_ty_expr_nodes(es.last(), n, asg);
    }
}

proof fn lemma_ty_stmt_nodes(s: Stmt, n: nat, asg: Set<Symbol>)
    requires
        ty_nodes_ok(crate::ast::stmt_nodes(s), n, asg),
    ensures
        ty_stmt_ok(s, n, asg),
    decreases s,
{
    let h = seq![Node::S(s)];
    assert(crate::ast::stmt_nodes(s)[0] == Node::S(s));
    assert(ty_node_ok(crate::ast::stmt_nodes(s)[0], n, asg));
    match s {
        Stmt::ListStore(a, b, c) => {
            assert(crate::ast::stmt_nodes(s) == h + crate::ast::expr_nodes(a) + crate::ast::expr_nodes(b) + crate::ast::expr_nodes(c));
            lemma_ty_nodes_split(h + crate::ast::expr_nodes(a) + crate::ast::expr_nodes(b), crate::ast::expr_nodes(c), n, asg);
            lemma_ty_nodes_split(h + crate::ast::expr_nodes(a), crate::ast::expr_nodes(b), n, asg);
            lemma_ty_nodes_split(h, crate::ast::expr_nodes(a), n, asg);
            lemma_ty_expr_nodes(a, n, asg);
            lemma_ty_expr_nodes(b, n, asg);
            lemma_ty_expr_nodes(c, n, asg);
        },
        Stmt::Push(a, b) => {
            assert(crate::ast::stmt_nodes(s) == h + crate::ast::expr_nodes(a) + crate::ast::expr_nodes(b));
            lemma_ty_nodes_split(h + crate::ast::expr_nodes(a), crate::ast::expr_nodes(b), n, asg);
            lemma_ty_nodes_split(h, crate::ast::expr_nodes(a), n, asg);
            lemma_ty_expr_nodes(a, n, asg);
            lemma_ty_expr_nodes(b, n, asg);
        },
        Stmt::Return(e) | Stmt::Assign(_, e) | Stmt::Print(e) => {
            assert(crate::ast::stmt_nodes(s) == h + crate::ast::expr_nodes(e));
            lemma_ty_nodes_split(h, crate::ast::expr_nodes(e), n, asg);
            lemma_ty_expr_nodes(e, n, asg);
        },
        Stmt::If(c, t, f) => {
            assert(crate::ast::stmt_nodes(s) == h + crate::ast::expr_nodes(c) + body_nodes(t@) + body_nodes(f@));
            lemma_ty_nodes_split(h + crate::ast::expr_nodes(c) + body_nodes(t@), body_nodes(f@), n, asg);
            lemma_ty_nodes_split(h + crate::ast::expr_nodes(c), body_nodes(t@), n, asg);
            lemma_ty_nodes_split(h, crate::ast::expr_nodes(c), n, asg);
            lemma_ty_expr_nodes(c, n, asg);
            lemma_ty_body_nodes(t@, n, asg);
            lemma_ty_body_nodes(f@, n, asg);
        },
        Stmt::While(c, b) => {
            assert(crate::ast::stmt_nodes(s) == h + crate::ast::expr_nodes(c) + body_nodes(b@));
            lemma_ty_nodes_split(h + crate::ast::expr_nodes(c), body_nodes(b@), n, asg);
            lemma_ty_nodes_split(h, crate::ast::expr_nodes(c), n, asg);
            lemma_ty_expr_nodes(c, n, asg);
            lemma_ty_body_nodes(b@, n, asg);
        },
        _ => {},
    }
}

proof fn lemma_ty_body_nodes(b: Seq<Stmt>, n: nat, asg: Set<Symbol>)
    requires
        ty_nodes_ok(body_nodes(b), n, asg),
    ensures
        ty_body_ok(b, n, asg),
    decreases b,
{
    if b.len() > 0 {
        lemma_ty_nodes_split(body_nodes(b.drop_last()), crate::ast::stmt_nodes(b.last()), n, asg);
        lemma_ty_body_nodes(b.drop_last(), n, asg);
        lemma_ty_stmt_nodes(b.last(), n, asg);
    }
}

/// Whether the node `x` builds, reads or writes a dictionary.
pub open spec fn is_dict_node(x: Node) -> bool {
    match x {
        Node::E(Expr::NewDict) => true,
        Node::E(Expr::IndexDict(..)) => true,
        Node::S(Stmt::DictStore(..)) => true,
        _ => false,
    }
}

/// Whether no body of `ast` builds, reads or writes a dictionary.
pub open spec fn dict_free(ast: AST) -> bool {
    forall|f: int, i: int| 0 <= f < ast.fns@.len() && 0 <= i < body_nodes(ast.fns@[f].body@).len() ==>
        !is_dict_node(#[trigger] body_nodes(ast.fns@[f].body@)[i])
}

/// A program whose function ids are functions of it and that uses no
/// dictionary is one the inference handles.
pub proof fn lemma_ty_ready(ast: AST)
    requires
        crate::analysis::fn_ids_valid(ast),
        dict_free(ast),
    ensures
        ty_ready(ast),
{
    let n = ast.fns@.len() as nat;
    assert forall|f: int| 0 <= f < ast.fns@.len() implies
        ty_body_ok(#[trigger] ast.fns@[f].body@, n, assigned(ast, f)) by {
        let xs = body_nodes(ast.fns@[f].body@);
        let asg = assigned(ast, f);
        assert forall|i: int| 0 <= i < xs.len() implies ty_node_ok(#[trigger] xs[i], n, asg) by {
            match xs[i] {
                Node::S(Stmt::Assign(v, _)) => {
                    assert(occurs_at(Occurrence::Assigned, xs[i], v));
                    assert(body_assigns(ast.fns@[f].body@, v));
                },
                _ => {},
            }
        }
        lemma_ty_body_nodes(ast.fns@[f].body@, n, asg);
    }
}

} // verus!
