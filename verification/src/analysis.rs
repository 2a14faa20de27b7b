use vstd::prelude::*;
use crate::assoc::{AssocMap, Key};
use crate::ast::{AST, BinOpKind, Body, Expr, FnId, Node, Stmt, body_nodes, expr_nodes, exprs_nodes, stmt_nodes};
use crate::fnset::{copy_ids, lemma_merge_ids, lemma_sorted_same_ids, merge_id_vecs, merge_ids, same_ids, sorted};
use crate::nameres::{Nameres, VarKind, resolves};
use crate::vars::{Occurrence, body_assigns, body_reads, occurs_at};
use crate::visit::{Visitor, run, visit_body};
use crate::symbol::Symbol;
use crate::interp::{St, Val, binop_spec, eval_spec, input_value, line_at};

verus! {

/// The set of kinds of values that may be stored somewhere.
pub struct TypeLattice {
    pub might_be_bool: bool,
    pub might_be_nil: bool,
    pub might_be_str: bool,
    pub might_be_int: bool,
    pub might_be_list: bool,
    pub might_be_dict: bool,
    /// The functions the value may be, in increasing order.
    pub fn_options: Vec<FnId>,
}

/// The mathematical value of a `TypeLattice`.
pub struct Lat {
    pub boolean: bool,
    pub nil: bool,
    pub string: bool,
    pub int: bool,
    pub list: bool,
    pub dict: bool,
    pub fns: Seq<FnId>,
}

impl TypeLattice {
    pub open spec fn view(&self) -> Lat {
        Lat {
            boolean: self.might_be_bool,
            nil: self.might_be_nil,
            string: self.might_be_str,
            int: self.might_be_int,
            list: self.might_be_list,
            dict: self.might_be_dict,
            fns: self.fn_options@,
        }
    }

    /// The function ids are listed in increasing order.
    pub open spec fn wf(&self) -> bool {
        sorted(self.fn_options@)
    }
}

/// Nothing is known to be stored: the bottom of the lattice.
pub open spec fn lat_bot() -> Lat {
    Lat { boolean: false, nil: false, string: false, int: false, list: false, dict: false, fns: Seq::empty() }
}

/// The join of two lattice values.
pub open spec fn lat_merge(x: Lat, y: Lat) -> Lat {
    Lat {
        boolean: x.boolean || y.boolean,
        nil: x.nil || y.nil,
        string: x.string || y.string,
        int: x.int || y.int,
        list: x.list || y.list,
        dict: x.dict || y.dict,
        fns: merge_ids(x.fns, y.fns),
    }
}

/// Whether `x` is below `y`: everything `x` allows, `y` allows.
pub open spec fn lat_le(x: Lat, y: Lat) -> bool {
    &&& x.boolean ==> y.boolean
    &&& x.nil ==> y.nil
    &&& x.string ==> y.string
    &&& x.int ==> y.int
    &&& x.list ==> y.list
    &&& x.dict ==> y.dict
    &&& forall|f: FnId| #[trigger] x.fns.contains(f) ==> y.fns.contains(f)
}

/// Whether the function ids of `x` are ordered and name functions `< n`.
pub open spec fn lat_ok(x: Lat, n: nat) -> bool {
    &&& sorted(x.fns)
    &&& forall|i: int| 0 <= i < x.fns.len() ==> x.fns[i] < n
}

/// A lattice value allowing only booleans (`b`), integers (`i`), etc.
pub open spec fn lat_only(b: bool, nil: bool, s: bool, i: bool, l: bool, d: bool) -> Lat {
    Lat { boolean: b, nil: nil, string: s, int: i, list: l, dict: d, fns: Seq::empty() }
}

impl TypeLattice {
    /// The bottom of the lattice.
    pub fn bot() -> (r: TypeLattice)
        ensures
            r.view() == lat_bot(),
            r.wf(),
    {
        TypeLattice {
            might_be_bool: false,
            might_be_nil: false,
            might_be_str: false,
            might_be_int: false,
            might_be_list: false,
            might_be_dict: false,
            fn_options: Vec::new(),
        }
    }

    /// The join of two lattice values.
    pub fn merge(x: &TypeLattice, y: &TypeLattice) -> (r: TypeLattice)
        requires
            x.wf(),
            y.wf(),
        ensures
            r.view() == lat_merge(x.view(), y.view()),
            r.wf(),
    {
        proof {
            lemma_merge_ids(x.fn_options@, y.fn_options@);
        }
        TypeLattice {
            might_be_bool: x.might_be_bool || y.might_be_bool,
            might_be_nil: x.might_be_nil || y.might_be_nil,
            might_be_str: x.might_be_str || y.might_be_str,
            might_be_int: x.might_be_int || y.might_be_int,
            might_be_list: x.might_be_list || y.might_be_list,
            might_be_dict: x.might_be_dict || y.might_be_dict,
            fn_options: merge_id_vecs(&x.fn_options, &y.fn_options),
        }
    }

    /// A copy of this value.
    pub fn copy(&self) -> (r: TypeLattice)
        ensures
            r.view() == self.view(),
            r.wf() == self.wf(),
    {
        TypeLattice {
            might_be_bool: self.might_be_bool,
            might_be_nil: self.might_be_nil,
            might_be_str: self.might_be_str,
            might_be_int: self.might_be_int,
            might_be_list: self.might_be_list,
            might_be_dict: self.might_be_dict,
            fn_options: copy_ids(&self.fn_options),
        }
    }

    /// Whether two values are equal.
    pub fn same(&self, other: &TypeLattice) -> (r: bool)
        ensures
            r == (self.view() == other.view()),
    {
        self.might_be_bool == other.might_be_bool && self.might_be_nil == other.might_be_nil
            && self.might_be_str == other.might_be_str && self.might_be_int == other.might_be_int
            && self.might_be_list == other.might_be_list && self.might_be_dict == other.might_be_dict
            && same_ids(&self.fn_options, &other.fn_options)
    }

    fn only(b: bool, nil: bool, s: bool, i: bool, l: bool, d: bool) -> (r: TypeLattice)
        ensures
            r.view() == lat_only(b, nil, s, i, l, d),
            r.wf(),
    {
        TypeLattice {
            might_be_bool: b,
            might_be_nil: nil,
            might_be_str: s,
            might_be_int: i,
            might_be_list: l,
            might_be_dict: d,
            fn_options: Vec::new(),
        }
    }
}

/// A place where values are stored, as the analysis sees it.
#[derive(Clone, Copy, PartialEq, Eq, Structural, Debug, Hash)]
pub enum Location {
    /// A local variable (or argument) of a function.
    Var(FnId, Symbol),
    GlobalVar(Symbol),
    /// The return value of a function.
    RetVal(FnId),
    /// Any list element.
    ListItem,
    /// Any dictionary key.
    DictKey,
    /// Any dictionary value.
    DictValue,
}

impl Key for Location {
    fn same(&self, other: &Self) -> (r: bool) {
        *self == *other
    }
}

/// The analysis context: what may be stored at each location.
pub type ACtxt = AssocMap<Location, TypeLattice>;

/// The mathematical value of an analysis context.
pub open spec fn cview(a: ACtxt) -> Map<Location, Lat> {
    a.view().map_values(|t: TypeLattice| t.view())
}

/// Every entry's lattice value lists its functions in order.
pub open spec fn ctx_wf(a: ACtxt) -> bool {
    &&& a.wf()
    &&& forall|i: int| 0 <= i < a.entries@.len() ==> (#[trigger] a.entries@[i]).1.wf()
}

/// What is known at `l`: bottom where nothing is recorded.
pub open spec fn sget(c: Map<Location, Lat>, l: Location) -> Lat {
    if c.contains_key(l) {
        c[l]
    } else {
        lat_bot()
    }
}

/// `c` with `t` joined into what is recorded at `l`.
pub open spec fn sadd(c: Map<Location, Lat>, l: Location, t: Lat) -> Map<Location, Lat> {
    c.insert(l, lat_merge(t, sget(c, l)))
}

/// What is recorded at `x`, or the bottom of the lattice.
pub fn get(x: Location, actxt: &ACtxt) -> (r: TypeLattice)
    requires
        ctx_wf(*actxt),
    ensures
        r.view() == sget(cview(*actxt), x),
        r.wf(),
{
    match actxt.position(&x) {
        Some(i) => {
            proof {
                crate::assoc::lemma_map_of_entry(actxt.entries@, i as int);
            }
            actxt.entries[i].1.copy()
        },
        None => TypeLattice::bot(),
    }
}

/// Joins `ty` into what is recorded at `v`.
pub fn add(v: Location, ty: &TypeLattice, actxt: &mut ACtxt)
    requires
        ctx_wf(*old(actxt)),
        ty.wf(),
    ensures
        ctx_wf(*final(actxt)),
        cview(*final(actxt)) == sadd(cview(*old(actxt)), v, ty.view()),
{
    let ty2 = get(v, actxt);
    let t = TypeLattice::merge(ty, &ty2);
    let ghost e0 = actxt.entries@;
    actxt.insert(v, t);
    proof {
        assert(cview(*actxt) =~= sadd(cview(*old(actxt)), v, ty.view()));
    }
}

/// The location of the variable `v` of the function `fid`.
pub open spec fn var_loc(nr: Nameres, fid: int, v: Symbol) -> Location {
    if nr.vars@[fid].view()[v] == VarKind::Global {
        Location::GlobalVar(v)
    } else {
        Location::Var(fid as FnId, v)
    }
}

/// The location of the variable `varname` of the function `fid`.
pub fn get_var_loc(fid: FnId, varname: Symbol, nameres: &Nameres) -> (r: Location)
    requires
        fid < nameres.vars@.len(),
        nameres.vars@[fid as int].wf(),
        nameres.vars@[fid as int].view().contains_key(varname),
    ensures
        r == var_loc(*nameres, fid as int, varname),
{
    match nameres.vars[fid].get(&varname) {
        Some(k) => match k {
            VarKind::Global => Location::GlobalVar(varname),
            VarKind::Local => Location::Var(fid, varname),
        },
        None => Location::ListItem,
    }
}

/// Whether every function the expression names is below `n` and every
/// variable it reads is in `m`.
pub open spec fn expr_ok(e: Expr, n: nat, m: Map<Symbol, VarKind>) -> bool
    decreases e,
{
    match e {
        Expr::FnId(f) => f < n,
        Expr::IndexList(a, b) => expr_ok(*a, n, m) && expr_ok(*b, n, m),
        Expr::IndexDict(a, b) => expr_ok(*a, n, m) && expr_ok(*b, n, m),
        Expr::BinOp(_, a, b) => expr_ok(*a, n, m) && expr_ok(*b, n, m),
        Expr::Length(a) => expr_ok(*a, n, m),
        Expr::Var(v) => m.contains_key(v),
        Expr::FnCall(f, args) => expr_ok(*f, n, m) && exprs_ok(args@, n, m),
        _ => true,
    }
}

/// `expr_ok` for each expression of `es`.
pub open spec fn exprs_ok(es: Seq<Expr>, n: nat, m: Map<Symbol, VarKind>) -> bool
    decreases es,
{
    if es.len() == 0 {
        true
    } else {
        exprs_ok(es.drop_last(), n, m) && expr_ok(es.last(), n, m)
    }
}

/// `expr_ok` for the expressions of a statement, whose assigned variable, if
/// any, is also in `m`.
pub open spec fn stmt_ok(s: Stmt, n: nat, m: Map<Symbol, VarKind>) -> bool
    decreases s,
{
    match s {
        Stmt::Global(_) => true,
        Stmt::ListStore(a, b, c) => expr_ok(a, n, m) && expr_ok(b, n, m) && expr_ok(c, n, m),
        Stmt::DictStore(a, b, c) => expr_ok(a, n, m) && expr_ok(b, n, m) && expr_ok(c, n, m),
        Stmt::Push(a, b) => expr_ok(a, n, m) && expr_ok(b, n, m),
        Stmt::Return(e) => expr_ok(e, n, m),
        Stmt::Assign(v, e) => m.contains_key(v) && expr_ok(e, n, m),
        Stmt::If(c, t, f) => expr_ok(c, n, m) && body_ok(t@, n, m) && body_ok(f@, n, m),
        Stmt::While(c, b) => expr_ok(c, n, m) && body_ok(b@, n, m),
        Stmt::Print(e) => expr_ok(e, n, m),
    }
}

/// `stmt_ok` for each statement of `b`.
pub open spec fn body_ok(b: Seq<Stmt>, n: nat, m: Map<Symbol, VarKind>) -> bool
    decreases b,
{
    if b.len() == 0 {
        true
    } else {
        body_ok(b.drop_last(), n, m) && stmt_ok(b.last(), n, m)
    }
}

/// Whether the analysis may run on `ast` with the name resolution `nr`:
/// `nr` covers every function, and in each function every function id is
/// valid and every variable used has a kind.
pub open spec fn analysis_ready(ast: AST, nr: Nameres) -> bool {
    &&& nr.vars@.len() == ast.fns@.len()
    &&& forall|f: int| 0 <= f < nr.vars@.len() ==> (#[trigger] nr.vars@[f]).wf()
    &&& forall|f: int| 0 <= f < ast.fns@.len() ==>
        body_ok((#[trigger] ast.fns@[f]).body@, ast.fns@.len() as nat, nr.vars@[f].view())
}

/// The lattice value of a binary operation's result.
pub open spec fn binop_lat(kind: BinOpKind) -> Lat {
    match kind {
        BinOpKind::Equ | BinOpKind::Ne | BinOpKind::Lt | BinOpKind::Gt => lat_only(true, false, false, false, false, false),
        _ => lat_only(false, false, false, true, false, false),
    }
}

/// What `input` may produce: a boolean, nil, a string or an integer.
pub open spec fn input_lat() -> Lat {
    lat_only(true, true, true, true, false, false)
}

/// The effect of one analysis step on an expression of the function `fid`:
/// the value the expression may have, and the context after the
/// expression's sub-expressions and calls have been accounted for.
pub open spec fn infer_expr(ast: AST, nr: Nameres, fid: int, e: Expr, c: Map<Location, Lat>) -> (Lat, Map<Location, Lat>)
    decreases e,
{
    match e {
        Expr::FnId(f) => (Lat { fns: seq![f], ..lat_bot() }, c),
        Expr::Length(l) => (lat_only(false, false, false, true, false, false), infer_expr(ast, nr, fid, *l, c).1),
        Expr::NewList => (lat_only(false, false, false, false, true, false), c),
        Expr::NewDict => (lat_only(false, false, false, false, false, true), c),
        Expr::IndexList(l, i) => {
            let c1 = infer_expr(ast, nr, fid, *l, c).1;
            let c2 = infer_expr(ast, nr, fid, *i, c1).1;
            (sget(c2, Location::ListItem), c2)
        },
        Expr::IndexDict(t, k) => {
            let c1 = infer_expr(ast, nr, fid, *t, c).1;
            let c2 = infer_expr(ast, nr, fid, *k, c1).1;
            (sget(c2, Location::DictValue), c2)
        },
        Expr::FnCall(f, args) => {
            let (fl, c1) = infer_expr(ast, nr, fid, *f, c);
            let (als, c2) = infer_exprs(ast, nr, fid, args@, c1);
            call_effect(ast, fl.fns, als, c2, lat_bot())
        },
        Expr::BinOp(kind, l, r) => {
            let c1 = infer_expr(ast, nr, fid, *l, c).1;
            let c2 = infer_expr(ast, nr, fid, *r, c1).1;
            (binop_lat(kind), c2)
        },
        Expr::IntLit(_) => (lat_only(false, false, false, true, false, false), c),
        Expr::StringLit(_) => (lat_only(false, false, true, false, false, false), c),
        Expr::BoolLit(_) => (lat_only(true, false, false, false, false, false), c),
        Expr::NilLit => (lat_only(false, true, false, false, false, false), c),
        Expr::Var(v) => (sget(c, var_loc(nr, fid, v)), c),
        Expr::Input => (input_lat(), c),
    }
}

/// `infer_expr` on each expression of `es` from left to right.
pub open spec fn infer_exprs(ast: AST, nr: Nameres, fid: int, es: Seq<Expr>, c: Map<Location, Lat>) -> (Seq<Lat>, Map<Location, Lat>)
    decreases es,
{
    if es.len() == 0 {
        (Seq::empty(), c)
    } else {
        let (ls, c1) = infer_exprs(ast, nr, fid, es.drop_last(), c);
        let (l, c2) = infer_expr(ast, nr, fid, es.last(), c1);
        (ls.push(l), c2)
    }
}

/// Whether the lattice value `l` allows the value `v`.
pub open spec fn lat_allows(l: Lat, v: Val) -> bool {
    match v {
        Val::Bool(_) => l.boolean,
        Val::Int(_) => l.int,
        Val::Str(_) => l.string,
        Val::Nil => l.nil,
    }
}

/// The analysis is sound for the interpreter: where each variable of the
/// function `fid` holds a value that the lattice recorded at its location
/// allows, every value that an expression other than a call evaluates to
/// is allowed by the lattice value the analysis gives the expression.  A
/// string literal's lattice allows strings, an integer literal's integers,
/// an operator's the booleans or integers it computes, `input`'s everything
/// a line of input can denote, and a variable's what its location records.
pub proof fn lemma_infer_expr_sound(
    ast: AST,
    nr: Nameres,
    fid: int,
    e: Expr,
    c: Map<Location, Lat>,
    vars: Map<Symbol, Val>,
    input: Seq<Seq<char>>,
    st: St,
    fuel: nat,
)
    requires
        !(e is FnCall),
        forall|v: Symbol| #[trigger] vars.contains_key(v) ==> lat_allows(sget(c, var_loc(nr, fid, v)), vars[v]),
    ensures
        eval_spec(ast, e, vars, input, st, fuel).0 matches Ok(val) ==> lat_allows(infer_expr(ast, nr, fid, e, c).0, val),
{
    match e {
        Expr::BinOp(op, l, r) => {
            let (r1, st1) = eval_spec(ast, *l, vars, input, st, fuel);
            if let Ok(v1) = r1 {
                let (r2, st2) = eval_spec(ast, *r, vars, input, st1, fuel);
                if let Ok(v2) = r2 {
                    assert(binop_spec(op, v1, v2) matches Ok(val) ==> lat_allows(binop_lat(op), val));
                }
            }
        },
        Expr::Input => {
            let line = line_at(input, st.pos);
            assert(input_value(line) matches Ok(val) ==> lat_allows(input_lat(), val));
        },
        _ => {},
    }
}

/// Joins `lats[i]` into the `i`-th argument `params[i]` of the function
/// `callee`, for every `i`, in order.
pub open spec fn push_args(callee: FnId, params: Seq<Symbol>, lats: Seq<Lat>, c: Map<Location, Lat>) -> Map<Location, Lat>
    decreases lats.len(),
{
    if lats.len() == 0 {
        c
    } else {
        let k = lats.len() - 1;
        sadd(push_args(callee, params, lats.drop_last(), c), Location::Var(callee, params[k]), lats[k])
    }
}

/// The effect of a call with argument values `lats` on each of the possible
/// callees `callees` (in order) whose arity matches: the arguments flow into
/// its parameters and its return value is joined into `ret`.
pub open spec fn call_effect(ast: AST, callees: Seq<FnId>, lats: Seq<Lat>, c: Map<Location, Lat>, ret: Lat) -> (Lat, Map<Location, Lat>)
    decreases callees.len(),
{
    if callees.len() == 0 {
        (ret, c)
    } else {
        let cal = callees[0];
        let params = ast.fns@[cal as int].args@;
        if params.len() != lats.len() {
            call_effect(ast, callees.drop_first(), lats, c, ret)
        } else {
            let c1 = push_args(cal, params, lats, c);
            call_effect(ast, callees.drop_first(), lats, c1, lat_merge(ret, sget(c1, Location::RetVal(cal))))
        }
    }
}

/// The effect of one analysis step on a statement of the function `fid`.
pub open spec fn infer_stmt(ast: AST, nr: Nameres, fid: int, s: Stmt, c: Map<Location, Lat>) -> Map<Location, Lat>
    decreases s,
{
    match s {
        Stmt::Global(_) => c,
        Stmt::ListStore(l, i, v) => {
            let c1 = infer_expr(ast, nr, fid, l, c).1;
            let c2 = infer_expr(ast, nr, fid, i, c1).1;
            let (vl, c3) = infer_expr(ast, nr, fid, v, c2);
            sadd(c3, Location::ListItem, vl)
        },
        Stmt::Push(l, v) => {
            let c1 = infer_expr(ast, nr, fid, l, c).1;
            let (vl, c2) = infer_expr(ast, nr, fid, v, c1);
            sadd(c2, Location::ListItem, vl)
        },
        Stmt::DictStore(t, k, v) => {
            let c1 = infer_expr(ast, nr, fid, t, c).1;
            let (kl, c2) = infer_expr(ast, nr, fid, k, c1);
            let (vl, c3) = infer_expr(ast, nr, fid, v, c2);
            sadd(sadd(c3, Location::DictKey, kl), Location::DictValue, vl)
        },
        Stmt::Assign(v, e) => {
            let (r, c1) = infer_expr(ast, nr, fid, e, c);
            sadd(c1, var_loc(nr, fid, v), r)
        },
        Stmt::Return(e) => {
            let (r, c1) = infer_expr(ast, nr, fid, e, c);
            sadd(c1, Location::RetVal(fid as FnId), r)
        },
        Stmt::If(cond, t, f) => {
            let c1 = infer_expr(ast, nr, fid, cond, c).1;
            infer_body(ast, nr, fid, f@, infer_body(ast, nr, fid, t@, c1))
        },
        Stmt::While(cond, b) => {
            let c1 = infer_expr(ast, nr, fid, cond, c).1;
            infer_body(ast, nr, fid, b@, c1)
        },
        Stmt::Print(e) => infer_expr(ast, nr, fid, e, c).1,
    }
}

/// `infer_stmt` on each statement of `b` in order.
pub open spec fn infer_body(ast: AST, nr: Nameres, fid: int, b: Seq<Stmt>, c: Map<Location, Lat>) -> Map<Location, Lat>
    decreases b,
{
    if b.len() == 0 {
        c
    } else {
        infer_stmt(ast, nr, fid, b.last(), infer_body(ast, nr, fid, b.drop_last(), c))
    }
}

/// One analysis step over the bodies of the first `k` functions in order.
pub open spec fn infer_fns(ast: AST, nr: Nameres, k: nat, c: Map<Location, Lat>) -> Map<Location, Lat>
    decreases k,
{
    if k == 0 {
        c
    } else {
        let f = (k - 1) as int;
        infer_body(ast, nr, f, ast.fns@[f].body@, infer_fns(ast, nr, (k - 1) as nat, c))
    }
}

/// One analysis step over the whole program.
pub open spec fn infer_round(ast: AST, nr: Nameres, c: Map<Location, Lat>) -> Map<Location, Lat> {
    infer_fns(ast, nr, ast.fns@.len() as nat, c)
}

/// The context after `k` analysis steps from the empty one.
pub open spec fn iterate(ast: AST, nr: Nameres, k: nat) -> Map<Location, Lat>
    decreases k,
{
    if k == 0 {
        Map::empty()
    } else {
        infer_round(ast, nr, iterate(ast, nr, (k - 1) as nat))
    }
}

/// Whether `m` is what the analysis computes: the first context in the
/// sequence of analysis steps from the empty one that a further step
/// leaves unchanged.
pub open spec fn is_analysis(ast: AST, nr: Nameres, m: Map<Location, Lat>) -> bool {
    &&& exists|k: nat| #[trigger] iterate(ast, nr, k) == m
    &&& infer_round(ast, nr, m) == m
}

/// The locations the analysis of `ast` can ever record something at.
pub open spec fn in_universe(ast: AST, nr: Nameres, l: Location) -> bool {
    let n = ast.fns@.len();
    match l {
        Location::Var(f, v) => f < n && (ast.fns@[f as int].args@.contains(v) || (nr.vars@[f as int].view().contains_key(v)
            && nr.vars@[f as int].view()[v] == VarKind::Local)),
        Location::GlobalVar(v) => exists|f: int| 0 <= f < n && #[trigger] nr.vars@[f].view().contains_key(v)
            && nr.vars@[f].view()[v] == VarKind::Global,
        Location::RetVal(f) => f < n,
        _ => true,
    }
}

/// Whether every location of `c` can be recorded at and every value of `c`
/// names only functions of `ast`.
pub open spec fn ctx_ok(ast: AST, nr: Nameres, c: Map<Location, Lat>) -> bool {
    forall|l: Location| #[trigger] c.contains_key(l) ==> in_universe(ast, nr, l) && lat_ok(c[l], ast.fns@.len() as nat)
}

/// Whether `d` records everything `c` records, and at least as much.
pub open spec fn ctx_le(c: Map<Location, Lat>, d: Map<Location, Lat>) -> bool {
    forall|l: Location| #[trigger] c.contains_key(l) ==> d.contains_key(l) && lat_le(c[l], d[l])
}

/// The lattice values of `ts`.
pub open spec fn lats_view(ts: Seq<TypeLattice>) -> Seq<Lat> {
    ts.map_values(|t: TypeLattice| t.view())
}

/// The join is an upper bound and keeps function ids ordered and valid.
pub proof fn lemma_merge(x: Lat, y: Lat, n: nat)
    requires
        lat_ok(x, n),
        lat_ok(y, n),
    ensures
        lat_ok(lat_merge(x, y), n),
        lat_le(x, lat_merge(x, y)),
        lat_le(y, lat_merge(x, y)),
{
    lemma_merge_ids(x.fns, y.fns);
    let m = merge_ids(x.fns, y.fns);
    assert forall|i: int| 0 <= i < m.len() implies m[i] < n by {
        assert(m.contains(m[i]));
        if x.fns.contains(m[i]) {
            let k = choose|k: int| 0 <= k < x.fns.len() && x.fns[k] == m[i];
        } else {
            let k = choose|k: int| 0 <= k < y.fns.len() && y.fns[k] == m[i];
        }
    }
}

/// The join of the lattice is a join: the bottom is its unit, and it is
/// commutative, associative and idempotent (on values whose function ids
/// are in order).
pub proof fn lemma_join_laws(x: Lat, y: Lat, z: Lat)
    requires
        sorted(x.fns),
        sorted(y.fns),
        sorted(z.fns),
    ensures
        lat_merge(x, lat_bot()) == x,
        lat_merge(lat_bot(), x) == x,
        lat_merge(x, y) == lat_merge(y, x),
        lat_merge(lat_merge(x, y), z) == lat_merge(x, lat_merge(y, z)),
        lat_merge(x, x) == x,
{
    let e = Seq::<FnId>::empty();
    assert(sorted(e));
    lemma_merge_ids(x.fns, e);
    lemma_merge_ids(e, x.fns);
    lemma_sorted_same_ids(merge_ids(x.fns, e), x.fns);
    lemma_sorted_same_ids(merge_ids(e, x.fns), x.fns);
    lemma_merge_ids(x.fns, y.fns);
    lemma_merge_ids(y.fns, x.fns);
    lemma_sorted_same_ids(merge_ids(x.fns, y.fns), merge_ids(y.fns, x.fns));
    lemma_merge_ids(y.fns, z.fns);
    lemma_merge_ids(merge_ids(x.fns, y.fns), z.fns);
    lemma_merge_ids(x.fns, merge_ids(y.fns, z.fns));
    lemma_sorted_same_ids(merge_ids(merge_ids(x.fns, y.fns), z.fns), merge_ids(x.fns, merge_ids(y.fns, z.fns)));
    lemma_merge_ids(x.fns, x.fns);
    lemma_sorted_same_ids(merge_ids(x.fns, x.fns), x.fns);
}

/// Joining a valid value at a location that can be recorded keeps the
/// context valid and only adds to it.
pub proof fn lemma_sadd(ast: AST, nr: Nameres, c: Map<Location, Lat>, l: Location, t: Lat)
    requires
        ctx_ok(ast, nr, c),
        in_universe(ast, nr, l),
        lat_ok(t, ast.fns@.len() as nat),
    ensures
        ctx_ok(ast, nr, sadd(c, l, t)),
        ctx_le(c, sadd(c, l, t)),
{
    let n = ast.fns@.len() as nat;
    assert(lat_ok(sget(c, l), n)) by {
        if !c.contains_key(l) {
            assert(lat_bot().fns =~= Seq::<FnId>::empty());
        }
    }
    lemma_merge(t, sget(c, l), n);
}

/// What is read at a location of a valid context is valid.
pub proof fn lemma_sget(ast: AST, nr: Nameres, c: Map<Location, Lat>, l: Location)
    requires
        ctx_ok(ast, nr, c),
    ensures
        lat_ok(sget(c, l), ast.fns@.len() as nat),
{
}

/// The location of a variable with a kind can be recorded at.
pub proof fn lemma_var_loc(ast: AST, nr: Nameres, fid: int, v: Symbol)
    requires
        0 <= fid < ast.fns.len(),
        nr.vars@.len() == ast.fns@.len(),
        nr.vars@[fid].view().contains_key(v),
    ensures
        in_universe(ast, nr, var_loc(nr, fid, v)),
{
    assert((fid as FnId) as int == fid);
    if nr.vars@[fid].view()[v] == VarKind::Global {
        assert(nr.vars@[fid].view().contains_key(v));
    }
}

/// Whether everything the analysis step of an expression may assume holds.
pub open spec fn step_pre(ast: AST, nr: Nameres, fid: int, a: ACtxt) -> bool {
    &&& analysis_ready(ast, nr)
    &&& 0 <= fid < ast.fns@.len()
    &&& ctx_wf(a)
    &&& ctx_ok(ast, nr, cview(a))
}

/// Whether an analysis step from `a0` to `a1` kept the context valid and
/// only added to it.
pub open spec fn step_post(ast: AST, nr: Nameres, a0: ACtxt, a1: ACtxt) -> bool {
    &&& ctx_wf(a1)
    &&& ctx_ok(ast, nr, cview(a1))
    &&& ctx_le(cview(a0), cview(a1))
}

/// The analysis step for an expression of the function `fid`: records what
/// flows where, and says what values the expression may have.
pub fn ty_infer_expr(expr: &Expr, fid: FnId, ast: &AST, nameres: &Nameres, actxt: &mut ACtxt) -> (r: TypeLattice)
    requires
        step_pre(*ast, *nameres, fid as int, *old(actxt)),
        expr_ok(*expr, ast.fns@.len() as nat, nameres.vars@[fid as int].view()),
    ensures
        step_post(*ast, *nameres, *old(actxt), *final(actxt)),
        (r.view(), cview(*final(actxt))) == infer_expr(*ast, *nameres, fid as int, *expr, cview(*old(actxt))),
        r.wf(),
        lat_ok(r.view(), ast.fns@.len() as nat),
    decreases *expr,
{
    let ghost n = ast.fns@.len() as nat;
    let ghost c0 = cview(*actxt);
    match expr {
        Expr::FnId(f) => {
            let mut fns: Vec<FnId> = Vec::new();
            fns.push(*f);
            let r = TypeLattice { fn_options: fns, ..TypeLattice::bot() };
            assert(r.view() =~= Lat { fns: seq![*f], ..lat_bot() });
            r
        },
        Expr::Length(l) => {
            let _l = ty_infer_expr(l, fid, ast, nameres, actxt);
            TypeLattice::only(false, false, false, true, false, false)
        },
        Expr::NewList => TypeLattice::only(false, false, false, false, true, false),
        Expr::NewDict => TypeLattice::only(false, false, false, false, false, true),
        Expr::IndexList(l, i) => {
            let _l = ty_infer_expr(l, fid, ast, nameres, actxt);
            let _i = ty_infer_expr(i, fid, ast, nameres, actxt);
            proof {
                lemma_sget(*ast, *nameres, cview(*actxt), Location::ListItem);
            }
            get(Location::ListItem, actxt)
        },
        Expr::IndexDict(t, k) => {
            let _t = ty_infer_expr(t, fid, ast, nameres, actxt);
            let _k = ty_infer_expr(k, fid, ast, nameres, actxt);
            proof {
                lemma_sget(*ast, *nameres, cview(*actxt), Location::DictValue);
            }
            get(Location::DictValue, actxt)
        },
        Expr::FnCall(f, args) => {
            let fl = ty_infer_expr(f, fid, ast, nameres, actxt);
            let ghost c1 = cview(*actxt);
            let ghost a1 = *actxt;
            let mut lats: Vec<TypeLattice> = Vec::new();
            let mut i: usize = 0;
            while i < args.len()
                invariant
                    i <= args.len(),
                    step_pre(*ast, *nameres, fid as int, *actxt),
                    step_post(*ast, *nameres, a1, *actxt),
                    exprs_ok(args@, n, nameres.vars@[fid as int].view()),
                    n == ast.fns@.len(),
                    (lats_view(lats@), cview(*actxt)) == infer_exprs(*ast, *nameres, fid as int, args@.take(i as int), c1),
                    forall|j: int| 0 <= j < lats@.len() ==> (#[trigger] lats@[j]).wf() && lat_ok(lats@[j].view(), n),
                    *expr is FnCall,
                    (*expr)->FnCall_1 == *args,
                decreases args.len() - i,
            {
                proof {
                    assert(decreases_to!(*expr => (*expr)->FnCall_1));
                    assert(decreases_to!((*expr)->FnCall_1 => (*expr)->FnCall_1@));
                    assert(decreases_to!(args@ => args@[i as int]));
                    lemma_exprs_ok_at(args@, n, nameres.vars@[fid as int].view(), i as int);
                    assert(args@.take(i + 1).drop_last() =~= args@.take(i as int));
                }
                let ghost lv0 = lats@;
                let li = ty_infer_expr(&args[i], fid, ast, nameres, actxt);
                lats.push(li);
                proof {
                    assert(lats_view(lats@) =~= lats_view(lv0).push(li.view()));
                }
                i = i + 1;
            }
            assert(args@.take(args.len() as int) =~= args@);
            proof {
                lemma_infer_exprs_len(*ast, *nameres, fid as int, args@, c1);
                assert(fl.fn_options@.skip(0) =~= fl.fn_options@);
            }
            let ghost c2 = cview(*actxt);
            let ghost a2 = *actxt;
            let mut ret = TypeLattice::bot();
            let mut k: usize = 0;
            while k < fl.fn_options.len()
                invariant
                    k <= fl.fn_options.len(),
                    step_pre(*ast, *nameres, fid as int, *actxt),
                    step_post(*ast, *nameres, a2, *actxt),
                    n == ast.fns@.len(),
                    lat_ok(fl.view(), n),
                    lats@.len() == args@.len(),
                    forall|j: int| 0 <= j < lats@.len() ==> (#[trigger] lats@[j]).wf() && lat_ok(lats@[j].view(), n),
                    ret.wf(),
                    lat_ok(ret.view(), n),
                    call_effect(*ast, fl.fn_options@, lats_view(lats@), c2, lat_bot())
                        == call_effect(*ast, fl.fn_options@.skip(k as int), lats_view(lats@), cview(*actxt), ret.view()),
                decreases fl.fn_options.len() - k,
            {
                let callee = fl.fn_options[k];
                let ghost rest = fl.fn_options@.skip(k as int);
                assert(rest[0] == callee);
                assert(rest.drop_first() =~= fl.fn_options@.skip(k + 1));
                assert(callee < n);
                let params = &ast.fns[callee].args;
                if params.len() == lats.len() {
                    let ghost cs = cview(*actxt);
                    let ghost as_ = *actxt;
                    let mut j: usize = 0;
                    while j < lats.len()
                        invariant
                            j <= lats.len(),
                            params.len() == lats.len(),
                            *params == ast.fns@[callee as int].args,
                            callee < n,
                            step_pre(*ast, *nameres, fid as int, *actxt),
                            step_post(*ast, *nameres, as_, *actxt),
                            n == ast.fns@.len(),
                            forall|q: int| 0 <= q < lats@.len() ==> (#[trigger] lats@[q]).wf() && lat_ok(lats@[q].view(), n),
                            cview(*actxt) == push_args(callee, params@, lats_view(lats@).take(j as int), cs),
                        decreases lats.len() - j,
                    {
                        proof {
                            let t = lats_view(lats@).take(j + 1);
                            assert(t.drop_last() =~= lats_view(lats@).take(j as int));
                            assert(t[j as int] == lats@[j as int].view());
                            assert(ast.fns@[callee as int].args@.contains(params@[j as int]));
                            lemma_sadd(*ast, *nameres, cview(*actxt), Location::Var(callee, params@[j as int]), lats@[j as int].view());
                        }
                        self::add(Location::Var(callee, params[j]), &lats[j], actxt);
                        j = j + 1;
                    }
                    assert(lats_view(lats@).take(lats.len() as int) =~= lats_view(lats@));
                    proof {
                        lemma_sget(*ast, *nameres, cview(*actxt), Location::RetVal(callee));
                    }
                    let cr = get(Location::RetVal(callee), actxt);
                    proof {
                        lemma_merge(ret.view(), cr.view(), n);
                    }
                    ret = TypeLattice::merge(&ret, &cr);
                }
                k = k + 1;
            }
            proof {
                assert(fl.fn_options@.skip(fl.fn_options.len() as int).len() == 0);
            }
            ret
        },
        Expr::BinOp(kind, l, r) => {
            let _l = ty_infer_expr(l, fid, ast, nameres, actxt);
            let _r = ty_infer_expr(r, fid, ast, nameres, actxt);
            match kind {
                BinOpKind::Equ | BinOpKind::Ne | BinOpKind::Lt | BinOpKind::Gt => TypeLattice::only(true, false, false, false, false, false),
                _ => TypeLattice::only(false, false, false, true, false, false),
            }
        },
        Expr::IntLit(_) => TypeLattice::only(false, false, false, true, false, false),
        Expr::StringLit(_) => TypeLattice::only(false, false, true, false, false, false),
        Expr::BoolLit(_) => TypeLattice::only(true, false, false, false, false, false),
        Expr::NilLit => TypeLattice::only(false, true, false, false, false, false),
        Expr::Var(v) => {
            let l = get_var_loc(fid, *v, nameres);
            proof {
                lemma_sget(*ast, *nameres, cview(*actxt), l);
            }
            get(l, actxt)
        },
        Expr::Input => TypeLattice::only(true, true, true, true, false, false),
    }
}

/// The analysis step for the statements of `body`, in order.
pub fn ty_infer_body(body: &Body, fid: FnId, ast: &AST, nameres: &Nameres, actxt: &mut ACtxt)
    requires
        step_pre(*ast, *nameres, fid as int, *old(actxt)),
        body_ok(body@, ast.fns@.len() as nat, nameres.vars@[fid as int].view()),
    ensures
        step_post(*ast, *nameres, *old(actxt), *final(actxt)),
        cview(*final(actxt)) == infer_body(*ast, *nameres, fid as int, body@, cview(*old(actxt))),
    decreases body@, 1nat,
{
    let ghost c0 = cview(*actxt);
    let ghost a0 = *actxt;
    let mut i: usize = 0;
    while i < body.len()
        invariant
            i <= body.len(),
            step_pre(*ast, *nameres, fid as int, *actxt),
            step_post(*ast, *nameres, a0, *actxt),
            body_ok(body@, ast.fns@.len() as nat, nameres.vars@[fid as int].view()),
            cview(*actxt) == infer_body(*ast, *nameres, fid as int, body@.take(i as int), c0),
        decreases body.len() - i,
    {
        proof {
            lemma_body_ok_at(body@, ast.fns@.len() as nat, nameres.vars@[fid as int].view(), i as int);
            assert(body@.take(i + 1).drop_last() =~= body@.take(i as int));
        }
        ty_infer_stmt(&body[i], fid, ast, nameres, actxt);
        i = i + 1;
    }
    assert(body@.take(body.len() as int) =~= body@);
}

/// The analysis step for a statement of the function `fid`.
pub fn ty_infer_stmt(stmt: &Stmt, fid: FnId, ast: &AST, nameres: &Nameres, actxt: &mut ACtxt)
    requires
        step_pre(*ast, *nameres, fid as int, *old(actxt)),
        stmt_ok(*stmt, ast.fns@.len() as nat, nameres.vars@[fid as int].view()),
    ensures
        step_post(*ast, *nameres, *old(actxt), *final(actxt)),
        cview(*final(actxt)) == infer_stmt(*ast, *nameres, fid as int, *stmt, cview(*old(actxt))),
    decreases *stmt, 0nat,
{
    match stmt {
        Stmt::Global(_) => {},
        Stmt::ListStore(l, i, v) => {
            let _l = ty_infer_expr(l, fid, ast, nameres, actxt);
            let _i = ty_infer_expr(i, fid, ast, nameres, actxt);
            let v = ty_infer_expr(v, fid, ast, nameres, actxt);
            proof {
                lemma_sadd(*ast, *nameres, cview(*actxt), Location::ListItem, v.view());
            }
            self::add(Location::ListItem, &v, actxt);
        },
        Stmt::Push(l, v) => {
            let _l = ty_infer_expr(l, fid, ast, nameres, actxt);
            let v = ty_infer_expr(v, fid, ast, nameres, actxt);
            proof {
                lemma_sadd(*ast, *nameres, cview(*actxt), Location::ListItem, v.view());
            }
            self::add(Location::ListItem, &v, actxt);
        },
        Stmt::DictStore(t, k, v) => {
            let _t = ty_infer_expr(t, fid, ast, nameres, actxt);
            let k = ty_infer_expr(k, fid, ast, nameres, actxt);
            let v = ty_infer_expr(v, fid, ast, nameres, actxt);
            proof {
                lemma_sadd(*ast, *nameres, cview(*actxt), Location::DictKey, k.view());
            }
            self::add(Location::DictKey, &k, actxt);
            proof {
                lemma_sadd(*ast, *nameres, cview(*actxt), Location::DictValue, v.view());
            }
            self::add(Location::DictValue, &v, actxt);
        },
        Stmt::Assign(v, e) => {
            let r = ty_infer_expr(e, fid, ast, nameres, actxt);
            let l = get_var_loc(fid, *v, nameres);
            proof {
                lemma_var_loc(*ast, *nameres, fid as int, *v);
                lemma_sadd(*ast, *nameres, cview(*actxt), l, r.view());
            }
            self::add(l, &r, actxt);
        },
        Stmt::Return(e) => {
            let r = ty_infer_expr(e, fid, ast, nameres, actxt);
            proof {
                lemma_sadd(*ast, *nameres, cview(*actxt), Location::RetVal(fid), r.view());
            }
            self::add(Location::RetVal(fid), &r, actxt);
        },
        Stmt::If(c, then_, else_) => {
            ty_infer_expr(c, fid, ast, nameres, actxt);
            ty_infer_body(then_, fid, ast, nameres, actxt);
            ty_infer_body(else_, fid, ast, nameres, actxt);
        },
        Stmt::While(c, body) => {
            ty_infer_expr(c, fid, ast, nameres, actxt);
            ty_infer_body(body, fid, ast, nameres, actxt);
        },
        Stmt::Print(e) => {
            ty_infer_expr(e, fid, ast, nameres, actxt);
        },
    }
}

/// Each statement of a valid statement list is valid.
pub proof fn lemma_body_ok_at(b: Seq<Stmt>, n: nat, m: Map<Symbol, VarKind>, i: int)
    requires
        body_ok(b, n, m),
        0 <= i < b.len(),
    ensures
        stmt_ok(b[i], n, m),
    decreases b.len(),
{
    if i < b.len() - 1 {
        lemma_body_ok_at(b.drop_last(), n, m, i);
        assert(b.drop_last()[i] == b[i]);
    }
}

/// One analysis step over the bodies of all functions, in order.
pub fn ty_infer_round(ast: &AST, nameres: &Nameres, actxt: &mut ACtxt)
    requires
        analysis_ready(*ast, *nameres),
        ctx_wf(*old(actxt)),
        ctx_ok(*ast, *nameres, cview(*old(actxt))),
    ensures
        step_post(*ast, *nameres, *old(actxt), *final(actxt)),
        cview(*final(actxt)) == infer_round(*ast, *nameres, cview(*old(actxt))),
{
    let ghost c0 = cview(*actxt);
    let ghost a0 = *actxt;
    let mut fid: usize = 0;
    while fid < ast.fns.len()
        invariant
            fid <= ast.fns.len(),
            analysis_ready(*ast, *nameres),
            ctx_wf(*actxt),
            ctx_ok(*ast, *nameres, cview(*actxt)),
            step_post(*ast, *nameres, a0, *actxt),
            cview(*actxt) == infer_fns(*ast, *nameres, fid as nat, c0),
        decreases ast.fns.len() - fid,
    {
        proof {
            assert(body_ok(ast.fns@[fid as int].body@, ast.fns@.len() as nat, nameres.vars@[fid as int].view()));
        }
        ty_infer_body(&ast.fns[fid].body, fid, ast, nameres, actxt);
        fid = fid + 1;
    }
}

/// The analysis step of a list of expressions gives one value per expression.
pub proof fn lemma_infer_exprs_len(ast: AST, nr: Nameres, fid: int, es: Seq<Expr>, c: Map<Location, Lat>)
    ensures
        infer_exprs(ast, nr, fid, es, c).0.len() == es.len(),
    decreases es.len(),
{
    if es.len() > 0 {
        lemma_infer_exprs_len(ast, nr, fid, es.drop_last(), c);
    }
}

/// Each expression of a list of valid expressions is valid.
pub proof fn lemma_exprs_ok_at(es: Seq<Expr>, n: nat, m: Map<Symbol, VarKind>, i: int)
    requires
        exprs_ok(es, n, m),
        0 <= i < es.len(),
    ensures
        expr_ok(es[i], n, m),
        exprs_ok(es.take(i + 1), n, m),
    decreases es.len(),
{
    if i < es.len() - 1 {
        lemma_exprs_ok_at(es.drop_last(), n, m, i);
        assert(es.drop_last()[i] == es[i]);
        assert(es.drop_last().take(i + 1) =~= es.take(i + 1));
    } else {
        assert(es.take(i + 1) =~= es);
    }
}

/// Whether the entries `e` and `f` have the same keys, position by
/// position, with lattice values of the same value.
pub open spec fn same_entries(e: Seq<(Location, TypeLattice)>, f: Seq<(Location, TypeLattice)>) -> bool {
    &&& e.len() == f.len()
    &&& forall|i: int| 0 <= i < e.len() ==> (#[trigger] e[i]).0 == f[i].0 && e[i].1.view() == f[i].1.view()
}

/// Entry lists that agree position by position stand for the same context.
pub proof fn lemma_same_entries(a: ACtxt, b: ACtxt)
    requires
        a.wf(),
        same_entries(a.entries@, b.entries@),
    ensures
        b.wf(),
        cview(a) == cview(b),
{
    let e = a.entries@;
    let f = b.entries@;
    assert(crate::assoc::keys_unique(f)) by {
        assert forall|i: int, j: int| 0 <= i < j < f.len() implies #[trigger] f[i].0 != #[trigger] f[j].0 by {
            assert(e[i].0 == f[i].0);
            assert(e[j].0 == f[j].0);
        }
    }
    crate::assoc::lemma_map_of_dom(e);
    crate::assoc::lemma_map_of_dom(f);
    assert forall|k: Location| #[trigger] cview(a).contains_key(k) <==> cview(b).contains_key(k) by {
        if a.view().contains_key(k) {
            let i = choose|i: int| 0 <= i < e.len() && e[i].0 == k;
            assert(f[i].0 == k);
        }
        if b.view().contains_key(k) {
            let i = choose|i: int| 0 <= i < f.len() && f[i].0 == k;
            assert(e[i].0 == k);
        }
    }
    assert forall|k: Location| #[trigger] cview(a).contains_key(k) implies cview(a)[k] == cview(b)[k] by {
        let i = choose|i: int| 0 <= i < e.len() && e[i].0 == k;
        crate::assoc::lemma_map_of_entry(e, i);
        crate::assoc::lemma_map_of_entry(f, i);
        assert(e[i].1.view() == f[i].1.view());
    }
    assert(cview(a) =~= cview(b));
}

/// A copy of an analysis context.
pub fn copy_ctx(a: &ACtxt) -> (r: ACtxt)
    requires
        ctx_wf(*a),
    ensures
        ctx_wf(r),
        cview(r) == cview(*a),
{
    let mut entries: Vec<(Location, TypeLattice)> = Vec::new();
    let mut i: usize = 0;
    while i < a.entries.len()
        invariant
            i <= a.entries.len(),
            ctx_wf(*a),
            same_entries(a.entries@.take(i as int), entries@),
            forall|j: int| 0 <= j < entries@.len() ==> (#[trigger] entries@[j]).1.wf(),
        decreases a.entries.len() - i,
    {
        let t = a.entries[i].1.copy();
        entries.push((a.entries[i].0, t));
        proof {
            assert(a.entries@[i as int].1.wf());
            let e = a.entries@.take(i + 1);
            assert forall|j: int| 0 <= j < e.len() implies (#[trigger] e[j]).0 == entries@[j].0 && e[j].1.view() == entries@[j].1.view() by {
                if j < i {
                    assert(e[j] == a.entries@.take(i as int)[j]);
                }
            }
        }
        i = i + 1;
    }
    assert(a.entries@.take(a.entries.len() as int) =~= a.entries@);
    let r = AssocMap { entries };
    proof {
        lemma_same_entries(*a, r);
    }
    r
}

/// Whether two analysis contexts record the same values at the same locations.
pub fn ctx_same(a: &ACtxt, b: &ACtxt) -> (r: bool)
    requires
        ctx_wf(*a),
        ctx_wf(*b),
    ensures
        r == (cview(*a) == cview(*b)),
{
    proof {
        crate::assoc::lemma_map_of_dom(a.entries@);
        crate::assoc::lemma_map_of_dom(b.entries@);
    }
    let mut i: usize = 0;
    while i < a.entries.len()
        invariant
            i <= a.entries.len(),
            ctx_wf(*a),
            ctx_wf(*b),
            forall|j: int| 0 <= j < i ==> cview(*b).contains_key(#[trigger] a.entries@[j].0)
                && cview(*b)[a.entries@[j].0] == a.entries@[j].1.view(),
        decreases a.entries.len() - i,
    {
        let k = a.entries[i].0;
        proof {
            crate::assoc::lemma_map_of_entry(a.entries@, i as int);
        }
        match b.get(&k) {
            Some(w) => {
                if !a.entries[i].1.same(w) {
                    assert(cview(*a).contains_key(k) && cview(*a)[k] == a.entries@[i as int].1.view());
                    assert(cview(*b)[k] == w.view());
                    assert(cview(*a)[k] != cview(*b)[k]);
                    return false;
                }
            },
            None => {
                assert(cview(*a).contains_key(k));
                assert(!cview(*b).contains_key(k));
                return false;
            },
        }
        i = i + 1;
    }
    let mut j: usize = 0;
    while j < b.entries.len()
        invariant
            j <= b.entries.len(),
            ctx_wf(*a),
            ctx_wf(*b),
            forall|q: int| 0 <= q < j ==> cview(*a).contains_key(#[trigger] b.entries@[q].0),
        decreases b.entries.len() - j,
    {
        let k = b.entries[j].0;
        if a.position(&k).is_none() {
            proof {
                crate::assoc::lemma_map_of_entry(b.entries@, j as int);
                assert(cview(*b).contains_key(k));
                assert(!cview(*a).contains_key(k));
            }
            return false;
        }
        j = j + 1;
    }
    proof {
        crate::assoc::lemma_map_of_dom(a.entries@);
        crate::assoc::lemma_map_of_dom(b.entries@);
        assert forall|k: Location| #[trigger] cview(*a).contains_key(k) <==> cview(*b).contains_key(k) by {
            if a.view().contains_key(k) {
                let q = choose|q: int| 0 <= q < a.entries@.len() && a.entries@[q].0 == k;
                assert(cview(*b).contains_key(a.entries@[q].0));
            }
            if b.view().contains_key(k) {
                let q = choose|q: int| 0 <= q < b.entries@.len() && b.entries@[q].0 == k;
                assert(cview(*a).contains_key(b.entries@[q].0));
            }
        }
        assert forall|k: Location| #[trigger] cview(*a).contains_key(k) implies cview(*a)[k] == cview(*b)[k] by {
            let q = choose|q: int| 0 <= q < a.entries@.len() && a.entries@[q].0 == k;
            crate::assoc::lemma_map_of_entry(a.entries@, q);
            assert(cview(*b).contains_key(a.entries@[q].0));
        }
        assert(cview(*a) =~= cview(*b));
    }
    true
}

/// The locations the function `f` contributes to the universe: its return
/// value, its arguments and the locations of its variables.
pub open spec fn fn_universe(ast: AST, nr: Nameres, f: int) -> Seq<Location> {
    seq![Location::RetVal(f as FnId)]
        + ast.fns@[f].args@.map_values(|a: Symbol| Location::Var(f as FnId, a))
        + nr.vars@[f].entries@.map_values(|e: (Symbol, VarKind)|
            if e.1 == VarKind::Global { Location::GlobalVar(e.0) } else { Location::Var(f as FnId, e.0) })
}

/// The universe contributions of the first `k` functions, after the list
/// and dictionary locations.
pub open spec fn universe_upto(ast: AST, nr: Nameres, k: nat) -> Seq<Location>
    decreases k,
{
    if k == 0 {
        seq![Location::ListItem, Location::DictKey, Location::DictValue]
    } else {
        universe_upto(ast, nr, (k - 1) as nat) + fn_universe(ast, nr, k - 1)
    }
}

/// A list of all the locations the analysis can record at.
pub open spec fn universe(ast: AST, nr: Nameres) -> Seq<Location> {
    universe_upto(ast, nr, ast.fns@.len() as nat)
}

proof fn lemma_universe_upto(ast: AST, nr: Nameres, k: nat, f: int, l: Location)
    requires
        0 <= f < k,
        fn_universe(ast, nr, f).contains(l),
    ensures
        universe_upto(ast, nr, k).contains(l),
    decreases k,
{
    let u = universe_upto(ast, nr, k);
    let p = universe_upto(ast, nr, (k - 1) as nat);
    if f < k - 1 {
        lemma_universe_upto(ast, nr, (k - 1) as nat, f, l);
        let i = choose|i: int| 0 <= i < p.len() && p[i] == l;
        assert(u[i] == l);
    } else {
        let q = fn_universe(ast, nr, f);
        let i = choose|i: int| 0 <= i < q.len() && q[i] == l;
        assert(u[p.len() + i] == l);
    }
}

/// Every location that can be recorded at is listed in the universe.
pub proof fn lemma_in_universe(ast: AST, nr: Nameres, l: Location)
    requires
        in_universe(ast, nr, l),
        nr.vars@.len() == ast.fns@.len(),
        forall|f: int| 0 <= f < nr.vars@.len() ==> (#[trigger] nr.vars@[f]).wf(),
    ensures
        universe(ast, nr).contains(l),
{
    let n = ast.fns@.len() as nat;
    match l {
        Location::Var(f, v) => {
            let fi = f as int;
            let q = fn_universe(ast, nr, fi);
            let args = ast.fns@[fi].args@;
            let ents = nr.vars@[fi].entries@;
            if args.contains(v) {
                let i = choose|i: int| 0 <= i < args.len() && args[i] == v;
                assert(q[1 + i] == l);
            } else {
                crate::assoc::lemma_map_of_dom(ents);
                let i = choose|i: int| 0 <= i < ents.len() && ents[i].0 == v;
                crate::assoc::lemma_map_of_entry(ents, i);
                assert(q[1 + args.len() + i] == l);
            }
            lemma_universe_upto(ast, nr, n, fi, l);
        },
        Location::GlobalVar(v) => {
            let f = choose|f: int| 0 <= f < n && #[trigger] nr.vars@[f].view().contains_key(v)
                && nr.vars@[f].view()[v] == VarKind::Global;
            let q = fn_universe(ast, nr, f);
            let args = ast.fns@[f].args@;
            let ents = nr.vars@[f].entries@;
            crate::assoc::lemma_map_of_dom(ents);
            let i = choose|i: int| 0 <= i < ents.len() && ents[i].0 == v;
            crate::assoc::lemma_map_of_entry(ents, i);
            assert(q[1 + args.len() + i] == l);
            lemma_universe_upto(ast, nr, n, f, l);
        },
        Location::RetVal(f) => {
            let q = fn_universe(ast, nr, f as int);
            assert(q[0] == l);
            lemma_universe_upto(ast, nr, n, f as int, l);
        },
        _ => {
            lemma_base_in_universe(ast, nr, n, l);
        },
    }
}

proof fn lemma_base_in_universe(ast: AST, nr: Nameres, k: nat, l: Location)
    requires
        l is ListItem || l is DictKey || l is DictValue,
    ensures
        universe_upto(ast, nr, k).contains(l),
    decreases k,
{
    if k == 0 {
        let u = universe_upto(ast, nr, 0);
        if l is ListItem {
            assert(u[0] == l);
        } else if l is DictKey {
            assert(u[1] == l);
        } else {
            assert(u[2] == l);
        }
    } else {
        lemma_base_in_universe(ast, nr, (k - 1) as nat, l);
        let p = universe_upto(ast, nr, (k - 1) as nat);
        let i = choose|i: int| 0 <= i < p.len() && p[i] == l;
        assert(universe_upto(ast, nr, k)[i] == l);
    }
}

/// How much of a lattice value is known: its allowed kinds and functions.
pub open spec fn lat_size(x: Lat) -> int {
    (if x.boolean { 1int } else { 0 }) + (if x.nil { 1int } else { 0 }) + (if x.string { 1int } else { 0 })
        + (if x.int { 1int } else { 0 }) + (if x.list { 1int } else { 0 }) + (if x.dict { 1int } else { 0 })
        + x.fns.len()
}

/// How much can still be learnt at `l`.
pub open spec fn cost(c: Map<Location, Lat>, l: Location, n: nat) -> int {
    if c.contains_key(l) {
        6 + n as int - lat_size(c[l])
    } else {
        7 + n as int
    }
}

/// How much can still be learnt at the locations `u`.
pub open spec fn potential(c: Map<Location, Lat>, u: Seq<Location>, n: nat) -> int
    decreases u.len(),
{
    if u.len() == 0 {
        0
    } else {
        potential(c, u.drop_last(), n) + cost(c, u.last(), n)
    }
}

/// A valid value knows at most everything; a value above another knows at
/// least as much, and strictly more unless it is the same.
pub proof fn lemma_lat_size(x: Lat, y: Lat, n: nat)
    requires
        lat_ok(x, n),
        lat_ok(y, n),
        lat_le(x, y),
    ensures
        0 <= lat_size(x) <= 6 + n,
        lat_size(x) <= lat_size(y),
        x != y ==> lat_size(x) < lat_size(y),
{
    crate::fnset::lemma_sorted_below_len(x.fns, n);
    crate::fnset::lemma_sorted_sub_len(x.fns, y.fns);
}

proof fn lemma_potential(c: Map<Location, Lat>, d: Map<Location, Lat>, u: Seq<Location>, n: nat, ast: AST, nr: Nameres)
    requires
        ctx_ok(ast, nr, c),
        ctx_ok(ast, nr, d),
        ctx_le(c, d),
        n == ast.fns@.len(),
    ensures
        potential(d, u, n) <= potential(c, u, n),
        0 <= potential(d, u, n),
        (exists|i: int| 0 <= i < u.len() && #[trigger] cost(d, u[i], n) < cost(c, u[i], n)) ==> potential(d, u, n) < potential(c, u, n),
    decreases u.len(),
{
    if u.len() > 0 {
        let p = u.drop_last();
        lemma_potential(c, d, p, n, ast, nr);
        let l = u.last();
        if d.contains_key(l) {
            lemma_lat_size(d[l], d[l], n);
            if c.contains_key(l) {
                lemma_lat_size(c[l], d[l], n);
            }
        }
        if exists|i: int| 0 <= i < u.len() && #[trigger] cost(d, u[i], n) < cost(c, u[i], n) {
            let i = choose|i: int| 0 <= i < u.len() && #[trigger] cost(d, u[i], n) < cost(c, u[i], n);
            if i < u.len() - 1 {
                assert(p[i] == u[i]);
                assert(cost(d, p[i], n) < cost(c, p[i], n));
            }
        }
    }
}

/// A step that changes a valid context strictly lowers its potential.
pub proof fn lemma_progress(ast: AST, nr: Nameres, c: Map<Location, Lat>, d: Map<Location, Lat>)
    requires
        analysis_ready(ast, nr),
        ctx_ok(ast, nr, c),
        ctx_ok(ast, nr, d),
        ctx_le(c, d),
        c != d,
    ensures
        0 <= potential(d, universe(ast, nr), ast.fns@.len() as nat) < potential(c, universe(ast, nr), ast.fns@.len() as nat),
{
    let n = ast.fns@.len() as nat;
    let u = universe(ast, nr);
    let l = choose|l: Location| #[trigger] d.contains_key(l) && (!c.contains_key(l) || c[l] != d[l]);
    if !exists|l: Location| #[trigger] d.contains_key(l) && (!c.contains_key(l) || c[l] != d[l]) {
        assert(c =~= d);
    }
    lemma_in_universe(ast, nr, l);
    let i = choose|i: int| 0 <= i < u.len() && u[i] == l;
    lemma_lat_size(d[l], d[l], n);
    if c.contains_key(l) {
        lemma_lat_size(c[l], d[l], n);
    }
    assert(cost(d, u[i], n) < cost(c, u[i], n));
    lemma_potential(c, d, u, n, ast, nr);
}

/// Runs analysis steps over the whole program, from the empty context, until
/// a step changes nothing; the result records what may be stored where.
pub fn analyze(ast: &AST, nameres: &Nameres) -> (r: ACtxt)
    requires
        analysis_ready(*ast, *nameres),
    ensures
        ctx_wf(r),
        ctx_ok(*ast, *nameres, cview(r)),
        is_analysis(*ast, *nameres, cview(r)),
{
    let mut actxt: ACtxt = AssocMap::new();
    let ghost mut k: nat = 0;
    assert(cview(actxt) =~= iterate(*ast, *nameres, 0));
    loop
        invariant
            analysis_ready(*ast, *nameres),
            ctx_wf(actxt),
            ctx_ok(*ast, *nameres, cview(actxt)),
            iterate(*ast, *nameres, k) == cview(actxt),
        ensures
            ctx_wf(actxt),
            ctx_ok(*ast, *nameres, cview(actxt)),
            is_analysis(*ast, *nameres, cview(actxt)),
        decreases potential(cview(actxt), universe(*ast, *nameres), ast.fns@.len() as nat),
    {
        let ghost c0 = cview(actxt);
        let bkp = copy_ctx(&actxt);
        ty_infer_round(ast, nameres, &mut actxt);
        proof {
            k = k + 1;
        }
        if ctx_same(&bkp, &actxt) {
            break;
        }
        proof {
            lemma_progress(*ast, *nameres, c0, cview(actxt));
        }
    }
    actxt
}


/// Whether the node `x` is fine for the analysis: a function id it names is
/// below `n`, and a variable it reads or assigns has a kind in `m`.
pub open spec fn node_ok(x: Node, n: nat, m: Map<Symbol, VarKind>) -> bool {
    match x {
        Node::E(Expr::FnId(f)) => f < n,
        Node::E(Expr::Var(v)) => m.contains_key(v),
        Node::S(Stmt::Assign(v, _)) => m.contains_key(v),
        _ => true,
    }
}

/// Whether every node of `xs` is fine for the analysis.
pub open spec fn nodes_ok(xs: Seq<Node>, n: nat, m: Map<Symbol, VarKind>) -> bool {
    forall|i: int| 0 <= i < xs.len() ==> node_ok(#[trigger] xs[i], n, m)
}

/// Whether every function id named in the bodies of `ast` is a function of
/// `ast`.
pub open spec fn fn_ids_valid(ast: AST) -> bool {
    forall|f: int, i: int| 0 <= f < ast.fns@.len() && 0 <= i < body_nodes(ast.fns@[f].body@).len() ==>
        (#[trigger] body_nodes(ast.fns@[f].body@)[i] matches Node::E(Expr::FnId(g)) ==> g < ast.fns@.len())
}

proof fn lemma_nodes_ok_split(a: Seq<Node>, b: Seq<Node>, n: nat, m: Map<Symbol, VarKind>)
    requires
        nodes_ok(a + b, n, m),
    ensures
        nodes_ok(a, n, m),
        nodes_ok(b, n, m),
{
    assert forall|i: int| 0 <= i < a.len() implies node_ok(#[trigger] a[i], n, m) by {
        assert((a + b)[i] == a[i]);
    }
    assert forall|i: int| 0 <= i < b.len() implies node_ok(#[trigger] b[i], n, m) by {
        assert((a + b)[a.len() + i] == b[i]);
    }
}

proof fn lemma_expr_nodes_ok(e: Expr, n: nat, m: Map<Symbol, VarKind>)
    requires
        nodes_ok(expr_nodes(e), n, m),
    ensures
        expr_ok(e, n, m),
    decreases e,
{
    let h = seq![Node::E(e)];
    assert(expr_nodes(e)[0] == Node::E(e));
    assert(node_ok(expr_nodes(e)[0], n, m));
    match e {
        Expr::IndexList(a, b) | Expr::IndexDict(a, b) | Expr::BinOp(_, a, b) => {
            assert(expr_nodes(e) == h + expr_nodes(*a) + expr_nodes(*b));
            lemma_nodes_ok_split(h + expr_nodes(*a), expr_nodes(*b), n, m);
            lemma_nodes_ok_split(h, expr_nodes(*a), n, m);
            lemma_expr_nodes_ok(*a, n, m);
            lemma_expr_nodes_ok(*b, n, m);
        },
        Expr::Length(a) => {
            assert(expr_nodes(e) == h + expr_nodes(*a));
            lemma_nodes_ok_split(h, expr_nodes(*a), n, m);
            lemma_expr_nodes_ok(*a, n, m);
        },
        Expr::FnCall(f, args) => {
            assert(expr_nodes(e) == h + expr_nodes(*f) + exprs_nodes(args@));
            lemma_nodes_ok_split(h + expr_nodes(*f), exprs_nodes(args@), n, m);
            lemma_nodes_ok_split(h, expr_nodes(*f), n, m);
            lemma_expr_nodes_ok(*f, n, m);
            lemma_exprs_nodes_ok(args@, n, m);
        },
        _ => {},
    }
}

proof fn lemma_exprs_nodes_ok(es: Seq<Expr>, n: nat, m: Map<Symbol, VarKind>)
    requires
        nodes_ok(exprs_nodes(es), n, m),
    ensures
        exprs_ok(es, n, m),
    decreases es,
{
    if es.len() > 0 {
        lemma_nodes_ok_split(exprs_nodes(es.drop_last()), expr_nodes(es.last()), n, m);
        lemma_exprs_nodes_ok(es.drop_last(), n, m);
        lemma_expr_nodes_ok(es.last(), n, m);
    }
}

proof fn lemma_stmt_nodes_ok(s: Stmt, n: nat, m: Map<Symbol, VarKind>)
    requires
        nodes_ok(stmt_nodes(s), n, m),
    ensures
        stmt_ok(s, n, m),
    decreases s,
{
    let h = seq![Node::S(s)];
    assert(stmt_nodes(s)[0] == Node::S(s));
    assert(node_ok(stmt_nodes(s)[0], n, m));
    match s {
        Stmt::ListStore(a, b, c) | Stmt::DictStore(a, b, c) => {
            assert(stmt_nodes(s) == h + expr_nodes(a) + expr_nodes(b) + expr_nodes(c));
            lemma_nodes_ok_split(h + expr_nodes(a) + expr_nodes(b), expr_nodes(c), n, m);
            lemma_nodes_ok_split(h + expr_nodes(a), expr_nodes(b), n, m);
            lemma_nodes_ok_split(h, expr_nodes(a), n, m);
            lemma_expr_nodes_ok(a, n, m);
            lemma_expr_nodes_ok(b, n, m);
            lemma_expr_nodes_ok(c, n, m);
        },
        Stmt::Push(a, b) => {
            assert(stmt_nodes(s) == h + expr_nodes(a) + expr_nodes(b));
            lemma_nodes_ok_split(h + expr_nodes(a), expr_nodes(b), n, m);
            lemma_nodes_ok_split(h, expr_nodes(a), n, m);
            lemma_expr_nodes_ok(a, n, m);
            lemma_expr_nodes_ok(b, n, m);
        },
        Stmt::Return(e) | Stmt::Assign(_, e) | Stmt::Print(e) => {
            assert(stmt_nodes(s) == h + expr_nodes(e));
            lemma_nodes_ok_split(h, expr_nodes(e), n, m);
            lemma_expr_nodes_ok(e, n, m);
        },
        Stmt::If(c, t, f) => {
            assert(stmt_nodes(s) == h + expr_nodes(c) + body_nodes(t@) + body_nodes(f@));
            lemma_nodes_ok_split(h + expr_nodes(c) + body_nodes(t@), body_nodes(f@), n, m);
            lemma_nodes_ok_split(h + expr_nodes(c), body_nodes(t@), n, m);
            lemma_nodes_ok_split(h, expr_nodes(c), n, m);
            lemma_expr_nodes_ok(c, n, m);
            lemma_body_nodes_ok(t@, n, m);
            lemma_body_nodes_ok(f@, n, m);
        },
        Stmt::While(c, b) => {
            assert(stmt_nodes(s) == h + expr_nodes(c) + body_nodes(b@));
            lemma_nodes_ok_split(h + expr_nodes(c), body_nodes(b@), n, m);
            lemma_nodes_ok_split(h, expr_nodes(c), n, m);
            lemma_expr_nodes_ok(c, n, m);
            lemma_body_nodes_ok(b@, n, m);
        },
        Stmt::Global(_) => {},
    }
}

proof fn lemma_body_nodes_ok(b: Seq<Stmt>, n: nat, m: Map<Symbol, VarKind>)
    requires
        nodes_ok(body_nodes(b), n, m),
    ensures
        body_ok(b, n, m),
    decreases b,
{
    if b.len() > 0 {
        lemma_nodes_ok_split(body_nodes(b.drop_last()), stmt_nodes(b.last()), n, m);
        lemma_body_nodes_ok(b.drop_last(), n, m);
        lemma_stmt_nodes_ok(b.last(), n, m);
    }
}

/// Name resolution makes a program ready for the analysis: where every
/// function id a body names is a function of the program, the resolution
/// `nameres` computes gives a kind to every variable each function reads or
/// assigns.
pub proof fn lemma_nameres_ready(ast: AST, nr: Nameres)
    requires
        resolves(ast, nr),
        fn_ids_valid(ast),
    ensures
        analysis_ready(ast, nr),
{
    let n = ast.fns@.len() as nat;
    assert forall|f: int| 0 <= f < ast.fns@.len() implies
        body_ok((#[trigger] ast.fns@[f]).body@, n, nr.vars@[f].view()) by {
        let xs = body_nodes(ast.fns@[f].body@);
        let m = nr.vars@[f].view();
        assert forall|i: int| 0 <= i < xs.len() implies node_ok(#[trigger] xs[i], n, m) by {
            match xs[i] {
                Node::E(Expr::Var(v)) => {
                    assert(occurs_at(Occurrence::Read, xs[i], v));
                    assert(body_reads(ast.fns@[f].body@, v));
                    assert(m.contains_key(v));
                },
                Node::S(Stmt::Assign(v, _)) => {
                    assert(occurs_at(Occurrence::Assigned, xs[i], v));
                    assert(body_assigns(ast.fns@[f].body@, v));
                    assert(m.contains_key(v));
                },
                _ => {},
            }
        }
        lemma_body_nodes_ok(ast.fns@[f].body@, n, m);
    }
}


/// Whether every function id that `xs` names is below `n`.
pub open spec fn ids_below(xs: Seq<Node>, n: nat) -> bool {
    forall|i: int| 0 <= i < xs.len() ==> (#[trigger] xs[i] matches Node::E(Expr::FnId(g)) ==> g < n)
}

/// A visitor that checks that every function id it is shown is below `n`.
pub struct FnIdCheck {
    pub n: usize,
    pub ok: bool,
}

impl Visitor for FnIdCheck {
    type State = (bool, usize);

    open spec fn state(&self) -> (bool, usize) {
        (self.ok, self.n)
    }

    open spec fn after_expr(st: (bool, usize), e: Expr) -> (bool, usize) {
        (st.0 && (e matches Expr::FnId(g) ==> g < st.1), st.1)
    }

    open spec fn after_stmt(st: (bool, usize), s: Stmt) -> (bool, usize) {
        st
    }

    fn on_expr(&mut self, e: &Expr) {
        if let Expr::FnId(g) = e {
            if *g >= self.n {
                self.ok = false;
            }
        }
    }

    fn on_stmt(&mut self, s: &Stmt) {
    }
}

/// The check keeps its bound and finds exactly whether all ids are below it.
proof fn lemma_fn_id_run(st: (bool, usize), xs: Seq<Node>)
    ensures
        run::<FnIdCheck>(st, xs) == (st.0 && ids_below(xs, st.1 as nat), st.1),
    decreases xs.len(),
{
    if xs.len() > 0 {
        let p = xs.drop_last();
        lemma_fn_id_run(st, p);
        assert(ids_below(xs, st.1 as nat) == (ids_below(p, st.1 as nat)
            && (xs.last() matches Node::E(Expr::FnId(g)) ==> g < st.1))) by {
            if ids_below(p, st.1 as nat) && (xs.last() matches Node::E(Expr::FnId(g)) ==> g < st.1) {
                assert forall|i: int| 0 <= i < xs.len() implies (#[trigger] xs[i] matches Node::E(Expr::FnId(g)) ==> g < st.1) by {
                    if i < p.len() {
                        assert(xs[i] == p[i]);
                    }
                }
            }
            if ids_below(xs, st.1 as nat) {
                assert forall|i: int| 0 <= i < p.len() implies (#[trigger] p[i] matches Node::E(Expr::FnId(g)) ==> g < st.1) by {
                    assert(xs[i] == p[i]);
                }
                assert(xs[xs.len() - 1] == xs.last());
            }
        }
    }
}

/// Whether every function id named in the bodies of `ast` is a function of
/// `ast`, the condition `lemma_nameres_ready` needs besides the name
/// resolution.
pub fn check_fn_ids(ast: &AST) -> (r: bool)
    ensures
        r == fn_ids_valid(*ast),
{
    let n = ast.fns.len();
    let mut f: usize = 0;
    while f < n
        invariant
            f <= n,
            n == ast.fns@.len(),
            forall|g: int| 0 <= g < f ==> ids_below(body_nodes(#[trigger] ast.fns@[g].body@), n as nat),
        decreases n - f,
    {
        let mut c = FnIdCheck { n, ok: true };
        visit_body(&ast.fns[f].body, &mut c);
        proof {
            lemma_fn_id_run((true, n), body_nodes(ast.fns@[f as int].body@));
        }
        if !c.ok {
            proof {
                let xs = body_nodes(ast.fns@[f as int].body@);
                let i = choose|i: int| 0 <= i < xs.len() && !(#[trigger] xs[i] matches Node::E(Expr::FnId(g)) ==> g < n);
                assert(!fn_ids_valid(*ast)) by {
                    assert(0 <= f < ast.fns@.len() && 0 <= i < body_nodes(ast.fns@[f as int].body@).len());
                }
            }
            return false;
        }
        f = f + 1;
    }
    proof {
        assert forall|g: int, i: int| 0 <= g < ast.fns@.len() && 0 <= i < body_nodes(ast.fns@[g].body@).len() implies
            (#[trigger] body_nodes(ast.fns@[g].body@)[i] matches Node::E(Expr::FnId(h)) ==> h < ast.fns@.len()) by {
            assert(ids_below(body_nodes(ast.fns@[g].body@), n as nat));
        }
    }
    true
}

} // verus!
