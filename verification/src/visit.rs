use vstd::prelude::*;
use crate::ast::{Body, Expr, Node, Stmt, body_nodes, expr_nodes, exprs_nodes, stmt_nodes};

verus! {

/// Something that is shown every node of a syntax tree in pre-order.
///
/// `state` is what the visitor has gathered so far; `after_expr` and
/// `after_stmt` say what that becomes once an expression or a statement has
/// been shown, and the executable methods must behave so.
pub trait Visitor: Sized {
    type State;

    spec fn state(&self) -> Self::State;

    spec fn after_expr(st: Self::State, e: Expr) -> Self::State;

    spec fn after_stmt(st: Self::State, s: Stmt) -> Self::State;

    fn on_expr(&mut self, e: &Expr)
        ensures
            final(self).state() == Self::after_expr(old(self).state(), *e),
    ;

    fn on_stmt(&mut self, s: &Stmt)
        ensures
            final(self).state() == Self::after_stmt(old(self).state(), *s),
    ;
}

/// The state of a visitor of type `V` that started in `st` and has been
/// shown `nodes` in order.
pub open spec fn run<V: Visitor>(st: V::State, nodes: Seq<Node>) -> V::State
    decreases nodes.len(),
{
    if nodes.len() == 0 {
        st
    } else {
        let w = run::<V>(st, nodes.drop_last());
        match nodes.last() {
            Node::S(s) => V::after_stmt(w, s),
            Node::E(e) => V::after_expr(w, e),
        }
    }
}

/// Showing `a + b` is showing `a`, then `b`.
pub proof fn lemma_run_append<V: Visitor>(st: V::State, a: Seq<Node>, b: Seq<Node>)
    ensures
        run::<V>(st, a + b) == run::<V>(run::<V>(st, a), b),
    decreases b.len(),
{
    if b.len() == 0 {
        assert(a + b =~= a);
    } else {
        lemma_run_append::<V>(st, a, b.drop_last());
        assert((a + b).drop_last() =~= a + b.drop_last());
    }
}

/// Shows `v` every node of `body`, statement by statement.
pub fn visit_body<V: Visitor>(body: &Body, v: &mut V)
    ensures
        final(v).state() == run::<V>(old(v).state(), body_nodes(body@)),
    decreases body@, 1nat,
{
    let ghost v0 = v.state();
    let mut i: usize = 0;
    while i < body.len()
        invariant
            i <= body.len(),
            v.state() == run::<V>(v0, body_nodes(body@.take(i as int))),
        decreases body.len() - i,
    {
        proof {
            assert(body@.take(i as int + 1).drop_last() =~= body@.take(i as int));
            lemma_run_append::<V>(v0, body_nodes(body@.take(i as int)), stmt_nodes(body@[i as int]));
        }
        visit_stmt(&body[i], v);
        i = i + 1;
    }
    assert(body@.take(body.len() as int) =~= body@);
}

/// Shows `v` the statement, then the nodes below it.
pub fn visit_stmt<V: Visitor>(stmt: &Stmt, v: &mut V)
    ensures
        final(v).state() == run::<V>(old(v).state(), stmt_nodes(*stmt)),
    decreases *stmt, 0nat,
{
    let ghost v0 = v.state();
    v.on_stmt(stmt);
    let ghost v1 = v.state();
    assert(v1 == run::<V>(v0, seq![Node::S(*stmt)])) by {
        reveal_with_fuel(run, 2);
        assert(seq![Node::S(*stmt)].drop_last() =~= Seq::<Node>::empty());
    }
    match stmt {
        Stmt::Global(_) => {
            assert(stmt_nodes(*stmt) =~= seq![Node::S(*stmt)]);
        },
        Stmt::ListStore(a, b, c) | Stmt::DictStore(a, b, c) => {
            visit_expr(a, v);
            visit_expr(b, v);
            visit_expr(c, v);
            proof {
                let h = seq![Node::S(*stmt)];
                lemma_run_append::<V>(v0, h, expr_nodes(*a));
                lemma_run_append::<V>(v0, h + expr_nodes(*a), expr_nodes(*b));
                lemma_run_append::<V>(v0, h + expr_nodes(*a) + expr_nodes(*b), expr_nodes(*c));
                assert(stmt_nodes(*stmt) =~= h + expr_nodes(*a) + expr_nodes(*b) + expr_nodes(*c));
            }
        },
        Stmt::Push(a, b) => {
            visit_expr(a, v);
            visit_expr(b, v);
            proof {
                let h = seq![Node::S(*stmt)];
                lemma_run_append::<V>(v0, h, expr_nodes(*a));
                lemma_run_append::<V>(v0, h + expr_nodes(*a), expr_nodes(*b));
                assert(stmt_nodes(*stmt) =~= h + expr_nodes(*a) + expr_nodes(*b));
            }
        },
        Stmt::Return(e) | Stmt::Assign(_, e) | Stmt::Print(e) => {
            visit_expr(e, v);
            proof {
                let h = seq![Node::S(*stmt)];
                lemma_run_append::<V>(v0, h, expr_nodes(*e));
                assert(stmt_nodes(*stmt) =~= h + expr_nodes(*e));
            }
        },
        Stmt::If(c, t, f) => {
            visit_expr(c, v);
            visit_body(t, v);
            visit_body(f, v);
            proof {
                let h = seq![Node::S(*stmt)];
                lemma_run_append::<V>(v0, h, expr_nodes(*c));
                lemma_run_append::<V>(v0, h + expr_nodes(*c), body_nodes(t@));
                lemma_run_append::<V>(v0, h + expr_nodes(*c) + body_nodes(t@), body_nodes(f@));
                assert(stmt_nodes(*stmt) =~= h + expr_nodes(*c) + body_nodes(t@) + body_nodes(f@));
            }
        },
        Stmt::While(c, b) => {
            visit_expr(c, v);
            visit_body(b, v);
            proof {
                let h = seq![Node::S(*stmt)];
                lemma_run_append::<V>(v0, h, expr_nodes(*c));
                lemma_run_append::<V>(v0, h + expr_nodes(*c), body_nodes(b@));
                assert(stmt_nodes(*stmt) =~= h + expr_nodes(*c) + body_nodes(b@));
            }
        },
    }
}

/// Shows `v` the expression, then the nodes below it.
pub fn visit_expr<V: Visitor>(expr: &Expr, v: &mut V)
    ensures
        final(v).state() == run::<V>(old(v).state(), expr_nodes(*expr)),
    decreases *expr,
{
    let ghost v0 = v.state();
    v.on_expr(expr);
    let ghost h = seq![Node::E(*expr)];
    assert(v.state() == run::<V>(v0, h)) by {
        reveal_with_fuel(run, 2);
        assert(h.drop_last() =~= Seq::<Node>::empty());
    }
    match expr {
        Expr::IndexList(a, b) | Expr::IndexDict(a, b) | Expr::BinOp(_, a, b) => {
            visit_expr(a, v);
            visit_expr(b, v);
            proof {
                lemma_run_append::<V>(v0, h, expr_nodes(**a));
                lemma_run_append::<V>(v0, h + expr_nodes(**a), expr_nodes(**b));
                assert(expr_nodes(*expr) =~= h + expr_nodes(**a) + expr_nodes(**b));
            }
        },
        Expr::Length(a) => {
            visit_expr(a, v);
            proof {
                lemma_run_append::<V>(v0, h, expr_nodes(**a));
                assert(expr_nodes(*expr) =~= h + expr_nodes(**a));
            }
        },
        Expr::FnCall(f, args) => {
            visit_expr(f, v);
            proof {
                lemma_run_append::<V>(v0, h, expr_nodes(**f));
            }
            let ghost pre = h + expr_nodes(**f);
            let mut i: usize = 0;
            while i < args.len()
                invariant
                    i <= args.len(),
                    v.state() == run::<V>(v0, pre + exprs_nodes(args@.take(i as int))),
                    *expr is FnCall,
                    (*expr)->FnCall_1 == *args,
                decreases args.len() - i,
            {
                proof {
                    assert(args@.take(i as int + 1).drop_last() =~= args@.take(i as int));
                    lemma_run_append::<V>(v0, pre + exprs_nodes(args@.take(i as int)), expr_nodes(args@[i as int]));
                    assert(pre + exprs_nodes(args@.take(i as int)) + expr_nodes(args@[i as int])
                        =~= pre + exprs_nodes(args@.take(i as int + 1)));
                }
                proof {
                    assert(decreases_to!(*expr => (*expr)->FnCall_1));
                    assert(decreases_to!((*expr)->FnCall_1 => (*expr)->FnCall_1@));
                    assert(decreases_to!(args@ => args@[i as int]));
                }
                visit_expr(&args[i], v);
                i = i + 1;
            }
            assert(args@.take(args.len() as int) =~= args@);
            assert(expr_nodes(*expr) =~= pre + exprs_nodes(args@));
        },
        _ => {
            assert(expr_nodes(*expr) =~= h);
        },
    }
}

/// Something that is shown every node of a syntax tree in pre-order and may
/// replace it; the nodes below a node are those of its replacement.
///
/// `expr_step` and `stmt_step` say what a node becomes and what the state
/// becomes when it is shown.  A replacement never has more nodes than what
/// it replaces, so that a walk ends.
pub trait MutVisitor: Sized {
    type State;

    spec fn state(&self) -> Self::State;

    spec fn expr_step(st: Self::State, e: Expr) -> (Self::State, Expr);

    spec fn stmt_step(st: Self::State, s: Stmt) -> (Self::State, Stmt);

    proof fn lemma_expr_step(st: Self::State, e: Expr)
        ensures
            expr_nodes(Self::expr_step(st, e).1).len() <= expr_nodes(e).len(),
    ;

    proof fn lemma_stmt_step(st: Self::State, s: Stmt)
        ensures
            stmt_nodes(Self::stmt_step(st, s).1).len() <= stmt_nodes(s).len(),
    ;

    fn on_expr(&mut self, e: &mut Expr)
        ensures
            (final(self).state(), *final(e)) == Self::expr_step(old(self).state(), *old(e)),
    ;

    fn on_stmt(&mut self, s: &mut Stmt)
        ensures
            (final(self).state(), *final(s)) == Self::stmt_step(old(self).state(), *old(s)),
    ;
}

/// The state of a mutating visitor after walking `e` from `st`.
pub open spec fn mwalk_expr_state<V: MutVisitor>(st: V::State, e: Expr) -> V::State
    decreases expr_nodes(e).len(), 1nat,
{
    let (st1, e1) = V::expr_step(st, e);
    proof {
        V::lemma_expr_step(st, e);
    }
    match e1 {
        Expr::IndexList(a, b) => mwalk_expr_state::<V>(mwalk_expr_state::<V>(st1, *a), *b),
        Expr::IndexDict(a, b) => mwalk_expr_state::<V>(mwalk_expr_state::<V>(st1, *a), *b),
        Expr::BinOp(_, a, b) => mwalk_expr_state::<V>(mwalk_expr_state::<V>(st1, *a), *b),
        Expr::Length(a) => mwalk_expr_state::<V>(st1, *a),
        Expr::FnCall(f, args) => mwalk_exprs_state::<V>(mwalk_expr_state::<V>(st1, *f), args@),
        _ => st1,
    }
}

/// The state of a mutating visitor after walking `es` one after the other.
pub open spec fn mwalk_exprs_state<V: MutVisitor>(st: V::State, es: Seq<Expr>) -> V::State
    decreases exprs_nodes(es).len(), 2nat,
{
    if es.len() == 0 {
        st
    } else {
        mwalk_expr_state::<V>(mwalk_exprs_state::<V>(st, es.drop_last()), es.last())
    }
}

/// Whether `r` is what walking `e` from `st` makes of it: the step's
/// replacement, with the nodes below it walked in turn.
pub open spec fn mwalked_expr<V: MutVisitor>(st: V::State, e: Expr, r: Expr) -> bool
    decreases expr_nodes(e).len(), 1nat,
{
    let (st1, e1) = V::expr_step(st, e);
    proof {
        V::lemma_expr_step(st, e);
    }
    match e1 {
        Expr::IndexList(a, b) => r matches Expr::IndexList(a2, b2) && mwalked_expr::<V>(st1, *a, *a2)
            && mwalked_expr::<V>(mwalk_expr_state::<V>(st1, *a), *b, *b2),
        Expr::IndexDict(a, b) => r matches Expr::IndexDict(a2, b2) && mwalked_expr::<V>(st1, *a, *a2)
            && mwalked_expr::<V>(mwalk_expr_state::<V>(st1, *a), *b, *b2),
        Expr::BinOp(k, a, b) => r matches Expr::BinOp(k2, a2, b2) && k2 == k && mwalked_expr::<V>(st1, *a, *a2)
            && mwalked_expr::<V>(mwalk_expr_state::<V>(st1, *a), *b, *b2),
        Expr::Length(a) => r matches Expr::Length(a2) && mwalked_expr::<V>(st1, *a, *a2),
        Expr::FnCall(f, args) => r matches Expr::FnCall(f2, args2) && mwalked_expr::<V>(st1, *f, *f2)
            && mwalked_exprs::<V>(mwalk_expr_state::<V>(st1, *f), args@, args2@),
        _ => r == e1,
    }
}

/// Whether `rs` is what walking `es` one after the other makes of them.
pub open spec fn mwalked_exprs<V: MutVisitor>(st: V::State, es: Seq<Expr>, rs: Seq<Expr>) -> bool
    decreases exprs_nodes(es).len(), 2nat,
{
    if es.len() == 0 {
        rs.len() == 0
    } else {
        proof {
            assert(expr_nodes(es.last()).len() >= 1);
        }
        &&& es.len() == rs.len()
        &&& mwalked_exprs::<V>(st, es.drop_last(), rs.drop_last())
        &&& mwalked_expr::<V>(mwalk_exprs_state::<V>(st, es.drop_last()), es.last(), rs.last())
    }
}

/// The state of a mutating visitor after walking `s` from `st`.
pub open spec fn mwalk_stmt_state<V: MutVisitor>(st: V::State, s: Stmt) -> V::State
    decreases stmt_nodes(s).len(), 1nat,
{
    let (st1, s1) = V::stmt_step(st, s);
    proof {
        V::lemma_stmt_step(st, s);
    }
    match s1 {
        Stmt::Global(_) => st1,
        Stmt::ListStore(a, b, c) => mwalk_expr_state::<V>(mwalk_expr_state::<V>(mwalk_expr_state::<V>(st1, a), b), c),
        Stmt::DictStore(a, b, c) => mwalk_expr_state::<V>(mwalk_expr_state::<V>(mwalk_expr_state::<V>(st1, a), b), c),
        Stmt::Push(a, b) => mwalk_expr_state::<V>(mwalk_expr_state::<V>(st1, a), b),
        Stmt::Return(e) => mwalk_expr_state::<V>(st1, e),
        Stmt::Assign(_, e) => mwalk_expr_state::<V>(st1, e),
        Stmt::Print(e) => mwalk_expr_state::<V>(st1, e),
        Stmt::If(c, t, f) => mwalk_body_state::<V>(mwalk_body_state::<V>(mwalk_expr_state::<V>(st1, c), t@), f@),
        Stmt::While(c, b) => mwalk_body_state::<V>(mwalk_expr_state::<V>(st1, c), b@),
    }
}

/// The state of a mutating visitor after walking the statements `b`.
pub open spec fn mwalk_body_state<V: MutVisitor>(st: V::State, b: Seq<Stmt>) -> V::State
    decreases body_nodes(b).len(), 2nat,
{
    if b.len() == 0 {
        st
    } else {
        proof {
            assert(stmt_nodes(b.last()).len() >= 1);
        }
        mwalk_stmt_state::<V>(mwalk_body_state::<V>(st, b.drop_last()), b.last())
    }
}

/// Whether `r` is what walking `s` from `st` makes of it.
pub open spec fn mwalked_stmt<V: MutVisitor>(st: V::State, s: Stmt, r: Stmt) -> bool
    decreases stmt_nodes(s).len(), 1nat,
{
    let (st1, s1) = V::stmt_step(st, s);
    proof {
        V::lemma_stmt_step(st, s);
    }
    match s1 {
        Stmt::Global(_) => r == s1,
        Stmt::ListStore(a, b, c) => r matches Stmt::ListStore(a2, b2, c2) && mwalked_expr::<V>(st1, a, a2)
            && mwalked_expr::<V>(mwalk_expr_state::<V>(st1, a), b, b2)
            && mwalked_expr::<V>(mwalk_expr_state::<V>(mwalk_expr_state::<V>(st1, a), b), c, c2),
        Stmt::DictStore(a, b, c) => r matches Stmt::DictStore(a2, b2, c2) && mwalked_expr::<V>(st1, a, a2)
            && mwalked_expr::<V>(mwalk_expr_state::<V>(st1, a), b, b2)
            && mwalked_expr::<V>(mwalk_expr_state::<V>(mwalk_expr_state::<V>(st1, a), b), c, c2),
        Stmt::Push(a, b) => r matches Stmt::Push(a2, b2) && mwalked_expr::<V>(st1, a, a2)
            && mwalked_expr::<V>(mwalk_expr_state::<V>(st1, a), b, b2),
        Stmt::Return(e) => r matches Stmt::Return(e2) && mwalked_expr::<V>(st1, e, e2),
        Stmt::Assign(x, e) => r matches Stmt::Assign(x2, e2) && x2 == x && mwalked_expr::<V>(st1, e, e2),
        Stmt::Print(e) => r matches Stmt::Print(e2) && mwalked_expr::<V>(st1, e, e2),
        Stmt::If(c, t, f) => r matches Stmt::If(c2, t2, f2) && mwalked_expr::<V>(st1, c, c2)
            && mwalked_body::<V>(mwalk_expr_state::<V>(st1, c), t@, t2@)
            && mwalked_body::<V>(mwalk_body_state::<V>(mwalk_expr_state::<V>(st1, c), t@), f@, f2@),
        Stmt::While(c, b) => r matches Stmt::While(c2, b2) && mwalked_expr::<V>(st1, c, c2)
            && mwalked_body::<V>(mwalk_expr_state::<V>(st1, c), b@, b2@),
    }
}

/// Whether `rs` is what walking the statements `b` makes of them.
pub open spec fn mwalked_body<V: MutVisitor>(st: V::State, b: Seq<Stmt>, rs: Seq<Stmt>) -> bool
    decreases body_nodes(b).len(), 2nat,
{
    if b.len() == 0 {
        rs.len() == 0
    } else {
        proof {
            assert(stmt_nodes(b.last()).len() >= 1);
        }
        &&& b.len() == rs.len()
        &&& mwalked_body::<V>(st, b.drop_last(), rs.drop_last())
        &&& mwalked_stmt::<V>(mwalk_body_state::<V>(st, b.drop_last()), b.last(), rs.last())
    }
}

/// An expression of a list has at most as many nodes as the list.
pub proof fn lemma_exprs_nodes_elem(es: Seq<Expr>, i: int)
    requires
        0 <= i < es.len(),
    ensures
        expr_nodes(es[i]).len() <= exprs_nodes(es).len(),
    decreases es.len(),
{
    if i < es.len() - 1 {
        lemma_exprs_nodes_elem(es.drop_last(), i);
        assert(es.drop_last()[i] == es[i]);
    }
}

/// Shows `v` the expression, which it may replace, then the nodes below
/// the replacement.
pub fn visit_expr_mut<V: MutVisitor>(expr: &mut Expr, v: &mut V)
    ensures
        final(v).state() == mwalk_expr_state::<V>(old(v).state(), *old(expr)),
        mwalked_expr::<V>(old(v).state(), *old(expr), *final(expr)),
    decreases expr_nodes(*old(expr)).len(), 1nat,
{
    let ghost st0 = v.state();
    let ghost e0 = *expr;
    v.on_expr(expr);
    proof {
        V::lemma_expr_step(st0, e0);
    }
    let ghost st1 = v.state();
    let ghost e1 = *expr;
    match expr {
        Expr::IndexList(a, b) => {
            visit_expr_mut(a, v);
            visit_expr_mut(b, v);
        },
        Expr::IndexDict(a, b) => {
            visit_expr_mut(a, v);
            visit_expr_mut(b, v);
        },
        Expr::BinOp(_, a, b) => {
            visit_expr_mut(a, v);
            visit_expr_mut(b, v);
        },
        Expr::Length(a) => {
            visit_expr_mut(a, v);
        },
        Expr::FnCall(f, args) => {
            let ghost args0 = *args;
            proof {
                assert(exprs_nodes(args0@).len() < expr_nodes(e1).len());
            }
            visit_expr_mut(f, v);
            let ghost st2 = v.state();
            let mut i: usize = 0;
            while i < args.len()
                invariant
                    i <= args@.len(),
                    args@.len() == args0@.len(),
                    exprs_nodes(args0@).len() < expr_nodes(e0).len(),
                    e0 == *old(expr),
                    forall|j: int| i <= j < args@.len() ==> args@[j] == args0@[j],
                    mwalked_exprs::<V>(st2, args0@.take(i as int), args@.take(i as int)),
                    v.state() == mwalk_exprs_state::<V>(st2, args0@.take(i as int)),
                decreases args.len() - i,
            {
                assert(args0@.take(i + 1).drop_last() =~= args0@.take(i as int));
                proof {
                    lemma_exprs_nodes_elem(args0@, i as int);
                }
                let ghost pre = args@;
                visit_expr_mut(&mut args[i], v);
                assert(args@.take(i + 1).drop_last() =~= pre.take(i as int));
                i = i + 1;
            }
            assert(args0@.take(args0@.len() as int) =~= args0@);
            assert(args@.take(args@.len() as int) =~= args@);
        },
        _ => {},
    }
}

/// A statement of a list has at most as many nodes as the list.
pub proof fn lemma_body_nodes_elem(b: Seq<Stmt>, i: int)
    requires
        0 <= i < b.len(),
    ensures
        stmt_nodes(b[i]).len() <= body_nodes(b).len(),
    decreases b.len(),
{
    if i < b.len() - 1 {
        lemma_body_nodes_elem(b.drop_last(), i);
        assert(b.drop_last()[i] == b[i]);
    }
}

/// Shows `v` each statement of `body` in turn, with the nodes below it.
pub fn visit_body_mut<V: MutVisitor>(body: &mut Body, v: &mut V)
    ensures
        final(v).state() == mwalk_body_state::<V>(old(v).state(), old(body)@),
        mwalked_body::<V>(old(v).state(), old(body)@, final(body)@),
    decreases body_nodes(old(body)@).len(), 2nat,
{
    let ghost st0 = v.state();
    let ghost b0 = *body;
    let mut i: usize = 0;
    while i < body.len()
        invariant
            i <= body@.len(),
            body@.len() == b0@.len(),
            b0 == *old(body),
            forall|j: int| i <= j < body@.len() ==> body@[j] == b0@[j],
            mwalked_body::<V>(st0, b0@.take(i as int), body@.take(i as int)),
            v.state() == mwalk_body_state::<V>(st0, b0@.take(i as int)),
            st0 == old(v).state(),
        decreases body.len() - i,
    {
        assert(b0@.take(i + 1).drop_last() =~= b0@.take(i as int));
        proof {
            lemma_body_nodes_elem(b0@, i as int);
        }
        let ghost pre = body@;
        visit_stmt_mut(&mut body[i], v);
        assert(body@.take(i + 1).drop_last() =~= pre.take(i as int));
        i = i + 1;
    }
    assert(b0@.take(b0@.len() as int) =~= b0@);
    assert(body@.take(body@.len() as int) =~= body@);
}

/// Shows `v` the statement, which it may replace, then the nodes below the
/// replacement.
pub fn visit_stmt_mut<V: MutVisitor>(stmt: &mut Stmt, v: &mut V)
    ensures
        final(v).state() == mwalk_stmt_state::<V>(old(v).state(), *old(stmt)),
        mwalked_stmt::<V>(old(v).state(), *old(stmt), *final(stmt)),
    decreases stmt_nodes(*old(stmt)).len(), 1nat,
{
    let ghost st0 = v.state();
    let ghost s0 = *stmt;
    v.on_stmt(stmt);
    proof {
        V::lemma_stmt_step(st0, s0);
    }
    match stmt {
        Stmt::Global(_) => {},
        Stmt::ListStore(l, i, x) => {
            visit_expr_mut(l, v);
            visit_expr_mut(i, v);
            visit_expr_mut(x, v);
        },
        Stmt::DictStore(t, k, x) => {
            visit_expr_mut(t, v);
            visit_expr_mut(k, v);
            visit_expr_mut(x, v);
        },
        Stmt::Push(l, x) => {
            visit_expr_mut(l, v);
            visit_expr_mut(x, v);
        },
        Stmt::Return(e) => {
            visit_expr_mut(e, v);
        },
        Stmt::Assign(_, e) => {
            visit_expr_mut(e, v);
        },
        Stmt::If(c, then_, else_) => {
            visit_expr_mut(c, v);
            visit_body_mut(then_, v);
            visit_body_mut(else_, v);
        },
        Stmt::While(c, b) => {
            visit_expr_mut(c, v);
            visit_body_mut(b, v);
        },
        Stmt::Print(e) => {
            visit_expr_mut(e, v);
        },
    }
}


/// The state of a mutating visitor of type `V` that started in `st` and has
/// been shown `nodes` in order, counting only what its steps do to the state.
pub open spec fn mrun<V: MutVisitor>(st: V::State, nodes: Seq<Node>) -> V::State
    decreases nodes.len(),
{
    if nodes.len() == 0 {
        st
    } else {
        let w = mrun::<V>(st, nodes.drop_last());
        match nodes.last() {
            Node::S(s) => V::stmt_step(w, s).0,
            Node::E(e) => V::expr_step(w, e).0,
        }
    }
}

/// Showing `a + b` is showing `a`, then `b`.
pub proof fn lemma_mrun_append<V: MutVisitor>(st: V::State, a: Seq<Node>, b: Seq<Node>)
    ensures
        mrun::<V>(st, a + b) == mrun::<V>(mrun::<V>(st, a), b),
    decreases b.len(),
{
    if b.len() == 0 {
        assert(a + b =~= a);
    } else {
        lemma_mrun_append::<V>(st, a, b.drop_last());
        assert((a + b).drop_last() =~= a + b.drop_last());
    }
}

/// Whether the steps of `V` keep every node they are shown.
pub open spec fn keeps<V: MutVisitor>() -> bool {
    &&& forall|st: V::State, e: Expr| #[trigger] V::expr_step(st, e).1 == e
    &&& forall|st: V::State, s: Stmt| #[trigger] V::stmt_step(st, s).1 == s
}

/// Whether `b` is the expression `a`, node for node.
pub open spec fn same_expr(a: Expr, b: Expr) -> bool
    decreases a,
{
    match a {
        Expr::IndexList(x, y) => b matches Expr::IndexList(x2, y2) && same_expr(*x, *x2) && same_expr(*y, *y2),
        Expr::IndexDict(x, y) => b matches Expr::IndexDict(x2, y2) && same_expr(*x, *x2) && same_expr(*y, *y2),
        Expr::BinOp(k, x, y) => b matches Expr::BinOp(k2, x2, y2) && k2 == k && same_expr(*x, *x2) && same_expr(*y, *y2),
        Expr::Length(x) => b matches Expr::Length(x2) && same_expr(*x, *x2),
        Expr::FnCall(f, args) => b matches Expr::FnCall(f2, args2) && same_expr(*f, *f2) && same_exprs(args@, args2@),
        _ => b == a,
    }
}

/// Whether `b` are the expressions `a`, node for node.
pub open spec fn same_exprs(a: Seq<Expr>, b: Seq<Expr>) -> bool
    decreases a,
{
    if a.len() == 0 {
        b.len() == 0
    } else {
        &&& a.len() == b.len()
        &&& same_exprs(a.drop_last(), b.drop_last())
        &&& same_expr(a.last(), b.last())
    }
}

/// Whether `b` is the statement `a`, node for node.
pub open spec fn same_stmt(a: Stmt, b: Stmt) -> bool
    decreases a,
{
    match a {
        Stmt::Global(_) => b == a,
        Stmt::ListStore(x, y, z) => b matches Stmt::ListStore(x2, y2, z2) && same_expr(x, x2) && same_expr(y, y2) && same_expr(z, z2),
        Stmt::DictStore(x, y, z) => b matches Stmt::DictStore(x2, y2, z2) && same_expr(x, x2) && same_expr(y, y2) && same_expr(z, z2),
        Stmt::Push(x, y) => b matches Stmt::Push(x2, y2) && same_expr(x, x2) && same_expr(y, y2),
        Stmt::Return(e) => b matches Stmt::Return(e2) && same_expr(e, e2),
        Stmt::Assign(v, e) => b matches Stmt::Assign(v2, e2) && v2 == v && same_expr(e, e2),
        Stmt::Print(e) => b matches Stmt::Print(e2) && same_expr(e, e2),
        Stmt::If(c, t, f) => b matches Stmt::If(c2, t2, f2) && same_expr(c, c2) && same_body(t@, t2@) && same_body(f@, f2@),
        Stmt::While(c, w) => b matches Stmt::While(c2, w2) && same_expr(c, c2) && same_body(w@, w2@),
    }
}

/// Whether `b` are the statements `a`, node for node.
pub open spec fn same_body(a: Seq<Stmt>, b: Seq<Stmt>) -> bool
    decreases a,
{
    if a.len() == 0 {
        b.len() == 0
    } else {
        &&& a.len() == b.len()
        &&& same_body(a.drop_last(), b.drop_last())
        &&& same_stmt(a.last(), b.last())
    }
}

proof fn lemma_keep_expr<V: MutVisitor>(st: V::State, e: Expr, r: Expr)
    requires
        keeps::<V>(),
    ensures
        mwalk_expr_state::<V>(st, e) == mrun::<V>(st, expr_nodes(e)),
        mwalked_expr::<V>(st, e, r) ==> same_expr(e, r),
    decreases e,
{
    let st1 = V::expr_step(st, e).0;
    assert(V::expr_step(st, e).1 == e);
    let h = seq![Node::E(e)];
    assert(mrun::<V>(st, h) == st1) by {
        reveal_with_fuel(mrun, 2);
        assert(h.drop_last() =~= Seq::<Node>::empty());
    }
    match e {
        Expr::IndexList(a, b) | Expr::IndexDict(a, b) | Expr::BinOp(_, a, b) => {
            assert(expr_nodes(e) == h + expr_nodes(*a) + expr_nodes(*b));
            lemma_mrun_append::<V>(st, h + expr_nodes(*a), expr_nodes(*b));
            lemma_mrun_append::<V>(st, h, expr_nodes(*a));
            lemma_keep_expr::<V>(st1, *a, arbitrary());
            let st2 = mwalk_expr_state::<V>(st1, *a);
            lemma_keep_expr::<V>(st2, *b, arbitrary());
            match r {
                Expr::IndexList(a2, b2) | Expr::IndexDict(a2, b2) | Expr::BinOp(_, a2, b2) => {
                    lemma_keep_expr::<V>(st1, *a, *a2);
                    lemma_keep_expr::<V>(st2, *b, *b2);
                },
                _ => {},
            }
        },
        Expr::Length(a) => {
            assert(expr_nodes(e) == h + expr_nodes(*a));
            lemma_mrun_append::<V>(st, h, expr_nodes(*a));
            lemma_keep_expr::<V>(st1, *a, arbitrary());
            match r {
                Expr::Length(a2) => {
                    lemma_keep_expr::<V>(st1, *a, *a2);
                },
                _ => {},
            }
        },
        Expr::FnCall(f, args) => {
            assert(expr_nodes(e) == h + expr_nodes(*f) + exprs_nodes(args@));
            lemma_mrun_append::<V>(st, h + expr_nodes(*f), exprs_nodes(args@));
            lemma_mrun_append::<V>(st, h, expr_nodes(*f));
            lemma_keep_expr::<V>(st1, *f, arbitrary());
            let st2 = mwalk_expr_state::<V>(st1, *f);
            lemma_keep_exprs::<V>(st2, args@, arbitrary());
            match r {
                Expr::FnCall(f2, args2) => {
                    lemma_keep_expr::<V>(st1, *f, *f2);
                    lemma_keep_exprs::<V>(st2, args@, args2@);
                },
                _ => {},
            }
        },
        _ => {
            assert(expr_nodes(e) =~= h);
        },
    }
}

proof fn lemma_keep_exprs<V: MutVisitor>(st: V::State, es: Seq<Expr>, rs: Seq<Expr>)
    requires
        keeps::<V>(),
    ensures
        mwalk_exprs_state::<V>(st, es) == mrun::<V>(st, exprs_nodes(es)),
        mwalked_exprs::<V>(st, es, rs) ==> same_exprs(es, rs),
    decreases es,
{
    if es.len() > 0 {
        lemma_keep_exprs::<V>(st, es.drop_last(), rs.drop_last());
        let st2 = mwalk_exprs_state::<V>(st, es.drop_last());
        lemma_keep_expr::<V>(st2, es.last(), rs.last());
        lemma_mrun_append::<V>(st, exprs_nodes(es.drop_last()), expr_nodes(es.last()));
    }
}

proof fn lemma_keep_stmt<V: MutVisitor>(st: V::State, s: Stmt, r: Stmt)
    requires
        keeps::<V>(),
    ensures
        mwalk_stmt_state::<V>(st, s) == mrun::<V>(st, stmt_nodes(s)),
        mwalked_stmt::<V>(st, s, r) ==> same_stmt(s, r),
    decreases s,
{
    let st1 = V::stmt_step(st, s).0;
    assert(V::stmt_step(st, s).1 == s);
    let h = seq![Node::S(s)];
    assert(mrun::<V>(st, h) == st1) by {
        reveal_with_fuel(mrun, 2);
        assert(h.drop_last() =~= Seq::<Node>::empty());
    }
    match s {
        Stmt::Global(_) => {
            assert(stmt_nodes(s) =~= h);
        },
        Stmt::ListStore(a, b, c) | Stmt::DictStore(a, b, c) => {
            assert(stmt_nodes(s) == h + expr_nodes(a) + expr_nodes(b) + expr_nodes(c));
            lemma_mrun_append::<V>(st, h + expr_nodes(a) + expr_nodes(b), expr_nodes(c));
            lemma_mrun_append::<V>(st, h + expr_nodes(a), expr_nodes(b));
            lemma_mrun_append::<V>(st, h, expr_nodes(a));
            let st2 = mwalk_expr_state::<V>(st1, a);
            let st3 = mwalk_expr_state::<V>(st2, b);
            lemma_keep_expr::<V>(st1, a, arbitrary());
            lemma_keep_expr::<V>(st2, b, arbitrary());
            lemma_keep_expr::<V>(st3, c, arbitrary());
            match r {
                Stmt::ListStore(a2, b2, c2) | Stmt::DictStore(a2, b2, c2) => {
                    lemma_keep_expr::<V>(st1, a, a2);
                    lemma_keep_expr::<V>(st2, b, b2);
                    lemma_keep_expr::<V>(st3, c, c2);
                },
                _ => {},
            }
        },
        Stmt::Push(a, b) => {
            assert(stmt_nodes(s) == h + expr_nodes(a) + expr_nodes(b));
            lemma_mrun_append::<V>(st, h + expr_nodes(a), expr_nodes(b));
            lemma_mrun_append::<V>(st, h, expr_nodes(a));
            let st2 = mwalk_expr_state::<V>(st1, a);
            lemma_keep_expr::<V>(st1, a, arbitrary());
            lemma_keep_expr::<V>(st2, b, arbitrary());
            match r {
                Stmt::Push(a2, b2) => {
                    lemma_keep_expr::<V>(st1, a, a2);
                    lemma_keep_expr::<V>(st2, b, b2);
                },
                _ => {},
            }
        },
        Stmt::Return(e) | Stmt::Assign(_, e) | Stmt::Print(e) => {
            assert(stmt_nodes(s) == h + expr_nodes(e));
            lemma_mrun_append::<V>(st, h, expr_nodes(e));
            lemma_keep_expr::<V>(st1, e, arbitrary());
            match r {
                Stmt::Return(e2) | Stmt::Assign(_, e2) | Stmt::Print(e2) => {
                    lemma_keep_expr::<V>(st1, e, e2);
                },
                _ => {},
            }
        },
        Stmt::If(c, t, f) => {
            assert(stmt_nodes(s) == h + expr_nodes(c) + body_nodes(t@) + body_nodes(f@));
            lemma_mrun_append::<V>(st, h + expr_nodes(c) + body_nodes(t@), body_nodes(f@));
            lemma_mrun_append::<V>(st, h + expr_nodes(c), body_nodes(t@));
            lemma_mrun_append::<V>(st, h, expr_nodes(c));
            let st2 = mwalk_expr_state::<V>(st1, c);
            let st3 = mwalk_body_state::<V>(st2, t@);
            lemma_keep_expr::<V>(st1, c, arbitrary());
            lemma_keep_body::<V>(st2, t@, arbitrary());
            lemma_keep_body::<V>(st3, f@, arbitrary());
            match r {
                Stmt::If(c2, t2, f2) => {
                    lemma_keep_expr::<V>(st1, c, c2);
                    lemma_keep_body::<V>(st2, t@, t2@);
                    lemma_keep_body::<V>(st3, f@, f2@);
                },
                _ => {},
            }
        },
        Stmt::While(c, b) => {
            assert(stmt_nodes(s) == h + expr_nodes(c) + body_nodes(b@));
            lemma_mrun_append::<V>(st, h + expr_nodes(c), body_nodes(b@));
            lemma_mrun_append::<V>(st, h, expr_nodes(c));
            let st2 = mwalk_expr_state::<V>(st1, c);
            lemma_keep_expr::<V>(st1, c, arbitrary());
            lemma_keep_body::<V>(st2, b@, arbitrary());
            match r {
                Stmt::While(c2, b2) => {
                    lemma_keep_expr::<V>(st1, c, c2);
                    lemma_keep_body::<V>(st2, b@, b2@);
                },
                _ => {},
            }
        },
    }
}

proof fn lemma_keep_body<V: MutVisitor>(st: V::State, b: Seq<Stmt>, rs: Seq<Stmt>)
    requires
        keeps::<V>(),
    ensures
        mwalk_body_state::<V>(st, b) == mrun::<V>(st, body_nodes(b)),
        mwalked_body::<V>(st, b, rs) ==> same_body(b, rs),
    decreases b,
{
    if b.len() > 0 {
        lemma_keep_body::<V>(st, b.drop_last(), rs.drop_last());
        let st2 = mwalk_body_state::<V>(st, b.drop_last());
        lemma_keep_stmt::<V>(st2, b.last(), rs.last());
        lemma_mrun_append::<V>(st, body_nodes(b.drop_last()), stmt_nodes(b.last()));
    }
}

/// A mutating walk whose steps keep every node they are shown is the plain
/// walk: its state goes through the nodes of the body in the order
/// `visit_body` shows them, and the body it leaves is the body it was given,
/// node for node.
pub proof fn lemma_walk_keeping<V: MutVisitor>(st: V::State, b: Seq<Stmt>, r: Seq<Stmt>)
    requires
        keeps::<V>(),
        mwalked_body::<V>(st, b, r),
    ensures
        mwalk_body_state::<V>(st, b) == mrun::<V>(st, body_nodes(b)),
        same_body(b, r),
{
    lemma_keep_body::<V>(st, b, r);
}

} // verus!
