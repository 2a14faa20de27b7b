use vstd::prelude::*;
use crate::ast::{Body, Expr, FnDef, Node, Stmt, body_nodes};
use crate::symbol::Symbol;
use crate::visit::{Visitor, run, visit_body};
use crate::seqs::{lemma_push_contains, lemma_take_one_more};

verus! {

/// Which occurrences of a variable a collector gathers.
#[derive(Clone, Copy, PartialEq, Eq, Structural)]
pub enum Occurrence {
    /// `Expr::Var(v)`: the variable is read.
    Read,
    /// `Stmt::Assign(v, _)`: the variable is assigned.
    Assigned,
    /// `Stmt::Global(v)`: the variable is declared global.
    DeclaredGlobal,
}

/// Whether `n` is an occurrence of `v` of kind `k`.
pub open spec fn occurs_at(k: Occurrence, n: Node, v: Symbol) -> bool {
    match k {
        Occurrence::Read => n matches Node::E(Expr::Var(x)) && x == v,
        Occurrence::Assigned => n matches Node::S(Stmt::Assign(x, _)) && x == v,
        Occurrence::DeclaredGlobal => n matches Node::S(Stmt::Global(x)) && x == v,
    }
}

/// Whether some node of `nodes` is an occurrence of `v` of kind `k`.
pub open spec fn occurs(k: Occurrence, nodes: Seq<Node>, v: Symbol) -> bool {
    exists|i: int| 0 <= i < nodes.len() && #[trigger] occurs_at(k, nodes[i], v)
}

/// Whether the statements `body` read `v`.
pub open spec fn body_reads(body: Seq<Stmt>, v: Symbol) -> bool {
    occurs(Occurrence::Read, body_nodes(body), v)
}

/// Whether the statements `body` assign `v`.
pub open spec fn body_assigns(body: Seq<Stmt>, v: Symbol) -> bool {
    occurs(Occurrence::Assigned, body_nodes(body), v)
}

/// Whether the statements `body` declare `v` global.
pub open spec fn body_declares_global(body: Seq<Stmt>, v: Symbol) -> bool {
    occurs(Occurrence::DeclaredGlobal, body_nodes(body), v)
}

/// Appends `x` to `v` unless it is already there.
pub fn push_unique(v: &mut Vec<Symbol>, x: Symbol)
    ensures
        final(v)@ == (if old(v)@.contains(x) { old(v)@ } else { old(v)@.push(x) }),
        forall|w: Symbol| #[trigger] final(v)@.contains(w) <==> (old(v)@.contains(w) || w == x),
        old(v)@.no_duplicates() ==> final(v)@.no_duplicates(),
{
    proof {
        lemma_push_contains(v@, x);
    }
    let mut i: usize = 0;
    while i < v.len()
        invariant
            i <= v.len(),
            forall|j: int| 0 <= j < i ==> v@[j] != x,
        decreases v.len() - i,
    {
        if v[i] == x {
            assert(v@.contains(x));
            return;
        }
        i = i + 1;
    }
    v.push(x);
}

/// Gathers, without repetition, the variables that occur in a given way.
pub struct Collector {
    pub kind: Occurrence,
    pub found: Vec<Symbol>,
}

/// What a collector of occurrences of kind `k` holds after it has seen `n`.
pub open spec fn collect_step(k: Occurrence, found: Seq<Symbol>, n: Node) -> Seq<Symbol> {
    let hit = match (k, n) {
        (Occurrence::Read, Node::E(Expr::Var(x))) => Some(x),
        (Occurrence::Assigned, Node::S(Stmt::Assign(x, _))) => Some(x),
        (Occurrence::DeclaredGlobal, Node::S(Stmt::Global(x))) => Some(x),
        _ => None,
    };
    match hit {
        Some(x) => if found.contains(x) { found } else { found.push(x) },
        None => found,
    }
}

impl Visitor for Collector {
    type State = (Occurrence, Seq<Symbol>);

    open spec fn state(&self) -> (Occurrence, Seq<Symbol>) {
        (self.kind, self.found@)
    }

    open spec fn after_expr(st: (Occurrence, Seq<Symbol>), e: Expr) -> (Occurrence, Seq<Symbol>) {
        (st.0, collect_step(st.0, st.1, Node::E(e)))
    }

    open spec fn after_stmt(st: (Occurrence, Seq<Symbol>), s: Stmt) -> (Occurrence, Seq<Symbol>) {
        (st.0, collect_step(st.0, st.1, Node::S(s)))
    }

    fn on_expr(&mut self, e: &Expr) {
        if let Occurrence::Read = self.kind {
            if let Expr::Var(x) = e {
                push_unique(&mut self.found, *x);
            }
        }
    }

    fn on_stmt(&mut self, s: &Stmt) {
        match (self.kind, s) {
            (Occurrence::Assigned, Stmt::Assign(x, _)) => push_unique(&mut self.found, *x),
            (Occurrence::DeclaredGlobal, Stmt::Global(x)) => push_unique(&mut self.found, *x),
            _ => {},
        }
    }
}

/// One step of a collector adds at most the variable that occurs at `n`.
pub proof fn lemma_collect_step(k: Occurrence, found: Seq<Symbol>, n: Node)
    requires
        found.no_duplicates(),
    ensures
        collect_step(k, found, n).no_duplicates(),
        forall|v: Symbol|
            #[trigger] collect_step(k, found, n).contains(v) <==> (found.contains(v) || occurs_at(k, n, v)),
{
    let hit = match (k, n) {
        (Occurrence::Read, Node::E(Expr::Var(x))) => Some(x),
        (Occurrence::Assigned, Node::S(Stmt::Assign(x, _))) => Some(x),
        (Occurrence::DeclaredGlobal, Node::S(Stmt::Global(x))) => Some(x),
        _ => None,
    };
    if let Some(x) = hit {
        lemma_push_contains(found, x);
    }
}

/// A collector ends up holding what it started with and every variable that
/// occurs in `nodes` in its way, each once.
pub proof fn lemma_collect(k: Occurrence, found: Seq<Symbol>, nodes: Seq<Node>)
    requires
        found.no_duplicates(),
    ensures
        run::<Collector>((k, found), nodes).0 == k,
        run::<Collector>((k, found), nodes).1.no_duplicates(),
        forall|v: Symbol|
            #[trigger] run::<Collector>((k, found), nodes).1.contains(v) <==> (found.contains(v)
                || occurs(k, nodes, v)),
    decreases nodes.len(),
{
    if nodes.len() > 0 {
        let pre = nodes.drop_last();
        lemma_collect(k, found, pre);
        let mid = run::<Collector>((k, found), pre).1;
        let n = nodes.last();
        lemma_collect_step(k, mid, n);
        assert(run::<Collector>((k, found), nodes).1 == collect_step(k, mid, n));
        assert forall|v: Symbol|
            #[trigger] run::<Collector>((k, found), nodes).1.contains(v) <==> (found.contains(v)
                || occurs(k, nodes, v)) by {
            if occurs(k, nodes, v) {
                let i = choose|i: int| 0 <= i < nodes.len() && #[trigger] occurs_at(k, nodes[i], v);
                if i < nodes.len() - 1 {
                    assert(pre[i] == nodes[i]);
                    assert(occurs(k, pre, v));
                }
            }
            if occurs(k, pre, v) {
                let i = choose|i: int| 0 <= i < pre.len() && #[trigger] occurs_at(k, pre[i], v);
                assert(nodes[i] == pre[i]);
            }
            if occurs_at(k, n, v) {
                assert(occurs_at(k, nodes[nodes.len() - 1], v));
            }
        }
    }
}

/// The variables of a function: its arguments, the variables its body
/// reads and those it assigns, each once.
pub fn get_vars(f: &FnDef) -> (r: Vec<Symbol>)
    ensures
        r@.no_duplicates(),
        forall|v: Symbol|
            #[trigger] r@.contains(v) <==> (f.args@.contains(v) || body_reads(f.body@, v)
                || body_assigns(f.body@, v)),
{
    let mut set1 = Collector { kind: Occurrence::Read, found: Vec::new() };
    let mut i: usize = 0;
    while i < f.args.len()
        invariant
            i <= f.args.len(),
            set1.kind == Occurrence::Read,
            set1.found@.no_duplicates(),
            forall|v: Symbol| #[trigger] set1.found@.contains(v) <==> f.args@.take(i as int).contains(v),
        decreases f.args.len() - i,
    {
        proof {
            lemma_take_one_more(f.args@, i as int);
        }
        push_unique(&mut set1.found, f.args[i]);
        i = i + 1;
    }
    assert(f.args@.take(f.args.len() as int) =~= f.args@);
    let ghost s1 = set1.found@;
    visit_body(&f.body, &mut set1);
    proof {
        lemma_collect(Occurrence::Read, s1, body_nodes(f.body@));
    }
    let mut set2 = Collector { kind: Occurrence::Assigned, found: Vec::new() };
    visit_body(&f.body, &mut set2);
    proof {
        lemma_collect(Occurrence::Assigned, Seq::empty(), body_nodes(f.body@));
    }
    let mut out = set1.found;
    let mut j: usize = 0;
    while j < set2.found.len()
        invariant
            j <= set2.found.len(),
            out@.no_duplicates(),
            forall|v: Symbol| #[trigger] out@.contains(v) <==> (set1.found@.contains(v) || set2.found@.take(j as int).contains(v)),
        decreases set2.found.len() - j,
    {
        proof {
            lemma_take_one_more(set2.found@, j as int);
        }
        push_unique(&mut out, set2.found[j]);
        j = j + 1;
    }
    assert(set2.found@.take(set2.found.len() as int) =~= set2.found@);
    out
}

} // verus!
