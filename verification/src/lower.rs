use vstd::prelude::*;
use crate::assoc::{AssocMap, insert_entry, keys_unique};
use crate::ast;
use crate::ast::BinOpKind;
use crate::fresh::{fresh, next_id};
use crate::ir::{AppliedBlk, BlkDef, BlkId, Expr, FnDef, FnId, IR, Stmt, Terminator, Ty, ValueId};
use crate::layout::first_pos;
use crate::symbol::Symbol;
use crate::interp::{Val, binop_spec};

verus! {

/// A terminator, with the values handed on as sequences.
pub enum TermV {
    Exit,
    Return(ValueId),
    Goto(BlkId, Seq<ValueId>),
    IfGoto(ValueId, BlkId, Seq<ValueId>, BlkId, Seq<ValueId>),
}

pub open spec fn term_view(t: Terminator) -> TermV {
    match t {
        Terminator::Exit => TermV::Exit,
        Terminator::Return(v) => TermV::Return(v),
        Terminator::Goto(x) => TermV::Goto(x.0, x.1@),
        Terminator::IfGoto(c, x, y) => TermV::IfGoto(c, x.0, x.1@, y.0, y.1@),
    }
}

/// A block, with its lists as sequences.
pub struct BlkV {
    pub stmts: Seq<Stmt>,
    pub term: TermV,
    pub args: Seq<ValueId>,
    pub types: Seq<(ValueId, Ty)>,
}

pub open spec fn blk_view(b: BlkDef) -> BlkV {
    BlkV { stmts: b.stmts@, term: term_view(b.terminator), args: b.args@, types: b.types.entries@ }
}

/// The blocks of a function, in order.
pub open spec fn blks_view(bs: Seq<(BlkId, BlkDef)>) -> Seq<(BlkId, BlkV)> {
    bs.map_values(|p: (BlkId, BlkDef)| (p.0, blk_view(p.1)))
}

/// The state of lowering one function.
pub struct CtxV {
    /// The variables of the function, each with a position.
    pub vars: Seq<Symbol>,
    /// The blocks made so far.
    pub blocks: Seq<(BlkId, BlkV)>,
    /// For each block made by `fresh_blk`: the value each variable holds
    /// at its current end.
    pub blockvars: Map<BlkId, Seq<ValueId>>,
    /// The block that code is added to.
    pub current: BlkId,
    /// The next id to hand out.
    pub next: usize,
}

/// The context that governs lowering a particular function.
struct FnCtxt {
    vars: Vec<Symbol>,
    blocks: AssocMap<BlkId, BlkDef>,
    blockvars: AssocMap<BlkId, Vec<ValueId>>,
    current: BlkId,
    next: usize,
}

impl FnCtxt {
    spec fn view(&self) -> CtxV {
        CtxV {
            vars: self.vars@,
            blocks: blks_view(self.blocks.entries@),
            blockvars: self.blockvars.view().map_values(|v: Vec<ValueId>| v@),
            current: self.current,
            next: self.next,
        }
    }

    spec fn wf(&self) -> bool {
        &&& self.blocks.wf()
        &&& self.blockvars.wf()
        &&& forall|i: int| 0 <= i < self.blocks.entries@.len() ==> (#[trigger] self.blocks.entries@[i]).1.types.wf()
    }
}

/// Whether `bs` has a block `id`.
pub open spec fn has_blk(bs: Seq<(BlkId, BlkV)>, id: BlkId) -> bool {
    exists|i: int| 0 <= i < bs.len() && bs[i].0 == id
}

/// The position of block `id` in `bs`.
pub open spec fn blk_pos(bs: Seq<(BlkId, BlkV)>, id: BlkId) -> int {
    choose|i: int| 0 <= i < bs.len() && bs[i].0 == id
}

/// `c` with statement `st` added to the current block.
pub open spec fn c_push_stmt(c: CtxV, st: Stmt) -> CtxV {
    let i = blk_pos(c.blocks, c.current);
    let b = c.blocks[i].1;
    CtxV { blocks: c.blocks.update(i, (c.current, BlkV { stmts: b.stmts.push(st), ..b })), ..c }
}

/// `c` with the terminator of the current block set to `t`.
pub open spec fn c_set_term(c: CtxV, t: TermV) -> CtxV {
    let i = blk_pos(c.blocks, c.current);
    let b = c.blocks[i].1;
    CtxV { blocks: c.blocks.update(i, (c.current, BlkV { term: t, ..b })), ..c }
}

/// `c` with code added to block `id`.
pub open spec fn c_focus(c: CtxV, id: BlkId) -> CtxV {
    CtxV { current: id, ..c }
}

/// The type of the value `e` computes.
pub open spec fn ty_of_spec(e: Expr) -> Ty {
    match e {
        Expr::StringLit(_) => Ty::String,
        Expr::IntLit(_) => Ty::Int,
        Expr::BoolLit(_) => Ty::Bool,
        Expr::TToValue(_, _) => Ty::Value,
        Expr::ValueToT(_, o) => o,
        Expr::BinOp(k, _, _) => match k {
            BinOpKind::Plus | BinOpKind::Minus | BinOpKind::Mod => Ty::Int,
            _ => Ty::Bool,
        },
        _ => Ty::Value,
    }
}

/// Whether `ty_of` knows the type of `e`.
pub open spec fn ty_known(e: Expr) -> bool {
    match e {
        Expr::StringLit(_) | Expr::IntLit(_) | Expr::BoolLit(_) | Expr::TToValue(..) | Expr::ValueToT(..) => true,
        Expr::BinOp(k, _, _) => k != BinOpKind::Mul,
        _ => false,
    }
}

/// The type of the value `e` computes.
pub fn ty_of(e: &Expr) -> (r: Ty)
    requires
        ty_known(*e),
    ensures
        r == ty_of_spec(*e),
{
    match e {
        Expr::StringLit(_) => Ty::String,
        Expr::IntLit(_) => Ty::Int,
        Expr::BoolLit(_) => Ty::Bool,
        Expr::TToValue(_, _) => Ty::Value,
        Expr::ValueToT(_, o) => *o,
        Expr::BinOp(k, _, _) => match k {
            BinOpKind::Plus | BinOpKind::Minus | BinOpKind::Mod => Ty::Int,
            _ => Ty::Bool,
        },
        _ => Ty::Value,
    }
}

/// `c` with a fresh value computed by `e` at the end of the current block;
/// the value's id comes first.
pub open spec fn c_mk_expr(c: CtxV, e: Expr) -> (ValueId, CtxV) {
    let v = c.next;
    let i = blk_pos(c.blocks, c.current);
    let b = c.blocks[i].1;
    let nb = BlkV { stmts: b.stmts.push(Stmt::Compute(v, e)), types: insert_entry(b.types, v, ty_of_spec(e)), ..b };
    (v, CtxV { blocks: c.blocks.update(i, (c.current, nb)), next: next_id(c.next), ..c })
}

/// An empty block.
pub open spec fn empty_blk() -> BlkV {
    BlkV { stmts: Seq::empty(), term: TermV::Exit, args: Seq::empty(), types: Seq::empty() }
}

/// `c` with a fresh, empty block without arguments.
pub open spec fn c_fresh_argless_blk(c: CtxV) -> (BlkId, CtxV) {
    let id = c.next;
    (id, CtxV { blocks: insert_entry(c.blocks, id, empty_blk()), next: next_id(c.next), ..c })
}

/// `c` with `k` more fresh arguments of type `Value` added to block `id`,
/// each recorded as the value of the next variable.
pub open spec fn c_add_args(c: CtxV, id: BlkId, k: nat) -> CtxV
    decreases k,
{
    if k == 0 {
        c
    } else {
        let c1 = c_add_args(c, id, (k - 1) as nat);
        let v = c1.next;
        let i = blk_pos(c1.blocks, id);
        let b = c1.blocks[i].1;
        let nb = BlkV { types: insert_entry(b.types, v, Ty::Value), args: b.args.push(v), ..b };
        CtxV {
            blocks: c1.blocks.update(i, (id, nb)),
            blockvars: c1.blockvars.insert(id, c1.blockvars[id].push(v)),
            next: next_id(c1.next),
            ..c1
        }
    }
}

/// `c` with a fresh block that takes one argument per variable, each
/// recorded as the variable's value in it.
pub open spec fn c_fresh_blk(c: CtxV) -> (BlkId, CtxV) {
    let (id, c1) = c_fresh_argless_blk(c);
    let c2 = CtxV { blockvars: c1.blockvars.insert(id, Seq::empty()), ..c1 };
    (id, c_add_args(c2, id, c.vars.len()))
}

/// A jump to `target` handing on the variables' values in the current block.
pub open spec fn c_applied(c: CtxV, target: BlkId) -> (BlkId, Seq<ValueId>) {
    (target, c.blockvars[c.current])
}

/// Whether the current block exists.
pub open spec fn cur_ok(c: CtxV) -> bool {
    has_blk(c.blocks, c.current)
}

/// With distinct keys, `pos` is the position of its key.
proof fn lemma_blk_pos(bs: Seq<(BlkId, BlkV)>, pos: int)
    requires
        keys_unique(bs),
        0 <= pos < bs.len(),
    ensures
        has_blk(bs, bs[pos].0),
        blk_pos(bs, bs[pos].0) == pos,
{
    let j = blk_pos(bs, bs[pos].0);
    assert(j == pos) by {
        if j < pos {
            assert(bs[j].0 != bs[pos].0);
        } else if j > pos {
            assert(bs[pos].0 != bs[j].0);
        }
    }
}

/// The views of the entries keep the keys of the entries.
proof fn lemma_blks_keys(bs: Seq<(BlkId, BlkDef)>)
    ensures
        blks_view(bs).len() == bs.len(),
        forall|i: int| 0 <= i < bs.len() ==> #[trigger] blks_view(bs)[i].0 == bs[i].0,
        keys_unique(bs) == keys_unique(blks_view(bs)),
{
    let v = blks_view(bs);
    assert(keys_unique(bs) ==> keys_unique(v)) by {
        if keys_unique(bs) {
            assert forall|a: int, b: int| 0 <= a < b < v.len() implies #[trigger] v[a].0 != #[trigger] v[b].0 by {
                assert(bs[a].0 != bs[b].0);
            }
        }
    }
    assert(keys_unique(v) ==> keys_unique(bs)) by {
        if keys_unique(v) {
            assert forall|a: int, b: int| 0 <= a < b < bs.len() implies #[trigger] bs[a].0 != #[trigger] bs[b].0 by {
                assert(v[a].0 != v[b].0);
            }
        }
    }
}

impl FnCtxt {
    /// The position of the current block.
    fn cur_pos(&self) -> (r: usize)
        requires
            self.wf(),
            cur_ok(self.view()),
        ensures
            r < self.blocks.entries@.len(),
            self.blocks.entries@[r as int].0 == self.current,
            r as int == blk_pos(self.view().blocks, self.current),
    {
        proof {
            lemma_blks_keys(self.blocks.entries@);
            let k = blk_pos(self.view().blocks, self.current);
            crate::assoc::lemma_map_of_dom(self.blocks.entries@);
            assert(self.blocks.entries@[k].0 == self.current);
            assert(self.blocks.view().contains_key(self.current));
        }
        let r = self.blocks.position(&self.current).unwrap();
        proof {
            lemma_blks_keys(self.blocks.entries@);
            lemma_blk_pos(self.view().blocks, r as int);
        }
        r
    }

    fn push_stmt(&mut self, stmt: Stmt)
        requires
            old(self).wf(),
            cur_ok(old(self).view()),
        ensures
            final(self).wf(),
            final(self).view() == c_push_stmt(old(self).view(), stmt),
    {
        let i = self.cur_pos();
        let ghost st = stmt;
        self.blocks.entries[i].1.stmts.push(stmt);
        proof {
            lemma_blks_keys(self.blocks.entries@);
            assert(self.blocks.entries@ =~= old(self).blocks.entries@.update(i as int,
                (old(self).blocks.entries@[i as int].0, self.blocks.entries@[i as int].1)));
            assert(self.view().blocks =~= c_push_stmt(old(self).view(), st).blocks);
        }
        assert(self.view() == c_push_stmt(old(self).view(), st));
    }

    fn set_terminator(&mut self, terminator: Terminator)
        requires
            old(self).wf(),
            cur_ok(old(self).view()),
        ensures
            final(self).wf(),
            final(self).view() == c_set_term(old(self).view(), term_view(terminator)),
    {
        let i = self.cur_pos();
        let ghost t = term_view(terminator);
        self.blocks.entries[i].1.terminator = terminator;
        proof {
            lemma_blks_keys(self.blocks.entries@);
            assert(self.blocks.entries@ =~= old(self).blocks.entries@.update(i as int,
                (old(self).blocks.entries@[i as int].0, self.blocks.entries@[i as int].1)));
            assert(self.view().blocks =~= c_set_term(old(self).view(), t).blocks);
        }
        assert(self.view() == c_set_term(old(self).view(), t));
    }

    fn focus_blk(&mut self, bid: BlkId)
        ensures
            final(self).wf() == old(self).wf(),
            final(self).view() == c_focus(old(self).view(), bid),
    {
        self.current = bid;
    }

    /// Adds `e` to the current block as the computation of a fresh value.
    fn mk_expr(&mut self, e: Expr) -> (r: ValueId)
        requires
            old(self).wf(),
            cur_ok(old(self).view()),
            ty_known(e),
        ensures
            final(self).wf(),
            (r, final(self).view()) == c_mk_expr(old(self).view(), e),
    {
        let ty = ty_of(&e);
        let v = fresh(&mut self.next);
        let i = self.cur_pos();
        let ghost ee = e;
        self.blocks.entries[i].1.types.insert(v, ty);
        self.blocks.entries[i].1.stmts.push(Stmt::Compute(v, e));
        proof {
            lemma_blks_keys(self.blocks.entries@);
            assert(self.blocks.entries@ =~= old(self).blocks.entries@.update(i as int,
                (old(self).blocks.entries@[i as int].0, self.blocks.entries@[i as int].1)));
            assert(self.view().blocks =~= c_mk_expr(old(self).view(), ee).1.blocks);
        }
        assert(self.view() == c_mk_expr(old(self).view(), ee).1);
        v
    }

    fn fresh_argless_blk(&mut self) -> (r: BlkId)
        requires
            old(self).wf(),
        ensures
            final(self).wf(),
            (r, final(self).view()) == c_fresh_argless_blk(old(self).view()),
    {
        let old_cur = self.current;
        let new = fresh(&mut self.next);
        self.focus_blk(new);
        let ghost e0 = self.blocks.entries@;
        let b = BlkDef { args: Vec::new(), stmts: Vec::new(), terminator: Terminator::Exit, types: AssocMap::new() };
        assert(b.types.entries@ =~= Seq::<(ValueId, Ty)>::empty());
        assert(b.stmts@ =~= Seq::<Stmt>::empty());
        assert(b.args@ =~= Seq::<ValueId>::empty());
        assert(blk_view(b) == empty_blk());
        self.blocks.insert(new, b);
        proof {
            lemma_view_insert(e0, new, b);
        }
        self.focus_blk(old_cur);
        new
    }

    /// Adds a fresh argument of type `ty` to the current block.
    fn fresh_blkarg(&mut self, ty: Ty) -> (r: ValueId)
        requires
            old(self).wf(),
            cur_ok(old(self).view()),
        ensures
            final(self).wf(),
            r == old(self).next,
            final(self).next == next_id(old(self).next),
            final(self).vars == old(self).vars,
            final(self).current == old(self).current,
            final(self).blockvars == old(self).blockvars,
            final(self).view().blocks == ({
                let c = old(self).view();
                let i = blk_pos(c.blocks, c.current);
                let b = c.blocks[i].1;
                c.blocks.update(i, (c.current, BlkV { types: insert_entry(b.types, r, ty), args: b.args.push(r), ..b }))
            }),
    {
        let out = fresh(&mut self.next);
        let i = self.cur_pos();
        self.blocks.entries[i].1.types.insert(out, ty);
        self.blocks.entries[i].1.args.push(out);
        proof {
            lemma_blks_keys(self.blocks.entries@);
            assert(self.blocks.entries@ =~= old(self).blocks.entries@.update(i as int,
                (old(self).blocks.entries@[i as int].0, self.blocks.entries@[i as int].1)));
        }
        assert(self.view().blocks =~= ({
            let c = old(self).view();
            let i = blk_pos(c.blocks, c.current);
            let b = c.blocks[i].1;
            c.blocks.update(i, (c.current, BlkV { types: insert_entry(b.types, out, ty), args: b.args.push(out), ..b }))
        }));
        out
    }

    /// Makes a fresh block that takes one argument of type `Value` per
    /// variable.
    fn fresh_blk(&mut self) -> (r: BlkId)
        requires
            old(self).wf(),
        ensures
            final(self).wf(),
            (r, final(self).view()) == c_fresh_blk(old(self).view()),
    {
        let ghost c0 = self.view();
        let old_cur = self.current;
        let new = self.fresh_argless_blk();
        self.focus_blk(new);
        let ghost e0 = self.blockvars.entries@;
        self.blockvars.insert(new, Vec::new());
        proof {
            assert(self.blockvars.view().map_values(|v: Vec<ValueId>| v@) =~=
                old(self).blockvars.view().map_values(|v: Vec<ValueId>| v@).insert(new, Seq::empty()));
        }
        let ghost c2 = CtxV { blockvars: c_fresh_argless_blk(c0).1.blockvars.insert(new, Seq::empty()), ..c_fresh_argless_blk(c0).1 };
        assert(self.view() == c_focus(c2, new));
        proof {
            lemma_blks_keys(old(self).blocks.entries@);
            crate::assoc::lemma_insert_entry(c0.blocks, new, empty_blk());
            let j = choose|j: int| 0 <= j < c2.blocks.len() && #[trigger] c2.blocks[j] == (new, empty_blk());
            assert(c2.blocks[j].0 == new);
        }
        let n = self.vars.len();
        let mut k: usize = 0;
        while k < n
            invariant
                k <= n,
                n == c0.vars.len(),
                self.wf(),
                self.view() == c_focus(c_add_args(c2, new, k as nat), new),
                has_blk(c2.blocks, new),
                c2.blockvars.contains_key(new),
                c2.current == old_cur,
            decreases n - k,
        {
            proof {
                lemma_add_args_keeps(c2, new, k as nat);
            }
            let v = self.fresh_blkarg(Ty::Value);
            assert(self.blockvars.view().contains_key(new));
            let p = self.blockvars.position(&new).unwrap();
            proof {
                crate::assoc::lemma_map_of_entry(self.blockvars.entries@, p as int);
            }
            let ghost e1 = self.blockvars.entries@;
            self.blockvars.entries[p].1.push(v);
            proof {
                crate::assoc::lemma_map_of_update(e1, p as int, self.blockvars.entries@[p as int].1);
                assert(self.blockvars.entries@ =~= e1.update(p as int, (new, self.blockvars.entries@[p as int].1)));
                assert(self.view().blockvars =~= c_add_args(c2, new, (k + 1) as nat).blockvars);
                assert(self.view().blocks =~= c_add_args(c2, new, (k + 1) as nat).blocks);
            }
            k = k + 1;
        }
        proof {
            lemma_add_args_keeps(c2, new, n as nat);
        }
        self.focus_blk(old_cur);
        new
    }

    /// The jump to `target` handing on the variables' values in the current
    /// block.
    fn mk_applied_blk(&self, target: BlkId) -> (r: AppliedBlk)
        requires
            self.wf(),
            self.view().blockvars.contains_key(self.current),
        ensures
            r.0 == target,
            r.1@ == c_applied(self.view(), target).1,
    {
        let p = self.blockvars.position(&self.current).unwrap();
        proof {
            crate::assoc::lemma_map_of_entry(self.blockvars.entries@, p as int);
        }
        (target, copy_vals(&self.blockvars.entries[p].1))
    }
}

/// A copy of `v`.
fn copy_vals(v: &Vec<ValueId>) -> (r: Vec<ValueId>)
    ensures
        r@ == v@,
{
    let mut r: Vec<ValueId> = Vec::new();
    let mut i: usize = 0;
    while i < v.len()
        invariant
            i <= v@.len(),
            r@ == v@.take(i as int),
        decreases v.len() - i,
    {
        r.push(v[i]);
        assert(r@ =~= v@.take(i + 1));
        i = i + 1;
    }
    assert(v@.take(v@.len() as int) =~= v@);
    r
}

/// The views of the entries after an insertion are the insertion of the
/// view.
proof fn lemma_view_insert(bs: Seq<(BlkId, BlkDef)>, k: BlkId, v: BlkDef)
    requires
        keys_unique(bs),
    ensures
        blks_view(insert_entry(bs, k, v)) =~= insert_entry(blks_view(bs), k, blk_view(v)),
{
    lemma_blks_keys(bs);
    let w = blks_view(bs);
    if exists|i: int| 0 <= i < bs.len() && bs[i].0 == k {
        let i = choose|i: int| 0 <= i < bs.len() && bs[i].0 == k;
        assert(w[i].0 == k);
        let j = choose|j: int| 0 <= j < w.len() && w[j].0 == k;
        assert(i == j) by {
            if i < j {
                assert(bs[i].0 != bs[j].0);
            } else if i > j {
                assert(bs[j].0 != bs[i].0);
            }
        }
    } else {
        assert(!exists|j: int| 0 <= j < w.len() && w[j].0 == k) by {
            if exists|j: int| 0 <= j < w.len() && w[j].0 == k {
                let j = choose|j: int| 0 <= j < w.len() && w[j].0 == k;
                assert(bs[j].0 == k);
            }
        }
    }
}

/// Adding arguments keeps the blocks, the variables and the current block,
/// and adds one value per argument to the block's variable values.
proof fn lemma_add_args_keeps(c: CtxV, id: BlkId, k: nat)
    requires
        has_blk(c.blocks, id),
        c.blockvars.contains_key(id),
    ensures
        has_blk(c_add_args(c, id, k).blocks, id),
        c_add_args(c, id, k).blocks.len() == c.blocks.len(),
        forall|i: int| 0 <= i < c.blocks.len() ==> #[trigger] c_add_args(c, id, k).blocks[i].0 == c.blocks[i].0,
        c_add_args(c, id, k).vars == c.vars,
        c_add_args(c, id, k).current == c.current,
        blocks_ok(c.blocks) ==> blocks_ok(c_add_args(c, id, k).blocks),
        c_add_args(c, id, k).blockvars.contains_key(id),
        c_add_args(c, id, k).blockvars[id].len() == c.blockvars[id].len() + k,
        forall|b: BlkId| b != id ==> #[trigger] c_add_args(c, id, k).blockvars.contains_key(b) == c.blockvars.contains_key(b)
            && c_add_args(c, id, k).blockvars[b] == c.blockvars[b],
    decreases k,
{
    if k > 0 {
        lemma_add_args_keeps(c, id, (k - 1) as nat);
        let c1 = c_add_args(c, id, (k - 1) as nat);
        let i = blk_pos(c1.blocks, id);
        assert(c1.blocks[i].0 == id);
        assert(c_add_args(c, id, k).blocks[i].0 == id);
        if blocks_ok(c.blocks) {
            let p = c_add_args(c, id, k).blocks[i];
            assert(targets_in_blks(p.1.term, c1.blocks)) by {
                assert(p.1.term == c1.blocks[i].1.term);
            }
            lemma_update_ok(c1.blocks, i, p);
        }
    }
}

/// The variables a syntax tree mentions: those it reads, assigns or
/// declares global.
pub open spec fn expr_syms(e: ast::Expr) -> Set<Symbol>
    decreases e,
{
    match e {
        ast::Expr::Var(v) => set![v],
        ast::Expr::IndexList(a, b) => expr_syms(*a) + expr_syms(*b),
        ast::Expr::IndexDict(a, b) => expr_syms(*a) + expr_syms(*b),
        ast::Expr::BinOp(_, a, b) => expr_syms(*a) + expr_syms(*b),
        ast::Expr::Length(a) => expr_syms(*a),
        ast::Expr::FnCall(f, args) => expr_syms(*f) + exprs_syms(args@),
        _ => Set::empty(),
    }
}

pub open spec fn exprs_syms(es: Seq<ast::Expr>) -> Set<Symbol>
    decreases es,
{
    if es.len() == 0 {
        Set::empty()
    } else {
        exprs_syms(es.drop_last()) + expr_syms(es.last())
    }
}

pub open spec fn stmt_syms(s: ast::Stmt) -> Set<Symbol>
    decreases s,
{
    match s {
        ast::Stmt::Global(v) => set![v],
        ast::Stmt::Return(e) => expr_syms(e),
        ast::Stmt::Print(e) => expr_syms(e),
        ast::Stmt::Assign(v, e) => set![v] + expr_syms(e),
        ast::Stmt::Push(a, b) => expr_syms(a) + expr_syms(b),
        ast::Stmt::ListStore(a, b, c) => expr_syms(a) + expr_syms(b) + expr_syms(c),
        ast::Stmt::DictStore(a, b, c) => expr_syms(a) + expr_syms(b) + expr_syms(c),
        ast::Stmt::If(e, t, f) => expr_syms(e) + body_syms(t@) + body_syms(f@),
        ast::Stmt::While(e, b) => expr_syms(e) + body_syms(b@),
    }
}

pub open spec fn body_syms(b: Seq<ast::Stmt>) -> Set<Symbol>
    decreases b,
{
    if b.len() == 0 {
        Set::empty()
    } else {
        body_syms(b.drop_last()) + stmt_syms(b.last())
    }
}

/// Whether lowering handles `e`: literals, variables, and operators other
/// than `*`.
pub open spec fn expr_lowerable(e: ast::Expr) -> bool
    decreases e,
{
    match e {
        ast::Expr::StringLit(_) | ast::Expr::IntLit(_) | ast::Expr::BoolLit(_) | ast::Expr::Var(_) => true,
        ast::Expr::BinOp(k, a, b) => k != BinOpKind::Mul && expr_lowerable(*a) && expr_lowerable(*b),
        _ => false,
    }
}

/// Whether lowering handles `s`: prints, conditionals, loops and
/// assignments of expressions it handles.
pub open spec fn stmt_lowerable(s: ast::Stmt) -> bool
    decreases s,
{
    match s {
        ast::Stmt::Print(e) => expr_lowerable(e),
        ast::Stmt::Assign(_, e) => expr_lowerable(e),
        ast::Stmt::If(e, t, f) => expr_lowerable(e) && body_lowerable(t@) && body_lowerable(f@),
        ast::Stmt::While(e, b) => expr_lowerable(e) && body_lowerable(b@),
        _ => false,
    }
}

pub open spec fn body_lowerable(b: Seq<ast::Stmt>) -> bool
    decreases b,
{
    if b.len() == 0 {
        true
    } else {
        body_lowerable(b.drop_last()) && stmt_lowerable(b.last())
    }
}

/// The first position of `v` among `vars`.
pub open spec fn var_index(vars: Seq<Symbol>, v: Symbol) -> int {
    choose|i: int| first_pos(vars, v, i)
}

/// The computations an operator is lowered to; the expression that wraps
/// its result into a `Value` comes first.
pub open spec fn lower_binop_spec(k: BinOpKind, l: ValueId, r: ValueId, c: CtxV) -> (Expr, CtxV) {
    match k {
        BinOpKind::Plus | BinOpKind::Minus | BinOpKind::Mod => {
            let (l2, c1) = c_mk_expr(c, Expr::ValueToT(l, Ty::Int));
            let (r2, c2) = c_mk_expr(c1, Expr::ValueToT(r, Ty::Int));
            let (o, c3) = c_mk_expr(c2, Expr::BinOp(k, l2, r2));
            (Expr::TToValue(o, Ty::Int), c3)
        },
        BinOpKind::Gt | BinOpKind::Lt => {
            let (l2, c1) = c_mk_expr(c, Expr::ValueToT(l, Ty::Int));
            let (r2, c2) = c_mk_expr(c1, Expr::ValueToT(r, Ty::Int));
            let (o, c3) = c_mk_expr(c2, Expr::BinOp(k, l2, r2));
            (Expr::TToValue(o, Ty::Bool), c3)
        },
        BinOpKind::Equ | BinOpKind::Ne => {
            let (o, c1) = c_mk_expr(c, Expr::BinOp(k, l, r));
            (Expr::TToValue(o, Ty::Bool), c1)
        },
        BinOpKind::Mul => (Expr::NilLit, c),
    }
}

/// The value an expression is lowered to, and the computations added for
/// it to the current block.
pub open spec fn lower_expr_spec(e: ast::Expr, c: CtxV) -> (ValueId, CtxV)
    decreases e,
{
    match e {
        ast::Expr::StringLit(x) => {
            let (a, c1) = c_mk_expr(c, Expr::StringLit(x));
            c_mk_expr(c1, Expr::TToValue(a, Ty::String))
        },
        ast::Expr::IntLit(x) => {
            let (a, c1) = c_mk_expr(c, Expr::IntLit(x));
            c_mk_expr(c1, Expr::TToValue(a, Ty::Int))
        },
        ast::Expr::BoolLit(x) => {
            let (a, c1) = c_mk_expr(c, Expr::BoolLit(x));
            c_mk_expr(c1, Expr::TToValue(a, Ty::Bool))
        },
        ast::Expr::BinOp(k, l, r) => {
            let (lv, c1) = lower_expr_spec(*l, c);
            let (rv, c2) = lower_expr_spec(*r, c1);
            let (e2, c3) = lower_binop_spec(k, lv, rv, c2);
            c_mk_expr(c3, e2)
        },
        ast::Expr::Var(v) => (c.blockvars[c.current][var_index(c.vars, v)], c),
        _ => (0, c),
    }
}

/// Whether a jump of `t` goes to block `b`.
pub open spec fn termv_jumps(t: TermV, b: BlkId) -> bool {
    match t {
        TermV::Goto(x, _) => x == b,
        TermV::IfGoto(_, x, _, y, _) => x == b || y == b,
        _ => false,
    }
}

/// Whether every statement of the blocks `bs` can be compiled and every
/// jump goes to one of them.
pub open spec fn blocks_ok(bs: Seq<(BlkId, BlkV)>) -> bool {
    forall|i: int| 0 <= i < bs.len() ==> {
        &&& forall|j: int| 0 <= j < (#[trigger] bs[i]).1.stmts.len() ==> crate::comp::stmt_compilable(#[trigger] bs[i].1.stmts[j])
        &&& forall|b: BlkId| termv_jumps(bs[i].1.term, b) ==> #[trigger] has_blk(bs, b)
    }
}

/// Whether the jumps of `t` go to blocks of `bs`.
pub open spec fn targets_in_blks(t: TermV, bs: Seq<(BlkId, BlkV)>) -> bool {
    forall|b: BlkId| termv_jumps(t, b) ==> #[trigger] has_blk(bs, b)
}

/// Replacing a block by one with the same id, compilable statements and
/// jumps to existing blocks keeps the blocks valid.
proof fn lemma_update_ok(bs: Seq<(BlkId, BlkV)>, i: int, p: (BlkId, BlkV))
    requires
        blocks_ok(bs),
        0 <= i < bs.len(),
        bs[i].0 == p.0,
        forall|j: int| 0 <= j < p.1.stmts.len() ==> crate::comp::stmt_compilable(#[trigger] p.1.stmts[j]),
        targets_in_blks(p.1.term, bs),
    ensures
        blocks_ok(bs.update(i, p)),
{
    lemma_update_keeps(bs, i, p);
    let t = bs.update(i, p);
    assert forall|k: int| 0 <= k < t.len() implies {
        &&& forall|j: int| 0 <= j < (#[trigger] t[k]).1.stmts.len() ==> crate::comp::stmt_compilable(#[trigger] t[k].1.stmts[j])
        &&& forall|b: BlkId| termv_jumps(t[k].1.term, b) ==> #[trigger] has_blk(t, b)
    } by {
        if k != i {
            assert(t[k] == bs[k]);
        }
        assert forall|b: BlkId| termv_jumps(t[k].1.term, b) implies #[trigger] has_blk(t, b) by {
            if k != i {
                assert(has_blk(bs, b));
            } else {
                assert(has_blk(bs, b));
            }
        }
    }
}

/// Every block with recorded variable values exists and records one value
/// per variable, block ids are distinct, and the blocks are valid.
pub open spec fn ctx_inv(c: CtxV) -> bool {
    &&& keys_unique(c.blocks)
    &&& blocks_ok(c.blocks)
    &&& forall|id: BlkId| #[trigger] c.blockvars.contains_key(id) ==>
        c.blockvars[id].len() == c.vars.len() && has_blk(c.blocks, id)
}

/// The invariant holds and code can be added to the current block.
pub open spec fn ready(c: CtxV) -> bool {
    ctx_inv(c) && c.blockvars.contains_key(c.current)
}

/// `d` keeps the variables, blocks and recorded blocks of `c`.
pub open spec fn grows(c: CtxV, d: CtxV) -> bool {
    &&& d.vars == c.vars
    &&& forall|id: BlkId| has_blk(c.blocks, id) ==> #[trigger] has_blk(d.blocks, id)
    &&& forall|id: BlkId| #[trigger] c.blockvars.contains_key(id) ==> d.blockvars.contains_key(id)
}

/// Replacing an entry by one with the same key keeps the keys.
proof fn lemma_update_keeps(bs: Seq<(BlkId, BlkV)>, i: int, p: (BlkId, BlkV))
    requires
        0 <= i < bs.len(),
        bs[i].0 == p.0,
    ensures
        forall|id: BlkId| #[trigger] has_blk(bs.update(i, p), id) == has_blk(bs, id),
        keys_unique(bs) ==> keys_unique(bs.update(i, p)),
{
    let t = bs.update(i, p);
    assert forall|id: BlkId| #[trigger] has_blk(t, id) == has_blk(bs, id) by {
        if has_blk(t, id) {
            let j = choose|j: int| 0 <= j < t.len() && t[j].0 == id;
            assert(bs[j].0 == id);
        }
        if has_blk(bs, id) {
            let j = choose|j: int| 0 <= j < bs.len() && bs[j].0 == id;
            assert(t[j].0 == id);
        }
    }
    if keys_unique(bs) {
        assert forall|a: int, b: int| 0 <= a < b < t.len() implies #[trigger] t[a].0 != #[trigger] t[b].0 by {
            assert(bs[a].0 != bs[b].0);
        }
    }
}

/// Adding a computation keeps the shape of the context.
proof fn lemma_mk_expr(c: CtxV, e: Expr)
    requires
        ctx_inv(c),
        cur_ok(c),
        crate::comp::expr_compilable(e),
    ensures
        ctx_inv(c_mk_expr(c, e).1),
        grows(c, c_mk_expr(c, e).1),
        grows(c_mk_expr(c, e).1, c),
        c_mk_expr(c, e).1.current == c.current,
        c_mk_expr(c, e).1.blockvars == c.blockvars,
{
    let i = blk_pos(c.blocks, c.current);
    let p = c_mk_expr(c, e).1.blocks[i];
    lemma_update_keeps(c.blocks, i, p);
    assert forall|j: int| 0 <= j < p.1.stmts.len() implies crate::comp::stmt_compilable(#[trigger] p.1.stmts[j]) by {
        if j < c.blocks[i].1.stmts.len() {
            assert(p.1.stmts[j] == c.blocks[i].1.stmts[j]);
        }
    }
    assert(targets_in_blks(p.1.term, c.blocks));
    lemma_update_ok(c.blocks, i, p);
}

/// Adding a statement keeps the shape of the context.
proof fn lemma_push_stmt(c: CtxV, st: Stmt)
    requires
        ctx_inv(c),
        cur_ok(c),
        crate::comp::stmt_compilable(st),
    ensures
        ctx_inv(c_push_stmt(c, st)),
        grows(c, c_push_stmt(c, st)),
        c_push_stmt(c, st).current == c.current,
        c_push_stmt(c, st).blockvars == c.blockvars,
{
    let i = blk_pos(c.blocks, c.current);
    let p = c_push_stmt(c, st).blocks[i];
    lemma_update_keeps(c.blocks, i, p);
    assert forall|j: int| 0 <= j < p.1.stmts.len() implies crate::comp::stmt_compilable(#[trigger] p.1.stmts[j]) by {
        if j < c.blocks[i].1.stmts.len() {
            assert(p.1.stmts[j] == c.blocks[i].1.stmts[j]);
        }
    }
    assert(targets_in_blks(p.1.term, c.blocks));
    lemma_update_ok(c.blocks, i, p);
}

/// Setting the terminator keeps the shape of the context.
proof fn lemma_set_term(c: CtxV, t: TermV)
    requires
        ctx_inv(c),
        cur_ok(c),
        targets_in_blks(t, c.blocks),
    ensures
        ctx_inv(c_set_term(c, t)),
        grows(c, c_set_term(c, t)),
        c_set_term(c, t).current == c.current,
        c_set_term(c, t).blockvars == c.blockvars,
{
    let i = blk_pos(c.blocks, c.current);
    let p = c_set_term(c, t).blocks[i];
    lemma_update_keeps(c.blocks, i, p);
    lemma_update_ok(c.blocks, i, p);
}

/// A fresh block is recorded with one value per variable.
proof fn lemma_fresh_blk(c: CtxV)
    requires
        ctx_inv(c),
    ensures
        ctx_inv(c_fresh_blk(c).1),
        grows(c, c_fresh_blk(c).1),
        c_fresh_blk(c).1.current == c.current,
        c_fresh_blk(c).1.blockvars.contains_key(c_fresh_blk(c).0),
{
    let (id, c1) = c_fresh_argless_blk(c);
    let c2 = CtxV { blockvars: c1.blockvars.insert(id, Seq::empty()), ..c1 };
    crate::assoc::lemma_insert_entry(c.blocks, id, empty_blk());
    let j = choose|j: int| 0 <= j < c2.blocks.len() && #[trigger] c2.blocks[j] == (id, empty_blk());
    assert(c2.blocks[j].0 == id);
    assert forall|b: BlkId| has_blk(c.blocks, b) implies #[trigger] has_blk(c2.blocks, b) by {
        let k = choose|k: int| 0 <= k < c.blocks.len() && c.blocks[k].0 == b;
        if b == id {
        } else {
            assert(c2.blocks[k] == c.blocks[k]);
        }
    }
    lemma_add_args_keeps(c2, id, c.vars.len());
    let c3 = c_add_args(c2, id, c.vars.len());
    assert forall|b: BlkId| has_blk(c2.blocks, b) implies #[trigger] has_blk(c3.blocks, b) by {
        let k = choose|k: int| 0 <= k < c2.blocks.len() && c2.blocks[k].0 == b;
        assert(c3.blocks[k].0 == b);
    }
    assert(keys_unique(c3.blocks)) by {
        assert forall|a: int, b: int| 0 <= a < b < c3.blocks.len() implies #[trigger] c3.blocks[a].0 != #[trigger] c3.blocks[b].0 by {
            assert(c2.blocks[a].0 != c2.blocks[b].0);
        }
    }
}

/// Lowers an operator on the values `l` and `r`: adds the computations
/// of the operation and hands back the expression that wraps its result.
fn lower_binop(kind: BinOpKind, l: ValueId, r: ValueId, ctxt: &mut FnCtxt) -> (res: Expr)
    requires
        old(ctxt).wf(),
        ctx_inv(old(ctxt).view()),
        cur_ok(old(ctxt).view()),
        kind != BinOpKind::Mul,
    ensures
        final(ctxt).wf(),
        (res, final(ctxt).view()) == lower_binop_spec(kind, l, r, old(ctxt).view()),
        ctx_inv(final(ctxt).view()),
        grows(old(ctxt).view(), final(ctxt).view()),
        final(ctxt).view().current == old(ctxt).view().current,
        final(ctxt).view().blockvars == old(ctxt).view().blockvars,
        ty_known(res),
{
    match kind {
        BinOpKind::Plus | BinOpKind::Minus | BinOpKind::Mod | BinOpKind::Gt | BinOpKind::Lt => {
            let ghost c0 = ctxt.view();
            proof { lemma_mk_expr(c0, Expr::ValueToT(l, Ty::Int)); }
            let l2 = ctxt.mk_expr(Expr::ValueToT(l, Ty::Int));
            let ghost c1 = ctxt.view();
            proof { lemma_mk_expr(c1, Expr::ValueToT(r, Ty::Int)); }
            let r2 = ctxt.mk_expr(Expr::ValueToT(r, Ty::Int));
            let ghost c2 = ctxt.view();
            proof { lemma_mk_expr(c2, Expr::BinOp(kind, l2, r2)); }
            let o = ctxt.mk_expr(Expr::BinOp(kind, l2, r2));
            match kind {
                BinOpKind::Gt | BinOpKind::Lt => Expr::TToValue(o, Ty::Bool),
                _ => Expr::TToValue(o, Ty::Int),
            }
        },
        _ => {
            proof { lemma_mk_expr(ctxt.view(), Expr::BinOp(kind, l, r)); }
            let o = ctxt.mk_expr(Expr::BinOp(kind, l, r));
            Expr::TToValue(o, Ty::Bool)
        },
    }
}

/// The statements of the current block.
pub open spec fn cur_stmts(c: CtxV) -> Seq<Stmt> {
    c.blocks[blk_pos(c.blocks, c.current)].1.stmts
}

/// Adding a computation appends it to the current block under the next id.
proof fn lemma_mk_expr_stmts(c: CtxV, e: Expr)
    requires
        keys_unique(c.blocks),
        cur_ok(c),
    ensures
        keys_unique(c_mk_expr(c, e).1.blocks),
        cur_ok(c_mk_expr(c, e).1),
        c_mk_expr(c, e).0 == c.next,
        c_mk_expr(c, e).1.next == next_id(c.next),
        c_mk_expr(c, e).1.current == c.current,
        cur_stmts(c_mk_expr(c, e).1) == cur_stmts(c).push(Stmt::Compute(c.next, e)),
{
    let i = blk_pos(c.blocks, c.current);
    let d = c_mk_expr(c, e).1;
    lemma_update_keeps(c.blocks, i, d.blocks[i]);
    lemma_blk_pos(d.blocks, i);
}

/// Lowering an operator keeps its operands in their order.  An arithmetic
/// operator or a comparison adds three computations to the current block:
/// the integer held by the left operand, then the one held by the right
/// operand, then the operation on the first and the second of these, in
/// that order; `==` and `!=` add the one operation on the left and the
/// right operand.  The three ids are fresh and distinct, and the result
/// wraps the last one as an integer (arithmetic) or a boolean (the rest).
pub proof fn lemma_lower_binop_order(k: BinOpKind, l: ValueId, r: ValueId, c: CtxV)
    requires
        keys_unique(c.blocks),
        cur_ok(c),
    ensures
        ({
            let a = c.next;
            let b = next_id(a);
            let o = next_id(b);
            let (e, d) = lower_binop_spec(k, l, r, c);
            (k == BinOpKind::Plus || k == BinOpKind::Minus || k == BinOpKind::Mod || k == BinOpKind::Lt
                || k == BinOpKind::Gt) ==> {
                &&& a != b && b != o && a != o
                &&& cur_stmts(d) == cur_stmts(c) + seq![
                    Stmt::Compute(a, Expr::ValueToT(l, Ty::Int)),
                    Stmt::Compute(b, Expr::ValueToT(r, Ty::Int)),
                    Stmt::Compute(o, Expr::BinOp(k, a, b)),
                ]
                &&& e == Expr::TToValue(o, if k == BinOpKind::Lt || k == BinOpKind::Gt { Ty::Bool } else { Ty::Int })
            }
        }),
        (k == BinOpKind::Equ || k == BinOpKind::Ne) ==> {
            &&& cur_stmts(lower_binop_spec(k, l, r, c).1) == cur_stmts(c).push(Stmt::Compute(c.next, Expr::BinOp(k, l, r)))
            &&& lower_binop_spec(k, l, r, c).0 == Expr::TToValue(c.next, Ty::Bool)
        },
{
    let a = c.next;
    let b = next_id(a);
    let o = next_id(b);
    if k == BinOpKind::Equ || k == BinOpKind::Ne {
        lemma_mk_expr_stmts(c, Expr::BinOp(k, l, r));
    } else if k != BinOpKind::Mul {
        let (l2, c1) = c_mk_expr(c, Expr::ValueToT(l, Ty::Int));
        lemma_mk_expr_stmts(c, Expr::ValueToT(l, Ty::Int));
        let (r2, c2) = c_mk_expr(c1, Expr::ValueToT(r, Ty::Int));
        lemma_mk_expr_stmts(c1, Expr::ValueToT(r, Ty::Int));
        lemma_mk_expr_stmts(c2, Expr::BinOp(k, l2, r2));
        assert(cur_stmts(lower_binop_spec(k, l, r, c).1) =~= cur_stmts(c) + seq![
            Stmt::Compute(a, Expr::ValueToT(l, Ty::Int)),
            Stmt::Compute(b, Expr::ValueToT(r, Ty::Int)),
            Stmt::Compute(o, Expr::BinOp(k, a, b)),
        ]);
    }
}

/// Whether the interpreter's value `v` has the IR type `t`.
pub open spec fn val_has_ty(v: Val, t: Ty) -> bool {
    match v {
        Val::Int(_) => t == Ty::Int,
        Val::Bool(_) => t == Ty::Bool,
        Val::Str(_) => t == Ty::String,
        Val::Nil => t == Ty::Nil,
    }
}

/// The type the lowering gives an operator's result is the type of every
/// value the interpreter can compute for it: integers for `+`, `-` and
/// `%`, booleans for the comparisons.
pub proof fn lemma_binop_ty_sound(k: BinOpKind, a: ValueId, b: ValueId, x: Val, y: Val)
    requires
        ty_known(Expr::BinOp(k, a, b)),
    ensures
        binop_spec(k, x, y) matches Ok(v) ==> val_has_ty(v, ty_of_spec(Expr::BinOp(k, a, b))),
{
}

/// A literal is lowered to two computations at the end of the current
/// block: the literal itself under the next id, then its wrapping into a
/// `Value` as an integer, a string or a boolean, which is the value the
/// literal is lowered to.
pub proof fn lemma_lower_literals(i: i64, t: String, q: bool, c: CtxV)
    requires
        keys_unique(c.blocks),
        cur_ok(c),
    ensures
        ({
            let a = c.next;
            let b = next_id(a);
            &&& lower_expr_spec(ast::Expr::IntLit(i), c).0 == b
            &&& cur_stmts(lower_expr_spec(ast::Expr::IntLit(i), c).1) == cur_stmts(c) + seq![
                Stmt::Compute(a, Expr::IntLit(i)), Stmt::Compute(b, Expr::TToValue(a, Ty::Int))]
            &&& lower_expr_spec(ast::Expr::StringLit(t), c).0 == b
            &&& cur_stmts(lower_expr_spec(ast::Expr::StringLit(t), c).1) == cur_stmts(c) + seq![
                Stmt::Compute(a, Expr::StringLit(t)), Stmt::Compute(b, Expr::TToValue(a, Ty::String))]
            &&& lower_expr_spec(ast::Expr::BoolLit(q), c).0 == b
            &&& cur_stmts(lower_expr_spec(ast::Expr::BoolLit(q), c).1) == cur_stmts(c) + seq![
                Stmt::Compute(a, Expr::BoolLit(q)), Stmt::Compute(b, Expr::TToValue(a, Ty::Bool))]
        }),
{
    let a = c.next;
    let b = next_id(a);
    let (_, c1) = c_mk_expr(c, Expr::IntLit(i));
    lemma_mk_expr_stmts(c, Expr::IntLit(i));
    lemma_mk_expr_stmts(c1, Expr::TToValue(a, Ty::Int));
    assert(cur_stmts(lower_expr_spec(ast::Expr::IntLit(i), c).1) =~= cur_stmts(c) + seq![
        Stmt::Compute(a, Expr::IntLit(i)), Stmt::Compute(b, Expr::TToValue(a, Ty::Int))]);
    let (_, c2) = c_mk_expr(c, Expr::StringLit(t));
    lemma_mk_expr_stmts(c, Expr::StringLit(t));
    lemma_mk_expr_stmts(c2, Expr::TToValue(a, Ty::String));
    assert(cur_stmts(lower_expr_spec(ast::Expr::StringLit(t), c).1) =~= cur_stmts(c) + seq![
        Stmt::Compute(a, Expr::StringLit(t)), Stmt::Compute(b, Expr::TToValue(a, Ty::String))]);
    let (_, c3) = c_mk_expr(c, Expr::BoolLit(q));
    lemma_mk_expr_stmts(c, Expr::BoolLit(q));
    lemma_mk_expr_stmts(c3, Expr::TToValue(a, Ty::Bool));
    assert(cur_stmts(lower_expr_spec(ast::Expr::BoolLit(q), c).1) =~= cur_stmts(c) + seq![
        Stmt::Compute(a, Expr::BoolLit(q)), Stmt::Compute(b, Expr::TToValue(a, Ty::Bool))]);
}

/// The first position of `v` among the variables.
fn var_idx(v: Symbol, ctxt: &FnCtxt) -> (r: usize)
    requires
        ctxt.vars@.contains(v),
    ensures
        first_pos(ctxt.vars@, v, r as int),
        r as int == var_index(ctxt.vars@, v),
{
    let mut i: usize = 0;
    while i < ctxt.vars.len()
        invariant
            i <= ctxt.vars@.len(),
            ctxt.vars@.contains(v),
            forall|j: int| 0 <= j < i ==> ctxt.vars@[j] != v,
        decreases ctxt.vars.len() - i,
    {
        if ctxt.vars[i] == v {
            proof {
                assert(first_pos(ctxt.vars@, v, i as int));
                let k = var_index(ctxt.vars@, v);
                assert(k == i) by {
                    if k < i {
                        assert(ctxt.vars@[k] != v);
                    }
                    if k > i {
                        assert(ctxt.vars@[i as int] != v);
                    }
                }
            }
            return i;
        }
        i = i + 1;
    }
    proof {
        let j = choose|j: int| 0 <= j < ctxt.vars@.len() && ctxt.vars@[j] == v;
        assert(ctxt.vars@[j] != v);
    }
    0
}

/// Lowers `e` into computations at the end of the current block and hands
/// back the value that holds its result.
fn lower_expr(e: &ast::Expr, ctxt: &mut FnCtxt) -> (r: ValueId)
    requires
        old(ctxt).wf(),
        ready(old(ctxt).view()),
        expr_lowerable(*e),
        forall|v: Symbol| #[trigger] expr_syms(*e).contains(v) ==> old(ctxt).vars@.contains(v),
    ensures
        final(ctxt).wf(),
        (r, final(ctxt).view()) == lower_expr_spec(*e, old(ctxt).view()),
        ready(final(ctxt).view()),
        grows(old(ctxt).view(), final(ctxt).view()),
        final(ctxt).view().current == old(ctxt).view().current,
        final(ctxt).view().blockvars == old(ctxt).view().blockvars,
    decreases e,
{
    let ghost c0 = ctxt.view();
    proof {
        assert(has_blk(c0.blocks, c0.current));
    }
    let e2 = match e {
        ast::Expr::StringLit(x) => {
            proof { lemma_mk_expr(c0, Expr::StringLit(*x)); }
            let a = ctxt.mk_expr(Expr::StringLit(x.clone()));
            Expr::TToValue(a, Ty::String)
        },
        ast::Expr::IntLit(x) => {
            proof { lemma_mk_expr(c0, Expr::IntLit(*x)); }
            let a = ctxt.mk_expr(Expr::IntLit(*x));
            Expr::TToValue(a, Ty::Int)
        },
        ast::Expr::BoolLit(x) => {
            proof { lemma_mk_expr(c0, Expr::BoolLit(*x)); }
            let a = ctxt.mk_expr(Expr::BoolLit(*x));
            Expr::TToValue(a, Ty::Bool)
        },
        ast::Expr::BinOp(kind, l, r) => {
            assert forall|v: Symbol| #[trigger] expr_syms(**l).contains(v) implies ctxt.vars@.contains(v) by {
                assert(expr_syms(*e).contains(v));
            }
            assert forall|v: Symbol| #[trigger] expr_syms(**r).contains(v) implies ctxt.vars@.contains(v) by {
                assert(expr_syms(*e).contains(v));
            }
            let lv = lower_expr(l, ctxt);
            let rv = lower_expr(r, ctxt);
            proof {
                assert(has_blk(ctxt.view().blocks, ctxt.view().current));
            }
            lower_binop(*kind, lv, rv, ctxt)
        },
        ast::Expr::Var(v) => {
            assert(expr_syms(*e).contains(*v));
            let i = var_idx(*v, ctxt);
            let p = ctxt.blockvars.position(&ctxt.current).unwrap();
            proof {
                crate::assoc::lemma_map_of_entry(ctxt.blockvars.entries@, p as int);
            }
            return ctxt.blockvars.entries[p].1[i];
        },
        _ => {
            return 0;
        },
    };
    let ghost c3 = ctxt.view();
    proof {
        assert(has_blk(c3.blocks, c3.current));
        lemma_mk_expr(c3, e2);
    }
    ctxt.mk_expr(e2)
}

/// The context after lowering a statement.
pub open spec fn lower_stmt_spec(s: ast::Stmt, c: CtxV) -> CtxV
    decreases s, 0nat,
{
    match s {
        ast::Stmt::Print(x) => {
            let (v, c1) = lower_expr_spec(x, c);
            c_push_stmt(c1, Stmt::Print(v))
        },
        ast::Stmt::If(cond, t, f) => {
            let (v0, c1) = lower_expr_spec(cond, c);
            let (cv, c2) = c_mk_expr(c1, Expr::ValueToT(v0, Ty::Bool));
            let (post, c3) = c_fresh_blk(c2);
            let (tb, c4) = lower_blk_spec(t@, Some(post), c3);
            let (eb, c5) = lower_blk_spec(f@, Some(post), c4);
            let x = c_applied(c5, tb);
            let y = c_applied(c5, eb);
            c_focus(c_set_term(c5, TermV::IfGoto(cv, x.0, x.1, y.0, y.1)), post)
        },
        ast::Stmt::While(cond, body) => {
            let (head, c1) = c_fresh_blk(c);
            let (post, c2) = c_fresh_blk(c1);
            let a = c_applied(c2, head);
            let c3 = c_set_term(c2, TermV::Goto(a.0, a.1));
            let (bb, c4) = lower_blk_spec(body@, Some(head), c3);
            let (v0, c5) = lower_expr_spec(cond, c_focus(c4, head));
            let (cv, c6) = c_mk_expr(c5, Expr::ValueToT(v0, Ty::Bool));
            let x = c_applied(c6, bb);
            let y = c_applied(c6, post);
            c_focus(c_set_term(c6, TermV::IfGoto(cv, x.0, x.1, y.0, y.1)), post)
        },
        ast::Stmt::Assign(var, val) => {
            let (v, c1) = lower_expr_spec(val, c);
            let i = var_index(c1.vars, var);
            CtxV { blockvars: c1.blockvars.insert(c1.current, c1.blockvars[c1.current].update(i, v)), ..c1 }
        },
        _ => c,
    }
}

/// The context after lowering the statements `b` one after the other.
pub open spec fn lower_body_spec(b: Seq<ast::Stmt>, c: CtxV) -> CtxV
    decreases b, 0nat,
{
    if b.len() == 0 {
        c
    } else {
        lower_stmt_spec(b.last(), lower_body_spec(b.drop_last(), c))
    }
}

/// The end of lowered statements: a jump to `target` handing on the
/// variables' values where the statements end, or the end of the program.
pub open spec fn end_term(c: CtxV, target: Option<BlkId>) -> TermV {
    match target {
        Some(t) => TermV::Goto(c_applied(c, t).0, c_applied(c, t).1),
        None => TermV::Exit,
    }
}

/// Lowering the statements `b` into a fresh block that ends as `end_term`
/// says: the fresh block's id and the context, focused where it was.
pub open spec fn lower_blk_spec(b: Seq<ast::Stmt>, target: Option<BlkId>, c: CtxV) -> (BlkId, CtxV)
    decreases b, 1nat,
{
    let (new, c1) = c_fresh_blk(c);
    let c2 = lower_body_spec(b, c_focus(c1, new));
    (new, c_focus(c_set_term(c2, end_term(c2, target)), c.current))
}

/// Whether the variables `s` mentions are among `vars`.
pub open spec fn syms_in(s: Set<Symbol>, vars: Seq<Symbol>) -> bool {
    forall|v: Symbol| #[trigger] s.contains(v) ==> vars.contains(v)
}

/// Lowers `stmts` into a fresh block, ending with a jump to `target` that
/// hands on the variables' values where the statements end (or with the end
/// of the program where there is no target), and hands back the block's id;
/// the current block stays where it was.
fn lower_blk(stmts: &Vec<ast::Stmt>, target: Option<BlkId>, ctxt: &mut FnCtxt) -> (r: BlkId)
    requires
        old(ctxt).wf(),
        ctx_inv(old(ctxt).view()),
        body_lowerable(stmts@),
        syms_in(body_syms(stmts@), old(ctxt).vars@),
        target matches Some(t) ==> has_blk(old(ctxt).view().blocks, t),
    ensures
        final(ctxt).wf(),
        (r, final(ctxt).view()) == lower_blk_spec(stmts@, target, old(ctxt).view()),
        ctx_inv(final(ctxt).view()),
        grows(old(ctxt).view(), final(ctxt).view()),
        final(ctxt).view().current == old(ctxt).view().current,
        final(ctxt).view().blockvars.contains_key(r),
    decreases stmts@, 1nat,
{
    let ghost c0 = ctxt.view();
    let old_cur = ctxt.current;
    proof { lemma_fresh_blk(c0); }
    let new = ctxt.fresh_blk();
    ctxt.focus_blk(new);
    let ghost c2 = ctxt.view();
    let mut i: usize = 0;
    while i < stmts.len()
        invariant
            i <= stmts@.len(),
            ctxt.wf(),
            ready(ctxt.view()),
            grows(c0, ctxt.view()),
            grows(c2, ctxt.view()),
            c2.blockvars.contains_key(new),
            body_lowerable(stmts@),
            syms_in(body_syms(stmts@), c0.vars),
            ctxt.view() == lower_body_spec(stmts@.take(i as int), c2),
        decreases stmts.len() - i,
    {
        proof {
            let t = stmts@.take(i + 1);
            assert(t.drop_last() =~= stmts@.take(i as int));
            lemma_body_at(stmts@, i as int);
            assert(stmt_lowerable(stmts@[i as int]));
            assert forall|v: Symbol| #[trigger] stmt_syms(stmts@[i as int]).contains(v) implies ctxt.vars@.contains(v) by {
                assert(body_syms(stmts@).contains(v));
            }
        }
        lower_stmt(&stmts[i], ctxt);
        i = i + 1;
    }
    assert(stmts@.take(stmts@.len() as int) =~= stmts@);
    let ghost c3 = ctxt.view();
    let terminator = match target {
        Some(t) => Terminator::Goto(ctxt.mk_applied_blk(t)),
        None => Terminator::Exit,
    };
    proof {
        assert(has_blk(c3.blocks, c3.current));
        assert(term_view(terminator) == end_term(c3, target));
        assert(targets_in_blks(term_view(terminator), c3.blocks)) by {
            assert forall|b: BlkId| termv_jumps(term_view(terminator), b) implies #[trigger] has_blk(c3.blocks, b) by {
                assert(has_blk(c0.blocks, b));
            }
        }
        lemma_set_term(c3, term_view(terminator));
    }
    ctxt.set_terminator(terminator);
    ctxt.focus_blk(old_cur);
    new
}

/// What holds of a body holds of each of its statements.
proof fn lemma_body_at(b: Seq<ast::Stmt>, i: int)
    requires
        0 <= i < b.len(),
    ensures
        body_lowerable(b) ==> stmt_lowerable(b[i]),
        forall|v: Symbol| #[trigger] stmt_syms(b[i]).contains(v) ==> body_syms(b).contains(v),
    decreases b.len(),
{
    if i < b.len() - 1 {
        lemma_body_at(b.drop_last(), i);
        assert(b.drop_last()[i] == b[i]);
    }
}

/// Lowers `stmt` at the end of the current block.
#[verifier::rlimit(40)]
#[verifier::spinoff_prover]
fn lower_stmt(stmt: &ast::Stmt, ctxt: &mut FnCtxt)
    requires
        old(ctxt).wf(),
        ready(old(ctxt).view()),
        stmt_lowerable(*stmt),
        syms_in(stmt_syms(*stmt), old(ctxt).vars@),
    ensures
        final(ctxt).wf(),
        final(ctxt).view() == lower_stmt_spec(*stmt, old(ctxt).view()),
        ready(final(ctxt).view()),
        grows(old(ctxt).view(), final(ctxt).view()),
    decreases *stmt, 0nat,
{
    let ghost c0 = ctxt.view();
    match stmt {
        ast::Stmt::Print(x) => {
            assert forall|v: Symbol| #[trigger] expr_syms(*x).contains(v) implies ctxt.vars@.contains(v) by {
                assert(stmt_syms(*stmt).contains(v));
            }
            let v = lower_expr(x, ctxt);
            proof {
                assert(has_blk(ctxt.view().blocks, ctxt.view().current));
                lemma_push_stmt(ctxt.view(), Stmt::Print(v));
            }
            ctxt.push_stmt(Stmt::Print(v));
        },
        ast::Stmt::If(cond, then_, else_) => {
            assert forall|v: Symbol| #[trigger] expr_syms(*cond).contains(v) implies ctxt.vars@.contains(v) by {
                assert(stmt_syms(*stmt).contains(v));
            }
            assert forall|v: Symbol| #[trigger] body_syms(then_@).contains(v) implies ctxt.vars@.contains(v) by {
                assert(stmt_syms(*stmt).contains(v));
            }
            assert forall|v: Symbol| #[trigger] body_syms(else_@).contains(v) implies ctxt.vars@.contains(v) by {
                assert(stmt_syms(*stmt).contains(v));
            }
            let c = lower_expr(cond, ctxt);
            proof {
                assert(has_blk(ctxt.view().blocks, ctxt.view().current));
                lemma_mk_expr(ctxt.view(), Expr::ValueToT(c, Ty::Bool));
            }
            let c = ctxt.mk_expr(Expr::ValueToT(c, Ty::Bool));
            proof { lemma_fresh_blk(ctxt.view()); }
            let post = ctxt.fresh_blk();
            let t = lower_blk(then_, Some(post), ctxt);
            let e = lower_blk(else_, Some(post), ctxt);
            let x = ctxt.mk_applied_blk(t);
            let y = ctxt.mk_applied_blk(e);
            let ghost c5 = ctxt.view();
            proof {
                assert(has_blk(c5.blocks, c5.current));
                lemma_set_term(c5, term_view(Terminator::IfGoto(c, x, y)));
            }
            ctxt.set_terminator(Terminator::IfGoto(c, x, y));
            ctxt.focus_blk(post);
        },
        ast::Stmt::While(cond, body) => {
            assert forall|v: Symbol| #[trigger] expr_syms(*cond).contains(v) implies ctxt.vars@.contains(v) by {
                assert(stmt_syms(*stmt).contains(v));
            }
            assert forall|v: Symbol| #[trigger] body_syms(body@).contains(v) implies ctxt.vars@.contains(v) by {
                assert(stmt_syms(*stmt).contains(v));
            }
            proof { lemma_fresh_blk(ctxt.view()); }
            let head = ctxt.fresh_blk();
            proof { lemma_fresh_blk(ctxt.view()); }
            let post = ctxt.fresh_blk();
            let g = ctxt.mk_applied_blk(head);
            proof {
                assert(has_blk(ctxt.view().blocks, ctxt.view().current));
                lemma_set_term(ctxt.view(), term_view(Terminator::Goto(g)));
            }
            ctxt.set_terminator(Terminator::Goto(g));
            let b = lower_blk(body, Some(head), ctxt);
            ctxt.focus_blk(head);
            let c = lower_expr(cond, ctxt);
            proof {
                assert(has_blk(ctxt.view().blocks, ctxt.view().current));
                lemma_mk_expr(ctxt.view(), Expr::ValueToT(c, Ty::Bool));
            }
            let c = ctxt.mk_expr(Expr::ValueToT(c, Ty::Bool));
            let x = ctxt.mk_applied_blk(b);
            let y = ctxt.mk_applied_blk(post);
            let ghost c6 = ctxt.view();
            proof {
                assert(has_blk(c6.blocks, c6.current));
                lemma_set_term(c6, term_view(Terminator::IfGoto(c, x, y)));
            }
            ctxt.set_terminator(Terminator::IfGoto(c, x, y));
            ctxt.focus_blk(post);
        },
        ast::Stmt::Assign(var, val) => {
            assert forall|v: Symbol| #[trigger] expr_syms(*val).contains(v) implies ctxt.vars@.contains(v) by {
                assert(stmt_syms(*stmt).contains(v));
            }
            let v = lower_expr(val, ctxt);
            assert(stmt_syms(*stmt).contains(*var));
            let i = var_idx(*var, ctxt);
            let p = ctxt.blockvars.position(&ctxt.current).unwrap();
            let ghost e1 = ctxt.blockvars.entries@;
            proof {
                crate::assoc::lemma_map_of_entry(e1, p as int);
            }
            ctxt.blockvars.entries[p].1.set(i, v);
            proof {
                crate::assoc::lemma_map_of_update(e1, p as int, ctxt.blockvars.entries@[p as int].1);
                assert(ctxt.blockvars.entries@ =~= e1.update(p as int, (e1[p as int].0, ctxt.blockvars.entries@[p as int].1)));
                assert(ctxt.view().blockvars =~= lower_stmt_spec(*stmt, c0).blockvars);
            }
        },
        _ => {},
    }
}

/// Whether the symbols `s` are in strictly increasing order of index.
pub open spec fn sorted_syms(s: Seq<Symbol>) -> bool {
    forall|i: int, j: int| 0 <= i < j < s.len() ==> (#[trigger] s[i]).index() < (#[trigger] s[j]).index()
}

/// Adds `x` to the ordered set `out`.
fn insert_sorted(out: &mut Vec<Symbol>, x: Symbol)
    requires
        sorted_syms(old(out)@),
    ensures
        sorted_syms(final(out)@),
        forall|v: Symbol| #[trigger] final(out)@.contains(v) <==> old(out)@.contains(v) || v == x,
{
    let mut i: usize = 0;
    while i < out.len() && out[i].id() < x.id()
        invariant
            i <= out@.len(),
            sorted_syms(out@),
            forall|j: int| 0 <= j < i ==> (#[trigger] out@[j]).index() < x.index(),
        decreases out.len() - i,
    {
        i = i + 1;
    }
    if i < out.len() && out[i].id() == x.id() {
        proof {
            Symbol::lemma_index_injective(out@[i as int], x);
        }
        return;
    }
    let ghost o = out@;
    out.insert(i, x);
    proof {
        assert(out@ =~= o.take(i as int).push(x) + o.skip(i as int));
        assert forall|a: int, b: int| 0 <= a < b < out@.len() implies (#[trigger] out@[a]).index() < (#[trigger] out@[b]).index() by {
            if b < i {
            } else if a < i && b == i {
            } else if a < i {
                assert(out@[b] == o[b - 1]);
            } else if a == i {
                assert(out@[b] == o[b - 1]);
                assert(o[i as int].index() > x.index());
                if b - 1 > i {
                    assert(o[i as int].index() < o[b - 1].index());
                }
            } else {
                assert(out@[a] == o[a - 1]);
                assert(out@[b] == o[b - 1]);
            }
        }
        assert forall|v: Symbol| #[trigger] out@.contains(v) <==> o.contains(v) || v == x by {
            if o.contains(v) {
                let k = choose|k: int| 0 <= k < o.len() && o[k] == v;
                if k < i {
                    assert(out@[k] == v);
                } else {
                    assert(out@[k + 1] == v);
                }
            }
            if out@.contains(v) {
                let k = choose|k: int| 0 <= k < out@.len() && out@[k] == v;
                if k < i {
                    assert(o[k] == v);
                } else if k > i {
                    assert(o[k - 1] == v);
                }
            }
            assert(out@[i as int] == x);
        }
    }
}

/// Adds the variables `e` mentions to `out`.
fn get_vars2_expr(e: &ast::Expr, out: &mut Vec<Symbol>)
    requires
        sorted_syms(old(out)@),
    ensures
        sorted_syms(final(out)@),
        forall|v: Symbol| #[trigger] final(out)@.contains(v) <==> old(out)@.contains(v) || expr_syms(*e).contains(v),
    decreases *e,
{
    match e {
        ast::Expr::Var(v) => {
            insert_sorted(out, *v);
        },
        ast::Expr::IndexList(e1, e2) | ast::Expr::IndexDict(e1, e2) | ast::Expr::BinOp(_, e1, e2) => {
            get_vars2_expr(e1, out);
            get_vars2_expr(e2, out);
        },
        ast::Expr::Length(e1) => {
            get_vars2_expr(e1, out);
        },
        ast::Expr::FnCall(f, args) => {
            get_vars2_expr(f, out);
            let ghost o1 = out@;
            let mut i: usize = 0;
            while i < args.len()
                invariant
                    i <= args.len(),
                    sorted_syms(out@),
                    *e is FnCall,
                    (*e)->FnCall_1 == *args,
                    forall|v: Symbol| #[trigger] out@.contains(v) <==> o1.contains(v) || exprs_syms(args@.take(i as int)).contains(v),
                decreases args.len() - i,
            {
                proof {
                    assert(args@.take(i as int + 1).drop_last() =~= args@.take(i as int));
                    assert(decreases_to!(*e => (*e)->FnCall_1));
                    assert(decreases_to!((*e)->FnCall_1 => (*e)->FnCall_1@));
                    assert(decreases_to!(args@ => args@[i as int]));
                }
                get_vars2_expr(&args[i], out);
                proof {
                    assert(args@.take(i as int + 1).last() == args@[i as int]);
                }
                i = i + 1;
            }
            assert(args@.take(args.len() as int) =~= args@);
        },
        _ => {},
    }
}

/// Adds the variables `body` mentions to `out`.
fn get_vars2(body: &Vec<ast::Stmt>, out: &mut Vec<Symbol>)
    requires
        sorted_syms(old(out)@),
    ensures
        sorted_syms(final(out)@),
        forall|v: Symbol| #[trigger] final(out)@.contains(v) <==> old(out)@.contains(v) || body_syms(body@).contains(v),
    decreases body@,
{
    let ghost o0 = out@;
    let mut i: usize = 0;
    while i < body.len()
        invariant
            i <= body@.len(),
            sorted_syms(out@),
            forall|v: Symbol| #[trigger] out@.contains(v) <==> o0.contains(v) || body_syms(body@.take(i as int)).contains(v),
        decreases body.len() - i,
    {
        proof {
            assert(body@.take(i as int + 1).drop_last() =~= body@.take(i as int));
            assert(body@.take(i as int + 1).last() == body@[i as int]);
        }
        let ghost ob = out@;
        match &body[i] {
            ast::Stmt::Global(s) => {
                insert_sorted(out, *s);
            },
            ast::Stmt::Return(e) | ast::Stmt::Print(e) => {
                get_vars2_expr(e, out);
            },
            ast::Stmt::Assign(v, e) => {
                insert_sorted(out, *v);
                get_vars2_expr(e, out);
            },
            ast::Stmt::Push(e1, e2) => {
                get_vars2_expr(e1, out);
                get_vars2_expr(e2, out);
            },
            ast::Stmt::ListStore(e1, e2, e3) | ast::Stmt::DictStore(e1, e2, e3) => {
                get_vars2_expr(e1, out);
                get_vars2_expr(e2, out);
                get_vars2_expr(e3, out);
            },
            ast::Stmt::If(e, b1, b2) => {
                get_vars2_expr(e, out);
                get_vars2(b1, out);
                get_vars2(b2, out);
            },
            ast::Stmt::While(e, b) => {
                get_vars2_expr(e, out);
                get_vars2(b, out);
            },
        }
        assert forall|v: Symbol| #[trigger] out@.contains(v) <==> ob.contains(v) || stmt_syms(body@[i as int]).contains(v) by {
        }
        i = i + 1;
    }
    assert(body@.take(body.len() as int) =~= body@);
}

/// Whether `vs` lists, in increasing order of index, the arguments `args`
/// and the variables `body` mentions.
pub open spec fn is_var_list(vs: Seq<Symbol>, args: Seq<Symbol>, body: Seq<ast::Stmt>) -> bool {
    &&& sorted_syms(vs)
    &&& forall|v: Symbol| #[trigger] vs.contains(v) <==> args.contains(v) || body_syms(body).contains(v)
}

/// The arguments and the variables `body` mentions, in increasing order of
/// index.
fn get_vars(args: &Vec<Symbol>, body: &Vec<ast::Stmt>) -> (r: Vec<Symbol>)
    ensures
        is_var_list(r@, args@, body@),
{
    let mut out: Vec<Symbol> = Vec::new();
    let mut i: usize = 0;
    while i < args.len()
        invariant
            i <= args@.len(),
            sorted_syms(out@),
            forall|v: Symbol| #[trigger] out@.contains(v) <==> args@.take(i as int).contains(v),
        decreases args.len() - i,
    {
        proof {
            crate::seqs::lemma_take_one_more(args@, i as int);
        }
        insert_sorted(&mut out, args[i]);
        i = i + 1;
    }
    assert(args@.take(args@.len() as int) =~= args@);
    get_vars2(body, &mut out);
    out
}

/// Two ordered lists of the same symbols are equal.
pub proof fn lemma_sorted_same(a: Seq<Symbol>, b: Seq<Symbol>)
    requires
        sorted_syms(a),
        sorted_syms(b),
        forall|v: Symbol| #[trigger] a.contains(v) <==> b.contains(v),
    ensures
        a == b,
    decreases a.len(),
{
    if a.len() == 0 {
        if b.len() > 0 {
            assert(b.contains(b[0]));
            assert(a.contains(b[0]));
        }
        assert(a =~= b);
    } else {
        assert(a.contains(a[0]));
        let k = choose|k: int| 0 <= k < b.len() && b[k] == a[0];
        assert(b.contains(b[0]));
        assert(a.contains(b[0]));
        let m = choose|m: int| 0 <= m < a.len() && a[m] == b[0];
        assert(b[0].index() <= a[0].index()) by {
            if k > 0 {
                assert(b[0].index() < b[k].index());
            }
        }
        assert(a[0].index() <= b[0].index()) by {
            if m > 0 {
                assert(a[0].index() < a[m].index());
            }
        }
        Symbol::lemma_index_injective(a[0], b[0]);
        let a1 = a.drop_first();
        let b1 = b.drop_first();
        assert forall|v: Symbol| #[trigger] a1.contains(v) <==> b1.contains(v) by {
            if a1.contains(v) {
                let i = choose|i: int| 0 <= i < a1.len() && a1[i] == v;
                assert(a[i + 1] == v);
                assert(a[0].index() < a[i + 1].index());
                assert(a.contains(v));
                assert(b.contains(v));
                let j = choose|j: int| 0 <= j < b.len() && b[j] == v;
                assert(j != 0);
                assert(b1[j - 1] == v);
            }
            if b1.contains(v) {
                let i = choose|i: int| 0 <= i < b1.len() && b1[i] == v;
                assert(b[i + 1] == v);
                assert(b[0].index() < b[i + 1].index());
                assert(a.contains(v));
                let j = choose|j: int| 0 <= j < a.len() && a[j] == v;
                assert(j != 0);
                assert(a1[j - 1] == v);
            }
        }
        assert(sorted_syms(a1)) by {
            assert forall|i: int, j: int| 0 <= i < j < a1.len() implies (#[trigger] a1[i]).index() < (#[trigger] a1[j]).index() by {
                assert(a[i + 1].index() < a[j + 1].index());
            }
        }
        assert(sorted_syms(b1)) by {
            assert forall|i: int, j: int| 0 <= i < j < b1.len() implies (#[trigger] b1[i]).index() < (#[trigger] b1[j]).index() by {
                assert(b[i + 1].index() < b[j + 1].index());
            }
        }
        lemma_sorted_same(a1, b1);
        assert(a =~= b) by {
            assert forall|i: int| 0 <= i < a.len() implies a[i] == b[i] by {
                if i > 0 {
                    assert(a[i] == a1[i - 1]);
                    assert(b[i] == b1[i - 1]);
                }
            }
        }
    }
}

/// The variables of a function with arguments `args` and body `body`: the
/// arguments and the variables the body mentions, in increasing order of
/// index.
pub open spec fn var_list(args: Seq<Symbol>, body: Seq<ast::Stmt>) -> Seq<Symbol> {
    choose|vs: Seq<Symbol>| is_var_list(vs, args, body)
}

/// The `k`-th id handed out from `c`.
pub open spec fn nth_id(c: usize, k: nat) -> usize
    decreases k,
{
    if k == 0 {
        c
    } else {
        next_id(nth_id(c, (k - 1) as nat))
    }
}

/// The start block of a function: its arguments, and `nil1` computed as
/// nil and `nil2` as nil wrapped into a `Value`.
pub open spec fn start_blk(args_v: Seq<ValueId>, nil1: ValueId, nil2: ValueId) -> BlkV {
    BlkV {
        stmts: seq![Stmt::Compute(nil1, Expr::NilLit), Stmt::Compute(nil2, Expr::TToValue(nil1, Ty::Nil))],
        term: TermV::Exit,
        args: args_v,
        types: seq![(nil1, Ty::Nil), (nil2, Ty::Value)],
    }
}

/// The initial values of the variables: each argument's value, and nil
/// (`nil2`) for the others.
pub open spec fn entry_vals(vars: Seq<Symbol>, args: Seq<Symbol>, args_v: Seq<ValueId>, nil2: ValueId) -> Seq<ValueId> {
    Seq::new(vars.len(), |k: int| if args.contains(vars[k]) {
        args_v[choose|i: int| first_pos(args, vars[k], i)]
    } else {
        nil2
    })
}

/// Lowering a function with ids handed out from `c`: the function's id, its
/// start block, its blocks and the next id.  The ids handed out first are
/// those of the function, the start block, the two nil values and the
/// arguments; the body goes into a fresh block that the start block jumps
/// to with the initial values of the variables, and that ends the program.
pub open spec fn lower_fn_spec(args: Seq<Symbol>, body: Seq<ast::Stmt>, c: usize) -> (FnId, BlkId, Seq<(BlkId, BlkV)>, usize) {
    let vars = var_list(args, body);
    let fname = c;
    let start = nth_id(c, 1);
    let nil1 = nth_id(c, 2);
    let nil2 = nth_id(c, 3);
    let args_v = Seq::new(args.len(), |j: int| nth_id(c, (4 + j) as nat));
    let c0 = CtxV {
        vars: vars,
        blocks: seq![(start, start_blk(args_v, nil1, nil2))],
        blockvars: Map::empty(),
        current: start,
        next: nth_id(c, 4 + args.len()),
    };
    let (b2, c1) = lower_blk_spec(body, None, c0);
    let c2 = c_set_term(c1, TermV::Goto(b2, entry_vals(vars, args, args_v, nil2)));
    (fname, start, c2.blocks, c2.next)
}

/// The first position of `x` in `s`, if any.
fn position_of(s: &Vec<Symbol>, x: Symbol) -> (r: Option<usize>)
    ensures
        r matches Some(i) ==> first_pos(s@, x, i as int),
        r is None ==> !s@.contains(x),
{
    let mut i: usize = 0;
    while i < s.len()
        invariant
            i <= s@.len(),
            forall|m: int| 0 <= m < i ==> s@[m] != x,
        decreases s.len() - i,
    {
        if s[i] == x {
            return Some(i);
        }
        i = i + 1;
    }
    None
}

/// The first position is unique.
proof fn lemma_first_pos_unique(s: Seq<Symbol>, x: Symbol, i: int, j: int)
    requires
        first_pos(s, x, i) || (s.contains(x) && i == choose|q: int| first_pos(s, x, q)),
        first_pos(s, x, j),
    ensures
        i == j,
        first_pos(s, x, i),
{
    if !first_pos(s, x, i) {
        assert(first_pos(s, x, j));
    }
    assert(first_pos(s, x, i));
    if i < j {
        assert(s[i] != x);
    } else if j < i {
        assert(s[j] != x);
    }
}

/// Valid blocks with distinct ids and an existing start block make a
/// function that can be compiled.
proof fn lemma_fn_ok(d: FnDef)
    requires
        d.blocks.wf(),
        blocks_ok(blks_view(d.blocks.entries@)),
        has_blk(blks_view(d.blocks.entries@), d.start),
    ensures
        crate::comp::fn_compilable(d),
{
    let es = d.blocks.entries@;
    let v = blks_view(es);
    lemma_blks_keys(es);
    crate::assoc::lemma_map_of_dom(es);
    let k = choose|k: int| 0 <= k < v.len() && v[k].0 == d.start;
    assert(es[k].0 == d.start);
    assert forall|i: int| 0 <= i < es.len() implies {
        let bd = (#[trigger] es[i]).1;
        &&& forall|j: int| 0 <= j < bd.stmts@.len() ==> crate::comp::stmt_compilable(#[trigger] bd.stmts@[j])
        &&& forall|b: BlkId| crate::comp::jumps_to(bd.terminator, b) ==> #[trigger] d.blocks.view().contains_key(b)
    } by {
        let bd = es[i].1;
        assert(v[i].1 == blk_view(bd));
        assert forall|j: int| 0 <= j < bd.stmts@.len() implies crate::comp::stmt_compilable(#[trigger] bd.stmts@[j]) by {
            assert(v[i].1.stmts[j] == bd.stmts@[j]);
        }
        assert forall|b: BlkId| crate::comp::jumps_to(bd.terminator, b) implies #[trigger] d.blocks.view().contains_key(b) by {
            assert(termv_jumps(v[i].1.term, b));
            assert(has_blk(v, b));
            let q = choose|q: int| 0 <= q < v.len() && v[q].0 == b;
            assert(es[q].0 == b);
        }
    }
}

/// Lowers a function with arguments `args` and body `body` into `ir`, handing
/// out ids from `counter`; the new function's id comes first.
#[verifier::rlimit(40)]
#[verifier::spinoff_prover]
fn lower_fn(args: &Vec<Symbol>, body: &Vec<ast::Stmt>, ir: IR, counter: &mut usize) -> (r: (FnId, IR))
    requires
        ir.fns.wf(),
        body_lowerable(body@),
    ensures
        r.0 == lower_fn_spec(args@, body@, *old(counter)).0,
        *final(counter) == lower_fn_spec(args@, body@, *old(counter)).3,
        r.1.fns.wf(),
        r.1.fns.view().contains_key(r.0),
        r.1.fns.view()[r.0].start == lower_fn_spec(args@, body@, *old(counter)).1,
        r.1.fns.view()[r.0].retty == Ty::Value,
        blks_view(r.1.fns.view()[r.0].blocks.entries@) == lower_fn_spec(args@, body@, *old(counter)).2,
        r.1.fns.entries@ == insert_entry(ir.fns.entries@, r.0, r.1.fns.view()[r.0]),
        r.1.start == ir.start,
        r.1.global_types == ir.global_types,
        crate::comp::fn_compilable(r.1.fns.view()[r.0]),
{
    let ghost c = *counter;
    let vars = get_vars(args, body);
    proof {
        lemma_sorted_same(vars@, var_list(args@, body@));
    }
    let fname = fresh(counter);
    let start = fresh(counter);
    let nil1 = fresh(counter);
    let nil2 = fresh(counter);
    assert(fname == nth_id(c, 0) && start == nth_id(c, 1) && nil1 == nth_id(c, 2) && nil2 == nth_id(c, 3)
        && *counter == nth_id(c, 4)) by {
        reveal_with_fuel(nth_id, 5);
    }
    assert(nil1 != nil2);
    let mut types: AssocMap<ValueId, Ty> = AssocMap::new();
    types.insert(nil1, Ty::Nil);
    types.insert(nil2, Ty::Value);
    assert(types.entries@ =~= seq![(nil1, Ty::Nil), (nil2, Ty::Value)]);
    let mut args_v: Vec<ValueId> = Vec::new();
    let mut j: usize = 0;
    while j < args.len()
        invariant
            j <= args@.len(),
            *counter == nth_id(c, (4 + j) as nat),
            args_v@ == Seq::new(j as nat, |k: int| nth_id(c, (4 + k) as nat)),
        decreases args.len() - j,
    {
        let v = fresh(counter);
        args_v.push(v);
        assert(args_v@ =~= Seq::new((j + 1) as nat, |k: int| nth_id(c, (4 + k) as nat)));
        j = j + 1;
    }
    let sb = BlkDef {
        args: copy_vals(&args_v),
        stmts: vec![Stmt::Compute(nil1, Expr::NilLit), Stmt::Compute(nil2, Expr::TToValue(nil1, Ty::Nil))],
        terminator: Terminator::Exit,
        types,
    };
    let mut blocks: AssocMap<BlkId, BlkDef> = AssocMap::new();
    blocks.insert(start, sb);
    assert(blocks.entries@ =~= seq![(start, sb)]);
    let mut ctxt = FnCtxt { vars, blocks, blockvars: AssocMap::new(), current: start, next: *counter };
    let ghost args_vs = Seq::new(args@.len(), |k: int| nth_id(c, (4 + k) as nat));
    assert(args_v@ =~= args_vs);
    proof {
        assert(sb.stmts@ =~= seq![Stmt::Compute(nil1, Expr::NilLit), Stmt::Compute(nil2, Expr::TToValue(nil1, Ty::Nil))]);
        assert(blk_view(sb) == start_blk(args_vs, nil1, nil2));
        assert(ctxt.view().blocks =~= seq![(start, start_blk(args_vs, nil1, nil2))]);
        assert(ctxt.view().blockvars =~= Map::empty());
        assert(ctxt.wf()) by {
            assert(ctxt.blocks.entries@[0].1.types.wf());
        }
        assert(ctxt.view() == CtxV {
            vars: var_list(args@, body@),
            blocks: seq![(start, start_blk(args_vs, nil1, nil2))],
            blockvars: Map::empty(),
            current: start,
            next: nth_id(c, 4 + args@.len()),
        });
        assert(ctx_inv(ctxt.view()));
        assert(syms_in(body_syms(body@), ctxt.vars@)) by {
            assert forall|v: Symbol| #[trigger] body_syms(body@).contains(v) implies ctxt.vars@.contains(v) by {
                assert(is_var_list(vars@, args@, body@));
            }
        }
    }
    let ghost c0 = ctxt.view();
    assert(has_blk(c0.blocks, start)) by {
        assert(c0.blocks[0].0 == start);
    }
    let b2 = lower_blk(body, None, &mut ctxt);
    let mut app: Vec<ValueId> = Vec::new();
    let ghost ev = entry_vals(ctxt.vars@, args@, args_vs, nil2);
    let mut k: usize = 0;
    while k < ctxt.vars.len()
        invariant
            k <= ctxt.vars@.len(),
            args_v@ == args_vs,
            args_vs.len() == args@.len(),
            ev == entry_vals(ctxt.vars@, args@, args_vs, nil2),
            app@ == ev.take(k as int),
        decreases ctxt.vars.len() - k,
    {
        let x = ctxt.vars[k];
        match position_of(args, x) {
            Some(i) => {
                proof {
                    assert(args@.contains(x));
                    let q = choose|q: int| first_pos(args@, x, q);
                    lemma_first_pos_unique(args@, x, q, i as int);
                }
                app.push(args_v[i]);
            },
            None => {
                app.push(nil2);
            },
        }
        assert(app@ =~= ev.take(k + 1));
        k = k + 1;
    }
    assert(ev.take(ctxt.vars@.len() as int) =~= ev);
    let ghost c1 = ctxt.view();
    proof {
        lemma_blks_keys(ctxt.blocks.entries@);
        assert(has_blk(c1.blocks, c1.current));
        assert((b2, c1) == lower_blk_spec(body@, None, c0));
        assert(c1.vars == var_list(args@, body@));
    }
    proof {
        assert(targets_in_blks(term_view(Terminator::Goto((b2, app))), c1.blocks)) by {
            assert forall|b: BlkId| termv_jumps(term_view(Terminator::Goto((b2, app))), b) implies #[trigger] has_blk(c1.blocks, b) by {
                assert(c1.blockvars.contains_key(b2));
            }
        }
        lemma_set_term(c1, term_view(Terminator::Goto((b2, app))));
    }
    ctxt.set_terminator(Terminator::Goto((b2, app)));
    assert(ctxt.view().blocks == lower_fn_spec(args@, body@, c).2);
    proof {
        lemma_blks_keys(ctxt.blocks.entries@);
        assert(has_blk(ctxt.view().blocks, start));
    }
    *counter = ctxt.next;
    let fdef = FnDef { blocks: ctxt.blocks, start, retty: Ty::Value };
    proof {
        lemma_fn_ok(fdef);
    }
    let mut ir = ir;
    let ghost f0 = ir.fns.entries@;
    ir.fns.insert(fname, fdef);
    proof {
        crate::assoc::lemma_insert_entry(f0, fname, fdef);
        let q = choose|q: int| 0 <= q < ir.fns.entries@.len() && #[trigger] ir.fns.entries@[q] == (fname, fdef);
        crate::assoc::lemma_map_of_entry(ir.fns.entries@, q);
    }
    (fname, ir)
}

/// Lowers the main function of `ast` (as a function without arguments)
/// into a program of one function, with ids handed out from 0.
pub fn lower(ast: &ast::AST) -> (r: IR)
    requires
        ast.main_fn < ast.fns@.len(),
        body_lowerable(ast.fns@[ast.main_fn as int].body@),
    ensures
        r.fns.wf(),
        r.fns.entries@.len() == 1,
        r.start == r.fns.entries@[0].0,
        r.start == lower_fn_spec(Seq::empty(), ast.fns@[ast.main_fn as int].body@, 0).0,
        r.fns.entries@[0].1.start == lower_fn_spec(Seq::empty(), ast.fns@[ast.main_fn as int].body@, 0).1,
        r.fns.entries@[0].1.retty == Ty::Value,
        blks_view(r.fns.entries@[0].1.blocks.entries@) == lower_fn_spec(Seq::empty(), ast.fns@[ast.main_fn as int].body@, 0).2,
        r.global_types.entries@.len() == 0,
        crate::comp::compilable(r),
{
    let ir = IR { fns: AssocMap::new(), global_types: AssocMap::new(), start: 0 };
    let mut counter: usize = 0;
    let no_args: Vec<Symbol> = Vec::new();
    assert(no_args@ =~= Seq::<Symbol>::empty());
    let (start, mut ir) = lower_fn(&no_args, &ast.fns[ast.main_fn].body, ir, &mut counter);
    ir.start = start;
    proof {
        assert(ir.fns.entries@.len() == 1);
        crate::assoc::lemma_map_of_entry(ir.fns.entries@, 0);
    }
    ir
}

/// Whether lowering handles `e`.
pub fn is_expr_lowerable(e: &ast::Expr) -> (r: bool)
    ensures
        r == expr_lowerable(*e),
    decreases *e,
{
    match e {
        ast::Expr::StringLit(_) | ast::Expr::IntLit(_) | ast::Expr::BoolLit(_) | ast::Expr::Var(_) => true,
        ast::Expr::BinOp(k, a, b) => *k != BinOpKind::Mul && is_expr_lowerable(a) && is_expr_lowerable(b),
        _ => false,
    }
}

/// Whether lowering handles every statement of `b`.
pub fn is_body_lowerable(b: &Vec<ast::Stmt>) -> (r: bool)
    ensures
        r == body_lowerable(b@),
    decreases b@,
{
    let mut i: usize = 0;
    while i < b.len()
        invariant
            i <= b@.len(),
            body_lowerable(b@.take(i as int)),
        decreases b.len() - i,
    {
        assert(b@.take(i + 1).drop_last() =~= b@.take(i as int));
        let ok = match &b[i] {
            ast::Stmt::Print(e) => is_expr_lowerable(e),
            ast::Stmt::Assign(_, e) => is_expr_lowerable(e),
            ast::Stmt::If(e, t, f) => is_expr_lowerable(e) && is_body_lowerable(t) && is_body_lowerable(f),
            ast::Stmt::While(e, body) => is_expr_lowerable(e) && is_body_lowerable(body),
            _ => false,
        };
        assert(ok == stmt_lowerable(b@[i as int]));
        if !ok {
            proof {
                lemma_body_at(b@, i as int);
            }
            return false;
        }
        assert(b@.take(i + 1).last() == b@[i as int]);
        i = i + 1;
    }
    assert(b@.take(b@.len() as int) =~= b@);
    true
}

} // verus!
