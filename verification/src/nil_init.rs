use vstd::prelude::*;
use crate::ast::{AST, Body, Expr, FnDef, Stmt};
use crate::nameres::{Nameres, VarKind, vec_contains};
use crate::symbol::Symbol;

verus! {

/// `v = nil`
pub open spec fn assign_nil(v: Symbol) -> Stmt {
    Stmt::Assign(v, Expr::NilLit)
}

/// The `v = nil` statements that start a function for its local variables
/// that are not arguments: one per such entry of `entries`, the last entry
/// first.
pub open spec fn local_inits(entries: Seq<(Symbol, VarKind)>, args: Seq<Symbol>) -> Seq<Stmt>
    decreases entries.len(),
{
    if entries.len() == 0 {
        Seq::empty()
    } else {
        let e = entries.last();
        (if e.1 == VarKind::Local && !args.contains(e.0) {
            seq![assign_nil(e.0)]
        } else {
            Seq::empty()
        }) + local_inits(entries.drop_last(), args)
    }
}

/// The `g = nil` statements for the globals, the last one first.
pub open spec fn global_inits(globals: Seq<Symbol>) -> Seq<Stmt>
    decreases globals.len(),
{
    if globals.len() == 0 {
        Seq::empty()
    } else {
        seq![assign_nil(globals.last())] + global_inits(globals.drop_last())
    }
}

/// Whether `s` is `v = nil` for some `v`.
pub open spec fn is_nil_assign(s: Stmt) -> bool {
    s matches Stmt::Assign(_, Expr::NilLit)
}

/// The local initialisations are all `v = nil`, and there is one for each
/// local entry that is not an argument.
proof fn lemma_local_inits(entries: Seq<(Symbol, VarKind)>, args: Seq<Symbol>)
    ensures
        forall|j: int| 0 <= j < local_inits(entries, args).len() ==> is_nil_assign(#[trigger] local_inits(entries, args)[j]),
        forall|i: int| 0 <= i < entries.len() && (#[trigger] entries[i]).1 == VarKind::Local && !args.contains(entries[i].0)
            ==> local_inits(entries, args).contains(assign_nil(entries[i].0)),
    decreases entries.len(),
{
    if entries.len() > 0 {
        let e = entries.last();
        let rest = entries.drop_last();
        lemma_local_inits(rest, args);
        let head = if e.1 == VarKind::Local && !args.contains(e.0) { seq![assign_nil(e.0)] } else { Seq::empty() };
        let all = local_inits(entries, args);
        assert(all == head + local_inits(rest, args));
        assert forall|i: int| 0 <= i < entries.len() && (#[trigger] entries[i]).1 == VarKind::Local && !args.contains(entries[i].0)
            implies all.contains(assign_nil(entries[i].0)) by {
            if i == entries.len() - 1 {
                assert(all[0] == assign_nil(entries[i].0));
            } else {
                assert(rest[i] == entries[i]);
                let j = choose|j: int| 0 <= j < local_inits(rest, args).len() && local_inits(rest, args)[j] == assign_nil(rest[i].0);
                assert(all[head.len() + j] == assign_nil(entries[i].0));
            }
        }
        assert forall|j: int| 0 <= j < all.len() implies is_nil_assign(#[trigger] all[j]) by {
            if j >= head.len() {
                assert(all[j] == local_inits(rest, args)[j - head.len()]);
            }
        }
    }
}

/// The global initialisations are all `v = nil`, one for each global.
proof fn lemma_global_inits(globals: Seq<Symbol>)
    ensures
        forall|j: int| 0 <= j < global_inits(globals).len() ==> is_nil_assign(#[trigger] global_inits(globals)[j]),
        forall|i: int| 0 <= i < globals.len() ==> global_inits(globals).contains(assign_nil(#[trigger] globals[i])),
    decreases globals.len(),
{
    if globals.len() > 0 {
        let rest = globals.drop_last();
        lemma_global_inits(rest);
        let all = global_inits(globals);
        assert forall|i: int| 0 <= i < globals.len() implies all.contains(assign_nil(#[trigger] globals[i])) by {
            if i == globals.len() - 1 {
                assert(all[0] == assign_nil(globals[i]));
            } else {
                assert(rest[i] == globals[i]);
                let j = choose|j: int| 0 <= j < global_inits(rest).len() && global_inits(rest)[j] == assign_nil(rest[i]);
                assert(all[1 + j] == assign_nil(globals[i]));
            }
        }
        assert forall|j: int| 0 <= j < all.len() implies is_nil_assign(#[trigger] all[j]) by {
            if j >= 1 {
                assert(all[j] == global_inits(rest)[j - 1]);
            }
        }
    }
}

/// What `nil_init` makes of a function: it starts with `v = nil`
/// statements only, among them one for every local variable of the function
/// that is not an argument and, in the entry function, one for every
/// global; then comes the function's own body unchanged; then a final
/// `return nil`.
pub proof fn lemma_nil_init_shape(ast: AST, nameres: Nameres, fid: int)
    requires
        0 <= fid < ast.fns@.len(),
        fid < nameres.vars@.len(),
        nameres.vars@[fid].wf(),
    ensures
        ({
            let b = nil_init_body(ast, nameres, fid);
            let body = ast.fns@[fid].body@;
            let k = b.len() - body.len() - 1;
            &&& k >= 0
            &&& b.last() == Stmt::Return(Expr::NilLit)
            &&& b.subrange(k, b.len() - 1) == body
            &&& forall|i: int| 0 <= i < k ==> is_nil_assign(#[trigger] b[i])
            &&& forall|x: Symbol| #[trigger] nameres.vars@[fid].view().contains_key(x)
                && nameres.vars@[fid].view()[x] == VarKind::Local && !ast.fns@[fid].args@.contains(x)
                ==> b.take(k).contains(assign_nil(x))
            &&& fid == ast.main_fn ==> forall|g: Symbol| #[trigger] nameres.globals@.contains(g)
                ==> b.take(k).contains(assign_nil(g))
        }),
{
    let f = ast.fns@[fid];
    let entries = nameres.vars@[fid].entries@;
    let li = local_inits(entries, f.args@);
    let gi = if fid == ast.main_fn { global_inits(nameres.globals@) } else { Seq::empty() };
    let pre = li + gi;
    let b = nil_init_body(ast, nameres, fid);
    lemma_local_inits(entries, f.args@);
    lemma_global_inits(nameres.globals@);
    assert(b == pre + f.body@ + seq![Stmt::Return(Expr::NilLit)]);
    let k = b.len() - f.body@.len() - 1;
    assert(k == pre.len());
    assert(b.take(k) =~= pre);
    assert(b.subrange(k, b.len() - 1) =~= f.body@);
    assert forall|i: int| 0 <= i < k implies is_nil_assign(#[trigger] b[i]) by {
        assert(b[i] == pre[i]);
        if i >= li.len() {
            assert(pre[i] == gi[i - li.len()]);
        }
    }
    assert forall|x: Symbol| #[trigger] nameres.vars@[fid].view().contains_key(x)
        && nameres.vars@[fid].view()[x] == VarKind::Local && !f.args@.contains(x)
        implies b.take(k).contains(assign_nil(x)) by {
        crate::assoc::lemma_map_of_dom(entries);
        let i = choose|i: int| 0 <= i < entries.len() && entries[i].0 == x;
        crate::assoc::lemma_map_of_entry(entries, i);
        assert(entries[i].1 == VarKind::Local);
        let j = choose|j: int| 0 <= j < li.len() && li[j] == assign_nil(entries[i].0);
        assert(pre[j] == assign_nil(x));
    }
    if fid == ast.main_fn {
        assert forall|g: Symbol| #[trigger] nameres.globals@.contains(g) implies b.take(k).contains(assign_nil(g)) by {
            let i = choose|i: int| 0 <= i < nameres.globals@.len() && nameres.globals@[i] == g;
            let j = choose|j: int| 0 <= j < gi.len() && gi[j] == assign_nil(nameres.globals@[i]);
            assert(pre[li.len() + j] == assign_nil(g));
        }
    }
}

/// The body that `nil_init` gives the function `fid`.
pub open spec fn nil_init_body(ast: AST, nameres: Nameres, fid: int) -> Seq<Stmt> {
    let f = ast.fns@[fid];
    local_inits(nameres.vars@[fid].entries@, f.args@)
        + (if fid == ast.main_fn { global_inits(nameres.globals@) } else { Seq::empty() })
        + f.body@
        + seq![Stmt::Return(Expr::NilLit)]
}

/// Makes every variable start as `nil` and every function end by returning
/// `nil`: each body gets a final `return nil`, the entry function starts by
/// setting every global to `nil`, and every function then starts by setting
/// each of its local variables that is not an argument to `nil`.
pub fn nil_init(ast: &mut AST, nameres: &Nameres)
    requires
        old(ast).main_fn < old(ast).fns.len(),
        nameres.vars@.len() >= old(ast).fns.len(),
    ensures
        final(ast).main_fn == old(ast).main_fn,
        final(ast).fns@.len() == old(ast).fns@.len(),
        forall|i: int| 0 <= i < final(ast).fns@.len() ==> {
            &&& (#[trigger] final(ast).fns@[i]).name == old(ast).fns@[i].name
            &&& final(ast).fns@[i].args == old(ast).fns@[i].args
            &&& final(ast).fns@[i].body@ == nil_init_body(*old(ast), *nameres, i)
        },
{
    let ghost a0 = *ast;
    let main = ast.main_fn;
    let mut fns: Vec<FnDef> = Vec::new();
    std::mem::swap(&mut fns, &mut ast.fns);
    let ghost all = fns@;
    let mut out: Vec<FnDef> = Vec::new();
    let mut fid: usize = 0;
    while fns.len() > 0
        invariant
            all == a0.fns@,
            a0.main_fn < all.len(),
            main == a0.main_fn,
            all.len() == a0.fns.len(),
            nameres.vars@.len() >= all.len(),
            fid + fns@.len() == all.len(),
            fns@ == all.subrange(fid as int, all.len() as int),
            out@.len() == fid,
            forall|i: int| 0 <= i < fid ==> {
                &&& (#[trigger] out@[i]).name == all[i].name
                &&& out@[i].args == all[i].args
                &&& out@[i].body@ == nil_init_body(a0, *nameres, i)
            },
        decreases fns.len(),
    {
        let ghost fs = fns@;
        let f = fns.remove(0);
        assert(f == all[fid as int]) by {
            assert(fs[0] == all[fid as int]);
        }
        assert(fns@ =~= all.subrange(fid as int + 1, all.len() as int));
        let FnDef { name, args, body } = f;
        let mut body = body;
        body.push(Stmt::Return(Expr::NilLit));
        let ghost b1 = body@;
        if fid == main {
            let mut j: usize = 0;
            while j < nameres.globals.len()
                invariant
                    j <= nameres.globals.len(),
                    body@ == global_inits(nameres.globals@.take(j as int)) + b1,
                decreases nameres.globals.len() - j,
            {
                proof {
                    let t = nameres.globals@.take(j as int + 1);
                    assert(t.drop_last() =~= nameres.globals@.take(j as int));
                    assert(t.last() == nameres.globals@[j as int]);
                }
                body.insert(0, Stmt::Assign(nameres.globals[j], Expr::NilLit));
                proof {
                    let t = nameres.globals@.take(j as int + 1);
                    assert(body@ =~= global_inits(t) + b1);
                }
                j = j + 1;
            }
            assert(nameres.globals@.take(nameres.globals.len() as int) =~= nameres.globals@);
        }
        let ghost b2 = body@;
        let entries = &nameres.vars[fid].entries;
        let mut k: usize = 0;
        while k < entries.len()
            invariant
                k <= entries.len(),
                body@ == local_inits(entries@.take(k as int), args@) + b2,
            decreases entries.len() - k,
        {
            proof {
                let t = entries@.take(k as int + 1);
                assert(t.drop_last() =~= entries@.take(k as int));
                assert(t.last() == entries@[k as int]);
            }
            let (v, kind) = entries[k];
            if kind == VarKind::Local && !vec_contains(&args, v) {
                body.insert(0, Stmt::Assign(v, Expr::NilLit));
            }
            proof {
                let t = entries@.take(k as int + 1);
                assert(body@ =~= local_inits(t, args@) + b2);
            }
            k = k + 1;
        }
        assert(entries@.take(entries.len() as int) =~= entries@);
        out.push(FnDef { name, args, body });
        proof {
            assert(body@ =~= nil_init_body(a0, *nameres, fid as int));
        }
        fid = fid + 1;
    }
    ast.fns = out;
}

} // verus!
