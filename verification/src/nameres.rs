use vstd::prelude::*;
use crate::assoc::AssocMap;
use crate::ast::{AST, FnDef, body_nodes};
use crate::symbol::Symbol;
use crate::vars::{
    Collector, Occurrence, body_assigns, body_declares_global, body_reads, lemma_collect,
    push_unique,
};
use crate::visit::visit_body;
use crate::seqs::lemma_take_one_more;

verus! {

/// Whether a variable is shared by all functions or belongs to one call.
#[derive(Clone, Copy, PartialEq, Eq, Structural, Debug)]
pub enum VarKind {
    Global,
    Local,
}

/// The outcome of name resolution.
pub struct Nameres {
    /// For each function (indexed by `FnId`), the kind of each of its variables.
    pub vars: Vec<AssocMap<Symbol, VarKind>>,
    /// All global variables, each once.
    pub globals: Vec<Symbol>,
}

/// Whether the function `f` mentions `x`: as an argument, or by declaring it
/// global, reading it or assigning it anywhere in its body.
pub open spec fn mentions(f: FnDef, x: Symbol) -> bool {
    ||| body_declares_global(f.body@, x)
    ||| body_reads(f.body@, x)
    ||| body_assigns(f.body@, x)
    ||| f.args@.contains(x)
}

/// The kind of `x` in the function `fid`: everything in the entry function
/// is global; elsewhere arguments are local, then declared globals are
/// global, then assigned variables are local, and variables that are only
/// read are global.
pub open spec fn kind_in(ast: AST, fid: int, x: Symbol) -> VarKind {
    let f = ast.fns@[fid];
    if fid == ast.main_fn {
        VarKind::Global
    } else if f.args@.contains(x) {
        VarKind::Local
    } else if body_declares_global(f.body@, x) {
        VarKind::Global
    } else if body_assigns(f.body@, x) {
        VarKind::Local
    } else {
        VarKind::Global
    }
}

/// Whether `x` is global in the function `fid`.
pub open spec fn global_in(ast: AST, fid: int, x: Symbol) -> bool {
    mentions(ast.fns@[fid], x) && kind_in(ast, fid, x) == VarKind::Global
}

/// Whether `x` is global in some function among the first `n`.
pub open spec fn global_upto(ast: AST, n: int, x: Symbol) -> bool {
    exists|fid: int| 0 <= fid < n && #[trigger] global_in(ast, fid, x)
}

/// Whether `x` is a global variable of the program.
pub open spec fn is_global_name(ast: AST, x: Symbol) -> bool {
    global_upto(ast, ast.fns@.len() as int, x)
}

/// Whether `r` is the name resolution of `ast`.
pub open spec fn resolves(ast: AST, r: Nameres) -> bool {
    &&& r.vars@.len() == ast.fns@.len()
    &&& forall|fid: int| 0 <= fid < r.vars@.len() ==> (#[trigger] r.vars@[fid]).wf()
    &&& forall|fid: int, x: Symbol| 0 <= fid < r.vars@.len() ==>
        (#[trigger] r.vars@[fid].view().contains_key(x) <==> (mentions(ast.fns@[fid], x)
            || (fid == ast.main_fn && is_global_name(ast, x))))
    &&& forall|fid: int, x: Symbol| 0 <= fid < r.vars@.len() && #[trigger] r.vars@[fid].view().contains_key(x)
        ==> r.vars@[fid].view()[x] == kind_in(ast, fid, x)
    &&& r.globals@.no_duplicates()
    &&& forall|x: Symbol| #[trigger] r.globals@.contains(x) <==> is_global_name(ast, x)
}

/// Name resolution follows the scoping rules of the language: in the entry
/// function every variable is global; in any other function an argument is
/// local, a variable declared `global` is global, an assigned variable is
/// local and a variable that is only read is global.  The globals of the
/// program are the variables some function takes as global, and the entry
/// function knows each of them as global.
pub proof fn lemma_nameres_rules(ast: AST, r: Nameres, fid: int, x: Symbol)
    requires
        resolves(ast, r),
        0 <= fid < ast.fns@.len(),
        mentions(ast.fns@[fid], x),
    ensures
        r.vars@[fid].view().contains_key(x),
        fid == ast.main_fn ==> r.vars@[fid].view()[x] == VarKind::Global,
        fid != ast.main_fn && ast.fns@[fid].args@.contains(x) ==> r.vars@[fid].view()[x] == VarKind::Local,
        fid != ast.main_fn && !ast.fns@[fid].args@.contains(x) && body_declares_global(ast.fns@[fid].body@, x)
            ==> r.vars@[fid].view()[x] == VarKind::Global,
        fid != ast.main_fn && !ast.fns@[fid].args@.contains(x) && !body_declares_global(ast.fns@[fid].body@, x)
            && body_assigns(ast.fns@[fid].body@, x) ==> r.vars@[fid].view()[x] == VarKind::Local,
        fid != ast.main_fn && !ast.fns@[fid].args@.contains(x) && !body_declares_global(ast.fns@[fid].body@, x)
            && !body_assigns(ast.fns@[fid].body@, x) ==> r.vars@[fid].view()[x] == VarKind::Global,
        r.vars@[fid].view()[x] == VarKind::Global ==> r.globals@.contains(x),
        r.globals@.contains(x) ==> 0 <= ast.main_fn < ast.fns@.len() ==> r.vars@[ast.main_fn as int].view().contains_key(x)
            && r.vars@[ast.main_fn as int].view()[x] == VarKind::Global,
{
    assert(r.vars@[fid].view().contains_key(x));
    if r.vars@[fid].view()[x] == VarKind::Global {
        assert(global_in(ast, fid, x));
    }
    if r.globals@.contains(x) && 0 <= ast.main_fn < ast.fns@.len() {
        let m = ast.main_fn as int;
        assert(r.vars@[m].view().contains_key(x));
    }
}

/// Whether `x` is in `v`.
pub fn vec_contains(v: &Vec<Symbol>, x: Symbol) -> (r: bool)
    ensures
        r == v@.contains(x),
{
    let mut i: usize = 0;
    while i < v.len()
        invariant
            i <= v.len(),
            forall|j: int| 0 <= j < i ==> v@[j] != x,
        decreases v.len() - i,
    {
        if v[i] == x {
            assert(v@[i as int] == x);
            return true;
        }
        i = i + 1;
    }
    false
}

/// Adds to `out` those of `src` that it lacks.
pub fn union_into(out: &mut Vec<Symbol>, src: &Vec<Symbol>)
    ensures
        old(out)@.no_duplicates() ==> final(out)@.no_duplicates(),
        forall|x: Symbol| #[trigger] final(out)@.contains(x) <==> (old(out)@.contains(x) || src@.contains(x)),
{
    let ghost o = out@;
    let mut i: usize = 0;
    while i < src.len()
        invariant
            i <= src.len(),
            o.no_duplicates() ==> out@.no_duplicates(),
            forall|x: Symbol| #[trigger] out@.contains(x) <==> (o.contains(x) || src@.take(i as int).contains(x)),
        decreases src.len() - i,
    {
        proof {
            lemma_take_one_more(src@, i as int);
        }
        push_unique(out, src[i]);
        i = i + 1;
    }
    assert(src@.take(src.len() as int) =~= src@);
}

/// The variables that `f` mentions, each once, together with those it
/// declares global and those it assigns.
fn mentioned(f: &FnDef) -> (r: (Vec<Symbol>, Vec<Symbol>, Vec<Symbol>))
    ensures
        r.0@.no_duplicates(),
        forall|x: Symbol| #[trigger] r.0@.contains(x) <==> mentions(*f, x),
        forall|x: Symbol| #[trigger] r.1@.contains(x) <==> body_declares_global(f.body@, x),
        forall|x: Symbol| #[trigger] r.2@.contains(x) <==> body_assigns(f.body@, x),
{
    let mut read = Collector { kind: Occurrence::Read, found: Vec::new() };
    let mut assigned = Collector { kind: Occurrence::Assigned, found: Vec::new() };
    let mut global = Collector { kind: Occurrence::DeclaredGlobal, found: Vec::new() };
    visit_body(&f.body, &mut read);
    visit_body(&f.body, &mut assigned);
    visit_body(&f.body, &mut global);
    proof {
        lemma_collect(Occurrence::Read, Seq::empty(), body_nodes(f.body@));
        lemma_collect(Occurrence::Assigned, Seq::empty(), body_nodes(f.body@));
        lemma_collect(Occurrence::DeclaredGlobal, Seq::empty(), body_nodes(f.body@));
    }
    let mut all: Vec<Symbol> = Vec::new();
    union_into(&mut all, &global.found);
    union_into(&mut all, &read.found);
    union_into(&mut all, &assigned.found);
    union_into(&mut all, &f.args);
    (all, global.found, assigned.found)
}

/// Decides, for every function, whether each of its variables is global or
/// local, and gathers the global ones.  Every global is also recorded as a
/// variable of the entry function.
pub fn nameres(ast: &AST) -> (r: Nameres)
    requires
        ast.main_fn < ast.fns.len(),
    ensures
        resolves(*ast, r),
{
    let mut vars: Vec<AssocMap<Symbol, VarKind>> = Vec::new();
    let mut globals: Vec<Symbol> = Vec::new();
    let mut fid: usize = 0;
    while fid < ast.fns.len()
        invariant
            fid <= ast.fns.len(),
            vars@.len() == fid,
            forall|g: int| 0 <= g < fid ==> (#[trigger] vars@[g]).wf(),
            forall|g: int, x: Symbol| 0 <= g < fid ==>
                (#[trigger] vars@[g].view().contains_key(x) <==> mentions(ast.fns@[g], x)),
            forall|g: int, x: Symbol| 0 <= g < fid && #[trigger] vars@[g].view().contains_key(x)
                ==> vars@[g].view()[x] == kind_in(*ast, g, x),
            globals@.no_duplicates(),
            forall|x: Symbol| #[trigger] globals@.contains(x) <==> global_upto(*ast, fid as int, x),
        decreases ast.fns.len() - fid,
    {
        let f = &ast.fns[fid];
        let (all, global, assigned) = mentioned(f);
        let mut vmap: AssocMap<Symbol, VarKind> = AssocMap::new();
        let ghost g0 = globals@;
        let mut i: usize = 0;
        while i < all.len()
            invariant
                i <= all.len(),
                f == &ast.fns[fid as int],
                fid < ast.fns.len(),
                all@.no_duplicates(),
                forall|x: Symbol| #[trigger] all@.contains(x) <==> mentions(*f, x),
                forall|x: Symbol| #[trigger] global@.contains(x) <==> body_declares_global(f.body@, x),
                forall|x: Symbol| #[trigger] assigned@.contains(x) <==> body_assigns(f.body@, x),
                vmap.wf(),
                forall|x: Symbol| #[trigger] vmap.view().contains_key(x) <==> all@.take(i as int).contains(x),
                forall|x: Symbol| #[trigger] vmap.view().contains_key(x) ==> vmap.view()[x] == kind_in(*ast, fid as int, x),
                globals@.no_duplicates(),
                forall|x: Symbol| #[trigger] globals@.contains(x) <==> (g0.contains(x)
                    || (all@.take(i as int).contains(x) && kind_in(*ast, fid as int, x) == VarKind::Global)),
            decreases all.len() - i,
        {
            let x = all[i];
            proof {
                lemma_take_one_more(all@, i as int);
            }
            let kind = if fid == ast.main_fn {
                VarKind::Global
            } else if vec_contains(&f.args, x) {
                VarKind::Local
            } else if vec_contains(&global, x) {
                VarKind::Global
            } else if vec_contains(&assigned, x) {
                VarKind::Local
            } else {
                VarKind::Global
            };
            if let VarKind::Global = kind {
                push_unique(&mut globals, x);
            }
            vmap.insert(x, kind);
            i = i + 1;
        }
        assert(all@.take(all.len() as int) =~= all@);
        proof {
            assert forall|x: Symbol| #[trigger] globals@.contains(x) <==> global_upto(*ast, fid + 1, x) by {
                if global_upto(*ast, fid + 1, x) {
                    let g = choose|g: int| 0 <= g < fid + 1 && #[trigger] global_in(*ast, g, x);
                    if g < fid {
                        assert(global_upto(*ast, fid as int, x));
                    }
                }
                if global_upto(*ast, fid as int, x) {
                    let g = choose|g: int| 0 <= g < fid && #[trigger] global_in(*ast, g, x);
                    assert(0 <= g < fid + 1 && global_in(*ast, g, x));
                }
                if all@.contains(x) && kind_in(*ast, fid as int, x) == VarKind::Global {
                    assert(global_in(*ast, fid as int, x));
                }
            }
        }
        vars.push(vmap);
        fid = fid + 1;
    }
    let main = ast.main_fn;
    let mut mmap = vars.remove(main);
    let ghost m0 = mmap.view();
    let mut j: usize = 0;
    while j < globals.len()
        invariant
            j <= globals.len(),
            mmap.wf(),
            forall|x: Symbol| #[trigger] mmap.view().contains_key(x) <==> (m0.contains_key(x) || globals@.take(j as int).contains(x)),
            forall|x: Symbol| #[trigger] mmap.view().contains_key(x) ==> mmap.view()[x] == (if m0.contains_key(x) { m0[x] } else { VarKind::Global }),
            forall|x: Symbol| #[trigger] m0.contains_key(x) ==> m0[x] == VarKind::Global,
        decreases globals.len() - j,
    {
        proof {
            lemma_take_one_more(globals@, j as int);
        }
        mmap.insert(globals[j], VarKind::Global);
        j = j + 1;
    }
    assert(globals@.take(globals.len() as int) =~= globals@);
    vars.insert(main, mmap);
    Nameres { vars, globals }
}

} // verus!
