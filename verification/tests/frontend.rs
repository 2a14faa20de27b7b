use gradu::ast::{Expr, FnDef, Stmt, AST};
use gradu::fresh::fresh;
use gradu::nameres::{nameres, VarKind};
use gradu::nil_init::nil_init;
use gradu::symbol::Symbol;
use gradu::vars::get_vars;

fn sym(s: &str) -> Symbol {
    Symbol::new(s)
}

#[test]
fn symbols_intern() {
    assert_eq!(sym("alpha"), sym("alpha"));
    assert_ne!(sym("alpha"), sym("beta"));
    assert_eq!(sym("alpha").id(), sym("alpha").id());
    assert!(sym("gamma").id() != 0);
}

#[test]
fn fresh_counts_and_wraps() {
    let mut c: usize = 5;
    assert_eq!(fresh(&mut c), 5);
    assert_eq!(fresh(&mut c), 6);
    assert_eq!(c, 7);
    let mut m = usize::MAX;
    assert_eq!(fresh(&mut m), usize::MAX);
    assert_eq!(m, 0);
}

/// f(a) { global g; b = a; print c }   main: g = 1
fn sample() -> AST {
    let f = FnDef {
        name: sym("f"),
        args: vec![sym("a")],
        body: vec![
            Stmt::Global(sym("g")),
            Stmt::Assign(sym("b"), Expr::Var(sym("a"))),
            Stmt::Print(Expr::Var(sym("c"))),
        ],
    };
    let main = FnDef { name: sym("main"), args: vec![], body: vec![Stmt::Assign(sym("g"), Expr::IntLit(1))] };
    AST { fns: vec![f, main], main_fn: 1 }
}

#[test]
fn get_vars_collects_arguments_reads_and_assignments() {
    let ast = sample();
    let vs = get_vars(&ast.fns[0]);
    for v in ["a", "b", "c"] {
        assert!(vs.contains(&sym(v)));
    }
    assert!(!vs.contains(&sym("g")));
    assert_eq!(vs.len(), 3);
}

#[test]
fn nameres_decides_kinds() {
    let ast = sample();
    let nr = nameres(&ast);
    let f = &nr.vars[0];
    assert_eq!(f.get(&sym("a")).copied(), Some(VarKind::Local));
    assert_eq!(f.get(&sym("b")).copied(), Some(VarKind::Local));
    assert_eq!(f.get(&sym("c")).copied(), Some(VarKind::Global));
    assert_eq!(f.get(&sym("g")).copied(), Some(VarKind::Global));
    let m = &nr.vars[1];
    assert_eq!(m.get(&sym("g")).copied(), Some(VarKind::Global));
    assert!(nr.globals.contains(&sym("g")));
    assert!(nr.globals.contains(&sym("c")));
    assert!(!nr.globals.contains(&sym("a")));
}

#[test]
fn nil_init_initialises_and_returns() {
    let mut ast = sample();
    let nr = nameres(&ast);
    let n_globals = nr.globals.len();
    nil_init(&mut ast, &nr);
    // f: b = nil; then its body; then return nil
    let f = &ast.fns[0].body;
    assert_eq!(f.len(), 5);
    assert!(matches!(&f[0], Stmt::Assign(v, Expr::NilLit) if *v == sym("b")));
    assert!(matches!(&f[4], Stmt::Return(Expr::NilLit)));
    // main: one `g = nil` per global, its body, return nil
    let m = &ast.fns[1].body;
    assert_eq!(m.len(), n_globals + 2);
    for s in &m[..n_globals] {
        assert!(matches!(s, Stmt::Assign(_, Expr::NilLit)));
    }
    assert!(matches!(&m[n_globals + 1], Stmt::Return(Expr::NilLit)));
}
