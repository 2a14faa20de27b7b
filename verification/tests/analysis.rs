use gradu::analysis::{analyze, check_fn_ids, get, Location, TypeLattice};
use gradu::ast::{BinOpKind, Expr, FnDef, Stmt, AST};
use gradu::nameres::nameres;
use gradu::symbol::Symbol;

fn sym(s: &str) -> Symbol {
    Symbol::new(s)
}

fn int_lattice() -> TypeLattice {
    TypeLattice { might_be_int: true, ..TypeLattice::bot() }
}

#[test]
fn bot_allows_nothing() {
    let b = TypeLattice::bot();
    assert!(!b.might_be_bool && !b.might_be_nil && !b.might_be_str);
    assert!(!b.might_be_int && !b.might_be_list && !b.might_be_dict);
    assert!(b.fn_options.is_empty());
}

#[test]
fn merge_joins_kinds_and_functions() {
    let mut x = int_lattice();
    x.fn_options = vec![1, 3];
    let mut y = TypeLattice { might_be_str: true, ..TypeLattice::bot() };
    y.fn_options = vec![2, 3];
    let m = TypeLattice::merge(&x, &y);
    assert!(m.might_be_int && m.might_be_str);
    assert!(!m.might_be_bool && !m.might_be_nil && !m.might_be_list && !m.might_be_dict);
    assert_eq!(m.fn_options, vec![1, 2, 3]);
}

#[test]
fn merge_with_bot_is_identity() {
    let mut x = int_lattice();
    x.fn_options = vec![0, 4];
    let m = TypeLattice::merge(&x, &TypeLattice::bot());
    assert!(m.same(&x));
}

/// main: x = 1 + 2
fn assign_program() -> AST {
    let body = vec![Stmt::Assign(
        sym("x"),
        Expr::BinOp(BinOpKind::Plus, Box::new(Expr::IntLit(1)), Box::new(Expr::IntLit(2))),
    )];
    AST { fns: vec![FnDef { name: sym("main"), args: vec![], body }], main_fn: 0 }
}

#[test]
fn analyze_records_int_for_sum() {
    let ast = assign_program();
    let nr = nameres(&ast);
    let a = analyze(&ast, &nr);
    let t = get(Location::GlobalVar(sym("x")), &a);
    assert!(t.might_be_int);
    assert!(!t.might_be_str && !t.might_be_bool && !t.might_be_nil);
}

/// f(a) { return a }   main: y = f(1)
fn call_program() -> AST {
    let f = FnDef {
        name: sym("f"),
        args: vec![sym("a")],
        body: vec![Stmt::Return(Expr::Var(sym("a")))],
    };
    let main = FnDef {
        name: sym("main"),
        args: vec![],
        body: vec![Stmt::Assign(sym("y"), Expr::FnCall(Box::new(Expr::FnId(0)), vec![Expr::IntLit(1)]))],
    };
    AST { fns: vec![f, main], main_fn: 1 }
}

#[test]
fn analyze_flows_arguments_and_results() {
    let ast = call_program();
    let nr = nameres(&ast);
    let a = analyze(&ast, &nr);
    assert!(get(Location::Var(0, sym("a")), &a).might_be_int);
    assert!(get(Location::RetVal(0), &a).might_be_int);
    assert!(get(Location::GlobalVar(sym("y")), &a).might_be_int);
    assert!(!get(Location::GlobalVar(sym("y")), &a).might_be_str);
}

#[test]
fn analyze_is_a_fixpoint() {
    let ast = call_program();
    let nr = nameres(&ast);
    let a = analyze(&ast, &nr);
    let mut b = gradu::analysis::copy_ctx(&a);
    gradu::analysis::ty_infer_round(&ast, &nr, &mut b);
    assert!(gradu::analysis::ctx_same(&a, &b));
}

#[test]
fn function_ids_are_checked() {
    assert!(check_fn_ids(&call_program()));
    let bad = FnDef {
        name: sym("main"),
        args: vec![],
        body: vec![Stmt::While(Expr::BoolLit(true), vec![Stmt::Print(Expr::FnId(3))])],
    };
    assert!(!check_fn_ids(&AST { fns: vec![bad], main_fn: 0 }));
}
