use gradu::ast::{BinOpKind, Expr, FnDef, Stmt, AST};
use gradu::interp::{apply_binop, interp, interp_named, value_text, RuntimeError, Value};
use gradu::symbol::Symbol;

fn sym(s: &str) -> Symbol {
    Symbol::new(s)
}

fn bin(k: BinOpKind, a: Expr, b: Expr) -> Expr {
    Expr::BinOp(k, Box::new(a), Box::new(b))
}

fn main_only(body: Vec<Stmt>) -> AST {
    AST { fns: vec![FnDef { name: sym("main"), args: vec![], body }], main_fn: 0 }
}

fn lines(v: &[&str]) -> Vec<String> {
    v.iter().map(|s| s.to_string()).collect()
}

#[test]
fn prints_a_sum() {
    let x = sym("x");
    let ast = main_only(vec![
        Stmt::Assign(x, bin(BinOpKind::Plus, Expr::IntLit(1), Expr::IntLit(2))),
        Stmt::Print(Expr::Var(x)),
        Stmt::Print(Expr::StringLit(String::from("done"))),
        Stmt::Print(Expr::BoolLit(false)),
    ]);
    let (out, r) = interp(&ast, vec![], 1000);
    assert!(r.is_ok());
    assert_eq!(out, lines(&["3", "done", "false"]));
}

#[test]
fn loops_and_calls() {
    // double(a) { return a + a }   main: i = 0; while i < 3 { print double(i); i = i + 1 }
    let a = sym("a");
    let i = sym("i");
    let double = FnDef {
        name: sym("double"),
        args: vec![a],
        body: vec![Stmt::Return(bin(BinOpKind::Plus, Expr::Var(a), Expr::Var(a)))],
    };
    let main = FnDef {
        name: sym("main"),
        args: vec![],
        body: vec![
            Stmt::Assign(i, Expr::IntLit(0)),
            Stmt::While(
                bin(BinOpKind::Lt, Expr::Var(i), Expr::IntLit(3)),
                vec![
                    Stmt::Print(Expr::FnCall(Box::new(Expr::FnId(0)), vec![Expr::Var(i)])),
                    Stmt::Assign(i, bin(BinOpKind::Plus, Expr::Var(i), Expr::IntLit(1))),
                ],
            ),
        ],
    };
    let ast = AST { fns: vec![double, main], main_fn: 1 };
    let (out, r) = interp(&ast, vec![], 1000);
    assert!(r.is_ok());
    assert_eq!(out, lines(&["0", "2", "4"]));
}

#[test]
fn a_call_without_return_gives_nil() {
    let f = FnDef { name: sym("f"), args: vec![], body: vec![] };
    let main = FnDef {
        name: sym("main"),
        args: vec![],
        body: vec![Stmt::Print(Expr::FnCall(Box::new(Expr::FnId(0)), vec![]))],
    };
    let ast = AST { fns: vec![f, main], main_fn: 1 };
    let (out, r) = interp(&ast, vec![], 10);
    assert!(r.is_ok());
    assert_eq!(out, lines(&["nil"]));
}

#[test]
fn reads_input_values() {
    let x = sym("x");
    let ast = main_only(vec![
        Stmt::Assign(x, Expr::Input),
        Stmt::Print(Expr::Var(x)),
        Stmt::Assign(x, Expr::Input),
        Stmt::Print(Expr::Var(x)),
        Stmt::Assign(x, Expr::Input),
        Stmt::Print(Expr::Var(x)),
    ]);
    let (out, r) = interp(&ast, lines(&["  \"hi there\" ", "true", "-17"]), 10);
    assert!(r.is_ok());
    assert_eq!(out, lines(&["hi there", "true", "-17"]));
}

#[test]
fn invalid_input_stops() {
    let x = sym("x");
    let ast = main_only(vec![Stmt::Print(Expr::StringLit(String::from("before"))), Stmt::Assign(x, Expr::Input)]);
    let (out, r) = interp(&ast, lines(&["\"a\"b\""]), 10);
    assert_eq!(out, lines(&["before"]));
    match r {
        Err(RuntimeError::InvalidInput(s)) => assert_eq!(s, "\"a\"b\""),
        _ => panic!("expected an invalid input"),
    }
    let (_, r) = interp(&ast, vec![], 10);
    assert!(matches!(r, Err(RuntimeError::InvalidInput(s)) if s.is_empty()));
}

#[test]
fn runtime_errors() {
    let ast = main_only(vec![Stmt::Print(bin(BinOpKind::Plus, Expr::IntLit(i64::MAX), Expr::IntLit(1)))]);
    assert!(matches!(interp(&ast, vec![], 10).1, Err(RuntimeError::Arithmetic)));
    let ast = main_only(vec![Stmt::Print(bin(BinOpKind::Mod, Expr::IntLit(5), Expr::IntLit(0)))]);
    assert!(matches!(interp(&ast, vec![], 10).1, Err(RuntimeError::Arithmetic)));
    let ast = main_only(vec![Stmt::Print(bin(BinOpKind::Lt, Expr::IntLit(5), Expr::BoolLit(true)))]);
    assert!(matches!(interp(&ast, vec![], 10).1, Err(RuntimeError::NotInt)));
    let ast = main_only(vec![Stmt::If(Expr::IntLit(1), vec![], vec![])]);
    assert!(matches!(interp(&ast, vec![], 10).1, Err(RuntimeError::NotBool)));
    let y = sym("y");
    let ast = main_only(vec![Stmt::Print(Expr::Var(y))]);
    assert!(matches!(interp(&ast, vec![], 10).1, Err(RuntimeError::UnknownVar(v)) if v == y));
    let ast = main_only(vec![Stmt::While(Expr::BoolLit(true), vec![])]);
    assert!(matches!(interp(&ast, vec![], 50).1, Err(RuntimeError::OutOfFuel)));
    let ast = main_only(vec![Stmt::Print(Expr::FnCall(Box::new(Expr::FnId(7)), vec![]))]);
    assert!(matches!(interp(&ast, vec![], 10).1, Err(RuntimeError::UnknownFn)));
}

#[test]
fn missing_main() {
    let ast = AST { fns: vec![FnDef { name: sym("other"), args: vec![], body: vec![] }], main_fn: 0 };
    let (out, r) = interp(&ast, vec![], 10);
    assert!(out.is_empty());
    assert!(matches!(r, Err(RuntimeError::NoMain)));
    let (_, r) = interp_named(&ast, sym("other"), vec![], 10);
    assert!(r.is_ok());
}

#[test]
fn equality_compares_values() {
    let eq = apply_binop(BinOpKind::Equ, &Value::Str(String::from("a")), &Value::Str(String::from("a")));
    assert!(matches!(eq, Ok(Value::Bool(true))));
    let ne = apply_binop(BinOpKind::Ne, &Value::Int(1), &Value::Nil);
    assert!(matches!(ne, Ok(Value::Bool(true))));
    let diff = apply_binop(BinOpKind::Minus, &Value::Int(1), &Value::Int(3));
    assert!(matches!(diff, Ok(Value::Int(-2))));
    let rem = apply_binop(BinOpKind::Mod, &Value::Int(-7), &Value::Int(3));
    assert!(matches!(rem, Ok(Value::Int(-1))));
    assert_eq!(value_text(&Value::Nil), "nil");
    assert_eq!(value_text(&Value::Int(-5)), "-5");
}

#[test]
fn larger_budget_same_outcome() {
    // main: i = 0; while i < 3 { print i; i = i + 1 }
    let i = sym("i");
    let ast = main_only(vec![
        Stmt::Assign(i, Expr::IntLit(0)),
        Stmt::While(
            bin(BinOpKind::Lt, Expr::Var(i), Expr::IntLit(3)),
            vec![
                Stmt::Print(Expr::Var(i)),
                Stmt::Assign(i, bin(BinOpKind::Plus, Expr::Var(i), Expr::IntLit(1))),
            ],
        ),
    ]);
    let (out_small, r_small) = interp(&ast, vec![], 2);
    assert!(matches!(r_small, Err(RuntimeError::OutOfFuel)));
    assert_eq!(out_small, lines(&["0"]));
    let (out, r) = interp(&ast, vec![], 5);
    assert!(r.is_ok());
    assert_eq!(out, lines(&["0", "1", "2"]));
    let (out_big, r_big) = interp(&ast, vec![], 1000);
    assert!(r_big.is_ok());
    assert_eq!(out_big, out);
}

#[test]
fn input_integers_at_the_edges() {
    let x = sym("x");
    let ast = main_only(vec![
        Stmt::Assign(x, Expr::Input),
        Stmt::Print(Expr::Var(x)),
        Stmt::Assign(x, Expr::Input),
        Stmt::Print(Expr::Var(x)),
        Stmt::Assign(x, Expr::Input),
        Stmt::Print(Expr::Var(x)),
    ]);
    let (out, r) = interp(&ast, lines(&["\t-9223372036854775808\n", "+42", " 9223372036854775807 "]), 10);
    assert!(r.is_ok());
    assert_eq!(out, lines(&["-9223372036854775808", "42", "9223372036854775807"]));
    let (_, r) = interp(&ast, lines(&["9223372036854775808"]), 10);
    assert!(matches!(r, Err(RuntimeError::InvalidInput(s)) if s == "9223372036854775808"));
    let (_, r) = interp(&ast, lines(&["12a"]), 10);
    assert!(matches!(r, Err(RuntimeError::InvalidInput(s)) if s == "12a"));
    let (_, r) = interp(&ast, lines(&["-"]), 10);
    assert!(matches!(r, Err(RuntimeError::InvalidInput(s)) if s == "-"));
}
