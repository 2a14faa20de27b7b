use gradu::assoc::AssocMap;
use gradu::ast::{self, BinOpKind, FnDef, AST};
use gradu::comp::{comp_expr, compile_ir, is_compilable, ty_str};
use gradu::ir::{BlkDef, Expr, IR, Stmt, Terminator, Ty};
use gradu::lower::{is_body_lowerable, lower, ty_of};
use gradu::symbol::Symbol;

fn sym(s: &str) -> Symbol {
    Symbol::new(s)
}

fn program(body: Vec<ast::Stmt>) -> AST {
    AST { fns: vec![FnDef { name: sym("main"), args: vec![], body }], main_fn: 0 }
}

#[test]
fn lower_print_literal() {
    let ast = program(vec![ast::Stmt::Print(ast::Expr::IntLit(7))]);
    let ir = lower(&ast);
    assert_eq!(ir.start, 0);
    assert_eq!(ir.fns.entries.len(), 1);
    let f = &ir.fns.entries[0].1;
    assert_eq!(f.start, 1);
    assert_eq!(f.retty, Ty::Value);
    // start block, then the body block
    assert_eq!(f.blocks.entries.len(), 2);
    let start = &f.blocks.entries[0].1;
    assert_eq!(f.blocks.entries[0].0, 1);
    assert!(matches!(start.stmts[0], Stmt::Compute(2, Expr::NilLit)));
    assert!(matches!(start.stmts[1], Stmt::Compute(3, Expr::TToValue(2, Ty::Nil))));
    assert!(matches!(&start.terminator, Terminator::Goto((4, args)) if args.is_empty()));
    let body = &f.blocks.entries[1].1;
    assert_eq!(f.blocks.entries[1].0, 4);
    assert!(matches!(body.stmts[0], Stmt::Compute(5, Expr::IntLit(7))));
    assert!(matches!(body.stmts[1], Stmt::Compute(6, Expr::TToValue(5, Ty::Int))));
    assert!(matches!(body.stmts[2], Stmt::Print(6)));
    assert!(matches!(body.terminator, Terminator::Exit));
}

#[test]
fn lower_assign_passes_variables_between_blocks() {
    // x = 1; while x < 3 { x = x + 1 }; print x
    let x = sym("x");
    let ast = program(vec![
        ast::Stmt::Assign(x, ast::Expr::IntLit(1)),
        ast::Stmt::While(
            ast::Expr::BinOp(BinOpKind::Lt, Box::new(ast::Expr::Var(x)), Box::new(ast::Expr::IntLit(3))),
            vec![ast::Stmt::Assign(
                x,
                ast::Expr::BinOp(BinOpKind::Plus, Box::new(ast::Expr::Var(x)), Box::new(ast::Expr::IntLit(1))),
            )],
        ),
        ast::Stmt::Print(ast::Expr::Var(x)),
    ]);
    assert!(is_body_lowerable(&ast.fns[0].body));
    let ir = lower(&ast);
    let f = &ir.fns.entries[0].1;
    // start, body, loop head, loop exit, loop body
    assert_eq!(f.blocks.entries.len(), 5);
    for (_, b) in f.blocks.entries.iter().skip(1) {
        assert_eq!(b.args.len(), 1);
    }
    assert!(is_compilable(&ir));
}

#[test]
fn lowering_rejects_multiplication() {
    let body = vec![ast::Stmt::Print(ast::Expr::BinOp(
        BinOpKind::Mul,
        Box::new(ast::Expr::IntLit(2)),
        Box::new(ast::Expr::IntLit(3)),
    ))];
    assert!(!is_body_lowerable(&body));
    let ok = vec![ast::Stmt::Print(ast::Expr::BinOp(
        BinOpKind::Minus,
        Box::new(ast::Expr::IntLit(2)),
        Box::new(ast::Expr::IntLit(3)),
    ))];
    assert!(is_body_lowerable(&ok));
}

#[test]
fn ty_of_expressions() {
    assert_eq!(ty_of(&Expr::IntLit(1)), Ty::Int);
    assert_eq!(ty_of(&Expr::StringLit(String::from("a"))), Ty::String);
    assert_eq!(ty_of(&Expr::BinOp(BinOpKind::Mod, 1, 2)), Ty::Int);
    assert_eq!(ty_of(&Expr::BinOp(BinOpKind::Ne, 1, 2)), Ty::Bool);
    assert_eq!(ty_of(&Expr::TToValue(1, Ty::Int)), Ty::Value);
    assert_eq!(ty_of(&Expr::ValueToT(1, Ty::Fn)), Ty::Fn);
}

#[test]
fn ty_str_names_c_types() {
    assert_eq!(ty_str(&Ty::Value), "Value");
    assert_eq!(ty_str(&Ty::String), "char*");
    assert_eq!(ty_str(&Ty::Fn), "void*");
}

#[test]
fn comp_expr_writes_c() {
    let mut out = String::new();
    comp_expr(&Expr::BinOp(BinOpKind::Equ, 1, 2), &mut out);
    assert_eq!(out, "is_equal(v_1, v_2)");
    let mut out = String::new();
    comp_expr(&Expr::FnCall(5, vec![1, 2]), &mut out);
    assert_eq!(out, "((Value (*)(Value, Value)) v_5)(v_1, v_2)");
    let mut out = String::new();
    comp_expr(&Expr::FnCall(5, vec![]), &mut out);
    assert_eq!(out, "((Value (*)()) v_5)()");
    let mut out = String::new();
    comp_expr(&Expr::IntLit(-42), &mut out);
    assert_eq!(out, "-42");
    let mut out = String::new();
    comp_expr(&Expr::TToValue(3, Ty::Fn), &mut out);
    assert_eq!(out, "tagged_fn_to_value(v_3, 20)");
    let mut out = String::new();
    comp_expr(&Expr::StringLit(String::from("hi")), &mut out);
    assert_eq!(out, "\"hi\"");
}

fn tiny_ir() -> IR {
    let mut types = AssocMap::new();
    types.insert(7, Ty::Int);
    let b = BlkDef {
        stmts: vec![Stmt::Compute(7, Expr::IntLit(5)), Stmt::Print(7)],
        terminator: Terminator::Exit,
        args: vec![],
        types,
    };
    let mut blocks = AssocMap::new();
    blocks.insert(2, b);
    let mut fns = AssocMap::new();
    fns.insert(0, gradu::ir::FnDef { blocks, start: 2, retty: Ty::Value });
    IR { fns, start: 0, global_types: AssocMap::new() }
}

#[test]
fn compile_ir_text() {
    let ir = tiny_ir();
    assert!(is_compilable(&ir));
    let c = compile_ir(&ir);
    let expected = "#include \"preamble.h\"\n\n\
Value fn_0();\n\
Value fn_0() {\n  int v_7;\n  goto bb_2;\n  bb_2: // \n    v_7 = 5;\n    print_value(v_7);\n    exit(0);\n}\n\n\
int main() { fn_0(); }";
    assert_eq!(c, expected);
}

#[test]
fn dump_text() {
    let ir = tiny_ir();
    let d = ir.dump();
    assert_eq!(d, "fn fn_0:\n  start bb_2():\n    v_7 = IntLit(5)\n    Print(7)\n    exit\n");
}

#[test]
fn dump_quotes_strings() {
    let mut ir = tiny_ir();
    ir.fns.entries[0].1.blocks.entries[0].1.stmts[0] = Stmt::Compute(7, Expr::StringLit(String::from("a\"b")));
    let d = ir.dump();
    assert!(d.contains("v_7 = StringLit(\"a\\\"b\")"));
}

fn last_computed(b: &BlkDef) -> usize {
    match b.stmts.last() {
        Some(Stmt::Compute(v, _)) => *v,
        _ => panic!("block computes nothing"),
    }
}

#[test]
fn loop_body_hands_on_its_own_values() {
    // x = 1; while x < 3 { x = x + 1 }; print x
    let x = sym("x");
    let ast = program(vec![
        ast::Stmt::Assign(x, ast::Expr::IntLit(1)),
        ast::Stmt::While(
            ast::Expr::BinOp(BinOpKind::Lt, Box::new(ast::Expr::Var(x)), Box::new(ast::Expr::IntLit(3))),
            vec![ast::Stmt::Assign(
                x,
                ast::Expr::BinOp(BinOpKind::Plus, Box::new(ast::Expr::Var(x)), Box::new(ast::Expr::IntLit(1))),
            )],
        ),
        ast::Stmt::Print(ast::Expr::Var(x)),
    ]);
    let ir = lower(&ast);
    let f = &ir.fns.entries[0].1;
    let head = f.blocks.entries[2].0;
    let loop_body = &f.blocks.entries[4].1;
    match &loop_body.terminator {
        Terminator::Goto((target, args)) => {
            assert_eq!(*target, head);
            assert_eq!(args.len(), 1);
            assert_eq!(args[0], last_computed(loop_body));
            assert_ne!(args[0], loop_body.args[0]);
        },
        _ => panic!("the loop body jumps back to the head"),
    }
}

#[test]
fn branches_hand_on_their_own_values() {
    // x = 1; if true { x = 2 } else { }; print x
    let x = sym("x");
    let ast = program(vec![
        ast::Stmt::Assign(x, ast::Expr::IntLit(1)),
        ast::Stmt::If(ast::Expr::BoolLit(true), vec![ast::Stmt::Assign(x, ast::Expr::IntLit(2))], vec![]),
        ast::Stmt::Print(ast::Expr::Var(x)),
    ]);
    let ir = lower(&ast);
    let f = &ir.fns.entries[0].1;
    // start, body, join, then, else
    assert_eq!(f.blocks.entries.len(), 5);
    let post = f.blocks.entries[2].0;
    let then_b = &f.blocks.entries[3].1;
    let else_b = &f.blocks.entries[4].1;
    match &then_b.terminator {
        Terminator::Goto((target, args)) => {
            assert_eq!(*target, post);
            assert_eq!(args[0], last_computed(then_b));
        },
        _ => panic!("the branch jumps to the join"),
    }
    match &else_b.terminator {
        Terminator::Goto((target, args)) => {
            assert_eq!(*target, post);
            assert_eq!(args[0], else_b.args[0]);
        },
        _ => panic!("the branch jumps to the join"),
    }
    assert!(is_compilable(&ir));
}
