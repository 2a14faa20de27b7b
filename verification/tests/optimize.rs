use gradu::assoc::AssocMap;
use gradu::ast::BinOpKind;
use gradu::ir::{BlkDef, Expr, FnDef, IR, Stmt, Terminator, Ty};
use gradu::optimize::{
    expr_of, is_side_effect_free, optimize, optimize_cast_around, optimize_unused_exprs, replace_value_id,
    unused,
};

fn block(stmts: Vec<Stmt>, terminator: Terminator, types: Vec<(usize, Ty)>) -> BlkDef {
    let mut t = AssocMap::new();
    for (v, ty) in types {
        t.insert(v, ty);
    }
    BlkDef { stmts, terminator, args: vec![], types: t }
}

fn one_block_ir(b: BlkDef) -> IR {
    let mut blocks = AssocMap::new();
    blocks.insert(0, b);
    let mut fns = AssocMap::new();
    fns.insert(0, FnDef { blocks, start: 0, retty: Ty::Value });
    IR { fns, start: 0, global_types: AssocMap::new() }
}

/// v1 = 5; v2 = wrap int v1; v3 = unwrap int v2; print v3
fn cast_block() -> BlkDef {
    block(
        vec![
            Stmt::Compute(1, Expr::IntLit(5)),
            Stmt::Compute(2, Expr::TToValue(1, Ty::Int)),
            Stmt::Compute(3, Expr::ValueToT(2, Ty::Int)),
            Stmt::Print(3),
        ],
        Terminator::Return(3),
        vec![(1, Ty::Int), (2, Ty::Value), (3, Ty::Int)],
    )
}

#[test]
fn expr_of_finds_first_definition() {
    let b = cast_block();
    assert!(matches!(expr_of(2, &b), Some(Expr::TToValue(1, Ty::Int))));
    assert!(expr_of(9, &b).is_none());
}

#[test]
fn side_effects() {
    assert!(is_side_effect_free(&Expr::IntLit(1)));
    assert!(is_side_effect_free(&Expr::BinOp(BinOpKind::Plus, 1, 2)));
    assert!(!is_side_effect_free(&Expr::ValueToT(1, Ty::Int)));
    assert!(!is_side_effect_free(&Expr::Input));
    assert!(!is_side_effect_free(&Expr::FnCall(1, vec![])));
}

#[test]
fn unused_sees_statements_and_terminator() {
    let b = cast_block();
    assert!(!unused(1, &b));
    assert!(!unused(3, &b));
    assert!(unused(4, &b));
}

#[test]
fn replace_value_id_rewrites_reads_and_drops_definition() {
    let mut b = cast_block();
    replace_value_id(3, 1, &mut b);
    assert_eq!(b.stmts.len(), 3);
    assert!(matches!(b.stmts[2], Stmt::Print(1)));
    assert!(matches!(b.terminator, Terminator::Return(1)));
    assert!(matches!(b.stmts[1], Stmt::Compute(2, Expr::TToValue(1, Ty::Int))));
}

#[test]
fn cast_around_is_removed() {
    let mut ir = one_block_ir(cast_block());
    assert!(optimize_cast_around(&mut ir));
    let b = &ir.fns.entries[0].1.blocks.entries[0].1;
    assert_eq!(b.stmts.len(), 3);
    assert!(matches!(b.stmts[2], Stmt::Print(1)));
    assert!(matches!(b.terminator, Terminator::Return(1)));
}

#[test]
fn cast_of_other_type_stays() {
    let b = block(
        vec![
            Stmt::Compute(1, Expr::IntLit(5)),
            Stmt::Compute(2, Expr::TToValue(1, Ty::Int)),
            Stmt::Compute(3, Expr::ValueToT(2, Ty::Bool)),
            Stmt::Print(3),
        ],
        Terminator::Exit,
        vec![(3, Ty::Bool)],
    );
    let mut ir = one_block_ir(b);
    assert!(!optimize_cast_around(&mut ir));
    assert_eq!(ir.fns.entries[0].1.blocks.entries[0].1.stmts.len(), 4);
}

#[test]
fn unused_computation_is_removed() {
    let b = block(
        vec![Stmt::Compute(1, Expr::IntLit(5)), Stmt::Compute(2, Expr::IntLit(6)), Stmt::Print(2)],
        Terminator::Exit,
        vec![],
    );
    let mut ir = one_block_ir(b);
    assert!(optimize_unused_exprs(&mut ir));
    let s = &ir.fns.entries[0].1.blocks.entries[0].1.stmts;
    assert_eq!(s.len(), 2);
    assert!(matches!(s[0], Stmt::Compute(2, Expr::IntLit(6))));
    assert!(!optimize_unused_exprs(&mut ir));
}

#[test]
fn unwrapping_is_kept_even_if_unused() {
    let b = block(
        vec![Stmt::Compute(1, Expr::NilLit), Stmt::Compute(2, Expr::ValueToT(1, Ty::Int))],
        Terminator::Exit,
        vec![],
    );
    let mut ir = one_block_ir(b);
    // the nil is read by the unwrapping, the unwrapping may fail
    assert!(!optimize_unused_exprs(&mut ir));
}

#[test]
fn optimize_reaches_a_fixpoint() {
    let mut ir = one_block_ir(cast_block());
    let mut steps = 0;
    while optimize(&mut ir) {
        steps += 1;
        assert!(steps < 10);
    }
    let b = &ir.fns.entries[0].1.blocks.entries[0].1;
    // the cast pair and the wrapping disappear: v1 = 5; print v1
    assert_eq!(b.stmts.len(), 2);
    assert!(matches!(b.stmts[0], Stmt::Compute(1, Expr::IntLit(5))));
    assert!(matches!(b.stmts[1], Stmt::Print(1)));
}

#[test]
fn each_step_takes_out_one_statement() {
    let mut ir = one_block_ir(cast_block());
    let mut count = ir.fns.entries[0].1.blocks.entries[0].1.stmts.len();
    while optimize(&mut ir) {
        let now = ir.fns.entries[0].1.blocks.entries[0].1.stmts.len();
        assert_eq!(now + 1, count);
        count = now;
    }
}
