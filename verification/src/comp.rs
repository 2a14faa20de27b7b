use vstd::prelude::*;
use crate::assoc::{keys_unique, lemma_map_of_entry, map_of};
use crate::ast::BinOpKind;
use crate::ir::{
    AppliedBlk, BlkDef, BlkId, Expr, FnDef, FnId, IR, Stmt, Terminator, Ty, ValueId, cat, join,
    lemma_join_step, vals_text,
};
use crate::text::{bool_text, dec, int_text, push_bool, push_char, push_int, push_str, push_usize};

verus! {

/// The C type that holds a value of type `t`.
pub open spec fn ty_c(t: Ty) -> Seq<char> {
    match t {
        Ty::Value => "Value"@,
        Ty::String => "char*"@,
        Ty::Int => "int"@,
        Ty::Bool => "bool"@,
        Ty::Nil => "nil"@,
        Ty::Fn => "void*"@,
    }
}

/// `v_x`.
pub open spec fn val_c(x: ValueId) -> Seq<char> {
    "v_"@ + dec(x as nat)
}

/// Whether the C back end handles `e`.
pub open spec fn expr_compilable(e: Expr) -> bool {
    match e {
        Expr::StringLit(_) | Expr::IntLit(_) | Expr::BoolLit(_) | Expr::NilLit | Expr::BinOp(..) | Expr::Fn(_)
        | Expr::FnCall(..) => true,
        Expr::TToValue(_, t) => t != Ty::Value,
        Expr::ValueToT(_, t) => t != Ty::Value,
        _ => false,
    }
}

/// The C expression of `e`.
pub open spec fn expr_c(e: Expr) -> Seq<char> {
    match e {
        Expr::StringLit(x) => seq!['\x22'] + x@ + seq!['\x22'],
        Expr::IntLit(x) => int_text(x as int),
        Expr::BoolLit(b) => bool_text(b),
        Expr::NilLit => "(nil) {}"@,
        Expr::BinOp(k, x, y) => match k {
            BinOpKind::Plus => val_c(x) + " + "@ + val_c(y),
            BinOpKind::Mul => val_c(x) + " * "@ + val_c(y),
            BinOpKind::Minus => val_c(x) + " - "@ + val_c(y),
            BinOpKind::Lt => val_c(x) + " < "@ + val_c(y),
            BinOpKind::Gt => val_c(x) + " > "@ + val_c(y),
            BinOpKind::Mod => val_c(x) + " % "@ + val_c(y),
            BinOpKind::Equ => "is_equal("@ + val_c(x) + ", "@ + val_c(y) + seq![')'],
            BinOpKind::Ne => "!is_equal("@ + val_c(x) + ", "@ + val_c(y) + seq![')'],
        },
        Expr::Fn(f) => "fn_"@ + dec(f as nat),
        Expr::FnCall(f, args) => "((Value (*)("@ + join(Seq::new(args@.len(), |i: int| "Value"@)) + ")) "@ + val_c(f)
            + seq![')', '('] + join(vals_text(args@)) + seq![')'],
        Expr::TToValue(x, t) => match t {
            Ty::String => "str_to_value("@ + val_c(x) + seq![')'],
            Ty::Int => "int_to_value("@ + val_c(x) + seq![')'],
            Ty::Bool => "bool_to_value("@ + val_c(x) + seq![')'],
            Ty::Nil => "nil_to_value("@ + val_c(x) + seq![')'],
            Ty::Fn => "tagged_fn_to_value("@ + val_c(x) + ", 20)"@,
            Ty::Value => Seq::empty(),
        },
        Expr::ValueToT(x, t) => match t {
            Ty::String => "value_to_str("@ + val_c(x) + seq![')'],
            Ty::Int => "value_to_int("@ + val_c(x) + seq![')'],
            Ty::Bool => "value_to_bool("@ + val_c(x) + seq![')'],
            Ty::Nil => "value_to_nil("@ + val_c(x) + seq![')'],
            Ty::Fn => "value_to_fn_with_tag("@ + val_c(x) + ", 20)"@,
            Ty::Value => Seq::empty(),
        },
        _ => Seq::empty(),
    }
}

/// Whether the C back end handles `s`: it handles computations it can
/// compile and prints.
pub open spec fn stmt_compilable(s: Stmt) -> bool {
    match s {
        Stmt::Print(_) => true,
        Stmt::Compute(_, e) => expr_compilable(e),
        _ => false,
    }
}

/// The C statement of `s`, on a line of its own.
pub open spec fn stmt_c(s: Stmt) -> Seq<char> {
    match s {
        Stmt::Print(x) => "    print_value("@ + val_c(x) + ");\n"@,
        Stmt::Compute(v, e) => "    "@ + val_c(v) + " = "@ + expr_c(e) + ";\n"@,
        _ => Seq::empty(),
    }
}

/// The arguments of block `b` of function `f`.
pub open spec fn blk_args(ir: IR, f: FnId, b: BlkId) -> Seq<ValueId> {
    ir.fns.view()[f].blocks.view()[b].args@
}

/// `v_y = v_x; ` for each pair of a handed value `x` and an argument `y`,
/// as far as both lists go.
pub open spec fn moves_c(xs: Seq<ValueId>, ys: Seq<ValueId>) -> Seq<char> {
    cat(Seq::new(if xs.len() < ys.len() { xs.len() } else { ys.len() },
        |i: int| val_c(ys[i]) + " = "@ + val_c(xs[i]) + "; "@))
}

/// The jump to `t` from function `f`: the moves into the target's
/// arguments, then `goto bb_b;`.
pub open spec fn goto_c(t: AppliedBlk, f: FnId, ir: IR) -> Seq<char> {
    moves_c(t.1@, blk_args(ir, f, t.0)) + "goto bb_"@ + dec(t.0 as nat) + seq![';']
}

/// The C lines of a terminator of function `f`.
pub open spec fn term_c(t: Terminator, f: FnId, ir: IR) -> Seq<char> {
    match t {
        Terminator::Exit => "    exit(0);\n"@,
        Terminator::Goto(x) => "    "@ + goto_c(x, f, ir) + seq!['\n'],
        Terminator::IfGoto(c, x, y) => "    if ("@ + val_c(c) + ") { "@ + goto_c(x, f, ir) + " } else { "@
            + goto_c(y, f, ir) + " }"@ + seq!['\n'],
        Terminator::Return(v) => "    return "@ + val_c(v) + ";\n"@,
    }
}

/// Whether a jump of a terminator of `d` goes to block `b`.
pub open spec fn jumps_to(t: Terminator, b: BlkId) -> bool {
    match t {
        Terminator::Goto(x) => x.0 == b,
        Terminator::IfGoto(_, x, y) => x.0 == b || y.0 == b,
        _ => false,
    }
}

/// Whether function `d` can be compiled: its block ids are distinct, its
/// start block and every jump target exist, and each statement can be
/// compiled.
pub open spec fn fn_compilable(d: FnDef) -> bool {
    &&& d.blocks.wf()
    &&& d.blocks.view().contains_key(d.start)
    &&& forall|i: int| 0 <= i < d.blocks.entries@.len() ==> {
        let bd = (#[trigger] d.blocks.entries@[i]).1;
        &&& forall|j: int| 0 <= j < bd.stmts@.len() ==> stmt_compilable(#[trigger] bd.stmts@[j])
        &&& forall|b: BlkId| jumps_to(bd.terminator, b) ==> #[trigger] d.blocks.view().contains_key(b)
    }
}

/// Whether the program can be compiled: its function ids are distinct and
/// each function can be compiled.
pub open spec fn compilable(ir: IR) -> bool {
    &&& ir.fns.wf()
    &&& forall|i: int| 0 <= i < ir.fns.entries@.len() ==> fn_compilable(#[trigger] ir.fns.entries@[i].1)
}

/// The C type that holds a value of type `x`.
pub fn ty_str(x: &Ty) -> (r: &'static str)
    ensures
        r@ == ty_c(*x),
{
    match x {
        Ty::Value => "Value",
        Ty::String => "char*",
        Ty::Int => "int",
        Ty::Bool => "bool",
        Ty::Nil => "nil",
        Ty::Fn => "void*",
    }
}

fn push_val(out: &mut String, x: ValueId)
    ensures
        final(out)@ == old(out)@ + val_c(x),
{
    push_str(out, "v_");
    push_usize(out, x);
}

/// Appends `name(v_x)`, or `name(v_x, 20)` when `tagged`.
fn push_conv(out: &mut String, name: &str, x: ValueId, tagged: bool)
    ensures
        tagged ==> final(out)@ == old(out)@ + name@ + val_c(x) + ", 20)"@,
        !tagged ==> final(out)@ == old(out)@ + name@ + val_c(x) + seq![')'],
{
    push_str(out, name);
    push_val(out, x);
    if tagged {
        push_str(out, ", 20)");
    } else {
        push_char(out, ')');
    }
}

fn comp_call(out: &mut String, f: ValueId, args: &Vec<ValueId>)
    ensures
        final(out)@ == old(out)@ + expr_c(Expr::FnCall(f, *args)),
{
    let ghost tys = Seq::new(args@.len(), |i: int| "Value"@);
    let ghost vals = vals_text(args@);
    push_str(out, "((Value (*)(");
    let ghost m1 = out@;
    let mut i: usize = 0;
    while i < args.len()
        invariant
            i <= args@.len(),
            tys == Seq::new(args@.len(), |i: int| "Value"@),
            out@ == m1 + join(tys.take(i as int)),
        decreases args.len() - i,
    {
        if i > 0 {
            push_str(out, ", ");
        }
        push_str(out, "Value");
        proof {
            lemma_join_step(tys, i as int);
        }
        assert(out@ =~= m1 + join(tys.take(i + 1)));
        i = i + 1;
    }
    assert(tys.take(args@.len() as int) =~= tys);
    push_str(out, ")) ");
    push_val(out, f);
    push_char(out, ')');
    push_char(out, '(');
    let ghost m2 = out@;
    let mut j: usize = 0;
    while j < args.len()
        invariant
            j <= args@.len(),
            vals == vals_text(args@),
            out@ == m2 + join(vals.take(j as int)),
        decreases args.len() - j,
    {
        if j > 0 {
            push_str(out, ", ");
        }
        push_val(out, args[j]);
        proof {
            lemma_join_step(vals, j as int);
        }
        assert(out@ =~= m2 + join(vals.take(j + 1)));
        j = j + 1;
    }
    assert(vals.take(args@.len() as int) =~= vals);
    push_char(out, ')');
    assert(out@ =~= old(out)@ + expr_c(Expr::FnCall(f, *args)));
}

fn comp_binop(out: &mut String, k: BinOpKind, x: ValueId, y: ValueId)
    ensures
        final(out)@ == old(out)@ + expr_c(Expr::BinOp(k, x, y)),
{
    match k {
        BinOpKind::Equ | BinOpKind::Ne => {
            if k == BinOpKind::Equ {
                push_str(out, "is_equal(");
            } else {
                push_str(out, "!is_equal(");
            }
            push_val(out, x);
            push_str(out, ", ");
            push_val(out, y);
            push_char(out, ')');
        },
        _ => {
            push_val(out, x);
            match k {
                BinOpKind::Plus => push_str(out, " + "),
                BinOpKind::Mul => push_str(out, " * "),
                BinOpKind::Minus => push_str(out, " - "),
                BinOpKind::Lt => push_str(out, " < "),
                BinOpKind::Gt => push_str(out, " > "),
                _ => push_str(out, " % "),
            }
            push_val(out, y);
        },
    }
    assert(out@ =~= old(out)@ + expr_c(Expr::BinOp(k, x, y)));
}

/// Each operator is written with its own C spelling: the six infix ones as
/// the left operand, a space, their C symbol (`+ - * < > %`), a space and the
/// right operand; `==` and `!=` as a call of the runtime's `is_equal`, the
/// second negated.  Left operand first, right operand second.
pub proof fn lemma_binop_c_text(x: ValueId, y: ValueId)
    ensures
        expr_c(Expr::BinOp(BinOpKind::Plus, x, y)) == val_c(x) + seq![' ', '+', ' '] + val_c(y),
        expr_c(Expr::BinOp(BinOpKind::Minus, x, y)) == val_c(x) + seq![' ', '-', ' '] + val_c(y),
        expr_c(Expr::BinOp(BinOpKind::Mul, x, y)) == val_c(x) + seq![' ', '*', ' '] + val_c(y),
        expr_c(Expr::BinOp(BinOpKind::Lt, x, y)) == val_c(x) + seq![' ', '<', ' '] + val_c(y),
        expr_c(Expr::BinOp(BinOpKind::Gt, x, y)) == val_c(x) + seq![' ', '>', ' '] + val_c(y),
        expr_c(Expr::BinOp(BinOpKind::Mod, x, y)) == val_c(x) + seq![' ', '%', ' '] + val_c(y),
        expr_c(Expr::BinOp(BinOpKind::Equ, x, y)) == seq!['i', 's', '_', 'e', 'q', 'u', 'a', 'l', '(']
            + val_c(x) + seq![',', ' '] + val_c(y) + seq![')'],
        expr_c(Expr::BinOp(BinOpKind::Ne, x, y)) == seq!['!', 'i', 's', '_', 'e', 'q', 'u', 'a', 'l', '(']
            + val_c(x) + seq![',', ' '] + val_c(y) + seq![')'],
{
    reveal_strlit(" + ");
    reveal_strlit(" - ");
    reveal_strlit(" * ");
    reveal_strlit(" < ");
    reveal_strlit(" > ");
    reveal_strlit(" % ");
    reveal_strlit("is_equal(");
    reveal_strlit("!is_equal(");
    reveal_strlit(", ");
    assert(expr_c(Expr::BinOp(BinOpKind::Plus, x, y)) =~= val_c(x) + seq![' ', '+', ' '] + val_c(y));
    assert(expr_c(Expr::BinOp(BinOpKind::Minus, x, y)) =~= val_c(x) + seq![' ', '-', ' '] + val_c(y));
    assert(expr_c(Expr::BinOp(BinOpKind::Mul, x, y)) =~= val_c(x) + seq![' ', '*', ' '] + val_c(y));
    assert(expr_c(Expr::BinOp(BinOpKind::Lt, x, y)) =~= val_c(x) + seq![' ', '<', ' '] + val_c(y));
    assert(expr_c(Expr::BinOp(BinOpKind::Gt, x, y)) =~= val_c(x) + seq![' ', '>', ' '] + val_c(y));
    assert(expr_c(Expr::BinOp(BinOpKind::Mod, x, y)) =~= val_c(x) + seq![' ', '%', ' '] + val_c(y));
    assert(expr_c(Expr::BinOp(BinOpKind::Equ, x, y)) =~= seq!['i', 's', '_', 'e', 'q', 'u', 'a', 'l', '(']
        + val_c(x) + seq![',', ' '] + val_c(y) + seq![')']);
    assert(expr_c(Expr::BinOp(BinOpKind::Ne, x, y)) =~= seq!['!', 'i', 's', '_', 'e', 'q', 'u', 'a', 'l', '(']
        + val_c(x) + seq![',', ' '] + val_c(y) + seq![')']);
}

/// Different operators give different C text on the same operands, so no
/// operator is compiled as another.
pub proof fn lemma_binop_c_distinct(k1: BinOpKind, k2: BinOpKind, x: ValueId, y: ValueId)
    requires
        k1 != k2,
    ensures
        expr_c(Expr::BinOp(k1, x, y)) != expr_c(Expr::BinOp(k2, x, y)),
{
    lemma_binop_c_text(x, y);
    reveal_strlit("v_");
    let n = val_c(x).len() as int;
    let e1 = expr_c(Expr::BinOp(k1, x, y));
    let e2 = expr_c(Expr::BinOp(k2, x, y));
    let infix = |k: BinOpKind| k != BinOpKind::Equ && k != BinOpKind::Ne;
    assert(val_c(x)[0] == 'v');
    if infix(k1) && infix(k2) {
        assert(e1[n + 1] != e2[n + 1]);
    } else {
        assert(e1[0] != e2[0]);
    }
}

/// Each conversion is compiled to its own C function: wrapping values of
/// different types into a `Value`, unwrapping a `Value` into different
/// types, and wrapping as against unwrapping all give different C text on
/// the same operand; and different types have different C types.
pub proof fn lemma_conv_c_distinct(t1: Ty, t2: Ty, x: ValueId)
    requires
        t1 != Ty::Value,
        t2 != Ty::Value,
    ensures
        t1 != t2 ==> expr_c(Expr::TToValue(x, t1)) != expr_c(Expr::TToValue(x, t2)),
        t1 != t2 ==> expr_c(Expr::ValueToT(x, t1)) != expr_c(Expr::ValueToT(x, t2)),
        expr_c(Expr::TToValue(x, t1)) != expr_c(Expr::ValueToT(x, t2)),
        t1 != t2 ==> ty_c(t1) != ty_c(t2),
{
    reveal_strlit("str_to_value(");
    reveal_strlit("int_to_value(");
    reveal_strlit("bool_to_value(");
    reveal_strlit("nil_to_value(");
    reveal_strlit("tagged_fn_to_value(");
    reveal_strlit("value_to_str(");
    reveal_strlit("value_to_int(");
    reveal_strlit("value_to_bool(");
    reveal_strlit("value_to_nil(");
    reveal_strlit("value_to_fn_with_tag(");
    reveal_strlit("char*");
    reveal_strlit("int");
    reveal_strlit("bool");
    reveal_strlit("nil");
    reveal_strlit("void*");
    let a1 = expr_c(Expr::TToValue(x, t1));
    let a2 = expr_c(Expr::TToValue(x, t2));
    let b1 = expr_c(Expr::ValueToT(x, t1));
    let b2 = expr_c(Expr::ValueToT(x, t2));
    assert(a1[0] != a2[0] || t1 == t2);
    assert(b1[9] != b2[9] || t1 == t2);
    assert(a1[0] != b2[0]);
    assert(ty_c(t1)[0] != ty_c(t2)[0] || t1 == t2);
}

/// Appends the C expression of `e`.
pub fn comp_expr(e: &Expr, out: &mut String)
    requires
        expr_compilable(*e),
    ensures
        final(out)@ == old(out)@ + expr_c(*e),
{
    match e {
        Expr::StringLit(x) => {
            push_char(out, '\x22');
            push_str(out, x.as_str());
            push_char(out, '\x22');
            assert(out@ =~= old(out)@ + expr_c(*e));
        },
        Expr::IntLit(x) => push_int(out, *x),
        Expr::BoolLit(b) => push_bool(out, *b),
        Expr::NilLit => push_str(out, "(nil) {}"),
        Expr::BinOp(k, x, y) => comp_binop(out, *k, *x, *y),
        Expr::Fn(f) => {
            push_str(out, "fn_");
            push_usize(out, *f);
        },
        Expr::FnCall(f, args) => {
            comp_call(out, *f, args);
        },
        Expr::TToValue(x, t) => {
            match t {
                Ty::String => push_conv(out, "str_to_value(", *x, false),
                Ty::Int => push_conv(out, "int_to_value(", *x, false),
                Ty::Bool => push_conv(out, "bool_to_value(", *x, false),
                Ty::Nil => push_conv(out, "nil_to_value(", *x, false),
                _ => push_conv(out, "tagged_fn_to_value(", *x, true),
            }
            assert(out@ =~= old(out)@ + expr_c(*e));
        },
        Expr::ValueToT(x, t) => {
            match t {
                Ty::String => push_conv(out, "value_to_str(", *x, false),
                Ty::Int => push_conv(out, "value_to_int(", *x, false),
                Ty::Bool => push_conv(out, "value_to_bool(", *x, false),
                Ty::Nil => push_conv(out, "value_to_nil(", *x, false),
                _ => push_conv(out, "value_to_fn_with_tag(", *x, true),
            }
            assert(out@ =~= old(out)@ + expr_c(*e));
        },
        _ => {},
    }
}

/// Appends the C line of `stmt`.
pub fn comp_stmt(stmt: &Stmt, ir: &IR, out: &mut String)
    requires
        stmt_compilable(*stmt),
    ensures
        final(out)@ == old(out)@ + stmt_c(*stmt),
{
    match stmt {
        Stmt::Print(x) => {
            push_str(out, "    print_value(");
            push_val(out, *x);
            push_str(out, ");\n");
        },
        Stmt::Compute(v, e) => {
            push_str(out, "    ");
            push_val(out, *v);
            push_str(out, " = ");
            comp_expr(e, out);
            push_str(out, ";\n");
        },
        _ => {},
    }
    assert(out@ =~= old(out)@ + stmt_c(*stmt));
}

/// Appends the moves into the arguments of block `bid` of function `f` and
/// the jump to it.
pub fn comp_goto(t: &AppliedBlk, f: FnId, ir: &IR, out: &mut String)
    requires
        ir.fns.wf(),
        ir.fns.view().contains_key(f),
        ir.fns.view()[f].blocks.wf(),
        ir.fns.view()[f].blocks.view().contains_key(t.0),
    ensures
        final(out)@ == old(out)@ + goto_c(*t, f, *ir),
{
    let bid = t.0;
    let args = &t.1;
    let fdef = ir.fns.get(&f).unwrap();
    let bdef = fdef.blocks.get(&bid).unwrap();
    let args2 = &bdef.args;
    let n = if args.len() < args2.len() { args.len() } else { args2.len() };
    let ghost items = Seq::new(n as nat, |i: int| val_c(args2@[i]) + " = "@ + val_c(args@[i]) + "; "@);
    assert(args2@ == blk_args(*ir, f, bid));
    let mut i: usize = 0;
    while i < n
        invariant
            i <= n,
            n <= args@.len(),
            n <= args2@.len(),
            items == Seq::new(n as nat, |i: int| val_c(args2@[i]) + " = "@ + val_c(args@[i]) + "; "@),
            out@ == old(out)@ + cat(items.take(i as int)),
        decreases n - i,
    {
        push_val(out, args2[i]);
        push_str(out, " = ");
        push_val(out, args[i]);
        push_str(out, "; ");
        proof {
            assert(items.take(i + 1).drop_last() =~= items.take(i as int));
        }
        assert(out@ =~= old(out)@ + cat(items.take(i + 1)));
        i = i + 1;
    }
    assert(items.take(n as int) =~= items);
    push_str(out, "goto bb_");
    push_usize(out, bid);
    push_char(out, ';');
    assert(out@ =~= old(out)@ + goto_c(*t, f, *ir));
}

/// Whether the jump targets of `t` are blocks of function `f`.
pub open spec fn targets_exist(t: Terminator, f: FnId, ir: IR) -> bool {
    forall|b: BlkId| jumps_to(t, b) ==> ir.fns.view().contains_key(f) && ir.fns.view()[f].blocks.wf()
        && #[trigger] ir.fns.view()[f].blocks.view().contains_key(b)
}

/// Appends the C lines of a terminator of function `f`.
pub fn comp_terminator(terminator: &Terminator, f: FnId, ir: &IR, out: &mut String)
    requires
        ir.fns.wf(),
        targets_exist(*terminator, f, *ir),
    ensures
        final(out)@ == old(out)@ + term_c(*terminator, f, *ir),
{
    match terminator {
        Terminator::Exit => push_str(out, "    exit(0);\n"),
        Terminator::Goto(x) => {
            assert(jumps_to(*terminator, x.0));
            assert(ir.fns.view()[f].blocks.view().contains_key(x.0));
            push_str(out, "    ");
            comp_goto(x, f, ir, out);
            push_char(out, '\n');
        },
        Terminator::IfGoto(cond, then_, else_) => {
            assert(jumps_to(*terminator, then_.0));
            assert(jumps_to(*terminator, else_.0));
            assert(ir.fns.view()[f].blocks.view().contains_key(then_.0));
            assert(ir.fns.view()[f].blocks.view().contains_key(else_.0));
            push_str(out, "    if (");
            push_val(out, *cond);
            push_str(out, ") { ");
            comp_goto(then_, f, ir, out);
            push_str(out, " } else { ");
            comp_goto(else_, f, ir, out);
            push_str(out, " }");
            push_char(out, '\n');
        },
        Terminator::Return(v) => {
            push_str(out, "    return ");
            push_val(out, *v);
            push_str(out, ";\n");
        },
    }
    assert(out@ =~= old(out)@ + term_c(*terminator, f, *ir));
}

/// The parameters `Value a_0, Value a_1, ...` of a function with `n`
/// arguments.
pub open spec fn params_c(n: nat) -> Seq<Seq<char>> {
    Seq::new(n, |i: int| "Value a_"@ + dec(i as nat))
}

/// The C head of function `f`: `T fn_f(Value a_0, ...)`, with as many
/// parameters as its start block has arguments.
pub open spec fn head_c(f: FnId, d: FnDef) -> Seq<char> {
    ty_c(d.retty) + " fn_"@ + dec(f as nat) + seq!['('] + join(params_c(d.blocks.view()[d.start].args@.len()))
        + seq![')']
}

/// Appends the C head of function `f`.
pub fn write_fn_head(f: FnId, fdef: &FnDef, out: &mut String)
    requires
        fdef.blocks.wf(),
        fdef.blocks.view().contains_key(fdef.start),
    ensures
        final(out)@ == old(out)@ + head_c(f, *fdef),
{
    let retty = ty_str(&fdef.retty);
    push_str(out, retty);
    push_str(out, " fn_");
    push_usize(out, f);
    push_char(out, '(');
    let bdef = fdef.blocks.get(&fdef.start).unwrap();
    let n = bdef.args.len();
    let ghost ps = params_c(n as nat);
    let ghost m = out@;
    let mut i: usize = 0;
    while i < n
        invariant
            i <= n,
            ps == params_c(n as nat),
            out@ == m + join(ps.take(i as int)),
        decreases n - i,
    {
        if i > 0 {
            push_str(out, ", ");
        }
        push_str(out, "Value a_");
        push_usize(out, i);
        proof {
            lemma_join_step(ps, i as int);
        }
        assert(out@ =~= m + join(ps.take(i + 1)));
        i = i + 1;
    }
    assert(ps.take(n as int) =~= ps);
    push_char(out, ')');
    assert(out@ =~= old(out)@ + head_c(f, *fdef));
}

/// ` T v_x;` for each typed value of a block.
pub open spec fn types_c(ts: Seq<(ValueId, Ty)>) -> Seq<char> {
    cat(ts.map_values(|p: (ValueId, Ty)| seq![' '] + ty_c(p.1) + " v_"@ + dec(p.0 as nat) + seq![';']))
}

/// The declarations of the values of the blocks `bs`.
pub open spec fn decls_c(bs: Seq<(BlkId, BlkDef)>) -> Seq<char> {
    cat(bs.map_values(|p: (BlkId, BlkDef)| types_c(p.1.types.entries@)))
}

/// `v_x = a_i; ` for each argument `x` of the start block.
pub open spec fn entry_c(args: Seq<ValueId>) -> Seq<char> {
    cat(Seq::new(args.len(), |i: int| val_c(args[i]) + " = a_"@ + dec(i as nat) + "; "@))
}

/// The C lines of block `b` of function `f`: its label, statements and
/// terminator.
pub open spec fn blk_c(b: BlkId, d: BlkDef, f: FnId, ir: IR) -> Seq<char> {
    "  bb_"@ + dec(b as nat) + seq![':', ' ', '/', '/', ' '] + join(vals_text(d.args@)) + seq!['\n']
        + cat(d.stmts@.map_values(|s: Stmt| stmt_c(s))) + term_c(d.terminator, f, ir)
}

/// The C lines of the blocks `bs` of function `f`.
pub open spec fn blks_c(bs: Seq<(BlkId, BlkDef)>, f: FnId, ir: IR) -> Seq<char> {
    cat(bs.map_values(|p: (BlkId, BlkDef)| blk_c(p.0, p.1, f, ir)))
}

/// The C definition of function `f`: its head, the declarations of all its
/// values, the moves of the parameters into the start block's arguments,
/// and its blocks.
pub open spec fn fn_c(f: FnId, d: FnDef, ir: IR) -> Seq<char> {
    head_c(f, d) + " {\n"@ + seq![' '] + decls_c(d.blocks.entries@) + seq!['\n'] + "  "@
        + entry_c(d.blocks.view()[d.start].args@) + "goto bb_"@ + dec(d.start as nat) + ";\n"@
        + blks_c(d.blocks.entries@, f, ir) + "}\n\n"@
}

/// Taking one more element of `s` and mapping adds its image.
pub proof fn lemma_cat_map_step<A>(s: Seq<A>, g: spec_fn(A) -> Seq<char>, i: int)
    requires
        0 <= i < s.len(),
    ensures
        cat(s.take(i + 1).map_values(g)) == cat(s.take(i).map_values(g)) + g(s[i]),
{
    assert(s.take(i + 1).map_values(g).drop_last() =~= s.take(i).map_values(g));
}

fn push_types(out: &mut String, ts: &Vec<(ValueId, Ty)>)
    ensures
        final(out)@ == old(out)@ + types_c(ts@),
{
    let ghost g = |p: (ValueId, Ty)| seq![' '] + ty_c(p.1) + " v_"@ + dec(p.0 as nat) + seq![';'];
    let mut i: usize = 0;
    assert(ts@.take(0).map_values(g) =~= Seq::<Seq<char>>::empty());
    while i < ts.len()
        invariant
            i <= ts@.len(),
            g == (|p: (ValueId, Ty)| seq![' '] + ty_c(p.1) + " v_"@ + dec(p.0 as nat) + seq![';']),
            out@ == old(out)@ + cat(ts@.take(i as int).map_values(g)),
        decreases ts.len() - i,
    {
        push_char(out, ' ');
        push_str(out, ty_str(&ts[i].1));
        push_str(out, " v_");
        push_usize(out, ts[i].0);
        push_char(out, ';');
        proof {
            lemma_cat_map_step(ts@, g, i as int);
        }
        assert(out@ =~= old(out)@ + cat(ts@.take(i + 1).map_values(g)));
        i = i + 1;
    }
    assert(ts@.take(ts@.len() as int) =~= ts@);
}

#[verifier::rlimit(40)]
#[verifier::spinoff_prover]
fn push_blk(out: &mut String, b: BlkId, bdef: &BlkDef, f: FnId, ir: &IR)
    requires
        ir.fns.wf(),
        targets_exist(bdef.terminator, f, *ir),
        forall|j: int| 0 <= j < bdef.stmts@.len() ==> stmt_compilable(#[trigger] bdef.stmts@[j]),
    ensures
        final(out)@ == old(out)@ + blk_c(b, *bdef, f, *ir),
{
    push_str(out, "  bb_");
    push_usize(out, b);
    push_char(out, ':');
    push_char(out, ' ');
    push_char(out, '/');
    push_char(out, '/');
    push_char(out, ' ');
    let ghost vals = vals_text(bdef.args@);
    let ghost m = out@;
    let mut i: usize = 0;
    while i < bdef.args.len()
        invariant
            i <= bdef.args@.len(),
            vals == vals_text(bdef.args@),
            out@ == m + join(vals.take(i as int)),
        decreases bdef.args.len() - i,
    {
        if i > 0 {
            push_str(out, ", ");
        }
        push_val(out, bdef.args[i]);
        proof {
            lemma_join_step(vals, i as int);
        }
        assert(out@ =~= m + join(vals.take(i + 1)));
        i = i + 1;
    }
    assert(vals.take(bdef.args@.len() as int) =~= vals);
    push_char(out, '\n');
    let ghost g = |s: Stmt| stmt_c(s);
    let ghost m2 = out@;
    let mut j: usize = 0;
    assert(bdef.stmts@.take(0).map_values(g) =~= Seq::<Seq<char>>::empty());
    while j < bdef.stmts.len()
        invariant
            j <= bdef.stmts@.len(),
            g == (|s: Stmt| stmt_c(s)),
            forall|k: int| 0 <= k < bdef.stmts@.len() ==> stmt_compilable(#[trigger] bdef.stmts@[k]),
            out@ == m2 + cat(bdef.stmts@.take(j as int).map_values(g)),
        decreases bdef.stmts.len() - j,
    {
        comp_stmt(&bdef.stmts[j], ir, out);
        proof {
            lemma_cat_map_step(bdef.stmts@, g, j as int);
        }
        assert(out@ =~= m2 + cat(bdef.stmts@.take(j + 1).map_values(g)));
        j = j + 1;
    }
    assert(bdef.stmts@.take(bdef.stmts@.len() as int) =~= bdef.stmts@);
    comp_terminator(&bdef.terminator, f, ir, out);
    assert(out@ =~= old(out)@ + blk_c(b, *bdef, f, *ir));
}

/// Whether function `f` with definition `d` can be compiled within `ir`:
/// `d` has its start block and compilable statements, and every jump of
/// `d` goes to a block that `ir` has for `f` (the target's arguments are
/// read from there); `ir` is needed for nothing else.
pub open spec fn fn_compilable_in(f: FnId, d: FnDef, ir: IR) -> bool {
    &&& ir.fns.wf()
    &&& d.blocks.wf()
    &&& d.blocks.view().contains_key(d.start)
    &&& forall|i: int| 0 <= i < d.blocks.entries@.len() ==> {
        let bd = (#[trigger] d.blocks.entries@[i]).1;
        &&& forall|j: int| 0 <= j < bd.stmts@.len() ==> stmt_compilable(#[trigger] bd.stmts@[j])
        &&& targets_exist(bd.terminator, f, ir)
    }
}

/// Appends the C definition of function `f`.
#[verifier::rlimit(40)]
#[verifier::spinoff_prover]
pub fn compile_fn(f: FnId, fdef: &FnDef, out: &mut String, ir: &IR)
    requires
        fn_compilable_in(f, *fdef, *ir),
    ensures
        final(out)@ == old(out)@ + fn_c(f, *fdef, *ir),
{
    write_fn_head(f, fdef, out);
    push_str(out, " {\n");
    push_char(out, ' ');
    let bs = &fdef.blocks.entries;
    let ghost gd = |p: (BlkId, BlkDef)| types_c(p.1.types.entries@);
    let ghost m1 = out@;
    let mut k: usize = 0;
    assert(bs@.take(0).map_values(gd) =~= Seq::<Seq<char>>::empty());
    while k < bs.len()
        invariant
            k <= bs@.len(),
            *bs == fdef.blocks.entries,
            gd == (|p: (BlkId, BlkDef)| types_c(p.1.types.entries@)),
            out@ == m1 + cat(bs@.take(k as int).map_values(gd)),
        decreases bs.len() - k,
    {
        push_types(out, &bs[k].1.types.entries);
        proof {
            lemma_cat_map_step(bs@, gd, k as int);
        }
        assert(out@ =~= m1 + cat(bs@.take(k + 1).map_values(gd)));
        k = k + 1;
    }
    assert(bs@.take(bs@.len() as int) =~= bs@);
    push_char(out, '\n');
    push_str(out, "  ");
    let start = fdef.start;
    let sargs = &fdef.blocks.get(&start).unwrap().args;
    let ghost items = Seq::new(sargs@.len(), |i: int| val_c(sargs@[i]) + " = a_"@ + dec(i as nat) + "; "@);
    let ghost m2 = out@;
    let mut i: usize = 0;
    while i < sargs.len()
        invariant
            i <= sargs@.len(),
            items == Seq::new(sargs@.len(), |i: int| val_c(sargs@[i]) + " = a_"@ + dec(i as nat) + "; "@),
            out@ == m2 + cat(items.take(i as int)),
        decreases sargs.len() - i,
    {
        push_val(out, sargs[i]);
        push_str(out, " = a_");
        push_usize(out, i);
        push_str(out, "; ");
        proof {
            assert(items.take(i + 1).drop_last() =~= items.take(i as int));
        }
        assert(out@ =~= m2 + cat(items.take(i + 1)));
        i = i + 1;
    }
    assert(items.take(sargs@.len() as int) =~= items);
    push_str(out, "goto bb_");
    push_usize(out, start);
    push_str(out, ";\n");
    let ghost gb = |p: (BlkId, BlkDef)| blk_c(p.0, p.1, f, *ir);
    let ghost m3 = out@;
    let mut j: usize = 0;
    assert(bs@.take(0).map_values(gb) =~= Seq::<Seq<char>>::empty());
    while j < bs.len()
        invariant
            j <= bs@.len(),
            *bs == fdef.blocks.entries,
            fn_compilable_in(f, *fdef, *ir),
            gb == (|p: (BlkId, BlkDef)| blk_c(p.0, p.1, f, *ir)),
            out@ == m3 + cat(bs@.take(j as int).map_values(gb)),
        decreases bs.len() - j,
    {
        let ghost bd = bs@[j as int].1;
        assert(targets_exist(bd.terminator, f, *ir));
        push_blk(out, bs[j].0, &bs[j].1, f, ir);
        proof {
            lemma_cat_map_step(bs@, gb, j as int);
        }
        assert(out@ =~= m3 + cat(bs@.take(j + 1).map_values(gb)));
        j = j + 1;
    }
    assert(bs@.take(bs@.len() as int) =~= bs@);
    push_str(out, "}\n\n");
    assert(out@ =~= old(out)@ + fn_c(f, *fdef, *ir));
}

/// The C program: the runtime's header, the heads of all functions, their
/// definitions, and a `main` that calls the start function.
pub open spec fn ir_c(ir: IR) -> Seq<char> {
    "#include "@ + seq!['\x22'] + "preamble.h"@ + seq!['\x22'] + "\n\n"@
        + cat(ir.fns.entries@.map_values(|p: (FnId, FnDef)| head_c(p.0, p.1) + ";\n"@))
        + cat(ir.fns.entries@.map_values(|p: (FnId, FnDef)| fn_c(p.0, p.1, ir)))
        + "int main() { fn_"@ + dec(ir.start as nat) + "(); }"@
}

/// The C program for `ir`.
#[verifier::rlimit(40)]
#[verifier::spinoff_prover]
pub fn compile_ir(ir: &IR) -> (r: String)
    requires
        compilable(*ir),
    ensures
        r@ == ir_c(*ir),
{
    let mut out = String::new();
    push_str(&mut out, "#include ");
    push_char(&mut out, '\x22');
    push_str(&mut out, "preamble.h");
    push_char(&mut out, '\x22');
    push_str(&mut out, "\n\n");
    let fs = &ir.fns.entries;
    let ghost gh = |p: (FnId, FnDef)| head_c(p.0, p.1) + ";\n"@;
    let ghost m1 = out@;
    let mut i: usize = 0;
    assert(fs@.take(0).map_values(gh) =~= Seq::<Seq<char>>::empty());
    while i < fs.len()
        invariant
            i <= fs@.len(),
            *fs == ir.fns.entries,
            compilable(*ir),
            gh == (|p: (FnId, FnDef)| head_c(p.0, p.1) + ";\n"@),
            out@ == m1 + cat(fs@.take(i as int).map_values(gh)),
        decreases fs.len() - i,
    {
        assert(fn_compilable(fs@[i as int].1));
        write_fn_head(fs[i].0, &fs[i].1, &mut out);
        push_str(&mut out, ";\n");
        proof {
            lemma_cat_map_step(fs@, gh, i as int);
        }
        assert(out@ =~= m1 + cat(fs@.take(i + 1).map_values(gh)));
        i = i + 1;
    }
    assert(fs@.take(fs@.len() as int) =~= fs@);
    let ghost gf = |p: (FnId, FnDef)| fn_c(p.0, p.1, *ir);
    let ghost m2 = out@;
    let mut j: usize = 0;
    assert(fs@.take(0).map_values(gf) =~= Seq::<Seq<char>>::empty());
    while j < fs.len()
        invariant
            j <= fs@.len(),
            *fs == ir.fns.entries,
            compilable(*ir),
            gf == (|p: (FnId, FnDef)| fn_c(p.0, p.1, *ir)),
            out@ == m2 + cat(fs@.take(j as int).map_values(gf)),
        decreases fs.len() - j,
    {
        proof {
            lemma_map_of_entry(fs@, j as int);
        }
        proof {
            let d = fs@[j as int].1;
            assert(fn_compilable(d));
            assert(ir.fns.view()[fs@[j as int].0] == d);
            assert forall|i: int| 0 <= i < d.blocks.entries@.len() implies
                targets_exist((#[trigger] d.blocks.entries@[i]).1.terminator, fs@[j as int].0, *ir) by {
                assert(forall|b: BlkId| jumps_to(d.blocks.entries@[i].1.terminator, b) ==> #[trigger] d.blocks.view().contains_key(b));
            }
            assert(fn_compilable_in(fs@[j as int].0, d, *ir));
        }
        compile_fn(fs[j].0, &fs[j].1, &mut out, ir);
        proof {
            lemma_cat_map_step(fs@, gf, j as int);
        }
        assert(out@ =~= m2 + cat(fs@.take(j + 1).map_values(gf)));
        j = j + 1;
    }
    assert(fs@.take(fs@.len() as int) =~= fs@);
    push_str(&mut out, "int main() { fn_");
    push_usize(&mut out, ir.start);
    push_str(&mut out, "(); }");
    assert(out@ =~= ir_c(*ir));
    out
}

/// Whether the C back end handles `e`.
pub fn is_expr_compilable(e: &Expr) -> (r: bool)
    ensures
        r == expr_compilable(*e),
{
    match e {
        Expr::StringLit(_) | Expr::IntLit(_) | Expr::BoolLit(_) | Expr::NilLit | Expr::BinOp(..) | Expr::Fn(_)
        | Expr::FnCall(..) => true,
        Expr::TToValue(_, t) => *t != Ty::Value,
        Expr::ValueToT(_, t) => *t != Ty::Value,
        _ => false,
    }
}

/// Whether the C back end handles `s`.
pub fn is_stmt_compilable(s: &Stmt) -> (r: bool)
    ensures
        r == stmt_compilable(*s),
{
    match s {
        Stmt::Print(_) => true,
        Stmt::Compute(_, e) => is_expr_compilable(e),
        _ => false,
    }
}

/// Whether every jump target of `t` is a block of `d`.
fn targets_in(t: &Terminator, d: &FnDef) -> (r: bool)
    requires
        d.blocks.wf(),
    ensures
        r == (forall|b: BlkId| jumps_to(*t, b) ==> #[trigger] d.blocks.view().contains_key(b)),
{
    match t {
        Terminator::Goto(x) => d.blocks.position(&x.0).is_some(),
        Terminator::IfGoto(_, x, y) => d.blocks.position(&x.0).is_some() && d.blocks.position(&y.0).is_some(),
        _ => true,
    }
}

/// Whether function `d` can be compiled.
pub fn is_fn_compilable(d: &FnDef) -> (r: bool)
    ensures
        r == fn_compilable(*d),
{
    if !d.blocks.keys_distinct() {
        return false;
    }
    if d.blocks.position(&d.start).is_none() {
        return false;
    }
    let bs = &d.blocks.entries;
    let mut i: usize = 0;
    while i < bs.len()
        invariant
            i <= bs@.len(),
            *bs == d.blocks.entries,
            d.blocks.wf(),
            forall|k: int| 0 <= k < i ==> {
                let bd = (#[trigger] bs@[k]).1;
                &&& forall|j: int| 0 <= j < bd.stmts@.len() ==> stmt_compilable(#[trigger] bd.stmts@[j])
                &&& forall|b: BlkId| jumps_to(bd.terminator, b) ==> #[trigger] d.blocks.view().contains_key(b)
            },
        decreases bs.len() - i,
    {
        let bd = &bs[i].1;
        let mut j: usize = 0;
        while j < bd.stmts.len()
            invariant
                j <= bd.stmts@.len(),
                i < bs@.len(),
                *bs == d.blocks.entries,
                *bd == bs@[i as int].1,
                forall|k: int| 0 <= k < j ==> stmt_compilable(#[trigger] bd.stmts@[k]),
            decreases bd.stmts.len() - j,
        {
            if !is_stmt_compilable(&bd.stmts[j]) {
                assert(!stmt_compilable(bs@[i as int].1.stmts@[j as int]));
                return false;
            }
            j = j + 1;
        }
        if !targets_in(&bd.terminator, d) {
            return false;
        }
        i = i + 1;
    }
    true
}

/// Whether the program can be compiled.
pub fn is_compilable(ir: &IR) -> (r: bool)
    ensures
        r == compilable(*ir),
{
    if !ir.fns.keys_distinct() {
        return false;
    }
    let fs = &ir.fns.entries;
    let mut i: usize = 0;
    while i < fs.len()
        invariant
            i <= fs@.len(),
            *fs == ir.fns.entries,
            forall|k: int| 0 <= k < i ==> fn_compilable(#[trigger] fs@[k].1),
        decreases fs.len() - i,
    {
        if !is_fn_compilable(&fs[i].1) {
            return false;
        }
        i = i + 1;
    }
    true
}

} // verus!
