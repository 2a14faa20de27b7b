use gradu::assoc::AssocMap;
use gradu::ast::{BinOpKind, Expr, FnDef, Stmt, AST};
use gradu::symbol::Symbol;
use gradu::ty::{
    fn_type_of, get_var_loc, is_global_var, layout, ty_infer, ty_infer_expr, LayoutType, Location, TypeLattice,
};

fn sym(s: &str) -> Symbol {
    Symbol::new(s)
}

fn lookup(m: &AssocMap<Location, TypeLattice>, l: Location) -> &TypeLattice {
    m.get(&l).expect("location recorded")
}

fn only_int(t: &TypeLattice) -> bool {
    t.might_be_int && !t.might_be_bool && !t.might_be_nil && !t.might_be_str && !t.might_be_list && t.fn_options.is_empty()
}

/// f(a) { return a }   main: y = f(1)
fn call_program() -> AST {
    let f = FnDef { name: sym("f"), args: vec![sym("a")], body: vec![Stmt::Return(Expr::Var(sym("a")))] };
    let main = FnDef {
        name: sym("main"),
        args: vec![],
        body: vec![Stmt::Assign(sym("y"), Expr::FnCall(Box::new(Expr::FnId(0)), vec![Expr::IntLit(1)]))],
    };
    AST { fns: vec![f, main], main_fn: 1 }
}

/// f(a) { return a }   main: g = f; y = g(1)
fn fn_value_program() -> AST {
    let f = FnDef { name: sym("f"), args: vec![sym("a")], body: vec![Stmt::Return(Expr::Var(sym("a")))] };
    let main = FnDef {
        name: sym("main"),
        args: vec![],
        body: vec![
            Stmt::Assign(sym("g"), Expr::FnId(0)),
            Stmt::Assign(sym("y"), Expr::FnCall(Box::new(Expr::Var(sym("g"))), vec![Expr::IntLit(1)])),
        ],
    };
    AST { fns: vec![f, main], main_fn: 1 }
}

/// f(a) { return a }   main: print(f(f))
fn self_applied_program() -> AST {
    let f = FnDef { name: sym("f"), args: vec![sym("a")], body: vec![Stmt::Return(Expr::Var(sym("a")))] };
    let main = FnDef {
        name: sym("main"),
        args: vec![],
        body: vec![Stmt::Print(Expr::FnCall(Box::new(Expr::FnId(0)), vec![Expr::FnId(0)]))],
    };
    AST { fns: vec![f, main], main_fn: 1 }
}

/// main: x = input; l = []; l.push(x)
fn input_program() -> AST {
    let main = FnDef {
        name: sym("main"),
        args: vec![],
        body: vec![
            Stmt::Assign(sym("x"), Expr::Input),
            Stmt::Assign(sym("l"), Expr::NewList),
            Stmt::Push(Expr::Var(sym("l")), Expr::Var(sym("x"))),
        ],
    };
    AST { fns: vec![main], main_fn: 0 }
}

/// h(p) { global q; r = p; return r }   main: h(true)
fn globals_program() -> AST {
    let h = FnDef {
        name: sym("h"),
        args: vec![sym("p")],
        body: vec![
            Stmt::Global(sym("q")),
            Stmt::Assign(sym("r"), Expr::Var(sym("p"))),
            Stmt::Return(Expr::Var(sym("r"))),
        ],
    };
    let main = FnDef {
        name: sym("main"),
        args: vec![],
        body: vec![Stmt::Print(Expr::FnCall(Box::new(Expr::FnId(0)), vec![Expr::BoolLit(true)]))],
    };
    AST { fns: vec![h, main], main_fn: 1 }
}

#[test]
fn ty_bot_and_merge() {
    let b = TypeLattice::bot();
    assert!(!b.might_be_bool && !b.might_be_nil && !b.might_be_str && !b.might_be_int && !b.might_be_list);
    assert!(b.fn_options.is_empty());
    let x = TypeLattice { might_be_int: true, fn_options: vec![0, 2], ..TypeLattice::bot() };
    let y = TypeLattice { might_be_str: true, fn_options: vec![1, 2], ..TypeLattice::bot() };
    let m = TypeLattice::merge(&x, &y);
    assert!(m.might_be_int && m.might_be_str && !m.might_be_bool && !m.might_be_nil && !m.might_be_list);
    assert_eq!(m.fn_options, vec![0, 1, 2]);
}

#[test]
fn globals_follow_the_rules() {
    let ast = globals_program();
    // Everything in the entry function is global.
    assert!(is_global_var(1, sym("z"), &ast));
    // Arguments are local.
    assert!(!is_global_var(0, sym("p"), &ast));
    assert_eq!(get_var_loc(0, sym("p"), &ast), Location::Var(0, sym("p")));
    // Declared global.
    assert!(is_global_var(0, sym("q"), &ast));
    // Assigned and not declared: local.
    assert!(!is_global_var(0, sym("r"), &ast));
    assert_eq!(get_var_loc(0, sym("r"), &ast), Location::Var(0, sym("r")));
    // Never assigned: global.
    assert!(is_global_var(0, sym("s"), &ast));
    assert_eq!(get_var_loc(0, sym("s"), &ast), Location::GlobalVar(sym("s")));
}

#[test]
fn infer_flows_arguments_and_results() {
    let ast = call_program();
    let (m, layouts) = ty_infer(&ast);
    assert_eq!(m.entries.len(), 5);
    assert!(only_int(lookup(&m, Location::Var(0, sym("a")))));
    assert!(only_int(lookup(&m, Location::RetVal(0))));
    assert!(only_int(lookup(&m, Location::GlobalVar(sym("y")))));
    let main_ret = lookup(&m, Location::RetVal(1));
    assert!(!main_ret.might_be_int && main_ret.fn_options.is_empty());
    let layouts = layouts.expect("every location has a representation");
    assert_eq!(layouts.get(&Location::Var(0, sym("a"))), Some(&LayoutType::Int));
    assert_eq!(layouts.get(&Location::GlobalVar(sym("y"))), Some(&LayoutType::Int));
    assert_eq!(layouts.get(&Location::RetVal(1)), Some(&LayoutType::Value));
    assert_eq!(layouts.get(&Location::ListItem), Some(&LayoutType::Value));
}

#[test]
fn infer_gives_function_representations() {
    let ast = fn_value_program();
    let (m, layouts) = ty_infer(&ast);
    let g = lookup(&m, Location::GlobalVar(sym("g")));
    assert_eq!(g.fn_options, vec![0]);
    assert!(!g.might_be_int && !g.might_be_bool && !g.might_be_nil && !g.might_be_str && !g.might_be_list);
    let expected = LayoutType::Fn(vec![LayoutType::Int], Box::new(LayoutType::Int));
    let layouts = layouts.expect("every location has a representation");
    assert_eq!(layouts.get(&Location::GlobalVar(sym("g"))), Some(&expected));
    assert_eq!(fn_type_of(0, &ast, &m), Some(LayoutType::Fn(vec![LayoutType::Int], Box::new(LayoutType::Int))));
    let lt = layout(TypeLattice { fn_options: vec![0], ..TypeLattice::bot() }, &m, &ast);
    assert_eq!(lt, Some(LayoutType::Fn(vec![LayoutType::Int], Box::new(LayoutType::Int))));
}

#[test]
fn infer_reports_endless_function_representations() {
    let ast = self_applied_program();
    let (m, layouts) = ty_infer(&ast);
    assert_eq!(lookup(&m, Location::Var(0, sym("a"))).fn_options, vec![0]);
    assert!(layouts.is_none());
    assert_eq!(fn_type_of(0, &ast, &m), None);
}

#[test]
fn infer_input_and_lists() {
    let ast = input_program();
    let (m, layouts) = ty_infer(&ast);
    let x = lookup(&m, Location::GlobalVar(sym("x")));
    assert!(x.might_be_bool && x.might_be_nil && x.might_be_str && x.might_be_int && !x.might_be_list);
    let l = lookup(&m, Location::GlobalVar(sym("l")));
    assert!(l.might_be_list && !l.might_be_int);
    let item = lookup(&m, Location::ListItem);
    assert!(item.might_be_bool && item.might_be_nil && item.might_be_str && item.might_be_int);
    let layouts = layouts.expect("every location has a representation");
    assert_eq!(layouts.get(&Location::GlobalVar(sym("x"))), Some(&LayoutType::Value));
    assert_eq!(layouts.get(&Location::GlobalVar(sym("l"))), Some(&LayoutType::List));
    assert_eq!(layouts.get(&Location::ListItem), Some(&LayoutType::Value));
}

#[test]
fn infer_expr_kinds() {
    let ast = call_program();
    let mut m: AssocMap<Location, TypeLattice> = AssocMap::new();
    let cmp = Expr::BinOp(BinOpKind::Lt, Box::new(Expr::IntLit(1)), Box::new(Expr::IntLit(2)));
    let t = ty_infer_expr(&cmp, 1, &ast, &mut m);
    assert!(t.might_be_bool && !t.might_be_int);
    let sum = Expr::BinOp(BinOpKind::Mod, Box::new(Expr::IntLit(1)), Box::new(Expr::IntLit(2)));
    let t = ty_infer_expr(&sum, 1, &ast, &mut m);
    assert!(t.might_be_int && !t.might_be_bool);
    let t = ty_infer_expr(&Expr::StringLit(String::from("s")), 1, &ast, &mut m);
    assert!(t.might_be_str && !t.might_be_int);
    let t = ty_infer_expr(&Expr::Length(Box::new(Expr::NewList)), 1, &ast, &mut m);
    assert!(only_int(&t));
    // A call records the argument at the callee's parameter.
    let call = Expr::FnCall(Box::new(Expr::FnId(0)), vec![Expr::StringLit(String::from("s"))]);
    let t = ty_infer_expr(&call, 1, &ast, &mut m);
    assert!(!t.might_be_str);
    let a = m.get(&Location::Var(0, sym("a"))).expect("parameter recorded");
    assert!(a.might_be_str && !a.might_be_int);
    // A call with the wrong number of arguments reaches no callee.
    let bad = Expr::FnCall(Box::new(Expr::FnId(0)), vec![]);
    let t = ty_infer_expr(&bad, 1, &ast, &mut m);
    assert!(!t.might_be_str && !t.might_be_int && t.fn_options.is_empty());
}

#[test]
fn layout_counts_kinds() {
    let ast = call_program();
    let (m, _) = ty_infer(&ast);
    let mixed = TypeLattice { might_be_int: true, might_be_str: true, ..TypeLattice::bot() };
    assert_eq!(layout(mixed, &m, &ast), Some(LayoutType::Value));
    assert_eq!(layout(TypeLattice { might_be_bool: true, ..TypeLattice::bot() }, &m, &ast), Some(LayoutType::Bool));
    assert_eq!(layout(TypeLattice { might_be_nil: true, ..TypeLattice::bot() }, &m, &ast), Some(LayoutType::Nil));
    assert_eq!(layout(TypeLattice { might_be_str: true, ..TypeLattice::bot() }, &m, &ast), Some(LayoutType::Str));
    assert_eq!(layout(TypeLattice::bot(), &m, &ast), Some(LayoutType::Value));
    let int_and_fn = TypeLattice { might_be_int: true, fn_options: vec![0], ..TypeLattice::bot() };
    assert_eq!(layout(int_and_fn, &m, &ast), Some(LayoutType::Value));
}

#[test]
fn callees_of_a_call_agree() {
    // f(a) { return 1 }  g(b) { return "s" }  main: h = f; h = g; y = h(true)
    let f = FnDef { name: sym("f"), args: vec![sym("a")], body: vec![Stmt::Return(Expr::IntLit(1))] };
    let g = FnDef {
        name: sym("g"),
        args: vec![sym("b")],
        body: vec![Stmt::Return(Expr::StringLit(String::from("s")))],
    };
    let main = FnDef {
        name: sym("main"),
        args: vec![],
        body: vec![
            Stmt::Assign(sym("h"), Expr::FnId(0)),
            Stmt::Assign(sym("h"), Expr::FnId(1)),
            Stmt::Assign(sym("y"), Expr::FnCall(Box::new(Expr::Var(sym("h"))), vec![Expr::BoolLit(true)])),
        ],
    };
    let ast = AST { fns: vec![f, g, main], main_fn: 2 };
    let (m, _) = ty_infer(&ast);
    let ra = lookup(&m, Location::RetVal(0));
    let rb = lookup(&m, Location::RetVal(1));
    assert!(ra.might_be_int && ra.might_be_str);
    assert!(rb.might_be_int && rb.might_be_str);
    let pa = lookup(&m, Location::Var(0, sym("a")));
    let pb = lookup(&m, Location::Var(1, sym("b")));
    assert!(pa.might_be_bool && pb.might_be_bool);
    let y = lookup(&m, Location::GlobalVar(sym("y")));
    assert!(y.might_be_int && y.might_be_str);
}

#[test]
fn inference_runs_until_nothing_changes() {
    // main: a = b; b = c; c = d; d = e; e = f; f = g; g = 1
    let names = ["a", "b", "c", "d", "e", "f", "g"];
    let mut body = Vec::new();
    for w in names.windows(2) {
        body.push(Stmt::Assign(sym(w[0]), Expr::Var(sym(w[1]))));
    }
    body.push(Stmt::Assign(sym("g"), Expr::IntLit(1)));
    let ast = AST { fns: vec![FnDef { name: sym("main"), args: vec![], body }], main_fn: 0 };
    let (m, layouts) = ty_infer(&ast);
    for n in names {
        assert!(only_int(lookup(&m, Location::GlobalVar(sym(n)))));
    }
    let layouts = layouts.expect("every location has a representation");
    assert_eq!(layouts.get(&Location::GlobalVar(sym("a"))), Some(&LayoutType::Int));
}
