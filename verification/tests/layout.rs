use gradu::analysis::{analyze, Location, TypeLattice};
use gradu::ast::{Expr, FnDef, Stmt, AST};
use gradu::layout::{
    choose_tags, layout, layout_lat, to_layout_location, uf_find, uf_union, CallSite, LayoutLocation,
    LayoutType, UnionFind,
};
use gradu::nameres::nameres;
use gradu::symbol::Symbol;

fn sym(s: &str) -> Symbol {
    Symbol::new(s)
}

#[test]
fn union_find_joins_and_separates() {
    let mut uf = UnionFind::new(4);
    assert_eq!(uf_find(1, &uf), 1);
    uf_union(0, 2, &mut uf);
    assert_eq!(uf_find(0, &uf), uf_find(2, &uf));
    assert_ne!(uf_find(0, &uf), uf_find(1, &uf));
    uf_union(2, 3, &mut uf);
    assert_eq!(uf_find(0, &uf), uf_find(3, &uf));
    uf_union(3, 0, &mut uf);
    assert_eq!(uf_find(0, &uf), uf_find(3, &uf));
    assert_eq!(uf_find(1, &uf), 1);
}

#[test]
fn layout_lat_picks_single_kind() {
    let tags = vec![10, 10, 11];
    let int_only = TypeLattice { might_be_int: true, ..TypeLattice::bot() };
    assert_eq!(layout_lat(&int_only, &tags), LayoutType::Int);
    let b = TypeLattice { might_be_bool: true, ..TypeLattice::bot() };
    assert_eq!(layout_lat(&b, &tags), LayoutType::Bool);
    let d = TypeLattice { might_be_dict: true, ..TypeLattice::bot() };
    assert_eq!(layout_lat(&d, &tags), LayoutType::Dict);
    let mixed = TypeLattice { might_be_int: true, might_be_str: true, ..TypeLattice::bot() };
    assert_eq!(layout_lat(&mixed, &tags), LayoutType::Value);
    assert_eq!(layout_lat(&TypeLattice::bot(), &tags), LayoutType::Value);
}

#[test]
fn layout_lat_functions_need_one_tag() {
    let tags = vec![10, 10, 11];
    let same = TypeLattice { fn_options: vec![0, 1], ..TypeLattice::bot() };
    assert_eq!(layout_lat(&same, &tags), LayoutType::Fn(10));
    let differ = TypeLattice { fn_options: vec![1, 2], ..TypeLattice::bot() };
    assert_eq!(layout_lat(&differ, &tags), LayoutType::Value);
    let fn_and_int = TypeLattice { might_be_int: true, fn_options: vec![0], ..TypeLattice::bot() };
    assert_eq!(layout_lat(&fn_and_int, &tags), LayoutType::Value);
}

/// f(a) { return a }   g(b) { return 1 }   h() { return 2 }
/// main: k = f; k = g; r = k(1); s = h()
fn two_callee_program() -> AST {
    let f = FnDef { name: sym("f"), args: vec![sym("a")], body: vec![Stmt::Return(Expr::Var(sym("a")))] };
    let g = FnDef { name: sym("g"), args: vec![sym("b")], body: vec![Stmt::Return(Expr::IntLit(1))] };
    let h = FnDef { name: sym("h"), args: vec![], body: vec![Stmt::Return(Expr::IntLit(2))] };
    let main = FnDef {
        name: sym("main"),
        args: vec![],
        body: vec![
            Stmt::Assign(sym("k"), Expr::FnId(0)),
            Stmt::Assign(sym("k"), Expr::FnId(1)),
            Stmt::Assign(sym("r"), Expr::FnCall(Box::new(Expr::Var(sym("k"))), vec![Expr::IntLit(1)])),
            Stmt::Assign(sym("s"), Expr::FnCall(Box::new(Expr::FnId(2)), vec![])),
        ],
    };
    AST { fns: vec![f, g, h, main], main_fn: 3 }
}

#[test]
fn callees_of_one_call_share_a_tag() {
    let ast = two_callee_program();
    let nr = nameres(&ast);
    let a = analyze(&ast, &nr);
    let (tags, calls) = choose_tags(&ast, &nr, &a);
    assert_eq!(tags.len(), 4);
    assert_eq!(tags[0], tags[1]);
    assert_ne!(tags[0], tags[2]);
    assert_ne!(tags[2], tags[3]);
    assert!(tags.iter().all(|t| *t >= 10));
    assert_eq!(tags[0], 10);
    let first = calls.get(&CallSite { fid: 3, index: 0 }).copied();
    assert_eq!(first, Some(tags[0]));
    let second = calls.get(&CallSite { fid: 3, index: 1 }).copied();
    assert_eq!(second, Some(tags[2]));
}

#[test]
fn arguments_are_placed_by_tag_and_position() {
    let ast = two_callee_program();
    let tags = vec![10, 10, 11, 12];
    assert_eq!(to_layout_location(Location::Var(1, sym("b")), &ast, &tags), LayoutLocation::Arg(10, 0));
    assert_eq!(to_layout_location(Location::Var(3, sym("k")), &ast, &tags), LayoutLocation::Var(3, sym("k")));
    assert_eq!(to_layout_location(Location::RetVal(2), &ast, &tags), LayoutLocation::RetVal(11));
    assert_eq!(to_layout_location(Location::ListItem, &ast, &tags), LayoutLocation::ListItem);
}

#[test]
fn layout_merges_arguments_of_a_group() {
    let ast = two_callee_program();
    let nr = nameres(&ast);
    let a = analyze(&ast, &nr);
    let l = layout(&ast, &nr, &a);
    let t = l.fn_to_tag[0];
    assert_eq!(l.locs.get(&LayoutLocation::Arg(t, 0)).copied(), Some(LayoutType::Int));
    assert_eq!(l.locs.get(&LayoutLocation::RetVal(t)).copied(), Some(LayoutType::Int));
    assert_eq!(l.locs.get(&LayoutLocation::GlobalVar(sym("k"))).copied(), Some(LayoutType::Fn(t)));
}

#[test]
fn union_links_only_the_old_root() {
    let mut uf = UnionFind::new(4);
    uf_union(0, 1, &mut uf);
    assert_eq!(uf.parent, vec![Some(1), None, None, None]);
    uf_union(0, 2, &mut uf);
    // the root of 0 (which is 1) now points to 2; no other link changes
    assert_eq!(uf.parent, vec![Some(1), Some(2), None, None]);
    let before = uf.parent.clone();
    uf_union(1, 0, &mut uf);
    assert_eq!(uf.parent, before);
    assert_eq!(uf_find(0, &uf), 2);
    assert_eq!(uf_find(3, &uf), 3);
}
