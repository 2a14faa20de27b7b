use gradu::ast::{BinOpKind, Expr, Stmt};
use gradu::symbol::Symbol;
use gradu::visit::{visit_body, visit_body_mut, MutVisitor, Visitor};

struct Bump {
    exprs: usize,
    stmts: usize,
}

impl MutVisitor for Bump {
    type State = (usize, usize);

    fn state(&self) -> (usize, usize) {
        (self.exprs, self.stmts)
    }

    fn expr_step(st: (usize, usize), e: Expr) -> ((usize, usize), Expr) {
        let mut e = e;
        if let Expr::IntLit(n) = &mut e {
            *n += 1;
        }
        ((st.0 + 1, st.1), e)
    }

    fn stmt_step(st: (usize, usize), s: Stmt) -> ((usize, usize), Stmt) {
        ((st.0, st.1 + 1), s)
    }

    fn lemma_expr_step(_st: (usize, usize), _e: Expr) {}

    fn lemma_stmt_step(_st: (usize, usize), _s: Stmt) {}

    fn on_expr(&mut self, e: &mut Expr) {
        self.exprs += 1;
        if let Expr::IntLit(n) = e {
            *n += 1;
        }
    }

    fn on_stmt(&mut self, _s: &mut Stmt) {
        self.stmts += 1;
    }
}

struct Count {
    exprs: usize,
    stmts: usize,
}

impl Visitor for Count {
    type State = (usize, usize);

    fn state(&self) -> (usize, usize) {
        (self.exprs, self.stmts)
    }

    fn after_expr(st: (usize, usize), _e: Expr) -> (usize, usize) {
        (st.0 + 1, st.1)
    }

    fn after_stmt(st: (usize, usize), _s: Stmt) -> (usize, usize) {
        (st.0, st.1 + 1)
    }

    fn on_expr(&mut self, _e: &Expr) {
        self.exprs += 1;
    }

    fn on_stmt(&mut self, _s: &Stmt) {
        self.stmts += 1;
    }
}

fn sample() -> Vec<Stmt> {
    let x = Symbol::new("x");
    vec![
        Stmt::Assign(x, Expr::BinOp(BinOpKind::Plus, Box::new(Expr::IntLit(1)), Box::new(Expr::Var(x)))),
        Stmt::While(
            Expr::BoolLit(true),
            vec![Stmt::Print(Expr::FnCall(Box::new(Expr::FnId(0)), vec![Expr::IntLit(5), Expr::IntLit(6)]))],
        ),
    ]
}

#[test]
fn visit_counts_nodes() {
    let body = sample();
    let mut c = Count { exprs: 0, stmts: 0 };
    visit_body(&body, &mut c);
    assert_eq!(c.stmts, 3);
    assert_eq!(c.exprs, 8);
}

#[test]
fn visit_mut_rewrites_every_expression() {
    let mut body = sample();
    let mut b = Bump { exprs: 0, stmts: 0 };
    visit_body_mut(&mut body, &mut b);
    assert_eq!(b.stmts, 3);
    assert_eq!(b.exprs, 8);
    match &body[0] {
        Stmt::Assign(_, Expr::BinOp(_, l, _)) => assert!(matches!(**l, Expr::IntLit(2))),
        _ => panic!("shape changed"),
    }
    match &body[1] {
        Stmt::While(_, inner) => match &inner[0] {
            Stmt::Print(Expr::FnCall(_, args)) => {
                assert!(matches!(args[0], Expr::IntLit(6)));
                assert!(matches!(args[1], Expr::IntLit(7)));
            },
            _ => panic!("shape changed"),
        },
        _ => panic!("shape changed"),
    }
}

struct Keep {
    exprs: usize,
    stmts: usize,
}

impl MutVisitor for Keep {
    type State = (usize, usize);

    fn state(&self) -> (usize, usize) {
        (self.exprs, self.stmts)
    }

    fn expr_step(st: (usize, usize), e: Expr) -> ((usize, usize), Expr) {
        ((st.0 + 1, st.1), e)
    }

    fn stmt_step(st: (usize, usize), s: Stmt) -> ((usize, usize), Stmt) {
        ((st.0, st.1 + 1), s)
    }

    fn lemma_expr_step(_st: (usize, usize), _e: Expr) {}

    fn lemma_stmt_step(_st: (usize, usize), _s: Stmt) {}

    fn on_expr(&mut self, _e: &mut Expr) {
        self.exprs += 1;
    }

    fn on_stmt(&mut self, _s: &mut Stmt) {
        self.stmts += 1;
    }
}

#[test]
fn keeping_walk_is_the_plain_walk() {
    let mut body = sample();
    let mut k = Keep { exprs: 0, stmts: 0 };
    visit_body_mut(&mut body, &mut k);
    let mut c = Count { exprs: 0, stmts: 0 };
    visit_body(&sample(), &mut c);
    assert_eq!((k.exprs, k.stmts), (c.exprs, c.stmts));
    match &body[0] {
        Stmt::Assign(_, Expr::BinOp(BinOpKind::Plus, l, r)) => {
            assert!(matches!(**l, Expr::IntLit(1)));
            assert!(matches!(**r, Expr::Var(_)));
        },
        _ => panic!("shape changed"),
    }
    match &body[1] {
        Stmt::While(Expr::BoolLit(true), inner) => match &inner[0] {
            Stmt::Print(Expr::FnCall(f, args)) => {
                assert!(matches!(**f, Expr::FnId(0)));
                assert!(matches!(args[0], Expr::IntLit(5)));
                assert!(matches!(args[1], Expr::IntLit(6)));
            },
            _ => panic!("shape changed"),
        },
        _ => panic!("shape changed"),
    }
}
