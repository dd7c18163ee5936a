use vstd::prelude::*;

verus! {

broadcast use vstd::seq::axiom_seq_index_decreases, vstd::std_specs::vec::axiom_vec_decreases_to_view;

/// The four arithmetic operators of the surface language.
#[derive(Clone, Copy, PartialEq, Eq, Structural, Debug)]
pub enum BinOp {
    Add,
    Sub,
    Mul,
    Div,
}

/// Mathematical model of an expression: the same tree shape as [`Expr`],
/// with text held as `Seq<char>`.
pub ghost enum ExprM {
    Number(Seq<char>),
    Str(Seq<char>),
    Ident(Seq<char>),
    Binary { op: BinOp, lhs: Box<ExprM>, rhs: Box<ExprM> },
    Call { callee: Seq<char>, args: Seq<ExprM> },
}

/// Mathematical model of a statement.
pub ghost enum StmtM {
    Expr(ExprM),
    Let { name: Seq<char>, expr: ExprM },
    If { cond: ExprM, then_block: Seq<StmtM>, else_block: Seq<StmtM> },
}

/// An expression of the surface language. Number literals keep their
/// decimal text, already validated and canonicalized by the lexer.
#[derive(Debug)]
pub enum Expr {
    Number(String),
    Str(String),
    Ident(String),
    Binary { op: BinOp, lhs: Box<Expr>, rhs: Box<Expr> },
    Call { callee: String, args: Vec<Expr> },
}

/// A statement of the surface language.
#[derive(Debug)]
pub enum Stmt {
    Expr(Expr),
    Let { name: String, expr: Expr },
    If { cond: Expr, then_block: Vec<Stmt>, else_block: Vec<Stmt> },
}

/// One compiled unit: the ordered top-level statements.
#[derive(Debug)]
pub struct Module {
    pub stmts: Vec<Stmt>,
}

pub open spec fn expr_view(e: Expr) -> ExprM
    decreases e,
{
    match e {
        Expr::Number(s) => ExprM::Number(s@),
        Expr::Str(s) => ExprM::Str(s@),
        Expr::Ident(s) => ExprM::Ident(s@),
        Expr::Binary { op, lhs, rhs } => ExprM::Binary {
            op: op,
            lhs: Box::new(expr_view(*lhs)),
            rhs: Box::new(expr_view(*rhs)),
        },
        Expr::Call { callee, args } => ExprM::Call {
            callee: callee@,
            args: exprs_view(args@),
        },
    }
}

pub open spec fn exprs_view(s: Seq<Expr>) -> Seq<ExprM>
    decreases s,
{
    Seq::new(s.len(), |i: int| if 0 <= i < s.len() { expr_view(s[i]) } else { arbitrary() })
}

pub open spec fn stmt_view(s: Stmt) -> StmtM
    decreases s,
{
    match s {
        Stmt::Expr(e) => StmtM::Expr(expr_view(e)),
        Stmt::Let { name, expr } => StmtM::Let { name: name@, expr: expr_view(expr) },
        Stmt::If { cond, then_block, else_block } => StmtM::If {
            cond: expr_view(cond),
            then_block: stmts_view(then_block@),
            else_block: stmts_view(else_block@),
        },
    }
}

pub open spec fn stmts_view(s: Seq<Stmt>) -> Seq<StmtM>
    decreases s,
{
    Seq::new(s.len(), |i: int| if 0 <= i < s.len() { stmt_view(s[i]) } else { arbitrary() })
}

impl View for Expr {
    type V = ExprM;

    open spec fn view(&self) -> ExprM {
        expr_view(*self)
    }
}

impl View for Stmt {
    type V = StmtM;

    open spec fn view(&self) -> StmtM {
        stmt_view(*self)
    }
}

impl View for Module {
    type V = Seq<StmtM>;

    open spec fn view(&self) -> Seq<StmtM> {
        stmts_view(self.stmts@)
    }
}

} // verus!
