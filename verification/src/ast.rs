//! The syntax tree of Cotowali programs.
use vstd::prelude::*;

verus! {

/// An expression.
#[derive(Clone, Copy, PartialEq, Eq, Structural, Debug)]
pub enum Expr {
    IntLiteral(i64),
}

/// A statement.
#[derive(Clone, Copy, PartialEq, Eq, Structural, Debug)]
pub enum Stmt {
    Expr(Expr),
}

/// A whole program: its statements, in order.
#[derive(Clone, PartialEq, Eq, Debug)]
pub struct File {
    pub stmts: Vec<Stmt>,
}

impl File {
    /// A program without statements.
    pub fn new() -> (res: File)
        ensures
            res.stmts@ == Seq::<Stmt>::empty(),
    {
        File { stmts: Vec::new() }
    }
}

} // verus!
