use vstd::prelude::*;

verus! {

#[derive(Debug, PartialEq, Eq, Clone, Copy, Structural)]
pub enum Lit {
    Int(i64),
}

#[derive(Debug, PartialEq, Eq, Clone, Copy, Structural)]
pub enum BinOp {
    Add,
    Subtract,
    Multiply,
    Divide,
}

/// How tightly an operator binds; higher binds tighter.
pub open spec fn prec_of(op: BinOp) -> nat {
    match op {
        BinOp::Add | BinOp::Subtract => 10,
        BinOp::Multiply | BinOp::Divide => 20,
    }
}

impl BinOp {
    pub fn precedence(self) -> (r: usize)
        ensures
            r == prec_of(self),
    {
        match self {
            BinOp::Add | BinOp::Subtract => 10,
            BinOp::Multiply | BinOp::Divide => 20,
        }
    }
}

#[derive(Debug, PartialEq, Eq)]
pub enum Expr {
    Constant(Lit),
    Binary(Box<Expr>, Box<Expr>, BinOp),
}

impl Expr {
    pub fn constant(val: i64) -> (r: Expr)
        ensures
            r == Expr::Constant(Lit::Int(val)),
    {
        Expr::Constant(Lit::Int(val))
    }

    pub fn binary(l: Expr, r: Expr, op: BinOp) -> (e: Expr)
        ensures
            e == Expr::Binary(Box::new(l), Box::new(r), op),
    {
        Expr::Binary(Box::new(l), Box::new(r), op)
    }

    /// The precedence of the expression's top operator; 0 for a constant.
    pub fn precedence(&self) -> (r: usize)
        ensures
            r == match self {
                Expr::Constant(_) => 0,
                Expr::Binary(_, _, op) => prec_of(*op),
            },
    {
        match self {
            Expr::Constant(_) => 0,
            Expr::Binary(_, _, op) => op.precedence(),
        }
    }
}

impl From<i64> for Lit {
    fn from(v: i64) -> (r: Lit) {
        Lit::Int(v)
    }
}

impl vstd::std_specs::convert::FromSpecImpl<i64> for Lit {
    open spec fn obeys_from_spec() -> bool {
        true
    }

    open spec fn from_spec(v: i64) -> Lit {
        Lit::Int(v)
    }
}

} // verus!
