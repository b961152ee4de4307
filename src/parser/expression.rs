use vstd::prelude::*;

verus! {

#[derive(Debug, PartialEq, Eq, Clone, Copy, Structural)]
pub enum Literal {
    Integer(i64),
}

#[derive(Debug, PartialEq, Eq, Clone, Copy, Structural)]
pub enum Expression {
    Lit(Literal),
}

} // verus!
