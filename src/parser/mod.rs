mod error;
mod expr;
mod expression;
mod parser;

pub use self::error::Error;
pub use self::expr::{prec_of, BinOp, Expr, Lit};
pub use self::expression::{Expression, Literal};
pub use self::parser::{
    binop_of, error_kind, last_loosest, leading_binop, leading_primary, parsed, run, tree_of,
    ParseErrorKind, Parser,
};
