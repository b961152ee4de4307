use vstd::prelude::*;

use crate::tokenizer::{self, Token};

verus! {

#[derive(PartialEq, Eq, Debug, Clone)]
pub enum Error {
    /// The tokens ended where an expression needed one more.
    UnexpectedEndOfFile,
    /// A token that cannot start a primary expression stood where one was needed.
    UnexpectedToken(Token),
    /// Reading the next token failed.
    TokenizerError(tokenizer::Error),
}

impl From<tokenizer::Error> for Error {
    fn from(e: tokenizer::Error) -> (r: Error) {
        Error::TokenizerError(e)
    }
}

impl vstd::std_specs::convert::FromSpecImpl<tokenizer::Error> for Error {
    open spec fn obeys_from_spec() -> bool {
        true
    }

    open spec fn from_spec(e: tokenizer::Error) -> Error {
        Error::TokenizerError(e)
    }
}

} // verus!
