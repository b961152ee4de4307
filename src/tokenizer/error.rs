use vstd::prelude::*;

use crate::text;

verus! {

#[verifier::external_type_specification]
#[verifier::external_body]
pub struct ExParseIntError(std::num::ParseIntError);

/// Relies on the `Clone` impl of `ParseIntError`, which std derives.
pub assume_specification[ <std::num::ParseIntError as Clone>::clone ](
    e: &std::num::ParseIntError,
) -> std::num::ParseIntError;

#[derive(PartialEq, Eq, Debug, Clone)]
pub enum Error {
    TextError(text::Error),
    ParseIntError(std::num::ParseIntError),
}

impl From<text::Error> for Error {
    fn from(e: text::Error) -> (r: Error) {
        Error::TextError(e)
    }
}

impl vstd::std_specs::convert::FromSpecImpl<text::Error> for Error {
    open spec fn obeys_from_spec() -> bool {
        true
    }

    open spec fn from_spec(e: text::Error) -> Error {
        Error::TextError(e)
    }
}

impl From<std::num::ParseIntError> for Error {
    fn from(e: std::num::ParseIntError) -> (r: Error) {
        Error::ParseIntError(e)
    }
}

impl vstd::std_specs::convert::FromSpecImpl<std::num::ParseIntError> for Error {
    open spec fn obeys_from_spec() -> bool {
        true
    }

    open spec fn from_spec(e: std::num::ParseIntError) -> Error {
        Error::ParseIntError(e)
    }
}

} // verus!
