//! Compile errors.
use vstd::prelude::*;

use crate::source::{Loc, SpecLoc};

verus! {

/// An error and where in the source it was found.
#[derive(Clone, Debug, PartialEq, Eq)]
pub struct Error {
    pub message: String,
    pub loc: Loc,
}

/// An error in mathematical terms.
pub struct SpecError {
    pub message: Seq<char>,
    pub loc: SpecLoc,
}

impl View for Error {
    type V = SpecError;

    open spec fn view(&self) -> SpecError {
        SpecError { message: self.message@, loc: self.loc@ }
    }
}

impl Error {
    /// An error with the given message at `loc`.
    pub fn new(message: &str, loc: Loc) -> (res: Error)
        ensures
            res.message@ == message@,
            res.loc == loc,
    {
        Error { message: String::from_str(message), loc }
    }
}

/// The views of a sequence of errors.
pub open spec fn errors_view(errors: Seq<Error>) -> Seq<SpecError> {
    errors.map_values(|e: Error| e@)
}

/// The result of a step that reports every error it finds.
pub type ComposedResult<T> = Result<T, Vec<Error>>;

} // verus!
