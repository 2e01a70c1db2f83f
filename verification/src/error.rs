//! The errors of the conversion code.

use vstd::prelude::*;
use crate::text::joined;

verus! {

/// What can be wrong with a call.
pub enum Error {
    /// The configuration does not fit.
    Config(String),
    /// The input does not fit.
    Input(String),
}

impl Error {
    /// The text of the error.
    pub open spec fn text(&self) -> Seq<char> {
        match self {
            Error::Config(m) => "invalid configuration: "@ + m@,
            Error::Input(m) => "invalid input: "@ + m@,
        }
    }

    /// The text of the error.
    pub fn message(&self) -> (s: String)
        ensures
            s@ == self.text(),
    {
        match self {
            Error::Config(m) => joined("invalid configuration: ", m.as_str()),
            Error::Input(m) => joined("invalid input: ", m.as_str()),
        }
    }
}

/// Whether `r` is an input error with the text `m`.
pub open spec fn input_error<T>(r: Result<T, Error>, m: Seq<char>) -> bool {
    r is Err && r->Err_0 is Input && r->Err_0->Input_0@ == m
}

} // verus!
