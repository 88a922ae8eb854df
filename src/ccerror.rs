//! The error type of the preprocessor.
use vstd::prelude::*;

use crate::source::Point;

verus! {

/// Any preprocessor error: a message, and the place in the source where
/// the offending construct began, where there is one.
#[derive(Debug, PartialEq)]
pub struct CcError {
    pub what: String,
    pub loc: Option<Point>,
}

impl CcError {
    /// Construct from a string.
    pub fn new(what: String) -> (r: Self)
        ensures
            r.what@ == what@,
            r.loc is None,
    {
        CcError { what, loc: None }
    }

    /// Construct from a literal.
    pub fn from_str(what: &str) -> (r: Self)
        ensures
            r.what@ == what@,
            r.loc is None,
    {
        CcError { what: what.to_owned(), loc: None }
    }

    /// Construct from a string with an associated source code location.
    pub fn err_with_loc(what: String, loc: Point) -> (r: Self)
        ensures
            r.what@ == what@,
            r.loc == Some(loc),
    {
        CcError { what, loc: Some(loc) }
    }
}

} // verus!
