//! Positioned, chainable errors.
use vstd::prelude::*;
use crate::wood::{Wood, position};

verus! {

/// A decode failure, positioned at the node that caused it, with an optional
/// lower-level cause.
#[derive(Debug)]
pub struct DewoodifyError {
    pub line: isize,
    pub column: isize,
    pub msg: String,
    pub cause: Option<Box<DewoodifyError>>,
}

/// A failure of the textual parser, positioned in the raw text.
#[derive(Debug)]
pub struct PositionedError {
    pub line: isize,
    pub column: isize,
    pub msg: String,
}

/// A failure of a text-to-value operation: either the text did not parse, or
/// the parsed tree did not decode.
#[derive(Debug)]
pub enum WoodposeError {
    ParserError(PositionedError),
    DewoodifyError(DewoodifyError),
}

/// An error positioned at `w`, with message `msg` and no cause.
pub open spec fn error_at(e: DewoodifyError, w: Wood, msg: Seq<char>) -> bool {
    &&& (e.line, e.column) == position(w)
    &&& e.msg@ == msg
    &&& e.cause is None
}

impl DewoodifyError {
    pub fn new(source: &Wood, msg: String) -> (r: Self)
        ensures
            error_at(r, *source, msg@),
    {
        let (line, column) = source.line_and_col();
        DewoodifyError { line, column, msg, cause: None }
    }

    pub fn new_with_cause(source: &Wood, msg: String, cause: Option<Box<DewoodifyError>>) -> (r: Self)
        ensures
            (r.line, r.column) == position(*source),
            r.msg@ == msg@,
            r.cause == cause,
    {
        let (line, column) = source.line_and_col();
        DewoodifyError { line, column, msg, cause }
    }

    /// The message.
    pub fn description(&self) -> (r: &str)
        ensures
            r@ == self.msg@,
    {
        self.msg.as_str()
    }

    /// The lower-level error that this one wraps, if any.
    pub fn cause(&self) -> (r: Option<&DewoodifyError>)
        ensures
            r matches Some(c) ==> self.cause matches Some(b) && *c == *b,
            r is None <==> self.cause is None,
    {
        match &self.cause {
            Some(b) => Some(&**b),
            None => None,
        }
    }
}

} // verus!
