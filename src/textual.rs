//! Text to value and value to text, through the parser and the renderer.
use vstd::prelude::*;
use crate::wood::Wood;
use crate::error::{PositionedError, WoodposeError};
use crate::codec::{Woodable, Dewoodable, woodify, dewoodify};
use crate::parse::{parse_termpose, parse_promise};
use crate::render::rendered;

verus! {

/// `r` is an outcome of decoding the parser's outcome `parsed`: the parser's
/// error as it is, or the decoder's outcome on the tree.
pub open spec fn parsed_outcome<T: Dewoodable>(parsed: Result<Wood, PositionedError>, r: Result<T, WoodposeError>) -> bool {
    match parsed {
        Err(p) => r == Err::<T, WoodposeError>(WoodposeError::ParserError(p)),
        Ok(w) => match r {
            Ok(x) => T::dewoodifies(w, Ok(x)),
            Err(WoodposeError::DewoodifyError(e)) => T::dewoodifies(w, Err(e)),
            Err(WoodposeError::ParserError(_)) => false,
        },
    }
}

/// Decodes what the parser gave, keeping a parser error apart from a decode
/// error.
pub fn dewoodify_parsed<T: Dewoodable>(parsed: Result<Wood, PositionedError>) -> (r: Result<T, WoodposeError>)
    ensures
        parsed_outcome(parsed, r),
{
    match parsed {
        Ok(t) => match dewoodify(&t) {
            Ok(x) => Ok(x),
            Err(e) => Err(WoodposeError::DewoodifyError(e)),
        },
        Err(e) => Err(WoodposeError::ParserError(e)),
    }
}

/// Parses the text and decodes the tree with `T`'s canonical decoding: a
/// parser error as it is, or the decoder's outcome on the tree read, which
/// is what the parser promises of that text.
pub fn deserialize<T: Dewoodable>(v: &str) -> (r: Result<T, WoodposeError>)
    ensures
        exists|parsed: Result<Wood, PositionedError>| parse_promise(v@, parsed) && parsed_outcome(parsed, r),
{
    let parsed = parse_termpose(v);
    let ghost p = parsed;
    let r = dewoodify_parsed(parsed);
    assert(parse_promise(v@, p) && parsed_outcome(p, r));
    r
}

/// Encodes the value with its canonical encoding and renders the tree.
pub fn serialize<T: Woodable>(v: &T) -> (r: String)
    ensures
        exists|w: Wood| v.woodifies(w) && r@ == rendered(w),
{
    let w = woodify(v);
    w.to_string()
}

} // verus!
