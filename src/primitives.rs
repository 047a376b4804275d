//! Canonical encodings of booleans, text, characters and integers.
use vstd::prelude::*;
use crate::wood::{Wood, initial_text, is_leaf_of, position};
use crate::error::{DewoodifyError, error_at};
use crate::codec::{Woodable, Dewoodable};
use crate::text::str_eq;
use crate::decimal::{int_of_text, int_text, parse_int, format_int};

verus! {

/// The texts read as `true`.
pub open spec fn is_true_word(s: Seq<char>) -> bool {
    s == "true"@ || s == "⊤"@ || s == "yes"@
}

/// The texts read as `false`.
pub open spec fn is_false_word(s: Seq<char>) -> bool {
    s == "false"@ || s == "⟂"@ || s == "no"@
}

pub open spec fn bool_text(b: bool) -> Seq<char> {
    if b { "true"@ } else { "false"@ }
}

impl Woodable for bool {
    open spec fn woodifies(&self, w: Wood) -> bool {
        is_leaf_of(w, bool_text(*self))
    }

    fn woodify(&self) -> (r: Wood) {
        if *self {
            Wood::leaf(String::from_str("true"))
        } else {
            Wood::leaf(String::from_str("false"))
        }
    }
}

impl Dewoodable for bool {
    /// Reads the leading text: one of three words for each value.
    open spec fn dewoodifies(w: Wood, r: Result<bool, DewoodifyError>) -> bool {
        let s = initial_text(w);
        if is_true_word(s) {
            r == Ok::<bool, DewoodifyError>(true)
        } else if is_false_word(s) {
            r == Ok::<bool, DewoodifyError>(false)
        } else {
            r matches Err(e) && error_at(e, w, "expected a bool here"@)
        }
    }

    fn dewoodify(v: &Wood) -> (r: Result<bool, DewoodifyError>) {
        let s = v.initial_str();
        if str_eq(s, "true") || str_eq(s, "⊤") || str_eq(s, "yes") {
            Ok(true)
        } else if str_eq(s, "false") || str_eq(s, "⟂") || str_eq(s, "no") {
            Ok(false)
        } else {
            Err(DewoodifyError::new(v, String::from_str("expected a bool here")))
        }
    }
}

impl Woodable for String {
    open spec fn woodifies(&self, w: Wood) -> bool {
        is_leaf_of(w, self@)
    }

    fn woodify(&self) -> (r: Wood) {
        Wood::leaf(String::from_str(self.as_str()))
    }
}

impl Dewoodable for String {
    /// A leaf gives its text; a branch fails.
    open spec fn dewoodifies(w: Wood, r: Result<String, DewoodifyError>) -> bool {
        match w {
            Wood::Leaf(l) => r matches Ok(s) && s@ == l.v@,
            Wood::Branch(_) => r matches Err(e) && error_at(e, w, "sought string, found branch"@),
        }
    }

    fn dewoodify(v: &Wood) -> (r: Result<String, DewoodifyError>) {
        match v {
            Wood::Leaf(l) => Ok(String::from_str(l.v.as_str())),
            Wood::Branch(_) => Err(DewoodifyError::new(v, String::from_str("sought string, found branch"))),
        }
    }
}

/// Relies on `char::to_string`: the string of that one character.
#[verifier::external_body]
fn char_to_string(c: char) -> (r: String)
    ensures
        r@ == seq![c],
{
    c.to_string()
}

/// A decode failure of a number or character: positioned at `w`, naming the
/// target in `msg`, with a cause at the same place that says what was wrong.
pub open spec fn parse_failure(e: DewoodifyError, w: Wood, msg: Seq<char>, why: Seq<char>) -> bool {
    &&& (e.line, e.column) == position(w)
    &&& e.msg@ == msg
    &&& e.cause matches Some(c) && error_at(*c, w, why)
}

fn parse_error(v: &Wood, msg: &str, why: &str) -> (r: DewoodifyError)
    ensures
        parse_failure(r, *v, msg@, why@),
{
    let cause = DewoodifyError::new(v, String::from_str(why));
    DewoodifyError::new_with_cause(v, String::from_str(msg), Some(Box::new(cause)))
}

pub open spec fn char_why() -> Seq<char> {
    "expected exactly one character"@
}

impl Woodable for char {
    open spec fn woodifies(&self, w: Wood) -> bool {
        is_leaf_of(w, seq![*self])
    }

    fn woodify(&self) -> (r: Wood) {
        Wood::leaf(char_to_string(*self))
    }
}

impl Dewoodable for char {
    /// The leading text must be exactly one character.
    open spec fn dewoodifies(w: Wood, r: Result<char, DewoodifyError>) -> bool {
        let s = initial_text(w);
        if s.len() == 1 {
            r == Ok::<char, DewoodifyError>(s[0])
        } else {
            r matches Err(e) && parse_failure(e, w, "couldn't parse char"@, char_why())
        }
    }

    fn dewoodify(v: &Wood) -> (r: Result<char, DewoodifyError>) {
        let s = v.initial_str();
        if s.unicode_len() == 1 {
            Ok(s.get_char(0))
        } else {
            Err(parse_error(v, "couldn't parse char", "expected exactly one character"))
        }
    }
}

pub open spec fn int_why() -> Seq<char> {
    "not a decimal integer in range"@
}

/// The canonical decoding of an integer type with bounds `lo..=hi`: the
/// leading text read as decimal.
pub open spec fn int_decodes(w: Wood, signed: bool, lo: int, hi: int, r: Result<int, DewoodifyError>, name: Seq<char>) -> bool {
    match int_of_text(initial_text(w), signed) {
        Some(v) if lo <= v <= hi => r == Ok::<int, DewoodifyError>(v),
        _ => r matches Err(e) && parse_failure(e, w, "couldn't parse "@ + name, int_why()),
    }
}

pub open spec fn map_int<T>(r: Result<T, DewoodifyError>, f: spec_fn(T) -> int) -> Result<int, DewoodifyError> {
    match r {
        Ok(x) => Ok(f(x)),
        Err(e) => Err(e),
    }
}

fn decode_int(v: &Wood, signed: bool, lo: i128, hi: i128, name: &str) -> (r: Result<i128, DewoodifyError>)
    requires
        -0x1_0000_0000_0000_0000 <= lo <= hi <= 0x1_0000_0000_0000_0000,
    ensures
        int_decodes(*v, signed, lo as int, hi as int, map_int(r, |x: i128| x as int), name@),
        r matches Ok(x) ==> lo <= x <= hi,
{
    match parse_int(v.initial_str(), signed, lo, hi) {
        Some(x) => Ok(x),
        None => {
            let mut msg = String::from_str("couldn't parse ");
            msg.append(name);
            let cause = DewoodifyError::new(v, String::from_str("not a decimal integer in range"));
            Err(DewoodifyError::new_with_cause(v, msg, Some(Box::new(cause))))
        },
    }
}

impl Woodable for i64 {
    open spec fn woodifies(&self, w: Wood) -> bool {
        is_leaf_of(w, int_text(*self as int))
    }

    fn woodify(&self) -> (r: Wood) {
        Wood::leaf(format_int(*self as i128))
    }
}

impl Dewoodable for i64 {
    open spec fn dewoodifies(w: Wood, r: Result<i64, DewoodifyError>) -> bool {
        int_decodes(w, true, i64::MIN as int, i64::MAX as int, map_int(r, |x: i64| x as int), "i64"@)
    }

    fn dewoodify(v: &Wood) -> (r: Result<i64, DewoodifyError>) {
        match decode_int(v, true, i64::MIN as i128, i64::MAX as i128, "i64") {
            Ok(x) => Ok(x as i64),
            Err(e) => Err(e),
        }
    }
}

impl Woodable for isize {
    open spec fn woodifies(&self, w: Wood) -> bool {
        is_leaf_of(w, int_text(*self as int))
    }

    fn woodify(&self) -> (r: Wood) {
        Wood::leaf(format_int(*self as i128))
    }
}

impl Dewoodable for isize {
    open spec fn dewoodifies(w: Wood, r: Result<isize, DewoodifyError>) -> bool {
        int_decodes(w, true, isize::MIN as int, isize::MAX as int, map_int(r, |x: isize| x as int), "isize"@)
    }

    fn dewoodify(v: &Wood) -> (r: Result<isize, DewoodifyError>) {
        match decode_int(v, true, isize::MIN as i128, isize::MAX as i128, "isize") {
            Ok(x) => Ok(x as isize),
            Err(e) => Err(e),
        }
    }
}

impl Woodable for i32 {
    open spec fn woodifies(&self, w: Wood) -> bool {
        is_leaf_of(w, int_text(*self as int))
    }

    fn woodify(&self) -> (r: Wood) {
        Wood::leaf(format_int(*self as i128))
    }
}

impl Dewoodable for i32 {
    open spec fn dewoodifies(w: Wood, r: Result<i32, DewoodifyError>) -> bool {
        int_decodes(w, true, i32::MIN as int, i32::MAX as int, map_int(r, |x: i32| x as int), "i32"@)
    }

    fn dewoodify(v: &Wood) -> (r: Result<i32, DewoodifyError>) {
        match decode_int(v, true, i32::MIN as i128, i32::MAX as i128, "i32") {
            Ok(x) => Ok(x as i32),
            Err(e) => Err(e),
        }
    }
}

impl Woodable for u64 {
    open spec fn woodifies(&self, w: Wood) -> bool {
        is_leaf_of(w, int_text(*self as int))
    }

    fn woodify(&self) -> (r: Wood) {
        Wood::leaf(format_int(*self as i128))
    }
}

impl Dewoodable for u64 {
    open spec fn dewoodifies(w: Wood, r: Result<u64, DewoodifyError>) -> bool {
        int_decodes(w, false, u64::MIN as int, u64::MAX as int, map_int(r, |x: u64| x as int), "u64"@)
    }

    fn dewoodify(v: &Wood) -> (r: Result<u64, DewoodifyError>) {
        match decode_int(v, false, u64::MIN as i128, u64::MAX as i128, "u64") {
            Ok(x) => Ok(x as u64),
            Err(e) => Err(e),
        }
    }
}

impl Woodable for u32 {
    open spec fn woodifies(&self, w: Wood) -> bool {
        is_leaf_of(w, int_text(*self as int))
    }

    fn woodify(&self) -> (r: Wood) {
        Wood::leaf(format_int(*self as i128))
    }
}

impl Dewoodable for u32 {
    open spec fn dewoodifies(w: Wood, r: Result<u32, DewoodifyError>) -> bool {
        int_decodes(w, false, u32::MIN as int, u32::MAX as int, map_int(r, |x: u32| x as int), "u32"@)
    }

    fn dewoodify(v: &Wood) -> (r: Result<u32, DewoodifyError>) {
        match decode_int(v, false, u32::MIN as i128, u32::MAX as i128, "u32") {
            Ok(x) => Ok(x as u32),
            Err(e) => Err(e),
        }
    }
}

impl Woodable for usize {
    open spec fn woodifies(&self, w: Wood) -> bool {
        is_leaf_of(w, int_text(*self as int))
    }

    fn woodify(&self) -> (r: Wood) {
        Wood::leaf(format_int(*self as i128))
    }
}

impl Dewoodable for usize {
    open spec fn dewoodifies(w: Wood, r: Result<usize, DewoodifyError>) -> bool {
        int_decodes(w, false, usize::MIN as int, usize::MAX as int, map_int(r, |x: usize| x as int), "usize"@)
    }

    fn dewoodify(v: &Wood) -> (r: Result<usize, DewoodifyError>) {
        match decode_int(v, false, usize::MIN as i128, usize::MAX as i128, "usize") {
            Ok(x) => Ok(x as usize),
            Err(e) => Err(e),
        }
    }
}

} // verus!
