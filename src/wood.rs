//! The term tree: leaves of text and ordered branches, each with a position.
use vstd::prelude::*;

verus! {

/// A terminal node holding text.
#[derive(Debug)]
pub struct Leaf {
    pub line: isize,
    pub column: isize,
    pub v: String,
}

/// An ordered list of sub-terms.
#[derive(Debug)]
pub struct Branch {
    pub line: isize,
    pub column: isize,
    pub v: Vec<Wood>,
}

/// A node of the term tree.
#[derive(Debug)]
pub enum Wood {
    Leaf(Leaf),
    Branch(Branch),
}

/// The children of a node; a leaf has none.
pub open spec fn children(w: Wood) -> Seq<Wood> {
    match w {
        Wood::Leaf(_) => Seq::empty(),
        Wood::Branch(b) => b.v@,
    }
}

/// The text of the first leaf reached by always taking the first child.
pub open spec fn initial_text(w: Wood) -> Seq<char>
    decreases w,
{
    match w {
        Wood::Leaf(l) => l.v@,
        Wood::Branch(b) => if b.v@.len() == 0 {
            Seq::empty()
        } else {
            initial_text(b.v@[0])
        },
    }
}

/// The position recorded in a node.
pub open spec fn position(w: Wood) -> (isize, isize) {
    match w {
        Wood::Leaf(l) => (l.line, l.column),
        Wood::Branch(b) => (b.line, b.column),
    }
}

/// A leaf whose text is `s`.
pub open spec fn is_leaf_of(w: Wood, s: Seq<char>) -> bool {
    match w {
        Wood::Leaf(l) => l.v@ == s,
        Wood::Branch(_) => false,
    }
}

/// The position given to nodes that were built in memory rather than parsed.
pub const NO_POSITION: isize = -1;

impl Wood {
    /// A leaf with the given text and no source position.
    pub fn leaf(s: String) -> (r: Wood)
        ensures
            r == (Wood::Leaf(Leaf { line: NO_POSITION, column: NO_POSITION, v: s })),
    {
        Wood::Leaf(Leaf { line: NO_POSITION, column: NO_POSITION, v: s })
    }

    /// A branch with the given children and no source position.
    pub fn branch(v: Vec<Wood>) -> (r: Wood)
        ensures
            r == (Wood::Branch(Branch { line: NO_POSITION, column: NO_POSITION, v })),
    {
        Wood::Branch(Branch { line: NO_POSITION, column: NO_POSITION, v })
    }

    pub fn line_and_col(&self) -> (r: (isize, isize))
        ensures
            r == position(*self),
    {
        match self {
            Wood::Leaf(l) => (l.line, l.column),
            Wood::Branch(b) => (b.line, b.column),
        }
    }

    pub fn is_leaf(&self) -> (r: bool)
        ensures
            r == (self is Leaf),
    {
        match self {
            Wood::Leaf(_) => true,
            Wood::Branch(_) => false,
        }
    }

    /// The text of the first leaf down the chain of first children, or the
    /// empty string where that chain ends in an empty branch.
    pub fn initial_str(&self) -> (r: &str)
        ensures
            r@ == initial_text(*self),
        decreases self,
    {
        match self {
            Wood::Leaf(l) => l.v.as_str(),
            Wood::Branch(b) => {
                if b.v.len() == 0 {
                    proof {
                        reveal_strlit("");
                    }
                    ""
                } else {
                    b.v[0].initial_str()
                }
            },
        }
    }

    /// All children of a branch; none for a leaf.
    pub fn contents(&self) -> (r: &[Wood])
        ensures
            r@ == children(*self),
    {
        match self {
            Wood::Leaf(_) => &[],
            Wood::Branch(b) => b.v.as_slice(),
        }
    }

    /// The children after the first; none for a leaf or an empty branch.
    pub fn tail(&self) -> (r: &[Wood])
        ensures
            children(*self).len() == 0 ==> r@.len() == 0,
            children(*self).len() > 0 ==> r@ == children(*self).drop_first(),
    {
        let all = self.contents();
        if all.len() == 0 {
            all
        } else {
            let (_, rest) = all.split_at(1);
            rest
        }
    }
}

} // verus!
