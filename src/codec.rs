//! Encoder and decoder capabilities, and the default strategy that forwards
//! to a type's own canonical encoding.
use vstd::prelude::*;
use crate::wood::Wood;
use crate::error::DewoodifyError;

verus! {

/// A strategy that turns values of `T` into trees.
pub trait Wooder<T> {
    /// `w` is an encoding of `v` under this strategy.
    spec fn woodifies(&self, v: T, w: Wood) -> bool;

    /// The strategy can encode any value.
    spec fn woodify_ready(&self) -> bool;

    fn woodify(&self, v: &T) -> (r: Wood)
        requires
            self.woodify_ready(),
        ensures
            self.woodifies(*v, r),
    ;
}

/// A strategy that reads values of `T` out of trees.
pub trait Dewooder<T> {
    /// `r` is an outcome of decoding `w` under this strategy.
    spec fn dewoodifies(&self, w: Wood, r: Result<T, DewoodifyError>) -> bool;

    /// The strategy can decode any tree.
    spec fn dewoodify_ready(&self) -> bool;

    fn dewoodify(&self, v: &Wood) -> (r: Result<T, DewoodifyError>)
        requires
            self.dewoodify_ready(),
        ensures
            self.dewoodifies(*v, r),
    ;
}

/// A strategy that both encodes and decodes `T`.
pub trait Biwooder<T>: Wooder<T> + Dewooder<T> {
}

impl<T, X: Wooder<T> + Dewooder<T>> Biwooder<T> for X {
}

/// A type with a canonical encoding of its own.
pub trait Woodable {
    /// `w` is the canonical encoding of `self`.
    spec fn woodifies(&self, w: Wood) -> bool;

    fn woodify(&self) -> (r: Wood)
        ensures
            self.woodifies(r),
    ;
}

/// A type with a canonical decoding of its own.
pub trait Dewoodable: Sized {
    /// `r` is an outcome of the canonical decoding of `w`.
    spec fn dewoodifies(w: Wood, r: Result<Self, DewoodifyError>) -> bool;

    fn dewoodify(v: &Wood) -> (r: Result<Self, DewoodifyError>)
        ensures
            Self::dewoodifies(*v, r),
    ;
}

/// The strategy that uses a type's canonical encoding.
#[derive(Clone, Copy)]
pub struct DefaultWooder;

/// The strategy that uses a type's canonical decoding.
#[derive(Clone, Copy)]
pub struct DefaultDewooder;

/// The strategy that uses a type's canonical encoding and decoding.
#[derive(Clone, Copy)]
pub struct DefaultBiwooder;

impl<T: Woodable> Wooder<T> for DefaultBiwooder {
    open spec fn woodify_ready(&self) -> bool {
        true
    }

    open spec fn woodifies(&self, v: T, w: Wood) -> bool {
        v.woodifies(w)
    }

    fn woodify(&self, v: &T) -> (r: Wood) {
        v.woodify()
    }
}

impl<T: Dewoodable> Dewooder<T> for DefaultBiwooder {
    open spec fn dewoodify_ready(&self) -> bool {
        true
    }

    open spec fn dewoodifies(&self, w: Wood, r: Result<T, DewoodifyError>) -> bool {
        T::dewoodifies(w, r)
    }

    fn dewoodify(&self, v: &Wood) -> (r: Result<T, DewoodifyError>) {
        T::dewoodify(v)
    }
}

impl<T: Woodable> Wooder<T> for DefaultWooder {
    open spec fn woodify_ready(&self) -> bool {
        true
    }

    open spec fn woodifies(&self, v: T, w: Wood) -> bool {
        v.woodifies(w)
    }

    fn woodify(&self, v: &T) -> (r: Wood) {
        v.woodify()
    }
}

impl<T: Dewoodable> Dewooder<T> for DefaultDewooder {
    open spec fn dewoodify_ready(&self) -> bool {
        true
    }

    open spec fn dewoodifies(&self, w: Wood, r: Result<T, DewoodifyError>) -> bool {
        T::dewoodifies(w, r)
    }

    fn dewoodify(&self, v: &Wood) -> (r: Result<T, DewoodifyError>) {
        T::dewoodify(v)
    }
}

/// Encodes `v` with its canonical encoding.
pub fn woodify<T: Woodable>(v: &T) -> (r: Wood)
    ensures
        v.woodifies(r),
{
    v.woodify()
}

/// Decodes a `T` with its canonical decoding.
pub fn dewoodify<T: Dewoodable>(v: &Wood) -> (r: Result<T, DewoodifyError>)
    ensures
        T::dewoodifies(*v, r),
{
    T::dewoodify(v)
}

} // verus!
