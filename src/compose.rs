//! Strategies assembled from other strategies.
use vstd::prelude::*;
use crate::wood::Wood;
use crate::error::DewoodifyError;
use crate::codec::{Wooder, Dewooder};

verus! {

/// A strategy that encodes with its first part and decodes with its second.
pub struct CompositeBiwooder<W, D>(pub W, pub D);

impl<T, W: Wooder<T>, D> Wooder<T> for CompositeBiwooder<W, D> {
    open spec fn woodify_ready(&self) -> bool {
        self.0.woodify_ready()
    }

    open spec fn woodifies(&self, v: T, w: Wood) -> bool {
        self.0.woodifies(v, w)
    }

    fn woodify(&self, v: &T) -> (r: Wood) {
        self.0.woodify(v)
    }
}

impl<T, W, D: Dewooder<T>> Dewooder<T> for CompositeBiwooder<W, D> {
    open spec fn dewoodify_ready(&self) -> bool {
        self.1.dewoodify_ready()
    }

    open spec fn dewoodifies(&self, w: Wood, r: Result<T, DewoodifyError>) -> bool {
        self.1.dewoodifies(w, r)
    }

    fn dewoodify(&self, v: &Wood) -> (r: Result<T, DewoodifyError>) {
        self.1.dewoodify(v)
    }
}

/// A strategy held in a box that may not be set yet, for strategies that
/// cannot be built as constants. It can be used once one is set.
pub struct OptionalBoxBiwooder<B: ?Sized>(pub Option<Box<B>>);

impl<T, B: Wooder<T> + ?Sized> Wooder<T> for OptionalBoxBiwooder<B> {
    open spec fn woodify_ready(&self) -> bool {
        self.0 matches Some(b) && b.woodify_ready()
    }

    open spec fn woodifies(&self, v: T, w: Wood) -> bool {
        match self.0 {
            Some(b) => b.woodifies(v, w),
            None => false,
        }
    }

    fn woodify(&self, v: &T) -> (r: Wood) {
        self.0.as_ref().unwrap().woodify(v)
    }
}

impl<T, B: Dewooder<T> + ?Sized> Dewooder<T> for OptionalBoxBiwooder<B> {
    open spec fn dewoodify_ready(&self) -> bool {
        self.0 matches Some(b) && b.dewoodify_ready()
    }

    open spec fn dewoodifies(&self, w: Wood, r: Result<T, DewoodifyError>) -> bool {
        match self.0 {
            Some(b) => b.dewoodifies(w, r),
            None => false,
        }
    }

    fn dewoodify(&self, v: &Wood) -> (r: Result<T, DewoodifyError>) {
        self.0.as_ref().unwrap().dewoodify(v)
    }
}

impl<B: ?Sized> OptionalBoxBiwooder<B> {
    pub fn new(b: Box<B>) -> (r: Self)
        ensures
            r.0 == Some(b),
    {
        OptionalBoxBiwooder(Some(b))
    }

    pub fn empty() -> (r: Self)
        ensures
            r.0 is None,
    {
        OptionalBoxBiwooder(None)
    }
}

/// A strategy that encodes with a closure.
pub struct LambdaWooder<L>(pub L);

impl<W, L: Fn(&W) -> Wood> Wooder<W> for LambdaWooder<L> {
    open spec fn woodify_ready(&self) -> bool {
        forall|v: &W| #[trigger] self.0.requires((v,))
    }

    open spec fn woodifies(&self, v: W, w: Wood) -> bool {
        self.0.ensures((&v,), w)
    }

    fn woodify(&self, v: &W) -> (r: Wood) {
        (self.0)(v)
    }
}

/// A strategy that decodes with a closure.
pub struct LambdaDewooder<D>(pub D);

impl<D, L: Fn(&Wood) -> Result<D, DewoodifyError>> Dewooder<D> for LambdaDewooder<L> {
    open spec fn dewoodify_ready(&self) -> bool {
        forall|w: &Wood| #[trigger] self.0.requires((w,))
    }

    open spec fn dewoodifies(&self, w: Wood, r: Result<D, DewoodifyError>) -> bool {
        self.0.ensures((&w,), r)
    }

    fn dewoodify(&self, v: &Wood) -> (r: Result<D, DewoodifyError>) {
        (self.0)(v)
    }
}

/// A strategy that encodes with `wf` and decodes with `df`.
pub fn biwooder_from_fns<W, D>(wf: W, df: D) -> (r: CompositeBiwooder<LambdaWooder<W>, LambdaDewooder<D>>)
    ensures
        r.0.0 == wf,
        r.1.0 == df,
{
    CompositeBiwooder(LambdaWooder(wf), LambdaDewooder(df))
}

} // verus!
