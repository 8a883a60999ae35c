//! Adapter carriers for lending iteration: each wraps an underlying
//! iterator together with the state its adaptation needs.

use vstd::prelude::*;

verus! {

/// Clones each lent item before handing it out.
pub struct Cloned<I> {
    iter: I,
}

impl<I> Cloned<I> {
    /// Wraps `iter`.
    pub fn new(iter: I) -> (r: Self)
        ensures
            r.inner() == iter,
    {
        Cloned { iter }
    }

    /// The wrapped iterator.
    pub closed spec fn inner(self) -> I {
        self.iter
    }
}

/// Pairs each lent item with its position.
pub struct Enumerate<I> {
    iter: I,
    index: usize,
}

impl<I> Enumerate<I> {
    /// Wraps `iter`, counting from zero.
    pub fn new(iter: I) -> (r: Self)
        ensures
            r.inner() == iter,
            r.index_spec() == 0,
    {
        Enumerate { iter, index: 0 }
    }

    /// The wrapped iterator.
    pub closed spec fn inner(self) -> I {
        self.iter
    }

    /// The position of the next item.
    pub closed spec fn index_spec(self) -> usize {
        self.index
    }
}

/// Keeps only the lent items its predicate accepts.
pub struct Filter<I, P> {
    iter: I,
    predicate: P,
}

impl<I, P> Filter<I, P> {
    /// Wraps `iter` with `predicate`.
    pub fn new(iter: I, predicate: P) -> (r: Self)
        ensures
            r.inner() == iter,
    {
        Filter { iter, predicate }
    }

    /// The wrapped iterator.
    pub closed spec fn inner(self) -> I {
        self.iter
    }
}

/// Lets an ordinary iterator be driven through the lending interface.
pub struct IntoLending<I> {
    iter: I,
}

impl<I> IntoLending<I> {
    /// Wraps `iter`.
    pub fn new(iter: I) -> (r: Self)
        ensures
            r.inner() == iter,
    {
        IntoLending { iter }
    }

    /// The wrapped iterator.
    pub closed spec fn inner(self) -> I {
        self.iter
    }
}

} // verus!
