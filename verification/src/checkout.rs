//! A clone whose working tree is still to be checked out.

use vstd::prelude::*;

verus! {

/// A repository that was cloned and whose main working tree is not checked out
/// yet. It holds the repository until the checkout is done or the repository is
/// asked for as it is.
pub struct PrepareCheckout<R> {
    /// The repository, until it was handed on.
    pub(crate) repo: Option<R>,
}

impl<R> View for PrepareCheckout<R> {
    type V = Option<R>;

    closed spec fn view(&self) -> Option<R> {
        self.repo
    }
}

impl<R> PrepareCheckout<R> {
    /// The preparation that holds `repo`.
    pub fn new(repo: R) -> (prepared: PrepareCheckout<R>)
        ensures
            prepared@ == Some(repo),
    {
        PrepareCheckout { repo: Some(repo) }
    }

    /// Whether the repository is still held.
    pub fn is_pending(&self) -> (pending: bool)
        ensures
            pending == (self@ is Some),
    {
        self.repo.is_some()
    }

    /// The repository, while the checkout is not done.
    pub fn repo(&self) -> (repo: &R)
        requires
            self@ is Some,
        ensures
            *repo == self@.unwrap(),
    {
        self.repo.as_ref().unwrap()
    }

    /// The repository as it is, also where checking out the working tree failed.
    pub fn persist(self) -> (repo: R)
        requires
            self@ is Some,
        ensures
            repo == self@.unwrap(),
    {
        let mut prepared = self;
        prepared.repo.take().unwrap()
    }

    /// Hands on the repository once the checkout is done, and holds it no longer.
    /// Gives `None` where it was handed on before.
    pub fn complete(&mut self) -> (repo: Option<R>)
        ensures
            repo == old(self)@,
            final(self)@ is None,
    {
        self.repo.take()
    }
}

} // verus!
