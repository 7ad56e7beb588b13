//! Client-side transaction handles: a transaction is begun, then either
//! committed or cancelled, each step handing the client connection on.
use vstd::prelude::*;

verus! {

/// The beginning of a transaction on client `C`.
pub struct Begin<C> {
    pub client: C,
}

/// An ongoing transaction.
pub struct Transaction<C> {
    client: C,
}

/// A pending commit of a transaction.
pub struct Commit<C> {
    pub client: C,
}

/// A pending cancellation of a transaction.
pub struct Cancel<C> {
    pub client: C,
}

impl<C> Begin<C> {
    pub fn new(client: C) -> (r: Begin<C>)
        ensures
            r.client == client,
    {
        Begin { client }
    }

    /// The transaction, once the server has accepted its beginning.
    pub fn begun(self) -> (r: Transaction<C>)
        ensures
            r.client() == self.client,
    {
        Transaction { client: self.client }
    }
}

impl<C> Transaction<C> {
    pub closed spec fn client(&self) -> C {
        self.client
    }

    /// Creates a commit of this transaction.
    pub fn commit(self) -> (r: Commit<C>)
        ensures
            r.client == self.client(),
    {
        Commit { client: self.client }
    }

    /// Creates a cancellation of this transaction.
    pub fn cancel(self) -> (r: Cancel<C>)
        ensures
            r.client == self.client(),
    {
        Cancel { client: self.client }
    }

    /// The client the transaction runs on.
    pub fn connection(&self) -> (r: &C)
        ensures
            *r == self.client(),
    {
        &self.client
    }
}

} // verus!
