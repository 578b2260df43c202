//! The ordered acquisition chain, as a state machine.
//!
//! A chain takes the locks of a request set one at a time, in the canonical
//! order. It never acquires a lock itself: it says which request is next, and
//! is told how the acquisition of that request went. Whoever drives it makes
//! the acquisition and hands back the outcome.

use crate::request::{requests_name, sorted_by_name, LockRequest, RequestSet, RequestSpec};
use vstd::prelude::*;

verus! {

/// All the guards of a request set: the guard at a position belongs to the
/// request at that position of the canonical order.
#[derive(Debug)]
pub struct AcquisitionResult<G> {
    requests: RequestSet,
    guards: Vec<G>,
}

/// The acquisition of one lock failed.
#[derive(Debug)]
pub struct AcquisitionError<E> {
    /// The name of the lock that could not be acquired.
    pub name: String,
    /// What the resolver reported.
    pub cause: E,
}

/// A chain that still has a lock to acquire. It holds the guards of the
/// requests before that one.
#[derive(Debug)]
pub struct Chain<G> {
    requests: RequestSet,
    held: Vec<G>,
}

/// Where an acquisition stands.
#[derive(Debug)]
pub enum Progress<G, E> {
    /// The chain waits for the outcome of its next request.
    Pending(Chain<G>),
    /// Every lock was acquired.
    Complete(AcquisitionResult<G>),
    /// An acquisition failed. No guard is held any more.
    Failed(AcquisitionError<E>),
}

impl<G> AcquisitionResult<G> {
    /// There is one guard for each request.
    #[verifier::type_invariant]
    spec fn one_guard_each(&self) -> bool {
        self.guards@.len() == self.requests@.len()
    }

    /// The requests whose locks are held, in the canonical order.
    pub closed spec fn requests(&self) -> Seq<RequestSpec> {
        self.requests@
    }

    /// The guards, each at the position of its request.
    pub closed spec fn guards(&self) -> Seq<G> {
        self.guards@
    }

    /// The number of guards.
    pub fn len(&self) -> (n: usize)
        ensures
            n == self.guards().len(),
            n == self.requests().len(),
            sorted_by_name(self.requests()),
    {
        proof {
            use_type_invariant(self);
        }
        let n = self.requests.len();
        n
    }

    /// Whether no lock was asked for.
    pub fn is_empty(&self) -> (b: bool)
        ensures
            b == (self.guards().len() == 0),
            b == (self.requests().len() == 0),
    {
        proof {
            use_type_invariant(self);
        }
        self.guards.len() == 0
    }

    /// The requests whose locks are held.
    pub fn request_set(&self) -> (set: &RequestSet)
        ensures
            set@ == self.requests(),
    {
        &self.requests
    }

    /// The guard of the lock `name`, if that lock was asked for.
    pub fn get(&self, name: &str) -> (r: Option<&G>)
        ensures
            r is Some <==> requests_name(self.requests(), name@),
            r matches Some(guard) ==> exists|i: int|
                0 <= i < self.requests().len() && self.requests()[i].name == name@
                    && self.guards()[i] == *guard,
    {
        proof {
            use_type_invariant(self);
        }
        match self.requests.position(name) {
            Some(i) => {
                let guard = &self.guards[i];
                assert(self.requests()[i as int].name == name@ && self.guards()[i as int]
                    == *guard);
                Some(guard)
            },
            None => None,
        }
    }

    /// The guard at position `i` of the canonical order.
    pub fn guard_at(&self, i: usize) -> (r: Option<&G>)
        ensures
            r is Some <==> i < self.guards().len(),
            r matches Some(guard) ==> self.guards()[i as int] == *guard,
    {
        if i < self.guards.len() {
            Some(&self.guards[i])
        } else {
            None
        }
    }

    /// Gives up the bundle for its guards, in the canonical order of their
    /// requests.
    pub fn into_guards(self) -> (guards: Vec<G>)
        ensures
            guards@ == self.guards(),
    {
        self.guards
    }
}

impl<G> Chain<G> {
    /// A lock is still to be acquired.
    #[verifier::type_invariant]
    spec fn unfinished(&self) -> bool {
        self.held@.len() < self.requests@.len()
    }

    /// The requests of this chain, in the canonical order.
    pub closed spec fn requests(&self) -> Seq<RequestSpec> {
        self.requests@
    }

    /// The guards acquired so far: those of the first requests, in order.
    pub closed spec fn held(&self) -> Seq<G> {
        self.held@
    }

    /// Starts the acquisition of a request set. Without a request it is
    /// complete at once, with an empty bundle; otherwise the chain waits for
    /// the outcome of the first request, holding nothing.
    pub fn begin<E>(requests: RequestSet) -> (p: Progress<G, E>)
        ensures
            requests@.len() == 0 ==> (p matches Progress::Complete(bundle) && bundle.requests()
                == requests@ && bundle.guards() == Seq::<G>::empty()),
            requests@.len() > 0 ==> (p matches Progress::Pending(chain) && chain.requests()
                == requests@ && chain.held() == Seq::<G>::empty()),
    {
        let held: Vec<G> = Vec::new();
        if requests.is_empty() {
            Progress::Complete(AcquisitionResult { requests, guards: held })
        } else {
            Progress::Pending(Chain { requests, held })
        }
    }

    /// The request to acquire now: the first one that has no guard yet.
    pub fn request(&self) -> (r: &LockRequest)
        ensures
            self.held().len() < self.requests().len(),
            r@ == self.requests()[self.held().len() as int],
            sorted_by_name(self.requests()),
    {
        proof {
            use_type_invariant(self);
        }
        let requests = self.requests.as_slice();
        &requests[self.held.len()]
    }

    /// The number of guards acquired so far.
    pub fn position(&self) -> (i: usize)
        ensures
            i == self.held().len(),
            i < self.requests().len(),
    {
        proof {
            use_type_invariant(self);
        }
        self.held.len()
    }

    /// Takes the outcome of the acquisition of the current request.
    ///
    /// A guard is kept, and the chain goes on to the next request; with the
    /// guard of the last request the acquisition is complete. A failure ends
    /// the acquisition with the name of the current request and the cause,
    /// and every guard acquired so far is released.
    pub fn step<E>(self, outcome: Result<G, E>) -> (p: Progress<G, E>)
        ensures
            self.held().len() < self.requests().len(),
            match outcome {
                Ok(guard) => if self.held().len() + 1 < self.requests().len() {
                    p matches Progress::Pending(next) && next.requests() == self.requests()
                        && next.held() == self.held().push(guard)
                } else {
                    p matches Progress::Complete(bundle) && bundle.requests() == self.requests()
                        && bundle.guards() == self.held().push(guard)
                },
                Err(cause) => p matches Progress::Failed(error) && error.name@
                    == self.requests()[self.held().len() as int].name && error.cause == cause,
            },
    {
        proof {
            use_type_invariant(&self);
        }
        match outcome {
            Ok(guard) => {
                let Chain { requests, mut held } = self;
                held.push(guard);
                if held.len() < requests.len() {
                    Progress::Pending(Chain { requests, held })
                } else {
                    Progress::Complete(AcquisitionResult { requests, guards: held })
                }
            },
            Err(cause) => {
                let name = self.request().name.clone();
                Progress::Failed(AcquisitionError { name, cause })
            },
        }
    }
}

} // verus!
