//! Acquiring every lock of a request set through a resolver.
//!
//! The resolver is the caller's: a function from a request to a guard, or to
//! the reason why the lock could not be had. What it does is known here only
//! through its own contract.

use crate::chain::{AcquisitionError, AcquisitionResult, Chain, Progress};
use crate::request::{
    build, first_repeat, names_distinct, request_views, same_requests, sorted_by_name,
    DuplicateNameError, LockRequest, RequestSet, RequestSpec,
};
use vstd::prelude::*;

verus! {

/// The resolver may be asked for every request of `set`.
pub open spec fn accepts<G, E, F: Fn(&LockRequest) -> Result<G, E>>(
    resolver: F,
    set: Seq<RequestSpec>,
) -> bool {
    forall|q: LockRequest| set.contains(q@) ==> call_requires(resolver, (&q,))
}

/// Asked for `request`, the resolver may answer with `guard`.
pub open spec fn acquires<G, E, F: Fn(&LockRequest) -> Result<G, E>>(
    resolver: F,
    request: RequestSpec,
    guard: G,
) -> bool {
    exists|q: LockRequest| q@ == request && call_ensures(resolver, (&q,), Ok::<G, E>(guard))
}

/// Asked for `request`, the resolver may fail with `cause`.
pub open spec fn refuses<G, E, F: Fn(&LockRequest) -> Result<G, E>>(
    resolver: F,
    request: RequestSpec,
    cause: E,
) -> bool {
    exists|q: LockRequest| q@ == request && call_ensures(resolver, (&q,), Err::<G, E>(cause))
}

/// The resolver fails on no request of `set`.
pub open spec fn never_refuses<G, E, F: Fn(&LockRequest) -> Result<G, E>>(
    resolver: F,
    set: Seq<RequestSpec>,
) -> bool {
    forall|k: int, cause: E| 0 <= k < set.len() ==> !#[trigger] refuses(resolver, set[k], cause)
}

/// The resolver answered the first `guards.len()` requests of `set`, in
/// order, with `guards`.
pub open spec fn acquired_in_order<G, E, F: Fn(&LockRequest) -> Result<G, E>>(
    resolver: F,
    set: Seq<RequestSpec>,
    guards: Seq<G>,
) -> bool {
    &&& guards.len() <= set.len()
    &&& forall|i: int| 0 <= i < guards.len() ==> acquires(resolver, set[i], #[trigger] guards[i])
}

/// The resolver answered the first `k` requests of `set` with guards and then
/// failed on the request at position `k`, with `cause`.
pub open spec fn failed_at<G, E, F: Fn(&LockRequest) -> Result<G, E>>(
    resolver: F,
    set: Seq<RequestSpec>,
    k: int,
    cause: E,
) -> bool {
    &&& 0 <= k < set.len()
    &&& refuses(resolver, set[k], cause)
    &&& exists|guards: Seq<G>| guards.len() == k && acquired_in_order(resolver, set, guards)
}

/// The resolver answered the requests of `set` in order until it failed, with
/// `cause`, on the request for the lock `name`.
pub open spec fn stopped_on<G, E, F: Fn(&LockRequest) -> Result<G, E>>(
    resolver: F,
    set: Seq<RequestSpec>,
    name: Seq<char>,
    cause: E,
) -> bool {
    exists|k: int| #[trigger] failed_at(resolver, set, k, cause) && set[k].name == name
}

/// The requests of `given` were put into the canonical order, and the
/// resolver answered them in that order until it failed, with `cause`, on the
/// request for the lock `name`.
pub open spec fn sorted_then_stopped_on<G, E, F: Fn(&LockRequest) -> Result<G, E>>(
    resolver: F,
    given: Seq<RequestSpec>,
    name: Seq<char>,
    cause: E,
) -> bool {
    exists|set: Seq<RequestSpec>|
        sorted_by_name(set) && same_requests(given, set) && #[trigger] stopped_on(
            resolver,
            set,
            name,
            cause,
        )
}

/// Acquires the locks of a request set one after the other, in the canonical
/// order, and stops at the first failure.
///
/// If the resolver answers every request with a guard, the result is the
/// bundle of these guards, each at the position of its request. If it fails,
/// the result is the error for the first request on which it failed; the
/// requests after that one are never asked for, and the guards acquired before
/// it are released.
pub fn resolve<G, E, F: Fn(&LockRequest) -> Result<G, E>>(requests: RequestSet, resolver: F) -> (r:
    Result<AcquisitionResult<G>, AcquisitionError<E>>)
    requires
        accepts(resolver, requests@),
    ensures
        r matches Ok(bundle) ==> bundle.requests() == requests@ && bundle.guards().len()
            == requests@.len() && acquired_in_order(resolver, requests@, bundle.guards()),
        r matches Err(error) ==> stopped_on(resolver, requests@, error.name@, error.cause),
        never_refuses(resolver, requests@) ==> r is Ok,
        requests@.len() == 0 ==> r is Ok,
{
    let ghost set = requests@;
    match Chain::begin(requests) {
        Progress::Complete(bundle) => Ok(bundle),
        Progress::Failed(error) => Err(error),
        Progress::Pending(first) => {
            let mut chain = first;
            loop
                invariant
                    set == requests@,
                    chain.requests() == set,
                    accepts(resolver, set),
                    acquired_in_order(resolver, set, chain.held()),
                decreases set.len() - chain.held().len(),
            {
                let ghost held = chain.held();
                let ghost k = held.len() as int;
                let request = chain.request();
                assert(set.contains(request@)) by {
                    assert(set[k] == request@);
                }
                let outcome = resolver(request);
                let ghost answer = outcome;
                proof {
                    match answer {
                        Ok(guard) => {
                            assert(acquires(resolver, set[k], guard));
                            assert(acquired_in_order(resolver, set, held.push(guard)));
                        },
                        Err(cause) => {
                            assert(refuses(resolver, set[k], cause));
                            assert(failed_at(resolver, set, k, cause));
                        },
                    }
                }
                match chain.step(outcome) {
                    Progress::Pending(next) => {
                        chain = next;
                    },
                    Progress::Complete(bundle) => {
                        return Ok(bundle);
                    },
                    Progress::Failed(error) => {
                        assert(failed_at(resolver, set, k, error.cause));
                        return Err(error);
                    },
                }
            }
        },
    }
}

/// Why no bundle of guards could be had.
#[derive(Debug)]
pub enum LocksError<E> {
    /// A name was requested more than once. No lock was asked for.
    DuplicateName(DuplicateNameError),
    /// The acquisition of one lock failed.
    Acquisition(AcquisitionError<E>),
}

/// Acquires all the requested locks, in the canonical order of their names,
/// whatever order they are requested in.
///
/// A repeated name ends the call before any lock is asked for. Otherwise the
/// requests are sorted by name and resolved in that order.
pub fn locks<G, E, F: Fn(&LockRequest) -> Result<G, E>>(requests: &[LockRequest], resolver: F) -> (r:
    Result<AcquisitionResult<G>, LocksError<E>>)
    requires
        accepts(resolver, request_views(requests@)),
    ensures
        (r matches Err(LocksError::DuplicateName(_))) <==> !names_distinct(
            request_views(requests@),
        ),
        r matches Err(LocksError::DuplicateName(e)) ==> exists|j: int|
            first_repeat(request_views(requests@), j) && e.name@ == request_views(
                requests@,
            )[j].name,
        r matches Ok(bundle) ==> sorted_by_name(bundle.requests()) && same_requests(
            request_views(requests@),
            bundle.requests(),
        ) && bundle.guards().len() == bundle.requests().len() && acquired_in_order(
            resolver,
            bundle.requests(),
            bundle.guards(),
        ),
        r matches Err(LocksError::Acquisition(error)) ==> sorted_then_stopped_on(
            resolver,
            request_views(requests@),
            error.name@,
            error.cause,
        ),
        names_distinct(request_views(requests@)) && never_refuses(
            resolver,
            request_views(requests@),
        ) ==> r is Ok,
        requests@.len() == 0 ==> (r matches Ok(bundle) && bundle.guards().len() == 0),
{
    match build(requests) {
        Err(e) => Err(LocksError::DuplicateName(e)),
        Ok(set) => {
            let ghost given = request_views(requests@);
            let ghost sorted = set@;
            proof {
                if never_refuses(resolver, given) {
                    assert forall|k: int, cause: E| 0 <= k < sorted.len() implies !#[trigger] refuses(
                        resolver,
                        sorted[k],
                        cause,
                    ) by {
                        assert(sorted.contains(sorted[k]));
                        let i = choose|i: int| 0 <= i < given.len() && given[i] == sorted[k];
                        assert(!refuses(resolver, given[i], cause));
                    }
                }
            }
            match resolve(set, resolver) {
                Ok(bundle) => Ok(bundle),
                Err(error) => {
                    assert(stopped_on(resolver, sorted, error.name@, error.cause));
                    Err(LocksError::Acquisition(error))
                },
            }
        },
    }
}

} // verus!
