//! Session selection: given rate-limit snapshots for a pool of sessions,
//! pick the first session in pool order with remaining budget for an
//! endpoint, or signal that the whole pool is exhausted.

use vstd::prelude::*;

use crate::model::EndpointKind;
use crate::model::RateLimitStatus;

verus! {

/// A session is usable for `endpoint` when its snapshot carries an entry for
/// that endpoint with a strictly positive remaining count. A missing entry
/// counts as zero remaining, so the pool never overdraws the remote limit.
pub open spec fn spec_usable(status: RateLimitStatus, endpoint: EndpointKind) -> bool {
    match status.spec_remaining(endpoint) {
        Some(n) => n > 0,
        None => false,
    }
}

/// Whether one session's snapshot allows a call against `endpoint`.
pub fn usable(status: &RateLimitStatus, endpoint: EndpointKind) -> (r: bool)
    ensures
        r == spec_usable(*status, endpoint),
{
    match status.remaining_for(endpoint) {
        Some(n) => n > 0,
        None => false,
    }
}

/// Picks the first session in pool order whose snapshot shows remaining
/// budget for `endpoint`. `None` is the exhaustion signal: every session in
/// the pool is out of budget for this endpoint, and the caller may retry the
/// whole run after the remote reset window.
pub fn select(statuses: &Vec<RateLimitStatus>, endpoint: EndpointKind) -> (r: Option<usize>)
    ensures
        match r {
            Some(i) => {
                &&& i < statuses@.len()
                &&& spec_usable(statuses@[i as int], endpoint)
                &&& forall|j: int| 0 <= j < i ==> !spec_usable(statuses@[j], endpoint)
            },
            None => forall|j: int|
                0 <= j < statuses@.len() ==> !spec_usable(statuses@[j], endpoint),
        },
{
    let mut i: usize = 0;
    while i < statuses.len()
        invariant
            i <= statuses@.len(),
            forall|j: int| 0 <= j < i ==> !spec_usable(statuses@[j], endpoint),
        decreases statuses@.len() - i,
    {
        if usable(&statuses[i], endpoint) {
            return Some(i);
        }
        i = i + 1;
    }
    None
}

} // verus!
