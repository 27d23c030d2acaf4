//! Plain data carried between the remote collaborator and the orchestration
//! logic: credential configuration, page responses, rate-limit snapshots and
//! profile records.

use vstd::prelude::*;

verus! {

/// One remote call category with its own independent rate budget.
#[derive(Clone, Copy, PartialEq, Eq, Structural, Debug)]
pub enum EndpointKind {
    GraphEdgeFriends,
    GraphEdgeFollowers,
    ProfileBatchLookup,
}

/// One credential set as it appears in the configuration file.
#[derive(Clone, Debug)]
pub struct Config {
    pub key: String,
    pub secret: String,
}

/// A bearer token handed back by the token-exchange call.
#[derive(Clone, Debug)]
pub struct TokenResponse {
    pub token_type: String,
    pub access_token: String,
}

/// One page of a cursor-paginated edge listing.
#[derive(Clone, Debug)]
pub struct Ids {
    pub ids: Vec<i64>,
    pub next_cursor: i64,
    pub previous_cursor: i64,
}

/// Remaining budget for one endpoint, as reported by the rate-limit-status
/// call.
#[derive(Clone, Copy, PartialEq, Eq, Structural, Debug)]
pub struct RateLimitEntry {
    pub limit: i64,
    pub remaining: i64,
    pub reset: i64,
}

/// The rate-limit entries this crawler reads, one per endpoint family.
/// `None` means the status response lacked the entry for that endpoint.
#[derive(Clone, Copy, Debug)]
pub struct RateLimitResources {
    pub friends: Option<RateLimitEntry>,
    pub followers: Option<RateLimitEntry>,
    pub application: Option<RateLimitEntry>,
    pub users: Option<RateLimitEntry>,
}

/// Snapshot of one session's remaining call budgets.
#[derive(Clone, Copy, Debug)]
pub struct RateLimitStatus {
    pub resources: RateLimitResources,
}

impl RateLimitStatus {
    /// Remaining calls for `endpoint`, or `None` when the snapshot lacks an
    /// entry for it (treated as unusable by the selector).
    pub open spec fn spec_remaining(&self, endpoint: EndpointKind) -> Option<i64> {
        let entry = match endpoint {
            EndpointKind::GraphEdgeFriends => self.resources.friends,
            EndpointKind::GraphEdgeFollowers => self.resources.followers,
            EndpointKind::ProfileBatchLookup => self.resources.users,
        };
        match entry {
            Some(e) => Some(e.remaining),
            None => None,
        }
    }

    /// Remaining budget for one endpoint kind.
    pub fn remaining_for(&self, endpoint: EndpointKind) -> (r: Option<i64>)
        ensures
            r == self.spec_remaining(endpoint),
    {
        let entry = match endpoint {
            EndpointKind::GraphEdgeFriends => self.resources.friends,
            EndpointKind::GraphEdgeFollowers => self.resources.followers,
            EndpointKind::ProfileBatchLookup => self.resources.users,
        };
        match entry {
            Some(e) => Some(e.remaining),
            None => None,
        }
    }

    /// Remaining budget for the friends edge listing.
    pub fn friends_ids(&self) -> (r: Option<i64>)
        ensures
            r == self.spec_remaining(EndpointKind::GraphEdgeFriends),
    {
        self.remaining_for(EndpointKind::GraphEdgeFriends)
    }

    /// Remaining budget for the followers edge listing.
    pub fn followers_ids(&self) -> (r: Option<i64>)
        ensures
            r == self.spec_remaining(EndpointKind::GraphEdgeFollowers),
    {
        self.remaining_for(EndpointKind::GraphEdgeFollowers)
    }

    /// Remaining budget for the profile batch lookup.
    pub fn users_lookup(&self) -> (r: Option<i64>)
        ensures
            r == self.spec_remaining(EndpointKind::ProfileBatchLookup),
    {
        self.remaining_for(EndpointKind::ProfileBatchLookup)
    }
}

/// One profile record returned by the batch lookup.
#[derive(Clone, Debug)]
pub struct User {
    pub id: i64,
    pub name: String,
    pub screen_name: String,
    pub description: String,
    pub protected: bool,
    pub followers_count: i64,
    pub friends_count: i64,
    pub favourites_count: i64,
    pub statuses_count: i64,
    pub created_at: String,
    pub profile_image_url_https: String,
}

} // verus!
