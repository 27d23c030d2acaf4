use twitter_and_me::fetcher::{fetch_decision, FetchState, IdCollection};
use twitter_and_me::lookup::{pop_n, BatchLookup};
use twitter_and_me::model::{EndpointKind, RateLimitEntry, RateLimitResources, RateLimitStatus};
use twitter_and_me::report::{filter_followable, sub_set};
use twitter_and_me::selector::{select, usable};

fn entry(remaining: i64) -> RateLimitEntry {
    RateLimitEntry { limit: 15, remaining, reset: 1_700_000_000 }
}

fn status(friends: Option<i64>, followers: Option<i64>, users: Option<i64>) -> RateLimitStatus {
    RateLimitStatus {
        resources: RateLimitResources {
            friends: friends.map(entry),
            followers: followers.map(entry),
            application: Some(entry(100)),
            users: users.map(entry),
        },
    }
}

#[test]
fn budget_lookup_reads_the_matching_endpoint() {
    let st = status(Some(3), Some(0), None);
    assert_eq!(st.friends_ids(), Some(3));
    assert_eq!(st.followers_ids(), Some(0));
    assert_eq!(st.users_lookup(), None);
    assert_eq!(st.remaining_for(EndpointKind::GraphEdgeFriends), Some(3));
}

#[test]
fn missing_entry_counts_as_unusable() {
    let st = status(None, Some(5), None);
    assert!(!usable(&st, EndpointKind::GraphEdgeFriends));
    assert!(usable(&st, EndpointKind::GraphEdgeFollowers));
    assert!(!usable(&st, EndpointKind::ProfileBatchLookup));
}

#[test]
fn select_returns_lowest_index_with_budget() {
    let pool = vec![
        status(Some(0), Some(0), Some(0)),
        status(None, Some(1), Some(0)),
        status(Some(4), Some(2), Some(7)),
        status(Some(9), Some(9), Some(9)),
    ];
    assert_eq!(select(&pool, EndpointKind::GraphEdgeFriends), Some(2));
    assert_eq!(select(&pool, EndpointKind::GraphEdgeFollowers), Some(1));
    assert_eq!(select(&pool, EndpointKind::ProfileBatchLookup), Some(2));
}

#[test]
fn select_signals_exhaustion_when_no_budget_remains() {
    let pool = vec![status(Some(0), None, Some(0)), status(None, Some(0), Some(0))];
    assert_eq!(select(&pool, EndpointKind::GraphEdgeFriends), None);
    assert_eq!(select(&pool, EndpointKind::GraphEdgeFollowers), None);
    assert_eq!(select(&pool, EndpointKind::ProfileBatchLookup), None);
    assert_eq!(select(&Vec::new(), EndpointKind::GraphEdgeFriends), None);
}

#[test]
fn fetch_decision_follows_cursor_and_selection() {
    let fresh = IdCollection::new();
    assert_eq!(fresh.cursor, -1);
    assert!(!fresh.is_done());
    assert_eq!(fetch_decision(&fresh, Some(0)), FetchState::Fetching);
    assert_eq!(fetch_decision(&fresh, None), FetchState::Exhausted);

    let done = IdCollection { ids: vec![1, 2], cursor: 0 };
    assert!(done.is_done());
    assert_eq!(fetch_decision(&done, Some(0)), FetchState::Done);
    assert_eq!(fetch_decision(&done, None), FetchState::Done);
}

#[test]
fn apply_page_appends_and_advances_cursor() {
    let mut coll = IdCollection::new();
    coll.apply_page(twitter_and_me::model::Ids {
        ids: vec![10, 11],
        next_cursor: 42,
        previous_cursor: 0,
    });
    assert_eq!(coll.ids, vec![10, 11]);
    assert_eq!(coll.cursor, 42);
    coll.apply_page(twitter_and_me::model::Ids {
        ids: vec![12],
        next_cursor: 0,
        previous_cursor: 42,
    });
    assert_eq!(coll.ids, vec![10, 11, 12]);
    assert!(coll.is_done());
}

#[test]
fn sub_set_yields_reverse_order_without_members() {
    let a = IdCollection { ids: vec![5, 4, 3, 2, 1], cursor: 0 };
    let b = IdCollection { ids: vec![2, 4], cursor: 0 };
    assert_eq!(sub_set(&a, &b), vec![1, 3, 5]);
}

#[test]
fn sub_set_of_disjoint_and_empty_collections() {
    let a = IdCollection { ids: vec![7, 8], cursor: 0 };
    let empty = IdCollection { ids: vec![], cursor: 0 };
    assert_eq!(sub_set(&a, &empty), vec![8, 7]);
    assert_eq!(sub_set(&empty, &a), Vec::<i64>::new());
    assert_eq!(sub_set(&a, &a), Vec::<i64>::new());
}

#[test]
fn sub_set_drops_duplicates_only_when_excluded() {
    let a = IdCollection { ids: vec![1, 2, 1, 3], cursor: 0 };
    let b = IdCollection { ids: vec![3], cursor: 0 };
    assert_eq!(sub_set(&a, &b), vec![1, 2, 1]);
}

#[test]
fn pop_n_takes_from_the_end_most_recent_first() {
    let mut v = vec![1, 2, 3, 4, 5];
    let taken = pop_n(&mut v, 2);
    assert_eq!(taken, vec![5, 4]);
    assert_eq!(v, vec![1, 2, 3]);
}

#[test]
fn pop_n_with_short_input_or_zero_count() {
    let mut v = vec![1, 2, 3];
    let taken = pop_n(&mut v, 10);
    assert_eq!(taken, vec![3, 2, 1]);
    assert!(v.is_empty());

    let mut w = vec![4, 5];
    let drained = pop_n(&mut w, 0);
    assert_eq!(drained, vec![5, 4]);
    assert!(w.is_empty());
}

fn profile(id: i64) -> twitter_and_me::model::User {
    twitter_and_me::model::User {
        id,
        name: format!("user {}", id),
        screen_name: format!("user_{}", id),
        description: String::new(),
        protected: false,
        followers_count: 10,
        friends_count: 10,
        favourites_count: 0,
        statuses_count: 100,
        created_at: String::from("Mon Jan 01 00:00:00 +0000 2018"),
        profile_image_url_https: String::from("https://example.invalid/avatar.png"),
    }
}

#[test]
fn batch_lookup_respects_batch_and_call_ceilings() {
    let ids: Vec<i64> = (0..1050).collect();
    let mut lookup = BatchLookup::new(ids, 10);
    let mut resolved = 0usize;
    let mut calls = 0usize;
    while let Some(batch) = lookup.next_batch() {
        assert!(batch.len() <= 100);
        assert!(!batch.is_empty());
        resolved += batch.len();
        calls += 1;
        let users: Vec<twitter_and_me::model::User> =
            batch.iter().map(|id| profile(*id)).collect();
        lookup.record_batch(users);
    }
    assert_eq!(calls, 10);
    assert_eq!(resolved, 1000);
    assert_eq!(lookup.batches_issued, 10);
    assert_eq!(lookup.pending.len(), 50);
    assert_eq!(lookup.into_users().len(), 1000);
}

#[test]
fn batch_lookup_skipped_batch_is_not_counted() {
    let mut lookup = BatchLookup::new((0..250).collect(), 10);
    let first = lookup.next_batch().expect("first batch");
    assert_eq!(first.len(), 100);
    // no session had budget: the attempt is skipped, nothing recorded
    let second = lookup.next_batch().expect("second batch");
    assert_eq!(second.len(), 100);
    lookup.record_batch(second.iter().map(|id| profile(*id)).collect());
    assert_eq!(lookup.batches_issued, 1);
    assert_eq!(lookup.pending.len(), 50);
}

#[test]
fn batch_lookup_stops_once_input_is_drained() {
    let mut lookup = BatchLookup::new(vec![1, 2, 3], 10);
    let only = lookup.next_batch().expect("one batch");
    assert_eq!(only, vec![3, 2, 1]);
    lookup.record_batch(vec![]);
    assert!(lookup.next_batch().is_none());
}

#[test]
fn filter_followable_keeps_public_active_accounts_in_order() {
    let mut keep = profile(1);
    keep.statuses_count = 6;
    let mut protected = profile(2);
    protected.protected = true;
    let mut quiet = profile(3);
    quiet.statuses_count = 5;
    let keep_too = profile(4);
    let out = filter_followable(vec![keep, protected, quiet, keep_too]);
    let ids: Vec<i64> = out.iter().map(|u| u.id).collect();
    assert_eq!(ids, vec![1, 4]);
}
