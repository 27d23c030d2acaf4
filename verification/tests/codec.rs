use twitter_and_me::auth::basic_auth_header;
use twitter_and_me::checkpoint::{encode_checkpoint, parse_checkpoint};
use twitter_and_me::fetcher::IdCollection;

#[test]
fn checkpoint_round_trip() {
    let coll = IdCollection { ids: vec![1, 2, 3], cursor: 7 };
    let bytes = encode_checkpoint(&coll);
    assert_eq!(bytes, b"{\"ids\":[1,2,3],\"cursor\":7}".to_vec());
    let back = parse_checkpoint(&bytes).expect("canonical bytes parse");
    assert_eq!(back.ids, vec![1, 2, 3]);
    assert_eq!(back.cursor, 7);
}

#[test]
fn checkpoint_round_trip_of_fresh_collection() {
    let coll = IdCollection::new();
    let bytes = encode_checkpoint(&coll);
    assert_eq!(bytes, b"{\"ids\":[],\"cursor\":-1}".to_vec());
    let back = parse_checkpoint(&bytes).expect("canonical bytes parse");
    assert!(back.ids.is_empty());
    assert_eq!(back.cursor, -1);
}

#[test]
fn checkpoint_round_trip_of_extreme_values() {
    let coll = IdCollection {
        ids: vec![i64::MIN, -1, 0, 1, i64::MAX],
        cursor: i64::MIN,
    };
    let bytes = encode_checkpoint(&coll);
    assert_eq!(
        bytes,
        b"{\"ids\":[-9223372036854775808,-1,0,1,9223372036854775807],\"cursor\":-9223372036854775808}"
            .to_vec()
    );
    let back = parse_checkpoint(&bytes).expect("canonical bytes parse");
    assert_eq!(back.ids, vec![i64::MIN, -1, 0, 1, i64::MAX]);
    assert_eq!(back.cursor, i64::MIN);
}

#[test]
fn parse_rejects_malformed_input() {
    assert!(parse_checkpoint(&Vec::new()).is_none());
    assert!(parse_checkpoint(&b"not json".to_vec()).is_none());
    assert!(parse_checkpoint(&b"{\"ids\":[],\"cursor\":".to_vec()).is_none());
    assert!(parse_checkpoint(&b"{\"ids\":[1,],\"cursor\":0}".to_vec()).is_none());
    assert!(parse_checkpoint(&b"{\"ids\":[1 ,2],\"cursor\":0}".to_vec()).is_none());
    assert!(parse_checkpoint(&b"{\"ids\":[1,2],\"cursor\":0} ".to_vec()).is_none());
}

#[test]
fn parse_rejects_non_canonical_numbers() {
    assert!(parse_checkpoint(&b"{\"ids\":[01],\"cursor\":0}".to_vec()).is_none());
    assert!(parse_checkpoint(&b"{\"ids\":[-0],\"cursor\":0}".to_vec()).is_none());
    assert!(parse_checkpoint(&b"{\"ids\":[],\"cursor\":00}".to_vec()).is_none());
    // one past i64::MAX and far beyond the value range
    assert!(parse_checkpoint(&b"{\"ids\":[9223372036854775808],\"cursor\":0}".to_vec()).is_none());
    assert!(
        parse_checkpoint(&b"{\"ids\":[],\"cursor\":-9223372036854775809}".to_vec()).is_none()
    );
    assert!(parse_checkpoint(&b"{\"ids\":[99999999999999999999],\"cursor\":0}".to_vec()).is_none());
}

#[test]
fn parse_accepts_boundary_values() {
    let max = parse_checkpoint(&b"{\"ids\":[9223372036854775807],\"cursor\":0}".to_vec())
        .expect("max id parses");
    assert_eq!(max.ids, vec![i64::MAX]);
    let min = parse_checkpoint(&b"{\"ids\":[-9223372036854775808],\"cursor\":0}".to_vec())
        .expect("min id parses");
    assert_eq!(min.ids, vec![i64::MIN]);
}

#[test]
fn interrupted_run_resumes_to_the_same_collection() {
    // the remote data: three pages, the last carrying cursor zero
    let pages = vec![
        (vec![9i64, 8], 55i64),
        (vec![7, 6], 21),
        (vec![5], 0),
    ];

    // uninterrupted run
    let mut straight = IdCollection::new();
    for (ids, next) in pages.iter() {
        assert!(!straight.is_done());
        straight.apply_page(twitter_and_me::model::Ids {
            ids: ids.clone(),
            next_cursor: *next,
            previous_cursor: 0,
        });
    }
    assert!(straight.is_done());

    // run interrupted after the first page, resumed from the checkpoint
    let mut first = IdCollection::new();
    first.apply_page(twitter_and_me::model::Ids {
        ids: pages[0].0.clone(),
        next_cursor: pages[0].1,
        previous_cursor: 0,
    });
    let saved = encode_checkpoint(&first);
    let mut resumed = parse_checkpoint(&saved).expect("checkpoint parses");
    for (ids, next) in pages[1..].iter() {
        assert!(!resumed.is_done());
        resumed.apply_page(twitter_and_me::model::Ids {
            ids: ids.clone(),
            next_cursor: *next,
            previous_cursor: 0,
        });
    }
    assert!(resumed.is_done());
    assert_eq!(resumed.ids, straight.ids);
    assert_eq!(resumed.cursor, straight.cursor);
    assert_eq!(resumed.ids, vec![9, 8, 7, 6, 5]);
}

#[test]
fn basic_auth_header_encodes_the_joined_credential() {
    let header = basic_auth_header(&b"key".to_vec(), &b"secret".to_vec());
    assert_eq!(header, b"Basic a2V5OnNlY3JldA==".to_vec());
    let short = basic_auth_header(&b"a".to_vec(), &b"b".to_vec());
    assert_eq!(short, b"Basic YTpi".to_vec());
}
