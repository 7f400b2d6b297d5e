use fiole::codec::{Bytes, Unspecified};
use fiole::{Database, Keyspace, KeyspaceCreateOptions};
use skip_list::key::{Key, KeyCodec, KeyKind};
use skip_list::{Bound, Error, Filter, SkipList};
use tempfile::TempDir;

/// A query over values encoded with a codec that never fails.
type Q = Filter<Result<Vec<u8>, ()>>;

struct TestDb {
    db: Database,
    ks: SkipList,
    raw: Keyspace<Unspecified, Unspecified>,
    _dir: TempDir,
}

impl TestDb {
    fn create() -> TestDb {
        let dir = tempfile::tempdir().unwrap();
        let db = Database::builder(dir.path()).unwrap();
        let ks: Keyspace<Unspecified, Unspecified> = db
            .keyspace("skip list", KeyspaceCreateOptions::default)
            .unwrap();
        let sl = SkipList::new(ks.clone());
        TestDb {
            db,
            ks: sl,
            raw: ks,
            _dir: dir,
        }
    }
}

/// The encoding of a value with the big-endian `u32` codec.
fn be(v: u32) -> Vec<u8> {
    v.to_be_bytes().to_vec()
}

/// A value as the index takes it: encoded with the big-endian `u32` codec,
/// which never fails.
fn v(x: u32) -> Result<Vec<u8>, ()> {
    Ok(be(x))
}

/// A value whose encoding failed.
fn unencodable() -> Result<Vec<u8>, ()> {
    Err(())
}

fn show(b: &roaring::RoaringBitmap) -> String {
    format!("{:?}", b)
}

#[test]
fn insert_10_elements_and_simple_queries() {
    let db = TestDb::create();
    let mut wtxn = db.db.write_tx().unwrap();
    for i in 0..10u32 {
        db.ks.insert(&mut wtxn, i, vec![v(i)]).unwrap();
    }

    let ret = db.ks.filter(&wtxn, Q::Nothing).unwrap();
    assert_eq!(show(&ret), "RoaringBitmap<[]>");

    let ret = db.ks.filter(&wtxn, Q::All).unwrap();
    assert_eq!(show(&ret), "RoaringBitmap<[0, 1, 2, 3, 4, 5, 6, 7, 8, 9]>");

    let ret = db.ks.filter(&wtxn, Q::Equal(v(5))).unwrap();
    assert_eq!(show(&ret), "RoaringBitmap<[]>");

    let ret = db
        .ks
        .filter(&wtxn, Q::range(Bound::Included(v(4)), Bound::Included(v(5))))
        .unwrap();
    assert_eq!(show(&ret), "RoaringBitmap<[4, 5]>");

    let ret = db
        .ks
        .filter(&wtxn, Q::range(Bound::Included(v(4)), Bound::Excluded(v(5))))
        .unwrap();
    assert_eq!(show(&ret), "RoaringBitmap<[4]>");

    let ret = db
        .ks
        .filter(&wtxn, Q::range(Bound::Included(v(4)), Bound::Excluded(v(4))))
        .unwrap();
    assert_eq!(show(&ret), "RoaringBitmap<[]>");

    let ret = db
        .ks
        .filter(&wtxn, Q::range(Bound::Included(v(4)), Bound::Included(v(4))))
        .unwrap();
    assert_eq!(show(&ret), "RoaringBitmap<[4]>");

    let ret = db
        .ks
        .filter(&wtxn, Q::range(Bound::Included(v(4)), Bound::Included(v(3))))
        .unwrap();
    assert_eq!(show(&ret), "RoaringBitmap<[]>");

    let ret = db
        .ks
        .filter(&wtxn, Q::range(Bound::Unbounded, Bound::Excluded(v(5))))
        .unwrap();
    assert_eq!(show(&ret), "RoaringBitmap<[0, 1, 2, 3, 4]>");

    let ret = db
        .ks
        .filter(&wtxn, Q::range(Bound::Included(v(6)), Bound::Unbounded))
        .unwrap();
    assert_eq!(show(&ret), "RoaringBitmap<[6, 7, 8, 9]>");

    let ret = db.ks.filter(&wtxn, Q::LessThan(v(5))).unwrap();
    assert_eq!(show(&ret), "RoaringBitmap<[0, 1, 2, 3, 4]>");

    let ret = db.ks.filter(&wtxn, Q::LessThanOrEqual(v(5))).unwrap();
    assert_eq!(show(&ret), "RoaringBitmap<[0, 1, 2, 3, 4, 5]>");

    let ret = db.ks.filter(&wtxn, Q::MoreThan(v(5))).unwrap();
    assert_eq!(show(&ret), "RoaringBitmap<[6, 7, 8, 9]>");

    let ret = db.ks.filter(&wtxn, Q::MoreThanOrEqual(v(5))).unwrap();
    assert_eq!(show(&ret), "RoaringBitmap<[5, 6, 7, 8, 9]>");

    let ret = db
        .ks
        .filter(&wtxn, Q::Not(Box::new(Q::MoreThan(v(5)))))
        .unwrap();
    assert_eq!(show(&ret), "RoaringBitmap<[0, 1, 2, 3, 4, 5]>");

    // --- AND

    // And with no overlap should return nothing
    let ret = db
        .ks
        .filter(
            &wtxn,
            Q::And(vec![Q::LessThan(v(5)), Q::MoreThan(v(5))]),
        )
        .unwrap();
    assert_eq!(show(&ret), "RoaringBitmap<[]>");

    // And with overlap should return only the overlap
    let ret = db
        .ks
        .filter(
            &wtxn,
            Q::And(vec![Q::LessThan(v(6)), Q::MoreThan(v(4))]),
        )
        .unwrap();
    assert_eq!(show(&ret), "RoaringBitmap<[5]>");

    // And with an empty bitmap shouldn't even evaluate the next queries
    let ret = db
        .ks
        .filter(
            &wtxn,
            Q::And(vec![
                Q::Nothing,
                Q::All,
                Q::LessThan(v(6)),
                Q::MoreThan(v(4)),
            ]),
        )
        .unwrap();
    assert_eq!(show(&ret), "RoaringBitmap<[]>");

    // --- OR

    // Or with no overlap should return the addition of both parts
    let ret = db
        .ks
        .filter(
            &wtxn,
            Q::Or(vec![Q::LessThan(v(5)), Q::MoreThan(v(5))]),
        )
        .unwrap();
    assert_eq!(show(&ret), "RoaringBitmap<[0, 1, 2, 3, 4, 6, 7, 8, 9]>");

    // And with overlap should return only the result of both request
    let ret = db
        .ks
        .filter(
            &wtxn,
            Q::Or(vec![Q::LessThan(v(6)), Q::MoreThan(v(4))]),
        )
        .unwrap();
    assert_eq!(show(&ret), "RoaringBitmap<[0, 1, 2, 3, 4, 5, 6, 7, 8, 9]>");

    // Or with a full bitmap shouldn't even evaluate the next queries
    let ret = db
        .ks
        .filter(
            &wtxn,
            Q::Or(vec![
                Q::All,
                Q::Nothing,
                Q::LessThan(v(6)),
                Q::MoreThan(v(4)),
            ]),
        )
        .unwrap();
    assert_eq!(show(&ret), "RoaringBitmap<[0, 1, 2, 3, 4, 5, 6, 7, 8, 9]>");
}

#[test]
fn committed_documents_are_read_through_a_snapshot() {
    let db = TestDb::create();
    let mut wtxn = db.db.write_tx().unwrap();
    db.ks.insert(&mut wtxn, 1, vec![v(10), v(20)]).unwrap();
    db.ks.insert(&mut wtxn, 2, vec![v(20)]).unwrap();
    db.ks.insert(&mut wtxn, 3, Vec::<Result<Vec<u8>, ()>>::new()).unwrap();
    wtxn.commit().unwrap().unwrap();

    let rtxn = db.db.read_tx();
    let ret = db.ks.filter(&rtxn, Q::All).unwrap();
    assert_eq!(show(&ret), "RoaringBitmap<[1, 2, 3]>");
    let ret = db
        .ks
        .filter(&rtxn, Q::range(Bound::Included(v(20)), Bound::Included(v(20))))
        .unwrap();
    assert_eq!(show(&ret), "RoaringBitmap<[1, 2]>");
    let ret = db.ks.filter(&rtxn, Q::LessThan(v(20))).unwrap();
    assert_eq!(show(&ret), "RoaringBitmap<[1]>");
    // a document without values is in no range
    let ret = db
        .ks
        .filter(&rtxn, Q::range(Bound::Unbounded, Bound::Unbounded))
        .unwrap();
    assert_eq!(show(&ret), "RoaringBitmap<[1, 2]>");
    let ret = db
        .ks
        .filter(&rtxn, Q::Not(Box::new(Q::MoreThanOrEqual(v(0)))))
        .unwrap();
    assert_eq!(show(&ret), "RoaringBitmap<[3]>");
}

#[test]
fn inserting_again_adds_values_and_keeps_the_others() {
    let db = TestDb::create();
    let mut wtxn = db.db.write_tx().unwrap();
    db.ks.insert(&mut wtxn, 7, vec![v(1)]).unwrap();
    db.ks.insert(&mut wtxn, 7, vec![v(2), v(2)]).unwrap();
    db.ks.insert(&mut wtxn, 8, vec![v(2)]).unwrap();
    let ret = db.ks.filter(&wtxn, Q::All).unwrap();
    assert_eq!(show(&ret), "RoaringBitmap<[7, 8]>");
    let ret = db.ks.filter(&wtxn, Q::LessThanOrEqual(v(1))).unwrap();
    assert_eq!(show(&ret), "RoaringBitmap<[7]>");
    let ret = db.ks.filter(&wtxn, Q::MoreThan(v(1))).unwrap();
    assert_eq!(show(&ret), "RoaringBitmap<[7, 8]>");
}

#[test]
fn equal_reads_the_key_that_is_the_encoding_itself() {
    let db = TestDb::create();
    let mut wtxn = db.db.write_tx().unwrap();
    for i in 0..4u32 {
        db.ks.insert(&mut wtxn, i, vec![v(i)]).unwrap();
    }
    // the encoding of 2 is not a key of the index
    let ret = db.ks.filter(&wtxn, Q::Equal(v(2))).unwrap();
    assert_eq!(show(&ret), "RoaringBitmap<[]>");
    // the entry key of 2, given whole, is one
    let mut entry = vec![1u8];
    entry.extend_from_slice(&be(2));
    let ret = db.ks.filter(&wtxn, Q::Equal(Ok(entry))).unwrap();
    assert_eq!(show(&ret), "RoaringBitmap<[2]>");
    // and the one-byte encoding 0 is the key of every document
    let ret = db.ks.filter(&wtxn, Q::Equal(Ok(vec![0]))).unwrap();
    assert_eq!(show(&ret), "RoaringBitmap<[0, 1, 2, 3]>");
}

#[test]
fn an_empty_or_and_an_empty_and_match_nothing() {
    let db = TestDb::create();
    let mut wtxn = db.db.write_tx().unwrap();
    db.ks.insert(&mut wtxn, 1, vec![v(1)]).unwrap();
    let ret = db.ks.filter(&wtxn, Q::Or(vec![])).unwrap();
    assert_eq!(show(&ret), "RoaringBitmap<[]>");
    let ret = db.ks.filter(&wtxn, Q::And(vec![])).unwrap();
    assert_eq!(show(&ret), "RoaringBitmap<[]>");
    let ret = db
        .ks
        .filter(&wtxn, Q::Not(Box::new(Q::Not(Box::new(Q::Equal(v(9)))))))
        .unwrap();
    assert_eq!(show(&ret), "RoaringBitmap<[]>");
}

#[test]
fn an_undecodable_set_is_reported() {
    let db = TestDb::create();
    let mut wtxn = db.db.write_tx().unwrap();
    db.ks.insert(&mut wtxn, 1, vec![v(1)]).unwrap();
    // overwrite the set of every document with bytes that are no bitmap
    let bytes: Keyspace<Bytes, Bytes> = db.raw.remap_types();
    bytes.insert(&mut wtxn, &[0u8][..], &[9u8, 9, 9][..]).unwrap();
    let ret = db.ks.filter(&wtxn, Q::All);
    assert!(matches!(ret, Err(Error::CouldNotEncodeOrDecodeRoaring)));
    let ret = db.ks.filter(&wtxn, Q::Not(Box::new(Q::Nothing)));
    assert!(matches!(ret, Err(Error::CouldNotEncodeOrDecodeRoaring)));
    // a range never reads the set of every document
    let ret = db.ks.filter(&wtxn, Q::LessThan(v(5))).unwrap();
    assert_eq!(show(&ret), "RoaringBitmap<[1]>");
    // an `And` that is empty stops before what cannot be read
    let ret = db
        .ks
        .filter(&wtxn, Q::And(vec![Q::Nothing, Q::All]))
        .unwrap();
    assert_eq!(show(&ret), "RoaringBitmap<[]>");
    // inserting reads that set first, and fails
    let ret = db.ks.insert(&mut wtxn, 2, vec![v(2)]);
    assert!(matches!(ret, Err(Error::CouldNotEncodeOrDecodeRoaring)));
    let ret = db.ks.filter(&wtxn, Q::MoreThan(v(1))).unwrap();
    assert_eq!(show(&ret), "RoaringBitmap<[]>");

    // an undecodable entry within a range is reported too
    let mut entry = vec![1u8];
    entry.extend_from_slice(&be(3));
    bytes.insert(&mut wtxn, &entry[..], &[1u8][..]).unwrap();
    let ret = db.ks.filter(&wtxn, Q::MoreThan(v(2)));
    assert!(matches!(ret, Err(Error::CouldNotEncodeOrDecodeRoaring)));
    let ret = db.ks.filter(&wtxn, Q::LessThan(v(2))).unwrap();
    assert_eq!(show(&ret), "RoaringBitmap<[1]>");
}

#[test]
fn foreign_keys_are_reported_where_a_scan_meets_them() {
    let db = TestDb::create();
    let mut wtxn = db.db.write_tx().unwrap();
    db.ks.insert(&mut wtxn, 1, vec![v(1)]).unwrap();
    let ret = db.ks.try_filter(&wtxn, Q::MoreThan(v(0))).unwrap();
    assert_eq!(show(&ret.unwrap()), "RoaringBitmap<[1]>");

    let bytes: Keyspace<Bytes, Bytes> = db.raw.remap_types();
    // keys past the closing tag are never met by a scan
    bytes.insert(&mut wtxn, &[255u8, 1][..], &[][..]).unwrap();
    let ret = db.ks.try_filter(&wtxn, Q::MoreThan(v(0))).unwrap();
    assert_eq!(show(&ret.unwrap()), "RoaringBitmap<[1]>");
    // a key tagged 7 is met by a scan to the end of the entries
    bytes.insert(&mut wtxn, &[7u8, 1][..], &[][..]).unwrap();
    assert!(db.ks.try_filter(&wtxn, Q::MoreThan(v(0))).unwrap().is_none());
    assert!(db
        .ks
        .try_filter(&wtxn, Q::Not(Box::new(Q::range(Bound::Included(v(5)), Bound::Unbounded))))
        .unwrap()
        .is_none());
    // queries whose scans end before it, or that stop before their scan, still answer
    let ret = db.ks.try_filter(&wtxn, Q::All).unwrap();
    assert_eq!(show(&ret.unwrap()), "RoaringBitmap<[1]>");
    let ret = db.ks.filter(&wtxn, Q::LessThan(v(2))).unwrap();
    assert_eq!(show(&ret), "RoaringBitmap<[1]>");
    let ret = db
        .ks
        .try_filter(&wtxn, Q::Or(vec![Q::All, Q::MoreThan(v(0))]))
        .unwrap();
    assert_eq!(show(&ret.unwrap()), "RoaringBitmap<[1]>");
    let ret = db
        .ks
        .try_filter(&wtxn, Q::And(vec![Q::Equal(v(3)), Q::MoreThanOrEqual(v(0))]))
        .unwrap();
    assert_eq!(show(&ret.unwrap()), "RoaringBitmap<[]>");
    let ret = db
        .ks
        .filter(&wtxn, Q::Or(vec![Q::LessThan(v(2)), Q::MoreThan(v(0))]));
    assert!(ret.is_ok());
    // an entry whose set does not decode sorts before it, and is met first
    let mut entry = vec![1u8];
    entry.extend_from_slice(&be(9));
    bytes.insert(&mut wtxn, &entry[..], &[3u8][..]).unwrap();
    let ret = db.ks.try_filter(&wtxn, Q::MoreThan(v(0)));
    assert!(matches!(ret, Err(Error::CouldNotEncodeOrDecodeRoaring)));
    let ret = db.ks.filter(&wtxn, Q::MoreThan(v(0)));
    assert!(matches!(ret, Err(Error::CouldNotEncodeOrDecodeRoaring)));
}

#[test]
fn too_long_keys_stop_a_query_only_where_they_are_reached() {
    let db = TestDb::create();
    let mut wtxn = db.db.write_tx().unwrap();
    db.ks.insert(&mut wtxn, 1, vec![v(1)]).unwrap();
    let long: Result<Vec<u8>, ()> = Ok(vec![1u8; 65535]);
    // a compared value leaves no room for the tag of its entry key
    assert!(db.ks.try_filter(&wtxn, Q::LessThan(long.clone())).unwrap().is_none());
    assert!(db
        .ks
        .try_filter(&wtxn, Q::range(Bound::Unbounded, Bound::Included(long.clone())))
        .unwrap()
        .is_none());
    // one byte shorter, it does
    let ret = db.ks.try_filter(&wtxn, Q::LessThan(Ok(vec![1u8; 65534]))).unwrap();
    assert_eq!(show(&ret.unwrap()), "RoaringBitmap<[1]>");
    // `Equal` reads the encoding itself, which may be one byte longer
    let ret = db.ks.try_filter(&wtxn, Q::Equal(long.clone())).unwrap();
    assert_eq!(show(&ret.unwrap()), "RoaringBitmap<[]>");
    assert!(db
        .ks
        .try_filter(&wtxn, Q::Equal(Ok(vec![1u8; 65536])))
        .unwrap()
        .is_none());
    // an `And` that stops first, or an `Or` that is full first, never reaches it
    let ret = db
        .ks
        .filter(&wtxn, Q::And(vec![Q::Nothing, Q::LessThan(long.clone())]))
        .unwrap();
    assert_eq!(show(&ret), "RoaringBitmap<[]>");
    let ret = db
        .ks
        .filter(&wtxn, Q::Or(vec![Q::All, Q::LessThan(long)]))
        .unwrap();
    assert_eq!(show(&ret), "RoaringBitmap<[1]>");
    // a value that could not be encoded fails before any length matters
    let ret = db.ks.try_filter(&wtxn, Q::LessThan(unencodable()));
    assert!(matches!(ret, Err(Error::CouldNotEncodeValue(()))));
}

#[test]
fn insert_stops_at_a_value_whose_key_is_too_long() {
    let db = TestDb::create();
    let mut wtxn = db.db.write_tx().unwrap();
    let ret = db
        .ks
        .try_insert(&mut wtxn, 3, vec![v(1), Ok(vec![0u8; 65535]), v(2)])
        .unwrap();
    assert!(ret.is_none());
    // the document and the value before it were recorded, not the one after
    let ret = db.ks.filter(&wtxn, Q::All).unwrap();
    assert_eq!(show(&ret), "RoaringBitmap<[3]>");
    let ret = db.ks.filter(&wtxn, Q::LessThanOrEqual(v(1))).unwrap();
    assert_eq!(show(&ret), "RoaringBitmap<[3]>");
    let ret = db.ks.filter(&wtxn, Q::MoreThan(v(1))).unwrap();
    assert_eq!(show(&ret), "RoaringBitmap<[]>");
    // an unencodable value before it stops the insert first
    let ret = db.ks.try_insert(&mut wtxn, 4, vec![unencodable(), Ok(vec![0u8; 65535])]);
    assert!(matches!(ret, Err(Error::CouldNotEncodeValue(()))));
    // one byte shorter, it is recorded
    let ret = db.ks.try_insert(&mut wtxn, 5, vec![Ok::<_, ()>(vec![0u8; 65534])]).unwrap();
    assert!(ret.is_some());
}

#[test]
fn an_unencodable_value_fails_a_query_only_where_it_is_reached() {
    let db = TestDb::create();
    let mut wtxn = db.db.write_tx().unwrap();
    for i in 0..10u32 {
        db.ks.insert(&mut wtxn, i, vec![v(i)]).unwrap();
    }
    // a full `Or` stops before it
    let ret = db
        .ks
        .filter(&wtxn, Q::Or(vec![Q::All, Q::Equal(unencodable())]))
        .unwrap();
    assert_eq!(show(&ret), "RoaringBitmap<[0, 1, 2, 3, 4, 5, 6, 7, 8, 9]>");
    // an empty `And` stops before it
    let ret = db
        .ks
        .filter(&wtxn, Q::And(vec![Q::Nothing, Q::LessThan(unencodable())]))
        .unwrap();
    assert_eq!(show(&ret), "RoaringBitmap<[]>");
    // reached, it fails the query
    let ret = db
        .ks
        .filter(&wtxn, Q::Or(vec![Q::LessThan(v(3)), Q::Equal(unencodable())]));
    assert!(matches!(ret, Err(Error::CouldNotEncodeValue(()))));
    let ret = db.ks.filter(&wtxn, Q::Not(Box::new(Q::MoreThan(unencodable()))));
    assert!(matches!(ret, Err(Error::CouldNotEncodeValue(()))));
    let ret = db.ks.filter(&wtxn, Q::range(Bound::Unbounded, Bound::Included(unencodable())));
    assert!(matches!(ret, Err(Error::CouldNotEncodeValue(()))));
}

#[test]
fn insert_keeps_what_it_wrote_before_an_unencodable_value() {
    let db = TestDb::create();
    let mut wtxn = db.db.write_tx().unwrap();
    let ret = db.ks.insert(&mut wtxn, 4, vec![v(1), unencodable(), v(3)]);
    assert!(matches!(ret, Err(Error::CouldNotEncodeValue(()))));
    // the document and its first value were recorded, the last value was not
    let ret = db.ks.filter(&wtxn, Q::All).unwrap();
    assert_eq!(show(&ret), "RoaringBitmap<[4]>");
    let ret = db.ks.filter(&wtxn, Q::LessThanOrEqual(v(1))).unwrap();
    assert_eq!(show(&ret), "RoaringBitmap<[4]>");
    let ret = db.ks.filter(&wtxn, Q::MoreThan(v(1))).unwrap();
    assert_eq!(show(&ret), "RoaringBitmap<[]>");
    // an unencodable first value leaves the document recorded without values
    let ret = db.ks.insert(&mut wtxn, 5, vec![unencodable()]);
    assert!(matches!(ret, Err(Error::CouldNotEncodeValue(()))));
    let ret = db.ks.filter(&wtxn, Q::All).unwrap();
    assert_eq!(show(&ret), "RoaringBitmap<[4, 5]>");
    let ret = db.ks.filter(&wtxn, Q::range(Bound::Unbounded, Bound::Unbounded)).unwrap();
    assert_eq!(show(&ret), "RoaringBitmap<[4]>");
}

#[test]
fn a_fresh_keyspace_is_empty() {
    let db = TestDb::create();
    let rtxn = db.db.read_tx();
    let ret = db.ks.filter(&rtxn, Q::All).unwrap();
    assert_eq!(show(&ret), "RoaringBitmap<[]>");
    let ret = db.ks.filter(&rtxn, Q::Not(Box::new(Q::Nothing))).unwrap();
    assert_eq!(show(&ret), "RoaringBitmap<[]>");
}

#[test]
fn display_with_writes_the_query() {
    let s = |v: &str| v.to_string();
    assert_eq!(Filter::<String>::Nothing.display_with(), "[NONE]");
    assert_eq!(Filter::<String>::All.display_with(), "[ALL]");
    assert_eq!(
        Filter::Not(Box::new(Filter::LessThan(s("5")))).display_with(),
        "[NOT] [ITEM] < 5"
    );
    assert_eq!(
        Filter::Or(vec![Filter::LessThanOrEqual(s("1")), Filter::MoreThan(s("2"))]).display_with(),
        "[ITEM] <= 1 [OR] [ITEM] > 2"
    );
    assert_eq!(
        Filter::And(vec![
            Filter::MoreThanOrEqual(s("1")),
            Filter::Equal(s("2")),
            Filter::All
        ])
        .display_with(),
        "[ITEM] >= 1 [AND] [ITEM] = 2 [AND] [ALL]"
    );
    assert_eq!(Filter::<String>::Or(vec![]).display_with(), "");
    assert_eq!(
        Filter::range(Bound::Included(s("4")), Bound::Included(s("5"))).display_with(),
        "4..=5"
    );
    assert_eq!(
        Filter::range(Bound::Excluded(s("4")), Bound::Excluded(s("5"))).display_with(),
        "4-..5"
    );
    assert_eq!(
        Filter::<String>::range(Bound::Unbounded, Bound::Unbounded).display_with(),
        ".."
    );
}

#[test]
fn keys_encode_with_their_tag() {
    assert_eq!(KeyKind::All.encode(), vec![0]);
    assert_eq!(KeyKind::Entry.encode(), vec![1]);
    assert_eq!(KeyKind::FinalKind.encode(), vec![255]);
    assert_eq!(KeyKind::FinalKind.tag_byte(), 255);
    assert_eq!(KeyCodec::encode(&Key::All), vec![0]);
    assert_eq!(KeyCodec::encode(&Key::new(vec![0, 0, 0, 5])), vec![1, 0, 0, 0, 5]);
    assert!(matches!(Key::<Vec<u8>>::All.as_kind(), KeyKind::All));
    let k = Key::new(vec![3, 4]);
    assert!(matches!(k.as_kind(), KeyKind::Entry));
    assert_eq!(k.as_entry(), &vec![3, 4]);
}

#[test]
fn keys_decode_back() {
    let k = KeyCodec::decode(&KeyCodec::encode(&Key::new(vec![9, 8]))).unwrap();
    assert_eq!(k.as_entry(), &vec![9, 8]);
    let k = KeyCodec::decode(&KeyCodec::encode(&Key::All)).unwrap();
    assert!(matches!(k, Key::All));
    // tag 0 is the key of every document, whatever follows
    let k = KeyCodec::decode(&vec![0, 5, 6]).unwrap();
    assert!(matches!(k, Key::All));
    let k = KeyCodec::decode(&vec![1]).unwrap();
    assert_eq!(k.as_entry(), &Vec::<u8>::new());
    assert!(KeyCodec::decode(&vec![]).is_err());
}

#[test]
fn a_full_or_stops_before_what_cannot_be_read() {
    let db = TestDb::create();
    let mut wtxn = db.db.write_tx().unwrap();
    db.ks.insert(&mut wtxn, 1, vec![v(1)]).unwrap();
    db.ks.insert(&mut wtxn, 2, vec![v(2)]).unwrap();
    let mut entry = vec![1u8];
    entry.extend_from_slice(&be(9));
    let bytes: Keyspace<Bytes, Bytes> = db.raw.remap_types();
    bytes.insert(&mut wtxn, &entry[..], &[4u8, 4][..]).unwrap();
    let ret = db
        .ks
        .filter(&wtxn, Q::Or(vec![Q::All, Q::MoreThan(v(8))]))
        .unwrap();
    assert_eq!(show(&ret), "RoaringBitmap<[1, 2]>");
    let ret = db
        .ks
        .filter(&wtxn, Q::Or(vec![Q::LessThan(v(2)), Q::MoreThan(v(8))]));
    assert!(matches!(ret, Err(Error::CouldNotEncodeOrDecodeRoaring)));
    let ret = db
        .ks
        .filter(&wtxn, Q::Or(vec![Q::LessThan(v(3)), Q::MoreThan(v(8))]))
        .unwrap();
    assert_eq!(show(&ret), "RoaringBitmap<[1, 2]>");
}
