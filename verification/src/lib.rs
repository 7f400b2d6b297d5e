//! An inverted index over a `fiole` keyspace: each document id is recorded
//! under every value of the document, and queries combine those sets.
use vstd::prelude::*;

pub mod bitmap;
pub mod error;
pub mod key;
pub mod laws;
pub mod model;
pub mod query;
pub mod store;

pub use error::Error;
pub use query::{Bound, Filter};

use bitmap::{
    bitmap_difference, bitmap_insert, bitmap_intersect_with, bitmap_is_empty, bitmap_len,
    bitmap_new, bitmap_set, bitmap_union_with,
};
use fiole::codec::Unspecified;
use fiole::{Keyspace, Wtxn};
use key::{Key, KeyCodec, KeyKind};
use model::{
    add_doc, add_doc_prefix, decoded, encodings, eval, eval_and, eval_or, first_stop, foreign,
    insert_keys, keys_within, leaf_bound, lemma_answer_without_read, lemma_first_stop,
    lemma_keys_agree, lemma_prefix_agrees, lemma_scanned_key, lookup, lower_key, read,
    reads_store, scan_result, stops, value_query, union_of, upper_key, value_bound_fits, Fault, Index, Query,
};
use roaring::RoaringBitmap;
use store::{
    bytes_lt, decode_bitmap, iter_failed, next_entry, remaining_entries, write_entries,
    write_insert, RawKeyspace, Reader, StoreError,
};

verus! {

/// The index: for every value, the set of the documents that hold it, and the
/// set of every indexed document.
pub struct SkipList {
    ks: Keyspace<Unspecified, Unspecified>,
}

/// What an operation that yields a set of documents may return, given what
/// the model says it yields. A storage failure may come at any time.
pub open spec fn outcome<E>(expected: Result<Set<u32>, Fault<E>>, r: Result<RoaringBitmap, Error<E>>) -> bool {
    match r {
        Ok(b) => expected == Ok::<Set<u32>, Fault<E>>(bitmap_set(b)),
        Err(Error::CouldNotEncodeValue(e)) => expected == Err::<Set<u32>, Fault<E>>(Fault::Unencodable(e)),
        Err(Error::CouldNotEncodeOrDecodeRoaring) => expected == Err::<Set<u32>, Fault<E>>(Fault::Undecodable),
        Err(Error::CouldNotDecodeKeyTag(_)) => false,
        Err(Error::Fjall(_)) => true,
    }
}

/// What the evaluation of a query may return, given what the model says it
/// yields: as `outcome`, and `None` where it reaches a key of another layout
/// or a key longer than the storage engine takes (where the index panics).
pub open spec fn try_outcome<E>(
    expected: Result<Set<u32>, Fault<E>>,
    r: Result<Option<RoaringBitmap>, Error<E>>,
) -> bool {
    match r {
        Ok(Some(b)) => outcome(expected, Ok(b)),
        Ok(None) => halts(expected),
        Err(e) => outcome(expected, Err(e)),
    }
}

/// Whether the model's result is one on which the index panics.
pub open spec fn halts<E>(expected: Result<Set<u32>, Fault<E>>) -> bool {
    expected == Err::<Set<u32>, Fault<E>>(Fault::ForeignKey) || expected == Err::<
        Set<u32>,
        Fault<E>,
    >(Fault::KeyTooLong)
}

/// What recording a document with `values` may leave behind, from content `d0`
/// to content `d1`. The keys are written in order (the set of every document
/// first, then the entry key of each value) up to the first value that stops
/// the insert (see `stops`): on success no value stops it and every key was
/// written; on a value's encoding error every key before it was written; on
/// another failure the keys before the `j`-th one were, and a decoding failure
/// is owed to the set stored under the `j`-th one.
pub open spec fn insert_outcome<E>(
    d0: Index,
    d1: Index,
    docid: u32,
    values: Seq<Result<Vec<u8>, E>>,
    r: Result<(), Error<E>>,
) -> bool {
    let n = first_stop(values);
    let keys = insert_keys(encodings(values, n));
    match r {
        Ok(()) => n == values.len() && add_doc_prefix(d0, docid, keys, keys.len()) == Some(d1),
        Err(Error::CouldNotEncodeValue(e)) => {
            &&& n < values.len()
            &&& values[n] == Err::<Vec<u8>, E>(e)
            &&& add_doc_prefix(d0, docid, keys, keys.len()) == Some(d1)
        },
        Err(e) => {
            &&& !(e is CouldNotDecodeKeyTag)
            &&& exists|j: nat|
                j < keys.len() && #[trigger] add_doc_prefix(d0, docid, keys, j) == Some(d1) && (
                e is CouldNotEncodeOrDecodeRoaring ==> add_doc(d1, docid, keys[j as int])
                    is None)
        },
    }
}

/// What `try_insert` may leave behind: as `insert_outcome`, and `None` where it
/// reached a value whose entry key is longer than the storage engine takes
/// (where the index panics), every key before it written.
pub open spec fn try_insert_outcome<E>(
    d0: Index,
    d1: Index,
    docid: u32,
    values: Seq<Result<Vec<u8>, E>>,
    r: Result<Option<()>, Error<E>>,
) -> bool {
    let n = first_stop(values);
    let keys = insert_keys(encodings(values, n));
    match r {
        Ok(Some(())) => insert_outcome(d0, d1, docid, values, Ok(())),
        Ok(None) => {
            &&& n < values.len()
            &&& values[n] is Ok
            &&& add_doc_prefix(d0, docid, keys, keys.len()) == Some(d1)
        },
        Err(e) => insert_outcome(d0, d1, docid, values, Err(e)),
    }
}

/// Whether an insert of `values` into content `d0` reaches a value whose entry
/// key is longer than the storage engine takes: every key before it reads
/// back a set.
pub open spec fn insert_halts<E>(d0: Index, docid: u32, values: Seq<Result<Vec<u8>, E>>) -> bool {
    let n = first_stop(values);
    &&& n < values.len()
    &&& values[n] is Ok
    &&& add_doc_prefix(d0, docid, insert_keys(encodings(values, n)), (n + 1) as nat) is Some
}

/// Whether a value bound leaves room for the tag of its entry key.
fn bound_fits_exec(b: &Bound<Vec<u8>>) -> (ok: bool)
    ensures
        ok == value_bound_fits(b@),
{
    match b {
        Bound::Included(v) => v.len() < 65535,
        Bound::Excluded(v) => v.len() < 65535,
        Bound::Unbounded => true,
    }
}

/// The encoded bound, or the encoding error of its value.
fn encoded_bound<E>(b: Bound<Result<Vec<u8>, E>>) -> (r: Result<Bound<Vec<u8>>, E>)
    ensures
        match r {
            Ok(x) => leaf_bound(b) == Ok::<Bound<Seq<u8>>, Fault<E>>(x@),
            Err(e) => leaf_bound(b) == Err::<Bound<Seq<u8>>, Fault<E>>(Fault::Unencodable(e)),
        },
{
    match b {
        Bound::Included(Ok(v)) => Ok(Bound::Included(v)),
        Bound::Included(Err(e)) => Err(e),
        Bound::Excluded(Ok(v)) => Ok(Bound::Excluded(v)),
        Bound::Excluded(Err(e)) => Err(e),
        Bound::Unbounded => Ok(Bound::Unbounded),
    }
}

impl SkipList {
    /// The keyspace that holds the index.
    pub closed spec fn keyspace(&self) -> RawKeyspace {
        self.ks
    }

    /// The content of the index as transaction `txn` sees it.
    pub open spec fn index<R: Reader>(&self, txn: &R) -> Index {
        decoded(txn.entries(self.keyspace()))
    }

    /// An index kept in keyspace `ks`.
    pub fn new(ks: Keyspace<Unspecified, Unspecified>) -> (s: Self)
        ensures
            s.keyspace() == ks,
    {
        SkipList { ks }
    }

    /// Reads the set stored under `key`; the empty set where nothing is stored.
    fn fetch<R: Reader, E>(&self, txn: &R, key: &Vec<u8>) -> (r: Result<RoaringBitmap, Error<E>>)
        requires
            key.len() <= 65535,
        ensures
            outcome(read::<E>(lookup(self.index(txn), key@)), r),
    {
        match txn.get_bitmap(&self.ks, key) {
            Ok(Some(b)) => Ok(b),
            Ok(None) => Ok(bitmap_new()),
            Err(StoreError::Fjall(e)) => Err(Error::Fjall(e)),
            Err(StoreError::Decode(_)) => Err(Error::CouldNotEncodeOrDecodeRoaring),
        }
    }

    /// Records `docid` in the set stored under `key`.
    fn add_document<E>(&self, wtxn: &mut Wtxn, key: &Vec<u8>, docid: u32) -> (r: Result<(), Error<E>>)
        requires
            0 < key.len() <= 65535,
        ensures
            ({
                let d0 = decoded(write_entries(*old(wtxn), self.keyspace()));
                let d1 = decoded(write_entries(*final(wtxn), self.keyspace()));
                match r {
                    Ok(()) => add_doc(d0, docid, key@) == Some(d1),
                    Err(e) => {
                        &&& d1 == d0
                        &&& !(e is CouldNotDecodeKeyTag)
                        &&& !(e is CouldNotEncodeValue)
                        &&& (e is CouldNotEncodeOrDecodeRoaring ==> add_doc(d0, docid, key@) is None)
                    },
                }
            }),
    {
        let ghost e0 = write_entries(*wtxn, self.ks);
        let mut ids = match self.fetch::<Wtxn, E>(&*wtxn, key) {
            Ok(b) => b,
            Err(e) => return Err(e),
        };
        bitmap_insert(&mut ids, docid);
        match write_insert(wtxn, &self.ks, key, &ids) {
            Ok(()) => {},
            Err(StoreError::Fjall(e)) => return Err(Error::Fjall(e)),
            Err(StoreError::Decode(_)) => return Err(Error::CouldNotEncodeOrDecodeRoaring),
        }
        proof {
            let e1 = write_entries(*wtxn, self.ks);
            let d0 = decoded(e0);
            assert(decoded(e1) =~= d0.insert(key@, Some(bitmap_set(ids))));
        }
        Ok(())
    }

    /// Records document `docid`, with the encodings of its values (or the
    /// errors that encoding them gave) in `values`: in the set of every
    /// document, then in the set of each value in order; `None` where it
    /// reaches a value whose entry key is longer than the storage engine takes
    /// (on which `insert` panics).
    ///
    /// Stops at the first failure, a value that could not be encoded included;
    /// what was written before it stays in the transaction.
    pub fn try_insert<E>(&self, wtxn: &mut Wtxn, docid: u32, values: Vec<Result<Vec<u8>, E>>) -> (r:
        Result<Option<()>, Error<E>>)
        ensures
            try_insert_outcome(
                decoded(write_entries(*old(wtxn), self.keyspace())),
                decoded(write_entries(*final(wtxn), self.keyspace())),
                docid,
                values@,
                r,
            ),
    {
        let ghost d0 = decoded(write_entries(*wtxn, self.ks));
        let ghost all_values = values@;
        proof {
            lemma_first_stop(all_values);
        }
        let all_key = KeyCodec::encode(&Key::All);
        match self.add_document(wtxn, &all_key, docid) {
            Ok(()) => {},
            Err(e) => {
                proof {
                    let keys = insert_keys(encodings(all_values, first_stop(all_values)));
                    assert(keys[0] == all_key@);
                    assert(add_doc_prefix(d0, docid, keys, 0) == Some(d0));
                }
                return Err(e);
            },
        }
        proof {
            assert(all_values.len() == values.len());
            let keys = insert_keys(encodings(all_values, 0));
            assert(keys[0] == all_key@);
            assert(add_doc_prefix(d0, docid, keys, 0) == Some(d0));
        }
        let mut rest = values;
        let mut i: usize = 0;
        while rest.len() > 0
            invariant
                i + rest.len() == all_values.len(),
                all_values.len() <= usize::MAX,
                all_values == values@,
                rest@ == all_values.skip(i as int),
                forall|j: int| 0 <= j < i ==> !stops(#[trigger] all_values[j]),
                0 <= first_stop(all_values) <= all_values.len(),
                forall|j: int| 0 <= j < first_stop(all_values) ==> !stops(#[trigger] all_values[j]),
                first_stop(all_values) < all_values.len() ==> stops(all_values[first_stop(all_values)]),
                add_doc_prefix(d0, docid, insert_keys(encodings(all_values, i as int)), (i + 1) as nat)
                    == Some(decoded(write_entries(*wtxn, self.ks))),
                d0 == decoded(write_entries(*old(wtxn), self.ks)),
            decreases rest.len(),
        {
            let ghost before = decoded(write_entries(*wtxn, self.ks));
            let value = rest.remove(0);
            assert(value == all_values[i as int]);
            let encoding = match value {
                Ok(b) => b,
                Err(e) => {
                    proof {
                        let n = first_stop(all_values);
                        if n < i {
                            assert(!stops(all_values[n]));
                        }
                        if n > i {
                            assert(!stops(all_values[i as int]));
                        }
                        assert(n == i);
                        lemma_keys_agree(all_values, i as int, i as int);
                        assert(all_values[n] == Err::<Vec<u8>, E>(e));
                    }
                    return Err(Error::CouldNotEncodeValue(e));
                },
            };
            if encoding.len() >= 65535 {
                // the entry key would be longer than the storage engine takes
                proof {
                    let n = first_stop(all_values);
                    if n < i {
                        assert(!stops(all_values[n]));
                    }
                    assert(stops(all_values[i as int]));
                    assert(n == i);
                    lemma_keys_agree(all_values, i as int, i as int);
                }
                return Ok(None);
            }
            let ghost keys_now = insert_keys(encodings(all_values, i as int));
            let ghost keys_next = insert_keys(encodings(all_values, i + 1));
            proof {
                let n = first_stop(all_values);
                if n < i {
                    assert(!stops(all_values[n]));
                }
                assert(!stops(all_values[i as int]));
                assert(i < n);
                lemma_keys_agree(all_values, i as int, i + 1);
                lemma_prefix_agrees(d0, docid, keys_next, keys_now, (i + 1) as nat);
                assert(keys_next[i + 1] == key::entry_key(encoding@));
            }
            let key = KeyCodec::encode(&Key::new(encoding));
            match self.add_document(wtxn, &key, docid) {
                Ok(()) => {},
                Err(e) => {
                    proof {
                        let n = first_stop(all_values);
                        if n <= i {
                            assert(!stops(all_values[n]));
                        }
                        let keys = insert_keys(encodings(all_values, n));
                        lemma_keys_agree(all_values, i + 1, n);
                        lemma_prefix_agrees(d0, docid, keys, keys_next, (i + 1) as nat);
                        assert(keys[i + 1] == keys_next[i + 1]);
                        assert(add_doc_prefix(d0, docid, keys, (i + 1) as nat) == Some(before));
                        assert(key@ == keys[i + 1]);
                        assert(decoded(write_entries(*wtxn, self.ks)) == before);
                        assert((i + 1) < keys.len());
                    }
                    return Err(e);
                },
            }
            i = i + 1;
        }
        proof {
            let n = first_stop(all_values);
            if n < i {
                assert(!stops(all_values[n]));
            }
        }
        Ok(Some(()))
    }

    /// Records document `docid` as [`SkipList::try_insert`] does.
    ///
    /// The storage engine panics on a key longer than 65535 bytes, which the
    /// entry key of a value reached by the insert may be: `requires`.
    pub fn insert<E>(&self, wtxn: &mut Wtxn, docid: u32, values: Vec<Result<Vec<u8>, E>>) -> (r:
        Result<(), Error<E>>)
        requires
            !insert_halts(decoded(write_entries(*old(wtxn), self.keyspace())), docid, values@),
        ensures
            insert_outcome(
                decoded(write_entries(*old(wtxn), self.keyspace())),
                decoded(write_entries(*final(wtxn), self.keyspace())),
                docid,
                values@,
                r,
            ),
    {
        proof {
            lemma_first_stop(values@);
            lemma_keys_agree(values@, first_stop(values@), first_stop(values@));
        }
        match self.try_insert(wtxn, docid, values) {
            Ok(Some(())) => Ok(()),
            // not reached: no value with too long a key is reached
            Ok(None) => Ok(()),
            Err(e) => Err(e),
        }
    }

    /// The union of the sets stored under the entry keys of the values within
    /// `start` and `end`; `None` where the scan meets a key of another layout.
    fn scan_values<R: Reader, E>(&self, txn: &R, start: &Bound<Vec<u8>>, end: &Bound<Vec<u8>>) -> (r:
        Result<Option<RoaringBitmap>, Error<E>>)
        requires
            value_bound_fits(start@),
            value_bound_fits(end@),
        ensures
            try_outcome(scan_result::<E>(self.index(txn), start@, end@), r),
    {
        let lo = match start {
            Bound::Included(v) => Bound::Included(KeyCodec::encode(&Key::new(v.clone()))),
            Bound::Excluded(v) => Bound::Excluded(KeyCodec::encode(&Key::new(v.clone()))),
            Bound::Unbounded => Bound::Included(KeyKind::Entry.encode()),
        };
        let hi = match end {
            Bound::Included(v) => Bound::Included(KeyCodec::encode(&Key::new(v.clone()))),
            Bound::Excluded(v) => Bound::Excluded(KeyCodec::encode(&Key::new(v.clone()))),
            Bound::Unbounded => Bound::Excluded(KeyKind::FinalKind.encode()),
        };
        assert(lo@ == lower_key(start@));
        assert(hi@ == upper_key(end@));
        let ghost entries = txn.entries(self.ks);
        let ghost d = self.index(txn);
        let ghost within = keys_within(d, lo@, hi@);
        let mut it = txn.scan(&self.ks, &lo, &hi);
        let mut acc = bitmap_new();
        let ghost mut seen: Set<Seq<u8>> = Set::empty();
        assert(bitmap_set(acc) =~= union_of(d, seen));
        loop
            invariant
                entries == txn.entries(self.ks),
                d == decoded(entries),
                within == keys_within(d, lo@, hi@),
                lo@ == lower_key(start@),
                hi@ == upper_key(end@),
                forall|i: int|
                    0 <= i < remaining_entries(it).len() ==> {
                        &&& entries.contains_key(#[trigger] remaining_entries(it)[i].0)
                        &&& entries[remaining_entries(it)[i].0] == remaining_entries(it)[i].1
                        &&& crate::store::in_bounds(remaining_entries(it)[i].0, lo@, hi@)
                    },
                forall|i: int, j: int|
                    0 <= i < j < remaining_entries(it).len() ==> bytes_lt(
                        #[trigger] remaining_entries(it)[i].0,
                        #[trigger] remaining_entries(it)[j].0,
                    ),
                !iter_failed(it),
                forall|k: Seq<u8>|
                    #[trigger] within.contains(k) ==> seen.contains(k) || exists|i: int|
                        0 <= i < remaining_entries(it).len() && remaining_entries(it)[i].0 == k,
                forall|k: Seq<u8>|
                    #[trigger] seen.contains(k) ==> within.contains(k) && d[k] is Some && !foreign(k),
                bitmap_set(acc) == union_of(d, seen),
            decreases remaining_entries(it).len(),
        {
            let ghost rest = remaining_entries(it);
            match next_entry(&mut it) {
                None => {
                    assert(seen =~= within);
                    return Ok(Some(acc));
                },
                Some(entry) => {
                    match entry {
                        Err(e) => {
                            return Err(Error::Fjall(e));
                        },
                        Ok((k, v)) => {
                            assert(entries.contains_key(rest[0].0));
                            assert(within.contains(k@));
                            proof {
                                lemma_scanned_key(k@, start@, end@);
                                assert(d.contains_key(k@));
                                assert forall|i: int, j: int|
                                    0 <= i < j < remaining_entries(it).len() implies bytes_lt(
                                    #[trigger] remaining_entries(it)[i].0,
                                    #[trigger] remaining_entries(it)[j].0,
                                ) by {
                                    assert(remaining_entries(it)[i] == rest[i + 1]);
                                    assert(remaining_entries(it)[j] == rest[j + 1]);
                                }
                            }
                            if k[0] > KeyKind::Entry.tag_byte() {
                                // reading such a key back panics; every entry key
                                // within the bounds sorts before it, so was read
                                proof {
                                    assert forall|kk: Seq<u8>|
                                        #[trigger] within.contains(kk) && !foreign(kk) implies d[kk]
                                        is Some by {
                                        if !seen.contains(kk) {
                                            let i = choose|i: int|
                                                0 <= i < rest.len() && rest[i].0 == kk;
                                            lemma_scanned_key(kk, start@, end@);
                                            assert(rest[0].0 == k@);
                                            if i != 0 {
                                                assert(bytes_lt(rest[0].0, rest[i].0));
                                                assert(within.contains(kk));
                                                assert(kk[0] < k@[0]);
                                                assert(!bytes_lt(k@, kk));
                                            }
                                        }
                                    }
                                    assert(foreign(k@));
                                }
                                return Ok(None);
                            }
                            match KeyCodec::decode(&k) {
                                Err(e) => {
                                    return Err(Error::CouldNotDecodeKeyTag(e));
                                },
                                Ok(_) => {},
                            }
                            match decode_bitmap(&v) {
                                Err(_) => {
                                    return Err(Error::CouldNotEncodeOrDecodeRoaring);
                                },
                                Ok(b) => {
                                    let ghost before = bitmap_set(acc);
                                    bitmap_union_with(&mut acc, b);
                                    proof {
                                        assert(d[k@] == Some(bitmap_set(b)));
                                        let seen2 = seen.insert(k@);
                                        assert(union_of(d, seen2) =~= before.union(bitmap_set(b))) by {
                                            assert forall|x: u32| #[trigger] union_of(d, seen2).contains(x) implies before.union(bitmap_set(b)).contains(x) by {
                                                let kk = choose|kk: Seq<u8>| #[trigger] seen2.contains(kk) && d[kk] is Some && d[kk]->0.contains(x);
                                                if kk != k@ {
                                                    assert(union_of(d, seen).contains(x));
                                                }
                                            }
                                            assert forall|x: u32| #[trigger] before.union(bitmap_set(b)).contains(x) implies union_of(d, seen2).contains(x) by {
                                                if before.contains(x) {
                                                    let kk = choose|kk: Seq<u8>| #[trigger] seen.contains(kk) && d[kk] is Some && d[kk]->0.contains(x);
                                                    assert(seen2.contains(kk));
                                                } else {
                                                    assert(seen2.contains(k@));
                                                }
                                            }
                                        }
                                        seen = seen2;
                                        assert forall|kk: Seq<u8>| #[trigger] within.contains(kk) implies seen.contains(kk) || exists|i: int|
                                            0 <= i < remaining_entries(it).len() && remaining_entries(it)[i].0 == kk by {
                                            if !seen.contains(kk) {
                                                let i = choose|i: int| 0 <= i < rest.len() && rest[i].0 == kk;
                                                assert(i != 0);
                                                assert(remaining_entries(it)[i - 1].0 == kk);
                                            }
                                        }
                                    }
                                },
                            }
                        },
                    }
                },
            }
        }
    }

    /// The documents that `query` matches, read through `txn`, evaluated as
    /// [`SkipList::filter`] does; `None` where the evaluation reaches a key of
    /// another layout or a key longer than the storage engine takes, on which
    /// `filter` panics. A query answered without a read never fails on the
    /// storage engine.
    pub fn try_filter<R: Reader, E>(&self, txn: &R, query: Query<E>) -> (r: Result<
        Option<RoaringBitmap>,
        Error<E>,
    >)
        ensures
            try_outcome(eval(query, self.index(txn)), r),
            !reads_store(query) ==> !(r matches Err(Error::Fjall(_))),
        decreases query,
    {
        let ghost d = self.index(txn);
        let ghost q0 = query;
        match query {
            Filter::Nothing => Ok(Some(bitmap_new())),
            Filter::All => match self.fetch(txn, &KeyCodec::encode(&Key::All)) {
                Ok(b) => Ok(Some(b)),
                Err(e) => Err(e),
            },
            Filter::Not(q) => {
                let all = match self.fetch(txn, &KeyCodec::encode(&Key::All)) {
                    Ok(b) => b,
                    Err(e) => return Err(e),
                };
                let inner = match self.try_filter(txn, *q) {
                    Ok(Some(b)) => b,
                    Ok(None) => return Ok(None),
                    Err(e) => return Err(e),
                };
                Ok(Some(bitmap_difference(all, inner)))
            },
            Filter::Or(queries) => {
                let all = match self.fetch(txn, &KeyCodec::encode(&Key::All)) {
                    Ok(b) => b,
                    Err(e) => return Err(e),
                };
                let ghost all_set = bitmap_set(all);
                let ghost orig = queries@;
                assert(orig.len() == queries.len());
                let all_len = bitmap_len(&all);
                let mut ret = bitmap_new();
                let mut rest = queries;
                let mut i: usize = 0;
                while rest.len() > 0
                    invariant
                        i + rest.len() == orig.len(),
                        orig.len() <= usize::MAX,
                        rest@ == orig.skip(i as int),
                        d == self.index(txn),
                        eval(q0, d) == eval_or(orig, d, all_set, i as int, bitmap_set(ret)),
                        q0 == Filter::Or(queries),
                        q0 == query,
                        queries@ == orig,
                        all_len as nat == all_set.len(),
                    decreases rest.len(),
                {
                    let q = rest.remove(0);
                    proof {
                        assert(q == orig[i as int]);
                        assert(decreases_to!(q0 => queries));
                        assert(decreases_to!(queries => queries@));
                        assert(decreases_to!(queries@ => queries@[i as int]));
                    }
                    let r = match self.try_filter(txn, q) {
                        Ok(Some(b)) => b,
                        Ok(None) => return Ok(None),
                        Err(e) => return Err(e),
                    };
                    bitmap_union_with(&mut ret, r);
                    if bitmap_len(&ret) == all_len {
                        return Ok(Some(ret));
                    }
                    i = i + 1;
                }
                Ok(Some(ret))
            },
            Filter::And(queries) => {
                if queries.len() == 0 {
                    return Ok(Some(bitmap_new()));
                }
                let ghost orig = queries@;
                let mut rest = queries;
                let first = rest.remove(0);
                proof {
                    assert(first == orig[0]);
                    assert(decreases_to!(q0 => queries));
                    assert(decreases_to!(queries => queries@));
                    assert(decreases_to!(queries@ => queries@[0]));
                    if !reads_store(q0) {
                        lemma_answer_without_read(orig[0], d);
                    }
                }
                let mut ret = match self.try_filter(txn, first) {
                    Ok(Some(b)) => b,
                    Ok(None) => return Ok(None),
                    Err(e) => return Err(e),
                };
                let mut i: usize = 1;
                while rest.len() > 0
                    invariant
                        1 <= i,
                        i + rest.len() == orig.len(),
                        orig.len() <= usize::MAX,
                        rest@ == orig.skip(i as int),
                        d == self.index(txn),
                        !reads_store(q0) ==> bitmap_set(ret) == Set::<u32>::empty(),
                        eval(q0, d) == eval_and(orig, d, i as int, bitmap_set(ret)),
                        q0 == Filter::And(queries),
                        q0 == query,
                        queries@ == orig,
                    decreases rest.len(),
                {
                    if bitmap_is_empty(&ret) {
                        return Ok(Some(ret));
                    }
                    let q = rest.remove(0);
                    proof {
                        assert(q == orig[i as int]);
                        assert(decreases_to!(q0 => queries));
                        assert(decreases_to!(queries => queries@));
                        assert(decreases_to!(queries@ => queries@[i as int]));
                    }
                    let r = match self.try_filter(txn, q) {
                        Ok(Some(b)) => b,
                        Ok(None) => return Ok(None),
                        Err(e) => return Err(e),
                    };
                    bitmap_intersect_with(&mut ret, r);
                    i = i + 1;
                }
                Ok(Some(ret))
            },
            Filter::LessThan(v) => self.range_values(txn, Bound::Unbounded, Bound::Excluded(v)),
            Filter::LessThanOrEqual(v) => self.range_values(
                txn,
                Bound::Unbounded,
                Bound::Included(v),
            ),
            Filter::MoreThan(v) => self.range_values(txn, Bound::Excluded(v), Bound::Unbounded),
            Filter::MoreThanOrEqual(v) => self.range_values(
                txn,
                Bound::Included(v),
                Bound::Unbounded,
            ),
            Filter::Equal(v) => match v {
                Ok(b) => {
                    if b.len() > 65535 {
                        // the storage engine does not take such a key
                        return Ok(None);
                    }
                    match self.fetch(txn, &b) {
                        Ok(b) => Ok(Some(b)),
                        Err(e) => Err(e),
                    }
                },
                Err(e) => Err(Error::CouldNotEncodeValue(e)),
            },
            Filter::Range((start, end)) => self.range_values(txn, start, end),
        }
    }

    /// The documents that hold a value between `start` and `end`: the start
    /// encoded first, then the end, then the entry keys between them scanned.
    fn range_values<R: Reader, E>(
        &self,
        txn: &R,
        start: Bound<Result<Vec<u8>, E>>,
        end: Bound<Result<Vec<u8>, E>>,
    ) -> (r: Result<Option<RoaringBitmap>, Error<E>>)
        ensures
            try_outcome(value_query(self.index(txn), leaf_bound(start), leaf_bound(end)), r),
            !(leaf_bound(start) is Ok && leaf_bound(end) is Ok) ==> !(r matches Err(
                Error::Fjall(_),
            )),
    {
        let start = match encoded_bound(start) {
            Ok(b) => b,
            Err(e) => return Err(Error::CouldNotEncodeValue(e)),
        };
        let end = match encoded_bound(end) {
            Ok(b) => b,
            Err(e) => return Err(Error::CouldNotEncodeValue(e)),
        };
        if !bound_fits_exec(&start) || !bound_fits_exec(&end) {
            // the storage engine does not take such a bound
            return Ok(None);
        }
        self.scan_values(txn, &start, &end)
    }

    /// The documents that `query` matches, read through `txn`; a value of the
    /// query that could not be encoded fails it where the evaluation reaches it.
    ///
    /// The storage engine panics on a key longer than 65535 bytes, and reading
    /// back a key of another layout (tagged 2 to 254) panics; the evaluation
    /// reaches neither: `requires`.
    pub fn filter<R: Reader, E>(&self, txn: &R, query: Query<E>) -> (r: Result<
        RoaringBitmap,
        Error<E>,
    >)
        requires
            !halts(eval(query, self.index(txn))),
        ensures
            outcome(eval(query, self.index(txn)), r),
            !reads_store(query) ==> !(r matches Err(Error::Fjall(_))),
    {
        match self.try_filter(txn, query) {
            Ok(Some(b)) => Ok(b),
            // not reached: the evaluation meets no key the index panics on
            Ok(None) => Ok(bitmap_new()),
            Err(e) => Err(e),
        }
    }
}

} // verus!
