//! The key-value store underneath the index: a `fiole` keyspace, read through a
//! snapshot (`fiole::Rtxn`) or a write transaction (`fiole::Wtxn`).
//!
//! The keyspace, as a transaction sees it, is modelled as a map from key bytes
//! to value bytes (`write_entries`, `read_entries`). A value is a serialised
//! roaring bitmap; `roaring_decoded` names what deserialising it gives.
//! Every call into `fiole` goes through one of the trusted functions of this
//! module; the rest is verified.
use crate::bitmap::bitmap_set;
use roaring::RoaringBitmap;
use crate::query::Bound;
use fiole::codec::{Bytes, Decode, RoaringBitmapCodec, Unspecified, U8};
use fiole::{Iter, Keyspace, Rtxn, Wtxn};
use fjall::Error as FjallError;
use vstd::prelude::*;

verus! {

#[verifier::external_type_specification]
#[verifier::external_body]
pub struct ExFjallError(FjallError);

#[verifier::external_type_specification]
#[verifier::external_body]
pub struct ExIoError(std::io::Error);

#[verifier::external_type_specification]
#[verifier::external_body]
pub struct ExUnspecified(Unspecified);

#[verifier::external_type_specification]
#[verifier::external_body]
#[verifier::reject_recursive_types(K)]
#[verifier::reject_recursive_types(V)]
pub struct ExKeyspace<K, V>(Keyspace<K, V>);

#[verifier::external_type_specification]
#[verifier::external_body]
pub struct ExWtxn(Wtxn);

#[verifier::external_type_specification]
#[verifier::external_body]
pub struct ExRtxn(Rtxn);

#[verifier::external_type_specification]
#[verifier::external_body]
#[verifier::reject_recursive_types(K)]
#[verifier::reject_recursive_types(V)]
pub struct ExIter<K, V>(Iter<K, V>);


/// A keyspace whose codecs are chosen at each access.
pub type RawKeyspace = Keyspace<Unspecified, Unspecified>;

/// The entries of keyspace `ks` as write transaction `txn` sees them
/// (what was committed when it began, and its own writes).
pub uninterp spec fn write_entries(txn: Wtxn, ks: RawKeyspace) -> Map<Seq<u8>, Seq<u8>>;

/// The entries of keyspace `ks` in snapshot `txn`.
pub uninterp spec fn read_entries(txn: Rtxn, ks: RawKeyspace) -> Map<Seq<u8>, Seq<u8>>;

/// The entries within a range iterator's bounds whose keys come after the last
/// entry it delivered (all of them before its first delivery), in key order.
pub uninterp spec fn remaining_entries(it: Iter<Unspecified, Unspecified>) -> Seq<(Seq<u8>, Seq<u8>)>;

/// Whether a range iterator has yielded an I/O failure (after which it may
/// skip entries).
pub uninterp spec fn iter_failed(it: Iter<Unspecified, Unspecified>) -> bool;

/// What `RoaringBitmap::deserialize_from` gives on `bytes`: the set of the
/// bitmap, or `None` where the bytes are not a serialised bitmap.
pub uninterp spec fn roaring_decoded(bytes: Seq<u8>) -> Option<Set<u32>>;

/// A failed access to the store.
#[derive(Debug)]
pub enum StoreError {
    /// The storage engine failed (an I/O error).
    Fjall(fjall::Error),
    /// A stored value is not a serialised bitmap.
    Decode(std::io::Error),
}

/// Byte-wise lexicographic order, the order of the keys in the store.
pub open spec fn bytes_lt(a: Seq<u8>, b: Seq<u8>) -> bool
    decreases a.len(),
{
    if b.len() == 0 {
        false
    } else if a.len() == 0 {
        true
    } else if a[0] != b[0] {
        a[0] < b[0]
    } else {
        bytes_lt(a.drop_first(), b.drop_first())
    }
}

/// Whether `k` lies at or after the lower bound `lo`.
pub open spec fn above(k: Seq<u8>, lo: Bound<Seq<u8>>) -> bool {
    match lo {
        Bound::Included(a) => !bytes_lt(k, a),
        Bound::Excluded(a) => bytes_lt(a, k),
        Bound::Unbounded => true,
    }
}

/// Whether `k` lies at or before the upper bound `hi`.
pub open spec fn below(k: Seq<u8>, hi: Bound<Seq<u8>>) -> bool {
    match hi {
        Bound::Included(a) => !bytes_lt(a, k),
        Bound::Excluded(a) => bytes_lt(k, a),
        Bound::Unbounded => true,
    }
}

pub open spec fn in_bounds(k: Seq<u8>, lo: Bound<Seq<u8>>, hi: Bound<Seq<u8>>) -> bool {
    above(k, lo) && below(k, hi)
}

/// The largest key that the storage engine accepts (it panics on longer ones).
pub open spec fn max_key_len() -> nat {
    65535
}

/// The key of a bound, if any, is not longer than the storage engine accepts.
pub open spec fn bound_fits(b: Bound<Seq<u8>>) -> bool {
    match b {
        Bound::Included(a) => a.len() <= max_key_len(),
        Bound::Excluded(a) => a.len() <= max_key_len(),
        Bound::Unbounded => true,
    }
}

/// The bound with `Included` and `Excluded` exchanged.
pub open spec fn flipped(b: Bound<Seq<u8>>) -> Bound<Seq<u8>> {
    match b {
        Bound::Included(a) => Bound::Excluded(a),
        Bound::Excluded(a) => Bound::Included(a),
        Bound::Unbounded => Bound::Unbounded,
    }
}

/// What a lookup of `key` in `entries` may give.
pub open spec fn get_outcome(
    entries: Map<Seq<u8>, Seq<u8>>,
    key: Seq<u8>,
    r: Result<Option<RoaringBitmap>, StoreError>,
) -> bool {
    match r {
        Ok(Some(b)) => entries.contains_key(key) && roaring_decoded(entries[key]) == Some(
            bitmap_set(b),
        ),
        Ok(None) => !entries.contains_key(key),
        Err(StoreError::Decode(_)) => entries.contains_key(key) && roaring_decoded(entries[key])
            is None,
        Err(StoreError::Fjall(_)) => true,
    }
}

/// `rest` holds the entries of `entries` whose keys lie within `lo` and `hi`, and
/// nothing else, in strictly increasing key order.
pub open spec fn scan_outcome(
    entries: Map<Seq<u8>, Seq<u8>>,
    lo: Bound<Seq<u8>>,
    hi: Bound<Seq<u8>>,
    rest: Seq<(Seq<u8>, Seq<u8>)>,
) -> bool {
    &&& forall|i: int|
        0 <= i < rest.len() ==> {
            &&& entries.contains_key(#[trigger] rest[i].0)
            &&& entries[rest[i].0] == rest[i].1
            &&& in_bounds(rest[i].0, lo, hi)
        }
    &&& forall|k: Seq<u8>|
        entries.contains_key(k) && in_bounds(k, lo, hi) ==> exists|i: int|
            0 <= i < rest.len() && #[trigger] rest[i].0 == k
    &&& forall|i: int, j: int| 0 <= i < j < rest.len() ==> bytes_lt(#[trigger] rest[i].0, #[trigger] rest[j].0)
}

/// `fiole::Keyspace::get` on a write transaction, with the bitmap codec.
///
/// The storage engine panics on a key longer than 65535 bytes: `requires`.
///
/// Claims the lookup semantics of `get_outcome`: a missing key gives `None`, a
/// present one its deserialised bitmap or the codec's error; an I/O failure may
/// come at any time, and nothing is claimed of it.
#[verifier::external_body]
fn write_get(txn: &Wtxn, ks: &RawKeyspace, key: &Vec<u8>) -> (r: Result<
    Option<RoaringBitmap>,
    StoreError,
>)
    requires
        key.len() <= 65535,
    ensures
        get_outcome(write_entries(*txn, *ks), key@, r),
{
    match ks.remap_types::<Bytes, RoaringBitmapCodec>().get(txn, key.as_slice()) {
        Ok(v) => Ok(v),
        Err(fiole::Error::Fjall(e)) => Err(StoreError::Fjall(e)),
        Err(fiole::Error::Key(e)) => match e {},
        Err(fiole::Error::Value(e)) => Err(StoreError::Decode(e)),
    }
}

/// `fiole::Keyspace::get` on a snapshot, with the bitmap codec; as `write_get`.
#[verifier::external_body]
fn read_get(txn: &Rtxn, ks: &RawKeyspace, key: &Vec<u8>) -> (r: Result<
    Option<RoaringBitmap>,
    StoreError,
>)
    requires
        key.len() <= 65535,
    ensures
        get_outcome(read_entries(*txn, *ks), key@, r),
{
    match ks.remap_types::<Bytes, RoaringBitmapCodec>().get(txn, key.as_slice()) {
        Ok(v) => Ok(v),
        Err(fiole::Error::Fjall(e)) => Err(StoreError::Fjall(e)),
        Err(fiole::Error::Key(e)) => match e {},
        Err(fiole::Error::Value(e)) => Err(StoreError::Decode(e)),
    }
}

/// `fiole::Keyspace::insert` with the bitmap codec: writes the serialised
/// `value` under `key`, in the transaction.
///
/// Claims that it succeeds: the key codec (`Bytes`) cannot fail, and the value
/// codec serialises with `RoaringBitmap::serialize_into` into a `Vec<u8>`, which
/// fails only where its writer does, and writing to a `Vec` only appends.
/// Claims that the other entries stay, and that deserialising the stored bytes
/// gives back the set of `value` (the round trip that roaring documents).
/// fjall panics on an empty key or one longer than 65535 bytes: `requires`.
#[verifier::external_body]
pub(crate) fn write_insert(txn: &mut Wtxn, ks: &RawKeyspace, key: &Vec<u8>, value: &RoaringBitmap) -> (r:
    Result<(), StoreError>)
    requires
        0 < key.len() <= 65535,
    ensures
        r is Ok,
        write_entries(*final(txn), *ks).dom() == write_entries(*old(txn), *ks).dom().insert(key@),
        forall|k: Seq<u8>|
            k != key@ && #[trigger] write_entries(*old(txn), *ks).contains_key(k) ==> write_entries(
                *final(txn),
                *ks,
            )[k] == write_entries(*old(txn), *ks)[k],
        roaring_decoded(write_entries(*final(txn), *ks)[key@]) == Some(bitmap_set(*value)),
{
    match ks.remap_types::<Bytes, RoaringBitmapCodec>().insert(txn, key.as_slice(), value) {
        Ok(()) => Ok(()),
        Err(fiole::Error::Fjall(e)) => Err(StoreError::Fjall(e)),
        Err(fiole::Error::Key(e)) => match e {},
        Err(fiole::Error::Value(e)) => Err(StoreError::Decode(e)),
    }
}

/// `fiole::Keyspace::range` on a write transaction, over raw bytes.
///
/// fiole hands the storage engine the bounds with `Included` and `Excluded`
/// exchanged (its source maps `Included(k)` to `Excluded(k)` and back), so the
/// iterator delivers the entries whose keys lie within the flipped bounds. It
/// delivers them in ascending key order: fjall keeps keys in lexicographic
/// order (its README), and its `first_key_value`, documented as the pair with
/// the minimum key, is the first item of its iterator.
/// The storage engine panics on a bound longer than 65535 bytes: `requires`.
#[verifier::external_body]
fn write_range(txn: &Wtxn, ks: &RawKeyspace, lo: &Bound<Vec<u8>>, hi: &Bound<Vec<u8>>) -> (it:
    Iter<Unspecified, Unspecified>)
    requires
        bound_fits(lo@),
        bound_fits(hi@),
    ensures
        scan_outcome(
            write_entries(*txn, *ks),
            flipped(lo@),
            flipped(hi@),
            remaining_entries(it),
        ),
        !iter_failed(it),
{
    let start = match lo {
        Bound::Included(k) => std::ops::Bound::Included(k.as_slice()),
        Bound::Excluded(k) => std::ops::Bound::Excluded(k.as_slice()),
        Bound::Unbounded => std::ops::Bound::Unbounded,
    };
    let end = match hi {
        Bound::Included(k) => std::ops::Bound::Included(k.as_slice()),
        Bound::Excluded(k) => std::ops::Bound::Excluded(k.as_slice()),
        Bound::Unbounded => std::ops::Bound::Unbounded,
    };
    match ks.remap_types::<Bytes, Bytes>().range(txn, (start, end)) {
        Ok(it) => it.remap_types(),
        Err(e) => match e {},
    }
}

/// `fiole::Keyspace::range` on a snapshot, over raw bytes; as `write_range`.
#[verifier::external_body]
fn read_range(txn: &Rtxn, ks: &RawKeyspace, lo: &Bound<Vec<u8>>, hi: &Bound<Vec<u8>>) -> (it:
    Iter<Unspecified, Unspecified>)
    requires
        bound_fits(lo@),
        bound_fits(hi@),
    ensures
        scan_outcome(read_entries(*txn, *ks), flipped(lo@), flipped(hi@), remaining_entries(it)),
        !iter_failed(it),
{
    let start = match lo {
        Bound::Included(k) => std::ops::Bound::Included(k.as_slice()),
        Bound::Excluded(k) => std::ops::Bound::Excluded(k.as_slice()),
        Bound::Unbounded => std::ops::Bound::Unbounded,
    };
    let end = match hi {
        Bound::Included(k) => std::ops::Bound::Included(k.as_slice()),
        Bound::Excluded(k) => std::ops::Bound::Excluded(k.as_slice()),
        Bound::Unbounded => std::ops::Bound::Unbounded,
    };
    match ks.remap_types::<Bytes, Bytes>().range(txn, (start, end)) {
        Ok(it) => it.remap_types(),
        Err(e) => match e {},
    }
}

/// `Iterator::next` of `fiole::Iter`, with the guard it yields read at once
/// through `fiole::Guard::into_inner` over raw bytes.
///
/// Claims, for an iterator that has yielded no I/O failure: `None` comes once
/// every entry within its bounds was delivered; a read that succeeds gives the
/// next entry in key order and moves past it; a failed read leaves the
/// iterator failed, and nothing more is claimed of it (the storage engine may
/// report a failure after the last entry, or skip entries after one).
#[verifier::external_body]
pub(crate) fn next_entry(it: &mut Iter<Unspecified, Unspecified>) -> (r: Option<
    Result<(Vec<u8>, Vec<u8>), fjall::Error>,
>)
    requires
        !iter_failed(*old(it)),
    ensures
        match r {
            None => remaining_entries(*old(it)).len() == 0,
            Some(Ok((k, v))) => {
                &&& remaining_entries(*old(it)).len() > 0
                &&& (k@, v@) == remaining_entries(*old(it))[0]
                &&& remaining_entries(*final(it)) == remaining_entries(*old(it)).drop_first()
                &&& !iter_failed(*final(it))
            },
            Some(Err(_)) => iter_failed(*final(it)),
        },
{
    match it.next() {
        None => None,
        Some(g) => match g.remap_types::<Bytes, Bytes>().into_inner() {
            Ok((k, v)) => Some(Ok((k.to_vec(), v.to_vec()))),
            Err(fiole::Error::Fjall(e)) => Some(Err(e)),
            Err(fiole::Error::Key(e)) => match e {},
            Err(fiole::Error::Value(e)) => match e {},
        },
    }
}

/// `Decode for RoaringBitmapCodec` (that is `RoaringBitmap::deserialize_from`)
/// on stored bytes.
#[verifier::external_body]
pub(crate) fn decode_bitmap(bytes: &Vec<u8>) -> (r: Result<RoaringBitmap, std::io::Error>)
    ensures
        match r {
            Ok(b) => roaring_decoded(bytes@) == Some(bitmap_set(b)),
            Err(_) => roaring_decoded(bytes@) is None,
        },
{
    RoaringBitmapCodec::decode(fjall::Slice::new(bytes.as_slice()))
}

/// `Decode for fiole::codec::U8`: the first byte, or an error on empty input.
#[verifier::external_body]
pub(crate) fn decode_u8(bytes: &Vec<u8>) -> (r: Result<u8, std::io::Error>)
    ensures
        match r {
            Ok(b) => bytes.len() > 0 && b == bytes[0],
            Err(_) => bytes.len() == 0,
        },
{
    U8::decode(fjall::Slice::new(bytes.as_slice()))
}

/// A transaction through which the index is read: a snapshot or a write
/// transaction.
pub trait Reader {
    /// The entries of `ks` as this transaction sees them.
    spec fn entries(&self, ks: RawKeyspace) -> Map<Seq<u8>, Seq<u8>>;

    /// Looks `key` up and deserialises its bitmap.
    fn get_bitmap(&self, ks: &RawKeyspace, key: &Vec<u8>) -> (r: Result<
        Option<RoaringBitmap>,
        StoreError,
    >)
        requires
            key.len() <= 65535,
        ensures
            get_outcome(self.entries(*ks), key@, r),
    ;

    /// An iterator over the entries whose keys lie within `lo` and `hi`.
    fn scan(&self, ks: &RawKeyspace, lo: &Bound<Vec<u8>>, hi: &Bound<Vec<u8>>) -> (it: Iter<
        Unspecified,
        Unspecified,
    >)
        requires
            bound_fits(lo@),
            bound_fits(hi@),
        ensures
            scan_outcome(self.entries(*ks), lo@, hi@, remaining_entries(it)),
            !iter_failed(it),
    ;
}

/// The bound that fiole turns into `b`.
fn flip(b: &Bound<Vec<u8>>) -> (f: Bound<Vec<u8>>)
    ensures
        flipped(f@) == b@,
        bound_fits(f@) == bound_fits(b@),
{
    match b {
        Bound::Included(a) => Bound::Excluded(a.clone()),
        Bound::Excluded(a) => Bound::Included(a.clone()),
        Bound::Unbounded => Bound::Unbounded,
    }
}

impl Reader for Wtxn {
    open spec fn entries(&self, ks: RawKeyspace) -> Map<Seq<u8>, Seq<u8>> {
        write_entries(*self, ks)
    }

    fn get_bitmap(&self, ks: &RawKeyspace, key: &Vec<u8>) -> (r: Result<
        Option<RoaringBitmap>,
        StoreError,
    >) {
        write_get(self, ks, key)
    }

    fn scan(&self, ks: &RawKeyspace, lo: &Bound<Vec<u8>>, hi: &Bound<Vec<u8>>) -> (it: Iter<
        Unspecified,
        Unspecified,
    >) {
        let lo2 = flip(lo);
        let hi2 = flip(hi);
        write_range(self, ks, &lo2, &hi2)
    }
}

impl Reader for Rtxn {
    open spec fn entries(&self, ks: RawKeyspace) -> Map<Seq<u8>, Seq<u8>> {
        read_entries(*self, ks)
    }

    fn get_bitmap(&self, ks: &RawKeyspace, key: &Vec<u8>) -> (r: Result<
        Option<RoaringBitmap>,
        StoreError,
    >) {
        read_get(self, ks, key)
    }

    fn scan(&self, ks: &RawKeyspace, lo: &Bound<Vec<u8>>, hi: &Bound<Vec<u8>>) -> (it: Iter<
        Unspecified,
        Unspecified,
    >) {
        let lo2 = flip(lo);
        let hi2 = flip(hi);
        read_range(self, ks, &lo2, &hi2)
    }
}

} // verus!
