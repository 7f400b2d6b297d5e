//! The meaning of the index and of its queries, over the decoded content of
//! the keyspace: a map from key bytes to the set of documents stored there, or
//! to `None` where the stored bytes are not a serialised bitmap.
use crate::key::{all_key, entry_key, KeyKind};
use crate::query::{Bound, Filter};
use crate::store::{bytes_lt, in_bounds, max_key_len, roaring_decoded};
use vstd::prelude::*;

verus! {

/// The decoded content of a keyspace.
pub type Index = Map<Seq<u8>, Option<Set<u32>>>;

/// Decodes every stored value of `entries`.
pub open spec fn decoded(entries: Map<Seq<u8>, Seq<u8>>) -> Index {
    Map::new(|k: Seq<u8>| entries.contains_key(k), |k: Seq<u8>| roaring_decoded(entries[k]))
}

/// What reading key `k` gives: the empty set where nothing is stored, `None`
/// where the stored bytes do not decode.
pub open spec fn lookup(d: Index, k: Seq<u8>) -> Option<Set<u32>> {
    if d.contains_key(k) {
        d[k]
    } else {
        Some(Set::empty())
    }
}

/// The stored keys within `lo` and `hi`.
pub open spec fn keys_within(d: Index, lo: Bound<Seq<u8>>, hi: Bound<Seq<u8>>) -> Set<Seq<u8>> {
    Set::new(|k: Seq<u8>| d.contains_key(k) && in_bounds(k, lo, hi))
}

/// The union of the decoded sets stored under `keys`.
pub open spec fn union_of(d: Index, keys: Set<Seq<u8>>) -> Set<u32> {
    Set::new(
        |x: u32|
            exists|k: Seq<u8>| #[trigger] keys.contains(k) && d[k] is Some && d[k]->0.contains(x),
    )
}

/// What a range scan gives: the union of the sets stored within the bounds,
/// or `None` if one of them does not decode.
pub open spec fn scan(d: Index, lo: Bound<Seq<u8>>, hi: Bound<Seq<u8>>) -> Option<Set<u32>> {
    if exists|k: Seq<u8>| #[trigger] keys_within(d, lo, hi).contains(k) && d[k] is None {
        None
    } else {
        Some(union_of(d, keys_within(d, lo, hi)))
    }
}

/// The key bound at which a scan from value bound `b` starts.
pub open spec fn lower_key(b: Bound<Seq<u8>>) -> Bound<Seq<u8>> {
    match b {
        Bound::Included(v) => Bound::Included(entry_key(v)),
        Bound::Excluded(v) => Bound::Excluded(entry_key(v)),
        Bound::Unbounded => Bound::Included(seq![KeyKind::Entry.tag()]),
    }
}

/// The key bound at which a scan up to value bound `b` ends.
pub open spec fn upper_key(b: Bound<Seq<u8>>) -> Bound<Seq<u8>> {
    match b {
        Bound::Included(v) => Bound::Included(entry_key(v)),
        Bound::Excluded(v) => Bound::Excluded(entry_key(v)),
        Bound::Unbounded => Bound::Excluded(seq![KeyKind::FinalKind.tag()]),
    }
}

/// The documents whose values lie between the value bounds `start` and `end`.
pub open spec fn value_range(d: Index, start: Bound<Seq<u8>>, end: Bound<Seq<u8>>) -> Option<
    Set<u32>,
> {
    scan(d, lower_key(start), upper_key(end))
}

/// A query as the index takes it: each value is its encoding, or the error
/// that encoding it gave.
pub type Query<E> = Filter<Result<Vec<u8>, E>>;

/// Why a query reads back no set of documents.
pub enum Fault<E> {
    /// A stored set that the query reaches does not decode.
    Undecodable,
    /// A value that the query reaches could not be encoded.
    Unencodable(E),
    /// A scan that the query reaches meets a key of another layout, which
    /// cannot be read back (reading it back panics).
    ForeignKey,
    /// A key that the query reaches is longer than the storage engine takes
    /// (it panics on it).
    KeyTooLong,
}

/// The encoding of a value, or the fault of its encoding error.
pub open spec fn leaf<E>(v: Result<Vec<u8>, E>) -> Result<Seq<u8>, Fault<E>> {
    match v {
        Ok(b) => Ok(b@),
        Err(e) => Err(Fault::Unencodable(e)),
    }
}

/// A bound over encodings, or the fault of the bound value's encoding error.
pub open spec fn leaf_bound<E>(b: Bound<Result<Vec<u8>, E>>) -> Result<Bound<Seq<u8>>, Fault<E>> {
    match b {
        Bound::Included(v) => match leaf(v) {
            Ok(k) => Ok(Bound::Included(k)),
            Err(x) => Err(x),
        },
        Bound::Excluded(v) => match leaf(v) {
            Ok(k) => Ok(Bound::Excluded(k)),
            Err(x) => Err(x),
        },
        Bound::Unbounded => Ok(Bound::Unbounded),
    }
}

/// A read's result: `None` (a stored set that does not decode) as a fault.
pub open spec fn read<E>(o: Option<Set<u32>>) -> Result<Set<u32>, Fault<E>> {
    match o {
        Some(s) => Ok(s),
        None => Err(Fault::Undecodable),
    }
}

/// Whether a key belongs to another layout: it starts with a byte from 2 to
/// 254, which no key of the index does.
pub open spec fn foreign(k: Seq<u8>) -> bool {
    k.len() > 0 && k[0] > KeyKind::Entry.tag() && k[0] != KeyKind::FinalKind.tag()
}

/// What the scan of the entry keys of the values within `start` and `end`
/// gives, reading keys in ascending order and stopping at the first it cannot
/// read: the entry keys (tag 1) come before every key of another layout (tags
/// 2 to 254), so the fault of an entry key whose set does not decode if there
/// is one within the key bounds, else the fault of a key of another layout if
/// there is one, else the union of the sets.
pub open spec fn scan_result<E>(d: Index, start: Bound<Seq<u8>>, end: Bound<Seq<u8>>) -> Result<
    Set<u32>,
    Fault<E>,
> {
    if exists|k: Seq<u8>|
        #[trigger] keys_within(d, lower_key(start), upper_key(end)).contains(k) && !foreign(k)
            && d[k] is None {
        Err(Fault::Undecodable)
    } else if exists|k: Seq<u8>|
        #[trigger] keys_within(d, lower_key(start), upper_key(end)).contains(k) && foreign(k) {
        Err(Fault::ForeignKey)
    } else {
        read(value_range(d, start, end))
    }
}

/// A range of values, its start encoded first, then its end, then scanned;
/// the scan fails on a bound whose entry key is longer than the storage engine
/// takes.
pub open spec fn value_query<E>(
    d: Index,
    start: Result<Bound<Seq<u8>>, Fault<E>>,
    end: Result<Bound<Seq<u8>>, Fault<E>>,
) -> Result<Set<u32>, Fault<E>> {
    match start {
        Err(x) => Err(x),
        Ok(s) => match end {
            Err(x) => Err(x),
            Ok(e) => if value_bound_fits(s) && value_bound_fits(e) {
                scan_result(d, s, e)
            } else {
                Err(Fault::KeyTooLong)
            },
        },
    }
}

/// What a query gives on decoded content `d`: the set of documents, or the
/// first fault that its evaluation reaches.
///
/// `Or` reads the set of every document first, then its queries in order, and
/// stops once its union holds as many documents as that set; `And` evaluates
/// its queries in order and stops once its intersection is empty; what comes
/// after is not evaluated. `Equal` reads the key that is the value's encoding
/// itself. A key longer than the storage engine takes fails where it is
/// reached.
pub open spec fn eval<E>(f: Query<E>, d: Index) -> Result<Set<u32>, Fault<E>>
    decreases f, 0nat,
{
    match f {
        Filter::Nothing => Ok(Set::empty()),
        Filter::All => read(lookup(d, all_key())),
        Filter::Not(q) => match lookup(d, all_key()) {
            Some(a) => match eval(*q, d) {
                Ok(b) => Ok(a.difference(b)),
                Err(x) => Err(x),
            },
            None => Err(Fault::Undecodable),
        },
        Filter::Or(qs) => match lookup(d, all_key()) {
            Some(all) => eval_or(qs@, d, all, 0, Set::empty()),
            None => Err(Fault::Undecodable),
        },
        Filter::And(qs) => if qs.len() == 0 {
            Ok(Set::empty())
        } else {
            match eval(qs@[0], d) {
                Ok(r) => eval_and(qs@, d, 1, r),
                Err(x) => Err(x),
            }
        },
        Filter::LessThan(v) => value_query(
            d,
            Ok(Bound::Unbounded),
            leaf_bound(Bound::Excluded(v)),
        ),
        Filter::LessThanOrEqual(v) => value_query(
            d,
            Ok(Bound::Unbounded),
            leaf_bound(Bound::Included(v)),
        ),
        Filter::MoreThan(v) => value_query(d, leaf_bound(Bound::Excluded(v)), Ok(Bound::Unbounded)),
        Filter::MoreThanOrEqual(v) => value_query(
            d,
            leaf_bound(Bound::Included(v)),
            Ok(Bound::Unbounded),
        ),
        Filter::Equal(v) => match leaf(v) {
            Ok(k) => if k.len() <= max_key_len() {
                read(lookup(d, k))
            } else {
                Err(Fault::KeyTooLong)
            },
            Err(x) => Err(x),
        },
        Filter::Range((start, end)) => value_query(d, leaf_bound(start), leaf_bound(end)),
    }
}

/// The union of `acc` with the queries of `qs` from `i` on, stopping once it
/// holds as many documents as `all`.
pub open spec fn eval_or<E>(
    qs: Seq<Query<E>>,
    d: Index,
    all: Set<u32>,
    i: int,
    acc: Set<u32>,
) -> Result<Set<u32>, Fault<E>>
    decreases qs, qs.len() - i,
{
    if i < 0 || i >= qs.len() {
        Ok(acc)
    } else {
        match eval(qs[i], d) {
            Ok(r) => {
                let next = acc.union(r);
                if next.len() == all.len() {
                    Ok(next)
                } else {
                    eval_or(qs, d, all, i + 1, next)
                }
            },
            Err(x) => Err(x),
        }
    }
}

/// The intersection of `acc` with the queries of `qs` from `i` on, stopping
/// once it is empty.
pub open spec fn eval_and<E>(qs: Seq<Query<E>>, d: Index, i: int, acc: Set<u32>) -> Result<
    Set<u32>,
    Fault<E>,
>
    decreases qs, qs.len() - i,
{
    if i < 0 || i >= qs.len() || acc == Set::<u32>::empty() {
        Ok(acc)
    } else {
        match eval(qs[i], d) {
            Ok(r) => eval_and(qs, d, i + 1, acc.intersect(r)),
            Err(x) => Err(x),
        }
    }
}

/// The value bound, if any, leaves room for the tag of an entry key.
pub open spec fn value_bound_fits(b: Bound<Seq<u8>>) -> bool {
    match b {
        Bound::Included(v) => v.len() < max_key_len(),
        Bound::Excluded(v) => v.len() < max_key_len(),
        Bound::Unbounded => true,
    }
}

/// An encoded value, if it is one, leaves room for the tag of an entry key.
pub open spec fn leaf_fits<E>(v: Result<Vec<u8>, E>) -> bool {
    match v {
        Ok(b) => b@.len() < max_key_len(),
        Err(_) => true,
    }
}

/// The encoded value of a bound, if any, leaves room for the tag of an entry key.
pub open spec fn leaf_bound_fits<E>(b: Bound<Result<Vec<u8>, E>>) -> bool {
    match b {
        Bound::Included(v) => leaf_fits(v),
        Bound::Excluded(v) => leaf_fits(v),
        Bound::Unbounded => true,
    }
}

/// Every key that a query reads is not longer than the storage engine accepts:
/// a compared value leaves room for the tag of its entry key, and `Equal`
/// reads its value as the key itself.
pub open spec fn query_fits<E>(f: Query<E>) -> bool
    decreases f, 0nat,
{
    match f {
        Filter::Nothing => true,
        Filter::All => true,
        Filter::Not(q) => query_fits(*q),
        Filter::Or(qs) => all_fit(qs@, 0),
        Filter::And(qs) => all_fit(qs@, 0),
        Filter::LessThan(v) => leaf_fits(v),
        Filter::LessThanOrEqual(v) => leaf_fits(v),
        Filter::MoreThan(v) => leaf_fits(v),
        Filter::MoreThanOrEqual(v) => leaf_fits(v),
        Filter::Equal(v) => match v {
            Ok(b) => b@.len() <= max_key_len(),
            Err(_) => true,
        },
        Filter::Range((start, end)) => leaf_bound_fits(start) && leaf_bound_fits(end),
    }
}

/// Whether every query of `qs` from the `i`-th on fits.
pub open spec fn all_fit<E>(qs: Seq<Query<E>>, i: int) -> bool
    decreases qs, qs.len() - i,
{
    if i < 0 || i >= qs.len() {
        true
    } else {
        query_fits(qs[i]) && all_fit(qs, i + 1)
    }
}

/// Whether every value of a query was encoded.
pub open spec fn encoded<E>(f: Query<E>) -> bool
    decreases f, 0nat,
{
    match f {
        Filter::Nothing => true,
        Filter::All => true,
        Filter::Not(q) => encoded(*q),
        Filter::Or(qs) => all_encoded(qs@, 0),
        Filter::And(qs) => all_encoded(qs@, 0),
        Filter::LessThan(v) => v is Ok,
        Filter::LessThanOrEqual(v) => v is Ok,
        Filter::MoreThan(v) => v is Ok,
        Filter::MoreThanOrEqual(v) => v is Ok,
        Filter::Equal(v) => v is Ok,
        Filter::Range((start, end)) => leaf_bound(start) is Ok && leaf_bound(end) is Ok,
    }
}

/// Whether every value of every query of `qs` from the `i`-th on was encoded.
pub open spec fn all_encoded<E>(qs: Seq<Query<E>>, i: int) -> bool
    decreases qs, qs.len() - i,
{
    if i < 0 || i >= qs.len() {
        true
    } else {
        encoded(qs[i]) && all_encoded(qs, i + 1)
    }
}

/// Whether the evaluation of a query begins with a read of the store. One that
/// does not is answered without one: `Nothing`, a comparison or an `Equal`
/// whose value could not be encoded, a range one of whose bound values could
/// not be, and an `And` that is empty or whose first query is answered so.
pub open spec fn reads_store<E>(f: Query<E>) -> bool
    decreases f,
{
    match f {
        Filter::Nothing => false,
        Filter::And(qs) => qs.len() > 0 && reads_store(qs@[0]),
        Filter::LessThan(v) => v is Ok,
        Filter::LessThanOrEqual(v) => v is Ok,
        Filter::MoreThan(v) => v is Ok,
        Filter::MoreThanOrEqual(v) => v is Ok,
        Filter::Equal(v) => v is Ok,
        Filter::Range((start, end)) => leaf_bound(start) is Ok && leaf_bound(end) is Ok,
        _ => true,
    }
}

/// A query answered without a read matches nothing, or fails on a value that
/// could not be encoded.
pub proof fn lemma_answer_without_read<E>(f: Query<E>, d: Index)
    requires
        !reads_store(f),
    ensures
        eval(f, d) == Ok::<Set<u32>, Fault<E>>(Set::<u32>::empty()) || eval(f, d) matches Err(
            Fault::Unencodable(_),
        ),
    decreases f,
{
    if let Filter::And(qs) = f {
        if qs.len() > 0 {
            lemma_answer_without_read(qs@[0], d);
            assert(eval_and(qs@, d, 1, Set::<u32>::empty()) == Ok::<Set<u32>, Fault<E>>(
                Set::<u32>::empty(),
            ));
        }
    }
}

/// A key within the key bounds of a value range is not empty and does not
/// start with the closing tag.
pub proof fn lemma_scanned_key(k: Seq<u8>, start: Bound<Seq<u8>>, end: Bound<Seq<u8>>)
    requires
        in_bounds(k, lower_key(start), upper_key(end)),
    ensures
        k.len() > 0,
        k[0] != KeyKind::FinalKind.tag(),
{
    match end {
        Bound::Unbounded => {
            if k.len() > 0 && k[0] == KeyKind::FinalKind.tag() {
                let b = seq![KeyKind::FinalKind.tag()];
                assert(b.len() == 1 && b[0] == KeyKind::FinalKind.tag());
                assert(b.drop_first() =~= Seq::<u8>::empty());
                assert(!bytes_lt(k.drop_first(), b.drop_first()));
                assert(!bytes_lt(k, b));
            }
        },
        Bound::Included(v) => {
            assert(entry_key(v)[0] == KeyKind::Entry.tag());
        },
        Bound::Excluded(v) => {
            assert(entry_key(v)[0] == KeyKind::Entry.tag());
        },
    }
}

/// Records document `docid` under key `k`: `None` where the set stored there
/// does not decode.
pub open spec fn add_doc(d: Index, docid: u32, k: Seq<u8>) -> Option<Index> {
    match lookup(d, k) {
        Some(s) => Some(d.insert(k, Some(s.insert(docid)))),
        None => None,
    }
}

/// The keys under which a document with values encoded as `values` is recorded,
/// in the order in which they are written.
pub open spec fn insert_keys(values: Seq<Vec<u8>>) -> Seq<Seq<u8>> {
    seq![all_key()] + values.map_values(|v: Vec<u8>| entry_key(v@))
}

/// The content after recording `docid` under the first `n` keys of `keys`.
pub open spec fn add_doc_prefix(d: Index, docid: u32, keys: Seq<Seq<u8>>, n: nat) -> Option<Index>
    decreases n,
{
    if n == 0 {
        Some(d)
    } else {
        match add_doc_prefix(d, docid, keys, (n - 1) as nat) {
            Some(d2) => add_doc(d2, docid, keys[n - 1]),
            None => None,
        }
    }
}

/// The encodings of the first `n` values (each taken as encoded).
pub open spec fn encodings<E>(values: Seq<Result<Vec<u8>, E>>, n: int) -> Seq<Vec<u8>> {
    Seq::new(n as nat, |t: int| values[t]->Ok_0)
}

/// Whether a value stops an insert when reached: it could not be encoded, or
/// its entry key would be longer than the storage engine takes.
pub open spec fn stops<E>(v: Result<Vec<u8>, E>) -> bool {
    v is Err || !leaf_fits(v)
}

/// The number of values before the first that stops an insert.
pub open spec fn first_stop<E>(values: Seq<Result<Vec<u8>, E>>) -> int {
    stop_from(values, 0)
}

/// The index of the first value from the `i`-th on that stops an insert, or
/// the length.
pub open spec fn stop_from<E>(values: Seq<Result<Vec<u8>, E>>, i: int) -> int
    decreases values.len() - i,
{
    if i < 0 || i >= values.len() {
        values.len() as int
    } else if stops(values[i]) {
        i
    } else {
        stop_from(values, i + 1)
    }
}

pub proof fn lemma_stop_from<E>(values: Seq<Result<Vec<u8>, E>>, i: int)
    requires
        0 <= i <= values.len(),
    ensures
        i <= stop_from(values, i) <= values.len(),
        forall|j: int| i <= j < stop_from(values, i) ==> !stops(#[trigger] values[j]),
        stop_from(values, i) < values.len() ==> stops(values[stop_from(values, i)]),
    decreases values.len() - i,
{
    if i < values.len() && !stops(values[i]) {
        lemma_stop_from(values, i + 1);
    }
}

/// The first value that stops an insert is the first for which `stops` holds.
pub proof fn lemma_first_stop<E>(values: Seq<Result<Vec<u8>, E>>)
    ensures
        0 <= first_stop(values) <= values.len(),
        forall|j: int| 0 <= j < first_stop(values) ==> !stops(#[trigger] values[j]),
        first_stop(values) < values.len() ==> stops(values[first_stop(values)]),
{
    lemma_stop_from(values, 0);
}

/// The keys written for the first `a` values begin the keys written for the
/// first `b`.
pub proof fn lemma_keys_agree<E>(values: Seq<Result<Vec<u8>, E>>, a: int, b: int)
    requires
        0 <= a <= b,
    ensures
        insert_keys(encodings(values, a)).len() == a + 1,
        insert_keys(encodings(values, b)).len() == b + 1,
        forall|t: int|
            0 <= t <= a ==> #[trigger] insert_keys(encodings(values, a))[t] == insert_keys(
                encodings(values, b),
            )[t],
{
    assert forall|t: int| 0 <= t <= a implies #[trigger] insert_keys(encodings(values, a))[t]
        == insert_keys(encodings(values, b))[t] by {
        if t > 0 {
            assert(encodings(values, a)[t - 1] == encodings(values, b)[t - 1]);
        }
    }
}

/// Recording a document under two lists of keys that agree on their first
/// `j` keys gives the same content after `j` keys.
pub proof fn lemma_prefix_agrees(d: Index, docid: u32, k1: Seq<Seq<u8>>, k2: Seq<Seq<u8>>, j: nat)
    requires
        j <= k1.len(),
        j <= k2.len(),
        forall|t: int| 0 <= t < j ==> k1[t] == k2[t],
    ensures
        add_doc_prefix(d, docid, k1, j) == add_doc_prefix(d, docid, k2, j),
    decreases j,
{
    if j > 0 {
        lemma_prefix_agrees(d, docid, k1, k2, (j - 1) as nat);
    }
}

} // verus!
