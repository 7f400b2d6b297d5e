//! What the index means: the documents that were recorded, each with its set
//! of values, and the documents that a query selects among them; and the laws
//! that tie the stored content, `insert` and `filter` to that meaning.
use crate::bitmap::{bitmap_set, lemma_u32_set_finite};
use crate::key::{all_key, entry_key, KeyKind};
use crate::model::{
    all_fit, query_fits, add_doc, add_doc_prefix, all_encoded, encoded, encodings, eval, eval_and, eval_or,
    first_stop, insert_keys, keys_within, leaf_bound, lemma_first_stop, lookup,
    foreign, lower_key, read, scan_result, union_of, upper_key, value_range, Fault, Index, Query,
};
use crate::query::{Bound, Filter};
use crate::store::{bytes_lt, in_bounds};
use roaring::RoaringBitmap;
use vstd::prelude::*;

verus! {

/// The recorded documents, each with the encodings of its values.
pub type Docs = Map<u32, Set<Seq<u8>>>;

/// The documents that hold the value encoded as `v`.
pub open spec fn holders(docs: Docs, v: Seq<u8>) -> Set<u32> {
    Set::new(|doc: u32| docs.contains_key(doc) && docs[doc].contains(v))
}

/// The documents that hold a value between `start` and `end` (byte-wise).
pub open spec fn holders_within(docs: Docs, start: Bound<Seq<u8>>, end: Bound<Seq<u8>>) -> Set<
    u32,
> {
    Set::new(
        |doc: u32|
            docs.contains_key(doc) && exists|v: Seq<u8>| #[trigger]
                docs[doc].contains(v) && in_bounds(v, start, end),
    )
}

/// Whether `k` is a key of this index's layout: the key of every document, or
/// an entry key.
pub open spec fn own_key(k: Seq<u8>) -> bool {
    k == all_key() || (k.len() > 0 && k[0] == KeyKind::Entry.tag())
}

/// The documents stored under key `k` when the index holds `docs`.
pub open spec fn stored_under(docs: Docs, k: Seq<u8>) -> Set<u32> {
    if k == all_key() {
        docs.dom()
    } else if own_key(k) {
        holders(docs, k.drop_first())
    } else {
        Set::empty()
    }
}

/// Stored content `d` holds exactly the documents `docs`: every key of its
/// layout reads back the documents stored under it, and it holds no other key.
pub open spec fn represents(d: Index, docs: Docs) -> bool {
    &&& forall|k: Seq<u8>| #[trigger] d.contains_key(k) ==> own_key(k)
    &&& forall|k: Seq<u8>| own_key(k) ==> #[trigger] lookup(d, k) == Some(stored_under(docs, k))
}

/// Adds the values `vals` to document `docid` (which is recorded even if
/// `vals` is empty).
pub open spec fn record(docs: Docs, docid: u32, vals: Set<Seq<u8>>) -> Docs {
    docs.insert(
        docid,
        (if docs.contains_key(docid) {
            docs[docid]
        } else {
            Set::empty()
        }).union(vals),
    )
}

/// The documents that query `f` selects among `docs`, its values taken as
/// encoded.
pub open spec fn select<E>(f: Query<E>, docs: Docs) -> Set<u32>
    decreases f, 0nat,
{
    match f {
        Filter::Nothing => Set::empty(),
        Filter::All => docs.dom(),
        Filter::Not(q) => docs.dom().difference(select(*q, docs)),
        Filter::Or(qs) => select_any(qs@, docs, 0),
        Filter::And(qs) => if qs.len() == 0 {
            Set::empty()
        } else {
            docs.dom().intersect(select_every(qs@, docs, 0))
        },
        Filter::LessThan(v) => holders_within(docs, Bound::Unbounded, Bound::Excluded(enc(v))),
        Filter::LessThanOrEqual(v) => holders_within(docs, Bound::Unbounded, Bound::Included(enc(v))),
        Filter::MoreThan(v) => holders_within(docs, Bound::Excluded(enc(v)), Bound::Unbounded),
        Filter::MoreThanOrEqual(v) => holders_within(docs, Bound::Included(enc(v)), Bound::Unbounded),
        Filter::Equal(v) => stored_under(docs, enc(v)),
        Filter::Range((start, end)) => holders_within(docs, enc_bound(start), enc_bound(end)),
    }
}

/// The encoding of an encoded value.
pub open spec fn enc<E>(v: Result<Vec<u8>, E>) -> Seq<u8> {
    v->Ok_0@
}

/// A bound over the encoding of an encoded value.
pub open spec fn enc_bound<E>(b: Bound<Result<Vec<u8>, E>>) -> Bound<Seq<u8>> {
    leaf_bound(b)->Ok_0
}

/// The documents that some query of `qs` from the `i`-th on selects.
pub open spec fn select_any<E>(qs: Seq<Query<E>>, docs: Docs, i: int) -> Set<u32>
    decreases qs, qs.len() - i,
{
    if i < 0 || i >= qs.len() {
        Set::empty()
    } else {
        select(qs[i], docs).union(select_any(qs, docs, i + 1))
    }
}

/// The documents that every query of `qs` from the `i`-th on selects.
pub open spec fn select_every<E>(qs: Seq<Query<E>>, docs: Docs, i: int) -> Set<u32>
    decreases qs, qs.len() - i,
{
    if i < 0 || i >= qs.len() {
        Set::full()
    } else {
        select(qs[i], docs).intersect(select_every(qs, docs, i + 1))
    }
}

/// Entry keys sort as the values they encode.
pub proof fn lemma_entry_key_order(a: Seq<u8>, b: Seq<u8>)
    ensures
        bytes_lt(entry_key(a), entry_key(b)) == bytes_lt(a, b),
{
    assert(entry_key(a).drop_first() == a);
    assert(entry_key(b).drop_first() == b);
}

/// An entry key lies within the key bounds of a value range exactly when its
/// value lies within the value bounds; the key of every document never does.
pub proof fn lemma_value_range_keys(v: Seq<u8>, start: Bound<Seq<u8>>, end: Bound<Seq<u8>>)
    ensures
        in_bounds(entry_key(v), lower_key(start), upper_key(end)) == in_bounds(v, start, end),
        !in_bounds(all_key(), lower_key(start), upper_key(end)),
{
    let ev = entry_key(v);
    assert(ev.drop_first() == v);
    assert(crate::store::above(ev, lower_key(start)) == crate::store::above(v, start)) by {
        match start {
            Bound::Included(a) => lemma_entry_key_order(v, a),
            Bound::Excluded(a) => lemma_entry_key_order(a, v),
            Bound::Unbounded => {
                assert(seq![KeyKind::Entry.tag()].drop_first() =~= Seq::<u8>::empty());
                assert(!bytes_lt(v, Seq::<u8>::empty()));
            },
        }
    }
    assert(crate::store::below(ev, upper_key(end)) == crate::store::below(v, end)) by {
        match end {
            Bound::Included(a) => lemma_entry_key_order(a, v),
            Bound::Excluded(a) => lemma_entry_key_order(v, a),
            Bound::Unbounded => {},
        }
    }
}

/// A range of values reads back the documents that hold a value within it.
pub proof fn lemma_value_range_selects(
    d: Index,
    docs: Docs,
    start: Bound<Seq<u8>>,
    end: Bound<Seq<u8>>,
)
    requires
        represents(d, docs),
    ensures
        value_range(d, start, end) == Some(holders_within(docs, start, end)),
{
    let lo = lower_key(start);
    let hi = upper_key(end);
    let within = keys_within(d, lo, hi);
    assert forall|k: Seq<u8>| #[trigger] within.contains(k) implies d[k] is Some && k == entry_key(
        k.drop_first(),
    ) && in_bounds(k.drop_first(), start, end) by {
        assert(own_key(k));
        assert(lookup(d, k) == Some(stored_under(docs, k)));
        lemma_value_range_keys(k.drop_first(), start, end);
        if k != all_key() {
            assert(k =~= entry_key(k.drop_first()));
        }
    }
    assert(!(exists|k: Seq<u8>| #[trigger] within.contains(k) && d[k] is None));
    let target = holders_within(docs, start, end);
    assert(union_of(d, within) =~= target) by {
        assert forall|x: u32| #[trigger] union_of(d, within).contains(x) implies target.contains(x) by {
            let k = choose|k: Seq<u8>| #[trigger] within.contains(k) && d[k] is Some && d[k]->0.contains(x);
            let u = k.drop_first();
            assert(lookup(d, k) == Some(stored_under(docs, k)));
            assert(own_key(k) && k != all_key());
            assert(docs[x].contains(u));
        }
        assert forall|x: u32| #[trigger] target.contains(x) implies union_of(d, within).contains(x) by {
            let v = choose|v: Seq<u8>| #[trigger] docs[x].contains(v) && in_bounds(v, start, end);
            let k = entry_key(v);
            assert(k.drop_first() == v);
            assert(own_key(k) && k != all_key());
            assert(lookup(d, k) == Some(stored_under(docs, k)));
            assert(holders(docs, v).contains(x));
            lemma_value_range_keys(v, start, end);
            assert(d.contains_key(k));
            assert(within.contains(k));
        }
    }
}

/// Every query selects among the recorded documents only.
pub proof fn lemma_select_within<E>(f: Query<E>, docs: Docs)
    ensures
        select(f, docs).subset_of(docs.dom()),
    decreases f, 0nat,
{
    match f {
        Filter::Or(qs) => lemma_select_any_within(qs@, docs, 0),
        _ => {},
    }
}

/// What some query of a list selects lies among the recorded documents.
pub proof fn lemma_select_any_within<E>(qs: Seq<Query<E>>, docs: Docs, i: int)
    ensures
        select_any(qs, docs, i).subset_of(docs.dom()),
    decreases qs, qs.len() - i,
{
    if 0 <= i < qs.len() {
        lemma_select_within(qs[i], docs);
        lemma_select_any_within(qs, docs, i + 1);
    }
}

/// On content that holds exactly `docs`, every query reads back exactly the
/// documents that it selects among `docs`: none of its reads fails to decode.
pub proof fn lemma_eval_selects<E>(f: Query<E>, d: Index, docs: Docs)
    requires
        represents(d, docs),
        encoded(f),
        query_fits(f),
    ensures
        eval(f, d) == Ok::<Set<u32>, Fault<E>>(select(f, docs)),
    decreases f, 0nat,
{
    lemma_u32_set_finite(docs.dom());
    assert(own_key(all_key()));
    assert(lookup(d, all_key()) == Some(stored_under(docs, all_key())));
    match f {
        Filter::Nothing => {},
        Filter::All => {},
        Filter::Not(q) => {
            lemma_eval_selects(*q, d, docs);
        },
        Filter::Or(qs) => {
            lemma_eval_or_selects(qs@, d, docs, 0, Set::empty());
            assert(all_encoded(qs@, 0));
            assert(all_fit(qs@, 0));
            assert(Set::<u32>::empty().union(select_any(qs@, docs, 0)) =~= select_any(qs@, docs, 0));
        },
        Filter::And(qs) => {
            if qs.len() > 0 {
                assert(all_encoded(qs@, 0));
            assert(all_fit(qs@, 0));
                lemma_eval_selects(qs@[0], d, docs);
                lemma_select_within(qs@[0], docs);
                lemma_eval_and_selects(qs@, d, docs, 1, select(qs@[0], docs));
                assert(docs.dom().intersect(select_every(qs@, docs, 0)) =~= select(qs@[0], docs).intersect(
                    select_every(qs@, docs, 1),
                ));
            }
        },
        Filter::LessThan(v) => lemma_scan_result_selects::<E>(d, docs, Bound::Unbounded, Bound::Excluded(enc(v))),
        Filter::LessThanOrEqual(v) => lemma_scan_result_selects::<E>(d, docs, Bound::Unbounded, Bound::Included(enc(v))),
        Filter::MoreThan(v) => lemma_scan_result_selects::<E>(d, docs, Bound::Excluded(enc(v)), Bound::Unbounded),
        Filter::MoreThanOrEqual(v) => lemma_scan_result_selects::<E>(d, docs, Bound::Included(enc(v)), Bound::Unbounded),
        Filter::Equal(v) => {
            if own_key(enc(v)) {
                assert(lookup(d, enc(v)) == Some(stored_under(docs, enc(v))));
            } else {
                assert(!d.contains_key(enc(v)));
            }
        },
        Filter::Range((start, end)) => lemma_scan_result_selects::<E>(d, docs, enc_bound(start), enc_bound(end)),
    }
}

/// An `Or` over content that holds `docs`, from its `i`-th query on, reads back
/// the union of what its queries select, its early stop notwithstanding.
pub proof fn lemma_eval_or_selects<E>(
    qs: Seq<Query<E>>,
    d: Index,
    docs: Docs,
    i: int,
    acc: Set<u32>,
)
    requires
        represents(d, docs),
        all_encoded(qs, i),
        all_fit(qs, i),
        acc.subset_of(docs.dom()),
        0 <= i,
    ensures
        eval_or(qs, d, docs.dom(), i, acc) == Ok::<Set<u32>, Fault<E>>(acc.union(select_any(qs, docs, i))),
    decreases qs, qs.len() - i,
{
    if i >= qs.len() {
        assert(acc.union(Set::empty()) =~= acc);
    } else {
        lemma_eval_selects(qs[i], d, docs);
        lemma_select_within(qs[i], docs);
        lemma_select_any_within(qs, docs, i + 1);
        let next = acc.union(select(qs[i], docs));
        lemma_u32_set_finite(next);
        lemma_u32_set_finite(docs.dom());
        if next.len() == docs.dom().len() {
            vstd::set_lib::lemma_subset_equality(next, docs.dom());
            assert(next.union(select_any(qs, docs, i + 1)) =~= next);
        } else {
            lemma_eval_or_selects(qs, d, docs, i + 1, next);
        }
        assert(acc.union(select_any(qs, docs, i)) =~= next.union(select_any(qs, docs, i + 1)));
    }
}

/// An `And` over content that holds `docs`, from its `i`-th query on, reads back
/// the intersection of what its queries select, its early stop notwithstanding.
pub proof fn lemma_eval_and_selects<E>(
    qs: Seq<Query<E>>,
    d: Index,
    docs: Docs,
    i: int,
    acc: Set<u32>,
)
    requires
        represents(d, docs),
        all_encoded(qs, i),
        all_fit(qs, i),
        0 <= i,
    ensures
        eval_and(qs, d, i, acc) == Ok::<Set<u32>, Fault<E>>(acc.intersect(select_every(qs, docs, i))),
    decreases qs, qs.len() - i,
{
    if i >= qs.len() {
        assert(acc.intersect(Set::full()) =~= acc);
    } else if acc == Set::<u32>::empty() {
        assert(acc.intersect(select_every(qs, docs, i)) =~= acc);
    } else {
        lemma_eval_selects(qs[i], d, docs);
        lemma_eval_and_selects(qs, d, docs, i + 1, acc.intersect(select(qs[i], docs)));
        assert(acc.intersect(select_every(qs, docs, i)) =~= acc.intersect(select(qs[i], docs)).intersect(
            select_every(qs, docs, i + 1),
        ));
    }
}

/// The values encoded by the first `m` entries of `values`.
pub open spec fn value_set(values: Seq<Vec<u8>>, m: int) -> Set<Seq<u8>> {
    Set::new(|v: Seq<u8>| exists|j: int| 0 <= j < m && #[trigger] values[j]@ == v)
}

/// Recording a document in the set of every document.
pub proof fn lemma_add_to_all(d: Index, docs: Docs, docid: u32)
    requires
        represents(d, docs),
    ensures
        add_doc(d, docid, all_key()) matches Some(d2) && represents(
            d2,
            record(docs, docid, Set::empty()),
        ),
{
    assert(own_key(all_key()));
    assert(lookup(d, all_key()) == Some(stored_under(docs, all_key())));
    let docs2 = record(docs, docid, Set::empty());
    let d2 = d.insert(all_key(), Some(docs.dom().insert(docid)));
    assert(add_doc(d, docid, all_key()) == Some(d2));
    assert forall|k: Seq<u8>| own_key(k) implies #[trigger] lookup(d2, k) == Some(
        stored_under(docs2, k),
    ) by {
        if k == all_key() {
            assert(docs2.dom() =~= docs.dom().insert(docid));
        } else {
            assert(lookup(d, k) == Some(stored_under(docs, k)));
            assert(holders(docs2, k.drop_first()) =~= holders(docs, k.drop_first()));
        }
    }
}

/// Recording a recorded document under the entry key of value `u`.
pub proof fn lemma_add_to_entry(d: Index, docs: Docs, docid: u32, u: Seq<u8>)
    requires
        represents(d, docs),
        docs.contains_key(docid),
    ensures
        add_doc(d, docid, entry_key(u)) matches Some(d2) && represents(
            d2,
            record(docs, docid, set![u]),
        ),
{
    let k = entry_key(u);
    assert(k.drop_first() == u);
    assert(own_key(k) && k != all_key());
    assert(lookup(d, k) == Some(stored_under(docs, k)));
    let docs2 = record(docs, docid, set![u]);
    let d2 = d.insert(k, Some(holders(docs, u).insert(docid)));
    assert(add_doc(d, docid, k) == Some(d2));
    assert forall|k2: Seq<u8>| own_key(k2) implies #[trigger] lookup(d2, k2) == Some(
        stored_under(docs2, k2),
    ) by {
        if k2 == k {
            assert(holders(docs2, u) =~= holders(docs, u).insert(docid));
        } else {
            assert(lookup(d, k2) == Some(stored_under(docs, k2)));
            if k2 == all_key() {
                assert(docs2.dom() =~= docs.dom());
            } else {
                if k2.drop_first() == u {
                    assert(k2 =~= k);
                }
                assert(holders(docs2, k2.drop_first()) =~= holders(docs, k2.drop_first()));
            }
        }
    }
}

/// Recording document `docid` under the first `n` keys of `insert_keys(values)`,
/// on content that holds `docs`: no read fails to decode, and the content then
/// holds `docs` with `docid` recorded, with the values whose keys were written.
pub proof fn lemma_insert_prefix(
    d0: Index,
    docs: Docs,
    docid: u32,
    values: Seq<Vec<u8>>,
    n: nat,
)
    requires
        represents(d0, docs),
        n <= values.len() + 1,
    ensures
        add_doc_prefix(d0, docid, insert_keys(values), n) matches Some(dn) && (if n == 0 {
            dn == d0
        } else {
            represents(dn, record(docs, docid, value_set(values, n - 1)))
        }),
    decreases n,
{
    let keys = insert_keys(values);
    if n == 1 {
        lemma_add_to_all(d0, docs, docid);
        assert(value_set(values, 0) =~= Set::<Seq<u8>>::empty());
    } else if n > 1 {
        lemma_insert_prefix(d0, docs, docid, values, (n - 1) as nat);
        let prev = add_doc_prefix(d0, docid, keys, (n - 1) as nat)->0;
        let docs1 = record(docs, docid, value_set(values, n - 2));
        let u = values[n - 2]@;
        assert(keys[n - 1] == entry_key(u));
        lemma_add_to_entry(prev, docs1, docid, u);
        assert(record(docs1, docid, set![u]) =~= record(docs, docid, value_set(values, n - 1))) by {
            assert(value_set(values, n - 2).union(set![u]) =~= value_set(values, n - 1)) by {
                assert forall|v: Seq<u8>| #[trigger] value_set(values, n - 1).contains(v) implies value_set(values, n - 2).union(set![u]).contains(v) by {
                    let j = choose|j: int| 0 <= j < n - 1 && #[trigger] values[j]@ == v;
                    if j < n - 2 {
                        assert(value_set(values, n - 2).contains(v));
                    }
                }
                assert forall|v: Seq<u8>| #[trigger] value_set(values, n - 2).union(set![u]).contains(v) implies value_set(values, n - 1).contains(v) by {
                    if v == u {
                        assert(values[n - 2]@ == v);
                    } else {
                        let j = choose|j: int| 0 <= j < n - 2 && #[trigger] values[j]@ == v;
                        assert(values[j]@ == v);
                    }
                }
            }
            let base = if docs.contains_key(docid) { docs[docid] } else { Set::<Seq<u8>>::empty() };
            assert(docs1[docid] == base.union(value_set(values, n - 2)));
            assert(base.union(value_set(values, n - 2)).union(set![u]) =~= base.union(value_set(values, n - 1)));
        }
    }
}

/// Inserting a document into content that holds `docs`: no read fails to
/// decode, and on success the content holds `docs` with the document recorded
/// with every one of its values; on a failure after `j` writes it holds `docs`
/// with the document recorded with the values written so far.
pub proof fn lemma_insert_records(
    d0: Index,
    d1: Index,
    docs: Docs,
    docid: u32,
    values: Seq<Vec<u8>>,
    j: nat,
)
    requires
        represents(d0, docs),
        j <= values.len() + 1,
        add_doc_prefix(d0, docid, insert_keys(values), j) == Some(d1),
    ensures
        j < values.len() + 1 ==> add_doc(d1, docid, insert_keys(values)[j as int]) is Some,
        j == values.len() + 1 ==> represents(d1, record(docs, docid, value_set(values, values.len() as int))),
        1 <= j ==> represents(d1, record(docs, docid, value_set(values, j - 1))),
        j == 0 ==> d1 == d0,
{
    lemma_insert_prefix(d0, docs, docid, values, j);
    if j < values.len() + 1 {
        lemma_insert_prefix(d0, docs, docid, values, j + 1);
    }
}

/// A keyspace with no entries holds no documents.
pub proof fn lemma_empty_represents_nothing()
    ensures
        represents(Map::empty(), Map::empty()),
{
    assert forall|k: Seq<u8>| own_key(k) implies #[trigger] lookup(Map::empty(), k) == Some(
        stored_under(Map::<u32, Set<Seq<u8>>>::empty(), k),
    ) by {
        assert(Map::<u32, Set<Seq<u8>>>::empty().dom() =~= Set::<u32>::empty());
        assert(holders(Map::empty(), k.drop_first()) =~= Set::<u32>::empty());
    }
}

/// Content that holds documents keeps only keys of the index's layout, none
/// of another, so no scan meets a key that cannot be read back.
pub proof fn lemma_represents_no_foreign_key(d: Index, docs: Docs, k: Seq<u8>)
    requires
        represents(d, docs),
        d.contains_key(k),
    ensures
        !foreign(k),
{
    assert(own_key(k));
}

/// On content that holds `docs`, a scan of a range of values reads back the
/// documents that hold a value within it.
pub proof fn lemma_scan_result_selects<E>(
    d: Index,
    docs: Docs,
    start: Bound<Seq<u8>>,
    end: Bound<Seq<u8>>,
)
    requires
        represents(d, docs),
    ensures
        scan_result::<E>(d, start, end) == Ok::<Set<u32>, Fault<E>>(
            holders_within(docs, start, end),
        ),
{
    lemma_value_range_selects(d, docs, start, end);
    assert forall|k: Seq<u8>|
        #[trigger] keys_within(d, lower_key(start), upper_key(end)).contains(k) implies !foreign(
        k,
    ) by {
        lemma_represents_no_foreign_key(d, docs, k);
    }
}

/// After a successful insert into content that holds `docs`, every query
/// whose values were encoded, and fit the storage engine, reads back what it selects among `docs` with the
/// document recorded with all of its values. An insert into such content fails
/// only on a storage failure or on a value that could not be encoded; on the
/// latter the document stays recorded with the values before that one, and on
/// either the content still holds a set of documents.
pub proof fn lemma_insert_then_filter<E>(
    d0: Index,
    d1: Index,
    docs: Docs,
    docid: u32,
    values: Seq<Result<Vec<u8>, E>>,
    r: Result<(), crate::Error<E>>,
    q: Query<E>,
)
    requires
        represents(d0, docs),
        crate::insert_outcome(d0, d1, docid, values, r),
        encoded(q),
        query_fits(q),
    ensures
        r is Ok ==> eval(q, d1) == Ok::<Set<u32>, Fault<E>>(
            select(
                q,
                record(docs, docid, value_set(encodings(values, values.len() as int), values.len() as int)),
            ),
        ),
        r matches Err(crate::Error::CouldNotEncodeValue(_)) ==> represents(
            d1,
            record(
                docs,
                docid,
                value_set(
                    encodings(values, first_stop(values)),
                    first_stop(values),
                ),
            ),
        ),
        r is Err ==> (r->Err_0 is Fjall || r->Err_0 is CouldNotEncodeValue) && exists|docs1: Docs|
            represents(d1, docs1),
{
    lemma_first_stop(values);
    let n = first_stop(values);
    let ev = encodings(values, n);
    let keys = insert_keys(ev);
    assert(ev.len() == n);
    assert(keys.len() == ev.len() + 1);
    match r {
        Ok(()) => {
            lemma_insert_records(d0, d1, docs, docid, ev, keys.len());
            lemma_eval_selects(q, d1, record(docs, docid, value_set(ev, ev.len() as int)));
        },
        Err(crate::Error::CouldNotEncodeValue(_)) => {
            lemma_insert_records(d0, d1, docs, docid, ev, keys.len());
        },
        Err(e) => {
            let j = choose|j: nat|
                j < keys.len() && #[trigger] add_doc_prefix(d0, docid, keys, j) == Some(d1) && (
                e is CouldNotEncodeOrDecodeRoaring ==> add_doc(d1, docid, keys[j as int]) is None);
            lemma_insert_records(d0, d1, docs, docid, ev, j);
            if j == 0 {
                assert(represents(d1, docs));
            } else {
                assert(represents(d1, record(docs, docid, value_set(ev, j - 1))));
            }
        },
    }
}

/// An `And` whose first query matches nothing matches nothing, whatever the
/// queries after it would read.
pub proof fn lemma_and_stops_when_empty<E>(rest: Seq<Query<E>>, qs: Vec<Query<E>>, d: Index)
    requires
        qs@ == seq![Filter::Nothing] + rest,
    ensures
        eval(Filter::And(qs), d) == Ok::<Set<u32>, Fault<E>>(Set::<u32>::empty()),
{
    assert(qs@[0] == Filter::<Result<Vec<u8>, E>>::Nothing);
    assert(eval(qs@[0], d) == Ok::<Set<u32>, Fault<E>>(Set::<u32>::empty()));
    assert(eval_and(qs@, d, 1, Set::<u32>::empty()) == Ok::<Set<u32>, Fault<E>>(Set::<u32>::empty()));
}

/// An `Or` whose first query matches every document matches every document,
/// whatever the queries after it would read.
pub proof fn lemma_or_stops_when_full<E>(rest: Seq<Query<E>>, qs: Vec<Query<E>>, d: Index)
    requires
        qs@ == seq![Filter::All] + rest,
        lookup(d, all_key()) is Some,
    ensures
        eval(Filter::Or(qs), d) == Ok::<Set<u32>, Fault<E>>(lookup(d, all_key())->0),
{
    let all = lookup(d, all_key())->0;
    assert(qs@[0] == Filter::<Result<Vec<u8>, E>>::All);
    assert(Set::<u32>::empty().union(all) =~= all);
    assert(eval(qs@[0], d) == Ok::<Set<u32>, Fault<E>>(all));
    crate::bitmap::lemma_u32_set_finite(all);
    assert(eval_or(qs@, d, all, 0, Set::<u32>::empty()) == Ok::<Set<u32>, Fault<E>>(all));
}

/// Byte-wise order is total.
pub proof fn lemma_bytes_lt_total(a: Seq<u8>, b: Seq<u8>)
    ensures
        bytes_lt(a, b) || bytes_lt(b, a) || a == b,
    decreases a.len(),
{
    if a.len() > 0 && b.len() > 0 && a[0] == b[0] {
        lemma_bytes_lt_total(a.drop_first(), b.drop_first());
        if a.drop_first() == b.drop_first() {
            assert(a =~= seq![a[0]] + a.drop_first());
            assert(b =~= seq![b[0]] + b.drop_first());
        }
    } else if a.len() == 0 && b.len() == 0 {
        assert(a =~= b);
    }
}

/// Byte-wise order is transitive.
pub proof fn lemma_bytes_lt_transitive(a: Seq<u8>, b: Seq<u8>, c: Seq<u8>)
    requires
        bytes_lt(a, b),
        bytes_lt(b, c),
    ensures
        bytes_lt(a, c),
    decreases a.len(),
{
    if a.len() > 0 && a[0] == b[0] && b[0] == c[0] {
        lemma_bytes_lt_transitive(a.drop_first(), b.drop_first(), c.drop_first());
    }
}

/// Byte-wise order is irreflexive.
pub proof fn lemma_bytes_lt_irreflexive(a: Seq<u8>)
    ensures
        !bytes_lt(a, a),
    decreases a.len(),
{
    if a.len() > 0 {
        lemma_bytes_lt_irreflexive(a.drop_first());
    }
}

/// A range whose end lies before its start selects no document.
pub proof fn lemma_crossed_range_is_empty(docs: Docs, a: Seq<u8>, b: Seq<u8>)
    requires
        bytes_lt(b, a),
    ensures
        holders_within(docs, Bound::Included(a), Bound::Included(b)) == Set::<u32>::empty(),
{
    assert forall|doc: u32| !#[trigger] holders_within(docs, Bound::Included(a), Bound::Included(b)).contains(doc) by {
        assert forall|v: Seq<u8>| !(#[trigger] docs[doc].contains(v) && in_bounds(v, Bound::Included(a), Bound::Included(b))) by {
            if in_bounds(v, Bound::Included(a), Bound::Included(b)) {
                lemma_bytes_lt_total(v, a);
                if bytes_lt(a, v) {
                    lemma_bytes_lt_transitive(b, a, v);
                }
            }
        }
    }
    assert(holders_within(docs, Bound::Included(a), Bound::Included(b)) =~= Set::<u32>::empty());
}

/// A range that includes both ends selects the holders of a value between them,
/// and a single included value is selected by its own range.
pub proof fn lemma_point_range(docs: Docs, v: Seq<u8>)
    ensures
        holders_within(docs, Bound::Included(v), Bound::Included(v)) == holders(docs, v),
{
    lemma_bytes_lt_irreflexive(v);
    assert forall|doc: u32| #[trigger] holders_within(docs, Bound::Included(v), Bound::Included(v)).contains(doc) implies holders(docs, v).contains(doc) by {
        let w = choose|w: Seq<u8>| #[trigger] docs[doc].contains(w) && in_bounds(w, Bound::Included(v), Bound::Included(v));
        lemma_bytes_lt_total(w, v);
    }
    assert forall|doc: u32| #[trigger] holders(docs, v).contains(doc) implies holders_within(docs, Bound::Included(v), Bound::Included(v)).contains(doc) by {
        assert(docs[doc].contains(v) && in_bounds(v, Bound::Included(v), Bound::Included(v)));
    }
    assert(holders_within(docs, Bound::Included(v), Bound::Included(v)) =~= holders(docs, v));
}

/// The comparison filters are the ranges with one end open.
pub proof fn lemma_comparisons_are_ranges<E>(v: Result<Vec<u8>, E>, d: Index)
    ensures
        eval(Filter::LessThan(v), d) == eval(
            Filter::Range((Bound::Unbounded, Bound::Excluded(v))),
            d,
        ),
        eval(Filter::LessThanOrEqual(v), d) == eval(
            Filter::Range((Bound::Unbounded, Bound::Included(v))),
            d,
        ),
        eval(Filter::MoreThan(v), d) == eval(
            Filter::Range((Bound::Excluded(v), Bound::Unbounded)),
            d,
        ),
        eval(Filter::MoreThanOrEqual(v), d) == eval(
            Filter::Range((Bound::Included(v), Bound::Unbounded)),
            d,
        ),
{
}

/// Every stored set that decodes lies within the set of every document, which
/// decodes (true of any content written only by `insert`).
pub open spec fn covered(d: Index) -> bool {
    &&& lookup(d, all_key()) is Some
    &&& forall|k: Seq<u8>|
        #[trigger] d.contains_key(k) && d[k] is Some ==> d[k]->0.subset_of(
            lookup(d, all_key())->0,
        )
}

/// The union of the results of the queries of `qs` from the `i`-th on.
pub open spec fn union_of_results<E>(qs: Seq<Query<E>>, d: Index, i: int) -> Set<u32>
    decreases qs.len() - i,
{
    if i < 0 || i >= qs.len() {
        Set::empty()
    } else {
        eval(qs[i], d)->Ok_0.union(union_of_results(qs, d, i + 1))
    }
}

/// The intersection of the results of the queries of `qs` from the `i`-th on.
pub open spec fn intersection_of_results<E>(qs: Seq<Query<E>>, d: Index, i: int) -> Set<u32>
    decreases qs.len() - i,
{
    if i < 0 || i >= qs.len() {
        Set::full()
    } else {
        eval(qs[i], d)->Ok_0.intersect(intersection_of_results(qs, d, i + 1))
    }
}

/// Every query of `qs` from the `i`-th on reads back a set.
pub open spec fn all_read<E>(qs: Seq<Query<E>>, d: Index, i: int) -> bool {
    forall|j: int| i <= j < qs.len() ==> #[trigger] eval(qs[j], d) is Ok
}

/// On covered content, whatever a query reads back lies within the set of
/// every document.
pub proof fn lemma_results_within_all<E>(f: Query<E>, d: Index)
    requires
        covered(d),
    ensures
        eval(f, d) matches Ok(s) ==> s.subset_of(lookup(d, all_key())->0),
    decreases f, 0nat,
{
    let all = lookup(d, all_key())->0;
    match f {
        Filter::Not(q) => {},
        Filter::Or(qs) => lemma_or_within_all(qs@, d, 0, Set::empty()),
        Filter::And(qs) => {
            if qs.len() > 0 {
                lemma_results_within_all(qs@[0], d);
                if let Ok(r) = eval(qs@[0], d) {
                    lemma_and_within_all(qs@, d, 1, r);
                }
            }
        },
        Filter::Equal(v) => {
            if let Ok(b) = v {
                if d.contains_key(b@) && d[b@] is Some {
                }
            }
        },
        Filter::Nothing => {},
        Filter::All => {},
        _ => {
            assert forall|lo: Bound<Seq<u8>>, hi: Bound<Seq<u8>>| #[trigger]
                scan_within(d, lo, hi) by {
                lemma_scan_within_all(d, lo, hi);
            }
        },
    }
}

/// What a scan reads back lies within the set of every document.
pub open spec fn scan_within(d: Index, lo: Bound<Seq<u8>>, hi: Bound<Seq<u8>>) -> bool {
    crate::model::scan(d, lo, hi) matches Some(s) ==> s.subset_of(lookup(d, all_key())->0)
}

pub proof fn lemma_scan_within_all(d: Index, lo: Bound<Seq<u8>>, hi: Bound<Seq<u8>>)
    requires
        covered(d),
    ensures
        scan_within(d, lo, hi),
{
    let all = lookup(d, all_key())->0;
    let w = keys_within(d, lo, hi);
    assert forall|x: u32| #[trigger] union_of(d, w).contains(x) implies all.contains(x) by {
        let k = choose|k: Seq<u8>| #[trigger] w.contains(k) && d[k] is Some && d[k]->0.contains(x);
        assert(d.contains_key(k));
    }
}

pub proof fn lemma_or_within_all<E>(qs: Seq<Query<E>>, d: Index, i: int, acc: Set<u32>)
    requires
        covered(d),
        acc.subset_of(lookup(d, all_key())->0),
    ensures
        eval_or(qs, d, lookup(d, all_key())->0, i, acc) matches Ok(s) ==> s.subset_of(
            lookup(d, all_key())->0,
        ),
    decreases qs, qs.len() - i,
{
    if 0 <= i < qs.len() {
        lemma_results_within_all(qs[i], d);
        if let Ok(r) = eval(qs[i], d) {
            lemma_or_within_all(qs, d, i + 1, acc.union(r));
        }
    }
}

pub proof fn lemma_and_within_all<E>(qs: Seq<Query<E>>, d: Index, i: int, acc: Set<u32>)
    requires
        covered(d),
        acc.subset_of(lookup(d, all_key())->0),
    ensures
        eval_and(qs, d, i, acc) matches Ok(s) ==> s.subset_of(lookup(d, all_key())->0),
    decreases qs, qs.len() - i,
{
    if 0 <= i < qs.len() && acc != Set::<u32>::empty() {
        if let Ok(r) = eval(qs[i], d) {
            lemma_and_within_all(qs, d, i + 1, acc.intersect(r));
        }
    }
}

/// `Nothing` matches nothing, `All` reads the set of every document, and `Not`
/// is the difference with it.
pub proof fn lemma_basic_queries<E>(q: Query<E>, d: Index)
    ensures
        eval(Filter::<Result<Vec<u8>, E>>::Nothing, d) == Ok::<Set<u32>, Fault<E>>(Set::<u32>::empty()),
        eval(Filter::<Result<Vec<u8>, E>>::All, d) == read::<E>(lookup(d, all_key())),
        (lookup(d, all_key()), eval(q, d)) matches (Some(a), Ok(s)) ==> eval(
            Filter::Not(Box::new(q)),
            d,
        ) == Ok::<Set<u32>, Fault<E>>(a.difference(s)),
{
}

/// On covered content, negating twice gives the query back.
pub proof fn lemma_double_negation<E>(q: Query<E>, d: Index)
    requires
        covered(d),
        eval(q, d) is Ok,
    ensures
        eval(Filter::Not(Box::new(Filter::Not(Box::new(q)))), d) == eval(q, d),
{
    lemma_results_within_all(q, d);
    let a = lookup(d, all_key())->0;
    let s = eval(q, d)->Ok_0;
    assert(eval(Filter::Not(Box::new(q)), d) == Ok::<Set<u32>, Fault<E>>(a.difference(s)));
    assert(a.difference(a.difference(s)) =~= s);
}

/// On covered content, an `Or` whose queries all read back a set is their
/// union: stopping once it holds every document changes nothing.
pub proof fn lemma_or_is_union<E>(qs: Vec<Query<E>>, d: Index)
    requires
        covered(d),
        all_read(qs@, d, 0),
    ensures
        eval(Filter::Or(qs), d) == Ok::<Set<u32>, Fault<E>>(union_of_results(qs@, d, 0)),
        union_of_results(qs@, d, 0).subset_of(lookup(d, all_key())->0),
{
    lemma_or_union_from(qs@, d, 0, Set::empty());
    assert(Set::<u32>::empty().union(union_of_results(qs@, d, 0)) =~= union_of_results(qs@, d, 0));
}

pub proof fn lemma_or_union_from<E>(qs: Seq<Query<E>>, d: Index, i: int, acc: Set<u32>)
    requires
        covered(d),
        all_read(qs, d, i),
        0 <= i,
        acc.subset_of(lookup(d, all_key())->0),
    ensures
        eval_or(qs, d, lookup(d, all_key())->0, i, acc) == Ok::<Set<u32>, Fault<E>>(acc.union(union_of_results(qs, d, i))),
        union_of_results(qs, d, i).subset_of(lookup(d, all_key())->0),
    decreases qs.len() - i,
{
    let all = lookup(d, all_key())->0;
    if i >= qs.len() {
        assert(acc.union(Set::empty()) =~= acc);
    } else {
        lemma_results_within_all(qs[i], d);
        assert(eval(qs[i], d) is Ok);
        let next = acc.union(eval(qs[i], d)->Ok_0);
        lemma_or_union_from(qs, d, i + 1, next);
        crate::bitmap::lemma_u32_set_finite(next);
        crate::bitmap::lemma_u32_set_finite(all);
        if next.len() == all.len() {
            vstd::set_lib::lemma_subset_equality(next, all);
            assert(next.union(union_of_results(qs, d, i + 1)) =~= next);
        }
        assert(acc.union(union_of_results(qs, d, i)) =~= next.union(union_of_results(qs, d, i + 1)));
    }
}

/// An `And` of at least one query, whose queries all read back a set, is their
/// intersection: stopping once it is empty changes nothing.
pub proof fn lemma_and_is_intersection<E>(qs: Vec<Query<E>>, d: Index)
    requires
        qs.len() > 0,
        all_read(qs@, d, 0),
    ensures
        eval(Filter::And(qs), d) == Ok::<Set<u32>, Fault<E>>(intersection_of_results(qs@, d, 0)),
{
    assert(eval(qs@[0], d) is Ok);
    lemma_and_intersection_from(qs@, d, 1, eval(qs@[0], d)->Ok_0);
}

pub proof fn lemma_and_intersection_from<E>(qs: Seq<Query<E>>, d: Index, i: int, acc: Set<u32>)
    requires
        all_read(qs, d, i),
        0 <= i,
    ensures
        eval_and(qs, d, i, acc) == Ok::<Set<u32>, Fault<E>>(acc.intersect(intersection_of_results(qs, d, i))),
    decreases qs.len() - i,
{
    if i >= qs.len() {
        assert(acc.intersect(Set::full()) =~= acc);
    } else if acc == Set::<u32>::empty() {
        assert(acc.intersect(intersection_of_results(qs, d, i)) =~= acc);
    } else {
        assert(eval(qs[i], d) is Ok);
        lemma_and_intersection_from(qs, d, i + 1, acc.intersect(eval(qs[i], d)->Ok_0));
        assert(acc.intersect(intersection_of_results(qs, d, i)) =~= acc.intersect(eval(qs[i], d)->Ok_0).intersect(
            intersection_of_results(qs, d, i + 1),
        ));
    }
}

/// The keys among the first `n` of `keys`.
pub open spec fn prefix_set(keys: Seq<Seq<u8>>, n: int) -> Set<Seq<u8>> {
    Set::new(|k: Seq<u8>| exists|j: int| 0 <= j < n && #[trigger] keys[j] == k)
}

/// Content `d` with `docid` added to the set stored under each key of `ks`
/// (a missing key read as the empty set); every other key as it was.
pub open spec fn with_doc(d: Index, docid: u32, ks: Set<Seq<u8>>) -> Index {
    Map::new(
        |k: Seq<u8>| d.contains_key(k) || ks.contains(k),
        |k: Seq<u8>|
            if ks.contains(k) {
                Some(lookup(d, k)->0.insert(docid))
            } else {
                d[k]
            },
    )
}

/// Every key of `ks` reads back a set in `d`.
pub open spec fn all_decode(d: Index, ks: Set<Seq<u8>>) -> bool {
    forall|k: Seq<u8>| #[trigger] ks.contains(k) ==> lookup(d, k) is Some
}

proof fn lemma_prefix_step(keys: Seq<Seq<u8>>, n: int)
    requires
        0 < n <= keys.len(),
    ensures
        prefix_set(keys, n) == prefix_set(keys, n - 1).insert(keys[n - 1]),
{
    assert forall|k: Seq<u8>| #[trigger] prefix_set(keys, n).contains(k) implies prefix_set(keys, n - 1).insert(keys[n - 1]).contains(k) by {
        let j = choose|j: int| 0 <= j < n && #[trigger] keys[j] == k;
        if j < n - 1 {
            assert(prefix_set(keys, n - 1).contains(k));
        }
    }
    assert forall|k: Seq<u8>| #[trigger] prefix_set(keys, n - 1).insert(keys[n - 1]).contains(k) implies prefix_set(keys, n).contains(k) by {
        if k != keys[n - 1] {
            let j = choose|j: int| 0 <= j < n - 1 && #[trigger] keys[j] == k;
            assert(keys[j] == k);
        } else {
            assert(keys[n - 1] == k);
        }
    }
    assert(prefix_set(keys, n) =~= prefix_set(keys, n - 1).insert(keys[n - 1]));
}

/// Recording a document under the first `n` keys succeeds exactly when every
/// one of them reads back a set beforehand, and then adds the document to the
/// set of each of them and changes nothing else: the closed form of what
/// `insert` writes.
pub proof fn lemma_insert_closed_form(d0: Index, docid: u32, keys: Seq<Seq<u8>>, n: nat)
    requires
        n <= keys.len(),
    ensures
        add_doc_prefix(d0, docid, keys, n) is Some <==> all_decode(d0, prefix_set(keys, n as int)),
        add_doc_prefix(d0, docid, keys, n) is Some ==> add_doc_prefix(d0, docid, keys, n) == Some(
            with_doc(d0, docid, prefix_set(keys, n as int)),
        ),
    decreases n,
{
    if n == 0 {
        assert(prefix_set(keys, 0) =~= Set::<Seq<u8>>::empty());
        assert(with_doc(d0, docid, Set::empty()) =~= d0);
    } else {
        lemma_insert_closed_form(d0, docid, keys, (n - 1) as nat);
        lemma_prefix_step(keys, n as int);
        let k = keys[n - 1];
        let ps = prefix_set(keys, n - 1);
        if add_doc_prefix(d0, docid, keys, (n - 1) as nat) is Some {
            let prev = with_doc(d0, docid, ps);
            if ps.contains(k) {
                assert(lookup(prev, k) == Some(lookup(d0, k)->0.insert(docid)));
                assert(lookup(d0, k)->0.insert(docid).insert(docid) =~= lookup(d0, k)->0.insert(docid));
                assert(prev.insert(k, Some(lookup(prev, k)->0.insert(docid))) =~= with_doc(d0, docid, ps.insert(k)));
            } else {
                if d0.contains_key(k) {
                    assert(lookup(prev, k) == lookup(d0, k));
                } else {
                    assert(!prev.contains_key(k));
                }
                if lookup(d0, k) is Some {
                    assert(prev.insert(k, Some(lookup(prev, k)->0.insert(docid))) =~= with_doc(d0, docid, ps.insert(k)));
                }
            }
            if lookup(d0, k) is Some {
                assert forall|k2: Seq<u8>| #[trigger] ps.insert(k).contains(k2) implies lookup(d0, k2) is Some by {
                    if k2 != k {
                        assert(ps.contains(k2));
                    }
                }
            } else {
                assert(ps.insert(k).contains(k));
            }
        } else {
            let bad = choose|k2: Seq<u8>| #[trigger] ps.contains(k2) && !(lookup(d0, k2) is Some);
            assert(ps.insert(k).contains(bad));
        }
    }
}

/// Whatever the outcome of an insert, no document leaves the set it was in.
pub proof fn lemma_insert_never_removes(d0: Index, d1: Index, docid: u32, keys: Seq<Seq<u8>>, n: nat, k: Seq<u8>)
    requires
        n <= keys.len(),
        add_doc_prefix(d0, docid, keys, n) == Some(d1),
        lookup(d0, k) is Some,
    ensures
        lookup(d1, k) matches Some(s1) && lookup(d0, k)->0.subset_of(s1),
{
    lemma_insert_closed_form(d0, docid, keys, n);
}

/// Whatever the outcome of an insert, covered content of this index's layout
/// stays so: the document reaches the set of every document before any other.
pub proof fn lemma_insert_keeps_covered(d0: Index, d1: Index, docid: u32, values: Seq<Vec<u8>>, n: nat)
    requires
        covered(d0),
        forall|k: Seq<u8>| #[trigger] d0.contains_key(k) ==> own_key(k),
        n <= values.len() + 1,
        add_doc_prefix(d0, docid, insert_keys(values), n) == Some(d1),
    ensures
        covered(d1),
        forall|k: Seq<u8>| #[trigger] d1.contains_key(k) ==> own_key(k),
{
    let keys = insert_keys(values);
    lemma_insert_closed_form(d0, docid, keys, n);
    let ps = prefix_set(keys, n as int);
    let all0 = lookup(d0, all_key())->0;
    assert forall|k: Seq<u8>| #[trigger] ps.contains(k) implies own_key(k) by {
        let j = choose|j: int| 0 <= j < n && #[trigger] keys[j] == k;
        if j > 0 {
            assert(keys[j] == entry_key(values[j - 1]@));
        }
    }
    if n > 0 {
        assert(keys[0] == all_key());
        assert(ps.contains(all_key()));
        let all1 = all0.insert(docid);
        assert(lookup(d1, all_key()) == Some(all1));
        assert forall|k: Seq<u8>| #[trigger] d1.contains_key(k) && d1[k] is Some implies d1[k]->0.subset_of(all1) by {
            if ps.contains(k) {
                assert(lookup(d0, k) is Some);
                if d0.contains_key(k) {
                    assert(d0[k]->0.subset_of(all0));
                }
            } else {
                assert(d0[k]->0.subset_of(all0));
            }
        }
    } else {
        assert(d1 == d0);
    }
}

/// Inserting the same document with the same values again changes nothing.
pub proof fn lemma_insert_idempotent(d0: Index, d1: Index, docid: u32, values: Seq<Vec<u8>>)
    requires
        add_doc_prefix(d0, docid, insert_keys(values), values.len() + 1) == Some(d1),
    ensures
        add_doc_prefix(d1, docid, insert_keys(values), values.len() + 1) == Some(d1),
{
    let keys = insert_keys(values);
    let n = (values.len() + 1) as nat;
    let ps = prefix_set(keys, n as int);
    lemma_insert_closed_form(d0, docid, keys, n);
    lemma_insert_closed_form(d1, docid, keys, n);
    assert(all_decode(d1, ps));
    assert(with_doc(d1, docid, ps) =~= d1) by {
        assert forall|k: Seq<u8>| #[trigger] ps.contains(k) implies lookup(d1, k)->0.insert(docid) == lookup(d1, k)->0 by {
            assert(lookup(d1, k)->0.insert(docid) =~= lookup(d1, k)->0);
        }
    }
}

/// Two inserts that both succeed give the same content in either order, and
/// the content depends on the set of values only (not on their order or on
/// repetitions).
pub proof fn lemma_inserts_commute(
    d0: Index,
    d1: Index,
    d2: Index,
    a: u32,
    va: Seq<Vec<u8>>,
    b: u32,
    vb: Seq<Vec<u8>>,
)
    requires
        add_doc_prefix(d0, a, insert_keys(va), va.len() + 1) == Some(d1),
        add_doc_prefix(d1, b, insert_keys(vb), vb.len() + 1) == Some(d2),
    ensures
        add_doc_prefix(d0, b, insert_keys(vb), vb.len() + 1) matches Some(e1) && add_doc_prefix(
            e1,
            a,
            insert_keys(va),
            va.len() + 1,
        ) == Some(d2),
{
    let ka = insert_keys(va);
    let kb = insert_keys(vb);
    let na = (va.len() + 1) as nat;
    let nb = (vb.len() + 1) as nat;
    let pa = prefix_set(ka, na as int);
    let pb = prefix_set(kb, nb as int);
    lemma_insert_closed_form(d0, a, ka, na);
    lemma_insert_closed_form(d1, b, kb, nb);
    assert(all_decode(d0, pb)) by {
        assert forall|k: Seq<u8>| #[trigger] pb.contains(k) implies lookup(d0, k) is Some by {
            assert(lookup(d1, k) is Some);
            if !pa.contains(k) {
                if d0.contains_key(k) {
                    assert(lookup(d1, k) == lookup(d0, k));
                }
            }
        }
    }
    lemma_insert_closed_form(d0, b, kb, nb);
    let e1 = with_doc(d0, b, pb);
    assert(all_decode(e1, pa));
    lemma_insert_closed_form(e1, a, ka, na);
    assert(with_doc(e1, a, pa) =~= d2) by {
        assert forall|k: Seq<u8>| #[trigger] with_doc(e1, a, pa).contains_key(k) implies with_doc(e1, a, pa)[k] == d2[k] by {
            if pa.contains(k) && pb.contains(k) {
                assert(lookup(d0, k)->0.insert(b).insert(a) =~= lookup(d0, k)->0.insert(a).insert(b));
            }
        }
    }
}

/// Two lists of values with the same set of encodings leave the same content.
pub proof fn lemma_insert_depends_on_value_set(
    d0: Index,
    docid: u32,
    v1: Seq<Vec<u8>>,
    v2: Seq<Vec<u8>>,
)
    requires
        value_set(v1, v1.len() as int) == value_set(v2, v2.len() as int),
        add_doc_prefix(d0, docid, insert_keys(v1), v1.len() + 1) is Some,
    ensures
        add_doc_prefix(d0, docid, insert_keys(v2), v2.len() + 1) == add_doc_prefix(
            d0,
            docid,
            insert_keys(v1),
            v1.len() + 1,
        ),
{
    let k1 = insert_keys(v1);
    let k2 = insert_keys(v2);
    lemma_key_set(v1);
    lemma_key_set(v2);
    assert(prefix_set(k1, v1.len() + 1 as int) =~= prefix_set(k2, v2.len() + 1 as int));
    lemma_insert_closed_form(d0, docid, k1, (v1.len() + 1) as nat);
    lemma_insert_closed_form(d0, docid, k2, (v2.len() + 1) as nat);
}

/// The keys an insert writes: the key of every document and the entry keys of
/// the values.
proof fn lemma_key_set(vs: Seq<Vec<u8>>)
    ensures
        forall|k: Seq<u8>|
            #[trigger] prefix_set(insert_keys(vs), vs.len() + 1 as int).contains(k) <==> (k == all_key()
                || exists|v: Seq<u8>| value_set(vs, vs.len() as int).contains(v) && k == entry_key(v)),
{
    let keys = insert_keys(vs);
    assert forall|k: Seq<u8>| #[trigger] prefix_set(keys, vs.len() + 1 as int).contains(k) implies (k == all_key()
        || exists|v: Seq<u8>| value_set(vs, vs.len() as int).contains(v) && k == entry_key(v)) by {
        let j = choose|j: int| 0 <= j < vs.len() + 1 && #[trigger] keys[j] == k;
        if j > 0 {
            assert(keys[j] == entry_key(vs[j - 1]@));
            assert(value_set(vs, vs.len() as int).contains(vs[j - 1]@));
        }
    }
    assert forall|k: Seq<u8>| (k == all_key() || exists|v: Seq<u8>|
        value_set(vs, vs.len() as int).contains(v) && k == entry_key(v)) implies #[trigger] prefix_set(keys, vs.len() + 1 as int).contains(k) by {
        if k == all_key() {
            assert(keys[0] == k);
        } else {
            let v = choose|v: Seq<u8>| value_set(vs, vs.len() as int).contains(v) && k == entry_key(v);
            let j = choose|j: int| 0 <= j < vs.len() && #[trigger] vs[j]@ == v;
            assert(keys[j + 1] == k);
        }
    }
}

/// The keys under which a document with the values encoded as `vs` is
/// recorded: the key of every document and the entry key of each value.
pub open spec fn document_keys(vs: Seq<Vec<u8>>) -> Set<Seq<u8>> {
    Set::new(
        |k: Seq<u8>|
            k == all_key() || exists|v: Seq<u8>| #[trigger]
                value_set(vs, vs.len() as int).contains(v) && k == entry_key(v),
    )
}

/// The keys an insert writes, all of them, make up the document's keys.
proof fn lemma_document_keys(vs: Seq<Vec<u8>>)
    ensures
        prefix_set(insert_keys(vs), vs.len() + 1 as int) == document_keys(vs),
{
    lemma_key_set(vs);
    assert(prefix_set(insert_keys(vs), vs.len() + 1 as int) =~= document_keys(vs));
}

/// Whatever an insert returns, it has recorded the document under the first
/// `j` of the keys of the values before the first that could not be encoded:
/// under all of them when it succeeded or stopped at such a value.
pub proof fn lemma_insert_wrote_prefix<E>(
    d0: Index,
    d1: Index,
    docid: u32,
    values: Seq<Result<Vec<u8>, E>>,
    r: Result<(), crate::Error<E>>,
) -> (j: nat)
    requires
        crate::insert_outcome(d0, d1, docid, values, r),
    ensures
        j <= first_stop(values) + 1,
        add_doc_prefix(d0, docid, insert_keys(encodings(values, first_stop(values))), j) == Some(
            d1,
        ),
        (r is Ok || r matches Err(crate::Error::CouldNotEncodeValue(_))) ==> j
            == first_stop(values) + 1,
{
    lemma_first_stop(values);
    let n = first_stop(values);
    let keys = insert_keys(encodings(values, n));
    assert(keys.len() == n + 1);
    match r {
        Ok(()) => keys.len(),
        Err(crate::Error::CouldNotEncodeValue(_)) => keys.len(),
        Err(e) => {
            let j = choose|j: nat|
                j < keys.len() && #[trigger] add_doc_prefix(d0, docid, keys, j) == Some(d1) && (
                e is CouldNotEncodeOrDecodeRoaring ==> add_doc(d1, docid, keys[j as int]) is None);
            j
        },
    }
}

/// The closed form of an insert that succeeded, or stopped at a value that
/// could not be encoded: the document is added to the set stored under each
/// key of the values before that one (a missing key read as the empty set),
/// the key of every document included, and every other key is as it was.
pub proof fn lemma_insert_closed_form_outcome<E>(
    d0: Index,
    d1: Index,
    docid: u32,
    values: Seq<Result<Vec<u8>, E>>,
    r: Result<(), crate::Error<E>>,
)
    requires
        crate::insert_outcome(d0, d1, docid, values, r),
        r is Ok || r matches Err(crate::Error::CouldNotEncodeValue(_)),
    ensures
        d1 == with_doc(
            d0,
            docid,
            document_keys(encodings(values, first_stop(values))),
        ),
        r is Ok ==> first_stop(values) == values.len(),
{
    lemma_first_stop(values);
    let ev = encodings(values, first_stop(values));
    let j = lemma_insert_wrote_prefix(d0, d1, docid, values, r);
    lemma_insert_closed_form(d0, docid, insert_keys(ev), j);
    lemma_document_keys(ev);
}

/// Whatever an insert returns, no document leaves a set it was in, and a set
/// that read back still does.
pub proof fn lemma_insert_outcome_never_removes<E>(
    d0: Index,
    d1: Index,
    docid: u32,
    values: Seq<Result<Vec<u8>, E>>,
    r: Result<(), crate::Error<E>>,
    k: Seq<u8>,
)
    requires
        crate::insert_outcome(d0, d1, docid, values, r),
        lookup(d0, k) is Some,
    ensures
        lookup(d1, k) matches Some(s1) && lookup(d0, k)->0.subset_of(s1),
{
    lemma_first_stop(values);
    let keys = insert_keys(encodings(values, first_stop(values)));
    let j = lemma_insert_wrote_prefix(d0, d1, docid, values, r);
    lemma_insert_never_removes(d0, d1, docid, keys, j, k);
}

/// Whatever an insert returns, content of this index's layout whose every
/// stored set lies within the set of every document stays so.
pub proof fn lemma_insert_outcome_keeps_covered<E>(
    d0: Index,
    d1: Index,
    docid: u32,
    values: Seq<Result<Vec<u8>, E>>,
    r: Result<(), crate::Error<E>>,
)
    requires
        crate::insert_outcome(d0, d1, docid, values, r),
        covered(d0),
        forall|k: Seq<u8>| #[trigger] d0.contains_key(k) ==> own_key(k),
    ensures
        covered(d1),
        forall|k: Seq<u8>| #[trigger] d1.contains_key(k) ==> own_key(k),
{
    lemma_first_stop(values);
    let ev = encodings(values, first_stop(values));
    let j = lemma_insert_wrote_prefix(d0, d1, docid, values, r);
    lemma_insert_keeps_covered(d0, d1, docid, ev, j);
}

/// Inserting the same document with the same values a second time, after a
/// first insert that succeeded, leaves the content as it was if it succeeds.
pub proof fn lemma_insert_outcome_idempotent<E>(
    d0: Index,
    d1: Index,
    d2: Index,
    docid: u32,
    values: Seq<Result<Vec<u8>, E>>,
    r2: Result<(), crate::Error<E>>,
)
    requires
        crate::insert_outcome(d0, d1, docid, values, Ok(())),
        crate::insert_outcome(d1, d2, docid, values, r2),
        r2 is Ok,
    ensures
        d2 == d1,
{
    let ev = encodings(values, values.len() as int);
    lemma_insert_idempotent(d0, d1, docid, ev);
}

/// Two inserts that succeed give the same content in either order.
pub proof fn lemma_insert_outcomes_commute<E>(
    d0: Index,
    d1: Index,
    d2: Index,
    e1: Index,
    e2: Index,
    a: u32,
    va: Seq<Result<Vec<u8>, E>>,
    b: u32,
    vb: Seq<Result<Vec<u8>, E>>,
)
    requires
        crate::insert_outcome(d0, d1, a, va, Ok(())),
        crate::insert_outcome(d1, d2, b, vb, Ok(())),
        crate::insert_outcome(d0, e1, b, vb, Ok(())),
        crate::insert_outcome(e1, e2, a, va, Ok(())),
    ensures
        e2 == d2,
{
    lemma_inserts_commute(
        d0,
        d1,
        d2,
        a,
        encodings(va, va.len() as int),
        b,
        encodings(vb, vb.len() as int),
    );
}

/// Two inserts of a document that succeed, with lists of values that hold
/// the same encodings (in any order, repeated or not), leave the same content.
pub proof fn lemma_insert_outcome_depends_on_value_set<E>(
    d0: Index,
    d1: Index,
    d2: Index,
    docid: u32,
    v1: Seq<Result<Vec<u8>, E>>,
    v2: Seq<Result<Vec<u8>, E>>,
)
    requires
        crate::insert_outcome(d0, d1, docid, v1, Ok(())),
        crate::insert_outcome(d0, d2, docid, v2, Ok(())),
        value_set(encodings(v1, v1.len() as int), v1.len() as int) == value_set(
            encodings(v2, v2.len() as int),
            v2.len() as int,
        ),
    ensures
        d1 == d2,
{
    lemma_insert_depends_on_value_set(
        d0,
        docid,
        encodings(v1, v1.len() as int),
        encodings(v2, v2.len() as int),
    );
}

/// Two reads of queries with the same meaning give the same documents when
/// both succeed; where one succeeds, the other can fail only on the storage
/// engine. Applies to a comparison and its range (`lemma_comparisons_are_ranges`)
/// and to a doubly negated query and the query (`lemma_double_negation`).
pub proof fn lemma_same_meaning_same_answer<E>(
    m: Result<Set<u32>, Fault<E>>,
    r1: Result<RoaringBitmap, crate::Error<E>>,
    r2: Result<RoaringBitmap, crate::Error<E>>,
)
    requires
        crate::outcome(m, r1),
        crate::outcome(m, r2),
    ensures
        (r1, r2) matches (Ok(b1), Ok(b2)) ==> bitmap_set(b1) == bitmap_set(b2),
        r1 is Ok && r2 is Err ==> r2->Err_0 is Fjall,
{
}

/// On content that holds a set of documents, no query whose values fit the
/// storage engine reaches a key on which the index panics: `filter`'s
/// `requires` holds of it.
pub proof fn lemma_own_layout_never_halts<E>(f: Query<E>, d: Index, docs: Docs)
    requires
        represents(d, docs),
        query_fits(f),
    ensures
        !crate::halts(eval(f, d)),
    decreases f, 0nat,
{
    match f {
        Filter::Not(q) => lemma_own_layout_never_halts(*q, d, docs),
        Filter::Or(qs) => {
            if let Some(all) = lookup(d, all_key()) {
                lemma_or_never_halts(qs@, d, docs, all, 0, Set::empty());
            }
        },
        Filter::And(qs) => {
            if qs.len() > 0 {
                assert(all_fit(qs@, 0));
                lemma_own_layout_never_halts(qs@[0], d, docs);
                if let Ok(r) = eval(qs@[0], d) {
                    lemma_and_never_halts(qs@, d, docs, 1, r);
                }
            }
        },
        Filter::LessThan(v) => lemma_scan_never_halts::<E>(d, docs, Bound::Unbounded, enc_bound(Bound::Excluded(v))),
        Filter::LessThanOrEqual(v) => lemma_scan_never_halts::<E>(d, docs, Bound::Unbounded, enc_bound(Bound::Included(v))),
        Filter::MoreThan(v) => lemma_scan_never_halts::<E>(d, docs, enc_bound(Bound::Excluded(v)), Bound::Unbounded),
        Filter::MoreThanOrEqual(v) => lemma_scan_never_halts::<E>(d, docs, enc_bound(Bound::Included(v)), Bound::Unbounded),
        Filter::Range((start, end)) => lemma_scan_never_halts::<E>(d, docs, enc_bound(start), enc_bound(end)),
        _ => {},
    }
}

proof fn lemma_scan_never_halts<E>(d: Index, docs: Docs, start: Bound<Seq<u8>>, end: Bound<Seq<u8>>)
    requires
        represents(d, docs),
    ensures
        !crate::halts(scan_result::<E>(d, start, end)),
{
    assert forall|k: Seq<u8>|
        #[trigger] keys_within(d, lower_key(start), upper_key(end)).contains(k) implies !foreign(
        k,
    ) by {
        lemma_represents_no_foreign_key(d, docs, k);
    }
}

proof fn lemma_or_never_halts<E>(
    qs: Seq<Query<E>>,
    d: Index,
    docs: Docs,
    all: Set<u32>,
    i: int,
    acc: Set<u32>,
)
    requires
        represents(d, docs),
        all_fit(qs, i),
    ensures
        !crate::halts(eval_or(qs, d, all, i, acc)),
    decreases qs, qs.len() - i,
{
    if 0 <= i < qs.len() {
        lemma_own_layout_never_halts(qs[i], d, docs);
        if let Ok(r) = eval(qs[i], d) {
            lemma_or_never_halts(qs, d, docs, all, i + 1, acc.union(r));
        }
    }
}

proof fn lemma_and_never_halts<E>(qs: Seq<Query<E>>, d: Index, docs: Docs, i: int, acc: Set<u32>)
    requires
        represents(d, docs),
        all_fit(qs, i),
    ensures
        !crate::halts(eval_and(qs, d, i, acc)),
    decreases qs, qs.len() - i,
{
    if 0 <= i < qs.len() && acc != Set::<u32>::empty() {
        lemma_own_layout_never_halts(qs[i], d, docs);
        if let Ok(r) = eval(qs[i], d) {
            lemma_and_never_halts(qs, d, docs, i + 1, acc.intersect(r));
        }
    }
}

/// An insert stops early (`None`) only at a value whose encoding is 65535
/// bytes or longer, and fails on encoding only with the error of one of its
/// values. So an insert whose values all encode to fewer than 65535 bytes (the
/// empty encoding included) never stops early, and when it succeeds every
/// value's key holds the document.
pub proof fn lemma_try_insert_stops_only_on_long_values<E>(
    d0: Index,
    d1: Index,
    docid: u32,
    values: Seq<Result<Vec<u8>, E>>,
    r: Result<Option<()>, crate::Error<E>>,
)
    requires
        crate::try_insert_outcome(d0, d1, docid, values, r),
    ensures
        r matches Ok(None) ==> exists|i: int|
            0 <= i < values.len() && (#[trigger] values[i]) is Ok && values[i]->Ok_0.len() >= 65535,
        r matches Err(crate::Error::CouldNotEncodeValue(e)) ==> exists|i: int|
            0 <= i < values.len() && #[trigger] values[i] == Err::<Vec<u8>, E>(e),
        (forall|i: int|
            0 <= i < values.len() ==> (#[trigger] values[i]) is Ok && values[i]->Ok_0.len()
                < 65535) ==> {
            &&& !(r matches Ok(None))
            &&& !(r matches Err(crate::Error::CouldNotEncodeValue(_)))
            &&& r matches Ok(Some(_)) ==> d1 == with_doc(
                d0,
                docid,
                document_keys(encodings(values, values.len() as int)),
            )
        },
{
    lemma_first_stop(values);
    let n = first_stop(values);
    if n < values.len() {
        assert(crate::model::stops(values[n]));
    }
    if forall|i: int|
        0 <= i < values.len() ==> (#[trigger] values[i]) is Ok && values[i]->Ok_0.len() < 65535 {
        if n < values.len() {
            assert(values[n] is Ok && values[n]->Ok_0.len() < 65535);
        }
        assert(n == values.len());
        if r matches Ok(Some(_)) {
            lemma_insert_closed_form_outcome(d0, d1, docid, values, Ok(()));
        }
    }
}

/// Every value of a query that was encoded has fewer than `n` bytes.
pub open spec fn values_shorter_than<E>(f: Query<E>, n: nat) -> bool
    decreases f, 0nat,
{
    match f {
        Filter::Not(q) => values_shorter_than(*q, n),
        Filter::Or(qs) => forall|i: int| 0 <= i < qs.len() ==> values_shorter_than(#[trigger] qs@[i], n),
        Filter::And(qs) => forall|i: int| 0 <= i < qs.len() ==> values_shorter_than(#[trigger] qs@[i], n),
        Filter::LessThan(v) => v matches Ok(b) ==> b.len() < n,
        Filter::LessThanOrEqual(v) => v matches Ok(b) ==> b.len() < n,
        Filter::MoreThan(v) => v matches Ok(b) ==> b.len() < n,
        Filter::MoreThanOrEqual(v) => v matches Ok(b) ==> b.len() < n,
        Filter::Equal(v) => v matches Ok(b) ==> b.len() < n,
        Filter::Range((start, end)) => {
            &&& (start matches Bound::Included(Ok(b)) ==> b.len() < n)
            &&& (start matches Bound::Excluded(Ok(b)) ==> b.len() < n)
            &&& (end matches Bound::Included(Ok(b)) ==> b.len() < n)
            &&& (end matches Bound::Excluded(Ok(b)) ==> b.len() < n)
        },
        _ => true,
    }
}

/// A query whose values all encode to fewer than 65535 bytes never fails on
/// the length of a key, whatever the store holds.
pub proof fn lemma_short_values_never_too_long<E>(f: Query<E>, d: Index)
    requires
        values_shorter_than(f, 65535),
    ensures
        eval(f, d) != Err::<Set<u32>, Fault<E>>(Fault::KeyTooLong),
    decreases f, 0nat,
{
    match f {
        Filter::Not(q) => lemma_short_values_never_too_long(*q, d),
        Filter::Or(qs) => {
            if let Some(all) = lookup(d, all_key()) {
                lemma_or_never_too_long(qs@, d, all, 0, Set::empty());
            }
        },
        Filter::And(qs) => {
            if qs.len() > 0 {
                assert(values_shorter_than(qs@[0], 65535));
                lemma_short_values_never_too_long(qs@[0], d);
                if let Ok(r) = eval(qs@[0], d) {
                    lemma_and_never_too_long(qs@, d, 1, r);
                }
            }
        },
        _ => {},
    }
}

proof fn lemma_or_never_too_long<E>(qs: Seq<Query<E>>, d: Index, all: Set<u32>, i: int, acc: Set<u32>)
    requires
        forall|j: int| 0 <= j < qs.len() ==> values_shorter_than(#[trigger] qs[j], 65535),
    ensures
        eval_or(qs, d, all, i, acc) != Err::<Set<u32>, Fault<E>>(Fault::KeyTooLong),
    decreases qs, qs.len() - i,
{
    if 0 <= i < qs.len() {
        lemma_short_values_never_too_long(qs[i], d);
        if let Ok(r) = eval(qs[i], d) {
            lemma_or_never_too_long(qs, d, all, i + 1, acc.union(r));
        }
    }
}

proof fn lemma_and_never_too_long<E>(qs: Seq<Query<E>>, d: Index, i: int, acc: Set<u32>)
    requires
        forall|j: int| 0 <= j < qs.len() ==> values_shorter_than(#[trigger] qs[j], 65535),
    ensures
        eval_and(qs, d, i, acc) != Err::<Set<u32>, Fault<E>>(Fault::KeyTooLong),
    decreases qs, qs.len() - i,
{
    if 0 <= i < qs.len() && acc != Set::<u32>::empty() {
        lemma_short_values_never_too_long(qs[i], d);
        if let Ok(r) = eval(qs[i], d) {
            lemma_and_never_too_long(qs, d, i + 1, acc.intersect(r));
        }
    }
}

} // verus!
