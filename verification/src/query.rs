//! The query language: a tree of filters over the indexed values.
use vstd::prelude::*;
use vstd::string::StringExecFns;

verus! {

/// One end of a range, as `std::ops::Bound` has it.
#[derive(Debug, Clone)]
pub enum Bound<V> {
    Included(V),
    Excluded(V),
    Unbounded,
}

impl<V: View> View for Bound<V> {
    type V = Bound<V::V>;

    open spec fn view(&self) -> Bound<V::V> {
        match self {
            Bound::Included(v) => Bound::Included(v@),
            Bound::Excluded(v) => Bound::Excluded(v@),
            Bound::Unbounded => Bound::Unbounded,
        }
    }
}

/// A query over the values of the documents.
///
/// A leaf holds a value: for [`crate::SkipList::filter`] that is the value's
/// encoding (bytes), whose byte-wise order is the order of the index, or the
/// error that encoding it gave; for [`Filter::display_with`] it is the value
/// already written out as text.
#[derive(Debug)]
pub enum Filter<V> {
    /// Matches no document.
    Nothing,
    /// Matches every document.
    All,
    /// Matches the documents that the inner filter does not match.
    Not(Box<Filter<V>>),
    /// Matches the documents that any inner filter matches.
    Or(Vec<Filter<V>>),
    /// Matches the documents that every inner filter matches.
    And(Vec<Filter<V>>),
    LessThan(V),
    LessThanOrEqual(V),
    MoreThan(V),
    MoreThanOrEqual(V),
    Equal(V),
    Range((Bound<V>, Bound<V>)),
}

impl<V> Filter<V> {
    /// The filter that matches the values between `start` and `end`.
    pub fn range(start: Bound<V>, end: Bound<V>) -> (f: Self)
        ensures
            f == Filter::Range((start, end)),
    {
        Filter::Range((start, end))
    }
}


/// The text of a bound that opens a range: the value, followed by `-` where it
/// is excluded.
pub open spec fn start_text(b: Bound<String>) -> Seq<char> {
    match b {
        Bound::Included(v) => v@,
        Bound::Excluded(v) => v@ + "-"@,
        Bound::Unbounded => Seq::empty(),
    }
}

/// The text of a bound that closes a range: the value, preceded by `=` where
/// it is included.
pub open spec fn end_text(b: Bound<String>) -> Seq<char> {
    match b {
        Bound::Included(v) => "="@ + v@,
        Bound::Excluded(v) => v@,
        Bound::Unbounded => Seq::empty(),
    }
}

/// How a query whose values are already written out reads as text.
pub open spec fn render(f: Filter<String>) -> Seq<char>
    decreases f, 0nat,
{
    match f {
        Filter::Nothing => "[NONE]"@,
        Filter::All => "[ALL]"@,
        Filter::Not(q) => "[NOT] "@ + render(*q),
        Filter::Or(qs) => render_joined(qs@, " [OR] "@, qs.len() as int),
        Filter::And(qs) => render_joined(qs@, " [AND] "@, qs.len() as int),
        Filter::LessThan(v) => "[ITEM] < "@ + v@,
        Filter::LessThanOrEqual(v) => "[ITEM] <= "@ + v@,
        Filter::MoreThan(v) => "[ITEM] > "@ + v@,
        Filter::MoreThanOrEqual(v) => "[ITEM] >= "@ + v@,
        Filter::Equal(v) => "[ITEM] = "@ + v@,
        Filter::Range((start, end)) => start_text(start) + ".."@ + end_text(end),
    }
}

/// The texts of the first `n` queries of `qs`, separated by `sep`.
pub open spec fn render_joined(qs: Seq<Filter<String>>, sep: Seq<char>, n: int) -> Seq<char>
    decreases qs, n,
{
    if n <= 0 || n > qs.len() {
        Seq::empty()
    } else if n == 1 {
        render(qs[0])
    } else {
        render_joined(qs, sep, n - 1) + sep + render(qs[n - 1])
    }
}

impl Filter<String> {
    /// The query as text, its values being written as they stand.
    pub fn display_with(&self) -> (text: String)
        ensures
            text@ == render(*self),
        decreases self,
    {
        match self {
            Filter::Nothing => String::from_str("[NONE]"),
            Filter::All => String::from_str("[ALL]"),
            Filter::Not(q) => {
                let inner = q.display_with();
                String::from_str("[NOT] ").concat(inner.as_str())
            },
            Filter::Or(qs) => {
                let mut output = String::new();
                let mut idx: usize = 0;
                while idx < qs.len()
                    invariant
                        idx <= qs.len(),
                        output@ == render_joined(qs@, " [OR] "@, idx as int),
                        *self == Filter::Or(*qs),
                    decreases qs.len() - idx,
                {
                    if idx != 0 {
                        output.append(" [OR] ");
                    }
                    proof {
                        assert(decreases_to!(*self => self->Or_0));
                        assert(decreases_to!(*self => *qs));
                        assert(decreases_to!(*qs => qs@));
                        assert(decreases_to!(qs@ => qs@[idx as int]));
                    }
                    let text = qs[idx].display_with();
                    output.append(text.as_str());
                    idx = idx + 1;
                }
                output
            },
            Filter::And(qs) => {
                let mut output = String::new();
                let mut idx: usize = 0;
                while idx < qs.len()
                    invariant
                        idx <= qs.len(),
                        output@ == render_joined(qs@, " [AND] "@, idx as int),
                        *self == Filter::And(*qs),
                    decreases qs.len() - idx,
                {
                    if idx != 0 {
                        output.append(" [AND] ");
                    }
                    proof {
                        assert(decreases_to!(*self => self->And_0));
                        assert(decreases_to!(*self => *qs));
                        assert(decreases_to!(*qs => qs@));
                        assert(decreases_to!(qs@ => qs@[idx as int]));
                    }
                    let text = qs[idx].display_with();
                    output.append(text.as_str());
                    idx = idx + 1;
                }
                output
            },
            Filter::LessThan(v) => String::from_str("[ITEM] < ").concat(v.as_str()),
            Filter::LessThanOrEqual(v) => String::from_str("[ITEM] <= ").concat(v.as_str()),
            Filter::MoreThan(v) => String::from_str("[ITEM] > ").concat(v.as_str()),
            Filter::MoreThanOrEqual(v) => String::from_str("[ITEM] >= ").concat(v.as_str()),
            Filter::Equal(v) => String::from_str("[ITEM] = ").concat(v.as_str()),
            Filter::Range((start, end)) => {
                let mut ret = String::new();
                match start {
                    Bound::Included(s) => ret.append(s.as_str()),
                    Bound::Excluded(s) => {
                        ret.append(s.as_str());
                        ret.append("-");
                    },
                    Bound::Unbounded => {},
                }
                ret.append("..");
                match end {
                    Bound::Included(e) => {
                        ret.append("=");
                        ret.append(e.as_str());
                    },
                    Bound::Excluded(e) => ret.append(e.as_str()),
                    Bound::Unbounded => {},
                }
                ret
            },
        }
    }
}

/// The text of the first `n` queries depends on those queries only.
proof fn lemma_joined_prefix(a: Seq<Filter<String>>, b: Seq<Filter<String>>, sep: Seq<char>, n: int)
    requires
        0 <= n <= a.len(),
        n <= b.len(),
        forall|i: int| 0 <= i < n ==> a[i] == b[i],
    ensures
        render_joined(a, sep, n) == render_joined(b, sep, n),
    decreases n,
{
    if n > 1 {
        lemma_joined_prefix(a, b, sep, n - 1);
    }
}

/// An `Or` or an `And` reads as the texts of all its queries, in order, each
/// after the first preceded by ` [OR] ` (or ` [AND] `): the empty list reads as
/// nothing, and adding a query at the end adds its text after the separator.
pub proof fn lemma_list_text(qs: Vec<Filter<String>>, longer: Vec<Filter<String>>, q: Filter<String>)
    requires
        longer@ == qs@.push(q),
    ensures
        qs.len() == 0 ==> render(Filter::Or(qs)) == Seq::<char>::empty() && render(Filter::And(qs))
            == Seq::<char>::empty(),
        render(Filter::Or(longer)) == (if qs.len() == 0 {
            render(q)
        } else {
            render(Filter::Or(qs)) + " [OR] "@ + render(q)
        }),
        render(Filter::And(longer)) == (if qs.len() == 0 {
            render(q)
        } else {
            render(Filter::And(qs)) + " [AND] "@ + render(q)
        }),
{
    let n = qs@.len() as int;
    assert(longer@.len() == n + 1);
    assert(longer@[n] == q);
    lemma_joined_prefix(longer@, qs@, " [OR] "@, n);
    lemma_joined_prefix(longer@, qs@, " [AND] "@, n);
    assert(render(Filter::Or(longer)) == render_joined(longer@, " [OR] "@, n + 1));
    assert(render(Filter::And(longer)) == render_joined(longer@, " [AND] "@, n + 1));
    assert(render(Filter::Or(qs)) == render_joined(qs@, " [OR] "@, n));
    assert(render(Filter::And(qs)) == render_joined(qs@, " [AND] "@, n));
}

} // verus!
