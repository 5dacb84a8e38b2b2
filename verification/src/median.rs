use crate::scale::rank;
use crate::scale::rank_of;
use crate::scale::NEGATIVE_ZERO;
use crate::scale::ZERO;
use vstd::prelude::*;
use vstd::relations::sorted_by;
use vstd::relations::total_ordering;
use vstd::seq_lib::lemma_sorted_unique;
use vstd::seq_lib::to_multiset_build;
use vstd::seq_lib::to_multiset_contains;
use vstd::seq_lib::to_multiset_insert;

verus! {

/// The middle of a collection of coordinates.
///
/// An odd number of values has one central value. An even number has two,
/// and the median lies midway between them; forming that mean is left to the
/// caller, who knows the scale the coordinates stand for.
#[derive(Clone, Copy, Debug, PartialEq, Eq, Structural)]
pub enum Median {
    /// The single central value of an odd number of values.
    Middle(i64),
    /// The lower and the upper central value of an even number of values.
    Between(i64, i64),
}

impl Median {
    /// The place of the median: the places of its central values.
    pub open spec fn place(self) -> Median {
        match self {
            Median::Middle(a) => Median::Middle(rank(a)),
            Median::Between(lo, hi) => Median::Between(rank(lo), rank(hi)),
        }
    }

    /// Whether the median is exactly `v`, whatever the number of values was.
    pub open spec fn pins(self, v: i64) -> bool {
        match self {
            Median::Middle(a) => a == v,
            Median::Between(lo, hi) => lo == v && hi == v,
        }
    }
}

/// Whether the places of the values never go down.
pub open spec fn ascends(values: Seq<i64>) -> bool {
    forall|i: int, j: int| 0 <= i < j < values.len() ==> rank(values[i]) <= rank(values[j])
}

/// Where a value goes into an ascending run: behind every value that is not
/// greater, so that values with one place stay in the order they came in.
pub open spec fn slot(sorted: Seq<i64>, v: i64) -> int
    decreases sorted.len(),
{
    if sorted.len() > 0 && rank(sorted.last()) > rank(v) {
        slot(sorted.drop_last(), v)
    } else {
        sorted.len() as int
    }
}

/// The values in ascending order of their places; values with one place are
/// in the order they came in.
pub open spec fn ascending(values: Seq<i64>) -> Seq<i64>
    decreases values.len(),
{
    if values.len() == 0 {
        Seq::empty()
    } else {
        let front = ascending(values.drop_last());
        front.insert(slot(front, values.last()), values.last())
    }
}

/// The places of the values, in order.
pub open spec fn ranks(values: Seq<i64>) -> Seq<i64> {
    values.map_values(|v: i64| rank(v))
}

/// The median of a non-empty sequence of values, in whatever order they come.
pub open spec fn median_of(values: Seq<i64>) -> Median {
    let sorted = ascending(values);
    let mid = values.len() as int / 2;
    if values.len() % 2 == 0 {
        Median::Between(sorted[mid - 1], sorted[mid])
    } else {
        Median::Middle(sorted[mid])
    }
}

/// The slot of a value lies within the run, behind the values that are not
/// greater and in front of those that are.
pub proof fn lemma_slot(sorted: Seq<i64>, v: i64)
    requires
        ascends(sorted),
    ensures
        0 <= slot(sorted, v) <= sorted.len(),
        forall|i: int| 0 <= i < slot(sorted, v) ==> rank(#[trigger] sorted[i]) <= rank(v),
        forall|i: int| slot(sorted, v) <= i < sorted.len() ==> rank(#[trigger] sorted[i]) > rank(v),
    decreases sorted.len(),
{
    if sorted.len() > 0 && rank(sorted.last()) > rank(v) {
        let front = sorted.drop_last();
        assert forall|i: int, j: int| 0 <= i < j < front.len() implies rank(front[i]) <= rank(
            front[j],
        ) by {
            assert(front[i] == sorted[i] && front[j] == sorted[j]);
        }
        lemma_slot(front, v);
        assert forall|i: int| 0 <= i < slot(sorted, v) implies rank(#[trigger] sorted[i]) <= rank(
            v,
        ) by {
            assert(sorted[i] == front[i]);
        }
        assert forall|i: int| slot(sorted, v) <= i < sorted.len() implies rank(
            #[trigger] sorted[i],
        ) > rank(v) by {
            if i < front.len() {
                assert(sorted[i] == front[i]);
            }
        }
    } else {
        assert forall|i: int| 0 <= i < sorted.len() implies rank(#[trigger] sorted[i]) <= rank(
            v,
        ) by {
            if i < sorted.len() - 1 {
                assert(rank(sorted[i]) <= rank(sorted[sorted.len() - 1]));
            }
        }
    }
}

/// `ascending` puts the values in ascending order and neither loses nor adds
/// one.
pub proof fn lemma_ascending(values: Seq<i64>)
    ensures
        ascends(ascending(values)),
        ascending(values).to_multiset() == values.to_multiset(),
        ascending(values).len() == values.len(),
    decreases values.len(),
{
    if values.len() > 0 {
        let front = ascending(values.drop_last());
        let v = values.last();
        let at = slot(front, v);
        lemma_ascending(values.drop_last());
        lemma_slot(front, v);
        let all = front.insert(at, v);
        to_multiset_insert(front, at, v);
        to_multiset_build(values.drop_last(), v);
        assert forall|i: int, j: int| 0 <= i < j < all.len() implies rank(all[i]) <= rank(
            all[j],
        ) by {
            if j < at {
                assert(all[i] == front[i] && all[j] == front[j]);
            } else if j == at {
                assert(all[i] == front[i]);
            } else if i < at {
                assert(all[i] == front[i] && all[j] == front[j - 1]);
            } else if i == at {
                assert(all[j] == front[j - 1]);
            } else {
                assert(all[i] == front[i - 1] && all[j] == front[j - 1]);
            }
        }
        assert(values == values.drop_last().push(v));
        assert(all.to_multiset() == front.to_multiset().insert(v));
        assert(values.to_multiset() == values.drop_last().to_multiset().insert(v));
    } else {
        assert(values == Seq::<i64>::empty());
    }
}

/// Sorting the places of the values gives the places of the sorted values.
pub proof fn lemma_ascending_ranks(values: Seq<i64>)
    ensures
        ranks(ascending(values)) == ascending(ranks(values)),
    decreases values.len(),
{
    if values.len() > 0 {
        let front = ascending(values.drop_last());
        let v = values.last();
        lemma_ascending_ranks(values.drop_last());
        lemma_slot_ranks(front, v);
        lemma_ascending(values.drop_last());
        lemma_slot(front, v);
        assert(ranks(values).drop_last() == ranks(values.drop_last()));
        assert(ranks(front.insert(slot(front, v), v)) == ranks(front).insert(
            slot(front, v),
            rank(v),
        ));
    } else {
        assert(ranks(ascending(values)) == Seq::<i64>::empty());
    }
}

/// A value goes to the slot to which its place goes among the places.
pub proof fn lemma_slot_ranks(sorted: Seq<i64>, v: i64)
    ensures
        slot(ranks(sorted), rank(v)) == slot(sorted, v),
    decreases sorted.len(),
{
    if sorted.len() > 0 {
        assert(ranks(sorted).last() == rank(sorted.last()));
        assert(ranks(sorted).drop_last() == ranks(sorted.drop_last()));
        lemma_slot_ranks(sorted.drop_last(), v);
    }
}

/// Runs that hold the same values as often hold the same values.
proof fn lemma_same_values(s: Seq<i64>, t: Seq<i64>)
    requires
        s.to_multiset() == t.to_multiset(),
    ensures
        forall|x: i64| s.contains(x) <==> t.contains(x),
{
    assert forall|x: i64| s.contains(x) <==> t.contains(x) by {
        to_multiset_contains(s, x);
        to_multiset_contains(t, x);
    }
}

/// Values that are sorted and hold at most one of the two zeros ascend in
/// the plain order of the integers.
proof fn lemma_ascends_plainly(sorted: Seq<i64>)
    requires
        ascends(sorted),
        !(sorted.contains(NEGATIVE_ZERO) && sorted.contains(ZERO)),
    ensures
        sorted_by(sorted, |a: i64, b: i64| a <= b),
{
    assert forall|i: int, j: int| 0 <= i < j < sorted.len() implies sorted[i] <= sorted[j] by {
        assert(rank(sorted[i]) <= rank(sorted[j]));
        assert(sorted.contains(sorted[i]) && sorted.contains(sorted[j]));
    }
}

/// The median depends on which values occur and how often, not on their
/// order, where the values hold at most one of the two zeros.
pub proof fn lemma_median_ignores_order(a: Seq<i64>, b: Seq<i64>)
    requires
        a.to_multiset() == b.to_multiset(),
        !(a.contains(NEGATIVE_ZERO) && a.contains(ZERO)),
    ensures
        median_of(a) == median_of(b),
{
    let plain = |x: i64, y: i64| x <= y;
    lemma_ascending(a);
    lemma_ascending(b);
    lemma_same_values(ascending(a), a);
    lemma_same_values(ascending(b), a);
    lemma_ascends_plainly(ascending(a));
    lemma_ascends_plainly(ascending(b));
    assert(total_ordering(plain));
    lemma_sorted_unique(ascending(a), ascending(b), plain);
}

/// The place of the median depends on the places of the values and on how
/// often each occurs, not on their order: the two zeros count as one value.
pub proof fn lemma_median_place_ignores_order(a: Seq<i64>, b: Seq<i64>)
    requires
        ranks(a).to_multiset() == ranks(b).to_multiset(),
    ensures
        a.len() == b.len(),
        median_of(a).place() == median_of(b).place(),
{
    let plain = |x: i64, y: i64| x <= y;
    let ra = ascending(ranks(a));
    let rb = ascending(ranks(b));
    lemma_ascending(ranks(a));
    lemma_ascending(ranks(b));
    assert(!ra.contains(NEGATIVE_ZERO)) by {
        if ra.contains(NEGATIVE_ZERO) {
            lemma_same_values(ra, ranks(a));
            assert(ranks(a).contains(NEGATIVE_ZERO));
            let i = choose|i: int| 0 <= i < ranks(a).len() && ranks(a)[i] == NEGATIVE_ZERO;
            assert(ranks(a)[i] == rank(a[i]));
        }
    }
    assert(!rb.contains(NEGATIVE_ZERO)) by {
        if rb.contains(NEGATIVE_ZERO) {
            lemma_same_values(rb, ranks(b));
            assert(ranks(b).contains(NEGATIVE_ZERO));
            let i = choose|i: int| 0 <= i < ranks(b).len() && ranks(b)[i] == NEGATIVE_ZERO;
            assert(ranks(b)[i] == rank(b[i]));
        }
    }
    lemma_ascends_plainly(ra);
    lemma_ascends_plainly(rb);
    assert(total_ordering(plain));
    lemma_sorted_unique(ra, rb, plain);
    lemma_ascending_ranks(a);
    lemma_ascending_ranks(b);
    lemma_ascending(a);
    lemma_ascending(b);
    assert(ranks(a).len() == a.len() && ranks(b).len() == b.len());
    let mid = a.len() as int / 2;
    if a.len() > 0 {
        assert(ranks(ascending(a))[mid] == rank(ascending(a)[mid]));
        assert(ranks(ascending(b))[mid] == rank(ascending(b)[mid]));
        if mid > 0 {
            assert(ranks(ascending(a))[mid - 1] == rank(ascending(a)[mid - 1]));
            assert(ranks(ascending(b))[mid - 1] == rank(ascending(b)[mid - 1]));
        }
    }
}

/// The median of equal values is that value, for an odd and for an even
/// number of them.
pub proof fn lemma_median_of_equal_values(values: Seq<i64>, v: i64)
    requires
        values.len() > 0,
        forall|i: int| 0 <= i < values.len() ==> values[i] == v,
    ensures
        median_of(values).pins(v),
{
    lemma_ascending(values);
    let sorted = ascending(values);
    lemma_same_values(sorted, values);
    assert forall|i: int| 0 <= i < sorted.len() implies sorted[i] == v by {
        assert(sorted.contains(sorted[i]));
        assert(values.contains(sorted[i]));
    }
}

/// Returns the values in ascending order of their places; values with one
/// place stay in the order they came in.
pub fn sorted_copy(values: &Vec<i64>) -> (sorted: Vec<i64>)
    ensures
        sorted@ == ascending(values@),
        sorted.len() == values.len(),
{
    let mut sorted: Vec<i64> = Vec::new();
    let mut k: usize = 0;
    assert(values@.take(0) == Seq::<i64>::empty());
    while k < values.len()
        invariant
            k <= values.len(),
            sorted.len() == k,
            sorted@ == ascending(values@.take(k as int)),
        decreases values.len() - k,
    {
        let v = values[k];
        let place = rank_of(v);
        let mut at: usize = sorted.len();
        assert(sorted@.take(at as int) == sorted@);
        while at > 0 && rank_of(sorted[at - 1]) > place
            invariant
                at <= sorted.len(),
                place == rank(v),
                slot(sorted@, v) == slot(sorted@.take(at as int), v),
            decreases at,
        {
            assert(sorted@.take(at as int).drop_last() == sorted@.take(at - 1));
            at -= 1;
        }
        proof {
            assert(slot(sorted@.take(at as int), v) == at);
            assert(values@.take(k + 1).drop_last() == values@.take(k as int));
        }
        sorted.insert(at, v);
        k += 1;
    }
    proof {
        assert(values@.take(k as int) == values@);
    }
    sorted
}

/// Computes the median of a non-empty collection of values.
pub fn median(values: &Vec<i64>) -> (m: Median)
    requires
        values.len() > 0,
    ensures
        m == median_of(values@),
{
    let sorted = sorted_copy(values);
    let mid: usize = sorted.len() / 2;
    if sorted.len() % 2 == 0 {
        Median::Between(sorted[mid - 1], sorted[mid])
    } else {
        Median::Middle(sorted[mid])
    }
}

} // verus!
