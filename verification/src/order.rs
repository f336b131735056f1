//! Time ordering of raw price points.

use vstd::prelude::*;

verus! {

/// One price observation: when it was taken and the adjusted close, in ticks.
#[derive(Clone, Copy, Debug, PartialEq, Eq)]
pub struct PricePoint {
    pub timestamp: u64,
    pub close: i64,
}

/// Point `a` comes before point `b`: it is earlier, or as early and first in the input.
pub open spec fn comes_before(points: Seq<PricePoint>, a: int, b: int) -> bool {
    points[a].timestamp < points[b].timestamp || (points[a].timestamp == points[b].timestamp && a
        < b)
}

/// `order` lists every position of `points` once, earliest timestamp first,
/// and positions with equal timestamps in their input order.
pub open spec fn is_stable_order(points: Seq<PricePoint>, order: Seq<usize>) -> bool {
    &&& order.len() == points.len()
    &&& forall|i: int| 0 <= i < order.len() ==> (#[trigger] order[i]) < points.len()
    &&& forall|i: int, j: int|
        0 <= i < j < order.len() ==> comes_before(
            points,
            (#[trigger] order[i]) as int,
            (#[trigger] order[j]) as int,
        )
    &&& forall|k: usize| k < points.len() ==> order.contains(k)
}

/// The closes of `points` read off in the given order.
pub open spec fn closes_in_order(points: Seq<PricePoint>, order: Seq<usize>) -> Seq<i64> {
    Seq::new(order.len(), |i: int| points[order[i] as int].close)
}

/// `closes` are the closes of `points`, ascending by timestamp, ties in input order.
pub open spec fn is_sorted_closes(points: Seq<PricePoint>, closes: Seq<i64>) -> bool {
    exists|order: Seq<usize>|
        is_stable_order(points, order) && closes == closes_in_order(points, order)
}

/// The positions of `points` in ascending order of timestamp; equal
/// timestamps keep their input order.
pub fn stable_order(points: &Vec<PricePoint>) -> (order: Vec<usize>)
    ensures
        is_stable_order(points@, order@),
{
    let mut order: Vec<usize> = Vec::new();
    let mut i: usize = 0;
    while i < points.len()
        invariant
            i <= points@.len(),
            order@.len() == i,
            forall|p: int| 0 <= p < order@.len() ==> (#[trigger] order@[p]) < i,
            forall|p: int, q: int|
                0 <= p < q < order@.len() ==> comes_before(
                    points@,
                    (#[trigger] order@[p]) as int,
                    (#[trigger] order@[q]) as int,
                ),
            forall|k: usize| k < i ==> order@.contains(k),
        decreases points@.len() - i,
    {
        let stamp: u64 = points[i].timestamp;
        let mut pos: usize = order.len();
        while pos > 0 && points[order[pos - 1]].timestamp > stamp
            invariant
                pos <= order@.len(),
                order@.len() == i,
                i < points@.len(),
                stamp == points@[i as int].timestamp,
                forall|p: int| 0 <= p < order@.len() ==> (#[trigger] order@[p]) < i,
                forall|q: int|
                    pos <= q < order@.len() ==> points@[(#[trigger] order@[q]) as int].timestamp
                        > stamp,
            decreases pos,
        {
            pos -= 1;
        }
        let ghost before = order@;
        order.insert(pos, i);
        proof {
            let after = order@;
            assert(after == before.insert(pos as int, i));
            assert forall|p: int, q: int| 0 <= p < q < after.len() implies comes_before(
                points@,
                (#[trigger] after[p]) as int,
                (#[trigger] after[q]) as int,
            ) by {
                if q == pos {
                    assert(after[p] == before[p]);
                    if p < pos - 1 {
                        assert(comes_before(points@, before[p] as int, before[pos - 1] as int));
                    }
                } else if p == pos {
                    assert(after[q] == before[q - 1]);
                } else {
                    let bp = if p < pos { p } else { p - 1 };
                    let bq = if q < pos { q } else { q - 1 };
                    assert(after[p] == before[bp]);
                    assert(after[q] == before[bq]);
                }
            }
            assert forall|k: usize| k < i + 1 implies after.contains(k) by {
                if k == i {
                    assert(after[pos as int] == i);
                } else {
                    assert(before.contains(k));
                    let j = choose|j: int| 0 <= j < before.len() && before[j] == k;
                    if j < pos {
                        assert(after[j] == k);
                    } else {
                        assert(after[j + 1] == k);
                    }
                }
            }
            assert forall|p: int| 0 <= p < after.len() implies (#[trigger] after[p]) < i + 1 by {
                if p < pos {
                    assert(after[p] == before[p]);
                } else if p > pos {
                    assert(after[p] == before[p - 1]);
                }
            }
        }
        i += 1;
    }
    order
}

/// Ordering stage: the closes of `quotes`, ascending by timestamp. Quotes
/// with the same timestamp stay in the order in which they were given.
pub fn sorted_quotes(quotes: Vec<PricePoint>) -> (closes: Vec<i64>)
    ensures
        closes@.len() == quotes@.len(),
        is_sorted_closes(quotes@, closes@),
{
    let order = stable_order(&quotes);
    let mut closes: Vec<i64> = Vec::new();
    let mut i: usize = 0;
    while i < order.len()
        invariant
            i <= order@.len(),
            is_stable_order(quotes@, order@),
            closes@.len() == i,
            forall|p: int| 0 <= p < i ==> closes@[p] == quotes@[order@[p] as int].close,
        decreases order@.len() - i,
    {
        closes.push(quotes[order[i]].close);
        i += 1;
    }
    proof {
        assert(closes@ =~= closes_in_order(quotes@, order@));
    }
    closes
}

/// In a stable order timestamps never decrease, and two points with the same
/// timestamp appear in the order in which they were given.
pub proof fn lemma_order_keeps_ties(points: Seq<PricePoint>, order: Seq<usize>, a: int, b: int)
    requires
        is_stable_order(points, order),
        0 <= a < b < order.len(),
    ensures
        points[order[a] as int].timestamp <= points[order[b] as int].timestamp,
        points[order[a] as int].timestamp == points[order[b] as int].timestamp ==> order[a]
            < order[b],
{
    assert(comes_before(points, order[a] as int, order[b] as int));
}

/// Two stable orders of the same points agree on their first `n` entries.
proof fn lemma_orders_agree_upto(
    points: Seq<PricePoint>,
    first: Seq<usize>,
    second: Seq<usize>,
    n: nat,
)
    requires
        is_stable_order(points, first),
        is_stable_order(points, second),
        n <= points.len(),
    ensures
        forall|i: int| 0 <= i < n ==> first[i] == second[i],
    decreases n,
{
    if n > 0 {
        lemma_orders_agree_upto(points, first, second, (n - 1) as nat);
        let i = n - 1;
        let x = first[i];
        let y = second[i];
        assert(second.contains(x));
        assert(first.contains(y));
        let p = choose|p: int| 0 <= p < second.len() && second[p] == x;
        let q = choose|q: int| 0 <= q < first.len() && first[q] == y;
        if p < i {
            assert(first[p] == second[p]);
            assert(comes_before(points, first[p] as int, first[i] as int));
        }
        if q < i {
            assert(first[q] == second[q]);
            assert(comes_before(points, second[q] as int, second[i] as int));
        }
        if p > i && q > i {
            assert(comes_before(points, second[i] as int, second[p] as int));
            assert(comes_before(points, first[i] as int, first[q] as int));
        }
    }
}

/// A sequence of points has only one stable order.
pub proof fn lemma_stable_order_unique(
    points: Seq<PricePoint>,
    first: Seq<usize>,
    second: Seq<usize>,
)
    requires
        is_stable_order(points, first),
        is_stable_order(points, second),
    ensures
        first == second,
{
    lemma_orders_agree_upto(points, first, second, points.len());
    assert(first =~= second);
}

/// A sequence of points has only one sequence of sorted closes.
pub proof fn lemma_sorted_closes_unique(
    points: Seq<PricePoint>,
    first: Seq<i64>,
    second: Seq<i64>,
)
    requires
        is_sorted_closes(points, first),
        is_sorted_closes(points, second),
    ensures
        first == second,
{
    let a = choose|order: Seq<usize>|
        is_stable_order(points, order) && first == closes_in_order(points, order);
    let b = choose|order: Seq<usize>|
        is_stable_order(points, order) && second == closes_in_order(points, order);
    lemma_stable_order_unique(points, a, b);
}

} // verus!
