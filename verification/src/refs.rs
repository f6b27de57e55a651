//! How often the roads run through each node.

use crate::model::{Way, WayView};
use std::collections::HashMap;
use vstd::prelude::*;

verus! {

/// The roads of a list, each by its view.
pub open spec fn road_views(ways: Seq<Way>) -> Seq<WayView> {
    ways.map_values(|w: Way| w@)
}

/// The number of positions of `path` that hold `node`.
pub open spec fn occurrences(path: Seq<i64>, node: i64) -> nat
    decreases path.len(),
{
    if path.len() == 0 {
        0
    } else {
        occurrences(path.drop_last(), node) + if path.last() == node {
            1nat
        } else {
            0nat
        }
    }
}

/// The number of positions, over all roads, that hold `node`. A road that runs
/// through a node twice counts it twice.
pub open spec fn reference_count(ways: Seq<WayView>, node: i64) -> nat
    decreases ways.len(),
{
    if ways.len() == 0 {
        0
    } else {
        reference_count(ways.drop_last(), node) + occurrences(ways.last().nodes, node)
    }
}

/// The nodes that more than one position refers to.
pub open spec fn shared_nodes(ways: Seq<WayView>) -> Set<i64> {
    Set::new(|node: i64| reference_count(ways, node) > 1)
}

/// A count as a counter of machine size holds it: exact up to the largest
/// value, and that value from there on.
pub open spec fn capped(n: nat) -> nat {
    if n <= usize::MAX {
        n
    } else {
        usize::MAX as nat
    }
}

/// A counter table holds, for every node that some road runs through, its
/// capped count, and no other node.
pub open spec fn counts_match(counts: Map<i64, usize>, ways: Seq<WayView>) -> bool {
    forall|node: i64|
        {
            &&& counts.contains_key(node) <==> #[trigger] reference_count(ways, node) > 0
            &&& counts.contains_key(node) ==> counts[node] as nat == capped(
                reference_count(ways, node),
            )
        }
}

/// Reading one more position of a path adds one to the count of the node there
/// and leaves the other counts as they were.
pub proof fn lemma_occurrences_step(path: Seq<i64>, k: int, node: i64)
    requires
        0 <= k < path.len(),
    ensures
        occurrences(path.take(k + 1), node) == occurrences(path.take(k), node) + if path[k]
            == node {
            1nat
        } else {
            0nat
        },
{
    assert(path.take(k + 1).drop_last() =~= path.take(k));
}

/// Taking one more road adds its occurrences to the count.
pub proof fn lemma_reference_count_step(ways: Seq<WayView>, w: int, node: i64)
    requires
        0 <= w < ways.len(),
    ensures
        reference_count(ways.take(w + 1), node) == reference_count(ways.take(w), node)
            + occurrences(ways[w].nodes, node),
{
    assert(ways.take(w + 1).drop_last() =~= ways.take(w));
}

/// A node that a road runs through is counted at least once.
pub proof fn lemma_occurrences_positive(path: Seq<i64>, i: int)
    requires
        0 <= i < path.len(),
    ensures
        occurrences(path, path[i]) > 0,
    decreases path.len(),
{
    if i < path.len() - 1 {
        lemma_occurrences_positive(path.drop_last(), i);
    }
}

/// A node that is counted occurs on the path.
pub proof fn lemma_occurrences_witness(path: Seq<i64>, node: i64) -> (i: int)
    requires
        occurrences(path, node) > 0,
    ensures
        0 <= i < path.len(),
        path[i] == node,
    decreases path.len(),
{
    if path.last() == node {
        path.len() - 1
    } else {
        lemma_occurrences_witness(path.drop_last(), node)
    }
}

/// The count of a node is at least its count on any one road.
pub proof fn lemma_reference_count_covers(ways: Seq<WayView>, w: int, node: i64)
    requires
        0 <= w < ways.len(),
    ensures
        reference_count(ways, node) >= occurrences(ways[w].nodes, node),
    decreases ways.len(),
{
    if w < ways.len() - 1 {
        lemma_reference_count_covers(ways.drop_last(), w, node);
    }
}

/// A node that stands at two positions of a path is counted at least twice.
pub proof fn lemma_two_occurrences(path: Seq<i64>, i: int, j: int)
    requires
        0 <= i < j < path.len(),
        path[i] == path[j],
    ensures
        occurrences(path, path[i]) >= 2,
    decreases path.len(),
{
    if j < path.len() - 1 {
        lemma_two_occurrences(path.drop_last(), i, j);
    } else {
        lemma_occurrences_positive(path.drop_last(), i);
    }
}

/// A node that is counted twice stands at two positions of the path.
pub proof fn lemma_two_occurrences_witness(path: Seq<i64>, node: i64) -> (at: (int, int))
    requires
        occurrences(path, node) >= 2,
    ensures
        0 <= at.0 < at.1 < path.len(),
        path[at.0] == node,
        path[at.1] == node,
    decreases path.len(),
{
    if path.last() == node {
        let i = lemma_occurrences_witness(path.drop_last(), node);
        (i, path.len() - 1)
    } else {
        lemma_two_occurrences_witness(path.drop_last(), node)
    }
}

/// The count over the first roads is at most the count over all.
pub proof fn lemma_reference_count_grows(ways: Seq<WayView>, k: int, node: i64)
    requires
        0 <= k <= ways.len(),
    ensures
        reference_count(ways.take(k), node) <= reference_count(ways, node),
    decreases ways.len() - k,
{
    if k < ways.len() {
        lemma_reference_count_step(ways, k, node);
        lemma_reference_count_grows(ways, k + 1, node);
    } else {
        assert(ways.take(k) =~= ways);
    }
}

/// A node that some road runs through is counted.
pub proof fn lemma_reference_counted(ways: Seq<WayView>, w: int, i: int)
    requires
        0 <= w < ways.len(),
        0 <= i < ways[w].nodes.len(),
    ensures
        reference_count(ways, ways[w].nodes[i]) >= 1,
{
    lemma_occurrences_positive(ways[w].nodes, i);
    lemma_reference_count_covers(ways, w, ways[w].nodes[i]);
}

/// A node that is counted is one that some road runs through. Returns the
/// place of the road and the position on it.
pub proof fn lemma_reference_witness(ways: Seq<WayView>, node: i64) -> (at: (int, int))
    requires
        reference_count(ways, node) >= 1,
    ensures
        0 <= at.0 < ways.len(),
        0 <= at.1 < ways[at.0].nodes.len(),
        ways[at.0].nodes[at.1] == node,
    decreases ways.len(),
{
    if occurrences(ways.last().nodes, node) > 0 {
        let i = lemma_occurrences_witness(ways.last().nodes, node);
        (ways.len() - 1, i)
    } else {
        lemma_reference_witness(ways.drop_last(), node)
    }
}

/// A node to which two different positions refer is counted at least twice.
pub proof fn lemma_two_references(ways: Seq<WayView>, w1: int, i1: int, w2: int, i2: int)
    requires
        0 <= w1 < ways.len(),
        0 <= i1 < ways[w1].nodes.len(),
        0 <= w2 < ways.len(),
        0 <= i2 < ways[w2].nodes.len(),
        w1 != w2 || i1 != i2,
        ways[w1].nodes[i1] == ways[w2].nodes[i2],
    ensures
        reference_count(ways, ways[w1].nodes[i1]) >= 2,
{
    let node = ways[w1].nodes[i1];
    if w1 == w2 {
        if i1 < i2 {
            lemma_two_occurrences(ways[w1].nodes, i1, i2);
        } else {
            lemma_two_occurrences(ways[w1].nodes, i2, i1);
        }
        lemma_reference_count_covers(ways, w1, node);
    } else {
        let (lo, ilo, hi, ihi) = if w1 < w2 {
            (w1, i1, w2, i2)
        } else {
            (w2, i2, w1, i1)
        };
        let head = ways.take(hi);
        assert(head[lo] == ways[lo]);
        lemma_reference_counted(head, lo, ilo);
        lemma_occurrences_positive(ways[hi].nodes, ihi);
        lemma_reference_count_step(ways, hi, node);
        lemma_reference_count_grows(ways, hi + 1, node);
    }
}

/// A node that is counted at least twice is one to which two different
/// positions refer. Returns the two: road and position, road and position.
pub proof fn lemma_two_references_witness(ways: Seq<WayView>, node: i64) -> (at: (
    int,
    int,
    int,
    int,
))
    requires
        reference_count(ways, node) >= 2,
    ensures
        0 <= at.0 < ways.len(),
        0 <= at.1 < ways[at.0].nodes.len(),
        0 <= at.2 < ways.len(),
        0 <= at.3 < ways[at.2].nodes.len(),
        at.0 != at.2 || at.1 != at.3,
        ways[at.0].nodes[at.1] == node,
        ways[at.2].nodes[at.3] == node,
    decreases ways.len(),
{
    let last = ways.len() - 1;
    let here = occurrences(ways.last().nodes, node);
    if here >= 2 {
        let (i, j) = lemma_two_occurrences_witness(ways.last().nodes, node);
        (last, i, last, j)
    } else if here == 1 {
        let i = lemma_occurrences_witness(ways.last().nodes, node);
        let (w, j) = lemma_reference_witness(ways.drop_last(), node);
        (w, j, last, i)
    } else {
        lemma_two_references_witness(ways.drop_last(), node)
    }
}

/// Counts, for each node, the positions over all roads that refer to it. The
/// counter stops at the largest value that it can hold.
pub fn count_references(ways: &Vec<Way>) -> (counts: HashMap<i64, usize>)
    ensures
        counts_match(counts@, road_views(ways@)),
{
    broadcast use vstd::std_specs::hash::group_hash_axioms;

    let ghost all = road_views(ways@);
    let mut counts: HashMap<i64, usize> = HashMap::new();
    let mut w: usize = 0;
    assert(all.take(0) =~= Seq::<WayView>::empty());
    while w < ways.len()
        invariant
            w <= ways.len(),
            all == road_views(ways@),
            counts_match(counts@, all.take(w as int)),
        decreases ways.len() - w,
    {
        let way = &ways[w];
        let ghost path = way.nodes@;
        let ghost before = all.take(w as int);
        assert(all[w as int].nodes == path);
        let mut k: usize = 0;
        assert(path.take(0) =~= Seq::<i64>::empty());
        while k < way.nodes.len()
            invariant
                k <= way.nodes.len(),
                path == way.nodes@,
                forall|node: i64|
                    {
                        let n = #[trigger] reference_count(before, node) + occurrences(
                            path.take(k as int),
                            node,
                        );
                        &&& counts@.contains_key(node) <==> n > 0
                        &&& counts@.contains_key(node) ==> counts@[node] as nat == capped(n)
                    },
            decreases way.nodes.len() - k,
        {
            let id: i64 = way.nodes[k];
            let seen: usize = match counts.get(&id) {
                Some(c) => *c,
                None => 0,
            };
            let next: usize = if seen < usize::MAX {
                seen + 1
            } else {
                seen
            };
            proof {
                assert forall|node: i64|
                    {
                        let n = #[trigger] reference_count(before, node) + occurrences(
                            path.take(k as int + 1),
                            node,
                        );
                        &&& counts@.insert(id, next).contains_key(node) <==> n > 0
                        &&& counts@.insert(id, next).contains_key(node) ==> counts@.insert(
                            id,
                            next,
                        )[node] as nat == capped(n)
                    } by {
                    lemma_occurrences_step(path, k as int, node);
                }
            }
            counts.insert(id, next);
            k = k + 1;
        }
        proof {
            assert(path.take(k as int) =~= path);
            assert forall|node: i64|
                {
                    &&& counts@.contains_key(node) <==> #[trigger] reference_count(
                        all.take(w as int + 1),
                        node,
                    ) > 0
                    &&& counts@.contains_key(node) ==> counts@[node] as nat == capped(
                        reference_count(all.take(w as int + 1), node),
                    )
                } by {
                lemma_reference_count_step(all, w as int, node);
                assert(reference_count(before, node) + occurrences(path.take(k as int), node)
                    == reference_count(all.take(w as int + 1), node));
            }
        }
        w = w + 1;
    }
    assert(all.take(w as int) =~= all);
    counts
}

} // verus!
