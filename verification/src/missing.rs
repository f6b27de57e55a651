//! Roads that run through nodes of which nothing is known.

use crate::model::{Way, WayView};
use crate::refs::road_views;
use std::collections::HashMap;
use vstd::prelude::*;

verus! {

/// The first node of `path` that is not among `known`.
pub open spec fn first_unknown(known: Set<i64>, path: Seq<i64>) -> Option<i64>
    decreases path.len(),
{
    if path.len() == 0 {
        None
    } else {
        match first_unknown(known, path.drop_last()) {
            Some(node) => Some(node),
            None => if known.contains(path.last()) {
                None
            } else {
                Some(path.last())
            },
        }
    }
}

/// The first node, road after road, that a road runs through and that is
/// not among `known`.
pub open spec fn first_dangling(known: Set<i64>, ways: Seq<WayView>) -> Option<i64>
    decreases ways.len(),
{
    if ways.len() == 0 {
        None
    } else {
        match first_dangling(known, ways.drop_last()) {
            Some(node) => Some(node),
            None => first_unknown(known, ways.last().nodes),
        }
    }
}

/// Every node that a road runs through is among `known`.
pub open spec fn references_closed(known: Set<i64>, ways: Seq<WayView>) -> bool {
    forall|w: int, i: int|
        0 <= w < ways.len() && 0 <= i < ways[w].nodes.len() ==> known.contains(
            #[trigger] ways[w].nodes[i],
        )
}

/// A path has a first unknown node exactly if not all of its nodes are known,
/// and that node is on the path and unknown.
pub proof fn lemma_first_unknown(known: Set<i64>, path: Seq<i64>)
    ensures
        first_unknown(known, path) is None <==> forall|i: int|
            0 <= i < path.len() ==> known.contains(#[trigger] path[i]),
        first_unknown(known, path) matches Some(node) ==> path.contains(node) && !known.contains(
            node,
        ),
    decreases path.len(),
{
    if path.len() > 0 {
        let head = path.drop_last();
        lemma_first_unknown(known, head);
        match first_unknown(known, head) {
            Some(node) => {
                let i = choose|i: int| 0 <= i < head.len() && head[i] == node;
                assert(path[i] == node);
            },
            None => {
                assert forall|i: int| 0 <= i < head.len() implies known.contains(
                    #[trigger] path[i],
                ) by {
                    assert(head[i] == path[i]);
                }
            },
        }
    }
}

/// The roads have a first dangling node exactly if their references are not
/// closed, and that node is one that a road runs through and is unknown.
pub proof fn lemma_first_dangling(known: Set<i64>, ways: Seq<WayView>)
    ensures
        first_dangling(known, ways) is None <==> references_closed(known, ways),
        first_dangling(known, ways) matches Some(node) ==> !known.contains(node) && exists|
            w: int,
        |
            0 <= w < ways.len() && (#[trigger] ways[w]).nodes.contains(node),
    decreases ways.len(),
{
    if ways.len() > 0 {
        let head = ways.drop_last();
        let last = ways.last();
        lemma_first_dangling(known, head);
        lemma_first_unknown(known, last.nodes);
        match first_dangling(known, head) {
            Some(node) => {
                let w = choose|w: int|
                    0 <= w < head.len() && (#[trigger] head[w]).nodes.contains(node);
                let i = choose|i: int| 0 <= i < ways[w].nodes.len() && ways[w].nodes[i] == node;
                assert(!known.contains(ways[w].nodes[i]));
            },
            None => {
                match first_unknown(known, last.nodes) {
                    Some(node) => {
                        let i = choose|i: int|
                            0 <= i < last.nodes.len() && last.nodes[i] == node;
                        assert(!known.contains(ways[ways.len() - 1].nodes[i]));
                    },
                    None => {
                        assert forall|w: int, i: int|
                            0 <= w < ways.len() && 0 <= i
                                < ways[w].nodes.len() implies known.contains(
                            #[trigger] ways[w].nodes[i],
                        ) by {
                            if w < head.len() {
                                assert(head[w].nodes[i] == ways[w].nodes[i]);
                            }
                        }
                    },
                }
            },
        }
    }
}

/// An unknown node that was found on the first `k` positions of a path is the
/// first unknown node of the whole path.
pub proof fn lemma_first_unknown_extends(known: Set<i64>, path: Seq<i64>, k: int)
    requires
        0 <= k <= path.len(),
        first_unknown(known, path.take(k)) is Some,
    ensures
        first_unknown(known, path) == first_unknown(known, path.take(k)),
    decreases path.len() - k,
{
    if k < path.len() {
        assert(path.take(k + 1).drop_last() =~= path.take(k));
        lemma_first_unknown_extends(known, path, k + 1);
    } else {
        assert(path.take(k) =~= path);
    }
}

/// A dangling node that was found on the first `w` roads is the first
/// dangling node of all the roads.
pub proof fn lemma_first_dangling_extends(known: Set<i64>, ways: Seq<WayView>, w: int)
    requires
        0 <= w <= ways.len(),
        first_dangling(known, ways.take(w)) is Some,
    ensures
        first_dangling(known, ways) == first_dangling(known, ways.take(w)),
    decreases ways.len() - w,
{
    if w < ways.len() {
        assert(ways.take(w + 1).drop_last() =~= ways.take(w));
        lemma_first_dangling_extends(known, ways, w + 1);
    } else {
        assert(ways.take(w) =~= ways);
    }
}

/// The first node, road after road, that a road runs through and that has no
/// position in `nodes`; `None` if every such node has one.
pub fn find_missing_node<P>(nodes: &HashMap<i64, P>, ways: &Vec<Way>) -> (missing: Option<i64>)
    ensures
        missing == first_dangling(nodes@.dom(), road_views(ways@)),
{
    broadcast use vstd::std_specs::hash::group_hash_axioms;

    let ghost all = road_views(ways@);
    let ghost known = nodes@.dom();
    let mut w: usize = 0;
    while w < ways.len()
        invariant
            w <= ways.len(),
            all == road_views(ways@),
            known == nodes@.dom(),
            first_dangling(known, all.take(w as int)) is None,
        decreases ways.len() - w,
    {
        let way = &ways[w];
        let ghost path = way.nodes@;
        let mut k: usize = 0;
        while k < way.nodes.len()
            invariant
                k <= way.nodes.len(),
                w < ways.len(),
                all == road_views(ways@),
                known == nodes@.dom(),
                path == way.nodes@,
                path == all[w as int].nodes,
                all.take(w as int + 1).drop_last() == all.take(w as int),
                first_dangling(known, all.take(w as int)) is None,
                first_unknown(known, path.take(k as int)) is None,
            decreases way.nodes.len() - k,
        {
            let id: i64 = way.nodes[k];
            assert(path.take(k as int + 1).drop_last() =~= path.take(k as int));
            if !nodes.contains_key(&id) {
                proof {
                    lemma_first_unknown_extends(known, path, k as int + 1);
                    lemma_first_dangling_extends(known, all, w as int + 1);
                }
                return Some(id);
            }
            k = k + 1;
        }
        assert(path.take(k as int) =~= path);
        w = w + 1;
    }
    assert(all.take(w as int) =~= all);
    None
}

} // verus!
