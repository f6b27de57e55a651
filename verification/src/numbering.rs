//! The numbering of the graph's nodes.
//!
//! The nodes at which pieces start and end are numbered in the order in which
//! they are first met: 0, 1, 2 and so on. A node that is met again keeps its
//! number.

use std::collections::HashMap;
use vstd::prelude::*;

verus! {

/// The distinct values of `visits`, each at the place of its first occurrence.
pub open spec fn first_seen(visits: Seq<i64>) -> Seq<i64>
    decreases visits.len(),
{
    if visits.len() == 0 {
        Seq::empty()
    } else {
        let before = first_seen(visits.drop_last());
        if before.contains(visits.last()) {
            before
        } else {
            before.push(visits.last())
        }
    }
}

/// The positions of the nodes of `path`, looked up in `coords`.
pub open spec fn positions<P>(coords: Map<i64, P>, path: Seq<i64>) -> Seq<P> {
    Seq::new(path.len(), |i: int| coords[path[i]])
}

/// What was seen after one more visit.
pub proof fn lemma_first_seen_push(visits: Seq<i64>, node: i64)
    ensures
        first_seen(visits.push(node)) == if first_seen(visits).contains(node) {
            first_seen(visits)
        } else {
            first_seen(visits).push(node)
        },
{
    assert(visits.push(node).drop_last() =~= visits);
}

/// Nothing is listed twice, and what is listed is what was visited.
pub proof fn lemma_first_seen(visits: Seq<i64>)
    ensures
        first_seen(visits).no_duplicates(),
        forall|node: i64| first_seen(visits).contains(node) <==> visits.contains(node),
    decreases visits.len(),
{
    if visits.len() > 0 {
        let head = visits.drop_last();
        let before = first_seen(head);
        let after = first_seen(visits);
        lemma_first_seen(head);
        assert forall|node: i64| after.contains(node) <==> visits.contains(node) by {
            if head.contains(node) {
                let i = choose|i: int| 0 <= i < head.len() && head[i] == node;
                assert(visits[i] == node);
                let j = choose|j: int| 0 <= j < before.len() && before[j] == node;
                assert(after[j] == node);
            } else if visits.last() == node {
                assert(after[before.len() as int] == node);
            } else {
                assert forall|i: int| 0 <= i < visits.len() implies visits[i] != node by {
                    if i < head.len() {
                        assert(head[i] == visits[i]);
                    }
                }
                assert forall|j: int| 0 <= j < after.len() implies after[j] != node by {
                    if j < before.len() {
                        assert(before[j] == after[j]);
                    }
                }
            }
        }
    }
}

/// In a list without repetitions, a value is found where it stands.
pub proof fn lemma_index_of_unique(ids: Seq<i64>, i: int)
    requires
        ids.no_duplicates(),
        0 <= i < ids.len(),
    ensures
        ids.index_of(ids[i]) == i,
{
    assert(ids.contains(ids[i]));
}

/// The table from node ids to graph node numbers, and the positions of the
/// graph nodes numbered so far.
pub struct Numbering<P> {
    lookup: HashMap<i64, usize>,
    nodes: Vec<P>,
    ids: Ghost<Seq<i64>>,
}

impl<P: Copy> Numbering<P> {
    /// The ids of the nodes numbered so far; a node's number is its index here.
    pub closed spec fn ids(&self) -> Seq<i64> {
        self.ids@
    }

    /// The positions of the nodes numbered so far, by number.
    pub closed spec fn nodes(&self) -> Seq<P> {
        self.nodes@
    }

    /// No node has two numbers, every numbered node has a position, and the
    /// table knows exactly the numbered nodes.
    pub closed spec fn well_formed(&self) -> bool {
        &&& self.ids@.no_duplicates()
        &&& self.nodes@.len() == self.ids@.len()
        &&& forall|id: i64| self.lookup@.contains_key(id) <==> self.ids@.contains(id)
        &&& forall|id: i64| #[trigger]
            self.lookup@.contains_key(id) ==> 0 <= self.lookup@[id] < self.ids@.len()
                && self.ids@[self.lookup@[id] as int] == id
    }

    /// A numbering in which no node has a number yet.
    pub fn new() -> (numbering: Self)
        ensures
            numbering.well_formed(),
            numbering.ids() == Seq::<i64>::empty(),
            numbering.nodes() == Seq::<P>::empty(),
    {
        Numbering { lookup: HashMap::new(), nodes: Vec::new(), ids: Ghost(Seq::empty()) }
    }

    /// The number of node `id`. A node that has none gets the next free number,
    /// and `position` becomes the position of the graph node with that number.
    pub fn resolve(&mut self, id: i64, position: P) -> (number: usize)
        requires
            old(self).well_formed(),
        ensures
            final(self).well_formed(),
            final(self).ids() == if old(self).ids().contains(id) {
                old(self).ids()
            } else {
                old(self).ids().push(id)
            },
            final(self).nodes() == if old(self).ids().contains(id) {
                old(self).nodes()
            } else {
                old(self).nodes().push(position)
            },
            0 <= number < final(self).ids().len(),
            final(self).ids()[number as int] == id,
    {
        broadcast use vstd::std_specs::hash::group_hash_axioms;

        match self.lookup.get(&id) {
            Some(number) => *number,
            None => {
                let number: usize = self.nodes.len();
                self.nodes.push(position);
                self.lookup.insert(id, number);
                proof {
                    let before = self.ids@;
                    assert(!before.contains(id));
                    self.ids = Ghost(before.push(id));
                    assert forall|other: i64|
                        self.lookup@.contains_key(other) <==> self.ids@.contains(other) by {
                        if before.contains(other) {
                            let j = choose|j: int| 0 <= j < before.len() && before[j] == other;
                            assert(self.ids@[j] == other);
                        } else if other == id {
                            assert(self.ids@[before.len() as int] == id);
                        } else {
                            assert forall|j: int| 0 <= j < self.ids@.len() implies self.ids@[j]
                                != other by {
                                if j < before.len() {
                                    assert(before[j] == self.ids@[j]);
                                }
                            }
                        }
                    }
                }
                number
            },
        }
    }

    /// The positions of the numbered nodes, by number.
    pub fn into_nodes(self) -> (nodes: Vec<P>)
        ensures
            nodes@ == self.nodes(),
    {
        self.nodes
    }
}

} // verus!
