//! The data that goes in and comes out, and its mathematical views.

use crate::tags::{tag_views, text_view};
use vstd::prelude::*;

verus! {

/// One element of the input stream.
#[derive(Debug, Clone, PartialEq)]
pub enum Element<P> {
    /// A point with an id that ways refer to.
    Node { id: i64, position: P },
    /// An ordered list of node ids with tags, each a key and a value.
    Way { id: i64, node_ids: Vec<i64>, tags: Vec<(String, String)> },
    /// A relation. Relations carry nothing that the graph needs.
    Relation,
}

/// What an [`Element`] holds, as mathematical values.
pub enum ElementView<P> {
    Node { id: i64, position: P },
    Way { id: i64, node_ids: Seq<i64>, tags: Seq<(Seq<char>, Seq<char>)> },
    Relation,
}

impl<P> View for Element<P> {
    type V = ElementView<P>;

    open spec fn view(&self) -> ElementView<P> {
        match *self {
            Element::Node { id, position } => ElementView::Node { id, position },
            Element::Way { id, node_ids, tags } => ElementView::Way {
                id,
                node_ids: node_ids@,
                tags: tag_views(tags@),
            },
            Element::Relation => ElementView::Relation,
        }
    }
}

/// A road: what is kept of a way that carries the road tag.
#[derive(Debug, Clone, PartialEq)]
pub struct Way {
    /// The display name, if names are kept and the way has one.
    pub name: Option<String>,
    /// The ids of the nodes that the way runs through, in order.
    pub nodes: Vec<i64>,
}

/// What a [`Way`] holds, as mathematical values.
pub struct WayView {
    pub name: Option<Seq<char>>,
    pub nodes: Seq<i64>,
}

impl View for Way {
    type V = WayView;

    open spec fn view(&self) -> WayView {
        WayView {
            name: text_view(self.name),
            nodes: self.nodes@,
        }
    }
}

/// A copy of a name.
pub(crate) fn copy_name(name: &Option<String>) -> (copy: Option<String>)
    ensures
        copy == *name,
{
    match name {
        Some(text) => Some(text.clone()),
        None => None,
    }
}

/// A copy of a list of node ids.
pub(crate) fn copy_ids(ids: &Vec<i64>) -> (copy: Vec<i64>)
    ensures
        copy@ == ids@,
{
    let mut copy: Vec<i64> = Vec::new();
    let mut i: usize = 0;
    while i < ids.len()
        invariant
            i <= ids.len(),
            copy@ == ids@.take(i as int),
        decreases ids.len() - i,
    {
        copy.push(ids[i]);
        assert(ids@.take(i as int).push(ids@[i as int]) =~= ids@.take(i as int + 1));
        i = i + 1;
    }
    assert(ids@.take(i as int) =~= ids@);
    copy
}

impl Way {
    /// A copy of the road.
    pub fn copy(&self) -> (copy: Way)
        ensures
            copy@ == self@,
    {
        Way { name: copy_name(&self.name), nodes: copy_ids(&self.nodes) }
    }
}

/// A stretch of road between two nodes of the graph.
#[derive(Debug, Clone, PartialEq)]
pub struct Edge<P> {
    /// Index of the graph node at which the edge starts.
    pub node1: usize,
    /// Index of the graph node at which the edge ends.
    pub node2: usize,
    /// The positions along the edge, both ends included.
    pub geometry: Vec<P>,
    /// The name of the way that the edge was cut from.
    pub name: Option<String>,
}

/// What an [`Edge`] holds, as mathematical values.
pub struct EdgeView<P> {
    pub node1: int,
    pub node2: int,
    pub geometry: Seq<P>,
    pub name: Option<Seq<char>>,
}

impl<P> View for Edge<P> {
    type V = EdgeView<P>;

    open spec fn view(&self) -> EdgeView<P> {
        EdgeView {
            node1: self.node1 as int,
            node2: self.node2 as int,
            geometry: self.geometry@,
            name: text_view(self.name),
        }
    }
}

/// The routing graph. A node is known by its index in `nodes`.
#[derive(Debug, Clone, PartialEq)]
pub struct Graph<P> {
    pub nodes: Vec<P>,
    pub edges: Vec<Edge<P>>,
}

/// What a [`Graph`] holds, as mathematical values.
pub struct GraphView<P> {
    pub nodes: Seq<P>,
    pub edges: Seq<EdgeView<P>>,
}

impl<P> View for Graph<P> {
    type V = GraphView<P>;

    open spec fn view(&self) -> GraphView<P> {
        GraphView { nodes: self.nodes@, edges: self.edges@.map_values(|e: Edge<P>| e@) }
    }
}

impl<P> GraphView<P> {
    /// Every edge runs between two nodes of the graph, has at least two
    /// positions, and starts and ends exactly where its two nodes lie.
    pub open spec fn well_formed(self) -> bool {
        forall|k: int|
            0 <= k < self.edges.len() ==> {
                let e = #[trigger] self.edges[k];
                &&& 0 <= e.node1 < self.nodes.len()
                &&& 0 <= e.node2 < self.nodes.len()
                &&& e.geometry.len() >= 2
                &&& e.geometry.first() == self.nodes[e.node1]
                &&& e.geometry.last() == self.nodes[e.node2]
            }
    }
}

/// Why no graph could be built.
#[derive(Debug, Clone, Copy, PartialEq, Eq, Structural)]
pub enum GraphError {
    /// A road runs through a node id for which the input has no node.
    MissingNode { node: i64 },
}

} // verus!
