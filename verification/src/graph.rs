//! From the roads and the positions of their nodes to the graph.

use crate::laws::lemma_graph_well_formed;
use crate::missing::{
    find_missing_node, first_dangling, lemma_first_dangling, references_closed,
};
use crate::model::{copy_name, Edge, EdgeView, Graph, GraphError, GraphView, Way, WayView};
use crate::numbering::{
    first_seen, lemma_first_seen, lemma_first_seen_push, lemma_index_of_unique, positions,
    Numbering,
};
use crate::refs::{count_references, counts_match, reference_count, road_views, shared_nodes};
use crate::split::{
    all_pieces, is_cut, lemma_all_pieces_step, lemma_open_start, open_start, pieces_of,
    pieces_within, Piece,
};
use std::collections::HashMap;
use vstd::prelude::*;

verus! {

/// The nodes at which the pieces start and end, in the order in which the
/// graph meets them: piece after piece, the start before the end.
pub open spec fn endpoints(pieces: Seq<Piece>) -> Seq<i64>
    decreases pieces.len(),
{
    if pieces.len() == 0 {
        Seq::empty()
    } else {
        endpoints(pieces.drop_last()).push(pieces.last().path.first()).push(
            pieces.last().path.last(),
        )
    }
}

/// The pieces into which the roads are cut, road after road.
pub open spec fn road_pieces(ways: Seq<WayView>) -> Seq<Piece> {
    all_pieces(shared_nodes(ways), ways)
}

/// The ids of the graph's nodes, by number.
pub open spec fn node_ids(ways: Seq<WayView>) -> Seq<i64> {
    first_seen(endpoints(road_pieces(ways)))
}

/// The edge that stands for a piece, given the ids of the graph's nodes.
pub open spec fn edge_of<P>(coords: Map<i64, P>, ids: Seq<i64>, piece: Piece) -> EdgeView<P> {
    EdgeView {
        node1: ids.index_of(piece.path.first()),
        node2: ids.index_of(piece.path.last()),
        geometry: positions(coords, piece.path),
        name: piece.name,
    }
}

/// The graph of the roads `ways`, taken in this order, with the position of
/// each node looked up in `coords`: one edge for each piece, in the order of
/// the pieces, and one node for each node at which a piece starts or ends,
/// numbered in the order in which the pieces meet them.
pub open spec fn graph_of<P>(coords: Map<i64, P>, ways: Seq<WayView>) -> GraphView<P> {
    let pieces = road_pieces(ways);
    let ids = node_ids(ways);
    GraphView {
        nodes: positions(coords, ids),
        edges: Seq::new(pieces.len(), |k: int| edge_of(coords, ids, pieces[k])),
    }
}

/// An edge stands for a piece: it runs between the graph nodes of the piece's
/// two ends, along the positions of the piece's nodes, under the road's name.
spec fn edge_stands_for<P>(
    edge: EdgeView<P>,
    piece: Piece,
    ids: Seq<i64>,
    coords: Map<i64, P>,
) -> bool {
    &&& 0 <= edge.node1 < ids.len()
    &&& ids[edge.node1] == piece.path.first()
    &&& 0 <= edge.node2 < ids.len()
    &&& ids[edge.node2] == piece.path.last()
    &&& edge.geometry == positions(coords, piece.path)
    &&& edge.name == piece.name
}

/// The numbering and the edges are those of the pieces `done`.
spec fn built<P: Copy>(
    numbering: Numbering<P>,
    edges: Seq<Edge<P>>,
    coords: Map<i64, P>,
    done: Seq<Piece>,
) -> bool {
    &&& numbering.well_formed()
    &&& numbering.ids() == first_seen(endpoints(done))
    &&& numbering.nodes() == positions(coords, numbering.ids())
    &&& edges.len() == done.len()
    &&& forall|k: int|
        #![trigger edges[k]]
        0 <= k < done.len() ==> edge_stands_for(edges[k]@, done[k], numbering.ids(), coords)
}

/// Whether the counters hold more than one reference to node `id`.
fn is_shared(counts: &HashMap<i64, usize>, id: i64) -> (shared: bool)
    ensures
        shared == (counts@.contains_key(id) && counts@[id] > 1),
{
    broadcast use vstd::std_specs::hash::group_hash_axioms;

    match counts.get(&id) {
        Some(count) => *count > 1,
        None => false,
    }
}

/// Cuts one road into pieces and adds an edge for each piece, numbering the
/// nodes at which the pieces start and end as it meets them.
fn split_way<P: Copy>(
    nodes: &HashMap<i64, P>,
    counts: &HashMap<i64, usize>,
    way: &Way,
    numbering: &mut Numbering<P>,
    edges: &mut Vec<Edge<P>>,
    Ghost(all): Ghost<Seq<WayView>>,
    Ghost(done): Ghost<Seq<Piece>>,
)
    requires
        counts_match(counts@, all),
        forall|i: int| 0 <= i < way.nodes@.len() ==> nodes@.contains_key(#[trigger] way.nodes@[i]),
        built(*old(numbering), old(edges)@, nodes@, done),
    ensures
        built(
            *final(numbering),
            final(edges)@,
            nodes@,
            done + pieces_of(shared_nodes(all), way@),
        ),
{
    broadcast use vstd::std_specs::hash::group_hash_axioms;

    let ghost shared = shared_nodes(all);
    let ghost path = way.nodes@;
    let ghost coords = nodes@;
    let n: usize = way.nodes.len();
    if n == 0 {
        return ;
    }
    let mut node1: i64 = way.nodes[0];
    let mut pts: Vec<P> = Vec::new();
    let mut idx: usize = 0;
    while idx < n
        invariant
            n == way.nodes.len(),
            0 < n,
            idx <= n,
            path == way.nodes@,
            path == way@.nodes,
            coords == nodes@,
            shared == shared_nodes(all),
            counts_match(counts@, all),
            forall|i: int| 0 <= i < path.len() ==> coords.contains_key(#[trigger] path[i]),
            idx == 0 ==> pts@.len() == 0 && node1 == path[0],
            idx > 0 ==> node1 == path[open_start(shared, path, idx as int)] && pts@ == positions(
                coords,
                path.subrange(open_start(shared, path, idx as int), idx as int),
            ),
            built(*numbering, edges@, coords, done + pieces_within(shared, way@, idx as int)),
        decreases n - idx,
    {
        let id: i64 = way.nodes[idx];
        let position: P = *nodes.get(&id).unwrap();
        let ghost start = open_start(shared, path, idx as int);
        let ghost before = done + pieces_within(shared, way@, idx as int);
        pts.push(position);
        let is_endpoint: bool = idx == 0 || idx == n - 1 || is_shared(counts, id);
        proof {
            assert(shared.contains(id) <==> reference_count(all, id) > 1);
            assert(is_endpoint == is_cut(shared, path, idx as int));
            if idx > 0 {
                lemma_open_start(shared, path, idx as int);
                assert(pts@ =~= positions(coords, path.subrange(start, idx as int + 1)));
            }
        }
        if is_endpoint && pts.len() > 1 {
            let ghost piece = Piece { path: path.subrange(start, idx as int + 1), name: way@.name };
            let first: P = pts[0];
            let number1: usize = numbering.resolve(node1, first);
            let number2: usize = numbering.resolve(id, position);
            let name = copy_name(&way.name);
            edges.push(Edge { node1: number1, node2: number2, geometry: pts, name });
            proof {
                let after = before.push(piece);
                assert(after.drop_last() =~= before);
                lemma_first_seen_push(endpoints(before), node1);
                lemma_first_seen_push(endpoints(before).push(node1), id);
                assert(numbering.nodes() == positions(coords, numbering.ids()));
            }
            node1 = id;
            pts = Vec::new();
            pts.push(position);
        }
        idx = idx + 1;
    }
}

/// Builds the graph of the roads `ways`, taken in this order.
///
/// Each road is cut at its two ends and at every node that more than one
/// position of the roads refers to. Each piece becomes an edge that carries
/// the positions of its nodes and the road's name. The nodes at which pieces
/// start and end become the nodes of the graph, numbered as they are met.
/// A road of fewer than two nodes gives no edge, but its node still counts
/// as a reference.
///
/// Fails if a road runs through a node that has no position in `nodes`, and
/// names the first such node. No graph is built in part.
pub fn build_graph<P: Copy>(nodes: &HashMap<i64, P>, ways: &Vec<Way>) -> (result: Result<
    Graph<P>,
    GraphError,
>)
    ensures
        match result {
            Ok(graph) => first_dangling(nodes@.dom(), road_views(ways@)) is None && graph@
                == graph_of(nodes@, road_views(ways@)) && graph@.well_formed(),
            Err(error) => first_dangling(nodes@.dom(), road_views(ways@)) == Some(error->node),
        },
{
    let ghost all = road_views(ways@);
    let ghost coords = nodes@;
    let ghost shared = shared_nodes(all);
    if let Some(node) = find_missing_node(nodes, ways) {
        return Err(GraphError::MissingNode { node });
    }
    proof {
        lemma_first_dangling(coords.dom(), all);
    }
    let counts = count_references(ways);
    let mut numbering: Numbering<P> = Numbering::new();
    let mut edges: Vec<Edge<P>> = Vec::new();
    let mut w: usize = 0;
    proof {
        assert(positions(coords, Seq::<i64>::empty()) =~= Seq::<P>::empty());
    }
    while w < ways.len()
        invariant
            w <= ways.len(),
            all == road_views(ways@),
            coords == nodes@,
            shared == shared_nodes(all),
            counts_match(counts@, all),
            references_closed(coords.dom(), all),
            built(numbering, edges@, coords, all_pieces(shared, all.take(w as int))),
        decreases ways.len() - w,
    {
        let way = &ways[w];
        proof {
            assert forall|i: int| 0 <= i < way.nodes@.len() implies coords.contains_key(
                #[trigger] way.nodes@[i],
            ) by {
                assert(coords.dom().contains(all[w as int].nodes[i]));
            }
            lemma_all_pieces_step(shared, all, w as int);
        }
        split_way(
            nodes,
            &counts,
            way,
            &mut numbering,
            &mut edges,
            Ghost(all),
            Ghost(all_pieces(shared, all.take(w as int))),
        );
        w = w + 1;
    }
    let ghost pieces = road_pieces(all);
    let ghost ids = node_ids(all);
    proof {
        assert(all.take(w as int) =~= all);
        lemma_first_seen(endpoints(pieces));
    }
    let graph = Graph { nodes: numbering.into_nodes(), edges };
    proof {
        assert forall|k: int| 0 <= k < pieces.len() implies graph@.edges[k] == edge_of(
            coords,
            ids,
            pieces[k],
        ) by {
            lemma_index_of_unique(ids, graph.edges@[k]@.node1);
            lemma_index_of_unique(ids, graph.edges@[k]@.node2);
        }
        assert(graph@.edges =~= graph_of(coords, all).edges);
        lemma_graph_well_formed(coords, all);
    }
    Ok(graph)
}

} // verus!
