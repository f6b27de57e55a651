//! What holds of every graph that the library builds.

use crate::graph::{edge_of, endpoints, graph_of, node_ids, road_pieces};
use crate::model::WayView;
use crate::numbering::{lemma_first_seen, positions};
use crate::refs::{reference_count, shared_nodes};
use crate::split::{
    all_pieces, is_cut, lemma_cut_is_piece_end, lemma_piece_is_stretch,
    lemma_two_node_road_is_one_piece, pieces_of, Piece,
};
use vstd::prelude::*;

verus! {

/// Each piece of the roads is a piece of one of the roads. Returns the place
/// of the road and the place of the piece among that road's pieces.
pub proof fn lemma_piece_of_some_road(shared: Set<i64>, ways: Seq<WayView>, k: int) -> (place: (
    int,
    int,
))
    requires
        0 <= k < all_pieces(shared, ways).len(),
    ensures
        0 <= place.0 < ways.len(),
        0 <= place.1 < pieces_of(shared, ways[place.0]).len(),
        all_pieces(shared, ways)[k] == pieces_of(shared, ways[place.0])[place.1],
    decreases ways.len(),
{
    let before = all_pieces(shared, ways.drop_last());
    if k < before.len() {
        lemma_piece_of_some_road(shared, ways.drop_last(), k)
    } else {
        (ways.len() - 1, k - before.len())
    }
}

/// Each piece of each road is among the pieces of the roads. Returns its
/// place there.
pub proof fn lemma_road_piece_is_listed(
    shared: Set<i64>,
    ways: Seq<WayView>,
    w: int,
    i: int,
) -> (k: int)
    requires
        0 <= w < ways.len(),
        0 <= i < pieces_of(shared, ways[w]).len(),
    ensures
        0 <= k < all_pieces(shared, ways).len(),
        all_pieces(shared, ways)[k] == pieces_of(shared, ways[w])[i],
    decreases ways.len(),
{
    let before = all_pieces(shared, ways.drop_last());
    if w < ways.len() - 1 {
        lemma_road_piece_is_listed(shared, ways.drop_last(), w, i)
    } else {
        before.len() + i
    }
}

/// The two ends of each piece are among the endpoints.
pub proof fn lemma_endpoints_cover(pieces: Seq<Piece>, k: int)
    requires
        0 <= k < pieces.len(),
    ensures
        endpoints(pieces).contains(pieces[k].path.first()),
        endpoints(pieces).contains(pieces[k].path.last()),
    decreases pieces.len(),
{
    let all = endpoints(pieces);
    let before = endpoints(pieces.drop_last());
    if k < pieces.len() - 1 {
        lemma_endpoints_cover(pieces.drop_last(), k);
        let a = choose|a: int| 0 <= a < before.len() && before[a] == pieces[k].path.first();
        assert(all[a] == pieces[k].path.first());
        let b = choose|b: int| 0 <= b < before.len() && before[b] == pieces[k].path.last();
        assert(all[b] == pieces[k].path.last());
    } else {
        assert(all[all.len() - 2] == pieces[k].path.first());
        assert(all[all.len() - 1] == pieces[k].path.last());
    }
}

/// Each endpoint is an end of one of the pieces. Returns the place of such a
/// piece.
pub proof fn lemma_endpoint_is_piece_end(pieces: Seq<Piece>, node: i64) -> (k: int)
    requires
        endpoints(pieces).contains(node),
    ensures
        0 <= k < pieces.len(),
        pieces[k].path.first() == node || pieces[k].path.last() == node,
    decreases pieces.len(),
{
    let all = endpoints(pieces);
    let before = endpoints(pieces.drop_last());
    let a = choose|a: int| 0 <= a < all.len() && all[a] == node;
    if a < before.len() {
        assert(before[a] == node);
        lemma_endpoint_is_piece_end(pieces.drop_last(), node)
    } else {
        pieces.len() - 1
    }
}

/// The numbers of the graph's nodes. No node has two numbers. The node
/// with number `i` lies where the raw node that it stands for lies. Each edge
/// starts at the number of its piece's first node and ends at the number of its
/// piece's last node.
pub proof fn lemma_node_numbers<P>(coords: Map<i64, P>, ways: Seq<WayView>)
    ensures
        node_ids(ways).no_duplicates(),
        graph_of(coords, ways).nodes.len() == node_ids(ways).len(),
        graph_of(coords, ways).edges.len() == road_pieces(ways).len(),
        forall|i: int|
            0 <= i < node_ids(ways).len() ==> #[trigger] graph_of(coords, ways).nodes[i]
                == coords[node_ids(ways)[i]],
        forall|k: int|
            0 <= k < road_pieces(ways).len() ==> {
                let edge = #[trigger] graph_of(coords, ways).edges[k];
                let piece = road_pieces(ways)[k];
                &&& 0 <= edge.node1 < node_ids(ways).len()
                &&& 0 <= edge.node2 < node_ids(ways).len()
                &&& node_ids(ways)[edge.node1] == piece.path.first()
                &&& node_ids(ways)[edge.node2] == piece.path.last()
                &&& edge.geometry == positions(coords, piece.path)
                &&& edge.name == piece.name
            },
{
    let pieces = road_pieces(ways);
    let ids = node_ids(ways);
    lemma_first_seen(endpoints(pieces));
    assert forall|k: int| 0 <= k < pieces.len() implies {
        let edge = #[trigger] graph_of(coords, ways).edges[k];
        let piece = pieces[k];
        &&& 0 <= edge.node1 < ids.len()
        &&& 0 <= edge.node2 < ids.len()
        &&& ids[edge.node1] == piece.path.first()
        &&& ids[edge.node2] == piece.path.last()
        &&& edge.geometry == positions(coords, piece.path)
        &&& edge.name == piece.name
    } by {
        lemma_endpoints_cover(pieces, k);
        assert(ids.contains(pieces[k].path.first()));
        assert(ids.contains(pieces[k].path.last()));
        assert(graph_of(coords, ways).edges[k] == edge_of(coords, ids, pieces[k]));
    }
}

/// Each edge runs between two nodes of the graph, along two or more
/// positions, and its first and last positions are exactly those of the two
/// nodes.
pub proof fn lemma_graph_well_formed<P>(coords: Map<i64, P>, ways: Seq<WayView>)
    ensures
        graph_of(coords, ways).well_formed(),
{
    let graph = graph_of(coords, ways);
    let pieces = road_pieces(ways);
    let ids = node_ids(ways);
    lemma_node_numbers(coords, ways);
    assert forall|k: int| 0 <= k < graph.edges.len() implies {
        let e = #[trigger] graph.edges[k];
        &&& 0 <= e.node1 < graph.nodes.len()
        &&& 0 <= e.node2 < graph.nodes.len()
        &&& e.geometry.len() >= 2
        &&& e.geometry.first() == graph.nodes[e.node1]
        &&& e.geometry.last() == graph.nodes[e.node2]
    } by {
        let place = lemma_piece_of_some_road(shared_nodes(ways), ways, k);
        lemma_piece_is_stretch(shared_nodes(ways), ways[place.0], place.1);
        let e = graph.edges[k];
        assert(graph.nodes[e.node1] == coords[ids[e.node1]]);
        assert(graph.nodes[e.node2] == coords[ids[e.node2]]);
    }
}

/// Two edges that touch the same raw node touch the same node of the graph,
/// and two that touch different raw nodes touch different nodes of the graph.
pub proof fn lemma_one_node_per_id<P>(coords: Map<i64, P>, ways: Seq<WayView>, a: int, b: int)
    requires
        0 <= a < road_pieces(ways).len(),
        0 <= b < road_pieces(ways).len(),
    ensures
        ({
            let pieces = road_pieces(ways);
            let edges = graph_of(coords, ways).edges;
            &&& pieces[a].path.first() == pieces[b].path.first() <==> edges[a].node1
                == edges[b].node1
            &&& pieces[a].path.first() == pieces[b].path.last() <==> edges[a].node1
                == edges[b].node2
            &&& pieces[a].path.last() == pieces[b].path.first() <==> edges[a].node2
                == edges[b].node1
            &&& pieces[a].path.last() == pieces[b].path.last() <==> edges[a].node2
                == edges[b].node2
        }),
{
    lemma_node_numbers(coords, ways);
}

/// A cut of a road of two or more nodes is a node of the graph.
pub proof fn lemma_cut_is_graph_node(ways: Seq<WayView>, w: int, c: int)
    requires
        0 <= w < ways.len(),
        ways[w].nodes.len() >= 2,
        0 <= c < ways[w].nodes.len(),
        is_cut(shared_nodes(ways), ways[w].nodes, c),
    ensures
        node_ids(ways).contains(ways[w].nodes[c]),
{
    let shared = shared_nodes(ways);
    let pieces = road_pieces(ways);
    let p = lemma_cut_is_piece_end(shared, ways[w], c);
    let k = lemma_road_piece_is_listed(shared, ways, w, p);
    lemma_endpoints_cover(pieces, k);
    lemma_first_seen(endpoints(pieces));
}

/// The first and the last node of a road of two or more nodes are nodes of
/// the graph, however often the roads refer to them.
pub proof fn lemma_road_ends_are_graph_nodes(ways: Seq<WayView>, w: int)
    requires
        0 <= w < ways.len(),
        ways[w].nodes.len() >= 2,
    ensures
        node_ids(ways).contains(ways[w].nodes.first()),
        node_ids(ways).contains(ways[w].nodes.last()),
{
    lemma_cut_is_graph_node(ways, w, 0);
    lemma_cut_is_graph_node(ways, w, ways[w].nodes.len() - 1);
}

/// A node that lies on a road of two or more nodes and that more than one
/// position refers to is a node of the graph, under one number, and lies
/// there where the raw node lies.
pub proof fn lemma_shared_node_is_graph_node<P>(
    coords: Map<i64, P>,
    ways: Seq<WayView>,
    w: int,
    i: int,
)
    requires
        0 <= w < ways.len(),
        ways[w].nodes.len() >= 2,
        0 <= i < ways[w].nodes.len(),
        reference_count(ways, ways[w].nodes[i]) > 1,
    ensures
        ({
            let node = ways[w].nodes[i];
            let ids = node_ids(ways);
            &&& ids.contains(node)
            &&& 0 <= ids.index_of(node) < ids.len()
            &&& forall|n: int| 0 <= n < ids.len() && ids[n] == node ==> n == ids.index_of(node)
            &&& graph_of(coords, ways).nodes[ids.index_of(node)] == coords[node]
        }),
{
    let node = ways[w].nodes[i];
    let ids = node_ids(ways);
    assert(shared_nodes(ways).contains(node));
    lemma_cut_is_graph_node(ways, w, i);
    lemma_node_numbers(coords, ways);
    let at = ids.index_of(node);
    assert(graph_of(coords, ways).nodes[at] == coords[ids[at]]);
}

/// Each node of the graph is an end of one of the pieces, and so a cut of
/// one of the roads. Returns the place of such a piece.
pub proof fn lemma_graph_node_is_piece_end(ways: Seq<WayView>, n: int) -> (k: int)
    requires
        0 <= n < node_ids(ways).len(),
    ensures
        0 <= k < road_pieces(ways).len(),
        road_pieces(ways)[k].path.first() == node_ids(ways)[n] || road_pieces(
            ways,
        )[k].path.last() == node_ids(ways)[n],
{
    let pieces = road_pieces(ways);
    lemma_first_seen(endpoints(pieces));
    assert(node_ids(ways).contains(node_ids(ways)[n]));
    lemma_endpoint_is_piece_end(pieces, node_ids(ways)[n])
}

/// Each edge carries the name of the road that it was cut from. Returns the
/// place of that road.
pub proof fn lemma_edge_has_road_name<P>(
    coords: Map<i64, P>,
    ways: Seq<WayView>,
    k: int,
) -> (w: int)
    requires
        0 <= k < graph_of(coords, ways).edges.len(),
    ensures
        0 <= w < ways.len(),
        graph_of(coords, ways).edges[k].name == ways[w].name,
{
    let place = lemma_piece_of_some_road(shared_nodes(ways), ways, k);
    lemma_piece_is_stretch(shared_nodes(ways), ways[place.0], place.1);
    place.0
}

/// Where no road has a name, no edge has one.
pub proof fn lemma_no_names_no_edge_names<P>(coords: Map<i64, P>, ways: Seq<WayView>)
    requires
        forall|w: int| 0 <= w < ways.len() ==> (#[trigger] ways[w]).name is None,
    ensures
        forall|k: int|
            0 <= k < graph_of(coords, ways).edges.len() ==> (#[trigger] graph_of(
                coords,
                ways,
            ).edges[k]).name is None,
{
    assert forall|k: int| 0 <= k < graph_of(coords, ways).edges.len() implies (#[trigger] graph_of(
        coords,
        ways,
    ).edges[k]).name is None by {
        lemma_edge_has_road_name(coords, ways, k);
    }
}

/// A road of exactly two nodes gives exactly one edge, from the graph node of
/// its first node to the graph node of its second.
pub proof fn lemma_two_node_road_is_one_edge<P>(
    coords: Map<i64, P>,
    ways: Seq<WayView>,
    w: int,
) -> (k: int)
    requires
        0 <= w < ways.len(),
        ways[w].nodes.len() == 2,
    ensures
        pieces_of(shared_nodes(ways), ways[w]).len() == 1,
        0 <= k < graph_of(coords, ways).edges.len(),
        road_pieces(ways)[k] == pieces_of(shared_nodes(ways), ways[w])[0],
        ({
            let edge = graph_of(coords, ways).edges[k];
            &&& node_ids(ways)[edge.node1] == ways[w].nodes[0]
            &&& node_ids(ways)[edge.node2] == ways[w].nodes[1]
            &&& edge.geometry == seq![coords[ways[w].nodes[0]], coords[ways[w].nodes[1]]]
            &&& edge.name == ways[w].name
        }),
{
    lemma_two_node_road_is_one_piece(shared_nodes(ways), ways[w]);
    let k = lemma_road_piece_is_listed(shared_nodes(ways), ways, w, 0);
    lemma_node_numbers(coords, ways);
    let edge = graph_of(coords, ways).edges[k];
    assert(edge.geometry =~= seq![coords[ways[w].nodes[0]], coords[ways[w].nodes[1]]]);
    k
}

} // verus!
