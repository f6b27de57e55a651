//! The graph of a table of roads, whatever the order in which the roads are
//! taken.
//!
//! The order of the roads decides the numbers of the graph's nodes and the
//! order of its edges. It decides nothing else: which nodes are shared, which
//! pieces the roads are cut into, and which nodes the graph has are the same
//! for every order.

use crate::graph::{endpoints, graph_of, node_ids, road_pieces};
use crate::laws::{
    lemma_endpoints_cover, lemma_graph_node_is_piece_end, lemma_node_numbers,
    lemma_piece_of_some_road, lemma_road_piece_is_listed,
};
use crate::model::{GraphView, WayView};
use crate::numbering::{lemma_first_seen, positions};
use crate::refs::{
    lemma_two_references, lemma_two_references_witness, reference_count, shared_nodes,
};
use crate::split::{
    is_cut, is_stretch, lemma_cut_is_piece_end, lemma_piece_is_stretch, lemma_stretch_is_piece,
    piece_between,
};
use vstd::prelude::*;

verus! {

/// `order` lists the ids of the roads of a table, each once.
pub open spec fn lists_each_road_once(order: Seq<i64>, ways: Map<i64, WayView>) -> bool {
    &&& order.no_duplicates()
    &&& forall|id: i64| order.contains(id) <==> ways.contains_key(id)
}

/// The roads of a table, in the order in which `order` lists their ids.
pub open spec fn roads_in_order(ways: Map<i64, WayView>, order: Seq<i64>) -> Seq<WayView> {
    Seq::new(order.len(), |k: int| ways[order[k]])
}

/// Every node that a road of the table runs through is among `known`.
pub open spec fn table_closed(known: Set<i64>, ways: Map<i64, WayView>) -> bool {
    forall|id: i64, i: int|
        ways.contains_key(id) && 0 <= i < ways[id].nodes.len() ==> known.contains(
            #[trigger] ways[id].nodes[i],
        )
}

/// `node` is a node that a road of the table runs through and that is not
/// among `known`.
pub open spec fn dangles(known: Set<i64>, ways: Map<i64, WayView>, node: i64) -> bool {
    &&& !known.contains(node)
    &&& exists|id: i64| ways.contains_key(id) && (#[trigger] ways[id]).nodes.contains(node)
}

/// `graph` is the graph of the roads of the table, taken in some order.
pub open spec fn is_graph_of_table<P>(
    graph: GraphView<P>,
    coords: Map<i64, P>,
    ways: Map<i64, WayView>,
) -> bool {
    exists|order: Seq<i64>| #[trigger]
        lists_each_road_once(order, ways) && graph == graph_of(
            coords,
            roads_in_order(ways, order),
        )
}

/// Position `i` of road `id` of the table holds `node`.
pub open spec fn refers(ways: Map<i64, WayView>, id: i64, i: int, node: i64) -> bool {
    ways.contains_key(id) && 0 <= i < ways[id].nodes.len() && ways[id].nodes[i] == node
}

/// The nodes to which two different positions of the roads of the table refer.
pub open spec fn shared_in_table(ways: Map<i64, WayView>) -> Set<i64> {
    Set::new(
        |node: i64|
            exists|id1: i64, i1: int, id2: i64, i2: int|
                #![trigger refers(ways, id1, i1, node), refers(ways, id2, i2, node)]
                refers(ways, id1, i1, node) && refers(ways, id2, i2, node) && (id1 != id2 || i1
                    != i2),
    )
}

/// `node` is a junction: a cut of a road of two or more nodes.
pub open spec fn is_junction(ways: Map<i64, WayView>, node: i64) -> bool {
    exists|id: i64, c: int|
        #![trigger refers(ways, id, c, node)]
        refers(ways, id, c, node) && ways[id].nodes.len() >= 2 && is_cut(
            shared_in_table(ways),
            ways[id].nodes,
            c,
        )
}

/// The place of a road in an order that lists it.
pub proof fn lemma_place_in_order(order: Seq<i64>, ways: Map<i64, WayView>, id: i64) -> (w: int)
    requires
        lists_each_road_once(order, ways),
        ways.contains_key(id),
    ensures
        0 <= w < order.len(),
        order[w] == id,
        roads_in_order(ways, order)[w] == ways[id],
{
    assert(order.contains(id));
    choose|w: int| 0 <= w < order.len() && order[w] == id
}

/// The road at a place of an order is a road of the table.
pub proof fn lemma_road_at_place(order: Seq<i64>, ways: Map<i64, WayView>, w: int)
    requires
        lists_each_road_once(order, ways),
        0 <= w < order.len(),
    ensures
        ways.contains_key(order[w]),
        roads_in_order(ways, order)[w] == ways[order[w]],
{
    assert(order.contains(order[w]));
}

/// Which nodes are shared does not depend on the order of the roads.
pub proof fn lemma_shared_whatever_the_order(order: Seq<i64>, ways: Map<i64, WayView>)
    requires
        lists_each_road_once(order, ways),
    ensures
        shared_nodes(roads_in_order(ways, order)) == shared_in_table(ways),
{
    let roads = roads_in_order(ways, order);
    assert forall|node: i64|
        shared_nodes(roads).contains(node) <==> shared_in_table(ways).contains(node) by {
        if reference_count(roads, node) > 1 {
            let (w1, i1, w2, i2) = lemma_two_references_witness(roads, node);
            lemma_road_at_place(order, ways, w1);
            lemma_road_at_place(order, ways, w2);
            assert(refers(ways, order[w1], i1, node));
            assert(refers(ways, order[w2], i2, node));
            assert(shared_in_table(ways).contains(node));
        }
        if shared_in_table(ways).contains(node) {
            let (id1, i1, id2, i2) = choose|id1: i64, i1: int, id2: i64, i2: int|
                #![trigger refers(ways, id1, i1, node), refers(ways, id2, i2, node)]
                refers(ways, id1, i1, node) && refers(ways, id2, i2, node) && (id1 != id2 || i1
                    != i2);
            let w1 = lemma_place_in_order(order, ways, id1);
            let w2 = lemma_place_in_order(order, ways, id2);
            lemma_two_references(roads, w1, i1, w2, i2);
        }
    }
    assert(shared_nodes(roads) =~= shared_in_table(ways));
}

/// Whatever the order, each edge of the graph of a table runs along one road
/// of the table from one cut to the next, and carries that road's name.
/// Returns the id of the road and the two positions.
pub proof fn lemma_edge_is_stretch_of_a_road<P>(
    coords: Map<i64, P>,
    ways: Map<i64, WayView>,
    order: Seq<i64>,
    k: int,
) -> (at: (i64, int, int))
    requires
        lists_each_road_once(order, ways),
        0 <= k < graph_of(coords, roads_in_order(ways, order)).edges.len(),
    ensures
        ways.contains_key(at.0),
        is_stretch(shared_in_table(ways), ways[at.0].nodes, at.1, at.2),
        ({
            let graph = graph_of(coords, roads_in_order(ways, order));
            let edge = graph.edges[k];
            let road = ways[at.0];
            &&& edge.geometry == positions(coords, road.nodes.subrange(at.1, at.2 + 1))
            &&& edge.name == road.name
            &&& graph.nodes[edge.node1] == coords[road.nodes[at.1]]
            &&& graph.nodes[edge.node2] == coords[road.nodes[at.2]]
        }),
{
    let roads = roads_in_order(ways, order);
    let shared = shared_nodes(roads);
    lemma_shared_whatever_the_order(order, ways);
    lemma_node_numbers(coords, roads);
    let (w, p) = lemma_piece_of_some_road(shared, roads, k);
    let (a, b) = lemma_piece_is_stretch(shared, roads[w], p);
    lemma_road_at_place(order, ways, w);
    let graph = graph_of(coords, roads);
    let edge = graph.edges[k];
    assert(graph.nodes[edge.node1] == coords[node_ids(roads)[edge.node1]]);
    assert(graph.nodes[edge.node2] == coords[node_ids(roads)[edge.node2]]);
    (order[w], a, b)
}

/// Whatever the order, the graph of a table has an edge for each run of each
/// road from one cut to the next. Returns the place of the edge.
pub proof fn lemma_stretch_of_a_road_is_edge<P>(
    coords: Map<i64, P>,
    ways: Map<i64, WayView>,
    order: Seq<i64>,
    id: i64,
    a: int,
    b: int,
) -> (k: int)
    requires
        lists_each_road_once(order, ways),
        ways.contains_key(id),
        is_stretch(shared_in_table(ways), ways[id].nodes, a, b),
    ensures
        0 <= k < graph_of(coords, roads_in_order(ways, order)).edges.len(),
        ({
            let graph = graph_of(coords, roads_in_order(ways, order));
            let edge = graph.edges[k];
            &&& edge.geometry == positions(coords, ways[id].nodes.subrange(a, b + 1))
            &&& edge.name == ways[id].name
            &&& graph.nodes[edge.node1] == coords[ways[id].nodes[a]]
            &&& graph.nodes[edge.node2] == coords[ways[id].nodes[b]]
        }),
{
    let roads = roads_in_order(ways, order);
    let shared = shared_nodes(roads);
    lemma_shared_whatever_the_order(order, ways);
    let w = lemma_place_in_order(order, ways, id);
    let p = lemma_stretch_is_piece(shared, roads[w], a, b);
    let k = lemma_road_piece_is_listed(shared, roads, w, p);
    lemma_node_numbers(coords, roads);
    let graph = graph_of(coords, roads);
    let edge = graph.edges[k];
    assert(road_pieces(roads)[k] == piece_between(ways[id], a, b));
    assert(graph.nodes[edge.node1] == coords[node_ids(roads)[edge.node1]]);
    assert(graph.nodes[edge.node2] == coords[node_ids(roads)[edge.node2]]);
    k
}

/// Whatever the order, the nodes of the graph of a table are the junctions of
/// the table, each once.
pub proof fn lemma_graph_nodes_are_the_junctions(ways: Map<i64, WayView>, order: Seq<i64>)
    requires
        lists_each_road_once(order, ways),
    ensures
        node_ids(roads_in_order(ways, order)).no_duplicates(),
        forall|node: i64|
            node_ids(roads_in_order(ways, order)).contains(node) <==> is_junction(ways, node),
{
    let roads = roads_in_order(ways, order);
    let shared = shared_nodes(roads);
    let pieces = road_pieces(roads);
    let ids = node_ids(roads);
    lemma_shared_whatever_the_order(order, ways);
    lemma_first_seen(endpoints(pieces));
    assert forall|node: i64| ids.contains(node) <==> is_junction(ways, node) by {
        if ids.contains(node) {
            let n = choose|n: int| 0 <= n < ids.len() && ids[n] == node;
            let k = lemma_graph_node_is_piece_end(roads, n);
            let (w, p) = lemma_piece_of_some_road(shared, roads, k);
            let (a, b) = lemma_piece_is_stretch(shared, roads[w], p);
            lemma_road_at_place(order, ways, w);
            if pieces[k].path.first() == node {
                assert(refers(ways, order[w], a, node));
            } else {
                assert(refers(ways, order[w], b, node));
            }
        }
        if is_junction(ways, node) {
            let (id, c) = choose|id: i64, c: int|
                #![trigger refers(ways, id, c, node)]
                refers(ways, id, c, node) && ways[id].nodes.len() >= 2 && is_cut(
                    shared_in_table(ways),
                    ways[id].nodes,
                    c,
                );
            let w = lemma_place_in_order(order, ways, id);
            let p = lemma_cut_is_piece_end(shared, roads[w], c);
            let k = lemma_road_piece_is_listed(shared, roads, w, p);
            lemma_endpoints_cover(pieces, k);
        }
    }
}

/// Edge `k` of the graph runs along `road` from position `a` to position
/// `b`, under the road's name, between the graph nodes that lie where the
/// road's nodes at `a` and `b` lie.
pub open spec fn edge_runs_along<P>(
    graph: GraphView<P>,
    k: int,
    coords: Map<i64, P>,
    road: WayView,
    a: int,
    b: int,
) -> bool {
    let edge = graph.edges[k];
    &&& 0 <= k < graph.edges.len()
    &&& edge.geometry == positions(coords, road.nodes.subrange(a, b + 1))
    &&& edge.name == road.name
    &&& 0 <= edge.node1 < graph.nodes.len()
    &&& 0 <= edge.node2 < graph.nodes.len()
    &&& graph.nodes[edge.node1] == coords[road.nodes[a]]
    &&& graph.nodes[edge.node2] == coords[road.nodes[b]]
}

/// Edge `k` of the graph runs along one of the roads of the table from one
/// cut to the next.
pub open spec fn edge_is_a_stretch<P>(
    graph: GraphView<P>,
    k: int,
    coords: Map<i64, P>,
    ways: Map<i64, WayView>,
) -> bool {
    exists|id: i64, a: int, b: int|
        #![trigger is_stretch(shared_in_table(ways), ways[id].nodes, a, b)]
        ways.contains_key(id) && is_stretch(shared_in_table(ways), ways[id].nodes, a, b)
            && edge_runs_along(graph, k, coords, ways[id], a, b)
}

/// The edges of the graph are the runs of the roads of the table from one
/// cut to the next: each edge is such a run, and each such run has an edge.
pub open spec fn edges_are_the_stretches<P>(
    graph: GraphView<P>,
    coords: Map<i64, P>,
    ways: Map<i64, WayView>,
) -> bool {
    &&& forall|k: int|
        0 <= k < graph.edges.len() ==> #[trigger] edge_is_a_stretch(graph, k, coords, ways)
    &&& forall|id: i64, a: int, b: int|
        ways.contains_key(id) && #[trigger] is_stretch(
            shared_in_table(ways),
            ways[id].nodes,
            a,
            b,
        ) ==> exists|k: int| #[trigger] edge_runs_along(graph, k, coords, ways[id], a, b)
}

/// The graph of a table, whatever the order of its roads, has the runs of
/// the roads from one cut to the next for its edges.
pub proof fn lemma_edges_are_the_stretches<P>(
    graph: GraphView<P>,
    coords: Map<i64, P>,
    ways: Map<i64, WayView>,
)
    requires
        is_graph_of_table(graph, coords, ways),
    ensures
        edges_are_the_stretches(graph, coords, ways),
{
    let order = choose|order: Seq<i64>| #[trigger]
        lists_each_road_once(order, ways) && graph == graph_of(
            coords,
            roads_in_order(ways, order),
        );
    lemma_node_numbers(coords, roads_in_order(ways, order));
    assert forall|k: int| 0 <= k < graph.edges.len() implies #[trigger] edge_is_a_stretch(
        graph,
        k,
        coords,
        ways,
    ) by {
        let (id, a, b) = lemma_edge_is_stretch_of_a_road(coords, ways, order, k);
        assert(is_stretch(shared_in_table(ways), ways[id].nodes, a, b) && edge_runs_along(
            graph,
            k,
            coords,
            ways[id],
            a,
            b,
        ));
    }
    assert forall|id: i64, a: int, b: int|
        ways.contains_key(id) && #[trigger] is_stretch(
            shared_in_table(ways),
            ways[id].nodes,
            a,
            b,
        ) implies exists|k: int| #[trigger] edge_runs_along(graph, k, coords, ways[id], a, b) by {
        let k = lemma_stretch_of_a_road_is_edge(coords, ways, order, id, a, b);
        assert(edge_runs_along(graph, k, coords, ways[id], a, b));
    }
}

/// The nodes of the graph are the junctions of the table, each once: the
/// graph's nodes lie where the nodes of some list of ids lie, and that list
/// holds each junction once and nothing else.
pub open spec fn nodes_are_the_junctions<P>(
    graph: GraphView<P>,
    coords: Map<i64, P>,
    ways: Map<i64, WayView>,
) -> bool {
    exists|ids: Seq<i64>|
        {
            &&& #[trigger] ids.no_duplicates()
            &&& graph.nodes == positions(coords, ids)
            &&& forall|node: i64| ids.contains(node) <==> is_junction(ways, node)
        }
}

/// The graph of a table, whatever the order of its roads, has the junctions
/// of the table for its nodes.
pub proof fn lemma_nodes_are_the_junctions<P>(
    graph: GraphView<P>,
    coords: Map<i64, P>,
    ways: Map<i64, WayView>,
)
    requires
        is_graph_of_table(graph, coords, ways),
    ensures
        nodes_are_the_junctions(graph, coords, ways),
{
    let order = choose|order: Seq<i64>| #[trigger]
        lists_each_road_once(order, ways) && graph == graph_of(
            coords,
            roads_in_order(ways, order),
        );
    let ids = node_ids(roads_in_order(ways, order));
    lemma_graph_nodes_are_the_junctions(ways, order);
    assert(ids.no_duplicates() && graph.nodes == positions(coords, ids));
}

} // verus!
