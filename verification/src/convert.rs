//! The whole conversion: from the elements to the graph.

use crate::graph::build_graph;
use crate::laws::lemma_graph_well_formed;
use crate::missing::{lemma_first_dangling, references_closed};
use crate::model::{Element, Graph, GraphError, Way};
use crate::refs::road_views;
use crate::scrape::{
    element_views, lemma_road_names, node_table, scrape_elements, way_table, way_views,
};
use crate::split::is_stretch;
use crate::table::{
    dangles, edge_is_a_stretch, edge_runs_along, edges_are_the_stretches, is_graph_of_table,
    lemma_edges_are_the_stretches, lemma_nodes_are_the_junctions, lists_each_road_once,
    nodes_are_the_junctions, roads_in_order, shared_in_table, table_closed,
};
use std::collections::HashMap;
use vstd::prelude::*;
use vstd::std_specs::hash::spec_hash_map_iter;
use vstd::std_specs::iter::IteratorSpec;

verus! {

/// Builds the graph of the roads of a table.
///
/// The roads are taken in the order in which the table hands them out, which
/// is not fixed: the graph is that of the roads in some order. The order
/// decides the numbers of the nodes and the order of the edges, nothing else.
///
/// Fails if a road runs through a node that has no position in `nodes`.
pub fn split_edges<P: Copy>(nodes: &HashMap<i64, P>, ways: &HashMap<i64, Way>) -> (result: Result<
    Graph<P>,
    GraphError,
>)
    ensures
        match result {
            Ok(graph) => {
                &&& table_closed(nodes@.dom(), way_views(ways@))
                &&& is_graph_of_table(graph@, nodes@, way_views(ways@))
                &&& graph@.well_formed()
                &&& edges_are_the_stretches(graph@, nodes@, way_views(ways@))
                &&& nodes_are_the_junctions(graph@, nodes@, way_views(ways@))
            },
            Err(error) => dangles(nodes@.dom(), way_views(ways@), error->node),
        },
{
    broadcast use vstd::std_specs::hash::group_hash_axioms;

    let ghost table = way_views(ways@);
    let ghost known = nodes@.dom();
    let mut roads: Vec<Way> = Vec::new();
    let ghost mut order: Seq<i64> = Seq::empty();
    for pair in it: ways.iter()
        invariant
            table == way_views(ways@),
            it.seq() == spec_hash_map_iter(ways).remaining(),
            it.seq().no_duplicates(),
            roads@.len() == it.index(),
            order.len() == it.index(),
            forall|j: int| 0 <= j < it.index() ==> #[trigger] order[j] == *it.seq()[j].0,
            forall|j: int| 0 <= j < it.index() ==> (#[trigger] roads@[j])@ == (*it.seq()[j].1)@,
    {
        let (id, way) = pair;
        roads.push(way.copy());
        proof {
            order = order.push(*id);
        }
    }
    let ghost listed = spec_hash_map_iter(ways).remaining();
    proof {
        assert(order.len() == listed.len());
        assert forall|a: int, b: int|
            0 <= a < order.len() && 0 <= b < order.len() && a != b implies order[a]
            != order[b] by {
            if order[a] == order[b] {
                assert(ways@.contains_key(*listed[a].0) && ways@[*listed[a].0] == *listed[a].1);
                assert(ways@.contains_key(*listed[b].0) && ways@[*listed[b].0] == *listed[b].1);
                assert(listed[a] == listed[b]);
            }
        }
        assert forall|id: i64| order.contains(id) <==> table.contains_key(id) by {
            if order.contains(id) {
                let j = choose|j: int| 0 <= j < order.len() && order[j] == id;
                assert(ways@.contains_key(*listed[j].0));
            }
            if table.contains_key(id) {
                assert(ways@.contains_key(id));
                assert(listed.contains((&id, &ways@[id])));
                let j = choose|j: int| 0 <= j < listed.len() && listed[j] == (&id, &ways@[id]);
                assert(order[j] == id);
            }
        }
        assert(lists_each_road_once(order, table));
        assert forall|j: int| 0 <= j < order.len() implies road_views(roads@)[j]
            == table[order[j]] by {
            assert(ways@.contains_key(*listed[j].0) && ways@[*listed[j].0] == *listed[j].1);
            assert(roads@[j]@ == (*listed[j].1)@);
        }
        assert(road_views(roads@) =~= roads_in_order(table, order));
        lemma_first_dangling(known, road_views(roads@));
    }
    let result = build_graph(nodes, &roads);
    proof {
        let all = road_views(roads@);
        match &result {
            Ok(graph) => {
                lemma_graph_well_formed(nodes@, all);
                assert(is_graph_of_table(graph@, nodes@, table));
                lemma_edges_are_the_stretches(graph@, nodes@, table);
                lemma_nodes_are_the_junctions(graph@, nodes@, table);
                assert(references_closed(known, all));
                assert forall|id: i64, i: int|
                    table.contains_key(id) && 0 <= i < table[id].nodes.len() implies known.contains(
                    #[trigger] table[id].nodes[i],
                ) by {
                    assert(order.contains(id));
                    let j = choose|j: int| 0 <= j < order.len() && order[j] == id;
                    assert(all[j] == table[id]);
                    assert(known.contains(all[j].nodes[i]));
                }
            },
            Err(error) => {
                let node = error->node;
                let j = choose|j: int|
                    0 <= j < all.len() && (#[trigger] all[j]).nodes.contains(node);
                assert(order.contains(order[j]));
                assert(table.contains_key(order[j]));
                assert(table[order[j]].nodes.contains(node));
            },
        }
    }
    result
}

/// Converts the elements of a map extract into a routing graph.
///
/// The nodes give the positions, the ways that are roads give the edges, and
/// `road_names` says whether the edges carry the names of their roads.
///
/// Fails if a road runs through a node that the elements do not hold.
pub fn convert_osm<P: Copy>(elements: &Vec<Element<P>>, road_names: bool) -> (result: Result<
    Graph<P>,
    GraphError,
>)
    ensures
        match result {
            Ok(graph) => {
                &&& table_closed(
                    node_table(element_views(elements@)).dom(),
                    way_table(element_views(elements@), road_names),
                )
                &&& is_graph_of_table(
                    graph@,
                    node_table(element_views(elements@)),
                    way_table(element_views(elements@), road_names),
                )
                &&& graph@.well_formed()
                &&& edges_are_the_stretches(
                    graph@,
                    node_table(element_views(elements@)),
                    way_table(element_views(elements@), road_names),
                )
                &&& nodes_are_the_junctions(
                    graph@,
                    node_table(element_views(elements@)),
                    way_table(element_views(elements@), road_names),
                )
                &&& !road_names ==> forall|k: int|
                    0 <= k < graph@.edges.len() ==> (#[trigger] graph@.edges[k]).name is None
            },
            Err(error) => dangles(
                node_table(element_views(elements@)).dom(),
                way_table(element_views(elements@), road_names),
                error->node,
            ),
        },
{
    let (nodes, ways) = scrape_elements(elements, road_names);
    let result = split_edges(&nodes, &ways);
    proof {
        let all = element_views(elements@);
        let coords = node_table(all);
        let table = way_table(all, road_names);
        if let Ok(graph) = &result {
            if !road_names {
                assert forall|k: int| 0 <= k < graph@.edges.len() implies (
                #[trigger] graph@.edges[k]).name is None by {
                    assert(edge_is_a_stretch(graph@, k, coords, table));
                    let (id, a, b) = choose|id: i64, a: int, b: int|
                        #![trigger is_stretch(shared_in_table(table), table[id].nodes, a, b)]
                        table.contains_key(id) && is_stretch(
                            shared_in_table(table),
                            table[id].nodes,
                            a,
                            b,
                        ) && edge_runs_along(graph@, k, coords, table[id], a, b);
                    lemma_road_names(all, road_names, id);
                }
            }
        }
    }
    result
}

} // verus!
