use geo::Coord;
use osm_to_route_snapper::{build_graph, find_missing_node, Edge, Graph, GraphError, Way};
use std::collections::HashMap;

fn at(id: i64) -> Coord {
    Coord { x: id as f64 * 0.001, y: 51.0 + id as f64 * 0.002 }
}

fn positions(ids: &[i64]) -> HashMap<i64, Coord> {
    let mut nodes = HashMap::new();
    for id in ids {
        nodes.insert(*id, at(*id));
    }
    nodes
}

fn line(ids: &[i64]) -> Vec<Coord> {
    ids.iter().map(|id| at(*id)).collect()
}

fn road(nodes: &[i64]) -> Way {
    Way { name: None, nodes: nodes.to_vec() }
}

fn named(name: &str, nodes: &[i64]) -> Way {
    Way { name: Some(name.to_string()), nodes: nodes.to_vec() }
}

fn edge(node1: usize, node2: usize, ids: &[i64]) -> Edge<Coord> {
    Edge { node1, node2, geometry: line(ids), name: None }
}

fn built(nodes: &HashMap<i64, Coord>, ways: &Vec<Way>) -> Graph<Coord> {
    match build_graph(nodes, ways) {
        Ok(graph) => graph,
        Err(error) => panic!("no graph: {:?}", error),
    }
}

#[test]
fn no_roads_give_an_empty_graph() {
    let graph = built(&positions(&[1, 2]), &vec![]);
    assert_eq!(graph.nodes, vec![]);
    assert_eq!(graph.edges, vec![]);
}

#[test]
fn road_of_two_nodes_is_one_edge() {
    let graph = built(&positions(&[1, 2]), &vec![road(&[1, 2])]);
    assert_eq!(graph.nodes, line(&[1, 2]));
    assert_eq!(graph.edges, vec![edge(0, 1, &[1, 2])]);
}

#[test]
fn road_of_four_unshared_nodes_is_one_edge_with_four_points() {
    let graph = built(&positions(&[1, 2, 3, 4]), &vec![road(&[1, 2, 3, 4])]);
    assert_eq!(graph.nodes, line(&[1, 4]));
    assert_eq!(graph.edges, vec![edge(0, 1, &[1, 2, 3, 4])]);
    assert_eq!(graph.edges[0].geometry.len(), 4);
    assert_eq!(graph.edges[0].name, None);
}

#[test]
fn two_roads_that_meet_share_one_graph_node() {
    let graph = built(&positions(&[1, 2, 3]), &vec![road(&[1, 2]), road(&[2, 3])]);
    assert_eq!(graph.nodes, line(&[1, 2, 3]));
    assert_eq!(graph.edges, vec![edge(0, 1, &[1, 2]), edge(1, 2, &[2, 3])]);
    assert_eq!(graph.edges[0].node2, graph.edges[1].node1);
}

#[test]
fn road_is_cut_at_a_node_that_another_road_touches() {
    let ways = vec![road(&[1, 2, 3, 4, 5]), road(&[3, 6])];
    let graph = built(&positions(&[1, 2, 3, 4, 5, 6]), &ways);
    assert_eq!(graph.nodes, line(&[1, 3, 5, 6]));
    assert_eq!(
        graph.edges,
        vec![edge(0, 1, &[1, 2, 3]), edge(1, 2, &[3, 4, 5]), edge(1, 3, &[3, 6])]
    );
}

#[test]
fn consecutive_edges_of_a_road_share_the_joint_position() {
    let ways = vec![road(&[1, 2, 3, 4, 5]), road(&[6, 2]), road(&[4, 7])];
    let graph = built(&positions(&[1, 2, 3, 4, 5, 6, 7]), &ways);
    assert_eq!(graph.edges.len(), 5);
    for k in 0..2 {
        let here = &graph.edges[k];
        let next = &graph.edges[k + 1];
        assert_eq!(here.geometry.last(), next.geometry.first());
        assert_eq!(here.node2, next.node1);
    }
}

#[test]
fn numbers_follow_the_order_of_the_roads() {
    let nodes = positions(&[1, 2, 3]);
    let forward = built(&nodes, &vec![road(&[1, 2]), road(&[2, 3])]);
    let backward = built(&nodes, &vec![road(&[2, 3]), road(&[1, 2])]);
    assert_eq!(forward.nodes, line(&[1, 2, 3]));
    assert_eq!(backward.nodes, line(&[2, 3, 1]));
    assert_eq!(backward.edges, vec![edge(0, 1, &[2, 3]), edge(2, 0, &[1, 2])]);
}

#[test]
fn dead_ends_are_graph_nodes() {
    let ways = vec![road(&[1, 2, 3]), road(&[4, 5])];
    let graph = built(&positions(&[1, 2, 3, 4, 5]), &ways);
    assert_eq!(graph.nodes, line(&[1, 3, 4, 5]));
    assert_eq!(graph.edges, vec![edge(0, 1, &[1, 2, 3]), edge(2, 3, &[4, 5])]);
}

#[test]
fn every_edge_starts_and_ends_where_its_nodes_lie() {
    let ways = vec![
        road(&[1, 2, 3, 4, 5]),
        road(&[3, 6, 7]),
        road(&[7, 8, 1]),
        road(&[9, 4]),
        road(&[2, 10, 11, 6]),
    ];
    let graph = built(&positions(&[1, 2, 3, 4, 5, 6, 7, 8, 9, 10, 11]), &ways);
    assert_eq!(graph.edges.len(), 9);
    assert_eq!(graph.nodes, line(&[1, 2, 3, 4, 5, 6, 7, 9]));
    for edge in &graph.edges {
        assert!(edge.geometry.len() >= 2);
        assert_eq!(edge.geometry[0], graph.nodes[edge.node1]);
        assert_eq!(edge.geometry[edge.geometry.len() - 1], graph.nodes[edge.node2]);
    }
}

#[test]
fn shared_node_has_one_number_in_every_edge_that_touches_it() {
    let ways = vec![road(&[1, 2, 3]), road(&[4, 2, 5]), road(&[6, 2])];
    let graph = built(&positions(&[1, 2, 3, 4, 5, 6]), &ways);
    let shared = at(2);
    let holders: Vec<usize> =
        (0..graph.nodes.len()).filter(|n| graph.nodes[*n] == shared).collect();
    assert_eq!(holders, vec![1]);
    let mut touching = 0;
    for edge in &graph.edges {
        if edge.geometry[0] == shared {
            assert_eq!(edge.node1, 1);
            touching += 1;
        }
        if edge.geometry[edge.geometry.len() - 1] == shared {
            assert_eq!(edge.node2, 1);
            touching += 1;
        }
    }
    assert_eq!(touching, 5);
}

#[test]
fn road_of_one_node_gives_nothing() {
    let graph = built(&positions(&[1, 2, 3]), &vec![road(&[1]), road(&[2, 3])]);
    assert_eq!(graph.nodes, line(&[2, 3]));
    assert_eq!(graph.edges, vec![edge(0, 1, &[2, 3])]);
}

#[test]
fn road_of_one_node_still_counts_as_a_reference() {
    let graph = built(&positions(&[1, 2, 3]), &vec![road(&[2]), road(&[1, 2, 3])]);
    assert_eq!(graph.nodes, line(&[1, 2, 3]));
    assert_eq!(graph.edges, vec![edge(0, 1, &[1, 2]), edge(1, 2, &[2, 3])]);
}

#[test]
fn road_without_nodes_gives_nothing() {
    let graph = built(&positions(&[1, 2]), &vec![road(&[]), road(&[1, 2])]);
    assert_eq!(graph.nodes, line(&[1, 2]));
    assert_eq!(graph.edges, vec![edge(0, 1, &[1, 2])]);
}

#[test]
fn closed_road_starts_and_ends_at_one_graph_node() {
    let graph = built(&positions(&[1, 2, 3]), &vec![road(&[1, 2, 3, 1])]);
    assert_eq!(graph.nodes, line(&[1]));
    assert_eq!(graph.edges, vec![edge(0, 0, &[1, 2, 3, 1])]);
}

#[test]
fn closed_road_that_is_cut_closes_on_one_graph_node() {
    let ways = vec![road(&[1, 2, 3, 1]), road(&[2, 4])];
    let graph = built(&positions(&[1, 2, 3, 4]), &ways);
    assert_eq!(graph.nodes, line(&[1, 2, 4]));
    assert_eq!(
        graph.edges,
        vec![edge(0, 1, &[1, 2]), edge(1, 0, &[2, 3, 1]), edge(1, 2, &[2, 4])]
    );
    assert_eq!(graph.edges[0].node1, graph.edges[1].node2);
}

#[test]
fn road_that_crosses_itself_is_cut_at_the_crossing() {
    let graph = built(&positions(&[1, 2, 3, 4]), &vec![road(&[1, 2, 3, 2, 4])]);
    assert_eq!(graph.nodes, line(&[1, 2, 4]));
    assert_eq!(
        graph.edges,
        vec![edge(0, 1, &[1, 2]), edge(1, 1, &[2, 3, 2]), edge(1, 2, &[2, 4])]
    );
}

#[test]
fn every_edge_carries_the_name_of_its_road() {
    let ways = vec![named("Elm St", &[1, 2, 3, 4]), road(&[5, 2]), named("Oak Ave", &[3, 6])];
    let graph = built(&positions(&[1, 2, 3, 4, 5, 6]), &ways);
    let names: Vec<Option<&str>> = graph.edges.iter().map(|e| e.name.as_deref()).collect();
    assert_eq!(
        names,
        vec![Some("Elm St"), Some("Elm St"), Some("Elm St"), None, Some("Oak Ave")]
    );
}

#[test]
fn missing_node_fails_the_whole_graph() {
    let ways = vec![road(&[1, 2]), road(&[2, 7, 3]), road(&[8, 1])];
    let nodes = positions(&[1, 2, 3]);
    assert_eq!(build_graph(&nodes, &ways), Err(GraphError::MissingNode { node: 7 }));
    assert_eq!(find_missing_node(&nodes, &ways), Some(7));
}

#[test]
fn missing_node_on_a_road_of_one_node_fails_too() {
    let ways = vec![road(&[1, 2]), road(&[9])];
    assert_eq!(
        build_graph(&positions(&[1, 2]), &ways),
        Err(GraphError::MissingNode { node: 9 })
    );
}

#[test]
fn no_node_is_missing_when_every_reference_has_a_position() {
    let ways = vec![road(&[1, 2]), road(&[]), road(&[3])];
    assert_eq!(find_missing_node(&positions(&[1, 2, 3, 4]), &ways), None);
}

#[test]
fn positions_are_copied_bit_for_bit() {
    let mut nodes = HashMap::new();
    nodes.insert(1, Coord { x: 0.1 + 0.2, y: -0.0 });
    nodes.insert(2, Coord { x: 1.0e-300, y: 89.999_999_999_999_99 });
    let graph = built(&nodes, &vec![road(&[1, 2])]);
    assert_eq!(graph.nodes[0].x.to_bits(), (0.1f64 + 0.2f64).to_bits());
    assert_eq!(graph.nodes[0].y.to_bits(), (-0.0f64).to_bits());
    assert_eq!(graph.edges[0].geometry[1].x.to_bits(), 1.0e-300f64.to_bits());
    assert_eq!(graph.edges[0].geometry[1].y.to_bits(), 89.999_999_999_999_99f64.to_bits());
}
