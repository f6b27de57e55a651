use geo::{Coord, HaversineDistance, HaversineLength, LineString, Point};
use osm_to_route_snapper::{
    convert_osm, scrape_elements, split_edges, Edge, Element, Graph, GraphError, Numbering, Way,
};
use std::collections::HashMap;

fn at(id: i64) -> Coord {
    Coord { x: id as f64 * 0.001, y: 51.0 + id as f64 * 0.002 }
}

fn node(id: i64) -> Element<Coord> {
    Element::Node { id, position: at(id) }
}

fn nodes(ids: &[i64]) -> Vec<Element<Coord>> {
    ids.iter().map(|id| node(*id)).collect()
}

fn line(ids: &[i64]) -> Vec<Coord> {
    ids.iter().map(|id| at(*id)).collect()
}

fn way(id: i64, node_ids: &[i64], pairs: &[(&str, &str)]) -> Element<Coord> {
    Element::Way {
        id,
        node_ids: node_ids.to_vec(),
        tags: pairs.iter().map(|(k, v)| (k.to_string(), v.to_string())).collect(),
    }
}

fn converted(elements: &Vec<Element<Coord>>, road_names: bool) -> Graph<Coord> {
    match convert_osm(elements, road_names) {
        Ok(graph) => graph,
        Err(error) => panic!("no graph: {:?}", error),
    }
}

fn number_of(graph: &Graph<Coord>, id: i64) -> usize {
    let found: Vec<usize> = (0..graph.nodes.len()).filter(|n| graph.nodes[*n] == at(id)).collect();
    assert_eq!(found.len(), 1, "node {} is in the graph {} times", id, found.len());
    found[0]
}

fn edge_along<'a>(graph: &'a Graph<Coord>, ids: &[i64]) -> &'a Edge<Coord> {
    let wanted = line(ids);
    let found: Vec<&Edge<Coord>> = graph.edges.iter().filter(|e| e.geometry == wanted).collect();
    assert_eq!(found.len(), 1, "{} edges run along {:?}", found.len(), ids);
    let edge = found[0];
    assert_eq!(edge.node1, number_of(graph, ids[0]));
    assert_eq!(edge.node2, number_of(graph, ids[ids.len() - 1]));
    edge
}

#[test]
fn footway_of_four_nodes_becomes_one_edge() {
    let mut elements = nodes(&[1, 2, 3, 4]);
    elements.push(way(100, &[1, 2, 3, 4], &[("highway", "footway")]));
    let graph = converted(&elements, true);
    assert_eq!(graph.nodes, line(&[1, 4]));
    assert_eq!(
        graph.edges,
        vec![Edge { node1: 0, node2: 1, geometry: line(&[1, 2, 3, 4]), name: None }]
    );
}

#[test]
fn two_ways_that_share_a_node_become_two_edges_on_three_nodes() {
    let mut elements = nodes(&[1, 2, 3]);
    elements.push(way(100, &[1, 2], &[("highway", "residential")]));
    elements.push(way(101, &[2, 3], &[("highway", "service")]));
    let graph = converted(&elements, true);
    assert_eq!(graph.nodes.len(), 3);
    assert_eq!(graph.edges.len(), 2);
    let first = edge_along(&graph, &[1, 2]);
    let second = edge_along(&graph, &[2, 3]);
    assert_eq!(first.node2, second.node1);
    assert_ne!(first.node1, second.node2);
}

#[test]
fn two_node_way_becomes_one_edge_between_its_nodes() {
    let mut elements = nodes(&[1, 2, 3]);
    elements.push(way(100, &[3, 1], &[("highway", "track")]));
    let graph = converted(&elements, false);
    assert_eq!(graph.nodes, line(&[3, 1]));
    assert_eq!(
        graph.edges,
        vec![Edge { node1: 0, node2: 1, geometry: line(&[3, 1]), name: None }]
    );
}

#[test]
fn names_reach_every_edge_of_a_named_way() {
    let mut elements = nodes(&[1, 2, 3, 4, 5]);
    elements.push(way(100, &[1, 2, 3, 4], &[("highway", "residential"), ("name", "Elm St")]));
    elements.push(way(101, &[2, 5], &[("highway", "service")]));
    elements.push(way(102, &[5, 3], &[("highway", "service")]));
    let graph = converted(&elements, true);
    assert_eq!(graph.edges.len(), 5);
    for ids in [[1, 2], [2, 3], [3, 4]] {
        assert_eq!(edge_along(&graph, &ids).name, Some("Elm St".to_string()));
    }
    assert_eq!(edge_along(&graph, &[2, 5]).name, None);
    assert_eq!(edge_along(&graph, &[5, 3]).name, None);
}

#[test]
fn no_edge_has_a_name_when_names_are_not_kept() {
    let mut elements = nodes(&[1, 2, 3, 4, 5]);
    elements.push(way(100, &[1, 2, 3, 4], &[("highway", "residential"), ("name", "Elm St")]));
    elements.push(way(101, &[2, 5], &[("name", "Oak Ave"), ("highway", "service")]));
    let graph = converted(&elements, false);
    assert_eq!(graph.edges.len(), 3);
    for edge in &graph.edges {
        assert_eq!(edge.name, None);
    }
}

#[test]
fn way_without_the_road_tag_adds_nothing_and_cuts_nothing() {
    let mut with = nodes(&[1, 2, 3, 9]);
    with.push(way(100, &[1, 2, 3], &[("highway", "residential")]));
    with.push(way(200, &[2, 9], &[("building", "yes")]));
    let mut without = nodes(&[1, 2, 3, 9]);
    without.push(way(100, &[1, 2, 3], &[("highway", "residential")]));
    let graph = converted(&with, true);
    assert_eq!(graph, converted(&without, true));
    assert_eq!(graph.nodes, line(&[1, 3]));
    assert_eq!(
        graph.edges,
        vec![Edge { node1: 0, node2: 1, geometry: line(&[1, 2, 3]), name: None }]
    );
}

#[test]
fn way_without_the_road_tag_may_run_through_unknown_nodes() {
    let mut elements = nodes(&[1, 2]);
    elements.push(way(200, &[1, 77], &[("waterway", "stream")]));
    elements.push(way(100, &[1, 2], &[("highway", "path")]));
    let graph = converted(&elements, true);
    assert_eq!(graph.nodes, line(&[1, 2]));
    assert_eq!(graph.edges.len(), 1);
}

#[test]
fn only_ways_without_the_road_tag_give_an_empty_graph() {
    let mut elements = nodes(&[1, 2, 3]);
    elements.push(way(200, &[1, 2, 3], &[("railway", "rail")]));
    elements.push(Element::Relation);
    let graph = converted(&elements, true);
    assert_eq!(graph.nodes, vec![]);
    assert_eq!(graph.edges, vec![]);
}

#[test]
fn elements_may_come_in_any_order() {
    let elements = vec![
        way(100, &[1, 2, 3], &[("highway", "residential")]),
        node(3),
        Element::Relation,
        node(1),
        node(2),
    ];
    let graph = converted(&elements, true);
    assert_eq!(graph.nodes, line(&[1, 3]));
    assert_eq!(graph.edges.len(), 1);
}

#[test]
fn road_through_an_unknown_node_fails_the_conversion() {
    let mut elements = nodes(&[1, 2]);
    elements.push(way(100, &[1, 2, 3], &[("highway", "residential")]));
    assert_eq!(convert_osm(&elements, true), Err(GraphError::MissingNode { node: 3 }));
}

#[test]
fn one_of_the_unknown_nodes_is_named() {
    let mut elements = nodes(&[1, 2]);
    elements.push(way(100, &[1, 8], &[("highway", "residential")]));
    elements.push(way(101, &[2, 9], &[("highway", "residential")]));
    match convert_osm(&elements, true) {
        Err(GraphError::MissingNode { node }) => assert!(node == 8 || node == 9),
        Ok(graph) => panic!("a graph of {} edges", graph.edges.len()),
    }
}

#[test]
fn tables_are_split_whatever_the_order_of_the_roads() {
    let mut elements = nodes(&[1, 2, 3, 4, 5, 6, 7, 8]);
    elements.push(way(100, &[1, 2, 3, 4], &[("highway", "primary"), ("name", "A")]));
    elements.push(way(101, &[5, 2, 6], &[("highway", "primary"), ("name", "B")]));
    elements.push(way(102, &[6, 7, 3], &[("highway", "primary"), ("name", "C")]));
    elements.push(way(103, &[8, 7], &[("highway", "primary")]));
    let (positions, roads) = scrape_elements(&elements, true);
    let graph = match split_edges(&positions, &roads) {
        Ok(graph) => graph,
        Err(error) => panic!("no graph: {:?}", error),
    };
    assert_eq!(graph.nodes.len(), 8);
    assert_eq!(graph.edges.len(), 8);
    for id in [1, 2, 3, 4, 5, 6, 7, 8] {
        number_of(&graph, id);
    }
    for ids in [[1, 2], [2, 3], [3, 4]] {
        assert_eq!(edge_along(&graph, &ids).name, Some("A".to_string()));
    }
    for ids in [[5, 2], [2, 6]] {
        assert_eq!(edge_along(&graph, &ids).name, Some("B".to_string()));
    }
    for ids in [[6, 7], [7, 3]] {
        assert_eq!(edge_along(&graph, &ids).name, Some("C".to_string()));
    }
    assert_eq!(edge_along(&graph, &[8, 7]).name, None);
    for edge in &graph.edges {
        assert_eq!(edge.geometry[0], graph.nodes[edge.node1]);
        assert_eq!(edge.geometry[edge.geometry.len() - 1], graph.nodes[edge.node2]);
    }
}

#[test]
fn split_edges_reports_a_road_through_an_unknown_node() {
    let mut positions = HashMap::new();
    positions.insert(1, at(1));
    let mut roads = HashMap::new();
    roads.insert(100, Way { name: None, nodes: vec![1, 2] });
    assert_eq!(split_edges(&positions, &roads), Err(GraphError::MissingNode { node: 2 }));
}

#[test]
fn numbering_hands_out_numbers_in_the_order_of_first_visits() {
    let mut numbering: Numbering<Coord> = Numbering::new();
    assert_eq!(numbering.resolve(40, at(40)), 0);
    assert_eq!(numbering.resolve(-7, at(-7)), 1);
    assert_eq!(numbering.resolve(40, at(41)), 0);
    assert_eq!(numbering.resolve(0, at(0)), 2);
    assert_eq!(numbering.resolve(-7, at(-7)), 1);
    assert_eq!(numbering.into_nodes(), vec![at(40), at(-7), at(0)]);
}

#[test]
fn edge_geometry_measures_as_the_sum_of_its_segments() {
    let mut elements = nodes(&[1, 2, 3, 4]);
    elements.push(way(100, &[1, 2, 3, 4], &[("highway", "footway")]));
    let graph = converted(&elements, true);
    let geometry = &graph.edges[0].geometry;
    let length = LineString::new(geometry.clone()).haversine_length();
    let mut sum = 0.0;
    for k in 1..geometry.len() {
        sum += Point::from(geometry[k - 1]).haversine_distance(&Point::from(geometry[k]));
    }
    let direct = Point::from(geometry[0]).haversine_distance(&Point::from(geometry[3]));
    assert!((length - sum).abs() <= 1e-6 * sum);
    assert!(length > 695.0 && length < 705.0);
    assert!(direct <= length);
}
