use geo::Coord;
use osm_to_route_snapper::{count_references, has_tag, scrape_elements, tag_value, Element, Way};

fn at(id: i64) -> Coord {
    Coord { x: id as f64 * 0.001, y: 51.0 + id as f64 * 0.002 }
}

fn node(id: i64) -> Element<Coord> {
    Element::Node { id, position: at(id) }
}

fn tags(pairs: &[(&str, &str)]) -> Vec<(String, String)> {
    pairs.iter().map(|(k, v)| (k.to_string(), v.to_string())).collect()
}

fn way(id: i64, node_ids: &[i64], pairs: &[(&str, &str)]) -> Element<Coord> {
    Element::Way { id, node_ids: node_ids.to_vec(), tags: tags(pairs) }
}

#[test]
fn nothing_in_gives_empty_tables() {
    let elements: Vec<Element<Coord>> = vec![];
    let (nodes, ways) = scrape_elements(&elements, true);
    assert!(nodes.is_empty());
    assert!(ways.is_empty());
}

#[test]
fn every_node_gets_its_position() {
    let elements = vec![node(1), node(2), node(3)];
    let (nodes, ways) = scrape_elements(&elements, true);
    assert_eq!(nodes.len(), 3);
    assert_eq!(nodes[&1], at(1));
    assert_eq!(nodes[&2], at(2));
    assert_eq!(nodes[&3], at(3));
    assert!(ways.is_empty());
}

#[test]
fn later_node_overwrites_an_earlier_one_with_its_id() {
    let moved = Coord { x: 9.5, y: -3.25 };
    let elements = vec![node(1), node(2), Element::Node { id: 1, position: moved }];
    let (nodes, _) = scrape_elements(&elements, true);
    assert_eq!(nodes.len(), 2);
    assert_eq!(nodes[&1], moved);
    assert_eq!(nodes[&2], at(2));
}

#[test]
fn road_is_kept_with_its_nodes_and_name() {
    let elements = vec![way(7, &[1, 2, 3], &[("highway", "residential"), ("name", "Elm St")])];
    let (nodes, ways) = scrape_elements(&elements, true);
    assert!(nodes.is_empty());
    assert_eq!(ways.len(), 1);
    assert_eq!(ways[&7], Way { name: Some("Elm St".to_string()), nodes: vec![1, 2, 3] });
}

#[test]
fn name_is_left_out_when_names_are_not_kept() {
    let elements = vec![way(7, &[1, 2, 3], &[("highway", "residential"), ("name", "Elm St")])];
    let (_, ways) = scrape_elements(&elements, false);
    assert_eq!(ways[&7], Way { name: None, nodes: vec![1, 2, 3] });
}

#[test]
fn road_without_a_name_tag_has_no_name() {
    let elements = vec![way(7, &[1, 2], &[("highway", "footway"), ("surface", "gravel")])];
    let (_, ways) = scrape_elements(&elements, true);
    assert_eq!(ways[&7], Way { name: None, nodes: vec![1, 2] });
}

#[test]
fn way_without_the_road_tag_is_dropped() {
    let elements = vec![
        way(7, &[1, 2], &[("building", "yes"), ("name", "Town Hall")]),
        way(8, &[2, 3], &[]),
        way(9, &[3, 4], &[("Highway", "primary")]),
        way(10, &[4, 5], &[("highway", "primary")]),
    ];
    let (_, ways) = scrape_elements(&elements, true);
    assert_eq!(ways.len(), 1);
    assert_eq!(ways[&10], Way { name: None, nodes: vec![4, 5] });
}

#[test]
fn road_tag_counts_whatever_its_value() {
    let elements = vec![way(7, &[1, 2], &[("highway", "")]), way(8, &[2, 3], &[("highway", "no")])];
    let (_, ways) = scrape_elements(&elements, true);
    assert_eq!(ways.len(), 2);
}

#[test]
fn later_road_overwrites_an_earlier_one_with_its_id() {
    let elements = vec![
        way(7, &[1, 2], &[("highway", "primary"), ("name", "Old Rd")]),
        way(7, &[3, 4, 5], &[("highway", "primary"), ("name", "New Rd")]),
    ];
    let (_, ways) = scrape_elements(&elements, true);
    assert_eq!(ways.len(), 1);
    assert_eq!(ways[&7], Way { name: Some("New Rd".to_string()), nodes: vec![3, 4, 5] });
}

#[test]
fn later_way_that_is_no_road_does_not_remove_a_road() {
    let elements =
        vec![way(7, &[1, 2], &[("highway", "primary")]), way(7, &[3, 4], &[("building", "yes")])];
    let (_, ways) = scrape_elements(&elements, true);
    assert_eq!(ways[&7], Way { name: None, nodes: vec![1, 2] });
}

#[test]
fn relations_are_passed_over() {
    let elements = vec![Element::Relation, node(1), Element::Relation];
    let (nodes, ways) = scrape_elements(&elements, true);
    assert_eq!(nodes.len(), 1);
    assert!(ways.is_empty());
}

#[test]
fn tag_value_is_found_by_its_key() {
    let all = tags(&[("highway", "residential"), ("name", "Elm St"), ("lit", "yes")]);
    assert_eq!(tag_value(&all, "name"), Some("Elm St".to_string()));
    assert_eq!(tag_value(&all, "highway"), Some("residential".to_string()));
    assert_eq!(tag_value(&all, "lit"), Some("yes".to_string()));
    assert_eq!(tag_value(&all, "nam"), None);
    assert_eq!(tag_value(&all, "name "), None);
    assert_eq!(tag_value(&all, "Elm St"), None);
    assert_eq!(tag_value(&tags(&[]), "name"), None);
}

#[test]
fn last_value_of_a_repeated_key_counts() {
    let all = tags(&[("name", "First"), ("highway", "path"), ("name", "Second")]);
    assert_eq!(tag_value(&all, "name"), Some("Second".to_string()));
}

#[test]
fn has_tag_looks_at_keys_only() {
    let all = tags(&[("highway", ""), ("name", "highway2")]);
    assert!(has_tag(&all, "highway"));
    assert!(has_tag(&all, "name"));
    assert!(!has_tag(&all, "highway2"));
    assert!(!has_tag(&all, ""));
    assert!(!has_tag(&tags(&[]), "highway"));
}

#[test]
fn references_are_counted_over_all_roads() {
    let ways = vec![
        Way { name: None, nodes: vec![1, 2, 3] },
        Way { name: None, nodes: vec![3, 4] },
        Way { name: None, nodes: vec![5, 3, 2] },
    ];
    let counts = count_references(&ways);
    assert_eq!(counts.len(), 5);
    assert_eq!(counts[&1], 1);
    assert_eq!(counts[&2], 2);
    assert_eq!(counts[&3], 3);
    assert_eq!(counts[&4], 1);
    assert_eq!(counts[&5], 1);
}

#[test]
fn road_that_runs_twice_through_a_node_counts_it_twice() {
    let ways = vec![Way { name: None, nodes: vec![1, 2, 3, 1] }, Way { name: None, nodes: vec![] }];
    let counts = count_references(&ways);
    assert_eq!(counts.len(), 3);
    assert_eq!(counts[&1], 2);
    assert_eq!(counts[&2], 1);
    assert_eq!(counts[&3], 1);
    assert_eq!(counts.get(&4), None);
}

#[test]
fn copy_of_a_road_holds_what_the_road_holds() {
    let road = Way { name: Some("Elm St".to_string()), nodes: vec![4, -2, 4] };
    let copy = road.copy();
    assert_eq!(copy, road);
    let bare = Way { name: None, nodes: vec![] };
    assert_eq!(bare.copy(), bare);
}
