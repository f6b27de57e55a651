//! Builds a routing graph from OpenStreetMap road data.
//!
//! The input is a stream of already parsed elements: nodes with a position and
//! ways with an ordered list of node ids and a set of tags. Ways tagged as roads
//! are split at intersections into edges; the nodes at which edges meet become
//! the nodes of the graph, each raw node exactly once.
//!
//! The library never looks inside a position. It is generic in the type `P` of
//! positions and copies them from the input to the output unchanged.

pub mod convert;
pub mod graph;
pub mod laws;
pub mod missing;
pub mod model;
pub mod numbering;
pub mod refs;
pub mod scrape;
pub mod split;
pub mod table;
pub mod tags;

pub use convert::{convert_osm, split_edges};
pub use graph::build_graph;
pub use missing::find_missing_node;
pub use model::{Edge, EdgeView, Element, ElementView, Graph, GraphError, GraphView, Way, WayView};
pub use numbering::Numbering;
pub use refs::count_references;
pub use scrape::scrape_elements;
pub use tags::{has_tag, tag_value};
