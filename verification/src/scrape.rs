//! From the stream of elements to the two tables: the position of each node,
//! and what is kept of each road.

use crate::model::{copy_ids, Element, ElementView, Way, WayView};
use crate::tags::{has_tag, tag_lookup, tag_table, tag_value};
use std::collections::HashMap;
use vstd::prelude::*;

verus! {

/// The elements of a list, each by its view.
pub open spec fn element_views<P>(elements: Seq<Element<P>>) -> Seq<ElementView<P>> {
    elements.map_values(|e: Element<P>| e@)
}

/// The roads of a table, each by its view.
pub open spec fn way_views(ways: Map<i64, Way>) -> Map<i64, WayView> {
    ways.map_values(|w: Way| w@)
}

/// A way is a road if its tags hold the key `highway`, whatever the value.
pub open spec fn is_road(tags: Seq<(Seq<char>, Seq<char>)>) -> bool {
    tag_table(tags).contains_key("highway"@)
}

/// What is kept of a road: its nodes, and its `name` tag where names are kept.
pub open spec fn road_of(
    node_ids: Seq<i64>,
    tags: Seq<(Seq<char>, Seq<char>)>,
    keep_names: bool,
) -> WayView {
    WayView {
        name: if keep_names {
            tag_lookup(tags, "name"@)
        } else {
            None
        },
        nodes: node_ids,
    }
}

/// The position of each node. Where an id occurs more than once, the last
/// node with that id counts.
pub open spec fn node_table<P>(elements: Seq<ElementView<P>>) -> Map<i64, P>
    decreases elements.len(),
{
    if elements.len() == 0 {
        Map::empty()
    } else {
        let before = node_table(elements.drop_last());
        match elements.last() {
            ElementView::Node { id, position } => before.insert(id, position),
            _ => before,
        }
    }
}

/// What is kept of each road. Ways that are no roads are left out. Where an
/// id occurs more than once, the last road with that id counts.
pub open spec fn way_table<P>(elements: Seq<ElementView<P>>, keep_names: bool) -> Map<
    i64,
    WayView,
>
    decreases elements.len(),
{
    if elements.len() == 0 {
        Map::empty()
    } else {
        let before = way_table(elements.drop_last(), keep_names);
        match elements.last() {
            ElementView::Way { id, node_ids, tags } => if is_road(tags) {
                before.insert(id, road_of(node_ids, tags, keep_names))
            } else {
                before
            },
            _ => before,
        }
    }
}

/// Reads the elements in order and fills the two tables.
///
/// Each node sets the position of its id. Each way that is a road sets what
/// is kept under its id: its nodes, and its name where `road_names` is set
/// and the way has one. Other ways, and relations, are passed over.
pub fn scrape_elements<P: Copy>(elements: &Vec<Element<P>>, road_names: bool) -> (tables: (
    HashMap<i64, P>,
    HashMap<i64, Way>,
))
    ensures
        tables.0@ == node_table(element_views(elements@)),
        way_views(tables.1@) == way_table(element_views(elements@), road_names),
{
    broadcast use vstd::std_specs::hash::group_hash_axioms;

    let ghost all = element_views(elements@);
    let mut nodes: HashMap<i64, P> = HashMap::new();
    let mut ways: HashMap<i64, Way> = HashMap::new();
    let mut i: usize = 0;
    proof {
        assert(all.take(0) =~= Seq::<ElementView<P>>::empty());
        assert(way_views(ways@) =~= Map::<i64, WayView>::empty());
    }
    while i < elements.len()
        invariant
            i <= elements.len(),
            all == element_views(elements@),
            nodes@ == node_table(all.take(i as int)),
            way_views(ways@) == way_table(all.take(i as int), road_names),
        decreases elements.len() - i,
    {
        proof {
            assert(all.take(i as int + 1).drop_last() =~= all.take(i as int));
            assert(all.take(i as int + 1).last() == elements@[i as int]@);
        }
        match &elements[i] {
            Element::Node { id, position } => {
                nodes.insert(*id, *position);
            },
            Element::Way { id, node_ids, tags } => {
                if has_tag(tags, "highway") {
                    let name = if road_names {
                        tag_value(tags, "name")
                    } else {
                        None
                    };
                    let ghost before = ways@;
                    let way = Way { name, nodes: copy_ids(node_ids) };
                    ways.insert(*id, way);
                    assert(way_views(before.insert(*id, way)) =~= way_views(before).insert(
                        *id,
                        way@,
                    ));
                }
            },
            Element::Relation => {},
        }
        i = i + 1;
    }
    assert(all.take(i as int) =~= all);
    (nodes, ways)
}

/// An element that fills neither table: a relation, or a way that is no road.
pub open spec fn is_passed_over<P>(element: ElementView<P>) -> bool {
    match element {
        ElementView::Node { .. } => false,
        ElementView::Way { tags, .. } => !is_road(tags),
        ElementView::Relation => true,
    }
}

/// A way that is no road, and a relation, leave no trace: the tables are
/// those of the elements without it, whatever nodes it runs through.
pub proof fn lemma_passed_over_leaves_no_trace<P>(
    elements: Seq<ElementView<P>>,
    i: int,
    keep_names: bool,
)
    requires
        0 <= i < elements.len(),
        is_passed_over(elements[i]),
    ensures
        node_table(elements.remove(i)) == node_table(elements),
        way_table(elements.remove(i), keep_names) == way_table(elements, keep_names),
    decreases elements.len(),
{
    if i == elements.len() - 1 {
        assert(elements.remove(i) =~= elements.drop_last());
    } else {
        lemma_passed_over_leaves_no_trace(elements.drop_last(), i, keep_names);
        assert(elements.remove(i).drop_last() =~= elements.drop_last().remove(i));
        assert(elements.remove(i).last() == elements.last());
    }
}

/// The element is a road with this id.
pub open spec fn is_road_with_id<P>(element: ElementView<P>, id: i64) -> bool {
    element matches ElementView::Way { id: way_id, tags, .. } && way_id == id && is_road(tags)
}

/// The element is a node with this id.
pub open spec fn is_node_with_id<P>(element: ElementView<P>, id: i64) -> bool {
    element matches ElementView::Node { id: node_id, .. } && node_id == id
}

/// Each road of the table is what is kept of the last road element with its
/// id. Returns the place of that element.
pub proof fn lemma_way_table_entry<P>(
    elements: Seq<ElementView<P>>,
    keep_names: bool,
    id: i64,
) -> (i: int)
    requires
        way_table(elements, keep_names).contains_key(id),
    ensures
        0 <= i < elements.len(),
        is_road_with_id(elements[i], id),
        way_table(elements, keep_names)[id] == road_of(
            elements[i]->node_ids,
            elements[i]->tags,
            keep_names,
        ),
        forall|j: int| i < j < elements.len() ==> !is_road_with_id(#[trigger] elements[j], id),
    decreases elements.len(),
{
    let head = elements.drop_last();
    if is_road_with_id(elements.last(), id) {
        elements.len() - 1
    } else {
        let i = lemma_way_table_entry(head, keep_names, id);
        assert forall|j: int| i < j < elements.len() implies !is_road_with_id(
            #[trigger] elements[j],
            id,
        ) by {
            if j < head.len() {
                assert(head[j] == elements[j]);
            }
        }
        i
    }
}

/// The table holds a road for the id of each road element.
pub proof fn lemma_road_is_kept<P>(elements: Seq<ElementView<P>>, keep_names: bool, i: int)
    requires
        0 <= i < elements.len(),
        is_road_with_id(elements[i], elements[i]->Way_id),
    ensures
        way_table(elements, keep_names).contains_key(elements[i]->Way_id),
    decreases elements.len(),
{
    if i < elements.len() - 1 {
        lemma_road_is_kept(elements.drop_last(), keep_names, i);
    }
}

/// Each position of the table is that of the last node element with its id.
/// Returns the place of that element.
pub proof fn lemma_node_table_entry<P>(elements: Seq<ElementView<P>>, id: i64) -> (i: int)
    requires
        node_table(elements).contains_key(id),
    ensures
        0 <= i < elements.len(),
        is_node_with_id(elements[i], id),
        node_table(elements)[id] == elements[i]->position,
        forall|j: int| i < j < elements.len() ==> !is_node_with_id(#[trigger] elements[j], id),
    decreases elements.len(),
{
    let head = elements.drop_last();
    if is_node_with_id(elements.last(), id) {
        elements.len() - 1
    } else {
        let i = lemma_node_table_entry(head, id);
        assert forall|j: int| i < j < elements.len() implies !is_node_with_id(
            #[trigger] elements[j],
            id,
        ) by {
            if j < head.len() {
                assert(head[j] == elements[j]);
            }
        }
        i
    }
}

/// The table holds a position for the id of each node element.
pub proof fn lemma_node_is_kept<P>(elements: Seq<ElementView<P>>, i: int)
    requires
        0 <= i < elements.len(),
        elements[i] is Node,
    ensures
        node_table(elements).contains_key(elements[i]->Node_id),
    decreases elements.len(),
{
    if i < elements.len() - 1 {
        lemma_node_is_kept(elements.drop_last(), i);
    }
}

/// Where names are kept, a road has the value of its `name` tag for its name,
/// and none if it has no such tag. Where they are not, no road has a name.
pub proof fn lemma_road_names<P>(
    elements: Seq<ElementView<P>>,
    keep_names: bool,
    id: i64,
) -> (i: int)
    requires
        way_table(elements, keep_names).contains_key(id),
    ensures
        0 <= i < elements.len(),
        is_road_with_id(elements[i], id),
        forall|j: int| i < j < elements.len() ==> !is_road_with_id(#[trigger] elements[j], id),
        way_table(elements, keep_names)[id].name == if keep_names {
            tag_lookup(elements[i]->tags, "name"@)
        } else {
            None
        },
{
    lemma_way_table_entry(elements, keep_names, id)
}

} // verus!
