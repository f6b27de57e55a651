//! Where a road is cut into pieces.
//!
//! A road is cut at its first node, at its last node, and at every node that
//! more than one position of the roads refers to. A piece is the run of nodes
//! from one cut to the next, both included.

use crate::model::WayView;
use vstd::prelude::*;

verus! {

/// The nodes of one piece of a road, and the name of the road.
pub struct Piece {
    pub path: Seq<i64>,
    pub name: Option<Seq<char>>,
}

/// Position `idx` of `path` is a cut: an end of the path, or a shared node.
pub open spec fn is_cut(shared: Set<i64>, path: Seq<i64>, idx: int) -> bool {
    idx == 0 || idx == path.len() - 1 || shared.contains(path[idx])
}

/// Positions `a` and `b` of `path` are two cuts with no cut between them.
pub open spec fn is_stretch(shared: Set<i64>, path: Seq<i64>, a: int, b: int) -> bool {
    &&& 0 <= a < b < path.len()
    &&& is_cut(shared, path, a)
    &&& is_cut(shared, path, b)
    &&& forall|j: int| a < j < b ==> !is_cut(shared, path, j)
}

/// The piece of a road from position `a` to position `b`, both included.
pub open spec fn piece_between(way: WayView, a: int, b: int) -> Piece {
    Piece { path: way.nodes.subrange(a, b + 1), name: way.name }
}

/// The last cut among the first `k` positions of `path`: where the piece
/// starts that is open once these positions have been read.
pub open spec fn open_start(shared: Set<i64>, path: Seq<i64>, k: int) -> int
    decreases k,
{
    if k <= 1 {
        0
    } else if is_cut(shared, path, k - 1) {
        k - 1
    } else {
        open_start(shared, path, k - 1)
    }
}

/// The pieces of a road that end among its first `k` positions, in order.
pub open spec fn pieces_within(shared: Set<i64>, way: WayView, k: int) -> Seq<Piece>
    decreases k,
{
    if k <= 1 {
        Seq::empty()
    } else {
        let before = pieces_within(shared, way, k - 1);
        if is_cut(shared, way.nodes, k - 1) {
            before.push(piece_between(way, open_start(shared, way.nodes, k - 1), k - 1))
        } else {
            before
        }
    }
}

/// The pieces of a road, in order. A road of fewer than two nodes has none.
pub open spec fn pieces_of(shared: Set<i64>, way: WayView) -> Seq<Piece> {
    pieces_within(shared, way, way.nodes.len() as int)
}

/// The pieces of the roads of a list, road after road.
pub open spec fn all_pieces(shared: Set<i64>, ways: Seq<WayView>) -> Seq<Piece>
    decreases ways.len(),
{
    if ways.len() == 0 {
        Seq::empty()
    } else {
        all_pieces(shared, ways.drop_last()) + pieces_of(shared, ways.last())
    }
}

/// The open piece starts at a cut before position `k`, and no cut lies between
/// its start and `k`.
pub proof fn lemma_open_start(shared: Set<i64>, path: Seq<i64>, k: int)
    requires
        1 <= k <= path.len(),
    ensures
        0 <= open_start(shared, path, k) < k,
        is_cut(shared, path, open_start(shared, path, k)),
        forall|j: int| open_start(shared, path, k) < j < k ==> !is_cut(shared, path, j),
    decreases k,
{
    if k > 1 && !is_cut(shared, path, k - 1) {
        lemma_open_start(shared, path, k - 1);
    }
}

/// Taking one more road adds its pieces behind those of the roads before it.
pub proof fn lemma_all_pieces_step(shared: Set<i64>, ways: Seq<WayView>, w: int)
    requires
        0 <= w < ways.len(),
    ensures
        all_pieces(shared, ways.take(w + 1)) == all_pieces(shared, ways.take(w)) + pieces_of(
            shared,
            ways[w],
        ),
{
    assert(ways.take(w + 1).drop_last() =~= ways.take(w));
}

/// The pieces that end among the first `k` positions stay as they are when
/// more positions are read.
pub proof fn lemma_pieces_within_grows(shared: Set<i64>, way: WayView, k: int, m: int)
    requires
        k <= m,
    ensures
        pieces_within(shared, way, k).len() <= pieces_within(shared, way, m).len(),
        forall|i: int|
            0 <= i < pieces_within(shared, way, k).len() ==> pieces_within(shared, way, m)[i]
                == pieces_within(shared, way, k)[i],
    decreases m - k,
{
    if k < m {
        lemma_pieces_within_grows(shared, way, k, m - 1);
    }
}

/// Each piece that ends among the first `k` positions runs from one cut to
/// the next. Returns the two positions.
pub proof fn lemma_piece_within_is_stretch(
    shared: Set<i64>,
    way: WayView,
    k: int,
    i: int,
) -> (ends: (int, int))
    requires
        k <= way.nodes.len(),
        0 <= i < pieces_within(shared, way, k).len(),
    ensures
        is_stretch(shared, way.nodes, ends.0, ends.1),
        ends.1 < k,
        pieces_within(shared, way, k)[i] == piece_between(way, ends.0, ends.1),
    decreases k,
{
    let before = pieces_within(shared, way, k - 1);
    if i < before.len() {
        lemma_piece_within_is_stretch(shared, way, k - 1, i)
    } else {
        lemma_open_start(shared, way.nodes, k - 1);
        (open_start(shared, way.nodes, k - 1), k - 1)
    }
}

/// Each piece of a road runs from one cut to the next, along the nodes
/// between them, under the road's name. Returns the two positions.
pub proof fn lemma_piece_is_stretch(shared: Set<i64>, way: WayView, i: int) -> (ends: (int, int))
    requires
        0 <= i < pieces_of(shared, way).len(),
    ensures
        is_stretch(shared, way.nodes, ends.0, ends.1),
        pieces_of(shared, way)[i] == piece_between(way, ends.0, ends.1),
{
    lemma_piece_within_is_stretch(shared, way, way.nodes.len() as int, i)
}

/// Each run from one cut to the next is a piece of the road. Returns its
/// place among the pieces.
pub proof fn lemma_stretch_is_piece(shared: Set<i64>, way: WayView, a: int, b: int) -> (i: int)
    requires
        is_stretch(shared, way.nodes, a, b),
    ensures
        0 <= i < pieces_of(shared, way).len(),
        pieces_of(shared, way)[i] == piece_between(way, a, b),
{
    let path = way.nodes;
    let i = pieces_within(shared, way, b).len() as int;
    lemma_open_start(shared, path, b);
    let start = open_start(shared, path, b);
    if start < a {
        assert(!is_cut(shared, path, a));
    }
    if start > a {
        assert(!is_cut(shared, path, start));
    }
    assert(pieces_within(shared, way, b + 1) == pieces_within(shared, way, b).push(
        piece_between(way, a, b),
    ));
    lemma_pieces_within_grows(shared, way, b + 1, path.len() as int);
    assert(pieces_within(shared, way, b + 1)[i] == piece_between(way, a, b));
    i
}

/// The pieces that end among the first `k` positions follow one another: the
/// first starts at the road's first node, each next one starts where the one
/// before it ends, and the last ends where the open piece starts.
pub proof fn lemma_pieces_within_chain(shared: Set<i64>, way: WayView, k: int)
    requires
        1 <= k <= way.nodes.len(),
    ensures
        ({
            let pieces = pieces_within(shared, way, k);
            let start = open_start(shared, way.nodes, k);
            &&& pieces.len() == 0 ==> start == 0
            &&& pieces.len() > 0 ==> pieces[0].path.first() == way.nodes[0]
                && pieces.last().path.last() == way.nodes[start]
            &&& forall|i: int|
                0 <= i < pieces.len() - 1 ==> (#[trigger] pieces[i]).path.last() == pieces[i
                    + 1].path.first()
        }),
    decreases k,
{
    if k > 1 {
        lemma_pieces_within_chain(shared, way, k - 1);
        lemma_open_start(shared, way.nodes, k - 1);
    }
}

/// The pieces of a road follow one another: each starts where the one before
/// it ends.
pub proof fn lemma_pieces_chain(shared: Set<i64>, way: WayView, i: int)
    requires
        0 <= i < pieces_of(shared, way).len() - 1,
    ensures
        pieces_of(shared, way)[i].path.last() == pieces_of(shared, way)[i + 1].path.first(),
{
    lemma_pieces_within_chain(shared, way, way.nodes.len() as int);
}

/// The two ends of a road of two or more nodes are cuts, however often the
/// roads refer to them: the first piece starts at the road's first node and
/// the last piece ends at its last node.
pub proof fn lemma_road_ends_are_cuts(shared: Set<i64>, way: WayView)
    requires
        way.nodes.len() >= 2,
    ensures
        is_cut(shared, way.nodes, 0),
        is_cut(shared, way.nodes, way.nodes.len() - 1),
        pieces_of(shared, way).len() >= 1,
        pieces_of(shared, way).first().path.first() == way.nodes.first(),
        pieces_of(shared, way).last().path.last() == way.nodes.last(),
{
    lemma_pieces_within_chain(shared, way, way.nodes.len() as int);
}

/// A road of two or more nodes whose inner nodes are not shared is one
/// piece: the whole road.
pub proof fn lemma_unshared_road_is_one_piece(shared: Set<i64>, way: WayView)
    requires
        way.nodes.len() >= 2,
        forall|j: int| 0 < j < way.nodes.len() - 1 ==> !shared.contains(#[trigger] way.nodes[j]),
    ensures
        pieces_of(shared, way) == seq![Piece { path: way.nodes, name: way.name }],
{
    let n = way.nodes.len() as int;
    lemma_no_cut_no_piece(shared, way, n - 1);
    assert(way.nodes.subrange(0, n) =~= way.nodes);
    assert(pieces_of(shared, way) =~= seq![Piece { path: way.nodes, name: way.name }]);
}

/// As long as no inner cut has been read, no piece has ended.
proof fn lemma_no_cut_no_piece(shared: Set<i64>, way: WayView, k: int)
    requires
        1 <= k < way.nodes.len(),
        forall|j: int| 0 < j < way.nodes.len() - 1 ==> !shared.contains(#[trigger] way.nodes[j]),
    ensures
        pieces_within(shared, way, k) == Seq::<Piece>::empty(),
        open_start(shared, way.nodes, k) == 0,
    decreases k,
{
    if k > 1 {
        lemma_no_cut_no_piece(shared, way, k - 1);
        assert(!shared.contains(way.nodes[k - 1]));
    }
}

/// A road of exactly two nodes is one piece from its first node to its
/// second, whether or not other roads share them.
pub proof fn lemma_two_node_road_is_one_piece(shared: Set<i64>, way: WayView)
    requires
        way.nodes.len() == 2,
    ensures
        pieces_of(shared, way) == seq![Piece { path: way.nodes, name: way.name }],
        way.nodes == seq![way.nodes[0], way.nodes[1]],
{
    lemma_unshared_road_is_one_piece(shared, way);
    assert(way.nodes =~= seq![way.nodes[0], way.nodes[1]]);
}

/// A road of fewer than two nodes has no piece.
pub proof fn lemma_short_road_has_no_piece(shared: Set<i64>, way: WayView)
    requires
        way.nodes.len() < 2,
    ensures
        pieces_of(shared, way) == Seq::<Piece>::empty(),
{
}

/// The first cut behind position `i`.
pub proof fn lemma_next_cut(shared: Set<i64>, path: Seq<i64>, i: int, from: int) -> (b: int)
    requires
        0 <= i < from < path.len(),
        forall|j: int| i < j < from ==> !is_cut(shared, path, j),
    ensures
        i < b < path.len(),
        is_cut(shared, path, b),
        forall|j: int| i < j < b ==> !is_cut(shared, path, j),
    decreases path.len() - from,
{
    if is_cut(shared, path, from) {
        from
    } else {
        lemma_next_cut(shared, path, i, from + 1)
    }
}

/// On a road of two or more nodes, a piece starts or ends at every cut.
/// Returns the place of such a piece among the pieces.
pub proof fn lemma_cut_is_piece_end(shared: Set<i64>, way: WayView, c: int) -> (i: int)
    requires
        way.nodes.len() >= 2,
        0 <= c < way.nodes.len(),
        is_cut(shared, way.nodes, c),
    ensures
        0 <= i < pieces_of(shared, way).len(),
        pieces_of(shared, way)[i].path.first() == way.nodes[c] || pieces_of(
            shared,
            way,
        )[i].path.last() == way.nodes[c],
{
    let path = way.nodes;
    if c < path.len() - 1 {
        let b = lemma_next_cut(shared, path, c, c + 1);
        lemma_stretch_is_piece(shared, way, c, b)
    } else {
        lemma_open_start(shared, path, c);
        lemma_stretch_is_piece(shared, way, open_start(shared, path, c), c)
    }
}

} // verus!
