//! Colouring the pieces of a board so that pieces that share a border differ.

use heuristic_graph_coloring::VecVecGraph;
use std::ops::IndexMut;
use vstd::prelude::*;

use crate::colorableboard::lemma_cell_index;
use crate::colorableboard::BoardView;
use crate::colorableboard::ColorableBoard;
use crate::colorableboard::IndexedBoardState;
use crate::colorpoint::ColorPoint;
use crate::colorpolyomino::Piece;
use crate::graph::graph_neighbors;
use crate::graph::no_edges;
use crate::graph::proper_on_lists;
use crate::graph::rlf;
use crate::graph::rlf_coloring;
use crate::graph::simple_lists;
use crate::graph::with_edge;
use crate::utils::lemma_visited;
use crate::utils::visited;

verus! {

/// The identity of the piece that fills a cell.
pub open spec fn cell_id(board: BoardView, cell: IndexedBoardState) -> usize {
    board.pieces[cell->Full_0 as int].id
}

/// The edge that two cells side by side stand for: where both are filled, by
/// pieces of different identity, the smaller and the larger of the two
/// identities. Cells of one piece, or of two pieces of one identity, stand
/// for no edge.
pub open spec fn edge_between(board: BoardView, a: IndexedBoardState, b: IndexedBoardState) -> Option<
    (usize, usize),
> {
    if a is Full && b is Full && cell_id(board, a) != cell_id(board, b) {
        if cell_id(board, a) < cell_id(board, b) {
            Some((cell_id(board, a), cell_id(board, b)))
        } else {
            Some((cell_id(board, b), cell_id(board, a)))
        }
    } else {
        None
    }
}

/// `edges` with the edge of the two cells at its end, if they stand for
/// one that is not there yet.
pub open spec fn marked(
    board: BoardView,
    a: IndexedBoardState,
    b: IndexedBoardState,
    edges: Seq<(usize, usize)>,
) -> Seq<(usize, usize)> {
    match edge_between(board, a, b) {
        Some(edge) => if edges.contains(edge) {
            edges
        } else {
            edges.push(edge)
        },
        None => edges,
    }
}

/// The edges found by the first `n` visits of the cells, column by column:
/// each visit holds a cell against its right neighbour, then against the
/// one below.
pub open spec fn edges_upto(board: BoardView, n: int) -> Seq<(usize, usize)>
    decreases n,
{
    if n <= 0 {
        Seq::empty()
    } else {
        let (x, y) = visited(board, n - 1);
        let here = board.get(x, y);
        marked(
            board,
            here,
            board.get(x, y + 1),
            marked(board, here, board.get(x + 1, y), edges_upto(board, n - 1)),
        )
    }
}

/// The edges of the board's graph, in the order in which they are found.
pub open spec fn adjacency(board: BoardView) -> Seq<(usize, usize)> {
    edges_upto(board, board.width * board.height)
}

/// Whether two pieces with the identities of `edge` share a border
/// somewhere: a cell of the board and its right or lower neighbour stand for
/// that edge.
pub open spec fn borders(board: BoardView, edge: (usize, usize)) -> bool {
    exists|x: int, y: int| board.on_board(x, y) && #[trigger] borders_at(board, x, y, edge)
}

/// Whether the cell `(x, y)` and its right or lower neighbour stand for
/// `edge`.
pub open spec fn borders_at(board: BoardView, x: int, y: int, edge: (usize, usize)) -> bool {
    edge_between(board, board.get(x, y), board.get(x + 1, y)) == Some(edge) || edge_between(
        board,
        board.get(x, y),
        board.get(x, y + 1),
    ) == Some(edge)
}

/// The identities of the pieces that lie on the board.
pub open spec fn identities(board: BoardView) -> Set<usize> {
    Set::new(|id: usize| on_board_id(board, id))
}

/// Whether a piece with the identity `id` fills a cell of the board.
pub open spec fn on_board_id(board: BoardView, id: usize) -> bool {
    exists|k: int|
        0 <= k < board.cells.len() && (#[trigger] board.cells[k]) is Full && cell_id(
            board,
            board.cells[k],
        ) == id
}

/// The identities on the board are the numbers from 0 up to their count.
pub open spec fn dense(board: BoardView) -> bool {
    forall|id: usize| on_board_id(board, id) ==> id < identities(board).len()
}

/// Among the first `n` visits, one stands for `edge`.
spec fn borders_among(board: BoardView, n: int, edge: (usize, usize)) -> bool {
    exists|k: int|
        0 <= k < n && #[trigger] borders_at(board, visited(board, k).0, visited(board, k).1, edge)
}

/// The edges that the first `n` visits find: none stands twice, each runs
/// from a smaller identity to a larger one, and they are the edges for
/// which one of those visits stands.
proof fn lemma_edges_upto(board: BoardView, n: int)
    requires
        0 <= n,
    ensures
        edges_upto(board, n).no_duplicates(),
        forall|k: int|
            0 <= k < edges_upto(board, n).len() ==> (#[trigger] edges_upto(board, n)[k]).0
                < edges_upto(board, n)[k].1,
        forall|edge: (usize, usize)|
            #[trigger] edges_upto(board, n).contains(edge) <==> borders_among(board, n, edge),
    decreases n,
{
    broadcast use vstd::seq_lib::group_seq_properties;

    if n > 0 {
        lemma_edges_upto(board, n - 1);
        let (x, y) = visited(board, n - 1);
        let here = board.get(x, y);
        let before = edges_upto(board, n - 1);
        let middle = marked(board, here, board.get(x + 1, y), before);
        let now = edges_upto(board, n);
        assert(now == marked(board, here, board.get(x, y + 1), middle));
        assert forall|edge: (usize, usize)| #[trigger]
            now.contains(edge) <==> borders_among(board, n, edge) by {
            let right = edge_between(board, here, board.get(x + 1, y));
            let down = edge_between(board, here, board.get(x, y + 1));
            assert(borders_at(board, x, y, edge) <==> (right == Some(edge) || down == Some(edge)));
            assert(middle.contains(edge) <==> before.contains(edge) || right == Some(edge)) by {
                if before.contains(edge) {
                    assert(middle[before.index_of(edge)] == edge);
                }
                if right == Some(edge) && !before.contains(edge) {
                    assert(middle[middle.len() - 1] == edge);
                }
                if middle.contains(edge) && !before.contains(edge) {
                    let i = middle.index_of(edge);
                    if i < before.len() {
                        assert(before[i] == edge);
                    }
                }
            }
            assert(now.contains(edge) <==> middle.contains(edge) || down == Some(edge)) by {
                if middle.contains(edge) {
                    assert(now[middle.index_of(edge)] == edge);
                }
                if down == Some(edge) && !middle.contains(edge) {
                    assert(now[now.len() - 1] == edge);
                }
                if now.contains(edge) && !middle.contains(edge) {
                    let i = now.index_of(edge);
                    if i < middle.len() {
                        assert(middle[i] == edge);
                    }
                }
            }
            assert(before.contains(edge) <==> borders_among(board, n - 1, edge));
            if borders_among(board, n, edge) {
                let k = choose|k: int|
                    0 <= k < n && #[trigger] borders_at(
                        board,
                        visited(board, k).0,
                        visited(board, k).1,
                        edge,
                    );
                if k < n - 1 {
                    assert(borders_among(board, n - 1, edge));
                }
            }
            if borders_among(board, n - 1, edge) {
                let k = choose|k: int|
                    0 <= k < n - 1 && #[trigger] borders_at(
                        board,
                        visited(board, k).0,
                        visited(board, k).1,
                        edge,
                    );
                assert(borders_at(board, visited(board, k).0, visited(board, k).1, edge));
            }
            if borders_at(board, x, y, edge) {
                assert(borders_at(board, visited(board, n - 1).0, visited(board, n - 1).1, edge));
            }
        }
    }
}

/// The graph of a board: no edge joins an identity to itself, no edge
/// stands twice, and two identities are joined exactly where pieces that
/// have them share a border.
pub proof fn lemma_adjacency(board: BoardView)
    requires
        board.wf(),
    ensures
        adjacency(board).no_duplicates(),
        forall|k: int|
            0 <= k < adjacency(board).len() ==> (#[trigger] adjacency(board)[k]).0 < adjacency(
                board,
            )[k].1,
        forall|edge: (usize, usize)| #[trigger]
            adjacency(board).contains(edge) <==> borders(board, edge),
{
    let n = board.width * board.height;
    assert(0 <= n) by (nonlinear_arith)
        requires
            n == board.width * board.height,
            0 <= board.width,
            0 <= board.height,
    ;
    lemma_edges_upto(board, n);
    assert forall|edge: (usize, usize)| #[trigger]
        adjacency(board).contains(edge) <==> borders(board, edge) by {
        assert(adjacency(board).contains(edge) <==> borders_among(board, n, edge));
        if borders_among(board, n, edge) {
            let k = choose|k: int|
                0 <= k < n && #[trigger] borders_at(
                    board,
                    visited(board, k).0,
                    visited(board, k).1,
                    edge,
                );
            let (x, y) = visited(board, k);
            assert(board.get(x, y) is Full);
            assert(board.on_board(x, y) && borders_at(board, x, y, edge));
        }
        if borders(board, edge) {
            let (x, y) = choose|x: int, y: int|
                board.on_board(x, y) && #[trigger] borders_at(board, x, y, edge);
            lemma_visited(board, x, y);
            lemma_cell_index(y, x, board.height, board.width);
            assert(board.height * board.width == n) by (nonlinear_arith)
                requires
                    n == board.width * board.height,
            ;
            let k = x * board.height + y;
            assert(y + x * board.height == k);
            assert(borders_at(board, visited(board, k).0, visited(board, k).1, edge));
        }
    }
}

fn contains_edge(edges: &Vec<(usize, usize)>, edge: (usize, usize)) -> (found: bool)
    ensures
        found == edges@.contains(edge),
{
    let mut i: usize = 0;
    while i < edges.len()
        invariant
            i <= edges.len(),
            forall|j: int| 0 <= j < i ==> edges@[j] != edge,
        decreases edges.len() - i,
    {
        if edges[i].0 == edge.0 && edges[i].1 == edge.1 {
            return true;
        }
        i += 1;
    }
    false
}

/// Puts the edge for which two cells side by side stand among
/// `adjacencies`, unless they stand for none or it is there already.
pub fn mark_as_adjacent(
    b: &ColorableBoard,
    b1: &IndexedBoardState,
    b2: &IndexedBoardState,
    adjacencies: &mut Vec<(usize, usize)>,
)
    requires
        b@.resolves(*b1),
        b@.resolves(*b2),
    ensures
        final(adjacencies)@ == marked(b@, *b1, *b2, old(adjacencies)@),
{
    if let IndexedBoardState::Full(first_idx, _pt, _x, _y) = b1 {
        if let IndexedBoardState::Full(second_idx, _pt, _x, _y) = b2 {
            let id1 = b.get_polyomino(*first_idx).get_id();
            let id2 = b.get_polyomino(*second_idx).get_id();
            if id1 != id2 {
                let edge = if id1 < id2 {
                    (id1, id2)
                } else {
                    (id2, id1)
                };
                if !contains_edge(adjacencies, edge) {
                    adjacencies.push(edge);
                }
            }
        }
    }
}

/// The edges of the board's graph: one for each pair of identities whose
/// pieces share a border, from the smaller identity to the larger.
pub fn adjacency_edges(b: &ColorableBoard) -> (adjacencies: Vec<(usize, usize)>)
    requires
        b@.wf(),
    ensures
        adjacencies@ == adjacency(b@),
        adjacencies@.no_duplicates(),
        forall|k: int| 0 <= k < adjacencies@.len() ==> (#[trigger] adjacencies@[k]).0 < adjacencies@[k].1,
        forall|edge: (usize, usize)| #[trigger] adjacencies@.contains(edge) <==> borders(b@, edge),
{
    let mut adjacencies: Vec<(usize, usize)> = Vec::new();
    let mut x: i16 = 0;
    while x < b.width
        invariant
            b@.wf(),
            0 <= x <= b.width,
            adjacencies@ == edges_upto(b@, x * b@.height),
        decreases b.width - x,
    {
        let mut y: i16 = 0;
        while y < b.height
            invariant
                b@.wf(),
                0 <= x < b.width,
                0 <= y <= b.height,
                adjacencies@ == edges_upto(b@, x * b@.height + y),
            decreases b.height - y,
        {
            proof {
                lemma_visited(b@, x as int, y as int);
                assert(0 <= x * b@.height) by (nonlinear_arith)
                    requires
                        0 <= x,
                        0 <= b@.height,
                ;
            }
            mark_as_adjacent(b, &b.get(x, y), &b.get(x + 1, y), &mut adjacencies);
            mark_as_adjacent(b, &b.get(x, y), &b.get(x, y + 1), &mut adjacencies);
            y += 1;
        }
        proof {
            assert(x * b@.height + b@.height == (x + 1) * b@.height) by (nonlinear_arith);
        }
        x += 1;
    }
    proof {
        assert(x * b@.height == b@.width * b@.height) by (nonlinear_arith)
            requires
                x == b@.width,
        ;
        lemma_adjacency(b@);
    }
    adjacencies
}

fn contains_id(ids: &Vec<usize>, id: usize) -> (found: bool)
    ensures
        found == ids@.contains(id),
{
    let mut i: usize = 0;
    while i < ids.len()
        invariant
            i <= ids.len(),
            forall|j: int| 0 <= j < i ==> ids@[j] != id,
        decreases ids.len() - i,
    {
        if ids[i] == id {
            return true;
        }
        i += 1;
    }
    false
}

/// The identities of the pieces that lie on the board, each once.
fn distinct_ids(b: &ColorableBoard) -> (ids: Vec<usize>)
    requires
        b@.wf(),
    ensures
        ids@.no_duplicates(),
        ids@.to_set() == identities(b@),
        ids@.len() == identities(b@).len(),
        identities(b@).finite(),
{
    broadcast use vstd::seq_lib::group_seq_properties;

    let mut ids: Vec<usize> = Vec::new();
    let mut k: usize = 0;
    while k < b.board.len()
        invariant
            b@.wf(),
            k <= b.board.len(),
            ids@.no_duplicates(),
            forall|id: usize|
                #[trigger] ids@.contains(id) <==> exists|j: int|
                    0 <= j < k && (#[trigger] b@.cells[j]) is Full && cell_id(b@, b@.cells[j]) == id,
        decreases b.board.len() - k,
    {
        let ghost before = ids@;
        if let IndexedBoardState::Full(p, _pt, _x, _y) = b.board[k] {
            assert(b@.resolves(b@.cells[k as int]));
            let id = b.get_polyomino(p).get_id();
            if !contains_id(&ids, id) {
                ids.push(id);
            }
            proof {
                assert forall|other: usize| #[trigger]
                    ids@.contains(other) <==> exists|j: int|
                        0 <= j < k + 1 && (#[trigger] b@.cells[j]) is Full && cell_id(
                            b@,
                            b@.cells[j],
                        ) == other by {
                    if before.contains(other) {
                        assert(ids@[before.index_of(other)] == other);
                    }
                    if other == id {
                        assert(b@.cells[k as int] is Full && cell_id(b@, b@.cells[k as int]) == id);
                        if !before.contains(id) {
                            assert(ids@[ids@.len() - 1] == id);
                        }
                    } else {
                        if ids@.contains(other) {
                            let i = ids@.index_of(other);
                            assert(before[i] == other);
                        }
                    }
                }
            }
        }
        k += 1;
    }
    proof {
        assert(ids@.to_set() =~= identities(b@));
        ids@.unique_seq_to_set();
    }
    ids
}

/// The number of vertices of the board's graph: the number of distinct
/// identities among the pieces that lie on the board.
pub fn vertex_count(b: &ColorableBoard) -> (count: usize)
    requires
        b@.wf(),
    ensures
        count == identities(b@).len(),
        identities(b@).finite(),
{
    distinct_ids(b).len()
}

/// Whether the identities on the board are the numbers from 0 up to their
/// count, as the colouring needs them.
pub fn has_dense_ids(b: &ColorableBoard) -> (all_below: bool)
    requires
        b@.wf(),
    ensures
        all_below == dense(b@),
{
    broadcast use vstd::seq_lib::group_seq_properties;

    let ids = distinct_ids(b);
    let mut i: usize = 0;
    while i < ids.len()
        invariant
            i <= ids.len(),
            ids@.to_set() == identities(b@),
            ids@.len() == identities(b@).len(),
            forall|j: int| 0 <= j < i ==> ids@[j] < ids@.len(),
        decreases ids.len() - i,
    {
        if ids[i] >= ids.len() {
            proof {
                assert(ids@.contains(ids@[i as int]));
                assert(identities(b@).contains(ids@[i as int]));
                assert(on_board_id(b@, ids@[i as int]));
            }
            return false;
        }
        i += 1;
    }
    proof {
        assert forall|id: usize| on_board_id(b@, id) implies id < identities(b@).len() by {
            assert(identities(b@).contains(id));
            assert(ids@.contains(id));
            let j = ids@.index_of(id);
            assert(ids@[j] == id);
        }
    }
    true
}

/// The edges join vertices of a graph of `order` vertices, none joins a
/// vertex to itself, and no two of them join the same pair.
pub open spec fn simple_graph(order: nat, edges: Seq<(usize, usize)>) -> bool {
    &&& forall|k: int|
        0 <= k < edges.len() ==> (#[trigger] edges[k]).0 < order && edges[k].1 < order && edges[k].0
            != edges[k].1
    &&& forall|j: int, k: int|
        0 <= j < k < edges.len() ==> !same_pair(#[trigger] edges[j], #[trigger] edges[k])
}

/// Whether two edges join the same two vertices.
pub open spec fn same_pair(a: (usize, usize), b: (usize, usize)) -> bool {
    a == b || (a.0 == b.1 && a.1 == b.0)
}

/// A colouring gives the two ends of every edge different colours.
pub open spec fn proper(edges: Seq<(usize, usize)>, coloring: Seq<usize>) -> bool {
    forall|k: int|
        0 <= k < edges.len() ==> coloring[(#[trigger] edges[k]).0 as int] != coloring[edges[k].1 as int]
}

/// The lists of neighbours of the graph with `order` vertices to which the
/// edges of `edges` were added one after the other.
pub open spec fn neighbor_lists(order: nat, edges: Seq<(usize, usize)>) -> Seq<Seq<usize>>
    decreases edges.len(),
{
    if edges.len() == 0 {
        no_edges(order)
    } else {
        with_edge(neighbor_lists(order, edges.drop_last()), edges.last().0, edges.last().1)
    }
}

/// Whether one of the edges joins `i` and `j`.
pub open spec fn joins(edges: Seq<(usize, usize)>, i: usize, j: usize) -> bool {
    exists|k: int| 0 <= k < edges.len() && same_pair(#[trigger] edges[k], (i, j))
}

/// The lists of neighbours that come of a list of edges: one list for each
/// vertex, which holds the vertices that an edge joins to it, each once.
pub proof fn lemma_neighbor_lists(order: nat, edges: Seq<(usize, usize)>)
    requires
        order <= usize::MAX,
        simple_graph(order, edges),
    ensures
        neighbor_lists(order, edges).len() == order,
        forall|i: int, j: usize|
            0 <= i < order ==> (#[trigger] neighbor_lists(order, edges)[i].contains(j) <==> joins(
                edges,
                i as usize,
                j,
            )),
        forall|i: int| 0 <= i < order ==> (#[trigger] neighbor_lists(order, edges)[i]).no_duplicates(),
        simple_lists(neighbor_lists(order, edges)),
    decreases edges.len(),
{
    broadcast use vstd::seq_lib::group_seq_properties;

    let lists = neighbor_lists(order, edges);
    if edges.len() == 0 {
        assert forall|i: int, j: usize| 0 <= i < order implies (#[trigger] lists[i].contains(j)
            <==> joins(edges, i as usize, j)) by {
            assert(lists[i].len() == 0);
        }
    } else {
        let earlier = edges.drop_last();
        let (w, v) = edges.last();
        assert(edges[edges.len() - 1] == (w, v));
        assert(simple_graph(order, earlier)) by {
            assert forall|k: int| 0 <= k < earlier.len() implies (#[trigger] earlier[k]).0 < order
                && earlier[k].1 < order && earlier[k].0 != earlier[k].1 by {
                assert(earlier[k] == edges[k]);
            }
            assert forall|j: int, k: int| 0 <= j < k < earlier.len() implies !same_pair(
                #[trigger] earlier[j],
                #[trigger] earlier[k],
            ) by {
                assert(earlier[j] == edges[j] && earlier[k] == edges[k]);
            }
        }
        lemma_neighbor_lists(order, earlier);
        let before = neighbor_lists(order, earlier);
        assert(lists == with_edge(before, w, v));
        assert(!joins(earlier, w, v)) by {
            if joins(earlier, w, v) {
                let k = choose|k: int| 0 <= k < earlier.len() && same_pair(#[trigger] earlier[k], (w, v));
                assert(earlier[k] == edges[k]);
                assert(same_pair(edges[k], edges[edges.len() - 1]));
            }
        }
        assert(!joins(earlier, v, w)) by {
            if joins(earlier, v, w) {
                let k = choose|k: int| 0 <= k < earlier.len() && same_pair(#[trigger] earlier[k], (v, w));
                assert(earlier[k] == edges[k]);
                assert(same_pair(edges[k], edges[edges.len() - 1]));
            }
        }
        assert(lists[w as int] == before[w as int].push(v));
        assert(lists[v as int] == before[v as int].push(w));
        assert forall|i: int, j: usize| 0 <= i < order implies (#[trigger] lists[i].contains(j)
            <==> joins(edges, i as usize, j)) by {
            let added = (i == w && j == v) || (i == v && j == w);
            assert(before[i].contains(j) <==> joins(earlier, i as usize, j));
            assert(lists[i].contains(j) <==> before[i].contains(j) || added) by {
                if i == w {
                    lemma_pushed(before[i], v, j);
                } else if i == v {
                    lemma_pushed(before[i], w, j);
                } else {
                    assert(lists[i] == before[i]);
                }
            }
            assert(joins(edges, i as usize, j) <==> joins(earlier, i as usize, j) || added) by {
                if joins(earlier, i as usize, j) {
                    let k = choose|k: int|
                        0 <= k < earlier.len() && same_pair(#[trigger] earlier[k], (i as usize, j));
                    assert(earlier[k] == edges[k]);
                    assert(same_pair(edges[k], (i as usize, j)));
                }
                if added {
                    assert(same_pair(edges[edges.len() - 1], (i as usize, j)));
                }
                if joins(edges, i as usize, j) {
                    let k = choose|k: int|
                        0 <= k < edges.len() && same_pair(#[trigger] edges[k], (i as usize, j));
                    if k < earlier.len() {
                        assert(earlier[k] == edges[k]);
                        assert(same_pair(earlier[k], (i as usize, j)));
                    }
                }
            }
        }
        assert forall|i: int| 0 <= i < order implies (#[trigger] lists[i]).no_duplicates() by {
            assert(before[i].no_duplicates());
            if i == w {
                assert(!before[i].contains(v));
                lemma_pushed_new(before[i], v);
            } else if i == v {
                assert(!before[i].contains(w));
                lemma_pushed_new(before[i], w);
            } else {
                assert(lists[i] == before[i]);
            }
        }
    }
    assert(simple_lists(lists)) by {
        assert forall|i: int, k: int| 0 <= i < lists.len() && 0 <= k < lists[i].len() implies ({
            let j = #[trigger] lists[i][k];
            j < lists.len() && j != i && lists[j as int].contains(i as usize)
        }) by {
            let j = lists[i][k];
            assert(lists[i].contains(j));
            assert(joins(edges, i as usize, j));
            let e = choose|e: int| 0 <= e < edges.len() && same_pair(#[trigger] edges[e], (i as usize, j));
            assert(edges[e].0 < order && edges[e].1 < order && edges[e].0 != edges[e].1);
            assert(same_pair(edges[e], (j, i as usize)));
            assert(joins(edges, j, i as usize));
        }
    }
}

/// What a list holds after one more was put at its end.
proof fn lemma_pushed(list: Seq<usize>, last: usize, j: usize)
    ensures
        list.push(last).contains(j) <==> list.contains(j) || j == last,
{
    let longer = list.push(last);
    if list.contains(j) {
        let k = choose|k: int| 0 <= k < list.len() && list[k] == j;
        assert(longer[k] == j);
    }
    if j == last {
        assert(longer[list.len() as int] == j);
    }
    if longer.contains(j) {
        let k = choose|k: int| 0 <= k < longer.len() && longer[k] == j;
        if k < list.len() {
            assert(list[k] == j);
        }
    }
}

/// A list that holds nothing twice still does after something new was put
/// at its end.
proof fn lemma_pushed_new(list: Seq<usize>, last: usize)
    requires
        list.no_duplicates(),
        !list.contains(last),
    ensures
        list.push(last).no_duplicates(),
{
    let longer = list.push(last);
    assert forall|a: int, b: int| 0 <= a < longer.len() && 0 <= b < longer.len() && a
        != b implies longer[a] != longer[b] by {
        if a < list.len() && b < list.len() {
            assert(list[a] != list[b]);
        } else if a < list.len() {
            assert(list.contains(list[a]));
        } else {
            assert(list.contains(list[b]));
        }
    }
}

/// A colouring of the pieces of the board: for each identity the number
/// of its colour, such that two pieces that share a border have different
/// colours.
///
/// The colours are those that `heuristic_graph_coloring::color_rlf` finds for
/// the board's graph, which is made anew for every call: one vertex for
/// each identity, and the edges of the board added in the order in which
/// they are found. The identities on the board must be the numbers from 0
/// up to their count, since they are the vertices of the graph.
pub fn find_coloring(b: &ColorableBoard) -> (coloring: Vec<usize>)
    requires
        b@.wf(),
        dense(b@),
    ensures
        coloring@ == rlf_coloring(neighbor_lists(identities(b@).len(), adjacency(b@))),
        coloring@.len() == identities(b@).len(),
        proper(adjacency(b@), coloring@),
        forall|edge: (usize, usize)|
            #[trigger] borders(b@, edge) ==> coloring@[edge.0 as int] != coloring@[edge.1 as int],
{
    broadcast use vstd::seq_lib::group_seq_properties;

    let adjacencies = adjacency_edges(b);
    let count = vertex_count(b);
    let mut graph = VecVecGraph::new(count);
    proof {
        assert forall|k: int| 0 <= k < adjacencies@.len() implies (#[trigger] adjacencies@[k]).0
            < count && adjacencies@[k].1 < count by {
            let edge = adjacencies@[k];
            assert(adjacencies@.contains(edge));
            assert(borders(b@, edge));
            lemma_edge_ends(b@, edge);
        }
        assert(simple_graph(count as nat, adjacencies@));
        assert(adjacencies@.take(0).len() == 0);
    }
    let mut i: usize = 0;
    while i < adjacencies.len()
        invariant
            i <= adjacencies.len(),
            graph_neighbors(graph) == neighbor_lists(count as nat, adjacencies@.take(i as int)),
            graph_neighbors(graph).len() == count,
            forall|k: int|
                0 <= k < adjacencies@.len() ==> (#[trigger] adjacencies@[k]).0 < count
                    && adjacencies@[k].1 < count,
        decreases adjacencies.len() - i,
    {
        let (poly1, poly2) = adjacencies[i];
        graph.add_edge(poly1, poly2);
        proof {
            let longer = adjacencies@.take(i + 1);
            assert(longer.drop_last() =~= adjacencies@.take(i as int));
            assert(longer.last() == (poly1, poly2));
        }
        i += 1;
    }
    proof {
        assert(adjacencies@.take(i as int) =~= adjacencies@);
        lemma_neighbor_lists(count as nat, adjacencies@);
    }
    let coloring = rlf(&graph);
    proof {
        let lists = neighbor_lists(count as nat, adjacencies@);
        assert forall|k: int| 0 <= k < adjacencies@.len() implies coloring@[(
        #[trigger] adjacencies@[k]).0 as int] != coloring@[adjacencies@[k].1 as int] by {
            let (a, c) = adjacencies@[k];
            assert(same_pair(adjacencies@[k], (a, c)));
            assert(joins(adjacencies@, a, c));
            assert(lists[a as int].contains(c));
            let at = choose|at: int| 0 <= at < lists[a as int].len() && lists[a as int][at] == c;
            assert(lists[a as int][at] == c);
        }
        assert forall|edge: (usize, usize)| #[trigger] borders(b@, edge) implies coloring@[edge.0 as int]
            != coloring@[edge.1 as int] by {
            assert(adjacencies@.contains(edge));
            let k = adjacencies@.index_of(edge);
            assert(adjacencies@[k] == edge);
        }
    }
    coloring
}

/// The two identities of an edge of the board's graph lie on the board.
proof fn lemma_edge_ends(board: BoardView, edge: (usize, usize))
    requires
        board.wf(),
        borders(board, edge),
    ensures
        on_board_id(board, edge.0),
        on_board_id(board, edge.1),
{
    let (x, y) = choose|x: int, y: int| board.on_board(x, y) && #[trigger] borders_at(board, x, y, edge);
    let here = board.get(x, y);
    lemma_cell_index(x, y, board.width, board.height);
    assert(here == board.cells[x + y * board.width]);
    let other = if edge_between(board, here, board.get(x + 1, y)) == Some(edge) {
        (x + 1, y)
    } else {
        (x, y + 1)
    };
    assert(board.get(other.0, other.1) is Full);
    lemma_cell_index(other.0, other.1, board.width, board.height);
    assert(board.get(other.0, other.1) == board.cells[other.0 + other.1 * board.width]);
}

/// The sixteen digits of base 16, for `digit` from 0 to 15.
pub open spec fn hex_digit(digit: int) -> char {
    if digit == 0 {
        '0'
    } else if digit == 1 {
        '1'
    } else if digit == 2 {
        '2'
    } else if digit == 3 {
        '3'
    } else if digit == 4 {
        '4'
    } else if digit == 5 {
        '5'
    } else if digit == 6 {
        '6'
    } else if digit == 7 {
        '7'
    } else if digit == 8 {
        '8'
    } else if digit == 9 {
        '9'
    } else if digit == 10 {
        'a'
    } else if digit == 11 {
        'b'
    } else if digit == 12 {
        'c'
    } else if digit == 13 {
        'd'
    } else if digit == 14 {
        'e'
    } else {
        'f'
    }
}

/// The symbol of a colour: the last digit of its number written in base 16.
pub open spec fn color_symbol(color: usize) -> char {
    hex_digit(color as int % 16)
}

pub fn symbol_of(color: usize) -> (symbol: char)
    ensures
        symbol == color_symbol(color),
{
    match color % 16 {
        0 => '0',
        1 => '1',
        2 => '2',
        3 => '3',
        4 => '4',
        5 => '5',
        6 => '6',
        7 => '7',
        8 => '8',
        9 => '9',
        10 => 'a',
        11 => 'b',
        12 => 'c',
        13 => 'd',
        14 => 'e',
        _ => 'f',
    }
}

/// Whether one of the first `n` cells visited holds a point.
spec fn lies_among(board: BoardView, n: int, piece: int, point: int) -> bool {
    exists|k: int|
        0 <= k < n && #[trigger] board.holds(
            visited(board, k).0,
            visited(board, k).1,
            piece,
            point,
        )
}

/// Whether a point lies on a cell of the board.
pub open spec fn lies_on_board(board: BoardView, piece: int, point: int) -> bool {
    exists|x: int, y: int| #[trigger] board.holds(x, y, piece, point)
}

/// A point after the first `n` cells were coloured: if it lies on one of
/// them, it has the symbol of the colour of its piece.
spec fn point_colored(
    board: BoardView,
    coloring: Seq<usize>,
    n: int,
    piece: int,
    point: int,
) -> ColorPoint {
    let before = board.pieces[piece].points[point];
    if lies_among(board, n, piece, point) {
        ColorPoint { color: color_symbol(coloring[board.pieces[piece].id as int]), ..before }
    } else {
        before
    }
}

spec fn piece_colored(board: BoardView, coloring: Seq<usize>, n: int, piece: int) -> Piece {
    Piece {
        id: board.pieces[piece].id,
        points: Seq::new(
            board.pieces[piece].points.len(),
            |pt: int| point_colored(board, coloring, n, piece, pt),
        ),
    }
}

/// The board after the first `n` cells visited were coloured.
spec fn colored_upto(board: BoardView, coloring: Seq<usize>, n: int) -> BoardView {
    BoardView {
        pieces: Seq::new(board.pieces.len(), |p: int| piece_colored(board, coloring, n, p)),
        ..board
    }
}

/// The board with the colouring written on it: every point that lies on a
/// cell has the symbol of the colour of its piece, and every other point is
/// as it was.
pub open spec fn colored(board: BoardView, coloring: Seq<usize>) -> BoardView {
    BoardView {
        pieces: Seq::new(
            board.pieces.len(),
            |p: int|
                Piece {
                    id: board.pieces[p].id,
                    points: Seq::new(
                        board.pieces[p].points.len(),
                        |pt: int| point_written(board, coloring, p, pt),
                    ),
                },
        ),
        ..board
    }
}

/// A point of the board with the colouring written on it.
pub open spec fn point_written(board: BoardView, coloring: Seq<usize>, piece: int, point: int) -> ColorPoint {
    let before = board.pieces[piece].points[point];
    if lies_on_board(board, piece, point) {
        ColorPoint { color: color_symbol(coloring[board.pieces[piece].id as int]), ..before }
    } else {
        before
    }
}

/// A point lies on the board exactly if a visit of all the cells meets it.
proof fn lemma_lies_on_board(board: BoardView, piece: int, point: int)
    requires
        board.wf(),
    ensures
        lies_among(board, board.width * board.height, piece, point) <==> lies_on_board(
            board,
            piece,
            point,
        ),
{
    let n = board.width * board.height;
    if lies_on_board(board, piece, point) {
        let (x, y) = choose|x: int, y: int| #[trigger] board.holds(x, y, piece, point);
        lemma_visited(board, x, y);
        lemma_cell_index(y, x, board.height, board.width);
        assert(board.height * board.width == n) by (nonlinear_arith)
            requires
                n == board.width * board.height,
        ;
        let k = x * board.height + y;
        assert(y + x * board.height == k);
        assert(board.holds(visited(board, k).0, visited(board, k).1, piece, point));
    }
    if lies_among(board, n, piece, point) {
        let k = choose|k: int|
            0 <= k < n && #[trigger] board.holds(
                visited(board, k).0,
                visited(board, k).1,
                piece,
                point,
            );
        assert(board.holds(visited(board, k).0, visited(board, k).1, piece, point));
    }
}

/// To colour one more cell is to set the colour of the point on it.
proof fn lemma_colored_step(board: BoardView, coloring: Seq<usize>, n: int)
    requires
        board.wf(),
        0 <= n,
    ensures
        ({
            let (x, y) = visited(board, n);
            let before = colored_upto(board, coloring, n);
            colored_upto(board, coloring, n + 1) == match board.get(x, y) {
                IndexedBoardState::Full(p, pt, _, _) => before.paint(
                    p as int,
                    pt as int,
                    color_symbol(coloring[board.pieces[p as int].id as int]),
                ),
                _ => before,
            }
        }),
{
    let (x, y) = visited(board, n);
    let before = colored_upto(board, coloring, n);
    let after = colored_upto(board, coloring, n + 1);
    let expected = match board.get(x, y) {
        IndexedBoardState::Full(p, pt, _, _) => before.paint(
            p as int,
            pt as int,
            color_symbol(coloring[board.pieces[p as int].id as int]),
        ),
        _ => before,
    };
    assert(board.resolves(board.get(x, y))) by {
        if board.on_board(x, y) {
            lemma_cell_index(x, y, board.width, board.height);
        }
    }
    assert(before.pieces.len() == board.pieces.len());
    assert(expected.pieces.len() == board.pieces.len());
    assert forall|p: int| 0 <= p < board.pieces.len() implies #[trigger] after.pieces[p]
        == expected.pieces[p] by {
        let len = board.pieces[p].points.len();
        assert(before.pieces[p].points.len() == len);
        assert(expected.pieces[p].points.len() == len);
        assert(expected.pieces[p].id == board.pieces[p].id);
        assert forall|pt: int| 0 <= pt < len implies (#[trigger] after.pieces[p].points[pt])
            == expected.pieces[p].points[pt] by {
            let hit = board.holds(x, y, p, pt);
            assert(lies_among(board, n + 1, p, pt) <==> lies_among(board, n, p, pt) || hit) by {
                if lies_among(board, n + 1, p, pt) {
                    let k = choose|k: int|
                        0 <= k < n + 1 && #[trigger] board.holds(
                            visited(board, k).0,
                            visited(board, k).1,
                            p,
                            pt,
                        );
                    if k < n {
                        assert(lies_among(board, n, p, pt));
                    }
                }
                if lies_among(board, n, p, pt) {
                    let k = choose|k: int|
                        0 <= k < n && #[trigger] board.holds(
                            visited(board, k).0,
                            visited(board, k).1,
                            p,
                            pt,
                        );
                    assert(board.holds(visited(board, k).0, visited(board, k).1, p, pt));
                }
                if hit {
                    assert(board.holds(visited(board, n).0, visited(board, n).1, p, pt));
                }
            }
            if hit {
                let symbol = color_symbol(coloring[board.pieces[p].id as int]);
                assert(expected == before.paint(p, pt, symbol));
                assert(expected.pieces[p].points[pt] == (ColorPoint {
                    color: symbol,
                    ..before.pieces[p].points[pt]
                }));
            } else {
                assert(expected.pieces[p].points[pt] == before.pieces[p].points[pt]);
            }
        }
        assert(after.pieces[p].points =~= expected.pieces[p].points);
    }
    assert(after.pieces =~= expected.pieces);
}

/// Before any cell is coloured the board is as it was.
proof fn lemma_colored_zero(board: BoardView, coloring: Seq<usize>)
    requires
        board.wf(),
    ensures
        colored_upto(board, coloring, 0) == board,
{
    let start = colored_upto(board, coloring, 0);
    assert forall|p: int| 0 <= p < board.pieces.len() implies #[trigger] start.pieces[p]
        == board.pieces[p] by {
        assert(start.pieces[p].points =~= board.pieces[p].points);
    }
    assert(start.pieces =~= board.pieces);
}

/// Whether the colouring has a colour for every identity on the board.
pub open spec fn covered(board: BoardView, coloring: Seq<usize>) -> bool {
    forall|id: usize| on_board_id(board, id) ==> id < coloring.len()
}

/// Writes a colouring on the board: every point that lies on a cell gets
/// the symbol of the colour that `colors` has for the identity of its piece.
pub fn write_coloring(b: &mut ColorableBoard, colors: &Vec<usize>)
    requires
        old(b)@.wf(),
        covered(old(b)@, colors@),
    ensures
        final(b)@ == colored(old(b)@, colors@),
        final(b)@.wf(),
{
    let ghost board = b@;
    proof {
        lemma_colored_zero(board, colors@);
    }
    let mut x: i16 = 0;
    while x < b.width
        invariant
            board.wf(),
            covered(board, colors@),
            b.width == board.width,
            b.height == board.height,
            0 <= x <= b.width,
            b@.wf(),
            b@ == colored_upto(board, colors@, x * board.height),
        decreases b.width - x,
    {
        let mut y: i16 = 0;
        while y < b.height
            invariant
                board.wf(),
                covered(board, colors@),
                b.width == board.width,
                b.height == board.height,
                0 <= x < b.width,
                0 <= y <= b.height,
                b@.wf(),
                b@ == colored_upto(board, colors@, x * board.height + y),
            decreases b.height - y,
        {
            let ghost n = x * board.height + y;
            let ghost before = b@;
            proof {
                lemma_visited(board, x as int, y as int);
                assert(0 <= x * board.height) by (nonlinear_arith)
                    requires
                        0 <= x,
                        0 <= board.height,
                ;
                lemma_colored_step(board, colors@, n);
                lemma_cell_index(x as int, y as int, board.width, board.height);
                assert(before.get(x as int, y as int) == board.get(x as int, y as int));
            }
            if let IndexedBoardState::Full(poly_idx, pt_idx, _x, _y) = b.get(x, y) {
                proof {
                    let cell = board.cells[x + y * board.width];
                    assert(board.resolves(cell));
                    assert(cell is Full && cell_id(board, cell) == board.pieces[poly_idx as int].id);
                    assert(on_board_id(board, board.pieces[poly_idx as int].id));
                    assert(before.pieces[poly_idx as int].id == board.pieces[poly_idx as int].id);
                    assert(before.pieces[poly_idx as int].points.len()
                        == board.pieces[poly_idx as int].points.len());
                }
                let poly = b.get_polyomino_mut(poly_idx);
                let color = symbol_of(colors[poly.get_id()]);
                poly.index_mut(pt_idx).set_color(color);
                proof {
                    let target = before.paint(poly_idx as int, pt_idx as int, color);
                    assert(b@.pieces =~= target.pieces);
                    assert(b@ == target);
                    assert forall|k: int| 0 <= k < b@.cells.len() implies b@.resolves(
                        #[trigger] b@.cells[k],
                    ) by {
                        assert(before.resolves(before.cells[k]));
                    }
                }
            }
            y += 1;
        }
        proof {
            assert(x * board.height + board.height == (x + 1) * board.height) by (nonlinear_arith);
        }
        x += 1;
    }
    proof {
        assert(x * board.height == board.width * board.height) by (nonlinear_arith)
            requires
                x == board.width,
        ;
        lemma_colored_all(board, colors@);
    }
}

/// Colours the pieces of the board so that pieces that share a border
/// differ: finds a colouring of the board's graph and writes it on the board.
pub fn color_board(b: &mut ColorableBoard)
    requires
        old(b)@.wf(),
        dense(old(b)@),
    ensures
        final(b)@ == colored(
            old(b)@,
            rlf_coloring(neighbor_lists(identities(old(b)@).len(), adjacency(old(b)@))),
        ),
        final(b)@.wf(),
{
    let colors: Vec<usize> = find_coloring(b);
    write_coloring(b, &colors);
}

/// When all the cells were coloured, the colouring is written on the board.
proof fn lemma_colored_all(board: BoardView, coloring: Seq<usize>)
    requires
        board.wf(),
    ensures
        colored_upto(board, coloring, board.width * board.height) == colored(board, coloring),
{
    let n = board.width * board.height;
    let stepwise = colored_upto(board, coloring, n);
    let whole = colored(board, coloring);
    assert forall|p: int| 0 <= p < board.pieces.len() implies #[trigger] stepwise.pieces[p]
        == whole.pieces[p] by {
        assert forall|pt: int| 0 <= pt < board.pieces[p].points.len() implies (
        #[trigger] stepwise.pieces[p].points[pt]) == whole.pieces[p].points[pt] by {
            lemma_lies_on_board(board, p, pt);
        }
        assert(stepwise.pieces[p].points =~= whole.pieces[p].points);
    }
    assert(stepwise.pieces =~= whole.pieces);
}

} // verus!
