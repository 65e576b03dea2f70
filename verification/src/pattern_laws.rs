//! What the search for a shape does not depend on: where the shape's points
//! are counted from, and the order in which they are listed.

use vstd::prelude::*;

use crate::colorableboard::BoardView;
use crate::utils::anchor_color;
use crate::utils::covers;
use crate::utils::isolated;
use crate::utils::matches_at;
use crate::utils::neighbor;
use crate::utils::one_colored;
use crate::utils::placed;
use crate::utils::present;

verus! {

/// The shape with every point moved by `(dx, dy)`.
pub open spec fn moved(shape: Seq<(int, int)>, dx: int, dy: int) -> Seq<(int, int)> {
    shape.map_values(|cell: (int, int)| (cell.0 + dx, cell.1 + dy))
}

/// A match is a matter of the cells on which the shape lies, not of the
/// place from which its points are counted: the shape moved by `(dx, dy)` and
/// put at `(x, y)` matches exactly if the shape itself, put at
/// `(x + dx, y + dy)`, does.
pub proof fn lemma_match_of_moved_shape(
    board: BoardView,
    shape: Seq<(int, int)>,
    dx: int,
    dy: int,
    x: int,
    y: int,
)
    ensures
        matches_at(board, moved(shape, dx, dy), x, y) == matches_at(board, shape, x + dx, y + dy),
{
    let other = moved(shape, dx, dy);
    assert forall|i: int| 0 <= i < shape.len() implies #[trigger] placed(other, x, y, i) == placed(
        shape,
        x + dx,
        y + dy,
        i,
    ) by {
        assert(other[i] == (shape[i].0 + dx, shape[i].1 + dy));
    }
    assert forall|cell: (int, int)|
        covers(other, x, y, cell) <==> covers(shape, x + dx, y + dy, cell) by {
        if covers(other, x, y, cell) {
            let i = choose|i: int| 0 <= i < other.len() && #[trigger] placed(other, x, y, i) == cell;
            assert(placed(shape, x + dx, y + dy, i) == cell);
        }
        if covers(shape, x + dx, y + dy, cell) {
            let i = choose|i: int|
                0 <= i < shape.len() && #[trigger] placed(shape, x + dx, y + dy, i) == cell;
            assert(placed(other, x, y, i) == cell);
        }
    }
    lemma_same_cells_same_match(board, other, x, y, shape, x + dx, y + dy);
}

/// Two shapes that, each put at its place, lie on the same cells, both
/// match or both do not.
pub proof fn lemma_same_cells_same_match(
    board: BoardView,
    a: Seq<(int, int)>,
    ax: int,
    ay: int,
    b: Seq<(int, int)>,
    bx: int,
    by: int,
)
    requires
        forall|cell: (int, int)| covers(a, ax, ay, cell) <==> covers(b, bx, by, cell),
    ensures
        matches_at(board, a, ax, ay) == matches_at(board, b, bx, by),
{
    if matches_at(board, a, ax, ay) {
        lemma_match_carries_over(board, a, ax, ay, b, bx, by);
    }
    if matches_at(board, b, bx, by) {
        lemma_match_carries_over(board, b, bx, by, a, ax, ay);
    }
}

proof fn lemma_match_carries_over(
    board: BoardView,
    a: Seq<(int, int)>,
    ax: int,
    ay: int,
    b: Seq<(int, int)>,
    bx: int,
    by: int,
)
    requires
        forall|cell: (int, int)| covers(a, ax, ay, cell) <==> covers(b, bx, by, cell),
        matches_at(board, a, ax, ay),
    ensures
        matches_at(board, b, bx, by),
{
    let color = anchor_color(board, a, ax, ay);
    assert forall|i: int| 0 <= i < b.len() implies ({
        let cell = #[trigger] placed(b, bx, by, i);
        board.color_at(cell.0, cell.1) is Some && board.color_at(cell.0, cell.1) == color
    }) by {
        let cell = placed(b, bx, by, i);
        assert(covers(b, bx, by, cell));
        assert(covers(a, ax, ay, cell));
        let j = choose|j: int| 0 <= j < a.len() && #[trigger] placed(a, ax, ay, j) == cell;
        assert(placed(a, ax, ay, j) == cell);
    }
    if b.len() > 0 {
        let first = placed(b, bx, by, 0);
        assert(board.color_at(first.0, first.1) == color);
        assert(anchor_color(board, b, bx, by) == color);
    }
    assert(one_colored(board, b, bx, by));
    assert forall|i: int, side: int| 0 <= i < b.len() && 0 <= side < 4 implies ({
        let beside = #[trigger] neighbor(placed(b, bx, by, i), side);
        !covers(b, bx, by, beside) ==> board.color_at(beside.0, beside.1) is None || board.color_at(
            beside.0,
            beside.1,
        ) != anchor_color(board, b, bx, by)
    }) by {
        let cell = placed(b, bx, by, i);
        let beside = neighbor(cell, side);
        assert(covers(b, bx, by, cell));
        assert(covers(a, ax, ay, cell));
        let j = choose|j: int| 0 <= j < a.len() && #[trigger] placed(a, ax, ay, j) == cell;
        assert(neighbor(placed(a, ax, ay, j), side) == beside);
        if !covers(b, bx, by, beside) {
            assert(!covers(a, ax, ay, beside));
        }
    }
    assert(isolated(board, b, bx, by));
}

/// A match does not depend on the order of the points of the shape, nor on
/// a point that is listed twice: two shapes with the same points match at
/// the same places.
pub proof fn lemma_match_of_same_points(
    board: BoardView,
    a: Seq<(int, int)>,
    b: Seq<(int, int)>,
    x: int,
    y: int,
)
    requires
        a.to_set() == b.to_set(),
    ensures
        matches_at(board, a, x, y) == matches_at(board, b, x, y),
        present(board, a) == present(board, b),
{
    lemma_same_points_same_cells(a, b, x, y);
    lemma_same_cells_same_match(board, a, x, y, b, x, y);
    if present(board, a) {
        let (px, py) = choose|px: int, py: int|
            board.on_board(px, py) && #[trigger] matches_at(board, a, px, py);
        lemma_same_points_same_cells(a, b, px, py);
        lemma_same_cells_same_match(board, a, px, py, b, px, py);
        assert(board.on_board(px, py) && matches_at(board, b, px, py));
    }
    if present(board, b) {
        let (px, py) = choose|px: int, py: int|
            board.on_board(px, py) && #[trigger] matches_at(board, b, px, py);
        lemma_same_points_same_cells(a, b, px, py);
        lemma_same_cells_same_match(board, a, px, py, b, px, py);
        assert(board.on_board(px, py) && matches_at(board, a, px, py));
    }
}

proof fn lemma_same_points_same_cells(a: Seq<(int, int)>, b: Seq<(int, int)>, x: int, y: int)
    requires
        a.to_set() == b.to_set(),
    ensures
        forall|cell: (int, int)| covers(a, x, y, cell) <==> covers(b, x, y, cell),
{
    assert forall|cell: (int, int)| covers(a, x, y, cell) <==> covers(b, x, y, cell) by {
        if covers(a, x, y, cell) {
            lemma_covered_by_both(a, b, x, y, cell);
        }
        if covers(b, x, y, cell) {
            lemma_covered_by_both(b, a, x, y, cell);
        }
    }
}

proof fn lemma_covered_by_both(
    a: Seq<(int, int)>,
    b: Seq<(int, int)>,
    x: int,
    y: int,
    cell: (int, int),
)
    requires
        a.to_set() == b.to_set(),
        covers(a, x, y, cell),
    ensures
        covers(b, x, y, cell),
{
    let i = choose|i: int| 0 <= i < a.len() && #[trigger] placed(a, x, y, i) == cell;
    assert(a.contains(a[i]));
    assert(a.to_set().contains(a[i]));
    assert(b.to_set().contains(a[i]));
    assert(b.contains(a[i]));
    let j = choose|j: int| 0 <= j < b.len() && b[j] == a[i];
    assert(placed(b, x, y, j) == cell);
}

} // verus!
