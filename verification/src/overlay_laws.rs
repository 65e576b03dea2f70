//! What laying one board over another does to the colours that are read back
//! from the cells.

use vstd::prelude::*;

use crate::colorableboard::lemma_cell_index;
use crate::colorableboard::BoardView;
use crate::colorableboard::IndexedBoardState;
use crate::utils::last_written;
use crate::utils::lemma_visited;
use crate::utils::overlaid;
use crate::utils::visited;
use crate::utils::writes;
use crate::utils::Orientation;

verus! {

/// No point of the board lies on two cells.
pub open spec fn unshared(board: BoardView) -> bool {
    forall|j: int, k: int|
        0 <= j < board.cells.len() && 0 <= k < board.cells.len() && (
        #[trigger] board.cells[j]) is Full && (#[trigger] board.cells[k]) is Full
            && board.cells[j]->Full_0 == board.cells[k]->Full_0 && board.cells[j]->Full_1
            == board.cells[k]->Full_1 ==> j == k
}

/// Each of the four orientations, applied twice, puts every cell back.
pub proof fn lemma_apply_twice(orientation: Orientation, width: int, height: int, x: int, y: int)
    ensures
        ({
            let (tx, ty) = orientation.apply(width, height, x, y);
            orientation.apply(width, height, tx, ty) == (x, y)
        }),
        ({
            let (tx, ty) = orientation.apply(width, height, x, y);
            (0 <= x < width && 0 <= y < height) <==> (0 <= tx < width && 0 <= ty < height)
        }),
{
}

/// Two places on the board with the same cell in the row-by-row list are
/// one place.
proof fn lemma_cell_index_unique(width: int, height: int, x1: int, y1: int, x2: int, y2: int)
    requires
        0 <= x1 < width,
        0 <= x2 < width,
        0 <= y1,
        0 <= y2,
        x1 + y1 * width == x2 + y2 * width,
    ensures
        x1 == x2,
        y1 == y2,
{
    vstd::arithmetic::div_mod::lemma_fundamental_div_mod_converse(x1 + y1 * width, width, y1, x1);
    vstd::arithmetic::div_mod::lemma_fundamental_div_mod_converse(x2 + y2 * width, width, y2, x2);
}

/// A visit that gives a colour goes from a place on the board, and its number
/// says which.
proof fn lemma_visit_number(board: BoardView, k: int)
    requires
        0 <= k,
        0 < board.height,
    ensures
        ({
            let (x, y) = visited(board, k);
            0 <= y < board.height && 0 <= x && k == x * board.height + y
        }),
{
    vstd::arithmetic::div_mod::lemma_fundamental_div_mod(k, board.height);
    vstd::arithmetic::div_mod::lemma_mod_bound(k, board.height);
    vstd::arithmetic::div_mod::lemma_div_pos_is_pos(k, board.height);
    assert(board.height * (k / board.height) == (k / board.height) * board.height)
        by (nonlinear_arith);
}

/// Where none of the first `n` visits gives a point a colour, none was given.
proof fn lemma_never_written(
    source: BoardView,
    target: BoardView,
    orientation: Orientation,
    n: int,
    piece: int,
    point: int,
)
    requires
        forall|k: int| 0 <= k < n ==> !#[trigger] writes(source, target, orientation, k, piece, point),
    ensures
        last_written(source, target, orientation, n, piece, point) is None,
    decreases n,
{
    if n > 0 {
        lemma_never_written(source, target, orientation, n - 1, piece, point);
    }
}

/// Where one visit alone gives a point a colour, that colour is the last
/// one given.
proof fn lemma_written_once(
    source: BoardView,
    target: BoardView,
    orientation: Orientation,
    n: int,
    piece: int,
    point: int,
    k0: int,
)
    requires
        0 <= k0 < n,
        writes(source, target, orientation, k0, piece, point),
        forall|k: int|
            0 <= k < n && k != k0 ==> !#[trigger] writes(source, target, orientation, k, piece, point),
    ensures
        last_written(source, target, orientation, n, piece, point) == source.color_at(
            visited(source, k0).0,
            visited(source, k0).1,
        ),
    decreases n,
{
    if n - 1 == k0 {
    } else {
        lemma_written_once(source, target, orientation, n - 1, piece, point, k0);
    }
}

/// On a target of the source's size on which no point lies twice, the only
/// visit that can give a colour to the point on the cell `(tx, ty)` is the
/// visit of the cell of the source that comes to lie there.
proof fn lemma_only_writer(
    source: BoardView,
    target: BoardView,
    orientation: Orientation,
    tx: int,
    ty: int,
    piece: int,
    point: int,
    k: int,
)
    requires
        source.wf(),
        target.wf(),
        target.width == source.width,
        target.height == source.height,
        unshared(target),
        target.holds(tx, ty, piece, point),
        0 <= k,
        writes(source, target, orientation, k, piece, point),
    ensures
        ({
            let (x, y) = orientation.apply(source.width, source.height, tx, ty);
            k == x * source.height + y && visited(source, k) == (x, y)
        }),
{
    let (vx, vy) = visited(source, k);
    let (wx, wy) = orientation.apply(source.width, source.height, vx, vy);
    assert(source.on_board(vx, vy));
    lemma_visit_number(source, k);
    assert(target.on_board(wx, wy));
    assert(target.on_board(tx, ty));
    lemma_cell_index(wx, wy, target.width, target.height);
    lemma_cell_index(tx, ty, target.width, target.height);
    let j1 = wx + wy * target.width;
    let j2 = tx + ty * target.width;
    assert(target.cells[j1] is Full && target.cells[j2] is Full);
    assert(j1 == j2);
    lemma_cell_index_unique(target.width, target.height, wx, wy, tx, ty);
    lemma_apply_twice(orientation, source.width, source.height, vx, vy);
}

/// The colour of a point of the target after the source was laid over it,
/// where the target has the source's size and no point of it lies twice:
/// the point on the cell `(tx, ty)` has the colour of the cell of the source
/// that comes to lie there, and keeps its own where that cell is not filled.
pub proof fn lemma_overlaid_point(
    source: BoardView,
    target: BoardView,
    orientation: Orientation,
    tx: int,
    ty: int,
    piece: int,
    point: int,
)
    requires
        source.wf(),
        target.wf(),
        target.width == source.width,
        target.height == source.height,
        unshared(target),
        target.holds(tx, ty, piece, point),
    ensures
        ({
            let (x, y) = orientation.apply(source.width, source.height, tx, ty);
            last_written(
                source,
                target,
                orientation,
                source.width * source.height,
                piece,
                point,
            ) == source.color_at(x, y)
        }),
{
    let n = source.width * source.height;
    let (x, y) = orientation.apply(source.width, source.height, tx, ty);
    lemma_apply_twice(orientation, source.width, source.height, tx, ty);
    assert(source.on_board(x, y));
    let k0 = x * source.height + y;
    lemma_visited(source, x, y);
    assert(0 <= k0 < n) by {
        lemma_cell_index(y, x, source.height, source.width);
        assert(source.height * source.width == source.width * source.height) by (nonlinear_arith);
    }
    assert forall|k: int| 0 <= k < n && k != k0 implies !#[trigger] writes(
        source,
        target,
        orientation,
        k,
        piece,
        point,
    ) by {
        if writes(source, target, orientation, k, piece, point) {
            lemma_only_writer(source, target, orientation, tx, ty, piece, point, k);
        }
    }
    if source.color_at(x, y) is Some {
        assert(writes(source, target, orientation, k0, piece, point));
        lemma_written_once(source, target, orientation, n, piece, point, k0);
    } else {
        assert(!writes(source, target, orientation, k0, piece, point));
        lemma_never_written(source, target, orientation, n, piece, point);
    }
}

/// Laying a board over another and reading the colours back, cell by cell:
/// on a target of the source's size on which no point lies twice, a filled
/// cell shows the colour of the cell of the source that came to lie on it,
/// or its own colour where that cell of the source is not filled.
pub proof fn lemma_overlay_reads_back(
    source: BoardView,
    target: BoardView,
    orientation: Orientation,
    x: int,
    y: int,
)
    requires
        source.wf(),
        target.wf(),
        target.width == source.width,
        target.height == source.height,
        unshared(target),
    ensures
        ({
            let (tx, ty) = orientation.apply(source.width, source.height, x, y);
            overlaid(source, target, orientation).color_at(tx, ty) == if target.get(tx, ty) is Full
                && source.color_at(x, y) is Some {
                source.color_at(x, y)
            } else {
                target.color_at(tx, ty)
            }
        }),
{
    let (tx, ty) = orientation.apply(source.width, source.height, x, y);
    let after = overlaid(source, target, orientation);
    lemma_apply_twice(orientation, source.width, source.height, x, y);
    if let IndexedBoardState::Full(p, pt, _, _) = target.get(tx, ty) {
        lemma_cell_index(tx, ty, target.width, target.height);
        assert(target.resolves(target.cells[tx + ty * target.width]));
        lemma_overlaid_point(source, target, orientation, tx, ty, p as int, pt as int);
    }
}

/// Laid over a board of its own size and shape in the orientation `Normal`,
/// a board gives every cell its own colour: what is read back from
/// any place is what the source shows there. The boards have the same shape
/// when the same cells are filled, and no point of the target may lie twice.
pub proof fn lemma_identity_overlay_reads_back(source: BoardView, target: BoardView, x: int, y: int)
    requires
        source.wf(),
        target.wf(),
        target.width == source.width,
        target.height == source.height,
        unshared(target),
        forall|x: int, y: int| #[trigger] source.get(x, y) is Full <==> target.get(x, y) is Full,
    ensures
        overlaid(source, target, Orientation::Normal).color_at(x, y) == source.color_at(x, y),
{
    lemma_overlay_reads_back(source, target, Orientation::Normal, x, y);
    assert(source.get(x, y) is Full <==> target.get(x, y) is Full);
}

/// Where a visit gave a point a colour, the colour that it has is the one
/// that some visit gave it.
proof fn lemma_written_by_some(
    source: BoardView,
    target: BoardView,
    orientation: Orientation,
    n: int,
    piece: int,
    point: int,
    k0: int,
)
    requires
        0 <= k0 < n,
        writes(source, target, orientation, k0, piece, point),
    ensures
        exists|k: int|
            0 <= k < n && #[trigger] writes(source, target, orientation, k, piece, point)
                && last_written(source, target, orientation, n, piece, point) == source.color_at(
                visited(source, k).0,
                visited(source, k).1,
            ),
    decreases n,
{
    if writes(source, target, orientation, n - 1, piece, point) {
    } else {
        lemma_written_by_some(source, target, orientation, n - 1, piece, point, k0);
        let k = choose|k: int|
            0 <= k < n - 1 && #[trigger] writes(source, target, orientation, k, piece, point)
                && last_written(source, target, orientation, n - 1, piece, point)
                == source.color_at(visited(source, k).0, visited(source, k).1);
        assert(writes(source, target, orientation, k, piece, point));
    }
}

/// Laid in the orientation `Normal` over a board with the same cells, a
/// board gives every cell its own colour: what is read back from any place
/// is what the source shows there, whatever colours the target had.
pub proof fn lemma_identity_overlay_on_same_cells(source: BoardView, target: BoardView, x: int, y: int)
    requires
        source.wf(),
        target.wf(),
        target.width == source.width,
        target.height == source.height,
        target.cells == source.cells,
    ensures
        overlaid(source, target, Orientation::Normal).color_at(x, y) == source.color_at(x, y),
{
    let n = source.width * source.height;
    if let IndexedBoardState::Full(p, pt, _, _) = target.get(x, y) {
        lemma_cell_index(x, y, target.width, target.height);
        assert(target.resolves(target.cells[x + y * target.width]));
        lemma_visited(source, x, y);
        let k0 = x * source.height + y;
        assert(0 <= k0 < n) by {
            lemma_cell_index(y, x, source.height, source.width);
            assert(source.height * source.width == source.width * source.height)
                by (nonlinear_arith);
        }
        assert(writes(source, target, Orientation::Normal, k0, p as int, pt as int));
        lemma_written_by_some(source, target, Orientation::Normal, n, p as int, pt as int, k0);
        let k = choose|k: int|
            0 <= k < n && #[trigger] writes(
                source,
                target,
                Orientation::Normal,
                k,
                p as int,
                pt as int,
            ) && last_written(source, target, Orientation::Normal, n, p as int, pt as int)
                == source.color_at(visited(source, k).0, visited(source, k).1);
        let (vx, vy) = visited(source, k);
        assert(source.get(vx, vy) == target.get(vx, vy));
    }
}

/// Laying a board over another changes colours only: the target keeps its
/// size, its cells, and the number and the places of its points.
pub proof fn lemma_overlaid_shape(source: BoardView, target: BoardView, orientation: Orientation)
    requires
        target.wf(),
    ensures
        overlaid(source, target, orientation).wf(),
        overlaid(source, target, orientation).width == target.width,
        overlaid(source, target, orientation).height == target.height,
        overlaid(source, target, orientation).cells == target.cells,
        unshared(target) ==> unshared(overlaid(source, target, orientation)),
{
    let after = overlaid(source, target, orientation);
    assert forall|k: int| 0 <= k < after.cells.len() implies after.resolves(
        #[trigger] after.cells[k],
    ) by {
        assert(target.resolves(target.cells[k]));
    }
}

/// Two half turns are no turn. Lay a first board over a second and the
/// result over a third, both times in the orientation `OneEighty`: the third
/// board then is as if the first had been laid over it in the orientation
/// `Normal`.
///
/// The three boards have one size, no point of the second or the third lies
/// twice, and the second is filled exactly where the first, turned,
/// comes to lie filled.
pub proof fn lemma_half_turn_twice(first: BoardView, second: BoardView, third: BoardView)
    requires
        first.wf(),
        second.wf(),
        third.wf(),
        second.width == first.width,
        second.height == first.height,
        third.width == first.width,
        third.height == first.height,
        unshared(second),
        unshared(third),
        forall|x: int, y: int| #[trigger]
            first.get(x, y) is Full <==> second.get(
                first.width - 1 - x,
                first.height - 1 - y,
            ) is Full,
    ensures
        overlaid(overlaid(first, second, Orientation::OneEighty), third, Orientation::OneEighty)
            == overlaid(first, third, Orientation::Normal),
{
    let turned = overlaid(first, second, Orientation::OneEighty);
    let twice = overlaid(turned, third, Orientation::OneEighty);
    let once = overlaid(first, third, Orientation::Normal);
    let n = first.width * first.height;
    lemma_overlaid_shape(first, second, Orientation::OneEighty);
    assert forall|p: int| 0 <= p < third.pieces.len() implies #[trigger] twice.pieces[p]
        == once.pieces[p] by {
        assert forall|pt: int| 0 <= pt < third.pieces[p].points.len() implies (
        #[trigger] twice.pieces[p].points[pt]) == once.pieces[p].points[pt] by {
            if exists|x: int, y: int| third.holds(x, y, p, pt) {
                let (x, y) = choose|x: int, y: int| third.holds(x, y, p, pt);
                let (rx, ry) = (first.width - 1 - x, first.height - 1 - y);
                lemma_overlaid_point(turned, third, Orientation::OneEighty, x, y, p, pt);
                lemma_overlaid_point(first, third, Orientation::Normal, x, y, p, pt);
                lemma_overlay_reads_back(first, second, Orientation::OneEighty, x, y);
                assert(first.get(x, y) is Full <==> second.get(rx, ry) is Full);
                assert(turned.color_at(rx, ry) == first.color_at(x, y));
            } else {
                assert forall|k: int| 0 <= k < n implies !#[trigger] writes(
                    turned,
                    third,
                    Orientation::OneEighty,
                    k,
                    p,
                    pt,
                ) by {
                    let (vx, vy) = visited(turned, k);
                    assert(!third.holds(turned.width - 1 - vx, turned.height - 1 - vy, p, pt));
                }
                assert forall|k: int| 0 <= k < n implies !#[trigger] writes(
                    first,
                    third,
                    Orientation::Normal,
                    k,
                    p,
                    pt,
                ) by {
                    let (vx, vy) = visited(first, k);
                    assert(!third.holds(vx, vy, p, pt));
                }
                lemma_never_written(turned, third, Orientation::OneEighty, n, p, pt);
                lemma_never_written(first, third, Orientation::Normal, n, p, pt);
            }
        }
        assert(twice.pieces[p].points =~= once.pieces[p].points);
    }
    assert(twice.pieces =~= once.pieces);
}

} // verus!
