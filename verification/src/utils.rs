//! Laying the colours of one board over another, and looking for shapes among
//! the colours of a board.

use vstd::prelude::*;

use crate::colorableboard::BoardView;
use crate::colorableboard::ColorableBoard;
use crate::colorableboard::IndexedBoardState;
use crate::colorpoint::ColorPoint;
use crate::colorpolyomino::ColorPolyomino;
use crate::colorpolyomino::Piece;

verus! {

/// The four ways in which one board is laid over another of the same size.
#[derive(Debug, Clone, Copy, PartialEq, Eq, Structural)]
pub enum Orientation {
    Normal,
    OneEighty,
    FlipHorizontally,
    FlipOneEighty,
}

impl Orientation {
    /// Where the cell `(x, y)` of a board of `width` by `height` cells comes
    /// to lie: where it is, turned by half a turn, mirrored left to right,
    /// or mirrored and turned, which mirrors it top to bottom.
    pub open spec fn apply(self, width: int, height: int, x: int, y: int) -> (int, int) {
        match self {
            Orientation::Normal => (x, y),
            Orientation::OneEighty => (width - 1 - x, height - 1 - y),
            Orientation::FlipHorizontally => (width - 1 - x, y),
            Orientation::FlipOneEighty => (x, height - 1 - y),
        }
    }
}

/// The cells of a board are visited column by column, each from the top:
/// the place that is visited as number `k`.
pub open spec fn visited(board: BoardView, k: int) -> (int, int) {
    (k / board.height, k % board.height)
}

/// Whether the visit number `k` of the cells of `source` gives a colour to
/// point number `point` of piece number `piece` of `target`: the cell of
/// `source` is filled, and the cell of `target` on which it comes to lie
/// holds that point.
pub open spec fn writes(
    source: BoardView,
    target: BoardView,
    orientation: Orientation,
    k: int,
    piece: int,
    point: int,
) -> bool {
    let (x, y) = visited(source, k);
    let (tx, ty) = orientation.apply(source.width, source.height, x, y);
    &&& source.color_at(x, y) is Some
    &&& target.get(tx, ty) matches IndexedBoardState::Full(p, pt, _, _)
    &&& p == piece
    &&& pt == point
}

/// The colour that the last of the first `n` visits gave to a point of
/// `target`; `None` where none of them gave it one.
pub open spec fn last_written(
    source: BoardView,
    target: BoardView,
    orientation: Orientation,
    n: int,
    piece: int,
    point: int,
) -> Option<char>
    decreases n,
{
    if n <= 0 {
        None
    } else if writes(source, target, orientation, n - 1, piece, point) {
        let (x, y) = visited(source, n - 1);
        source.color_at(x, y)
    } else {
        last_written(source, target, orientation, n - 1, piece, point)
    }
}

/// A point of `target` after the first `n` visits: it has the colour that
/// was last given to it, or the colour that it had.
pub open spec fn point_after(
    source: BoardView,
    target: BoardView,
    orientation: Orientation,
    n: int,
    piece: int,
    point: int,
) -> ColorPoint {
    let before = target.pieces[piece].points[point];
    match last_written(source, target, orientation, n, piece, point) {
        Some(color) => ColorPoint { color, ..before },
        None => before,
    }
}

/// A piece of `target` after the first `n` visits.
pub open spec fn piece_after(
    source: BoardView,
    target: BoardView,
    orientation: Orientation,
    n: int,
    piece: int,
) -> Piece {
    Piece {
        id: target.pieces[piece].id,
        points: Seq::new(
            target.pieces[piece].points.len(),
            |pt: int| point_after(source, target, orientation, n, piece, pt),
        ),
    }
}

/// `target` after the first `n` cells of `source` were laid over it.
pub open spec fn overlaid_upto(
    source: BoardView,
    target: BoardView,
    orientation: Orientation,
    n: int,
) -> BoardView {
    BoardView {
        pieces: Seq::new(
            target.pieces.len(),
            |p: int| piece_after(source, target, orientation, n, p),
        ),
        ..target
    }
}

/// `target` after all of `source` was laid over it.
pub open spec fn overlaid(source: BoardView, target: BoardView, orientation: Orientation) -> BoardView {
    overlaid_upto(source, target, orientation, source.width * source.height)
}

/// The place number of a visit: cell `(x, y)` is visited as number
/// `x * height + y`.
pub proof fn lemma_visited(board: BoardView, x: int, y: int)
    requires
        0 <= y < board.height,
    ensures
        visited(board, x * board.height + y) == (x, y),
{
    vstd::arithmetic::div_mod::lemma_fundamental_div_mod_converse(
        x * board.height + y,
        board.height,
        x,
        y,
    );
}

fn transform(orientation: Orientation, width: i16, height: i16, x: i16, y: i16) -> (to: (i16, i16))
    requires
        0 <= x < width,
        0 <= y < height,
    ensures
        (to.0 as int, to.1 as int) == orientation.apply(width as int, height as int, x as int, y as int),
{
    match orientation {
        Orientation::Normal => (x, y),
        Orientation::OneEighty => (width - x - 1, height - y - 1),
        Orientation::FlipHorizontally => (width - x - 1, y),
        Orientation::FlipOneEighty => (x, height - y - 1),
    }
}

/// Lays the colours of `colored_board` over `blank_board`.
///
/// The cells of `colored_board` are visited column by column. Each filled
/// one gives its colour to the point on the cell of `blank_board` on which
/// it comes to lie; where that cell holds no point, nothing happens. Of two
/// cells that give a colour to one point, the one visited later decides.
pub fn overlay(colored_board: &ColorableBoard, blank_board: &mut ColorableBoard, orientation: Orientation)
    requires
        colored_board@.wf(),
        old(blank_board)@.wf(),
    ensures
        final(blank_board)@ == overlaid(colored_board@, old(blank_board)@, orientation),
        final(blank_board)@.wf(),
{
    let ghost source = colored_board@;
    let ghost target = blank_board@;
    assert(blank_board@ =~= overlaid_upto(source, target, orientation, 0)) by {
        lemma_overlaid_zero(source, target, orientation);
    }
    let mut x: i16 = 0;
    while x < colored_board.width
        invariant
            source == colored_board@,
            source.wf(),
            target.wf(),
            0 <= x <= colored_board.width,
            blank_board@.wf(),
            blank_board@ == overlaid_upto(source, target, orientation, x * source.height),
        decreases colored_board.width - x,
    {
        let mut y: i16 = 0;
        while y < colored_board.height
            invariant
                source == colored_board@,
                source.wf(),
                target.wf(),
                0 <= x < colored_board.width,
                0 <= y <= colored_board.height,
                blank_board@.wf(),
                blank_board@ == overlaid_upto(source, target, orientation, x * source.height + y),
            decreases colored_board.height - y,
        {
            let ghost k = x * source.height + y;
            let ghost before = blank_board@;
            let to = transform(orientation, colored_board.width, colored_board.height, x, y);
            if let Some(color) = colored_board.get_color(x, y) {
                blank_board.set_color(to.0, to.1, color);
            }
            proof {
                lemma_visited(source, x as int, y as int);
                lemma_overlaid_step(source, target, orientation, k);
                assert(before.get(to.0 as int, to.1 as int) == target.get(to.0 as int, to.1 as int));
            }
            y += 1;
        }
        proof {
            assert(x * source.height + source.height == (x + 1) * source.height) by (nonlinear_arith);
        }
        x += 1;
    }
    proof {
        assert(x * source.height == source.width * source.height) by (nonlinear_arith)
            requires
                x == source.width,
        ;
    }
}

/// Before any cell is visited the target is as it was.
proof fn lemma_overlaid_zero(source: BoardView, target: BoardView, orientation: Orientation)
    requires
        target.wf(),
    ensures
        overlaid_upto(source, target, orientation, 0) == target,
{
    let start = overlaid_upto(source, target, orientation, 0);
    assert forall|p: int| 0 <= p < target.pieces.len() implies #[trigger] start.pieces[p]
        == target.pieces[p] by {
        assert(start.pieces[p].points =~= target.pieces[p].points);
    }
    assert(start.pieces =~= target.pieces);
}

/// One more visit changes the target as one call that sets a colour does.
proof fn lemma_overlaid_step(source: BoardView, target: BoardView, orientation: Orientation, k: int)
    requires
        target.wf(),
        0 <= k,
    ensures
        ({
            let (x, y) = visited(source, k);
            let (tx, ty) = orientation.apply(source.width, source.height, x, y);
            let before = overlaid_upto(source, target, orientation, k);
            overlaid_upto(source, target, orientation, k + 1) == match source.color_at(x, y) {
                Some(color) => match target.get(tx, ty) {
                    IndexedBoardState::Full(p, pt, _, _) => before.paint(p as int, pt as int, color),
                    _ => before,
                },
                None => before,
            }
        }),
{
    let (x, y) = visited(source, k);
    let (tx, ty) = orientation.apply(source.width, source.height, x, y);
    let before = overlaid_upto(source, target, orientation, k);
    let after = overlaid_upto(source, target, orientation, k + 1);
    let expected = match source.color_at(x, y) {
        Some(color) => match target.get(tx, ty) {
            IndexedBoardState::Full(p, pt, _, _) => before.paint(p as int, pt as int, color),
            _ => before,
        },
        None => before,
    };
    assert(target.resolves(target.get(tx, ty))) by {
        if target.on_board(tx, ty) {
            crate::colorableboard::lemma_cell_index(tx, ty, target.width, target.height);
        }
    }
    assert(before.pieces.len() == target.pieces.len());
    assert(expected.pieces.len() == target.pieces.len());
    assert forall|p: int| 0 <= p < target.pieces.len() implies #[trigger] after.pieces[p]
        == expected.pieces[p] by {
        let n = target.pieces[p].points.len();
        assert(before.pieces[p].points.len() == n);
        assert(expected.pieces[p].points.len() == n);
        assert(expected.pieces[p].id == target.pieces[p].id);
        assert forall|pt: int| 0 <= pt < n implies (#[trigger] after.pieces[p].points[pt])
            == expected.pieces[p].points[pt] by {
            let hit = writes(source, target, orientation, k, p, pt);
            assert(last_written(source, target, orientation, k + 1, p, pt) == if hit {
                source.color_at(x, y)
            } else {
                last_written(source, target, orientation, k, p, pt)
            });
            if hit {
                let color = source.color_at(x, y)->0;
                assert(expected == before.paint(p, pt, color));
                assert(expected.pieces[p].points[pt] == (ColorPoint {
                    color,
                    ..before.pieces[p].points[pt]
                }));
            } else {
                assert(expected.pieces[p].points[pt] == before.pieces[p].points[pt]);
            }
        }
        assert(after.pieces[p].points =~= expected.pieces[p].points);
    }
    assert(after.pieces =~= expected.pieces);
}

/// Whether one of the pieces of the board has a single colour: every point
/// of it has the colour of its first point. A piece without points has.
pub open spec fn single_colored(piece: Piece) -> bool {
    forall|i: int|
        0 <= i < piece.points.len() ==> (#[trigger] piece.points[i]).color == piece.points[0].color
}

fn is_single_colored(poly: &ColorPolyomino) -> (single: bool)
    ensures
        single == single_colored(poly@),
{
    let mut i: usize = 0;
    while i < poly.len()
        invariant
            i <= poly@.points.len(),
            forall|j: int|
                0 <= j < i ==> (#[trigger] poly@.points[j]).color == poly@.points[0].color,
        decreases poly@.points.len() - i,
    {
        if poly[i].get_color() != poly[0].get_color() {
            return false;
        }
        i += 1;
    }
    true
}

/// Whether a piece of the board has a single colour.
pub fn has_single_color_polyomino(board: &ColorableBoard) -> (found: bool)
    ensures
        found == exists|p: int| 0 <= p < board@.pieces.len() && single_colored(#[trigger] board@.pieces[p]),
{
    let mut p: usize = 0;
    while p < board.polyominoes.len()
        invariant
            p <= board.polyominoes.len(),
            forall|q: int| 0 <= q < p ==> !single_colored(#[trigger] board@.pieces[q]),
        decreases board.polyominoes.len() - p,
    {
        if is_single_colored(&board.polyominoes[p]) {
            assert(single_colored(board@.pieces[p as int]));
            return true;
        }
        p += 1;
    }
    false
}

/// The places of the points of a piece, without their colours.
pub open spec fn offsets(piece: Piece) -> Seq<(int, int)> {
    piece.points.map_values(|p: ColorPoint| (p.x as int, p.y as int))
}

/// The cell on which point number `i` of a shape lies when the shape is put
/// at `(x, y)`.
pub open spec fn placed(shape: Seq<(int, int)>, x: int, y: int, i: int) -> (int, int) {
    (x + shape[i].0, y + shape[i].1)
}

/// Whether the shape, put at `(x, y)`, lies on the cell `cell`.
pub open spec fn covers(shape: Seq<(int, int)>, x: int, y: int, cell: (int, int)) -> bool {
    exists|i: int| 0 <= i < shape.len() && #[trigger] placed(shape, x, y, i) == cell
}

/// The neighbour of a cell to the right, to the left, below and above, for
/// `side` from 0 to 3.
pub open spec fn neighbor(cell: (int, int), side: int) -> (int, int) {
    if side == 0 {
        (cell.0 + 1, cell.1)
    } else if side == 1 {
        (cell.0 - 1, cell.1)
    } else if side == 2 {
        (cell.0, cell.1 + 1)
    } else {
        (cell.0, cell.1 - 1)
    }
}

/// The colour against which a shape put at `(x, y)` is held: that of the
/// cell under its first point.
pub open spec fn anchor_color(board: BoardView, shape: Seq<(int, int)>, x: int, y: int) -> Option<char> {
    board.color_at(placed(shape, x, y, 0).0, placed(shape, x, y, 0).1)
}

/// Every cell under the shape is on the board, is filled, and has the colour
/// of the cell under the first point.
pub open spec fn one_colored(board: BoardView, shape: Seq<(int, int)>, x: int, y: int) -> bool {
    forall|i: int|
        0 <= i < shape.len() ==> {
            let cell = #[trigger] placed(shape, x, y, i);
            board.color_at(cell.0, cell.1) is Some && board.color_at(cell.0, cell.1)
                == anchor_color(board, shape, x, y)
        }
}

/// No cell beside the shape has its colour: every neighbour of a cell under
/// the shape that is not itself under the shape is off the board, or not
/// filled, or of another colour. Cells that touch at a corner are no
/// neighbours.
pub open spec fn isolated(board: BoardView, shape: Seq<(int, int)>, x: int, y: int) -> bool {
    forall|i: int, side: int|
        0 <= i < shape.len() && 0 <= side < 4 ==> {
            let beside = #[trigger] neighbor(placed(shape, x, y, i), side);
            !covers(shape, x, y, beside) ==> board.color_at(beside.0, beside.1) is None
                || board.color_at(beside.0, beside.1) != anchor_color(board, shape, x, y)
        }
}

/// Whether the shape, put at `(x, y)`, lies on a region of one colour that
/// no cell of that colour touches from outside.
pub open spec fn matches_at(board: BoardView, shape: Seq<(int, int)>, x: int, y: int) -> bool {
    one_colored(board, shape, x, y) && isolated(board, shape, x, y)
}

/// Whether the shape matches somewhere: put at some place of the board.
pub open spec fn present(board: BoardView, shape: Seq<(int, int)>) -> bool {
    exists|x: int, y: int| board.on_board(x, y) && #[trigger] matches_at(board, shape, x, y)
}

/// The cells beside the cells of `cells`: their neighbours that are not
/// among them.
pub open spec fn frontier(cells: Seq<(int, int)>) -> Set<(int, int)> {
    Set::new(
        |beside: (int, int)|
            !cells.contains(beside) && exists|i: int, side: int|
                0 <= i < cells.len() && 0 <= side < 4 && #[trigger] neighbor(cells[i], side)
                    == beside,
    )
}

/// Machine cells as cells of the plane.
pub open spec fn as_cells(cells: Seq<(i32, i32)>) -> Seq<(int, int)> {
    cells.map_values(|c: (i32, i32)| (c.0 as int, c.1 as int))
}

fn contains_cell(cells: &Vec<(i32, i32)>, cell: (i32, i32)) -> (found: bool)
    ensures
        found == as_cells(cells@).contains((cell.0 as int, cell.1 as int)),
{
    let mut i: usize = 0;
    while i < cells.len()
        invariant
            i <= cells.len(),
            forall|j: int| 0 <= j < i ==> as_cells(cells@)[j] != (cell.0 as int, cell.1 as int),
        decreases cells.len() - i,
    {
        if cells[i].0 == cell.0 && cells[i].1 == cell.1 {
            assert(as_cells(cells@)[i as int] == (cell.0 as int, cell.1 as int));
            return true;
        }
        i += 1;
    }
    false
}

/// The cells beside the cells of `points`, each once.
///
/// Cells off every board may be among them: they are only ever asked for
/// their colour, and have none.
pub fn build_adjacent_points(points: &Vec<(i32, i32)>) -> (adjacent: Vec<(i32, i32)>)
    requires
        forall|i: int|
            0 <= i < points@.len() ==> i32::MIN < (#[trigger] points@[i]).0 < i32::MAX && i32::MIN
                < points@[i].1 < i32::MAX,
    ensures
        as_cells(adjacent@).to_set() == frontier(as_cells(points@)),
        as_cells(adjacent@).no_duplicates(),
{
    broadcast use vstd::seq_lib::group_seq_properties;

    let ghost cells = as_cells(points@);
    let mut adjacent: Vec<(i32, i32)> = Vec::new();
    let mut i: usize = 0;
    while i < points.len()
        invariant
            i <= points.len(),
            cells == as_cells(points@),
            forall|i: int|
                0 <= i < points@.len() ==> i32::MIN < (#[trigger] points@[i]).0 < i32::MAX
                    && i32::MIN < points@[i].1 < i32::MAX,
            as_cells(adjacent@).no_duplicates(),
            forall|beside: (int, int)|
                #[trigger] as_cells(adjacent@).contains(beside) <==> !cells.contains(beside)
                    && exists|j: int, side: int|
                    0 <= j < i && 0 <= side < 4 && #[trigger] neighbor(cells[j], side) == beside,
        decreases points.len() - i,
    {
        let pt = points[i];
        assert(cells[i as int] == (pt.0 as int, pt.1 as int));
        let mut side: u8 = 0;
        while side < 4
            invariant
                i < points.len(),
                side <= 4,
                cells == as_cells(points@),
                pt == points@[i as int],
                i32::MIN < pt.0 < i32::MAX,
                i32::MIN < pt.1 < i32::MAX,
                as_cells(adjacent@).no_duplicates(),
                forall|beside: (int, int)|
                    #[trigger] as_cells(adjacent@).contains(beside) <==> !cells.contains(beside) && (
                    (exists|j: int, s: int|
                        0 <= j < i && 0 <= s < 4 && #[trigger] neighbor(cells[j], s) == beside)
                        || (exists|s: int|
                        0 <= s < side && #[trigger] neighbor(cells[i as int], s) == beside)),
            decreases 4 - side,
        {
            let beside = if side == 0 {
                (pt.0 + 1, pt.1)
            } else if side == 1 {
                (pt.0 - 1, pt.1)
            } else if side == 2 {
                (pt.0, pt.1 + 1)
            } else {
                (pt.0, pt.1 - 1)
            };
            let ghost cell = (beside.0 as int, beside.1 as int);
            assert(cell == neighbor(cells[i as int], side as int));
            let ghost before = as_cells(adjacent@);
            if !contains_cell(points, beside) && !contains_cell(&adjacent, beside) {
                adjacent.push(beside);
                assert(as_cells(adjacent@) =~= before.push(cell));
            }
            proof {
                let after = as_cells(adjacent@);
                assert forall|other: (int, int)| #[trigger]
                    after.contains(other) <==> !cells.contains(other) && ((exists|j: int, s: int|
                        0 <= j < i && 0 <= s < 4 && #[trigger] neighbor(cells[j], s) == other)
                        || (exists|s: int|
                        0 <= s < side + 1 && #[trigger] neighbor(cells[i as int], s) == other)) by {
                    if other == cell {
                        assert(neighbor(cells[i as int], side as int) == other);
                        if !cells.contains(cell) {
                            if before.contains(cell) {
                            } else {
                                assert(after[after.len() - 1] == cell);
                            }
                        }
                    } else {
                        if after.contains(other) {
                            let k = after.index_of(other);
                            assert(before[k] == other);
                            assert(before.contains(other));
                        }
                        if before.contains(other) {
                            let k = before.index_of(other);
                            assert(after[k] == other);
                        }
                        if exists|s: int|
                            0 <= s < side + 1 && #[trigger] neighbor(cells[i as int], s) == other {
                            let s = choose|s: int|
                                0 <= s < side + 1 && #[trigger] neighbor(cells[i as int], s)
                                    == other;
                            assert(s < side);
                        }
                    }
                }
            }
            side += 1;
        }
        proof {
            let after = as_cells(adjacent@);
            assert forall|other: (int, int)| #[trigger]
                after.contains(other) <==> !cells.contains(other) && exists|j: int, s: int|
                    0 <= j < i + 1 && 0 <= s < 4 && #[trigger] neighbor(cells[j], s) == other by {
                if exists|s: int| 0 <= s < 4 && #[trigger] neighbor(cells[i as int], s) == other {
                    let s = choose|s: int|
                        0 <= s < 4 && #[trigger] neighbor(cells[i as int], s) == other;
                    assert(neighbor(cells[i as int], s) == other);
                }
                if exists|j: int, s: int|
                    0 <= j < i + 1 && 0 <= s < 4 && #[trigger] neighbor(cells[j], s) == other {
                    let (j, s) = choose|j: int, s: int|
                        0 <= j < i + 1 && 0 <= s < 4 && #[trigger] neighbor(cells[j], s) == other;
                    if j == i {
                        assert(neighbor(cells[i as int], s) == other);
                    } else {
                        assert(neighbor(cells[j], s) == other);
                    }
                }
            }
        }
        i += 1;
    }
    assert(as_cells(adjacent@).to_set() =~= frontier(cells));
    adjacent
}

fn color_of_cell(board: &ColorableBoard, cell: (i32, i32)) -> (color: Option<char>)
    requires
        board@.wf(),
    ensures
        color == board@.color_at(cell.0 as int, cell.1 as int),
{
    if cell.0 < 0 || cell.0 > 0x7fff || cell.1 < 0 || cell.1 > 0x7fff {
        None
    } else {
        board.get_color(cell.0 as i16, cell.1 as i16)
    }
}

/// The cells on which the points of `polyomino` lie when it is put at
/// `(x, y)`.
fn cells_under(polyomino: &ColorPolyomino, x: i16, y: i16) -> (cells: Vec<(i32, i32)>)
    ensures
        cells@.len() == polyomino@.points.len(),
        forall|i: int|
            0 <= i < cells@.len() ==> #[trigger] as_cells(cells@)[i] == placed(
                offsets(polyomino@),
                x as int,
                y as int,
                i,
            ),
        forall|i: int|
            0 <= i < cells@.len() ==> i32::MIN < (#[trigger] cells@[i]).0 < i32::MAX && i32::MIN
                < cells@[i].1 < i32::MAX,
{
    let mut cells: Vec<(i32, i32)> = Vec::new();
    let mut i: usize = 0;
    while i < polyomino.len()
        invariant
            i <= polyomino@.points.len(),
            cells@.len() == i,
            forall|j: int|
                0 <= j < i ==> #[trigger] as_cells(cells@)[j] == placed(
                    offsets(polyomino@),
                    x as int,
                    y as int,
                    j,
                ),
            forall|j: int|
                0 <= j < i ==> i32::MIN < (#[trigger] cells@[j]).0 < i32::MAX && i32::MIN
                    < cells@[j].1 < i32::MAX,
        decreases polyomino@.points.len() - i,
    {
        let pt = &polyomino[i];
        let ghost before = as_cells(cells@);
        cells.push((x as i32 + pt.x() as i32, y as i32 + pt.y() as i32));
        proof {
            assert(offsets(polyomino@)[i as int] == (pt.x as int, pt.y as int));
            assert(as_cells(cells@) =~= before.push(placed(offsets(polyomino@), x as int, y as int, i as int)));
        }
        i += 1;
    }
    cells
}

/// Whether `polyomino`, put at `(x, y)`, lies on cells of one colour that no
/// cell of that colour touches along an edge.
///
/// ```text
/// 00000                 00100                   00010
/// 00100  holds a cross  00100  does not: the    00100  does: to touch
/// 01110                 01110  1 at the top     01110  at a corner is
/// 00100                 00100  touches it       00100  no touch
/// 00000                 00000                   00000
/// ```
pub fn has_single_color_polyomino_pattern_at(
    board: &ColorableBoard,
    polyomino: &ColorPolyomino,
    x: i16,
    y: i16,
) -> (found: bool)
    requires
        board@.wf(),
    ensures
        found == matches_at(board@, offsets(polyomino@), x as int, y as int),
{
    broadcast use vstd::seq_lib::group_seq_properties;

    let ghost shape = offsets(polyomino@);
    let ghost (ax, ay) = (x as int, y as int);
    if polyomino.len() == 0 {
        return true;
    }
    let polyomino_points = cells_under(polyomino, x, y);
    let adjacent_points = build_adjacent_points(&polyomino_points);
    let ghost cells = as_cells(polyomino_points@);
    let ghost beside = as_cells(adjacent_points@);
    let anchor = color_of_cell(board, polyomino_points[0]);
    assert(cells[0] == placed(shape, ax, ay, 0));
    assert(anchor == anchor_color(board@, shape, ax, ay));
    assert forall|cell: (int, int)| cells.contains(cell) <==> covers(shape, ax, ay, cell) by {
        if cells.contains(cell) {
            let i = cells.index_of(cell);
            assert(placed(shape, ax, ay, i) == cell);
        }
        if covers(shape, ax, ay, cell) {
            let i = choose|i: int| 0 <= i < shape.len() && #[trigger] placed(shape, ax, ay, i) == cell;
            assert(cells[i] == cell);
        }
    }

    let mut i: usize = 0;
    while i < polyomino_points.len()
        invariant
            board@.wf(),
            i <= polyomino_points.len(),
            cells == as_cells(polyomino_points@),
            shape == offsets(polyomino@),
            (ax, ay) == (x as int, y as int),
            anchor == anchor_color(board@, shape, ax, ay),
            cells.len() == shape.len(),
            forall|j: int| 0 <= j < cells.len() ==> #[trigger] cells[j] == placed(shape, ax, ay, j),
            forall|j: int|
                0 <= j < i ==> board@.color_at(cells[j].0, cells[j].1) is Some && board@.color_at(
                    cells[j].0,
                    cells[j].1,
                ) == anchor,
        decreases polyomino_points.len() - i,
    {
        let color = color_of_cell(board, polyomino_points[i]);
        assert(cells[i as int] == (polyomino_points@[i as int].0 as int, polyomino_points@[i as int].1 as int));
        if color.is_none() || color != anchor {
            assert(cells[i as int] == placed(shape, ax, ay, i as int));
            assert(!one_colored(board@, shape, ax, ay));
            return false;
        }
        i += 1;
    }
    assert(one_colored(board@, shape, ax, ay)) by {
        assert forall|j: int| 0 <= j < shape.len() implies ({
            let cell = #[trigger] placed(shape, ax, ay, j);
            board@.color_at(cell.0, cell.1) is Some && board@.color_at(cell.0, cell.1)
                == anchor_color(board@, shape, ax, ay)
        }) by {
            assert(cells[j] == placed(shape, ax, ay, j));
        }
    }

    let mut k: usize = 0;
    while k < adjacent_points.len()
        invariant
            board@.wf(),
            k <= adjacent_points.len(),
            beside == as_cells(adjacent_points@),
            beside.to_set() == frontier(cells),
            shape == offsets(polyomino@),
            (ax, ay) == (x as int, y as int),
            one_colored(board@, shape, ax, ay),
            anchor == anchor_color(board@, shape, ax, ay),
            cells.len() == shape.len(),
            forall|j: int| 0 <= j < cells.len() ==> #[trigger] cells[j] == placed(shape, ax, ay, j),
            forall|cell: (int, int)| cells.contains(cell) <==> covers(shape, ax, ay, cell),
            forall|j: int|
                0 <= j < k ==> board@.color_at(beside[j].0, beside[j].1) is None || board@.color_at(
                    beside[j].0,
                    beside[j].1,
                ) != anchor,
        decreases adjacent_points.len() - k,
    {
        let color = color_of_cell(board, adjacent_points[k]);
        let ghost cell = beside[k as int];
        assert(cell == (adjacent_points@[k as int].0 as int, adjacent_points@[k as int].1 as int));
        if color.is_some() && color == anchor {
            proof {
                assert(beside.contains(cell));
                assert(frontier(cells).contains(cell));
                let (j, side) = choose|j: int, side: int|
                    0 <= j < cells.len() && 0 <= side < 4 && #[trigger] neighbor(cells[j], side)
                        == cell;
                assert(neighbor(placed(shape, ax, ay, j), side) == cell);
                assert(!covers(shape, ax, ay, cell));
                assert(!isolated(board@, shape, ax, ay));
            }
            return false;
        }
        k += 1;
    }
    assert(isolated(board@, shape, ax, ay)) by {
        assert forall|j: int, side: int| 0 <= j < shape.len() && 0 <= side < 4 implies ({
            let next = #[trigger] neighbor(placed(shape, ax, ay, j), side);
            !covers(shape, ax, ay, next) ==> board@.color_at(next.0, next.1) is None
                || board@.color_at(next.0, next.1) != anchor_color(board@, shape, ax, ay)
        }) by {
            let next = neighbor(placed(shape, ax, ay, j), side);
            if !covers(shape, ax, ay, next) {
                assert(neighbor(cells[j], side) == next);
                assert(frontier(cells).contains(next));
                assert(beside.contains(next));
                let at = beside.index_of(next);
                assert(beside[at] == next);
            }
        }
    }
    true
}

/// Whether `polyomino` matches somewhere on the board: put at one of the
/// places of the board, it lies on a region of one colour that no cell of
/// that colour touches.
pub fn has_single_color_polyomino_pattern(board: &ColorableBoard, polyomino: &ColorPolyomino) -> (found:
    bool)
    requires
        board@.wf(),
    ensures
        found == present(board@, offsets(polyomino@)),
{
    let ghost shape = offsets(polyomino@);
    let mut x: i16 = 0;
    while x < board.get_width()
        invariant
            board@.wf(),
            shape == offsets(polyomino@),
            0 <= x <= board.width,
            forall|px: int, py: int|
                0 <= px < x && 0 <= py < board.height ==> !#[trigger] matches_at(
                    board@,
                    shape,
                    px,
                    py,
                ),
        decreases board.width - x,
    {
        let mut y: i16 = 0;
        while y < board.get_height()
            invariant
                board@.wf(),
                shape == offsets(polyomino@),
                0 <= x < board.width,
                0 <= y <= board.height,
                forall|px: int, py: int|
                    0 <= px < x && 0 <= py < board.height ==> !#[trigger] matches_at(
                        board@,
                        shape,
                        px,
                        py,
                    ),
                forall|py: int| 0 <= py < y ==> !#[trigger] matches_at(board@, shape, x as int, py),
            decreases board.height - y,
        {
            if has_single_color_polyomino_pattern_at(board, polyomino, x, y) {
                assert(board@.on_board(x as int, y as int) && matches_at(
                    board@,
                    shape,
                    x as int,
                    y as int,
                ));
                return true;
            }
            y += 1;
        }
        x += 1;
    }
    false
}

/// Whether one of the variants of a piece matches somewhere on the board.
pub open spec fn any_present(board: BoardView, variants: Seq<ColorPolyomino>) -> bool {
    exists|v: int| 0 <= v < variants.len() && present(board, offsets((#[trigger] variants[v])@))
}

/// Whether the board shows every piece of the library: of each group of
/// variants, one at least matches somewhere.
pub open spec fn all_present(board: BoardView, library: Seq<Vec<ColorPolyomino>>) -> bool {
    forall|g: int| 0 <= g < library.len() ==> any_present(board, (#[trigger] library[g])@)
}

fn has_any_polyomino_pattern(board: &ColorableBoard, p_rotations: &Vec<ColorPolyomino>) -> (found: bool)
    requires
        board@.wf(),
    ensures
        found == any_present(board@, p_rotations@),
{
    let mut v: usize = 0;
    while v < p_rotations.len()
        invariant
            board@.wf(),
            v <= p_rotations.len(),
            forall|u: int| 0 <= u < v ==> !present(board@, offsets((#[trigger] p_rotations@[u])@)),
        decreases p_rotations.len() - v,
    {
        if has_single_color_polyomino_pattern(board, &p_rotations[v]) {
            return true;
        }
        v += 1;
    }
    false
}

/// Whether every piece of the library is found on the board as a region of
/// one colour of its own, in one of its variants.
pub fn has_all_polyomino_patterns(board: &ColorableBoard, all_polyominoes: &Vec<Vec<ColorPolyomino>>) -> (all:
    bool)
    requires
        board@.wf(),
    ensures
        all == all_present(board@, all_polyominoes@),
{
    let mut g: usize = 0;
    while g < all_polyominoes.len()
        invariant
            board@.wf(),
            g <= all_polyominoes.len(),
            forall|f: int| 0 <= f < g ==> any_present(board@, (#[trigger] all_polyominoes@[f])@),
        decreases all_polyominoes.len() - g,
    {
        if !has_any_polyomino_pattern(board, &all_polyominoes[g]) {
            return false;
        }
        g += 1;
    }
    true
}

/// Every cell of the board is filled.
pub open spec fn filled(board: BoardView) -> bool {
    forall|k: int| 0 <= k < board.cells.len() ==> (#[trigger] board.cells[k]) is Full
}

/// The colours of the cells of a filled board, in the order in which the
/// cells are visited: column by column, each from the top.
pub open spec fn cell_colors(board: BoardView) -> Seq<char> {
    Seq::new(
        (board.width * board.height) as nat,
        |k: int| board.color_at(visited(board, k).0, visited(board, k).1)->0,
    )
}

/// The distinct colours among the first `n` of `colors`, each at the place
/// of its first appearance.
pub open spec fn first_seen(colors: Seq<char>, n: int) -> Seq<char>
    decreases n,
{
    if n <= 0 {
        Seq::empty()
    } else {
        let before = first_seen(colors, n - 1);
        if before.contains(colors[n - 1]) {
            before
        } else {
            before.push(colors[n - 1])
        }
    }
}

/// How often `color` stands among the first `n` of `colors`.
pub open spec fn occurrences(colors: Seq<char>, n: int, color: char) -> int
    decreases n,
{
    if n <= 0 {
        0
    } else {
        occurrences(colors, n - 1, color) + if colors[n - 1] == color {
            1int
        } else {
            0int
        }
    }
}

/// A colour stands among the first `n` at most `n` times, and not at all
/// where it was not seen.
proof fn lemma_occurrences(colors: Seq<char>, n: int, color: char)
    requires
        0 <= n <= colors.len(),
    ensures
        0 <= occurrences(colors, n, color) <= n,
        !first_seen(colors, n).contains(color) ==> occurrences(colors, n, color) == 0,
        first_seen(colors, n).no_duplicates(),
    decreases n,
{
    broadcast use vstd::seq_lib::group_seq_properties;

    if n > 0 {
        lemma_occurrences(colors, n - 1, color);
        let before = first_seen(colors, n - 1);
        let now = first_seen(colors, n);
        if before.contains(color) {
            let i = before.index_of(color);
            assert(now[i] == color);
        }
        if colors[n - 1] == color && !before.contains(color) {
            assert(now[now.len() - 1] == color);
        }
    }
}

/// How many cells of a filled board have each of its colours: one number
/// for each colour, in the order in which the colours are first met when the
/// cells are visited column by column.
pub fn color_count(solution: &ColorableBoard) -> (counts: Vec<i32>)
    requires
        solution@.wf(),
        filled(solution@),
    ensures
        counts@.len() == first_seen(cell_colors(solution@), cell_colors(solution@).len() as int).len(),
        forall|i: int|
            0 <= i < counts@.len() ==> #[trigger] counts@[i] == occurrences(
                cell_colors(solution@),
                cell_colors(solution@).len() as int,
                first_seen(cell_colors(solution@), cell_colors(solution@).len() as int)[i],
            ),
{
    broadcast use vstd::seq_lib::group_seq_properties;

    let ghost board = solution@;
    let ghost colors = cell_colors(board);
    let mut used_colors: Vec<char> = Vec::new();
    let mut counts: Vec<i32> = Vec::new();
    proof {
        assert(board.width * board.height <= 0x7fff * 0x7fff) by (nonlinear_arith)
            requires
                0 <= board.width <= 0x7fff,
                0 <= board.height <= 0x7fff,
        ;
        assert(used_colors@ =~= first_seen(colors, 0));
    }
    let mut x: i16 = 0;
    while x < solution.width
        invariant
            board == solution@,
            board.wf(),
            filled(board),
            colors == cell_colors(board),
            colors.len() == board.width * board.height,
            board.width * board.height <= 0x7fff * 0x7fff,
            0 <= x <= solution.width,
            used_colors@ == first_seen(colors, x * board.height),
            counts@.len() == used_colors@.len(),
            forall|i: int|
                0 <= i < counts@.len() ==> #[trigger] counts@[i] == occurrences(
                    colors,
                    x * board.height,
                    used_colors@[i],
                ),
        decreases solution.width - x,
    {
        let mut y: i16 = 0;
        while y < solution.height
            invariant
                board == solution@,
                board.wf(),
                filled(board),
                colors == cell_colors(board),
                colors.len() == board.width * board.height,
                board.width * board.height <= 0x7fff * 0x7fff,
                0 <= x < solution.width,
                0 <= y <= solution.height,
                used_colors@ == first_seen(colors, x * board.height + y),
                counts@.len() == used_colors@.len(),
                forall|i: int|
                    0 <= i < counts@.len() ==> #[trigger] counts@[i] == occurrences(
                        colors,
                        x * board.height + y,
                        used_colors@[i],
                    ),
            decreases solution.height - y,
        {
            let ghost k = x * board.height + y;
            proof {
                lemma_visited(board, x as int, y as int);
                crate::colorableboard::lemma_cell_index(y as int, x as int, board.height, board.width);
                assert(board.height * board.width == board.width * board.height) by (nonlinear_arith);
                crate::colorableboard::lemma_cell_index(x as int, y as int, board.width, board.height);
                assert(board.cells[x + y * board.width] is Full);
            }
            let color = solution.get_color(x, y).unwrap();
            assert(color == colors[k]);
            let mut at: usize = 0;
            while at < used_colors.len() && used_colors[at] != color
                invariant
                    at <= used_colors.len(),
                    forall|j: int| 0 <= j < at ==> used_colors@[j] != color,
                decreases used_colors.len() - at,
            {
                at += 1;
            }
            let ghost seen = used_colors@;
            let ghost old_counts = counts@;
            if at < used_colors.len() {
                proof {
                    lemma_occurrences(colors, k, color);
                }
                let count = counts[at];
                counts.set(at, count + 1);
            } else {
                used_colors.push(color);
                counts.push(1);
                proof {
                    lemma_occurrences(colors, k, color);
                    assert(!seen.contains(color));
                }
            }
            proof {
                assert(used_colors@ == first_seen(colors, k + 1));
                lemma_occurrences(colors, k, color);
                assert forall|i: int| 0 <= i < counts@.len() implies #[trigger] counts@[i]
                    == occurrences(colors, k + 1, used_colors@[i]) by {
                    if i < seen.len() {
                        assert(used_colors@[i] == seen[i]);
                        assert(old_counts[i] == occurrences(colors, k, seen[i]));
                        if i != at {
                            assert(seen[i] != color) by {
                                if at < seen.len() {
                                    assert(seen.no_duplicates());
                                }
                            }
                        }
                    }
                }
            }
            y += 1;
        }
        proof {
            assert(x * board.height + board.height == (x + 1) * board.height) by (nonlinear_arith);
        }
        x += 1;
    }
    proof {
        assert(x * board.height == board.width * board.height) by (nonlinear_arith)
            requires
                x == board.width,
        ;
    }
    counts
}

/// Whether every cell of the board is filled.
pub fn is_filled(board: &ColorableBoard) -> (all: bool)
    ensures
        all == filled(board@),
{
    let mut k: usize = 0;
    while k < board.board.len()
        invariant
            k <= board.board.len(),
            forall|j: int| 0 <= j < k ==> (#[trigger] board@.cells[j]) is Full,
        decreases board.board.len() - k,
    {
        match board.board[k] {
            IndexedBoardState::Full(_, _, _, _) => {},
            _ => {
                assert(!(board@.cells[k as int] is Full));
                return false;
            },
        }
        k += 1;
    }
    true
}

/// The size of a colour class of a balanced colouring in three colours of
/// twelve pieces of five cells.
pub const CLASS_OF_THREE: i32 = 20;

/// The size of a colour class of a balanced colouring in four colours of
/// twelve pieces of five cells.
pub const CLASS_OF_FOUR: i32 = 15;

/// Whether every number of `counts` is `size`.
pub open spec fn all_of_size(counts: Seq<i32>, size: int) -> bool {
    forall|i: int| 0 <= i < counts.len() ==> counts[i] == size
}

/// The number of colours of a balanced colouring, given how many cells
/// have each colour: 3 where there are three colours of twenty cells each,
/// 4 where there are four colours of fifteen cells each. Any other colouring
/// is not balanced.
pub open spec fn balance(counts: Seq<i32>) -> Option<usize> {
    if counts.len() == 3 && all_of_size(counts, CLASS_OF_THREE as int) {
        Some(3usize)
    } else if counts.len() == 4 && all_of_size(counts, CLASS_OF_FOUR as int) {
        Some(4usize)
    } else {
        None
    }
}

fn all_equal_to(counts: &Vec<i32>, size: i32) -> (all: bool)
    ensures
        all == all_of_size(counts@, size as int),
{
    let mut i: usize = 0;
    while i < counts.len()
        invariant
            i <= counts.len(),
            forall|j: int| 0 <= j < i ==> counts@[j] == size,
        decreases counts.len() - i,
    {
        if counts[i] != size {
            return false;
        }
        i += 1;
    }
    true
}

/// Whether a colouring is balanced, and in how many colours, given the
/// numbers of cells of its colours.
pub fn nice_coloring(counts: &Vec<i32>) -> (colors: Option<usize>)
    ensures
        colors == balance(counts@),
{
    if counts.len() == 3 && all_equal_to(counts, CLASS_OF_THREE) {
        Some(3)
    } else if counts.len() == 4 && all_equal_to(counts, CLASS_OF_FOUR) {
        Some(4)
    } else {
        None
    }
}

/// What each board of a list holds.
pub open spec fn board_views(boards: Seq<ColorableBoard>) -> Seq<BoardView> {
    boards.map_values(|b: ColorableBoard| b@)
}

/// The boards among `solutions` that show every piece of the library, in
/// their order.
pub fn valid_solution_variations(
    solutions: &Vec<ColorableBoard>,
    all_polyominoes: &Vec<Vec<ColorPolyomino>>,
) -> (valid: Vec<ColorableBoard>)
    requires
        forall|i: int| 0 <= i < solutions@.len() ==> (#[trigger] solutions@[i])@.wf(),
    ensures
        board_views(valid@) == board_views(solutions@).filter(
            |b: BoardView| all_present(b, all_polyominoes@),
        ),
{
    let ghost shown = |b: BoardView| all_present(b, all_polyominoes@);
    let ghost views = board_views(solutions@);
    let mut valid: Vec<ColorableBoard> = Vec::new();
    let mut i: usize = 0;
    assert(board_views(valid@) =~= views.take(0).filter(shown)) by {
        assert(views.take(0).len() == 0);
        reveal_with_fuel(Seq::filter, 1);
    }
    while i < solutions.len()
        invariant
            i <= solutions.len(),
            views == board_views(solutions@),
            shown == |b: BoardView| all_present(b, all_polyominoes@),
            forall|j: int| 0 <= j < solutions@.len() ==> (#[trigger] solutions@[j])@.wf(),
            board_views(valid@) == views.take(i as int).filter(shown),
        decreases solutions.len() - i,
    {
        let ghost before = board_views(valid@);
        let keep = has_all_polyomino_patterns(&solutions[i], all_polyominoes);
        if keep {
            valid.push(solutions[i].clone());
        }
        proof {
            let longer = views.take(i + 1);
            assert(longer.drop_last() =~= views.take(i as int));
            assert(longer.last() == solutions@[i as int]@);
            reveal_with_fuel(Seq::filter, 1);
            assert(shown(longer.last()) == keep);
            if keep {
                assert(board_views(valid@) =~= before.push(solutions@[i as int]@));
            }
            assert(board_views(valid@) =~= longer.filter(shown));
        }
        i += 1;
    }
    assert(views.take(i as int) =~= views);
    valid
}

} // verus!
