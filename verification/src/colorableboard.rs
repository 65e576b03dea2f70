//! A board whose cells point into a list of the distinct pieces that lie on it.

use vstd::prelude::*;

use crate::colorpoint::ColorPoint;
use crate::colorpolyomino::ColorPolyomino;
use crate::colorpolyomino::Piece;

verus! {

/// What lies on one cell of a board.
///
/// `Full(piece, point, x, y)` says that point number `point` of piece number
/// `piece` of the board's piece list lies there; `(x, y)` is where the first
/// point of that piece was placed, and says nothing about which piece it is.
#[derive(Copy, Clone, PartialEq, Eq, Structural, Debug)]
pub enum IndexedBoardState {
    Void,
    Empty,
    Full(usize, usize, i16, i16),
}

impl IndexedBoardState {
    /// Whether two cells belong together: both outside the board's shape, both
    /// unfilled, or both filled by the same piece of the list.
    pub open spec fn joined(self, other: IndexedBoardState) -> bool {
        match self {
            IndexedBoardState::Void => other is Void,
            IndexedBoardState::Empty => other is Empty,
            IndexedBoardState::Full(piece, _, _, _) => other is Full && other->Full_0 == piece,
        }
    }

    /// The number of the piece that fills the cell.
    pub open spec fn piece(self) -> Option<usize> {
        match self {
            IndexedBoardState::Full(piece, _, _, _) => Some(piece),
            _ => None,
        }
    }

    pub fn connected_to(&self, other: IndexedBoardState) -> (connected: bool)
        ensures
            connected == self.joined(other),
    {
        match *self {
            IndexedBoardState::Void => other == IndexedBoardState::Void,
            IndexedBoardState::Empty => other == IndexedBoardState::Empty,
            IndexedBoardState::Full(pidx1, _, _, _) => {
                if let IndexedBoardState::Full(pidx2, _, _, _) = other {
                    pidx1 == pidx2
                } else {
                    false
                }
            },
        }
    }

    pub fn get_poly_idx(&self) -> (piece: Option<usize>)
        ensures
            piece == self.piece(),
    {
        if let IndexedBoardState::Full(idx, _, _, _) = *self {
            Some(idx)
        } else {
            None
        }
    }
}

/// What each piece of a list holds.
pub open spec fn piece_views(pieces: Seq<ColorPolyomino>) -> Seq<Piece> {
    pieces.map_values(|p: ColorPolyomino| p@)
}

/// A board as a value: its size, its cells row by row, and its pieces.
pub struct BoardView {
    pub width: int,
    pub height: int,
    pub cells: Seq<IndexedBoardState>,
    pub pieces: Seq<Piece>,
}

impl BoardView {
    /// Whether `cell` points at a point that exists.
    pub open spec fn resolves(self, cell: IndexedBoardState) -> bool {
        cell matches IndexedBoardState::Full(piece, point, _, _) ==> piece < self.pieces.len()
            && point < self.pieces[piece as int].points.len()
    }

    /// The board holds one cell for each place, and every filled cell points
    /// at a point of a piece of the list.
    pub open spec fn wf(self) -> bool {
        &&& 0 <= self.width
        &&& 0 <= self.height
        &&& self.cells.len() == self.width * self.height
        &&& forall|k: int| 0 <= k < self.cells.len() ==> self.resolves(#[trigger] self.cells[k])
    }

    pub open spec fn on_board(self, x: int, y: int) -> bool {
        0 <= x < self.width && 0 <= y < self.height
    }

    /// The cell at `(x, y)`; off the board every cell is `Void`.
    pub open spec fn get(self, x: int, y: int) -> IndexedBoardState {
        if self.on_board(x, y) {
            self.cells[x + y * self.width]
        } else {
            IndexedBoardState::Void
        }
    }

    /// Whether point number `point` of piece number `piece` lies at `(x, y)`.
    pub open spec fn holds(self, x: int, y: int, piece: int, point: int) -> bool {
        self.get(x, y) matches IndexedBoardState::Full(p, pt, _, _) && p == piece && pt == point
    }

    /// The colour of the point that lies at `(x, y)`, if one lies there.
    pub open spec fn color_at(self, x: int, y: int) -> Option<char> {
        match self.get(x, y) {
            IndexedBoardState::Full(piece, point, _, _) => Some(
                self.pieces[piece as int].points[point as int].color,
            ),
            _ => None,
        }
    }

    /// The board with point number `point` of piece number `piece` recoloured.
    pub open spec fn paint(self, piece: int, point: int, color: char) -> BoardView {
        let old_piece = self.pieces[piece];
        let new_piece = Piece {
            id: old_piece.id,
            points: old_piece.points.update(
                point,
                ColorPoint { color, ..old_piece.points[point] },
            ),
        };
        BoardView { pieces: self.pieces.update(piece, new_piece), ..self }
    }

    /// The board after the point at `(x, y)`, if one lies there, got the
    /// colour `color`.
    pub open spec fn with_color(self, x: int, y: int, color: char) -> BoardView {
        match self.get(x, y) {
            IndexedBoardState::Full(piece, point, _, _) => self.paint(
                piece as int,
                point as int,
                color,
            ),
            _ => self,
        }
    }
}

/// A place on a board of `width` by `height` cells has its cell within the
/// row-by-row list of the cells.
pub proof fn lemma_cell_index(x: int, y: int, width: int, height: int)
    requires
        0 <= x < width,
        0 <= y < height,
    ensures
        0 <= x + y * width < width * height,
{
    assert(y * width <= (height - 1) * width) by (nonlinear_arith)
        requires
            0 <= y <= height - 1,
            0 <= width,
    ;
    assert((height - 1) * width == height * width - width) by (nonlinear_arith);
    assert(0 <= y * width) by (nonlinear_arith)
        requires
            0 <= y,
            0 <= width,
    ;
    assert(height * width == width * height) by (nonlinear_arith);
}

/// `pieces` with `piece` at its end, unless it holds an equal piece already.
pub open spec fn with_piece(pieces: Seq<Piece>, piece: Piece) -> Seq<Piece> {
    if pieces.contains(piece) {
        pieces
    } else {
        pieces.push(piece)
    }
}

/// Whether `idx` is the first place of `pieces` that holds `piece`.
pub open spec fn first_place(pieces: Seq<Piece>, piece: Piece, idx: int) -> bool {
    &&& 0 <= idx < pieces.len()
    &&& pieces[idx] == piece
    &&& forall|j: int| 0 <= j < idx ==> pieces[j] != piece
}

/// To put a piece in a list twice is to put it there once. A piece that the
/// list holds leaves the list as it is; any other piece makes it one longer
/// and stands at its end, where every later look for it finds it.
pub proof fn lemma_with_piece_twice(pieces: Seq<Piece>, piece: Piece)
    ensures
        with_piece(with_piece(pieces, piece), piece) == with_piece(pieces, piece),
        pieces.contains(piece) ==> with_piece(pieces, piece) == pieces,
        !pieces.contains(piece) ==> with_piece(pieces, piece).len() == pieces.len() + 1
            && first_place(with_piece(pieces, piece), piece, pieces.len() as int),
        forall|idx: int, j: int|
            first_place(with_piece(pieces, piece), piece, idx) && first_place(
                with_piece(with_piece(pieces, piece), piece),
                piece,
                j,
            ) ==> idx == j,
{
    broadcast use vstd::seq_lib::group_seq_properties;

    let once = with_piece(pieces, piece);
    if !pieces.contains(piece) {
        assert(once[pieces.len() as int] == piece);
        assert(once.contains(piece));
    }
}

/// What lies on one cell of a tiling that has not been indexed yet: a filled
/// cell names its piece by what the piece holds.
///
/// `Full(piece, point, x, y)` says that point number `point` of `piece` lies
/// there; `(x, y)` is where the first point of that piece was placed.
pub enum TilingCell {
    Void,
    Empty,
    Full(ColorPolyomino, usize, i16, i16),
}

impl TilingCell {
    /// Whether the cell names a point that its piece has.
    pub open spec fn resolves(self) -> bool {
        self matches TilingCell::Full(piece, point, _, _) ==> point < piece@.points.len()
    }

    /// The same cell on a board whose piece list is `pieces`.
    pub open spec fn indexed(self, pieces: Seq<Piece>) -> IndexedBoardState {
        match self {
            TilingCell::Void => IndexedBoardState::Void,
            TilingCell::Empty => IndexedBoardState::Empty,
            TilingCell::Full(piece, point, x, y) => IndexedBoardState::Full(
                pieces.index_of(piece@) as usize,
                point,
                x,
                y,
            ),
        }
    }
}

/// A tiling as it comes from a search: `width * height` cells, row by row.
pub struct Tiling {
    pub width: i16,
    pub height: i16,
    pub cells: Vec<TilingCell>,
}

impl Tiling {
    pub open spec fn wf(self) -> bool {
        &&& 0 <= self.width
        &&& 0 <= self.height
        &&& self.cells.len() == self.width * self.height
        &&& forall|k: int| 0 <= k < self.cells.len() ==> (#[trigger] self.cells@[k]).resolves()
    }

    /// Whether the tiling holds one cell for each place and every filled
    /// cell names a point that its piece has.
    pub fn is_well_formed(&self) -> (well_formed: bool)
        ensures
            well_formed == self.wf(),
    {
        if self.width < 0 || self.height < 0 {
            return false;
        }
        proof {
            assert(self.width * self.height <= 0x7fff * 0x7fff) by (nonlinear_arith)
                requires
                    0 <= self.width <= 0x7fff,
                    0 <= self.height <= 0x7fff,
            ;
        }
        if self.cells.len() != self.width as usize * self.height as usize {
            return false;
        }
        let mut k: usize = 0;
        while k < self.cells.len()
            invariant
                k <= self.cells.len(),
                forall|j: int| 0 <= j < k ==> (#[trigger] self.cells@[j]).resolves(),
            decreases self.cells.len() - k,
        {
            if let TilingCell::Full(piece, point, _, _) = &self.cells[k] {
                if *point >= piece.len() {
                    assert(!self.cells@[k as int].resolves());
                    return false;
                }
            }
            k += 1;
        }
        true
    }
}

/// The distinct pieces that the first `n` cells name, each at the place of
/// its first appearance.
pub open spec fn distinct_pieces(cells: Seq<TilingCell>, n: int) -> Seq<Piece>
    decreases n,
{
    if n <= 0 {
        Seq::empty()
    } else {
        let before = distinct_pieces(cells, n - 1);
        match cells[n - 1] {
            TilingCell::Full(piece, _, _, _) => with_piece(before, piece@),
            _ => before,
        }
    }
}

/// Whether cell number `k` is filled by a piece that holds `piece`.
pub open spec fn names(cells: Seq<TilingCell>, k: int, piece: Piece) -> bool {
    cells[k] matches TilingCell::Full(p, _, _, _) && p@ == piece
}

/// Whether one of the first `n` cells is filled by a piece that holds `piece`.
pub open spec fn named_among(cells: Seq<TilingCell>, n: int, piece: Piece) -> bool {
    exists|k: int| 0 <= k < n && #[trigger] names(cells, k, piece)
}

/// The list of the distinct pieces holds no piece twice, holds the pieces
/// that the cells read so far name and no others, and only grows as more
/// cells are read.
pub proof fn lemma_distinct_pieces(cells: Seq<TilingCell>, n: int)
    requires
        0 <= n <= cells.len(),
    ensures
        distinct_pieces(cells, n).no_duplicates(),
        forall|piece: Piece|
            #[trigger] distinct_pieces(cells, n).contains(piece) <==> named_among(cells, n, piece),
        forall|m: int|
            0 <= m <= n ==> (#[trigger] distinct_pieces(cells, m)).is_prefix_of(
                distinct_pieces(cells, n),
            ),
    decreases n,
{
    broadcast use vstd::seq_lib::group_seq_properties;

    if n > 0 {
        lemma_distinct_pieces(cells, n - 1);
        let before = distinct_pieces(cells, n - 1);
        let now = distinct_pieces(cells, n);
        assert(before.is_prefix_of(now));
        assert forall|piece: Piece| #[trigger] now.contains(piece) <==> named_among(
            cells,
            n,
            piece,
        ) by {
            if now.contains(piece) {
                if before.contains(piece) {
                    assert(named_among(cells, n - 1, piece));
                    let k = choose|k: int| 0 <= k < n - 1 && #[trigger] names(cells, k, piece);
                    assert(names(cells, k, piece));
                } else {
                    assert(names(cells, n - 1, piece));
                }
            }
            if named_among(cells, n, piece) {
                let k = choose|k: int| 0 <= k < n && #[trigger] names(cells, k, piece);
                if k < n - 1 {
                    assert(named_among(cells, n - 1, piece));
                    assert(before.contains(piece));
                    let i = before.index_of(piece);
                    assert(now[i] == piece);
                } else {
                    if before.contains(piece) {
                    } else {
                        assert(now[now.len() - 1] == piece);
                    }
                }
            }
        }
        assert forall|m: int| 0 <= m <= n implies (#[trigger] distinct_pieces(
            cells,
            m,
        )).is_prefix_of(now) by {
            if m < n {
                assert(distinct_pieces(cells, m).is_prefix_of(before));
            }
        }
    }
}

pub struct ColorableBoard {
    pub height: i16,
    pub width: i16,
    pub board: Vec<IndexedBoardState>,
    pub polyominoes: Vec<ColorPolyomino>,
}

impl View for ColorableBoard {
    type V = BoardView;

    open spec fn view(&self) -> BoardView {
        BoardView {
            width: self.width as int,
            height: self.height as int,
            cells: self.board@,
            pieces: piece_views(self.polyominoes@),
        }
    }
}

impl ColorableBoard {
    /// Whether the board holds one cell for each place and every filled cell
    /// points at a point of a piece of the list.
    pub fn is_well_formed(&self) -> (well_formed: bool)
        ensures
            well_formed == self@.wf(),
    {
        if self.width < 0 || self.height < 0 {
            return false;
        }
        proof {
            assert(self.width * self.height <= 0x7fff * 0x7fff) by (nonlinear_arith)
                requires
                    0 <= self.width <= 0x7fff,
                    0 <= self.height <= 0x7fff,
            ;
        }
        if self.board.len() != self.width as usize * self.height as usize {
            return false;
        }
        let mut k: usize = 0;
        while k < self.board.len()
            invariant
                k <= self.board.len(),
                forall|j: int| 0 <= j < k ==> self@.resolves(#[trigger] self@.cells[j]),
            decreases self.board.len() - k,
        {
            if let IndexedBoardState::Full(piece, point, _, _) = self.board[k] {
                if piece >= self.polyominoes.len() || point >= self.polyominoes[piece].len() {
                    assert(!self@.resolves(self@.cells[k as int]));
                    return false;
                }
            }
            k += 1;
        }
        true
    }

    /// The place of `needle` in the list `v`, where it is put at the end if
    /// no piece of the list equals it.
    ///
    /// A piece that the list holds is found at its first place and the list
    /// stays as it is; any other piece makes the list one longer and is
    /// found at the new last place.
    pub fn find_insert(v: &mut Vec<ColorPolyomino>, needle: &ColorPolyomino) -> (idx: usize)
        ensures
            piece_views(final(v)@) == with_piece(piece_views(old(v)@), needle@),
            first_place(piece_views(final(v)@), needle@, idx as int),
            piece_views(old(v)@).contains(needle@) ==> final(v)@.len() == old(v)@.len(),
            !piece_views(old(v)@).contains(needle@) ==> final(v)@.len() == old(v)@.len() + 1
                && idx == old(v)@.len(),
    {
        let mut i: usize = 0;
        while i < v.len()
            invariant
                i <= v.len(),
                *v == *old(v),
                forall|j: int| 0 <= j < i ==> piece_views(v@)[j] != needle@,
            decreases v.len() - i,
        {
            if v[i] == *needle {
                assert(piece_views(v@)[i as int] == needle@);
                return i;
            }
            i += 1;
        }
        v.push(needle.clone());
        assert(piece_views(v@) =~= piece_views(old(v)@).push(needle@));
        assert(!piece_views(old(v)@).contains(needle@));
        v.len() - 1
    }

    /// The board of a tiling: the distinct pieces of the tiling in the
    /// order in which its cells, read row by row, first name them, and for
    /// each cell the place of its piece in that list.
    pub fn new(b: &Tiling) -> (board: ColorableBoard)
        requires
            b.wf(),
        ensures
            board@.wf(),
            board@.width == b.width,
            board@.height == b.height,
            board@.pieces == distinct_pieces(b.cells@, b.cells@.len() as int),
            board@.pieces.no_duplicates(),
            forall|piece: Piece|
                #[trigger] board@.pieces.contains(piece) <==> named_among(
                    b.cells@,
                    b.cells@.len() as int,
                    piece,
                ),
            board@.cells.len() == b.cells@.len(),
            forall|k: int|
                0 <= k < b.cells@.len() ==> #[trigger] board@.cells[k] == b.cells@[k].indexed(
                    board@.pieces,
                ),
    {
        let mut mb = ColorableBoard {
            height: b.height,
            width: b.width,
            board: Vec::new(),
            polyominoes: Vec::new(),
        };
        let n = b.cells.len();
        let mut idx: usize = 0;
        assert(piece_views(mb.polyominoes@) =~= distinct_pieces(b.cells@, 0));
        while idx < n
            invariant
                idx <= n,
                n == b.cells@.len(),
                b.wf(),
                mb.width == b.width,
                mb.height == b.height,
                mb.board@.len() == idx,
                piece_views(mb.polyominoes@) == distinct_pieces(b.cells@, idx as int),
                forall|k: int|
                    0 <= k < idx ==> #[trigger] mb.board@[k] == b.cells@[k].indexed(
                        distinct_pieces(b.cells@, k + 1),
                    ),
            decreases n - idx,
        {
            let cell = match &b.cells[idx] {
                TilingCell::Void => IndexedBoardState::Void,
                TilingCell::Empty => IndexedBoardState::Empty,
                TilingCell::Full(p, pt, px, py) => {
                    let place = Self::find_insert(&mut mb.polyominoes, p);
                    proof {
                        lemma_distinct_pieces(b.cells@, idx + 1);
                        let now = distinct_pieces(b.cells@, idx + 1);
                        assert(names(b.cells@, idx as int, p@));
                        assert(named_among(b.cells@, idx + 1, p@));
                        assert(now.contains(p@));
                        assert(now[now.index_of(p@)] == p@);
                        assert(now[place as int] == p@);
                    }
                    IndexedBoardState::Full(place, *pt, *px, *py)
                },
            };
            mb.board.push(cell);
            idx += 1;
        }
        proof {
            let all = distinct_pieces(b.cells@, n as int);
            lemma_distinct_pieces(b.cells@, n as int);
            assert forall|k: int| 0 <= k < n implies #[trigger] mb@.cells[k]
                == b.cells@[k].indexed(all) by {
                let early = distinct_pieces(b.cells@, k + 1);
                lemma_distinct_pieces(b.cells@, k + 1);
                assert(early.is_prefix_of(all));
                if let TilingCell::Full(p, pt, px, py) = b.cells@[k] {
                    assert(names(b.cells@, k, p@));
                    assert(named_among(b.cells@, k + 1, p@));
                    assert(early.contains(p@));
                    let i = early.index_of(p@);
                    assert(early[i] == p@);
                    assert(all[i] == p@);
                    assert(all[all.index_of(p@)] == p@);
                }
            }
            assert forall|k: int| 0 <= k < mb@.cells.len() implies mb@.resolves(
                #[trigger] mb@.cells[k],
            ) by {
                assert(b.cells@[k].resolves());
                assert(mb@.cells[k] == b.cells@[k].indexed(all));
                if let TilingCell::Full(p, pt, px, py) = b.cells@[k] {
                    assert(names(b.cells@, k, p@));
                    assert(named_among(b.cells@, n as int, p@));
                    assert(all.contains(p@));
                    let i = all.index_of(p@);
                    assert(all.len() == mb.polyominoes.len());
                    assert(0 <= i < all.len() && all[i] == p@);
                    assert(mb@.cells[k] == IndexedBoardState::Full(i as usize, pt, px, py));
                    assert(mb@.pieces[i] == p@);
                }
            }
        }
        mb
    }

    pub fn get_height(&self) -> (height: i16)
        ensures
            height == self@.height,
    {
        self.height
    }

    pub fn get_width(&self) -> (width: i16)
        ensures
            width == self@.width,
    {
        self.width
    }

    pub fn on_board(&self, x: i16, y: i16) -> (inside: bool)
        ensures
            inside == self@.on_board(x as int, y as int),
    {
        x >= 0 && y >= 0 && x < self.width && y < self.height
    }

    /// The place of the cell `(x, y)` in the row-by-row list of the cells.
    pub fn to_idx(&self, x: i16, y: i16) -> (idx: usize)
        requires
            self@.on_board(x as int, y as int),
        ensures
            idx == x + y * self@.width,
            idx < self@.width * self@.height,
    {
        proof {
            lemma_cell_index(x as int, y as int, self.width as int, self.height as int);
            assert(self.width * self.height <= 0x7fff * 0x7fff) by (nonlinear_arith)
                requires
                    0 <= self.width <= 0x7fff,
                    0 <= self.height <= 0x7fff,
            ;
        }
        x as usize + y as usize * self.width as usize
    }

    /// The cell at `(x, y)`; off the board every cell is `Void`.
    pub fn get(&self, x: i16, y: i16) -> (cell: IndexedBoardState)
        requires
            self@.wf(),
        ensures
            cell == self@.get(x as int, y as int),
            self@.resolves(cell),
    {
        if self.on_board(x, y) {
            self.board[self.to_idx(x, y)]
        } else {
            IndexedBoardState::Void
        }
    }

    /// The colour of the point that lies at `(x, y)`; `None` where no point
    /// lies, and so everywhere off the board.
    pub fn get_color(&self, x: i16, y: i16) -> (color: Option<char>)
        requires
            self@.wf(),
        ensures
            color == self@.color_at(x as int, y as int),
            !self@.on_board(x as int, y as int) ==> color is None,
    {
        if let IndexedBoardState::Full(p, pt, _x, _y) = self.get(x, y) {
            Some(self.get_point(p, pt).get_color())
        } else {
            None
        }
    }

    /// Gives the point that lies at `(x, y)` the colour `color`; where no
    /// point lies, nothing changes.
    pub fn set_color(&mut self, x: i16, y: i16, color: char)
        requires
            old(self)@.wf(),
        ensures
            final(self)@ == old(self)@.with_color(x as int, y as int, color),
            final(self)@.wf(),
    {
        if let IndexedBoardState::Full(p, pt, _x, _y) = self.get(x, y) {
            self.polyominoes[p].get_nth_mut(pt).unwrap().set_color(color);
            proof {
                let target = old(self)@.paint(p as int, pt as int, color);
                assert(self@.pieces =~= target.pieces);
                assert(self@.wf()) by {
                    assert forall|k: int| 0 <= k < self@.cells.len() implies self@.resolves(
                        #[trigger] self@.cells[k],
                    ) by {
                        assert(old(self)@.resolves(old(self)@.cells[k]));
                    }
                }
            }
        }
    }

    pub fn get_polyomino(&self, poly_index: usize) -> (piece: &ColorPolyomino)
        requires
            poly_index < self@.pieces.len(),
        ensures
            *piece == self.polyominoes@[poly_index as int],
            piece@ == self@.pieces[poly_index as int],
    {
        &self.polyominoes[poly_index]
    }

    pub fn get_polyomino_mut(&mut self, poly_index: usize) -> (piece: &mut ColorPolyomino)
        requires
            poly_index < old(self)@.pieces.len(),
        ensures
            *piece == old(self).polyominoes@[poly_index as int],
            final(self).polyominoes@ == old(self).polyominoes@.update(
                poly_index as int,
                *final(piece),
            ),
            final(self).width == old(self).width,
            final(self).height == old(self).height,
            final(self).board == old(self).board,
    {
        &mut self.polyominoes[poly_index]
    }

    pub fn get_point(&self, poly_index: usize, pt_index: usize) -> (point: &ColorPoint)
        requires
            poly_index < self@.pieces.len(),
            pt_index < self@.pieces[poly_index as int].points.len(),
        ensures
            *point == self@.pieces[poly_index as int].points[pt_index as int],
    {
        self.polyominoes[poly_index].get_nth(pt_index).unwrap()
    }
}

impl Clone for ColorableBoard {
    /// A copy with a piece list of its own.
    fn clone(&self) -> (copy: Self)
        ensures
            copy@ == self@,
    {
        let copy = ColorableBoard {
            height: self.height,
            width: self.width,
            board: self.board.clone(),
            polyominoes: self.polyominoes.clone(),
        };
        assert(copy.board@ =~= self.board@);
        assert(copy@.pieces =~= self@.pieces);
        copy
    }
}

} // verus!
