//! The picture of a board: its cells between border lines, as glyphs that a
//! terminal can show.

use vstd::prelude::*;

use crate::colorableboard::BoardView;
use crate::colorableboard::ColorableBoard;
use crate::colorableboard::IndexedBoardState;
use crate::colorpoint::display_color;
use crate::colorpoint::make_color;
use crate::colorpoint::PaletteColor;

verus! {

/// One character of the picture; `paint` is the colour in which a cell is
/// shown, and `None` for the characters of a border.
#[derive(Debug, Clone, Copy, PartialEq, Eq)]
pub struct Glyph {
    pub symbol: char,
    pub paint: Option<PaletteColor>,
}

/// A character of a border.
pub open spec fn plain(symbol: char) -> Glyph {
    Glyph { symbol, paint: None }
}

/// The glyph of the cell at `(x, y)`: a black blank outside the board's
/// shape, a white dot on an unfilled cell, and a square in the display colour
/// of its point on a filled one.
pub open spec fn cell_glyph(board: BoardView, x: int, y: int) -> Glyph {
    match board.get(x, y) {
        IndexedBoardState::Void => Glyph { symbol: ' ', paint: Some(PaletteColor::Black) },
        IndexedBoardState::Empty => Glyph { symbol: '.', paint: Some(PaletteColor::White) },
        IndexedBoardState::Full(piece, point, _, _) => Glyph {
            symbol: '\u{25A0}',
            paint: Some(display_color(board.pieces[piece as int].points[point as int].color)),
        },
    }
}

/// The symbol at place `i` of the line above the first row.
pub open spec fn top_border_symbol(board: BoardView, i: int) -> char {
    let x = (i - 1) / 2;
    if i == 0 {
        if board.get(0, 0) is Void {
            ' '
        } else {
            '+'
        }
    } else if (i - 1) % 2 == 0 {
        if board.get(x, 0) is Void {
            ' '
        } else {
            '-'
        }
    } else {
        if board.get(x, 0) is Void && board.get(x + 1, 0) is Void {
            ' '
        } else {
            '+'
        }
    }
}

/// The glyph at place `i` of row `y`: a bar or a blank at the left edge, then
/// for each cell its glyph and a bar where the next cell belongs to something
/// else.
pub open spec fn row_glyph(board: BoardView, y: int, i: int) -> Glyph {
    let x = (i - 1) / 2;
    if i == 0 {
        if board.get(0, y) is Void {
            plain(' ')
        } else {
            plain('|')
        }
    } else if (i - 1) % 2 == 0 {
        cell_glyph(board, x, y)
    } else {
        if board.get(x, y).joined(board.get(x + 1, y)) {
            plain(' ')
        } else {
            plain('|')
        }
    }
}

/// The symbol at place `i` of the line below row `y`: a dash under a cell
/// that ends there, and a corner wherever a border line meets that line.
pub open spec fn bottom_border_symbol(board: BoardView, y: int, i: int) -> char {
    let x = (i - 1) / 2;
    let here = board.get(x, y);
    let below = board.get(x, y + 1);
    if i == 0 {
        if board.get(0, y) is Void {
            ' '
        } else {
            '+'
        }
    } else if (i - 1) % 2 == 0 {
        if here.joined(below) {
            ' '
        } else {
            '-'
        }
    } else {
        if here.joined(below) && here.joined(board.get(x + 1, y)) && below.joined(
            board.get(x + 1, y + 1),
        ) {
            ' '
        } else {
            '+'
        }
    }
}

pub open spec fn top_border(board: BoardView) -> Seq<Glyph> {
    Seq::new((1 + 2 * board.width) as nat, |i: int| plain(top_border_symbol(board, i)))
}

/// Row `y`; a board without columns has empty rows.
pub open spec fn row(board: BoardView, y: int) -> Seq<Glyph> {
    if board.width == 0 {
        Seq::empty()
    } else {
        Seq::new((1 + 2 * board.width) as nat, |i: int| row_glyph(board, y, i))
    }
}

pub open spec fn bottom_border(board: BoardView, y: int) -> Seq<Glyph> {
    Seq::new((1 + 2 * board.width) as nat, |i: int| plain(bottom_border_symbol(board, y, i)))
}

/// The picture, line by line: the top border, then each row followed by
/// the border below it.
pub open spec fn picture(board: BoardView) -> Seq<Seq<Glyph>> {
    Seq::new(
        (1 + 2 * board.height) as nat,
        |l: int|
            if l == 0 {
                top_border(board)
            } else if (l - 1) % 2 == 0 {
                row(board, (l - 1) / 2)
            } else {
                bottom_border(board, (l - 1) / 2)
            },
    )
}

/// What each line of a picture holds.
pub open spec fn lines_of(lines: Seq<Vec<Glyph>>) -> Seq<Seq<Glyph>> {
    lines.map_values(|line: Vec<Glyph>| line@)
}

fn border(symbol: char) -> (glyph: Glyph)
    ensures
        glyph == plain(symbol),
{
    Glyph { symbol, paint: None }
}

fn top_row_border(s: &ColorableBoard) -> (line: Vec<Glyph>)
    requires
        s@.wf(),
    ensures
        line@ == top_border(s@),
{
    let mut line: Vec<Glyph> = Vec::new();
    line.push(
        border(
            if s.get(0, 0) == IndexedBoardState::Void {
                ' '
            } else {
                '+'
            },
        ),
    );
    let mut x: i16 = 0;
    while x < s.width
        invariant
            s@.wf(),
            0 <= x <= s.width,
            line@.len() == 1 + 2 * x,
            forall|i: int| 0 <= i < line@.len() ==> line@[i] == plain(top_border_symbol(s@, i)),
        decreases s.width - x,
    {
        let piece = s.get(x, 0);
        if piece == IndexedBoardState::Void {
            line.push(border(' '));
            if s.get(x + 1, 0) == IndexedBoardState::Void {
                line.push(border(' '));
            } else {
                line.push(border('+'));
            }
        } else {
            line.push(border('-'));
            line.push(border('+'));
        }
        x += 1;
    }
    assert(line@ =~= top_border(s@));
    line
}

fn cell(s: &ColorableBoard, x: i16, y: i16) -> (glyph: Glyph)
    requires
        s@.wf(),
    ensures
        glyph == cell_glyph(s@, x as int, y as int),
{
    match s.get(x, y) {
        IndexedBoardState::Void => Glyph { symbol: ' ', paint: Some(PaletteColor::Black) },
        IndexedBoardState::Empty => Glyph { symbol: '.', paint: Some(PaletteColor::White) },
        IndexedBoardState::Full(p_idx, pt_idx, _x, _y) => Glyph {
            symbol: '\u{25A0}',
            paint: Some(make_color(s.get_point(p_idx, pt_idx).get_color())),
        },
    }
}

fn row_cells(s: &ColorableBoard, y: i16) -> (line: Vec<Glyph>)
    requires
        s@.wf(),
        0 <= y < s.height,
    ensures
        line@ == row(s@, y as int),
{
    let mut line: Vec<Glyph> = Vec::new();
    let mut x: i16 = 0;
    while x < s.width
        invariant
            s@.wf(),
            0 <= x <= s.width,
            0 <= y < s.height,
            line@.len() == (if x == 0 {
                0
            } else {
                1 + 2 * x
            }),
            forall|i: int| 0 <= i < line@.len() ==> line@[i] == row_glyph(s@, y as int, i),
        decreases s.width - x,
    {
        let piece = s.get(x, y);
        if x == 0 {
            line.push(
                border(
                    if piece == IndexedBoardState::Void {
                        ' '
                    } else {
                        '|'
                    },
                ),
            );
        }
        line.push(cell(s, x, y));
        line.push(
            border(
                if piece.connected_to(s.get(x + 1, y)) {
                    ' '
                } else {
                    '|'
                },
            ),
        );
        x += 1;
    }
    assert(line@ =~= row(s@, y as int));
    line
}

fn row_bottom_border(s: &ColorableBoard, y: i16) -> (line: Vec<Glyph>)
    requires
        s@.wf(),
        0 <= y < s.height,
    ensures
        line@ == bottom_border(s@, y as int),
{
    let mut line: Vec<Glyph> = Vec::new();
    line.push(
        border(
            if s.get(0, y) == IndexedBoardState::Void {
                ' '
            } else {
                '+'
            },
        ),
    );
    let mut x: i16 = 0;
    while x < s.width
        invariant
            s@.wf(),
            0 <= x <= s.width,
            0 <= y < s.height,
            line@.len() == 1 + 2 * x,
            forall|i: int|
                0 <= i < line@.len() ==> line@[i] == plain(bottom_border_symbol(s@, y as int, i)),
        decreases s.width - x,
    {
        let piece = s.get(x, y);
        if piece.connected_to(s.get(x, y + 1)) {
            line.push(border(' '));
            if piece.connected_to(s.get(x + 1, y)) && s.get(x, y + 1).connected_to(
                s.get(x + 1, y + 1),
            ) {
                line.push(border(' '));
            } else {
                line.push(border('+'));
            }
        } else {
            line.push(border('-'));
            line.push(border('+'));
        }
        x += 1;
    }
    assert(line@ =~= bottom_border(s@, y as int));
    line
}

impl ColorableBoard {
    /// The picture of the board, line by line and without line ends.
    pub fn render(&self) -> (lines: Vec<Vec<Glyph>>)
        requires
            self@.wf(),
        ensures
            lines_of(lines@) == picture(self@),
    {
        let mut lines: Vec<Vec<Glyph>> = Vec::new();
        lines.push(top_row_border(self));
        let mut y: i16 = 0;
        while y < self.height
            invariant
                self@.wf(),
                0 <= y <= self.height,
                lines@.len() == 1 + 2 * y,
                forall|l: int| 0 <= l < lines@.len() ==> (#[trigger] lines@[l])@ == picture(self@)[l],
            decreases self.height - y,
        {
            lines.push(row_cells(self, y));
            lines.push(row_bottom_border(self, y));
            y += 1;
        }
        assert(lines_of(lines@) =~= picture(self@));
        lines
    }
}

} // verus!
