//! A grid point that carries a colour.

use std::cmp::Ordering;
use vstd::prelude::*;

verus! {

/// An integer point of the plane together with the colour of its cell.
///
/// Two points are equal when their coordinates and their colours are equal.
#[derive(Debug, Clone, Copy, PartialEq, Eq, Structural, Ord, Hash)]
pub struct ColorPoint {
    pub x: i16,
    pub y: i16,
    pub color: char,
}

impl ColorPoint {
    /// The colour that a freshly made point carries.
    pub open spec fn default_color() -> char {
        '0'
    }

    /// A point at `(x, y)` with the default colour.
    pub fn new(x: i16, y: i16) -> (p: ColorPoint)
        ensures
            p == (ColorPoint { x, y, color: Self::default_color() }),
    {
        ColorPoint { x, y, color: '0' }
    }

    /// A point at `(x, y)` with the given colour.
    pub fn build_point(x: i16, y: i16, color: char) -> (p: ColorPoint)
        ensures
            p == (ColorPoint { x, y, color }),
    {
        ColorPoint { x, y, color }
    }

    pub fn x(&self) -> (x: i16)
        ensures
            x == self.x,
    {
        self.x
    }

    pub fn set_x(&mut self, x: i16)
        ensures
            *final(self) == (ColorPoint { x, ..*old(self) }),
    {
        self.x = x;
    }

    pub fn y(&self) -> (y: i16)
        ensures
            y == self.y,
    {
        self.y
    }

    pub fn set_y(&mut self, y: i16)
        ensures
            *final(self) == (ColorPoint { y, ..*old(self) }),
    {
        self.y = y;
    }

    pub fn get_color(&self) -> (color: char)
        ensures
            color == self.color,
    {
        self.color
    }

    pub fn set_color(&mut self, color: char)
        ensures
            *final(self) == (ColorPoint { color, ..*old(self) }),
    {
        self.color = color
    }
}

/// The colours in which cells are displayed.
#[derive(Debug, Clone, Copy, PartialEq, Eq, Structural)]
pub enum PaletteColor {
    Black,
    Red,
    Green,
    Yellow,
    Blue,
    White,
}

/// The display colour that stands for a cell colour: the first four colour
/// symbols have one each, every other symbol is shown black.
pub open spec fn display_color(color: char) -> PaletteColor {
    if color == '0' {
        PaletteColor::Red
    } else if color == '1' {
        PaletteColor::Blue
    } else if color == '2' {
        PaletteColor::Yellow
    } else if color == '3' {
        PaletteColor::Green
    } else {
        PaletteColor::Black
    }
}

/// The colour in which a cell of the colour `color` is displayed.
pub fn make_color(color: char) -> (shown: PaletteColor)
    ensures
        shown == display_color(color),
{
    match color {
        '0' => PaletteColor::Red,
        '1' => PaletteColor::Blue,
        '2' => PaletteColor::Yellow,
        '3' => PaletteColor::Green,
        _ => PaletteColor::Black,
    }
}

/// The order of points: by `x`, then by `y`, then by colour.
pub open spec fn precedes(a: ColorPoint, b: ColorPoint) -> bool {
    a.x < b.x || (a.x == b.x && (a.y < b.y || (a.y == b.y && a.color < b.color)))
}

impl PartialOrd for ColorPoint {
    /// The order of two points: by `x`, then by `y`, then by colour. Any two
    /// points are ordered.
    fn partial_cmp(&self, other: &Self) -> (r: Option<Ordering>) {
        if self.x < other.x {
            return Some(Ordering::Less);
        }
        if self.x > other.x {
            return Some(Ordering::Greater);
        }
        if self.y < other.y {
            Some(Ordering::Less)
        } else if self.y > other.y {
            Some(Ordering::Greater)
        } else if self.color < other.color {
            Some(Ordering::Less)
        } else if self.color > other.color {
            Some(Ordering::Greater)
        } else {
            Some(Ordering::Equal)
        }
    }
}

impl vstd::std_specs::cmp::PartialOrdSpecImpl for ColorPoint {
    open spec fn obeys_partial_cmp_spec() -> bool {
        true
    }

    open spec fn partial_cmp_spec(&self, other: &Self) -> Option<Ordering> {
        if precedes(*self, *other) {
            Some(Ordering::Less)
        } else if precedes(*other, *self) {
            Some(Ordering::Greater)
        } else {
            Some(Ordering::Equal)
        }
    }
}

} // verus!
