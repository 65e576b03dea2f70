//! Colourings of rectangular tilings by polyominoes.
//!
//! A tiling is indexed into a [`colorableboard::ColorableBoard`]: a grid of
//! cells that point into the list of the distinct pieces of the tiling. The
//! pieces are coloured so that no two that share a border have one colour
//! ([`boardcolorer`]), the colours are laid over a second tiling of the same
//! size ([`utils::overlay`]), and the result is searched for every shape of a
//! library as a region of one colour that no cell of that colour touches
//! ([`utils::has_all_polyomino_patterns`]).
//!
//! Every function of the library is verified against its contract, but for
//! the items of [`graph`] that speak for the crate
//! `heuristic_graph_coloring`.

pub mod boardcolorer;
pub mod colorableboard;
pub mod colorpoint;
pub mod colorpolyomino;
pub mod graph;
pub mod overlay_laws;
pub mod pattern_laws;
pub mod render;
pub mod utils;
