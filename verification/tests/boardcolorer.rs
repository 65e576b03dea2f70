use polycolorpuzzles::boardcolorer::adjacency_edges;
use polycolorpuzzles::boardcolorer::color_board;
use polycolorpuzzles::boardcolorer::find_coloring;
use polycolorpuzzles::boardcolorer::has_dense_ids;
use polycolorpuzzles::boardcolorer::mark_as_adjacent;
use polycolorpuzzles::boardcolorer::symbol_of;
use polycolorpuzzles::boardcolorer::vertex_count;
use polycolorpuzzles::boardcolorer::write_coloring;
use polycolorpuzzles::colorableboard::ColorableBoard;
use polycolorpuzzles::colorableboard::IndexedBoardState;
use polycolorpuzzles::colorableboard::Tiling;
use polycolorpuzzles::colorableboard::TilingCell;
use polycolorpuzzles::colorpoint::ColorPoint;
use polycolorpuzzles::colorpolyomino::ColorPolyomino;
use polycolorpuzzles::utils::color_count;
use polycolorpuzzles::utils::has_single_color_polyomino;

fn piece(id: usize, offsets: &[(i16, i16)]) -> ColorPolyomino {
    let mut p = ColorPolyomino::new(offsets.iter().map(|&(x, y)| ColorPoint::new(x, y)).collect());
    p.set_id(id);
    p
}

fn place(t: &mut Tiling, piece: &ColorPolyomino, x: i16, y: i16) {
    let first = *piece.get_nth(0).unwrap();
    for (i, pt) in piece.iter().enumerate() {
        let at = (pt.x() + x) as usize + (pt.y() + y) as usize * t.width as usize;
        t.cells[at] = TilingCell::Full(piece.clone(), i, first.x() + x, first.y() + y);
    }
}

fn blank(width: i16, height: i16) -> Tiling {
    let mut cells = Vec::new();
    for _ in 0..(width as usize * height as usize) {
        cells.push(TilingCell::Empty);
    }
    Tiling { width, height, cells }
}

//  I P P P Y
//  I P P Y Y
//  I C C F Y
//  I C F F Y
//  I C C F F
fn five_pentominoes() -> ColorableBoard {
    let mut t = blank(5, 5);
    place(&mut t, &piece(0, &[(0, 0), (0, 1), (0, 2), (0, 3), (0, 4)]), 0, 0);
    place(&mut t, &piece(1, &[(0, 0), (1, 0), (2, 0), (0, 1), (1, 1)]), 1, 0);
    place(&mut t, &piece(2, &[(1, 0), (0, 1), (1, 1), (1, 2), (1, 3)]), 3, 0);
    place(&mut t, &piece(3, &[(0, 0), (0, 1), (1, 0), (0, 2), (1, 2)]), 1, 2);
    place(&mut t, &piece(4, &[(1, 0), (0, 1), (1, 1), (1, 2), (2, 2)]), 2, 2);
    ColorableBoard::new(&t)
}

/// A board of single cells; the digit of a cell is the identity of its
/// piece, and cells with one digit are cells of one piece.
fn cells_by_id(rows: &[&str]) -> ColorableBoard {
    let height = rows.len() as i16;
    let width = rows[0].chars().count() as i16;
    let mut t = blank(width, height);
    for (y, row) in rows.iter().enumerate() {
        for (x, c) in row.chars().enumerate() {
            let at = x + y * width as usize;
            if c == '#' {
                t.cells[at] = TilingCell::Void;
            } else if let Some(id) = c.to_digit(36) {
                t.cells[at] = TilingCell::Full(piece(id as usize, &[(0, 0)]), 0, 0, 0);
            }
        }
    }
    ColorableBoard::new(&t)
}

fn colors_used(coloring: &[usize]) -> usize {
    coloring.iter().max().map_or(0, |c| c + 1)
}

#[test]
fn five_pentominoes_have_five_vertices() {
    let b = five_pentominoes();

    assert_eq!(b.polyominoes.len(), 5);
    assert_eq!(vertex_count(&b), 5);
    assert!(has_dense_ids(&b));
}

#[test]
fn five_pentominoes_are_joined_where_they_share_a_border() {
    let b = five_pentominoes();

    assert_eq!(adjacency_edges(&b), vec![(0, 1), (0, 3), (1, 3), (3, 4), (1, 2), (2, 4)]);
}

#[test]
fn five_pentominoes_get_a_proper_coloring_of_at_most_four_colors() {
    let b = five_pentominoes();
    let coloring = find_coloring(&b);

    assert_eq!(coloring.len(), 5);
    for (a, c) in adjacency_edges(&b) {
        assert_ne!(coloring[a], coloring[c]);
    }
    assert!(colors_used(&coloring) <= 4);
    assert!(colors_used(&coloring) >= 3);
}

#[test]
fn no_edge_joins_an_identity_to_itself() {
    for b in [five_pentominoes(), cells_by_id(&["0011", "0211", "3 #4"]), cells_by_id(&["00", "00"])] {
        for (a, c) in adjacency_edges(&b) {
            assert!(a < c);
        }
    }
}

#[test]
fn edges_stand_once() {
    let b = cells_by_id(&["0101", "1010"]);

    assert_eq!(adjacency_edges(&b), vec![(0, 1)]);
}

#[test]
fn cells_that_touch_at_a_corner_are_not_joined() {
    let b = cells_by_id(&["0 ", " 1"]);

    assert_eq!(adjacency_edges(&b), Vec::<(usize, usize)>::new());
    assert_eq!(vertex_count(&b), 2);
}

#[test]
fn void_and_empty_cells_join_nothing() {
    let b = cells_by_id(&["0#1", "0 1"]);

    assert_eq!(adjacency_edges(&b), Vec::<(usize, usize)>::new());
}

#[test]
fn pieces_of_one_identity_are_not_joined() {
    // Two pieces of the list, side by side, with the identity 0.
    let mut t = blank(2, 1);
    t.cells[0] = TilingCell::Full(piece(0, &[(0, 0)]), 0, 0, 0);
    t.cells[1] = TilingCell::Full(piece(0, &[(5, 5)]), 0, 1, 0);
    let b = ColorableBoard::new(&t);

    assert_eq!(b.polyominoes.len(), 2);
    assert_eq!(adjacency_edges(&b), Vec::<(usize, usize)>::new());
    assert_eq!(vertex_count(&b), 1);
}

#[test]
fn mark_as_adjacent_orders_the_identities() {
    let b = cells_by_id(&["10"]);
    let mut edges = Vec::new();

    mark_as_adjacent(&b, &b.get(0, 0), &b.get(1, 0), &mut edges);
    assert_eq!(edges, vec![(0, 1)]);
    mark_as_adjacent(&b, &b.get(1, 0), &b.get(0, 0), &mut edges);
    assert_eq!(edges, vec![(0, 1)]);
    mark_as_adjacent(&b, &b.get(0, 0), &b.get(0, 0), &mut edges);
    mark_as_adjacent(&b, &b.get(0, 0), &b.get(2, 0), &mut edges);
    mark_as_adjacent(&b, &IndexedBoardState::Empty, &b.get(0, 0), &mut edges);
    assert_eq!(edges, vec![(0, 1)]);
}

#[test]
fn vertex_count_of_boards_without_pieces() {
    assert_eq!(vertex_count(&cells_by_id(&["  ", "##"])), 0);
    assert_eq!(vertex_count(&ColorableBoard::new(&blank(0, 0))), 0);
    assert_eq!(find_coloring(&cells_by_id(&["  "])), Vec::<usize>::new());
}

#[test]
fn identities_with_a_gap_are_not_dense() {
    assert!(has_dense_ids(&cells_by_id(&["012"])));
    assert!(has_dense_ids(&cells_by_id(&["210"])));
    assert!(has_dense_ids(&cells_by_id(&["  "])));
    assert!(!has_dense_ids(&cells_by_id(&["02"])));
    assert!(!has_dense_ids(&cells_by_id(&["1"])));
}

#[test]
fn coloring_of_a_path_needs_two_colors() {
    let b = cells_by_id(&["0123"]);
    let coloring = find_coloring(&b);

    assert_eq!(coloring.len(), 4);
    assert_eq!(colors_used(&coloring), 2);
    assert_ne!(coloring[0], coloring[1]);
    assert_ne!(coloring[1], coloring[2]);
    assert_ne!(coloring[2], coloring[3]);
}

#[test]
fn coloring_of_four_cells_around_a_corner() {
    let b = cells_by_id(&["01", "23"]);
    let coloring = find_coloring(&b);

    assert_eq!(adjacency_edges(&b), vec![(0, 1), (0, 2), (2, 3), (1, 3)]);
    assert_eq!(colors_used(&coloring), 2);
    assert_eq!(coloring[0], coloring[3]);
    assert_eq!(coloring[1], coloring[2]);
    assert_ne!(coloring[0], coloring[1]);
}

#[test]
fn coloring_is_the_same_on_every_call() {
    let b = five_pentominoes();

    assert_eq!(find_coloring(&b), find_coloring(&b));
    assert_eq!(find_coloring(&b), find_coloring(&b.clone()));
}

#[test]
fn symbol_is_the_last_digit_in_base_sixteen() {
    assert_eq!(symbol_of(0), '0');
    assert_eq!(symbol_of(3), '3');
    assert_eq!(symbol_of(9), '9');
    assert_eq!(symbol_of(10), 'a');
    assert_eq!(symbol_of(15), 'f');
    assert_eq!(symbol_of(16), '0');
    assert_eq!(symbol_of(26), 'a');
    assert_eq!(symbol_of(255), 'f');
    assert_eq!(symbol_of(4096 + 7), '7');
    assert_eq!(symbol_of(usize::MAX), 'f');
    for n in 0..64 {
        assert_eq!(symbol_of(n), format!("{:x}", n).chars().last().unwrap());
    }
}

#[test]
fn color_board_writes_the_coloring_on_every_cell() {
    let mut b = five_pentominoes();
    let coloring = find_coloring(&b);
    color_board(&mut b);

    for x in 0..5 {
        for y in 0..5 {
            let p = b.get(x, y).get_poly_idx().unwrap();
            let id = b.get_polyomino(p).get_id();
            assert_eq!(b.get_color(x, y), Some(symbol_of(coloring[id])));
        }
    }
    assert!(has_single_color_polyomino(&b));
    assert_eq!(color_count(&b).iter().sum::<i32>(), 25);
    assert_eq!(color_count(&b).len(), colors_used(&coloring));
}

#[test]
fn color_board_gives_neighbouring_pieces_different_colors() {
    let mut b = five_pentominoes();
    color_board(&mut b);

    for x in 0..5 {
        for y in 0..5 {
            for (nx, ny) in [(x + 1, y), (x, y + 1)] {
                if b.get(nx, ny) != IndexedBoardState::Void && !b.get(x, y).connected_to(b.get(nx, ny)) {
                    assert_ne!(b.get_color(x, y), b.get_color(nx, ny));
                }
            }
        }
    }
}

#[test]
fn color_board_keeps_cells_identities_and_places() {
    let before = five_pentominoes();
    let mut b = five_pentominoes();
    color_board(&mut b);

    assert_eq!(b.board, before.board);
    assert_eq!(b.get_width(), 5);
    assert_eq!(b.get_height(), 5);
    for p in 0..5 {
        assert_eq!(b.get_polyomino(p).get_id(), before.get_polyomino(p).get_id());
        for pt in 0..5 {
            assert_eq!(b.get_point(p, pt).x(), before.get_point(p, pt).x());
            assert_eq!(b.get_point(p, pt).y(), before.get_point(p, pt).y());
        }
    }
}

#[test]
fn color_board_leaves_points_that_lie_nowhere() {
    let mut b = cells_by_id(&["01"]);
    b.polyominoes.push(ColorPolyomino::new(vec![ColorPoint::build_point(3, 3, 'z')]));
    color_board(&mut b);

    assert_eq!(*b.get_point(2, 0), ColorPoint::build_point(3, 3, 'z'));
    assert_ne!(b.get_color(0, 0), b.get_color(1, 0));
    assert_eq!(b.get_color(0, 0), Some('0'));
    assert_eq!(b.get_color(1, 0), Some('1'));
}

#[test]
fn write_coloring_of_given_colors() {
    let mut b = cells_by_id(&["012", "2 0", "#11"]);
    write_coloring(&mut b, &vec![10, 3, 17]);

    assert_eq!(b.get_color(0, 0), Some('a'));
    assert_eq!(b.get_color(1, 0), Some('3'));
    assert_eq!(b.get_color(2, 0), Some('1'));
    assert_eq!(b.get_color(0, 1), Some('1'));
    assert_eq!(b.get_color(1, 1), None);
    assert_eq!(b.get_color(2, 1), Some('a'));
    assert_eq!(b.get_color(0, 2), None);
    assert_eq!(b.get_color(1, 2), Some('3'));
    assert_eq!(b.get_color(2, 2), Some('3'));
    assert_eq!(b.get(1, 1), IndexedBoardState::Empty);
    assert_eq!(b.get(0, 2), IndexedBoardState::Void);
}

#[test]
fn write_coloring_goes_by_identity_not_by_place_in_the_list() {
    let mut b = cells_by_id(&["20", "11"]);
    // The pieces stand in the list in the order 2, 0, 1.
    assert_eq!(b.get_polyomino(0).get_id(), 2);
    write_coloring(&mut b, &vec![5, 6, 7, 8]);

    assert_eq!(b.get_color(0, 0), Some('7'));
    assert_eq!(b.get_color(1, 0), Some('5'));
    assert_eq!(b.get_color(0, 1), Some('6'));
    assert_eq!(b.get_color(1, 1), Some('6'));
}
