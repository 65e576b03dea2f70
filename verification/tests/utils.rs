use polycolorpuzzles::colorableboard::ColorableBoard;
use polycolorpuzzles::colorableboard::IndexedBoardState;
use polycolorpuzzles::colorpoint::ColorPoint;
use polycolorpuzzles::colorpolyomino::ColorPolyomino;
use polycolorpuzzles::utils::build_adjacent_points;
use polycolorpuzzles::utils::color_count;
use polycolorpuzzles::utils::has_all_polyomino_patterns;
use polycolorpuzzles::utils::has_single_color_polyomino;
use polycolorpuzzles::utils::has_single_color_polyomino_pattern;
use polycolorpuzzles::utils::has_single_color_polyomino_pattern_at;
use polycolorpuzzles::utils::overlay;
use polycolorpuzzles::utils::Orientation;

//  +-+-+-+-+-+
//  |0  | | | |
//  +   + + + +
//  |0  | |0| |
//  + +-+ + + +
//  |0|  0|0|0|
//  +-+ +-+ + +
//  |0| |  0| |
//  + +-+-+-+ +
//  |0      | |
//  +-+-+-+-+-+

fn build_board() -> ColorableBoard {
    let mut board = ColorableBoard {
        height: 5,
        width: 5,
        board: Vec::new(),
        polyominoes: Vec::new(),
    };

    // P
    let mut v = Vec::new();
    v.push(ColorPoint::build_point(0, 0, '0'));
    v.push(ColorPoint::build_point(0, 1, '0'));
    v.push(ColorPoint::build_point(0, 2, '0'));
    v.push(ColorPoint::build_point(1, 0, '1'));
    v.push(ColorPoint::build_point(1, 1, '1'));

    board.polyominoes.push(ColorPolyomino::new(v));

    // L at bottom
    v = Vec::new();
    v.push(ColorPoint::build_point(0, 0, '0'));
    v.push(ColorPoint::build_point(0, 1, '0'));
    v.push(ColorPoint::build_point(1, 1, '1'));
    v.push(ColorPoint::build_point(2, 1, '1'));
    v.push(ColorPoint::build_point(3, 1, '1'));

    board.polyominoes.push(ColorPolyomino::new(v));

    // I on side
    v = Vec::new();
    v.push(ColorPoint::build_point(0, 0, '1'));
    v.push(ColorPoint::build_point(0, 1, '1'));
    v.push(ColorPoint::build_point(0, 2, '0'));
    v.push(ColorPoint::build_point(0, 3, '1'));
    v.push(ColorPoint::build_point(0, 4, '1'));

    board.polyominoes.push(ColorPolyomino::new(v));

    // Backwards L
    v = Vec::new();
    v.push(ColorPoint::build_point(0, 3, '1'));
    v.push(ColorPoint::build_point(1, 0, '1'));
    v.push(ColorPoint::build_point(1, 1, '0'));
    v.push(ColorPoint::build_point(1, 2, '0'));
    v.push(ColorPoint::build_point(1, 3, '0'));

    board.polyominoes.push(ColorPolyomino::new(v));

    // Zig-zag
    v = Vec::new();
    v.push(ColorPoint::build_point(0, 2, '1'));
    v.push(ColorPoint::build_point(0, 3, '1'));
    v.push(ColorPoint::build_point(1, 0, '1'));
    v.push(ColorPoint::build_point(1, 1, '1'));
    v.push(ColorPoint::build_point(1, 2, '0'));
    board.polyominoes.push(ColorPolyomino::new(v));

    board.board.push(IndexedBoardState::Full(0, 0, 0, 0));
    board.board.push(IndexedBoardState::Full(0, 3, 0, 0));
    board.board.push(IndexedBoardState::Full(4, 2, 2, 0));
    board.board.push(IndexedBoardState::Full(3, 1, 3, 0));
    board.board.push(IndexedBoardState::Full(2, 0, 4, 0));

    board.board.push(IndexedBoardState::Full(0, 2, 0, 0));
    board.board.push(IndexedBoardState::Full(0, 4, 0, 0));
    board.board.push(IndexedBoardState::Full(4, 3, 2, 0));
    board.board.push(IndexedBoardState::Full(3, 2, 3, 0));
    board.board.push(IndexedBoardState::Full(2, 1, 4, 0));

    board.board.push(IndexedBoardState::Full(0, 2, 0, 0));
    board.board.push(IndexedBoardState::Full(4, 0, 2, 0));
    board.board.push(IndexedBoardState::Full(4, 4, 2, 0));
    board.board.push(IndexedBoardState::Full(3, 3, 3, 0));
    board.board.push(IndexedBoardState::Full(2, 2, 4, 0));

    board.board.push(IndexedBoardState::Full(1, 0, 0, 3));
    board.board.push(IndexedBoardState::Full(4, 1, 2, 0));
    board.board.push(IndexedBoardState::Full(3, 0, 2, 0));
    board.board.push(IndexedBoardState::Full(3, 4, 3, 0));
    board.board.push(IndexedBoardState::Full(2, 3, 4, 0));

    board.board.push(IndexedBoardState::Full(1, 1, 0, 3));
    board.board.push(IndexedBoardState::Full(1, 2, 0, 3));
    board.board.push(IndexedBoardState::Full(1, 3, 0, 3));
    board.board.push(IndexedBoardState::Full(1, 4, 0, 3));
    board.board.push(IndexedBoardState::Full(2, 4, 4, 0));

    board
}

fn shape(offsets: &[(i16, i16)]) -> ColorPolyomino {
    ColorPolyomino::new(offsets.iter().map(|&(x, y)| ColorPoint::new(x, y)).collect())
}

fn build_x() -> ColorPolyomino {
    let mut v = Vec::new();
    v.push(ColorPoint::new(1, 0));
    v.push(ColorPoint::new(0, 1));
    v.push(ColorPoint::new(1, 1));
    v.push(ColorPoint::new(2, 1));
    v.push(ColorPoint::new(1, 2));

    ColorPolyomino::new(v)
}

fn build_flat_l() -> ColorPolyomino {
    let mut v = Vec::new();
    v.push(ColorPoint::new(0, 0));
    v.push(ColorPoint::new(1, 0));
    v.push(ColorPoint::new(2, 0));
    v.push(ColorPoint::new(3, 0));
    v.push(ColorPoint::new(4, 0));

    ColorPolyomino::new(v)
}

fn build_l() -> ColorPolyomino {
    let mut v = Vec::new();
    v.push(ColorPoint::new(0, 0));
    v.push(ColorPoint::new(0, 1));
    v.push(ColorPoint::new(0, 2));
    v.push(ColorPoint::new(0, 3));
    v.push(ColorPoint::new(0, 4));

    ColorPolyomino::new(v)
}

/// A board of single cells, one piece of one point for each symbol of
/// `rows`; a blank is an unfilled cell and `#` a cell outside the shape.
fn grid(rows: &[&str]) -> ColorableBoard {
    let height = rows.len() as i16;
    let width = rows[0].chars().count() as i16;
    let mut board = ColorableBoard { height, width, board: Vec::new(), polyominoes: Vec::new() };
    for (y, row) in rows.iter().enumerate() {
        for (x, c) in row.chars().enumerate() {
            if c == ' ' {
                board.board.push(IndexedBoardState::Empty);
            } else if c == '#' {
                board.board.push(IndexedBoardState::Void);
            } else {
                let mut piece = ColorPolyomino::new(vec![ColorPoint::build_point(0, 0, c)]);
                piece.set_id(board.polyominoes.len());
                board.polyominoes.push(piece);
                board.board.push(IndexedBoardState::Full(
                    board.polyominoes.len() - 1,
                    0,
                    x as i16,
                    y as i16,
                ));
            }
        }
    }
    board
}

fn colors(board: &ColorableBoard) -> Vec<String> {
    (0..board.get_height())
        .map(|y| {
            (0..board.get_width())
                .map(|x| board.get_color(x, y).unwrap_or(' '))
                .collect::<String>()
        })
        .collect()
}

#[test]
fn has_x() {
    let b = build_board();

    let piece = build_x();

    assert!(has_single_color_polyomino_pattern(&b, &piece));
}

#[test]
fn has_l() {
    let b = build_board();

    let piece = build_l();

    assert!(has_single_color_polyomino_pattern(&b, &piece));
}

#[test]
fn does_not_have_flat_l() {
    let b = build_board();

    let piece = build_flat_l();

    assert!(!has_single_color_polyomino_pattern(&b, &piece));
}

#[test]
fn space_too_big() {
    let mut b = build_board();

    // Add another '0' on top of the +
    b.set_color(3, 0, '0');

    let piece = build_x();

    assert!(!has_single_color_polyomino_pattern(&b, &piece));
}

#[test]
fn build_board_shows_the_drawn_colors() {
    assert_eq!(colors(&build_board()), vec!["01111", "01101", "01000", "01101", "01111"]);
}

#[test]
fn cross_matches_at_its_place_only() {
    let b = build_board();
    let piece = build_x();

    for x in -2..7 {
        for y in -2..7 {
            assert_eq!(has_single_color_polyomino_pattern_at(&b, &piece, x, y), (x, y) == (2, 1));
        }
    }
}

#[test]
fn pattern_of_the_three_pictures() {
    let cross = build_x();

    let alone = grid(&["00000", "00100", "01110", "00100", "00000"]);
    assert!(has_single_color_polyomino_pattern_at(&alone, &cross, 1, 1));

    let touched = grid(&["00100", "00100", "01110", "00100", "00000"]);
    assert!(!has_single_color_polyomino_pattern_at(&touched, &cross, 1, 1));
    assert!(!has_single_color_polyomino_pattern(&touched, &cross));

    let corner = grid(&["00010", "00100", "01110", "00100", "00000"]);
    assert!(has_single_color_polyomino_pattern_at(&corner, &cross, 1, 1));
}

#[test]
fn pattern_needs_every_cell_filled_and_on_the_board() {
    let bar = shape(&[(0, 0), (1, 0), (2, 0)]);

    assert!(has_single_color_polyomino_pattern_at(&grid(&["111"]), &bar, 0, 0));
    assert!(!has_single_color_polyomino_pattern_at(&grid(&["111"]), &bar, 1, 0));
    assert!(!has_single_color_polyomino_pattern_at(&grid(&["111"]), &bar, -1, 0));
    assert!(!has_single_color_polyomino_pattern_at(&grid(&["1 1"]), &bar, 0, 0));
    assert!(!has_single_color_polyomino_pattern_at(&grid(&["1#1"]), &bar, 0, 0));
    assert!(!has_single_color_polyomino_pattern_at(&grid(&["121"]), &bar, 0, 0));
}

#[test]
fn pattern_beside_unfilled_cells_is_isolated() {
    let bar = shape(&[(0, 0), (1, 0)]);
    let b = grid(&["    ", " 11#", "    "]);

    assert!(has_single_color_polyomino_pattern_at(&b, &bar, 1, 1));
    assert!(has_single_color_polyomino_pattern(&b, &bar));
}

#[test]
fn pattern_is_the_same_for_a_moved_shape() {
    let b = build_board();
    let cross = build_x();
    let moved = shape(&[(4, -3), (3, -2), (4, -2), (5, -2), (4, -1)]);

    for x in -3..8 {
        for y in -3..8 {
            assert_eq!(
                has_single_color_polyomino_pattern_at(&b, &moved, x - 3, y + 3),
                has_single_color_polyomino_pattern_at(&b, &cross, x, y)
            );
        }
    }
    assert!(has_single_color_polyomino_pattern_at(&b, &moved, -1, 4));
}

#[test]
fn pattern_does_not_read_the_colors_of_the_shape() {
    let b = build_board();
    let mut cross = build_x();
    cross.set_color('7');
    cross.set_id(11);

    assert!(has_single_color_polyomino_pattern_at(&b, &cross, 2, 1));
}

#[test]
fn pattern_with_far_offsets_does_not_overflow() {
    let b = grid(&["1"]);
    let far = shape(&[(i16::MAX, i16::MAX)]);
    let near = shape(&[(i16::MIN, i16::MIN)]);

    assert!(!has_single_color_polyomino_pattern_at(&b, &far, i16::MAX, i16::MAX));
    assert!(!has_single_color_polyomino_pattern_at(&b, &near, i16::MIN, i16::MIN));
    assert!(!has_single_color_polyomino_pattern(&b, &far));
}

#[test]
fn empty_shape_matches_everywhere() {
    let nothing = ColorPolyomino::new(Vec::new());

    assert!(has_single_color_polyomino_pattern_at(&grid(&["12"]), &nothing, 0, 0));
    assert!(has_single_color_polyomino_pattern_at(&grid(&["12"]), &nothing, 9, 9));
    assert!(has_single_color_polyomino_pattern(&grid(&["12"]), &nothing));
}

#[test]
fn no_shape_is_present_on_a_board_without_cells() {
    let b = ColorableBoard { height: 0, width: 0, board: Vec::new(), polyominoes: Vec::new() };

    assert!(!has_single_color_polyomino_pattern(&b, &ColorPolyomino::new(Vec::new())));
    assert!(!has_single_color_polyomino_pattern(&b, &shape(&[(0, 0)])));
}

#[test]
fn adjacent_points_of_one_cell() {
    let mut around = build_adjacent_points(&vec![(0, 0)]);
    around.sort();

    assert_eq!(around, vec![(-1, 0), (0, -1), (0, 1), (1, 0)]);
}

#[test]
fn adjacent_points_leave_out_the_cells_themselves() {
    let mut around = build_adjacent_points(&vec![(0, 0), (1, 0), (0, 0)]);
    around.sort();

    assert_eq!(around, vec![(-1, 0), (0, -1), (0, 1), (1, -1), (1, 1), (2, 0)]);
}

#[test]
fn adjacent_points_of_a_cross_hold_its_corners_once() {
    let around = build_adjacent_points(&vec![(1, 0), (0, 1), (1, 1), (2, 1), (1, 2)]);

    assert_eq!(around.len(), 8);
    for corner in [(0, 0), (2, 0), (0, 2), (2, 2)] {
        assert_eq!(around.iter().filter(|&&c| c == corner).count(), 1);
    }
    assert!(!around.contains(&(1, 1)));
}

#[test]
fn adjacent_points_of_nothing() {
    assert!(build_adjacent_points(&Vec::new()).is_empty());
}

#[test]
fn all_patterns_needs_one_variant_of_each_group() {
    let b = build_board();

    assert!(has_all_polyomino_patterns(&b, &vec![vec![build_flat_l(), build_l()], vec![build_x()]]));
    assert!(!has_all_polyomino_patterns(&b, &vec![vec![build_l()], vec![build_flat_l()]]));
    assert!(!has_all_polyomino_patterns(&b, &vec![vec![build_x()], vec![]]));
    assert!(has_all_polyomino_patterns(&b, &Vec::new()));
}

#[test]
fn all_patterns_fails_after_one_cell_changes_color() {
    let library = vec![vec![build_flat_l(), build_l()], vec![build_x()]];
    let mut b = build_board();
    assert!(has_all_polyomino_patterns(&b, &library));

    // The middle of the cross.
    b.set_color(2, 2, '1');
    assert!(!has_all_polyomino_patterns(&b, &library));

    // A cell beside the bar on the left.
    let mut b = build_board();
    b.set_color(1, 0, '0');
    assert!(!has_all_polyomino_patterns(&b, &library));
}

#[test]
fn single_color_polyomino_is_found() {
    let mut b = build_board();
    assert!(!has_single_color_polyomino(&b));

    b.get_polyomino_mut(3).set_color('2');
    assert!(has_single_color_polyomino(&b));
}

#[test]
fn single_color_polyomino_among_pieces_of_one_point() {
    assert!(has_single_color_polyomino(&grid(&["12"])));
}

#[test]
fn single_color_polyomino_on_a_list_without_pieces() {
    let b = ColorableBoard { height: 1, width: 1, board: vec![IndexedBoardState::Empty], polyominoes: Vec::new() };

    assert!(!has_single_color_polyomino(&b));
}

#[test]
fn a_piece_without_points_counts_as_single_colored() {
    let b = ColorableBoard {
        height: 1,
        width: 1,
        board: vec![IndexedBoardState::Empty],
        polyominoes: vec![ColorPolyomino::new(Vec::new())],
    };

    assert!(has_single_color_polyomino(&b));
}

#[test]
fn overlay_normal_copies_cell_by_cell() {
    let source = grid(&["123", "456"]);
    let mut target = grid(&["aaa", "aaa"]);
    overlay(&source, &mut target, Orientation::Normal);

    assert_eq!(colors(&target), vec!["123", "456"]);
    assert_eq!(colors(&source), vec!["123", "456"]);
}

#[test]
fn overlay_one_eighty_turns_the_board() {
    let source = grid(&["123", "456"]);
    let mut target = grid(&["aaa", "aaa"]);
    overlay(&source, &mut target, Orientation::OneEighty);

    assert_eq!(colors(&target), vec!["654", "321"]);
}

#[test]
fn overlay_flip_horizontally_mirrors_left_to_right() {
    let source = grid(&["123", "456"]);
    let mut target = grid(&["aaa", "aaa"]);
    overlay(&source, &mut target, Orientation::FlipHorizontally);

    assert_eq!(colors(&target), vec!["321", "654"]);
}

#[test]
fn overlay_flip_one_eighty_mirrors_top_to_bottom() {
    let source = grid(&["123", "456"]);
    let mut target = grid(&["aaa", "aaa"]);
    overlay(&source, &mut target, Orientation::FlipOneEighty);

    assert_eq!(colors(&target), vec!["456", "123"]);
}

#[test]
fn overlay_skips_cells_that_are_not_filled() {
    let source = grid(&["1 3", "#56"]);
    let mut target = grid(&["a#a", "aa "]);
    overlay(&source, &mut target, Orientation::Normal);

    assert_eq!(colors(&target), vec!["1 3", "a5 "]);
    assert_eq!(target.get(1, 0), IndexedBoardState::Void);
    assert_eq!(target.get(2, 1), IndexedBoardState::Empty);
}

#[test]
fn overlay_onto_another_tiling_paints_points() {
    let source = grid(&["12", "34"]);
    let mut target = ColorableBoard {
        height: 2,
        width: 2,
        board: vec![
            IndexedBoardState::Full(0, 0, 0, 0),
            IndexedBoardState::Full(1, 0, 1, 0),
            IndexedBoardState::Full(0, 1, 0, 0),
            IndexedBoardState::Full(1, 1, 1, 0),
        ],
        polyominoes: vec![
            shape(&[(0, 0), (0, 1)]),
            shape(&[(0, 0), (0, 1)]),
        ],
    };
    target.get_polyomino_mut(1).set_id(1);
    overlay(&source, &mut target, Orientation::Normal);

    assert_eq!(*target.get_point(0, 0), ColorPoint::build_point(0, 0, '1'));
    assert_eq!(*target.get_point(0, 1), ColorPoint::build_point(0, 1, '3'));
    assert_eq!(*target.get_point(1, 0), ColorPoint::build_point(0, 0, '2'));
    assert_eq!(*target.get_point(1, 1), ColorPoint::build_point(0, 1, '4'));
    assert!(!has_single_color_polyomino(&target));
}

#[test]
fn overlay_on_a_shared_point_keeps_the_last_color() {
    let source = grid(&["12", "34"]);
    // All four cells hold the one point of the one piece.
    let mut target = ColorableBoard {
        height: 2,
        width: 2,
        board: vec![IndexedBoardState::Full(0, 0, 0, 0); 4],
        polyominoes: vec![shape(&[(0, 0)])],
    };
    overlay(&source, &mut target, Orientation::Normal);
    // Columns are visited left to right, each from the top: (1, 1) is last.
    assert_eq!(target.get_color(0, 0), Some('4'));

    overlay(&source, &mut target, Orientation::OneEighty);
    assert_eq!(target.get_color(0, 0), Some('4'));

    overlay(&source, &mut target, Orientation::FlipHorizontally);
    assert_eq!(target.get_color(0, 0), Some('4'));
}

#[test]
fn overlay_identity_reads_back_the_source() {
    let source = build_board();
    let mut target = build_board();
    for p in 0..5 {
        target.get_polyomino_mut(p).set_color('9');
    }
    overlay(&source, &mut target, Orientation::Normal);

    for x in -1..6 {
        for y in -1..6 {
            assert_eq!(target.get_color(x, y), source.get_color(x, y));
        }
    }
}

#[test]
fn overlay_one_eighty_twice_is_normal() {
    let first = grid(&["123", "456"]);
    let mut second = grid(&["aaa", "aaa"]);
    let mut third = grid(&["bbb", "bbb"]);
    let mut direct = grid(&["bbb", "bbb"]);

    overlay(&first, &mut second, Orientation::OneEighty);
    overlay(&second, &mut third, Orientation::OneEighty);
    overlay(&first, &mut direct, Orientation::Normal);

    assert_eq!(colors(&third), colors(&direct));
    assert_eq!(colors(&third), vec!["123", "456"]);
}

#[test]
fn overlay_onto_a_smaller_board_skips_what_falls_off() {
    let source = grid(&["123", "456"]);
    let mut target = grid(&["aa"]);
    overlay(&source, &mut target, Orientation::Normal);
    assert_eq!(colors(&target), vec!["12"]);

    let mut target = grid(&["aa"]);
    overlay(&source, &mut target, Orientation::OneEighty);
    // (2, 1) and (1, 1) of the source turn to (0, 0) and (1, 0).
    assert_eq!(colors(&target), vec!["65"]);
}

#[test]
fn color_count_in_order_of_first_meeting() {
    // Column by column: 1 2 | 2 2 | 3 1.
    assert_eq!(color_count(&grid(&["123", "221"])), vec![2, 3, 1]);
}

#[test]
fn color_count_of_the_drawn_board() {
    assert_eq!(color_count(&build_board()), vec![10, 15]);
}

#[test]
fn color_count_of_one_color() {
    assert_eq!(color_count(&grid(&["77", "77", "77"])), vec![6]);
}

#[test]
fn color_count_of_a_board_without_cells() {
    let b = ColorableBoard { height: 0, width: 0, board: Vec::new(), polyominoes: Vec::new() };

    assert_eq!(color_count(&b), Vec::<i32>::new());
}

#[test]
fn filled_boards_have_no_void_or_empty_cell() {
    assert!(polycolorpuzzles::utils::is_filled(&grid(&["12", "34"])));
    assert!(!polycolorpuzzles::utils::is_filled(&grid(&["12", "3 "])));
    assert!(!polycolorpuzzles::utils::is_filled(&grid(&["#2", "34"])));
    assert!(polycolorpuzzles::utils::is_filled(&ColorableBoard {
        height: 0,
        width: 0,
        board: Vec::new(),
        polyominoes: Vec::new(),
    }));
}

#[test]
fn nice_coloring_of_three_classes_of_twenty() {
    assert_eq!(polycolorpuzzles::utils::nice_coloring(&vec![20, 20, 20]), Some(3));
    assert_eq!(polycolorpuzzles::utils::nice_coloring(&vec![20, 20, 19]), None);
    assert_eq!(polycolorpuzzles::utils::nice_coloring(&vec![20, 20]), None);
    assert_eq!(polycolorpuzzles::utils::nice_coloring(&vec![20, 20, 20, 20]), None);
}

#[test]
fn nice_coloring_of_four_classes_of_fifteen() {
    assert_eq!(polycolorpuzzles::utils::nice_coloring(&vec![15, 15, 15, 15]), Some(4));
    assert_eq!(polycolorpuzzles::utils::nice_coloring(&vec![15, 15, 15, 14]), None);
    assert_eq!(polycolorpuzzles::utils::nice_coloring(&vec![15, 15, 15]), None);
    assert_eq!(polycolorpuzzles::utils::nice_coloring(&vec![15, 20, 10, 15]), None);
    assert_eq!(polycolorpuzzles::utils::nice_coloring(&Vec::new()), None);
}

#[test]
fn valid_variations_are_kept_in_order() {
    let library = vec![vec![build_flat_l(), build_l()], vec![build_x()]];
    let good = build_board();
    let mut bad = build_board();
    bad.set_color(2, 2, '1');
    let mut other_good = build_board();
    other_good.get_polyomino_mut(0).set_id(5);

    let valid = polycolorpuzzles::utils::valid_solution_variations(
        &vec![bad.clone(), good.clone(), bad.clone(), other_good.clone()],
        &library,
    );

    assert_eq!(valid.len(), 2);
    assert_eq!(valid[0].get_polyomino(0).get_id(), 0);
    assert_eq!(valid[1].get_polyomino(0).get_id(), 5);
    assert_eq!(colors(&valid[0]), colors(&good));

    assert!(polycolorpuzzles::utils::valid_solution_variations(&vec![bad], &library).is_empty());
    assert!(polycolorpuzzles::utils::valid_solution_variations(&Vec::new(), &library).is_empty());
}
