use std::cmp::Ordering;

use polycolorpuzzles::colorpoint::make_color;
use polycolorpuzzles::colorpoint::ColorPoint;
use polycolorpuzzles::colorpoint::PaletteColor;

#[test]
fn pt_eq_self() {
    let p = ColorPoint::build_point(0, 0, '0');

    assert!(p == p);
}

#[test]
fn pt_eq_same() {
    let first = ColorPoint::build_point(0, 0, '0');
    let second = ColorPoint::build_point(0, 0, '0');

    assert!(first == second);
}

#[test]
fn pt_color_mismatch() {
    let first = ColorPoint::build_point(0, 0, '0');
    let second = ColorPoint::build_point(0, 0, '1');

    assert!(first != second);
}

#[test]
fn pt_position_mismatch() {
    assert!(ColorPoint::build_point(0, 0, '0') != ColorPoint::build_point(1, 0, '0'));
    assert!(ColorPoint::build_point(0, 0, '0') != ColorPoint::build_point(0, 1, '0'));
}

#[test]
fn new_point_has_default_color() {
    let p = ColorPoint::new(3, -4);

    assert_eq!(p.x(), 3);
    assert_eq!(p.y(), -4);
    assert_eq!(p.get_color(), '0');
    assert_eq!(p, ColorPoint::build_point(3, -4, '0'));
}

#[test]
fn setters_change_one_field() {
    let mut p = ColorPoint::build_point(1, 2, 'a');

    p.set_x(7);
    assert_eq!(p, ColorPoint::build_point(7, 2, 'a'));
    p.set_y(-9);
    assert_eq!(p, ColorPoint::build_point(7, -9, 'a'));
    p.set_color('z');
    assert_eq!(p, ColorPoint::build_point(7, -9, 'z'));
}

#[test]
fn points_order_by_x_then_y_then_color() {
    let p = ColorPoint::build_point(1, 5, 'b');

    assert_eq!(p.partial_cmp(&ColorPoint::build_point(2, 0, 'a')), Some(Ordering::Less));
    assert_eq!(p.partial_cmp(&ColorPoint::build_point(0, 9, 'z')), Some(Ordering::Greater));
    assert_eq!(p.partial_cmp(&ColorPoint::build_point(1, 6, 'a')), Some(Ordering::Less));
    assert_eq!(p.partial_cmp(&ColorPoint::build_point(1, 4, 'z')), Some(Ordering::Greater));
    assert_eq!(p.partial_cmp(&ColorPoint::build_point(1, 5, 'c')), Some(Ordering::Less));
    assert_eq!(p.partial_cmp(&ColorPoint::build_point(1, 5, 'a')), Some(Ordering::Greater));
    assert_eq!(p.partial_cmp(&ColorPoint::build_point(1, 5, 'b')), Some(Ordering::Equal));
    assert!(ColorPoint::build_point(-1, 0, '0') < ColorPoint::build_point(0, -1, '0'));
}

#[test]
fn derived_order_agrees_with_partial_order() {
    let points = [
        ColorPoint::build_point(0, 0, '0'),
        ColorPoint::build_point(0, 0, '1'),
        ColorPoint::build_point(0, 1, '0'),
        ColorPoint::build_point(1, -3, '9'),
        ColorPoint::build_point(-2, 7, 'a'),
    ];
    for a in points.iter() {
        for b in points.iter() {
            assert_eq!(Some(a.cmp(b)), a.partial_cmp(b));
        }
    }
}

#[test]
fn palette_of_the_four_colors() {
    assert_eq!(make_color('0'), PaletteColor::Red);
    assert_eq!(make_color('1'), PaletteColor::Blue);
    assert_eq!(make_color('2'), PaletteColor::Yellow);
    assert_eq!(make_color('3'), PaletteColor::Green);
}

#[test]
fn palette_of_any_other_symbol_is_black() {
    assert_eq!(make_color('4'), PaletteColor::Black);
    assert_eq!(make_color('a'), PaletteColor::Black);
    assert_eq!(make_color(' '), PaletteColor::Black);
}
