use polycolorpuzzles::colorpoint::ColorPoint;
use polycolorpuzzles::colorpolyomino::ColorPolyomino;

fn build_f_pentomino() -> ColorPolyomino {
    let mut v = Vec::new();

    v.push(ColorPoint::build_point(0, 1, 'a'));
    v.push(ColorPoint::build_point(1, 1, 'b'));
    v.push(ColorPoint::build_point(1, 0, 'c'));
    v.push(ColorPoint::build_point(2, 2, 'd'));
    v.push(ColorPoint::build_point(1, 2, 'e'));

    ColorPolyomino::new(v)
}

fn build_l_pentomino() -> ColorPolyomino {
    let mut v = Vec::new();

    v.push(ColorPoint::build_point(0, 0, '0'));
    v.push(ColorPoint::build_point(0, 1, '1'));
    v.push(ColorPoint::build_point(0, 2, '1'));
    v.push(ColorPoint::build_point(0, 3, '1'));
    v.push(ColorPoint::build_point(0, 4, '1'));

    ColorPolyomino::new(v)
}

fn points_of(p: &ColorPolyomino) -> Vec<ColorPoint> {
    p.iter().copied().collect()
}

#[test]
fn l_l() {
    let l = build_l_pentomino();
    assert!(l == l);
}

#[test]
fn test_f() {
    let f = build_f_pentomino();

    assert_eq!(f.get_nth(0).unwrap().get_color(), 'a');
    assert_eq!(f.get_nth(0).unwrap().x(), 0);
    assert_eq!(f.get_nth(0).unwrap().y(), 1);
}

#[test]
fn f_points_come_out_sorted() {
    let f = build_f_pentomino();

    assert_eq!(
        points_of(&f),
        vec![
            ColorPoint::build_point(0, 1, 'a'),
            ColorPoint::build_point(1, 0, 'c'),
            ColorPoint::build_point(1, 1, 'b'),
            ColorPoint::build_point(1, 2, 'e'),
            ColorPoint::build_point(2, 2, 'd'),
        ]
    );
}

#[test]
fn new_piece_has_identity_zero() {
    assert_eq!(build_f_pentomino().get_id(), 0);
    assert_eq!(ColorPolyomino::new(Vec::new()).get_id(), 0);
}

#[test]
fn new_keeps_each_point_once() {
    let p = ColorPolyomino::new(vec![
        ColorPoint::build_point(2, 0, '0'),
        ColorPoint::build_point(0, 0, '0'),
        ColorPoint::build_point(2, 0, '0'),
        ColorPoint::build_point(0, 0, '1'),
        ColorPoint::build_point(0, 0, '0'),
    ]);

    assert_eq!(p.len(), 3);
    assert_eq!(
        points_of(&p),
        vec![
            ColorPoint::build_point(0, 0, '0'),
            ColorPoint::build_point(0, 0, '1'),
            ColorPoint::build_point(2, 0, '0'),
        ]
    );
}

#[test]
fn new_of_nothing_is_empty() {
    let p = ColorPolyomino::new(Vec::new());

    assert_eq!(p.len(), 0);
    assert!(p.get_nth(0).is_none());
    assert_eq!(p.iter().count(), 0);
}

#[test]
fn get_nth_past_the_end_is_none() {
    let l = build_l_pentomino();

    assert_eq!(l.len(), 5);
    assert_eq!(*l.get_nth(4).unwrap(), ColorPoint::build_point(0, 4, '1'));
    assert!(l.get_nth(5).is_none());
}

#[test]
fn set_points_normalizes_and_keeps_identity() {
    let mut p = build_l_pentomino();
    p.set_id(7);
    p.set_points(vec![
        ColorPoint::build_point(1, 1, 'x'),
        ColorPoint::build_point(0, 5, 'y'),
        ColorPoint::build_point(1, 1, 'x'),
    ]);

    assert_eq!(p.get_id(), 7);
    assert_eq!(
        points_of(&p),
        vec![ColorPoint::build_point(0, 5, 'y'), ColorPoint::build_point(1, 1, 'x')]
    );
}

#[test]
fn set_id_changes_identity_only() {
    let mut p = build_f_pentomino();
    let before = points_of(&p);
    p.set_id(42);

    assert_eq!(p.get_id(), 42);
    assert_eq!(points_of(&p), before);
}

#[test]
fn pieces_differ_by_identity() {
    let a = build_l_pentomino();
    let mut b = build_l_pentomino();
    assert!(a == b);
    b.set_id(1);
    assert!(a != b);
}

#[test]
fn pieces_differ_by_color_and_by_length() {
    let a = build_l_pentomino();
    let mut b = build_l_pentomino();
    b.get_nth_mut(4).unwrap().set_color('0');
    assert!(a != b);

    let short = ColorPolyomino::new(vec![ColorPoint::build_point(0, 0, '0')]);
    assert!(a != short);
    assert!(short != a);
}

#[test]
fn set_color_paints_every_point() {
    let mut f = build_f_pentomino();
    f.set_id(3);
    f.set_color('q');

    assert_eq!(f.get_id(), 3);
    assert_eq!(
        points_of(&f),
        vec![
            ColorPoint::build_point(0, 1, 'q'),
            ColorPoint::build_point(1, 0, 'q'),
            ColorPoint::build_point(1, 1, 'q'),
            ColorPoint::build_point(1, 2, 'q'),
            ColorPoint::build_point(2, 2, 'q'),
        ]
    );
}

#[test]
fn get_nth_mut_changes_one_point() {
    let mut l = build_l_pentomino();
    l.get_nth_mut(2).unwrap().set_color('7');

    assert_eq!(*l.get_nth(2).unwrap(), ColorPoint::build_point(0, 2, '7'));
    assert_eq!(*l.get_nth(1).unwrap(), ColorPoint::build_point(0, 1, '1'));
    assert_eq!(*l.get_nth(3).unwrap(), ColorPoint::build_point(0, 3, '1'));
    assert!(l.get_nth_mut(5).is_none());
}

#[test]
fn indexing_reads_and_writes_points() {
    let mut l = build_l_pentomino();

    assert_eq!(l[0], ColorPoint::build_point(0, 0, '0'));
    l[0].set_color('5');
    assert_eq!(l[0], ColorPoint::build_point(0, 0, '5'));
    assert_eq!(l[1], ColorPoint::build_point(0, 1, '1'));
}

#[test]
fn clone_is_equal_and_independent() {
    let source = build_f_pentomino();
    let mut copy = source.clone();
    assert!(copy == source);

    copy.set_color('n');
    assert!(copy != source);
    assert_eq!(source.get_nth(0).unwrap().get_color(), 'a');
}
