//! A piece: a normalised list of coloured points with a numeric identity.

use vstd::prelude::*;

use crate::colorpoint::precedes;
use crate::colorpoint::ColorPoint;

verus! {

/// What a piece holds: its identity and its points in order.
pub struct Piece {
    pub id: usize,
    pub points: Seq<ColorPoint>,
}

/// A list of points in strictly increasing order: sorted, with nothing twice.
pub open spec fn normalized(points: Seq<ColorPoint>) -> bool {
    forall|i: int, j: int|
        0 <= i < j < points.len() ==> precedes(#[trigger] points[i], #[trigger] points[j])
}

/// Two normalised lists with the same elements are the same list: to say that
/// a list is normalised and which elements it has is to say what it is.
pub proof fn lemma_normalized_unique(a: Seq<ColorPoint>, b: Seq<ColorPoint>)
    requires
        normalized(a),
        normalized(b),
        a.to_set() == b.to_set(),
    ensures
        a == b,
    decreases a.len(),
{
    broadcast use vstd::seq_lib::group_seq_properties;

    if a.len() == 0 {
        if b.len() > 0 {
            assert(b.contains(b[0]));
            assert(a.to_set().contains(b[0]));
        }
        assert(a =~= b);
    } else {
        assert(a.contains(a[0]));
        assert(b.to_set().contains(a[0]));
        assert(b.len() > 0);
        assert(b.contains(b[0]));
        assert(a.to_set().contains(b[0]));
        let ia = choose|i: int| 0 <= i < a.len() && a[i] == b[0];
        let ib = choose|i: int| 0 <= i < b.len() && b[i] == a[0];
        assert(a[0] == b[0]) by {
            if ia > 0 && ib > 0 {
                assert(precedes(a[0], a[ia]));
                assert(precedes(b[0], b[ib]));
            }
        }
        let ta = a.skip(1);
        let tb = b.skip(1);
        assert(normalized(ta)) by {
            assert forall|i: int, j: int| 0 <= i < j < ta.len() implies precedes(
                #[trigger] ta[i],
                #[trigger] ta[j],
            ) by {
                assert(precedes(a[i + 1], a[j + 1]));
            }
        }
        assert(normalized(tb)) by {
            assert forall|i: int, j: int| 0 <= i < j < tb.len() implies precedes(
                #[trigger] tb[i],
                #[trigger] tb[j],
            ) by {
                assert(precedes(b[i + 1], b[j + 1]));
            }
        }
        assert(ta.to_set() =~= tb.to_set()) by {
            assert forall|p: ColorPoint| ta.to_set().contains(p) <==> tb.to_set().contains(p) by {
                if ta.contains(p) {
                    let i = choose|i: int| 0 <= i < ta.len() && ta[i] == p;
                    assert(precedes(a[0], a[i + 1]));
                    assert(a.contains(p));
                    assert(b.to_set().contains(p));
                    let j = choose|j: int| 0 <= j < b.len() && b[j] == p;
                    assert(tb[j - 1] == p);
                }
                if tb.contains(p) {
                    let i = choose|i: int| 0 <= i < tb.len() && tb[i] == p;
                    assert(precedes(b[0], b[i + 1]));
                    assert(b.contains(p));
                    assert(a.to_set().contains(p));
                    let j = choose|j: int| 0 <= j < a.len() && a[j] == p;
                    assert(ta[j - 1] == p);
                }
            }
        }
        lemma_normalized_unique(ta, tb);
        assert(a =~= seq![a[0]] + ta);
        assert(b =~= seq![b[0]] + tb);
    }
}

/// Puts `p` in its place in a normalised list, unless it is there already.
fn insert_point(sorted: &mut Vec<ColorPoint>, p: ColorPoint)
    requires
        normalized(old(sorted)@),
    ensures
        normalized(final(sorted)@),
        final(sorted)@.to_set() == old(sorted)@.to_set().insert(p),
{
    broadcast use vstd::seq_lib::group_seq_properties;

    let mut i: usize = 0;
    while i < sorted.len() && sorted[i] < p
        invariant
            i <= sorted.len(),
            *sorted == *old(sorted),
            forall|j: int| 0 <= j < i ==> precedes(#[trigger] sorted@[j], p),
        decreases sorted.len() - i,
    {
        i += 1;
    }
    if i < sorted.len() && sorted[i] == p {
        assert(old(sorted)@.contains(p));
        assert(old(sorted)@.to_set().insert(p) =~= old(sorted)@.to_set());
        return ;
    }
    sorted.insert(i, p);
    proof {
        let before = old(sorted)@;
        let after = sorted@;
        assert forall|a: int, b: int| 0 <= a < b < after.len() implies precedes(
            #[trigger] after[a],
            #[trigger] after[b],
        ) by {
            if a < i && b > i {
                assert(precedes(before[a], before[b - 1]));
            }
            if a == i && b > i + 1 {
                assert(precedes(before[i as int], before[b - 1]));
            }
        }
        assert forall|q: ColorPoint| after.to_set().contains(q) <==> before.to_set().insert(
            p,
        ).contains(q) by {
            if after.contains(q) {
                let k = choose|k: int| 0 <= k < after.len() && after[k] == q;
                if k < i {
                    assert(before[k] == q);
                } else if k > i {
                    assert(before[k - 1] == q);
                }
            }
            if before.contains(q) {
                let k = choose|k: int| 0 <= k < before.len() && before[k] == q;
                if k < i {
                    assert(after[k] == q);
                } else {
                    assert(after[k + 1] == q);
                }
            }
            assert(after[i as int] == p);
        }
        assert(after.to_set() =~= before.to_set().insert(p));
    }
}

/// The normalised list of the points of `points`.
fn normalize(points: Vec<ColorPoint>) -> (sorted: Vec<ColorPoint>)
    ensures
        normalized(sorted@),
        sorted@.to_set() == points@.to_set(),
        normalized(points@) ==> sorted@ == points@,
{
    broadcast use vstd::seq_lib::group_seq_properties;

    let mut sorted: Vec<ColorPoint> = Vec::new();
    let mut i: usize = 0;
    assert(sorted@.to_set() =~= points@.take(0).to_set());
    while i < points.len()
        invariant
            i <= points.len(),
            normalized(sorted@),
            sorted@.to_set() == points@.take(i as int).to_set(),
        decreases points.len() - i,
    {
        insert_point(&mut sorted, points[i]);
        proof {
            let shorter = points@.take(i as int);
            let longer = points@.take(i + 1);
            assert(longer =~= shorter.push(points@[i as int]));
            assert forall|q: ColorPoint| longer.to_set().contains(q) <==> shorter.to_set().insert(
                points@[i as int],
            ).contains(q) by {
                if longer.contains(q) {
                    let k = choose|k: int| 0 <= k < longer.len() && longer[k] == q;
                    if k < i {
                        assert(shorter[k] == q);
                    }
                }
                if shorter.contains(q) {
                    let k = choose|k: int| 0 <= k < shorter.len() && shorter[k] == q;
                    assert(longer[k] == q);
                }
                assert(longer[i as int] == points@[i as int]);
            }
            assert(longer.to_set() =~= shorter.to_set().insert(points@[i as int]));
        }
        i += 1;
    }
    assert(points@.take(i as int) =~= points@);
    proof {
        if normalized(points@) {
            lemma_normalized_unique(sorted@, points@);
        }
    }
    sorted
}

/// A piece: its points, each with the colour of its cell, and an identity
/// that is given to it from outside and says which vertex of a board's graph
/// it is. Two pieces are equal when they have the same identity and the same
/// points with the same colours.
#[derive(Debug, Hash)]
pub struct ColorPolyomino {
    id: usize,
    points: Vec<ColorPoint>,
}

impl View for ColorPolyomino {
    type V = Piece;

    closed spec fn view(&self) -> Piece {
        Piece { id: self.id, points: self.points@ }
    }
}

impl ColorPolyomino {
    /// A piece with identity 0 whose points are those of `points`, sorted and
    /// each kept once. Points that are normalised already stay as they are.
    pub fn new(points: Vec<ColorPoint>) -> (piece: ColorPolyomino)
        ensures
            piece@.id == 0,
            normalized(piece@.points),
            piece@.points.to_set() == points@.to_set(),
            normalized(points@) ==> piece@.points == points@,
    {
        ColorPolyomino { id: 0, points: normalize(points) }
    }

    /// Replaces the points by those of `points`, sorted and each kept once.
    pub fn set_points(&mut self, points: Vec<ColorPoint>)
        ensures
            final(self)@.id == old(self)@.id,
            normalized(final(self)@.points),
            final(self)@.points.to_set() == points@.to_set(),
            normalized(points@) ==> final(self)@.points == points@,
    {
        self.points = normalize(points);
    }

    /// The number of points.
    pub fn len(&self) -> (n: usize)
        ensures
            n == self@.points.len(),
    {
        self.points.len()
    }

    /// An iterator over the points in order.
    pub fn iter(&self) -> (points: std::slice::Iter<'_, ColorPoint>)
        ensures
            vstd::std_specs::slice::into_iter_elts(points) == self@.points,
            vstd::std_specs::iter::IteratorSpec::decrease(&points) is Some,
            vstd::std_specs::iter::IteratorSpec::initial_value_relation(&points, &points),
    {
        broadcast use vstd::std_specs::slice::group_slice_axioms;

        let points = self.points.iter();
        assert(vstd::std_specs::slice::into_iter_elts(points) =~= self.points@);
        points
    }

    /// The point at place `nth`, if there is one.
    pub fn get_nth(&self, nth: usize) -> (point: Option<&ColorPoint>)
        ensures
            nth < self@.points.len() ==> point == Some(&self@.points[nth as int]),
            nth >= self@.points.len() ==> point is None,
    {
        if nth < self.points.len() {
            Some(&self.points[nth])
        } else {
            None
        }
    }

    pub fn set_id(&mut self, id: usize)
        ensures
            final(self)@ == (Piece { id, points: old(self)@.points }),
    {
        self.id = id;
    }

    pub fn get_id(&self) -> (id: usize)
        ensures
            id == self@.id,
    {
        self.id
    }

    /// Gives every point the colour `color`.
    pub fn set_color(&mut self, color: char)
        ensures
            final(self)@ == recolored(old(self)@, color),
    {
        let mut i: usize = 0;
        while i < self.points.len()
            invariant
                i <= self.points.len(),
                self.id == old(self).id,
                self.points.len() == old(self).points.len(),
                forall|j: int|
                    0 <= j < i ==> self.points@[j] == (ColorPoint {
                        color,
                        ..old(self).points@[j]
                    }),
                forall|j: int| i <= j < self.points.len() ==> self.points@[j] == old(self).points@[j],
            decreases self.points.len() - i,
        {
            self.points[i].set_color(color);
            i += 1;
        }
        assert(self.points@ =~= recolored(old(self)@, color).points);
    }

    /// The point at place `nth`, to be changed in place, if there is one.
    pub fn get_nth_mut(&mut self, nth: usize) -> (point: Option<&mut ColorPoint>)
        ensures
            nth >= old(self)@.points.len() ==> point is None && final(self)@ == old(self)@,
            nth < old(self)@.points.len() ==> point is Some && *point.unwrap() == old(self)@.points[nth as int]
                && final(self)@ == (Piece {
                id: old(self)@.id,
                points: old(self)@.points.update(nth as int, *final(point.unwrap())),
            }),
    {
        if nth < self.points.len() {
            Some(&mut self.points[nth])
        } else {
            None
        }
    }
}

/// `piece` with every point given the colour `color`.
pub open spec fn recolored(piece: Piece, color: char) -> Piece {
    Piece {
        id: piece.id,
        points: Seq::new(piece.points.len(), |i: int| ColorPoint { color, ..piece.points[i] }),
    }
}

impl std::ops::Index<usize> for ColorPolyomino {
    type Output = ColorPoint;

    /// The point at place `i`.
    fn index(&self, i: usize) -> (point: &ColorPoint)
        ensures
            *point == self@.points[i as int],
    {
        &self.points[i]
    }
}

impl vstd::std_specs::core::IndexSpecImpl<usize> for ColorPolyomino {
    open spec fn index_req(&self, i: &usize) -> bool {
        *i < self@.points.len()
    }
}

impl std::ops::IndexMut<usize> for ColorPolyomino {
    /// The point at place `i`, to be changed in place.
    fn index_mut(&mut self, i: usize) -> (point: &mut ColorPoint)
        requires
            i < old(self)@.points.len(),
        ensures
            *point == old(self)@.points[i as int],
            final(self)@ == (Piece {
                id: old(self)@.id,
                points: old(self)@.points.update(i as int, *final(point)),
            }),
    {
        &mut self.points[i]
    }
}

impl PartialEq for ColorPolyomino {
    /// Whether two pieces have the same identity and the same points.
    fn eq(&self, other: &Self) -> (same: bool) {
        if self.id != other.id || self.points.len() != other.points.len() {
            return false;
        }
        let mut i: usize = 0;
        while i < self.points.len()
            invariant
                i <= self.points.len(),
                self.points.len() == other.points.len(),
                forall|j: int| 0 <= j < i ==> self.points@[j] == other.points@[j],
            decreases self.points.len() - i,
        {
            if self.points[i] != other.points[i] {
                return false;
            }
            i += 1;
        }
        assert(self.points@ =~= other.points@);
        true
    }
}

impl vstd::std_specs::cmp::PartialEqSpecImpl for ColorPolyomino {
    open spec fn obeys_eq_spec() -> bool {
        true
    }

    open spec fn eq_spec(&self, other: &Self) -> bool {
        self@ == other@
    }
}

impl Eq for ColorPolyomino {

}

impl Clone for ColorPolyomino {
    /// A piece that holds the same.
    fn clone(&self) -> (copy: Self)
        ensures
            copy@ == self@,
    {
        ColorPolyomino { id: self.id, points: self.points.clone() }
    }
}

} // verus!
