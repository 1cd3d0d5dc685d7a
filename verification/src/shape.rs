//! The tree as a mathematical value: which squares it divides its area
//! into, and which points rest in which of them.

use crate::area::{square_covers, squares_meet, Area};
use crate::point::Point;
use crate::seq_facts::lemma_concat_multiset;
use vstd::prelude::*;

verus! {

/// Max points in leaf node
pub const MAX_POINTS: usize = 1000;

/// Width, in hundredths, by which the quarters of a divided square reach
/// past half of its radius. Neighbouring quarters therefore share a strip,
/// and halving an odd radius loses nothing.
pub const OVERLAP: u32 = 1;

/// A square of the plane, by its center and half of its width.
pub struct Square {
    pub cx: int,
    pub cy: int,
    pub r: int,
}

impl Square {
    /// The square that an area covers.
    pub open spec fn of(area: Area) -> Square {
        Square { cx: area.center.x as int, cy: area.center.y as int, r: area.radius as int }
    }

    /// Whether the point lies in the square, borders included.
    pub open spec fn covers(self, point: Point) -> bool {
        square_covers(self.cx, self.cy, self.r, point.x as int, point.y as int)
    }

    /// Whether the square and the area share a location.
    pub open spec fn meets(self, area: Area) -> bool {
        squares_meet(
            self.cx,
            self.cy,
            self.r,
            area.center.x as int,
            area.center.y as int,
            area.radius as int,
        )
    }

    /// A square is divided only if its quarters come out smaller than
    /// itself.
    pub open spec fn splittable(self) -> bool {
        self.r > 2 * OVERLAP
    }

    /// Half of the radius, widened by the overlap.
    pub open spec fn quarter_radius(self) -> int {
        self.r / 2 + OVERLAP
    }

    /// The north-western quarter: towards smaller `x` and smaller `y`.
    pub open spec fn nw(self) -> Square {
        Square {
            cx: self.cx - self.quarter_radius(),
            cy: self.cy - self.quarter_radius(),
            r: self.quarter_radius(),
        }
    }

    /// The north-eastern quarter: towards larger `x` and smaller `y`.
    pub open spec fn ne(self) -> Square {
        Square {
            cx: self.cx + self.quarter_radius(),
            cy: self.cy - self.quarter_radius(),
            r: self.quarter_radius(),
        }
    }

    /// The south-western quarter: towards smaller `x` and larger `y`.
    pub open spec fn sw(self) -> Square {
        Square {
            cx: self.cx - self.quarter_radius(),
            cy: self.cy + self.quarter_radius(),
            r: self.quarter_radius(),
        }
    }

    /// The south-eastern quarter: towards larger `x` and larger `y`.
    pub open spec fn se(self) -> Square {
        Square {
            cx: self.cx + self.quarter_radius(),
            cy: self.cy + self.quarter_radius(),
            r: self.quarter_radius(),
        }
    }
}

/// The quarters of a splittable square are smaller than the square, and
/// between them they cover all of it.
pub proof fn lemma_quarters_cover(square: Square, point: Point)
    requires
        square.splittable(),
    ensures
        0 < square.quarter_radius() < square.r,
        square.covers(point) ==> square.nw().covers(point) || square.ne().covers(point)
            || square.sw().covers(point) || square.se().covers(point),
{
}

/// What a tree is made of: a leaf with its points in the order it holds
/// them, or the four trees of the quarters of its square.
pub enum Shape {
    Leaf { points: Seq<Point> },
    Quarters { nw: Box<Shape>, ne: Box<Shape>, sw: Box<Shape>, se: Box<Shape> },
}

impl Shape {
    /// The empty leaf.
    pub open spec fn empty() -> Shape {
        Shape::Leaf { points: Seq::empty() }
    }

    /// The stored points: a leaf's in the order it holds them, the
    /// quarters' one after the other, NW, NE, SW, SE.
    pub open spec fn points(self) -> Seq<Point>
        decreases self,
    {
        match self {
            Shape::Leaf { points } => points,
            Shape::Quarters { nw, ne, sw, se } => nw.points() + ne.points() + sw.points()
                + se.points(),
        }
    }

    /// The stored points that a search for the neighbours of `target`
    /// gets to see, when the tree divides `square`: those of the leaves
    /// whose square holds `target`, as do the squares of all the quarters
    /// that they are part of.
    pub open spec fn candidates(self, square: Square, target: Point) -> Seq<Point>
        decreases self,
    {
        if !square.covers(target) {
            Seq::empty()
        } else {
            match self {
                Shape::Leaf { points } => points,
                Shape::Quarters { nw, ne, sw, se } => nw.candidates(square.nw(), target)
                    + ne.candidates(square.ne(), target) + sw.candidates(square.sw(), target)
                    + se.candidates(square.se(), target),
            }
        }
    }

    /// The tree after one more point of `square` has come to rest in it.
    ///
    /// A leaf takes the point behind those it holds. If that makes more
    /// than `MAX_POINTS` and the square is splittable, the leaf is divided.
    /// A divided tree hands the point down.
    pub open spec fn with_point(self, square: Square, point: Point) -> Shape
        decreases square.r, 2int, 0nat,
    {
        match self {
            Shape::Leaf { points } => {
                if points.len() + 1 > MAX_POINTS && square.splittable() {
                    Shape::divided(square, points.push(point))
                } else {
                    Shape::Leaf { points: points.push(point) }
                }
            },
            Shape::Quarters { .. } => self.handed_down(square, point),
        }
    }

    /// A divided tree after it has handed a point down to the first of its
    /// quarters, in the order NW, NE, SW, SE, whose square holds the point.
    pub open spec fn handed_down(self, square: Square, point: Point) -> Shape
        decreases square.r, 0int, 0nat,
    {
        match self {
            Shape::Leaf { .. } => self,
            Shape::Quarters { nw, ne, sw, se } => {
                if !square.splittable() {
                    self
                } else if square.nw().covers(point) {
                    Shape::Quarters { nw: Box::new(nw.with_point(square.nw(), point)), ne, sw, se }
                } else if square.ne().covers(point) {
                    Shape::Quarters { nw, ne: Box::new(ne.with_point(square.ne(), point)), sw, se }
                } else if square.sw().covers(point) {
                    Shape::Quarters { nw, ne, sw: Box::new(sw.with_point(square.sw(), point)), se }
                } else if square.se().covers(point) {
                    Shape::Quarters { nw, ne, sw, se: Box::new(se.with_point(square.se(), point)) }
                } else {
                    self
                }
            },
        }
    }

    /// What becomes of a leaf on `square` that is divided: four empty
    /// quarters, to which its points are handed down one by one in the
    /// order in which the leaf held them.
    pub open spec fn divided(square: Square, points: Seq<Point>) -> Shape
        decreases square.r, 1int, points.len(),
    {
        if points.len() == 0 {
            Shape::Quarters {
                nw: Box::new(Shape::empty()),
                ne: Box::new(Shape::empty()),
                sw: Box::new(Shape::empty()),
                se: Box::new(Shape::empty()),
            }
        } else {
            Shape::divided(square, points.drop_last()).handed_down(square, points.last())
        }
    }

    /// Whether the tree is one over `square`: a leaf holds points of the
    /// square only, nothing but a splittable square is in quarters, and
    /// the quarters of the tree are trees over the quarters of the square.
    pub open spec fn fits(self, square: Square) -> bool
        decreases self,
    {
        match self {
            Shape::Leaf { points } => forall|i: int|
                0 <= i < points.len() ==> square.covers(#[trigger] points[i]),
            Shape::Quarters { nw, ne, sw, se } => {
                &&& square.splittable()
                &&& nw.fits(square.nw())
                &&& ne.fits(square.ne())
                &&& sw.fits(square.sw())
                &&& se.fits(square.se())
            },
        }
    }

    /// Whether `after` is this tree once the points of `area` were taken
    /// out: divided as before, with every leaf keeping, in some order,
    /// those of its points that lie outside the area.
    pub open spec fn cleared_to(self, after: Shape, area: Area) -> bool
        decreases self,
    {
        match (self, after) {
            (Shape::Leaf { points: before }, Shape::Leaf { points: kept }) => kept.to_multiset()
                == area.points_outside(before).to_multiset(),
            (
                Shape::Quarters { nw, ne, sw, se },
                Shape::Quarters { nw: nw_after, ne: ne_after, sw: sw_after, se: se_after },
            ) => {
                &&& nw.cleared_to(*nw_after, area)
                &&& ne.cleared_to(*ne_after, area)
                &&& sw.cleared_to(*sw_after, area)
                &&& se.cleared_to(*se_after, area)
            },
            _ => false,
        }
    }
}


/// A tree that takes a point of its square holds it from then on, once
/// more than before, and all the points that it held, whether or not
/// leaves were divided on the way.
pub proof fn lemma_with_point_keeps_all(shape: Shape, square: Square, point: Point)
    requires
        shape.fits(square),
        square.covers(point),
    ensures
        shape.with_point(square, point).fits(square),
        shape.with_point(square, point).points().to_multiset()
            == shape.points().to_multiset().insert(point),
    decreases square.r, 2int, 0nat,
{
    match shape {
        Shape::Leaf { points } => {
            let all = points.push(point);
            all.to_multiset_ensures();
            points.to_multiset_ensures();
            if points.len() + 1 > MAX_POINTS && square.splittable() {
                lemma_divided_keeps_all(square, all);
            }
        },
        Shape::Quarters { .. } => {
            lemma_handed_down_keeps_all(shape, square, point);
        },
    }
}

/// A divided tree that hands a point of its square down holds it from
/// then on, once more than before, and all the points that it held.
pub proof fn lemma_handed_down_keeps_all(shape: Shape, square: Square, point: Point)
    requires
        shape is Quarters,
        shape.fits(square),
        square.covers(point),
    ensures
        shape.handed_down(square, point) is Quarters,
        shape.handed_down(square, point).fits(square),
        shape.handed_down(square, point).points().to_multiset()
            == shape.points().to_multiset().insert(point),
    decreases square.r, 0int, 0nat,
{
    lemma_quarters_cover(square, point);
    let after = shape.handed_down(square, point);
    if square.nw().covers(point) {
        lemma_with_point_keeps_all(*shape->nw, square.nw(), point);
    } else if square.ne().covers(point) {
        lemma_with_point_keeps_all(*shape->ne, square.ne(), point);
    } else if square.sw().covers(point) {
        lemma_with_point_keeps_all(*shape->sw, square.sw(), point);
    } else {
        lemma_with_point_keeps_all(*shape->se, square.se(), point);
    }
    lemma_concat_multiset(
        shape->nw.points(),
        shape->ne.points(),
        shape->sw.points(),
        shape->se.points(),
    );
    lemma_concat_multiset(
        after->nw.points(),
        after->ne.points(),
        after->sw.points(),
        after->se.points(),
    );
    assert(after.points().to_multiset() =~= shape.points().to_multiset().insert(point));
}

/// Dividing a leaf loses no point and doubles none: the quarters hold,
/// between them, each point as often as the leaf did.
pub proof fn lemma_divided_keeps_all(square: Square, points: Seq<Point>)
    requires
        square.splittable(),
        forall|i: int| 0 <= i < points.len() ==> square.covers(#[trigger] points[i]),
    ensures
        Shape::divided(square, points) is Quarters,
        Shape::divided(square, points).fits(square),
        Shape::divided(square, points).points().to_multiset() == points.to_multiset(),
    decreases square.r, 1int, points.len(),
{
    if points.len() == 0 {
        let none = Shape::empty();
        assert(none.points() =~= points);
        assert(none.fits(square.nw()) && none.fits(square.ne()));
        assert(none.fits(square.sw()) && none.fits(square.se()));
        assert(Shape::divided(square, points).points() =~= points);
    } else {
        let front = points.drop_last();
        lemma_divided_keeps_all(square, front);
        lemma_handed_down_keeps_all(Shape::divided(square, front), square, points.last());
        front.to_multiset_ensures();
        assert(front.push(points.last()) == points);
    }
}

} // verus!
