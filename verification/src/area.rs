use crate::point::Point;
use vstd::prelude::*;

verus! {

/// Whether `(x, y)` lies in the closed square with center `(cx, cy)` and
/// half-width `r`.
pub open spec fn square_covers(cx: int, cy: int, r: int, x: int, y: int) -> bool {
    &&& cx - r <= x <= cx + r
    &&& cy - r <= y <= cy + r
}

/// Whether two closed squares share at least one location: on both axes
/// the centers are no further apart than the two half-widths together.
pub open spec fn squares_meet(ax: int, ay: int, ar: int, bx: int, by: int, br: int) -> bool {
    &&& -(ar + br) <= ax - bx <= ar + br
    &&& -(ar + br) <= ay - by <= ar + br
}

/// Smallest x coordinate among `points`.
pub open spec fn lowest_x(points: Seq<Point>) -> int
    recommends
        points.len() > 0,
    decreases points.len(),
{
    if points.len() <= 1 {
        points[0].x as int
    } else {
        let rest = lowest_x(points.drop_last());
        if points.last().x < rest {
            points.last().x as int
        } else {
            rest
        }
    }
}

/// Largest x coordinate among `points`.
pub open spec fn highest_x(points: Seq<Point>) -> int
    recommends
        points.len() > 0,
    decreases points.len(),
{
    if points.len() <= 1 {
        points[0].x as int
    } else {
        let rest = highest_x(points.drop_last());
        if points.last().x > rest {
            points.last().x as int
        } else {
            rest
        }
    }
}

/// Smallest y coordinate among `points`.
pub open spec fn lowest_y(points: Seq<Point>) -> int
    recommends
        points.len() > 0,
    decreases points.len(),
{
    if points.len() <= 1 {
        points[0].y as int
    } else {
        let rest = lowest_y(points.drop_last());
        if points.last().y < rest {
            points.last().y as int
        } else {
            rest
        }
    }
}

/// Largest y coordinate among `points`.
pub open spec fn highest_y(points: Seq<Point>) -> int
    recommends
        points.len() > 0,
    decreases points.len(),
{
    if points.len() <= 1 {
        points[0].y as int
    } else {
        let rest = highest_y(points.drop_last());
        if points.last().y > rest {
            points.last().y as int
        } else {
            rest
        }
    }
}

/// The four extremes bound every point of the sequence, and stay within
/// the coordinate range.
pub proof fn lemma_extremes_bound(points: Seq<Point>, i: int)
    requires
        0 <= i < points.len(),
    ensures
        i32::MIN <= lowest_x(points) <= points[i].x <= highest_x(points) <= i32::MAX,
        i32::MIN <= lowest_y(points) <= points[i].y <= highest_y(points) <= i32::MAX,
    decreases points.len(),
{
    if points.len() > 1 {
        if i < points.len() - 1 {
            lemma_extremes_bound(points.drop_last(), i);
        } else {
            lemma_extremes_bound(points.drop_last(), 0);
        }
    }
}

/// Two areas intersect whichever of them is asked.
pub proof fn lemma_intersects_symmetric(a: Area, b: Area)
    ensures
        a.spec_intersects(b) == b.spec_intersects(a),
{
}

/// Square on map with `width = height = 2 * radius`.
#[derive(Debug)]
pub struct Area {
    pub center: Point,
    pub radius: u32,
}

impl Area {
    /// Creates the smallest area around the bounding box of the points:
    /// centered on the box, with half the larger side as radius. Halves
    /// of odd lengths are rounded down for the center and up for the
    /// radius, so that no point is lost.
    pub fn from_points(points: &[Point]) -> (area: Area)
        requires
            points@.len() > 0,
        ensures
            area.center.x == lowest_x(points@) + (highest_x(points@) - lowest_x(points@)) / 2,
            area.center.y == lowest_y(points@) + (highest_y(points@) - lowest_y(points@)) / 2,
            highest_x(points@) - lowest_x(points@) >= highest_y(points@) - lowest_y(points@)
                ==> area.radius == (highest_x(points@) - lowest_x(points@) + 1) / 2,
            highest_x(points@) - lowest_x(points@) < highest_y(points@) - lowest_y(points@)
                ==> area.radius == (highest_y(points@) - lowest_y(points@) + 1) / 2,
            forall|i: int|
                0 <= i < points@.len() ==> area.spec_is_point_inside(#[trigger] points@[i]),
    {
        let mut min_x: i32 = points[0].x;
        let mut min_y: i32 = points[0].y;
        let mut max_x: i32 = points[0].x;
        let mut max_y: i32 = points[0].y;
        let mut n: usize = 1;
        while n < points.len()
            invariant
                1 <= n <= points@.len(),
                min_x == lowest_x(points@.take(n as int)),
                max_x == highest_x(points@.take(n as int)),
                min_y == lowest_y(points@.take(n as int)),
                max_y == highest_y(points@.take(n as int)),
            decreases points@.len() - n,
        {
            let p = &points[n];
            assert(points@.take(n + 1).drop_last() == points@.take(n as int));
            if p.x < min_x {
                min_x = p.x;
            }
            if p.x > max_x {
                max_x = p.x;
            }
            if p.y < min_y {
                min_y = p.y;
            }
            if p.y > max_y {
                max_y = p.y;
            }
            n += 1;
        }
        assert(points@.take(n as int) == points@);
        proof {
            lemma_extremes_bound(points@, 0);
        }

        let width: i64 = max_x as i64 - min_x as i64;
        let height: i64 = max_y as i64 - min_y as i64;
        let side: i64 = if width >= height {
            width
        } else {
            height
        };

        let area = Area {
            center: Point {
                x: (width / 2 + min_x as i64) as i32,
                y: (height / 2 + min_y as i64) as i32,
                data: (),
            },
            radius: ((side + 1) / 2) as u32,
        };
        assert forall|i: int| 0 <= i < points@.len() implies area.spec_is_point_inside(
            #[trigger] points@[i],
        ) by {
            lemma_extremes_bound(points@, i);
        }
        area
    }

    pub open spec fn spec_is_point_inside(self, point: Point) -> bool {
        square_covers(
            self.center.x as int,
            self.center.y as int,
            self.radius as int,
            point.x as int,
            point.y as int,
        )
    }

    pub open spec fn spec_intersects(self, other: Area) -> bool {
        squares_meet(
            self.center.x as int,
            self.center.y as int,
            self.radius as int,
            other.center.x as int,
            other.center.y as int,
            other.radius as int,
        )
    }

    /// The test "lies inside this area", as a predicate on points.
    pub open spec fn encloses(self) -> spec_fn(Point) -> bool {
        |p: Point| self.spec_is_point_inside(p)
    }

    /// The test "lies outside this area", as a predicate on points.
    pub open spec fn excludes(self) -> spec_fn(Point) -> bool {
        |p: Point| !self.spec_is_point_inside(p)
    }

    /// Those of `points` that lie inside this area, in their order.
    pub open spec fn points_inside(self, points: Seq<Point>) -> Seq<Point> {
        points.filter(self.encloses())
    }

    /// Those of `points` that lie outside this area, in their order.
    pub open spec fn points_outside(self, points: Seq<Point>) -> Seq<Point> {
        points.filter(self.excludes())
    }

    /// Returns whether the point is inside the area, borders included.
    pub fn is_point_inside(&self, point: &Point) -> (inside: bool)
        ensures
            inside == self.spec_is_point_inside(*point),
    {
        let cx: i64 = self.center.x as i64;
        let cy: i64 = self.center.y as i64;
        let r: i64 = self.radius as i64;
        let x: i64 = point.x as i64;
        let y: i64 = point.y as i64;
        let x_inside = x >= cx - r && x <= cx + r;
        let y_inside = y >= cy - r && y <= cy + r;

        x_inside && y_inside
    }

    /// Returns whether two areas intersect, touching borders included.
    pub fn intersects(&self, other: &Self) -> (meet: bool)
        ensures
            meet == self.spec_intersects(*other),
    {
        let dx: i64 = self.center.x as i64 - other.center.x as i64;
        let dy: i64 = self.center.y as i64 - other.center.y as i64;
        let reach: i64 = self.radius as i64 + other.radius as i64;

        let x_inter = -reach <= dx && dx <= reach;
        let y_inter = -reach <= dy && dy <= reach;
        x_inter && y_inter
    }
}

} // verus!
