//! The squares of the nodes, in machine integers.

use crate::area::Area;
use crate::point::Point;
use crate::shape::{Square, OVERLAP};
use vstd::prelude::*;

verus! {

/// Bound on `|center| + 5 * radius` for every node of a tree, on both axes.
/// A root built from an `Area` stays below it and quartering a square never
/// raises the sum, so no node arithmetic leaves the 64-bit range.
pub(crate) const REACH_LIMIT: i64 = 0x8_0000_0000;

/// The square that a node is responsible for. Centers of quarters may fall
/// outside the coordinate range of points, hence the wider fields.
#[derive(Debug, Clone, Copy)]
pub(crate) struct Region {
    pub(crate) cx: i64,
    pub(crate) cy: i64,
    pub(crate) r: i64,
}

/// Whether a square is one that a node may stand for.
pub(crate) open spec fn within_reach(square: Square) -> bool {
    &&& 0 <= square.r
    &&& -REACH_LIMIT <= square.cx - 5 * square.r
    &&& square.cx + 5 * square.r <= REACH_LIMIT
    &&& -REACH_LIMIT <= square.cy - 5 * square.r
    &&& square.cy + 5 * square.r <= REACH_LIMIT
}

/// The quarters of a splittable square within reach are within reach.
pub(crate) proof fn lemma_quarters_within_reach(square: Square)
    requires
        within_reach(square),
        square.splittable(),
    ensures
        within_reach(square.nw()),
        within_reach(square.ne()),
        within_reach(square.sw()),
        within_reach(square.se()),
        0 < square.quarter_radius() < square.r,
{
}

impl Region {
    /// The square, in exact numbers.
    pub(crate) open spec fn square(self) -> Square {
        Square { cx: self.cx as int, cy: self.cy as int, r: self.r as int }
    }

    pub(crate) open spec fn wf(self) -> bool {
        within_reach(self.square())
    }

    pub(crate) fn of_area(area: &Area) -> (region: Region)
        ensures
            region.square() == Square::of(*area),
            region.wf(),
    {
        Region { cx: area.center.x as i64, cy: area.center.y as i64, r: area.radius as i64 }
    }

    pub(crate) fn is_splittable(&self) -> (splittable: bool)
        ensures
            splittable == self.square().splittable(),
    {
        self.r > 2 * (OVERLAP as i64)
    }

    pub(crate) fn contains(&self, point: &Point) -> (inside: bool)
        requires
            self.wf(),
        ensures
            inside == self.square().covers(*point),
    {
        let x: i64 = point.x as i64;
        let y: i64 = point.y as i64;
        let x_inside = x >= self.cx - self.r && x <= self.cx + self.r;
        let y_inside = y >= self.cy - self.r && y <= self.cy + self.r;

        x_inside && y_inside
    }

    pub(crate) fn intersects(&self, area: &Area) -> (meet: bool)
        requires
            self.wf(),
        ensures
            meet == self.square().meets(*area),
    {
        let dx: i64 = self.cx - area.center.x as i64;
        let dy: i64 = self.cy - area.center.y as i64;
        let reach: i64 = self.r + area.radius as i64;

        let x_inter = -reach <= dx && dx <= reach;
        let y_inter = -reach <= dy && dy <= reach;
        x_inter && y_inter
    }
}

} // verus!
