//! The nodes of the tree.

use crate::area::Area;
use crate::closest::{chosen, closest, lemma_closest_concat, measured, min_point};
use crate::point::Point;
use crate::qtree::{InsertError, QueryError};
use crate::region::{lemma_quarters_within_reach, Region};
use crate::seq_facts::{
    lemma_concat_multiset, lemma_filter_all, lemma_filter_multiset, lemma_filter_none,
    lemma_filter_push, lemma_filter_same_len, lemma_filter_split_len, lemma_filter_take_len,
    lemma_split_room, lemma_split_unique, lemma_swap_remove_multiset,
};
use crate::shape::{lemma_quarters_cover, Shape, Square, MAX_POINTS, OVERLAP};
use vstd::pervasive::unreached;
use vstd::prelude::*;

verus! {

#[derive(Debug)]
pub(crate) enum NodeInner {
    Leaf { points: Vec<Point> },
    Intermediate { nw: Box<Node>, ne: Box<Node>, sw: Box<Node>, se: Box<Node> },
}

#[derive(Debug)]
pub(crate) struct Node {
    pub(crate) region: Region,
    pub(crate) inner: NodeInner,
}

/// Every point of `points` lies in `region`.
pub(crate) open spec fn all_within(points: Seq<Point>, region: Square) -> bool {
    forall|i: int| 0 <= i < points.len() ==> region.covers(#[trigger] points[i])
}

/// Adding one point of the region to a collection inside the region,
/// in whatever order, leaves it inside the region.
proof fn lemma_within_after_insert(before: Seq<Point>, after: Seq<Point>, p: Point, region: Square)
    requires
        all_within(before, region),
        region.covers(p),
        after.to_multiset() == before.to_multiset().insert(p),
    ensures
        all_within(after, region),
{
    broadcast use vstd::seq_lib::group_to_multiset_ensures;

    assert forall|i: int| 0 <= i < after.len() implies region.covers(#[trigger] after[i]) by {
        let v = after[i];
        assert(after.contains(v));
        assert(after.to_multiset().count(v) > 0);
        if v != p {
            assert(before.to_multiset().count(v) > 0);
            assert(before.contains(v));
        }
    }
}

/// A collection drawn from one inside the region is inside the region.
proof fn lemma_within_part(whole: Seq<Point>, part: Seq<Point>, region: Square)
    requires
        all_within(whole, region),
        part.to_multiset().subset_of(whole.to_multiset()),
    ensures
        all_within(part, region),
{
    broadcast use vstd::seq_lib::group_to_multiset_ensures;

    assert forall|i: int| 0 <= i < part.len() implies region.covers(#[trigger] part[i]) by {
        let v = part[i];
        assert(part.contains(v));
        assert(part.to_multiset().count(v) <= whole.to_multiset().count(v));
        assert(whole.contains(v));
    }
}

/// A region that does not meet an area holds no point of that area.
pub(crate) proof fn lemma_nothing_inside(points: Seq<Point>, region: Square, area: Area)
    requires
        all_within(points, region),
        !region.meets(area),
    ensures
        area.points_inside(points) == Seq::<Point>::empty(),
        area.points_outside(points) == points,
{
    assert forall|i: int| 0 <= i < points.len() implies !(area.encloses())(
        #[trigger] points[i],
    ) by {
        assert(region.covers(points[i]));
    }
    assert forall|i: int| 0 <= i < points.len() implies (area.excludes())(
        #[trigger] points[i],
    ) by {
        assert(region.covers(points[i]));
    }
    lemma_filter_none(points, area.encloses());
    lemma_filter_all(points, area.excludes());
}

/// What remains of a collection once the points of an area were taken
/// out holds no point of that area.
pub(crate) proof fn lemma_all_outside(before: Seq<Point>, after: Seq<Point>, area: Area)
    requires
        after.to_multiset() == area.points_outside(before).to_multiset(),
    ensures
        area.points_inside(after) == Seq::<Point>::empty(),
{
    broadcast use vstd::seq_lib::group_to_multiset_ensures;
    broadcast use vstd::seq_lib::group_filter_ensures;

    let outer = area.points_outside(before);
    assert forall|i: int| 0 <= i < after.len() implies !(area.encloses())(#[trigger] after[i]) by {
        let v = after[i];
        assert(after.contains(v));
        assert(outer.to_multiset().count(v) > 0);
        assert(outer.contains(v));
        let k = choose|k: int| 0 <= k < outer.len() && outer[k] == v;
        assert((area.excludes())(outer[k]));
    }
    lemma_filter_none(after, area.encloses());
}

/// A tree that holds no point of an area is what it is left as when the
/// points of the area are taken out.
pub(crate) proof fn lemma_cleared_of_nothing(shape: Shape, area: Area)
    requires
        area.points_inside(shape.points()) == Seq::<Point>::empty(),
    ensures
        shape.cleared_to(shape, area),
    decreases shape,
{
    match shape {
        Shape::Leaf { points } => {
            lemma_filter_split_len(points, area.encloses(), area.excludes());
            lemma_filter_same_len(points, area.excludes());
        },
        Shape::Quarters { nw, ne, sw, se } => {
            let pass = area.encloses();
            Seq::filter_distributes_over_add(nw.points(), ne.points(), pass);
            Seq::filter_distributes_over_add(nw.points() + ne.points(), sw.points(), pass);
            Seq::filter_distributes_over_add(
                nw.points() + ne.points() + sw.points(),
                se.points(),
                pass,
            );
            assert(area.points_inside(nw.points()) =~= Seq::<Point>::empty());
            assert(area.points_inside(ne.points()) =~= Seq::<Point>::empty());
            assert(area.points_inside(sw.points()) =~= Seq::<Point>::empty());
            assert(area.points_inside(se.points()) =~= Seq::<Point>::empty());
            lemma_cleared_of_nothing(*nw, area);
            lemma_cleared_of_nothing(*ne, area);
            lemma_cleared_of_nothing(*sw, area);
            lemma_cleared_of_nothing(*se, area);
        },
    }
}

/// `after` differs from `before` at most at the positions `from..to`.
pub(crate) open spec fn same_but(
    before: Seq<Point>,
    after: Seq<Point>,
    from: int,
    to: int,
) -> bool {
    &&& after.len() == before.len()
    &&& forall|i: int|
        0 <= i < before.len() && !(from <= i < to) ==> #[trigger] after[i] == before[i]
}

/// What a traversal of `before` for the points of `area` leaves behind:
/// the node as `after`, and the matches in `res1` at `i0..i1`. A copying
/// traversal lists the matches in stored order and leaves the node alone;
/// a removing one moves them out, in an order of its own.
pub(crate) open spec fn traversed(
    before: Node,
    after: Node,
    area: Area,
    remove: bool,
    res0: Seq<Point>,
    res1: Seq<Point>,
    i0: int,
    i1: int,
) -> bool {
    let found = area.points_inside(before.points());
    let written = res1.subrange(i0, i1);
    &&& 0 <= i0 <= i1 <= res0.len()
    &&& i1 == i0 + found.len()
    &&& same_but(res0, res1, i0, i1)
    &&& !remove ==> written == found && after == before
    &&& remove ==> {
        &&& written.to_multiset() == found.to_multiset()
        &&& after.points().to_multiset() == area.points_outside(before.points()).to_multiset()
        &&& before.shape().cleared_to(after.shape(), area)
    }
}

/// A node whose region misses the area is traversed by passing it over.
proof fn lemma_passed_over(node: Node, area: Area, remove: bool, res: Seq<Point>, i: int)
    requires
        node.wf(),
        !node.region.square().meets(area),
        0 <= i <= res.len(),
    ensures
        traversed(node, node, area, remove, res, res, i, i),
{
    lemma_nothing_inside(node.points(), node.region.square(), area);
    assert(res.subrange(i, i) =~= Seq::<Point>::empty());
    if remove {
        lemma_cleared_of_nothing(node.shape(), area);
    }
}

/// Traversing the four quarters in turn traverses the node they make up.
proof fn lemma_quarters_traversed(
    before: Node,
    after: Node,
    area: Area,
    remove: bool,
    res: Seq<Seq<Point>>,
    at: Seq<int>,
)
    requires
        before.inner is Intermediate,
        after.inner is Intermediate,
        after.region == before.region,
        res.len() == 5,
        at.len() == 5,
        traversed(*before.inner->nw, *after.inner->nw, area, remove, res[0], res[1], at[0], at[1]),
        traversed(*before.inner->ne, *after.inner->ne, area, remove, res[1], res[2], at[1], at[2]),
        traversed(*before.inner->sw, *after.inner->sw, area, remove, res[2], res[3], at[2], at[3]),
        traversed(*before.inner->se, *after.inner->se, area, remove, res[3], res[4], at[3], at[4]),
    ensures
        traversed(before, after, area, remove, res[0], res[4], at[0], at[4]),
{
    let a = before.inner->nw.points();
    let b = before.inner->ne.points();
    let c = before.inner->sw.points();
    let d = before.inner->se.points();
    let pass = area.encloses();
    let fail = area.excludes();
    Seq::filter_distributes_over_add(a, b, pass);
    Seq::filter_distributes_over_add(a + b, c, pass);
    Seq::filter_distributes_over_add(a + b + c, d, pass);
    Seq::filter_distributes_over_add(a, b, fail);
    Seq::filter_distributes_over_add(a + b, c, fail);
    Seq::filter_distributes_over_add(a + b + c, d, fail);
    let w1 = res[1].subrange(at[0], at[1]);
    let w2 = res[2].subrange(at[1], at[2]);
    let w3 = res[3].subrange(at[2], at[3]);
    let w4 = res[4].subrange(at[3], at[4]);
    let written = res[4].subrange(at[0], at[4]);
    assert(written =~= w1 + w2 + w3 + w4);
    if remove {
        lemma_concat_multiset(w1, w2, w3, w4);
        lemma_concat_multiset(a.filter(pass), b.filter(pass), c.filter(pass), d.filter(pass));
        lemma_concat_multiset(a.filter(fail), b.filter(fail), c.filter(fail), d.filter(fail));
        lemma_concat_multiset(
            after.inner->nw.points(),
            after.inner->ne.points(),
            after.inner->sw.points(),
            after.inner->se.points(),
        );
    } else {
        assert(after.inner == before.inner);
    }
}

impl Node {
    /// The tree below this node, as a mathematical value.
    pub(crate) open spec fn shape(self) -> Shape
        decreases self,
    {
        match self.inner {
            NodeInner::Leaf { points } => Shape::Leaf { points: points@ },
            NodeInner::Intermediate { nw, ne, sw, se } => Shape::Quarters {
                nw: Box::new(nw.shape()),
                ne: Box::new(ne.shape()),
                sw: Box::new(sw.shape()),
                se: Box::new(se.shape()),
            },
        }
    }

    pub(crate) open spec fn points(self) -> Seq<Point> {
        self.shape().points()
    }

    /// What holds of every node: its square is within reach and holds all
    /// the points below the node; a leaf is within its limit unless its
    /// square is too small to divide; the children of a divided node stand
    /// for the quarters of its square.
    pub(crate) open spec fn wf(self) -> bool
        decreases self,
    {
        &&& self.region.wf()
        &&& all_within(self.points(), self.region.square())
        &&& match self.inner {
            NodeInner::Leaf { points } => {
                points@.len() <= MAX_POINTS || !self.region.square().splittable()
            },
            NodeInner::Intermediate { nw, ne, sw, se } => {
                &&& self.region.square().splittable()
                &&& nw.region.square() == self.region.square().nw()
                &&& ne.region.square() == self.region.square().ne()
                &&& sw.region.square() == self.region.square().sw()
                &&& se.region.square() == self.region.square().se()
                &&& nw.wf()
                &&& ne.wf()
                &&& sw.wf()
                &&& se.wf()
            },
        }
    }

    pub(crate) open spec fn candidates(self, target: Point) -> Seq<Point> {
        self.shape().candidates(self.region.square(), target)
    }

    /// The tree below a node is one over the square of the node.
    pub(crate) proof fn lemma_shape_fits(self)
        requires
            self.wf(),
        ensures
            self.shape().fits(self.region.square()),
        decreases self,
    {
        match self.inner {
            NodeInner::Leaf { points } => {},
            NodeInner::Intermediate { nw, ne, sw, se } => {
                nw.lemma_shape_fits();
                ne.lemma_shape_fits();
                sw.lemma_shape_fits();
                se.lemma_shape_fits();
            },
        }
    }

    /// A search sees stored points only.
    pub(crate) proof fn lemma_candidates_stored(self, target: Point)
        requires
            self.wf(),
        ensures
            self.candidates(target).to_multiset().subset_of(self.points().to_multiset()),
        decreases self,
    {
        broadcast use vstd::seq_lib::group_to_multiset_ensures;

        match self.inner {
            NodeInner::Leaf { points } => {
                let seen = self.candidates(target);
                assert forall|v: Point|
                    seen.to_multiset().count(v) <= #[trigger] points@.to_multiset().count(v) by {
                    if seen.to_multiset().count(v) > 0 {
                        assert(seen.contains(v));
                    }
                }
            },
            NodeInner::Intermediate { nw, ne, sw, se } => {
                nw.lemma_candidates_stored(target);
                ne.lemma_candidates_stored(target);
                sw.lemma_candidates_stored(target);
                se.lemma_candidates_stored(target);
                lemma_concat_multiset(nw.points(), ne.points(), sw.points(), se.points());
                lemma_concat_multiset(
                    nw.candidates(target),
                    ne.candidates(target),
                    sw.candidates(target),
                    se.candidates(target),
                );
            },
        }
    }

    /// Position of a node in the order by which insertion terminates:
    /// a full leaf is split, the split node hands the points down.
    pub(crate) open spec fn rank(self) -> int {
        if self.inner is Leaf {
            2
        } else {
            0
        }
    }

    pub(crate) fn query(
        &mut self,
        area: &Area,
        remove: bool,
        results: &mut [Point],
        idx: &mut usize,
    ) -> (r: Result<(), QueryError>)
        requires
            old(self).wf(),
            *old(idx) + area.points_inside(old(self).points()).len() <= old(results)@.len(),
        ensures
            final(self).wf(),
            final(self).region == old(self).region,
            r is Err <==> !old(self).region.square().meets(*area),
            r is Err ==> *final(self) == *old(self) && final(results)@ == old(results)@,
            r is Err ==> *final(idx) == *old(idx),
            r is Ok ==> traversed(
                *old(self),
                *final(self),
                *area,
                remove,
                old(results)@,
                final(results)@,
                *old(idx) as int,
                *final(idx) as int,
            ),
        decreases old(self).region.r,
    {
        if !self.region.intersects(area) {
            return Err(QueryError::OutsideArea);
        }
        let ghost res0 = results@;
        let ghost at0 = *idx as int;

        match &mut self.inner {
            NodeInner::Intermediate { nw, ne, sw, se } => {
                let ghost a = nw.points();
                let ghost b = ne.points();
                let ghost c = sw.points();
                let ghost d = se.points();
                let ghost pass = area.encloses();
                proof {
                    lemma_quarters_within_reach(old(self).region.square());
                    Seq::filter_distributes_over_add(a, b, pass);
                    Seq::filter_distributes_over_add(a + b, c, pass);
                    Seq::filter_distributes_over_add(a + b + c, d, pass);
                }

                if nw.region.intersects(area) {
                    nw.query(area, remove, results, idx)?;
                } else {
                    proof {
                        lemma_passed_over(**nw, *area, remove, res0, at0);
                    }
                }
                let ghost res1 = results@;
                let ghost at1 = *idx as int;
                if ne.region.intersects(area) {
                    ne.query(area, remove, results, idx)?;
                } else {
                    proof {
                        lemma_passed_over(**ne, *area, remove, res1, at1);
                    }
                }
                let ghost res2 = results@;
                let ghost at2 = *idx as int;
                if sw.region.intersects(area) {
                    sw.query(area, remove, results, idx)?;
                } else {
                    proof {
                        lemma_passed_over(**sw, *area, remove, res2, at2);
                    }
                }
                let ghost res3 = results@;
                let ghost at3 = *idx as int;
                if se.region.intersects(area) {
                    se.query(area, remove, results, idx)?;
                } else {
                    proof {
                        lemma_passed_over(**se, *area, remove, res3, at3);
                    }
                }
                proof {
                    let after = Node {
                        region: old(self).region,
                        inner: NodeInner::Intermediate { nw: *nw, ne: *ne, sw: *sw, se: *se },
                    };
                    lemma_quarters_traversed(
                        *old(self),
                        after,
                        *area,
                        remove,
                        seq![res0, res1, res2, res3, results@],
                        seq![at0, at1, at2, at3, *idx as int],
                    );
                    if remove {
                        lemma_filter_multiset(old(self).points(), area.excludes());
                        lemma_within_part(
                            old(self).points(),
                            after.points(),
                            old(self).region.square(),
                        );
                    }
                }
            },
            NodeInner::Leaf { points } => {
                let ghost untouched = *points;
                let ghost whole = points@;
                let ghost pass = area.encloses();
                let ghost mut taken = Seq::<Point>::empty();
                let mut i: usize = 0;
                proof {
                    broadcast use vstd::seq_lib::group_to_multiset_ensures;

                    lemma_filter_none(whole.take(0), pass);
                    assert(results@.subrange(at0, at0) =~= taken);
                    assert(points@.to_multiset().add(taken.to_multiset()) =~= whole.to_multiset());
                }
                while i < points.len()
                    invariant
                        i <= points@.len(),
                        whole == untouched@,
                        whole == old(self).points(),
                        pass == area.encloses(),
                        at0 + area.points_inside(whole).len() <= res0.len(),
                        0 <= at0 <= *idx <= res0.len(),
                        same_but(res0, results@, at0, *idx as int),
                        results@.subrange(at0, *idx as int) == taken,
                        !remove ==> *points == untouched && taken == whole.take(i as int).filter(
                            pass,
                        ),
                        remove ==> points@.to_multiset().add(taken.to_multiset())
                            == whole.to_multiset(),
                        remove ==> forall|j: int| 0 <= j < i ==> !pass(#[trigger] points@[j]),
                        remove ==> forall|j: int|
                            0 <= j < taken.len() ==> pass(#[trigger] taken[j]),
                    decreases points@.len() - i,
                {
                    if !area.is_point_inside(&points[i]) {
                        proof {
                            if !remove {
                                assert(whole.take(i + 1) == whole.take(i as int).push(
                                    whole[i as int],
                                ));
                                lemma_filter_push(whole.take(i as int), whole[i as int], pass);
                            }
                        }
                        i += 1;
                    } else {
                        proof {
                            if remove {
                                lemma_split_room(whole, points@, taken, pass, i as int);
                                lemma_swap_remove_multiset(points@, i as int);
                            } else {
                                assert(whole.take(i + 1) == whole.take(i as int).push(
                                    whole[i as int],
                                ));
                                lemma_filter_push(whole.take(i as int), whole[i as int], pass);
                                lemma_filter_take_len(whole, i + 1, pass);
                            }
                        }
                        let point = if remove {
                            points.swap_remove(i)
                        } else {
                            let point = points[i];
                            i += 1;
                            point
                        };
                        results[*idx] = point;
                        *idx += 1;
                        proof {
                            broadcast use vstd::seq_lib::group_to_multiset_ensures;

                            assert(results@.subrange(at0, *idx as int) =~= taken.push(point));
                            taken = taken.push(point);
                        }
                    }
                }
                proof {
                    if remove {
                        lemma_split_unique(whole, points@, taken, pass, area.excludes());
                        lemma_filter_multiset(whole, area.excludes());
                        lemma_within_part(whole, points@, old(self).region.square());
                        whole.lemma_filter_len(area.excludes());
                        points@.to_multiset_ensures();
                        area.points_outside(whole).to_multiset_ensures();
                    } else {
                        assert(whole.take(i as int) == whole);
                    }
                }
            },
        }

        Ok(())
    }

    pub(crate) fn nearest(&self, point: &Point) -> (r: Result<Option<(u128, &Point)>, QueryError>)
        requires
            self.wf(),
        ensures
            r is Err <==> !self.region.square().covers(*point),
            r matches Ok(found) ==> chosen(found) == closest(self.candidates(*point), *point)
                && measured(found, *point),
        decreases self,
    {
        if !self.region.contains(point) {
            return Err(QueryError::OutsideArea);
        }
        let res = match &self.inner {
            NodeInner::Intermediate { nw, ne, sw, se } => {
                let ghost a = nw.candidates(*point);
                let ghost b = ne.candidates(*point);
                let ghost c = sw.candidates(*point);
                let ghost d = se.candidates(*point);
                proof {
                    lemma_closest_concat(a, b, *point);
                    lemma_closest_concat(a + b, c, *point);
                    lemma_closest_concat(a + b + c, d, *point);
                }
                let mut res = None;

                if nw.region.contains(point) {
                    res = min_point(res, nw.nearest(point)?);
                }
                if ne.region.contains(point) {
                    res = min_point(res, ne.nearest(point)?);
                }
                if sw.region.contains(point) {
                    res = min_point(res, sw.nearest(point)?);
                }
                if se.region.contains(point) {
                    res = min_point(res, se.nearest(point)?);
                }

                res
            },
            NodeInner::Leaf { points } => {
                let mut acc: Option<(u128, &Point)> = None;
                let mut i: usize = 0;
                while i < points.len()
                    invariant
                        i <= points@.len(),
                        chosen(acc) == closest(points@.take(i as int), *point),
                        measured(acc, *point),
                    decreases points@.len() - i,
                {
                    let p = &points[i];
                    let distance = p.distance_sq(point);
                    assert(points@.take(i + 1).drop_last() == points@.take(i as int));
                    acc = min_point(acc, Some((distance, p)));
                    i += 1;
                }
                assert(points@.take(i as int) == points@);
                acc
            },
        };

        Ok(res)
    }

    pub(crate) fn new_leaf(region: Region) -> (node: Self)
        requires
            region.wf(),
        ensures
            node.wf(),
            node.region == region,
            node.shape() == Shape::empty(),
    {
        Self { region, inner: NodeInner::Leaf { points: vec![] } }
    }

    pub(crate) fn insert(&mut self, point: Point) -> (r: Result<(), InsertError>)
        requires
            old(self).wf(),
        ensures
            final(self).wf(),
            final(self).region == old(self).region,
            r is Err <==> !old(self).region.square().covers(point),
            r is Err ==> *final(self) == *old(self),
            r is Ok ==> final(self).points().to_multiset()
                == old(self).points().to_multiset().insert(point),
            r is Ok ==> final(self).shape() == old(self).shape().with_point(
                old(self).region.square(),
                point,
            ),
        decreases old(self).region.r, old(self).rank(),
    {
        if !self.region.contains(&point) {
            return Err(InsertError::OutsideArea);
        }
        let ghost before = old(self).points();
        proof {
            broadcast use vstd::seq_lib::group_to_multiset_ensures;

            if self.inner is Intermediate {
                lemma_quarters_within_reach(self.region.square());
                lemma_quarters_cover(self.region.square(), point);
            }
        }

        match &mut self.inner {
            NodeInner::Intermediate { nw, ne, sw, se } => {
                let ghost a = nw.points();
                let ghost b = ne.points();
                let ghost c = sw.points();
                let ghost d = se.points();
                let r = if nw.region.contains(&point) {
                    let r = nw.insert(point);
                    proof {
                        lemma_concat_multiset(a, b, c, d);
                        lemma_concat_multiset(nw.points(), b, c, d);
                    }
                    r
                } else if ne.region.contains(&point) {
                    let r = ne.insert(point);
                    proof {
                        lemma_concat_multiset(a, b, c, d);
                        lemma_concat_multiset(a, ne.points(), c, d);
                    }
                    r
                } else if sw.region.contains(&point) {
                    let r = sw.insert(point);
                    proof {
                        lemma_concat_multiset(a, b, c, d);
                        lemma_concat_multiset(a, b, sw.points(), d);
                    }
                    r
                } else if se.region.contains(&point) {
                    let r = se.insert(point);
                    proof {
                        lemma_concat_multiset(a, b, c, d);
                        lemma_concat_multiset(a, b, c, se.points());
                    }
                    r
                } else {
                    unreached()
                };
                proof {
                    let after = nw.points() + ne.points() + sw.points() + se.points();
                    assert(after.to_multiset() =~= before.to_multiset().insert(point));
                    lemma_within_after_insert(before, after, point, old(self).region.square());
                }
                r
            },
            NodeInner::Leaf { points } => {
                points.push(point);
                if points.len() > MAX_POINTS && self.region.is_splittable() {
                    self.subdivide();
                }
                Ok(())
            },
        }
    }

    pub(crate) fn subdivide(&mut self)
        requires
            old(self).inner is Leaf,
            old(self).region.wf(),
            old(self).region.square().splittable(),
            all_within(old(self).points(), old(self).region.square()),
        ensures
            final(self).wf(),
            final(self).region == old(self).region,
            final(self).inner is Intermediate,
            final(self).points().to_multiset() == old(self).points().to_multiset(),
            final(self).shape() == Shape::divided(old(self).region.square(), old(self).points()),
        decreases old(self).region.r, 1int,
    {
        let area = &self.region;
        proof {
            lemma_quarters_within_reach(area.square());
        }

        // The quarters reach a little over half of the radius. This means
        // that they overlap a bit, but that's fine: insertion tries them in
        // a fixed order, so a point ends up in only one of them.
        let r: i64 = area.r / 2 + OVERLAP as i64;

        let nw_area = Region { cx: area.cx - r, cy: area.cy - r, r };
        let ne_area = Region { cx: area.cx + r, cy: area.cy - r, r };
        let sw_area = Region { cx: area.cx - r, cy: area.cy + r, r };
        let se_area = Region { cx: area.cx + r, cy: area.cy + r, r };

        let mut curr_leaf = NodeInner::Intermediate {
            nw: Box::new(Node::new_leaf(nw_area)),
            ne: Box::new(Node::new_leaf(ne_area)),
            sw: Box::new(Node::new_leaf(sw_area)),
            se: Box::new(Node::new_leaf(se_area)),
        };
        std::mem::swap(&mut curr_leaf, &mut self.inner);

        match curr_leaf {
            NodeInner::Leaf { points } => {
                let mut i: usize = 0;
                assert(self.points() =~= points@.take(0));
                while i < points.len()
                    invariant
                        i <= points@.len(),
                        points@ == old(self).points(),
                        self.wf(),
                        self.inner is Intermediate,
                        self.region == old(self).region,
                        all_within(points@, self.region.square()),
                        self.points().to_multiset() == points@.take(i as int).to_multiset(),
                        self.shape() == Shape::divided(
                            self.region.square(),
                            points@.take(i as int),
                        ),
                    decreases points@.len() - i,
                {
                    let p = points[i];
                    proof {
                        broadcast use vstd::seq_lib::group_to_multiset_ensures;

                        assert(points@.take(i + 1) == points@.take(i as int).push(p));
                        assert(points@.take(i + 1).drop_last() == points@.take(i as int));
                    }
                    match self.insert(p) {
                        Ok(()) => {},
                        Err(_) => unreached(),
                    }
                    i += 1;
                }
                assert(points@.take(i as int) == points@);
            },
            NodeInner::Intermediate { .. } => unreached(),
        }
    }

    pub(crate) fn size(&self) -> (n: usize)
        requires
            self.points().len() <= usize::MAX,
        ensures
            n == self.points().len(),
        decreases self,
    {
        match &self.inner {
            NodeInner::Leaf { points } => points.len(),
            NodeInner::Intermediate { nw, ne, sw, se } => {
                nw.size() + ne.size() + sw.size() + se.size()
            },
        }
    }
}

} // verus!
