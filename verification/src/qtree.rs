//! Implementation of quad tree data structure.
//!
//! This is a very specific implementation that allows
//! for zero allocation query and removal of points in
//! a single operation.

use crate::area::Area;
use crate::node::{lemma_all_outside, lemma_nothing_inside, Node};
use crate::point::Point;
use crate::region::Region;
use crate::seq_facts::{
    lemma_filter_all, lemma_filter_none, lemma_filter_split_len, lemma_part_len,
};
use vstd::prelude::*;

pub use crate::closest::{closest, lemma_closest_is_least, nearer};
pub use crate::shape::{
    lemma_divided_keeps_all, lemma_handed_down_keeps_all, lemma_quarters_cover,
    lemma_with_point_keeps_all, Shape, Square, MAX_POINTS, OVERLAP,
};

verus! {

#[derive(Debug, PartialEq, Eq)]
pub enum InsertError {
    /// Inserted point is outside of the tree area.
    OutsideArea,
}

#[derive(Debug, PartialEq, Eq)]
pub enum QueryError {
    /// Queried area does not intersect with tree area.
    OutsideArea,
}

/// A quad tree over the points of one area.
pub struct QuadTree {
    area: Area,
    root: Node,
}

impl View for QuadTree {
    type V = Seq<Point>;

    /// The stored points, in the order in which a query over the whole
    /// area lists them.
    open spec fn view(&self) -> Seq<Point> {
        self.shape().points()
    }
}

impl QuadTree {
    /// What holds of every tree: the root stands for the area, the nodes
    /// divide it into quarters of quarters, every point lies in the square
    /// of each node above it, and the points can be counted in a `usize`.
    #[verifier::type_invariant]
    pub closed spec fn wf(self) -> bool {
        &&& self.root.wf()
        &&& self.root.region.square() == Square::of(self.area)
        &&& self.root.points().len() <= usize::MAX
    }

    /// The area that the tree was made for.
    pub closed spec fn area(self) -> Area {
        self.area
    }

    /// How the tree divides its area, and where its points rest.
    pub closed spec fn shape(self) -> Shape {
        self.root.shape()
    }

    /// Whether the area has been divided into quarters. A tree that never
    /// held more than `MAX_POINTS` points has not.
    pub open spec fn is_subdivided(self) -> bool {
        self.shape() is Quarters
    }

    /// The stored points among which `nearest` looks for the neighbour of
    /// `target`.
    pub open spec fn candidates(self, target: Point) -> Seq<Point> {
        self.shape().candidates(Square::of(self.area()), target)
    }

    /// Construct a new quad tree to insert points from specific bounds.
    ///
    /// This tree will only be able to insert and query points inside this area.
    /// Inserting points outside of the provided area will result in an error!
    pub fn new(area: Area) -> (tree: Self)
        ensures
            tree.wf(),
            tree.area() == area,
            tree.shape() == Shape::empty(),
    {
        let root = Node::new_leaf(Region::of_area(&area));
        Self { area, root }
    }

    /// Returns the number of points in the tree.
    pub fn size(&self) -> (n: usize)
        ensures
            n == self@.len(),
    {
        proof {
            use_type_invariant(self);
        }
        self.root.size()
    }

    /// Hands out the root for an operation that changes it, leaving an
    /// empty leaf in its place until the root is put back.
    fn take_root(&mut self) -> (root: Node)
        ensures
            root == old(self).root,
            final(self).area == old(self).area,
            final(self).root.region == old(self).root.region,
    {
        proof {
            use_type_invariant(&*self);
        }
        let mut root = Node::new_leaf(Region::of_area(&self.area));
        std::mem::swap(&mut root, &mut self.root);
        root
    }

    /// Insert a new point into the tree.
    ///
    /// A point outside of the tree area is refused and the tree stays as
    /// it was.
    pub fn insert(&mut self, point: Point) -> (r: Result<(), InsertError>)
        requires
            old(self)@.len() < usize::MAX,
        ensures
            final(self).wf(),
            final(self).area() == old(self).area(),
            r is Err <==> !old(self).area().spec_is_point_inside(point),
            r is Err ==> *final(self) == *old(self),
            r is Ok ==> final(self)@.to_multiset() == old(self)@.to_multiset().insert(point),
            r is Ok ==> final(self)@.len() == old(self)@.len() + 1,
            r is Ok ==> final(self)@.contains(point),
            r is Ok ==> final(self).shape() == old(self).shape().with_point(
                Square::of(old(self).area()),
                point,
            ),
    {
        proof {
            use_type_invariant(&*self);
        }
        let mut root = self.take_root();
        let ghost before = root.points();
        let r = root.insert(point);
        proof {
            before.to_multiset_ensures();
            root.points().to_multiset_ensures();
            if r is Ok {
                assert(root.points().to_multiset().count(point) > 0);
            }
        }
        self.root = root;
        r
    }

    /// Queries points inside the given area.
    ///
    /// Points are copied from the tree and put into `results`.
    /// The method returns number of points that have been written to results.
    /// In other words, you are interested in `results[..return_value]`
    ///
    /// `results` must have room for all the points of the area.
    pub fn query(&mut self, area: &Area, results: &mut [Point]) -> (r: Result<usize, QueryError>)
        requires
            old(self).area().spec_intersects(*area) ==> area.points_inside(old(self)@).len()
                <= old(results)@.len(),
        ensures
            *final(self) == *old(self),
            final(results)@.len() == old(results)@.len(),
            r is Err <==> !old(self).area().spec_intersects(*area),
            r is Err ==> final(results)@ == old(results)@,
            r matches Ok(n) ==> {
                &&& n == area.points_inside(old(self)@).len()
                &&& final(results)@.subrange(0, n as int) == area.points_inside(old(self)@)
                &&& forall|i: int|
                    n <= i < old(results)@.len() ==> final(results)@[i] == old(results)@[i]
            },
    {
        proof {
            use_type_invariant(&*self);
            if !self.root.region.square().meets(*area) {
                lemma_nothing_inside(self.root.points(), self.root.region.square(), *area);
            }
        }
        let mut root = self.take_root();
        let mut idx: usize = 0;
        let r = root.query(area, false, results, &mut idx);
        self.root = root;
        match r {
            Ok(()) => Ok(idx),
            Err(e) => Err(e),
        }
    }

    /// Queries points inside the given area and removes them.
    ///
    /// Points are removed from the tree and put into `results`.
    /// The method returns number of points that have been written to results.
    /// In other words, you are interested in `results[..return_value]`
    ///
    /// `results` must have room for all the points of the area.
    pub fn query_remove(&mut self, area: &Area, results: &mut [Point]) -> (r: Result<
        usize,
        QueryError,
    >)
        requires
            old(self).area().spec_intersects(*area) ==> area.points_inside(old(self)@).len()
                <= old(results)@.len(),
        ensures
            final(self).wf(),
            final(self).area() == old(self).area(),
            final(results)@.len() == old(results)@.len(),
            r is Err <==> !old(self).area().spec_intersects(*area),
            r is Err ==> *final(self) == *old(self) && final(results)@ == old(results)@,
            r matches Ok(n) ==> {
                &&& n == area.points_inside(old(self)@).len()
                &&& final(results)@.subrange(0, n as int).to_multiset() == area.points_inside(
                    old(self)@,
                ).to_multiset()
                &&& forall|i: int|
                    n <= i < old(results)@.len() ==> final(results)@[i] == old(results)@[i]
                &&& old(self).shape().cleared_to(final(self).shape(), *area)
                &&& final(self)@.to_multiset() == area.points_outside(old(self)@).to_multiset()
                &&& final(self)@.len() == old(self)@.len() - n
                &&& area.points_inside(final(self)@) == Seq::<Point>::empty()
            },
    {
        proof {
            use_type_invariant(&*self);
            if !self.root.region.square().meets(*area) {
                lemma_nothing_inside(self.root.points(), self.root.region.square(), *area);
            }
        }
        let mut root = self.take_root();
        let ghost before = root.points();
        let mut idx: usize = 0;

        let r = root.query(area, true, results, &mut idx);
        proof {
            if r is Ok {
                lemma_filter_split_len(before, area.encloses(), area.excludes());
                root.points().to_multiset_ensures();
                area.points_outside(before).to_multiset_ensures();
                lemma_all_outside(before, root.points(), *area);
            }
        }
        self.root = root;

        match r {
            Ok(()) => Ok(idx),
            Err(e) => Err(e),
        }
    }

    /// Finds the point nearest to the given point.
    ///
    /// Point by which you query, has to be in the area of the tree.
    /// The search goes down from the root into each quarter whose square
    /// holds that point, NW, NE, SW, SE, and looks at the leaves it gets
    /// to. Of several points at the least distance the first met is
    /// returned. If those leaves are empty, None is returned: always so
    /// if the tree is empty.
    pub fn nearest<'a>(&'a self, point: &Point) -> (r: Result<Option<&'a Point>, QueryError>)
        ensures
            r is Err <==> !self.area().spec_is_point_inside(*point),
            r matches Ok(found) ==> match found {
                Some(p) => closest(self.candidates(*point), *point) == Some(*p),
                None => closest(self.candidates(*point), *point) is None,
            },
    {
        proof {
            use_type_invariant(self);
        }
        match self.root.nearest(point) {
            Ok(Some((_, p))) => Ok(Some(p)),
            Ok(None) => Ok(None),
            Err(e) => Err(e),
        }
    }
}

/// Every tree is one over its area: its leaves hold points of their own
/// squares only, and it is divided where squares are splittable.
pub proof fn lemma_tree_fits(tree: QuadTree)
    requires
        tree.wf(),
    ensures
        tree.shape().fits(Square::of(tree.area())),
{
    tree.root.lemma_shape_fits();
}

/// A stored point is found by every query whose area holds it: such a
/// query does not fail, and lists the point.
pub proof fn lemma_stored_point_is_found(tree: QuadTree, point: Point, area: Area)
    requires
        tree.wf(),
        tree@.contains(point),
        area.spec_is_point_inside(point),
    ensures
        tree.area().spec_intersects(area),
        area.points_inside(tree@).contains(point),
{
    broadcast use vstd::seq_lib::group_filter_ensures;

    let i = choose|i: int| 0 <= i < tree@.len() && tree@[i] == point;
    assert(tree.root.region.square().covers(tree@[i]));
    assert((area.encloses())(tree@[i]));
}

/// A query over the area of the tree lists every stored point, each as
/// often as it is stored, whichever leaves the points have come to rest in.
pub proof fn lemma_whole_area_holds_all(tree: QuadTree)
    requires
        tree.wf(),
    ensures
        tree.area().spec_intersects(tree.area()),
        tree.area().points_inside(tree@) == tree@,
        tree.area().points_outside(tree@) == Seq::<Point>::empty(),
{
    let area = tree.area();
    assert forall|i: int| 0 <= i < tree@.len() implies (area.encloses())(#[trigger] tree@[i]) by {
        assert(tree.root.region.square().covers(tree@[i]));
    }
    assert forall|i: int| 0 <= i < tree@.len() implies !(area.excludes())(#[trigger] tree@[i]) by {
        assert(tree.root.region.square().covers(tree@[i]));
    }
    lemma_filter_all(tree@, area.encloses());
    lemma_filter_none(tree@, area.excludes());
}

/// The search for a neighbour looks at stored points only.
pub proof fn lemma_candidates_are_stored(tree: QuadTree, target: Point)
    requires
        tree.wf(),
    ensures
        tree.candidates(target).to_multiset().subset_of(tree@.to_multiset()),
        tree.candidates(target).len() <= tree@.len(),
        forall|i: int|
            0 <= i < tree.candidates(target).len() ==> tree@.contains(
                #[trigger] tree.candidates(target)[i],
            ),
{
    broadcast use vstd::seq_lib::group_to_multiset_ensures;

    let seen = tree.candidates(target);
    tree.root.lemma_candidates_stored(target);
    assert forall|i: int| 0 <= i < seen.len() implies tree@.contains(#[trigger] seen[i]) by {
        assert(seen.contains(seen[i]));
        assert(seen.to_multiset().count(seen[i]) <= tree@.to_multiset().count(seen[i]));
    }
    lemma_part_len(seen.to_multiset(), tree@.to_multiset());
}

/// In a tree that was never subdivided the search looks at every stored
/// point.
pub proof fn lemma_candidates_of_undivided(tree: QuadTree, target: Point)
    requires
        !tree.is_subdivided(),
        tree.area().spec_is_point_inside(target),
    ensures
        tree.candidates(target) == tree@,
{
}

/// `nearest` on an empty tree finds nothing.
pub proof fn lemma_nearest_of_none(tree: QuadTree, target: Point)
    requires
        tree.wf(),
        tree@.len() == 0,
    ensures
        closest(tree.candidates(target), target) is None,
{
    lemma_candidates_are_stored(tree, target);
}

/// `nearest` on a tree that holds one point, and was never subdivided,
/// finds that point from anywhere in the area.
pub proof fn lemma_nearest_of_one(tree: QuadTree, point: Point, target: Point)
    requires
        !tree.is_subdivided(),
        tree@ == seq![point],
        tree.area().spec_is_point_inside(target),
    ensures
        closest(tree.candidates(target), target) == Some(point),
{
    lemma_candidates_of_undivided(tree, target);
    assert(tree@.last() == point);
    assert(closest(tree@.drop_last(), target) is None);
}

} // verus!
