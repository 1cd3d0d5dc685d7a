//! What it is to be the nearest of some points.

use crate::point::Point;
use vstd::prelude::*;

verus! {

/// The nearer to `target` of two candidates; on equal distances the
/// first of them.
pub open spec fn nearer(a: Option<Point>, b: Option<Point>, target: Point) -> Option<Point> {
    match (a, b) {
        (None, _) => b,
        (Some(_), None) => a,
        (Some(p), Some(q)) => if q.spec_distance_sq(target) < p.spec_distance_sq(target) {
            b
        } else {
            a
        },
    }
}

/// The point of `points` nearest to `target`; among several at the same
/// distance the earliest in the sequence. `None` if there are no points.
pub open spec fn closest(points: Seq<Point>, target: Point) -> Option<Point>
    decreases points.len(),
{
    if points.len() == 0 {
        None
    } else {
        nearer(closest(points.drop_last(), target), Some(points.last()), target)
    }
}

/// `closest` picks an element at the least distance, passing over no
/// earlier element at the same distance.
pub proof fn lemma_closest_is_least(points: Seq<Point>, target: Point)
    ensures
        closest(points, target) is None <==> points.len() == 0,
        closest(points, target) matches Some(p) ==> exists|i: int|
            {
                &&& 0 <= i < points.len()
                &&& #[trigger] points[i] == p
                &&& forall|j: int|
                    0 <= j < points.len() ==> p.spec_distance_sq(target) <= (
                    #[trigger] points[j]).spec_distance_sq(target)
                &&& forall|j: int|
                    0 <= j < i ==> p.spec_distance_sq(target) < (
                    #[trigger] points[j]).spec_distance_sq(target)
            },
    decreases points.len(),
{
    if points.len() > 0 {
        let front = points.drop_last();
        lemma_closest_is_least(front, target);
        let best = closest(points, target)->0;
        match closest(front, target) {
            None => {
                assert(points[points.len() - 1] == best);
            },
            Some(p) => {
                let i = choose|i: int|
                    {
                        &&& 0 <= i < front.len()
                        &&& #[trigger] front[i] == p
                        &&& forall|j: int|
                            0 <= j < front.len() ==> p.spec_distance_sq(target) <= (
                            #[trigger] front[j]).spec_distance_sq(target)
                        &&& forall|j: int|
                            0 <= j < i ==> p.spec_distance_sq(target) < (
                            #[trigger] front[j]).spec_distance_sq(target)
                    };
                assert forall|j: int| 0 <= j < points.len() implies best.spec_distance_sq(target)
                    <= (#[trigger] points[j]).spec_distance_sq(target) by {
                    if j < front.len() {
                        assert(front[j] == points[j]);
                    }
                }
                if points.last().spec_distance_sq(target) < p.spec_distance_sq(target) {
                    let k = points.len() - 1;
                    assert(points[k] == best);
                    assert forall|j: int| 0 <= j < k implies best.spec_distance_sq(target) < (
                    #[trigger] points[j]).spec_distance_sq(target) by {
                        assert(front[j] == points[j]);
                    }
                } else {
                    assert(points[i] == best);
                    assert forall|j: int| 0 <= j < i implies best.spec_distance_sq(target) < (
                    #[trigger] points[j]).spec_distance_sq(target) by {
                        assert(front[j] == points[j]);
                    }
                }
            },
        }
    }
}

/// The closest point of two sequences put together is the nearer of the
/// closest of each.
pub(crate) proof fn lemma_closest_concat(a: Seq<Point>, b: Seq<Point>, target: Point)
    ensures
        closest(a + b, target) == nearer(closest(a, target), closest(b, target), target),
    decreases b.len(),
{
    if b.len() == 0 {
        assert(a + b == a);
    } else {
        assert((a + b).drop_last() == a + b.drop_last());
        lemma_closest_concat(a, b.drop_last(), target);
    }
}

/// What a search result says when distance and borrow are set aside.
pub(crate) open spec fn chosen(found: Option<(u128, &Point)>) -> Option<Point> {
    match found {
        None => None,
        Some((_, p)) => Some(*p),
    }
}

/// A search result pairs a point with its squared distance to `target`.
pub(crate) open spec fn measured(found: Option<(u128, &Point)>, target: Point) -> bool {
    found matches Some((d, p)) ==> d == p.spec_distance_sq(target)
}

pub(crate) fn min_point<'a>(
    a: Option<(u128, &'a Point)>,
    b: Option<(u128, &'a Point)>,
) -> (r: Option<(u128, &'a Point)>)
    ensures
        a is None ==> r == b,
        b is None ==> r == a,
        a matches Some(x) ==> (b matches Some(y) ==> r == if y.0 < x.0 {
            b
        } else {
            a
        }),
{
    match (a, b) {
        (None, None) => None,
        (None, Some(x)) => Some(x),
        (Some(x), None) => Some(x),
        (Some((dist_a, point_a)), Some((dist_b, point_b))) => {
            if dist_b < dist_a {
                Some((dist_b, point_b))
            } else {
                Some((dist_a, point_a))
            }
        },
    }
}

} // verus!
