use vstd::prelude::*;

verus! {

/// A point on the map, in hundredths of a metre.
///
/// Point can hold additional data. By default that data is just unit.
#[derive(Debug, Clone, Copy, PartialEq, Eq)]
pub struct Point<T = ()> {
    pub x: i32,
    pub y: i32,
    pub data: T,
}

/// Largest `r` with `r * r <= n`.
fn integer_sqrt(n: u128) -> (r: u64)
    ensures
        r * r <= n < (r + 1) * (r + 1),
{
    let mut lo: u128 = 0;
    let mut hi: u128 = 0x1_0000_0000_0000_0000;
    while hi - lo > 1
        invariant
            lo < hi <= 0x1_0000_0000_0000_0000,
            lo * lo <= n < hi * hi,
        decreases hi - lo,
    {
        let mid: u128 = lo + (hi - lo) / 2;
        assert(mid * mid <= 0xffff_ffff_ffff_ffff * 0xffff_ffff_ffff_ffff) by (nonlinear_arith)
            requires
                0 <= mid <= 0xffff_ffff_ffff_ffff,
        ;
        if mid * mid <= n {
            lo = mid;
        } else {
            hi = mid;
        }
    }
    lo as u64
}

impl<T> Point<T> {
    /// Squared planar distance to `other`; the payloads play no part.
    pub open spec fn spec_distance_sq<U>(self, other: Point<U>) -> int {
        (self.x - other.x) * (self.x - other.x) + (self.y - other.y) * (self.y - other.y)
    }

    /// Returns squared distance between two points.
    pub fn distance_sq<U>(&self, other: &Point<U>) -> (d: u128)
        ensures
            d == self.spec_distance_sq(*other),
    {
        let dx: i128 = self.x as i128 - other.x as i128;
        let dy: i128 = self.y as i128 - other.y as i128;
        assert(0 <= dx * dx <= 0xffff_ffff * 0xffff_ffff) by (nonlinear_arith)
            requires
                -0xffff_ffff <= dx <= 0xffff_ffff,
        ;
        assert(0 <= dy * dy <= 0xffff_ffff * 0xffff_ffff) by (nonlinear_arith)
            requires
                -0xffff_ffff <= dy <= 0xffff_ffff,
        ;
        (dx * dx + dy * dy) as u128
    }

    /// Returns distance between two points, rounded down to a whole
    /// hundredth of a metre.
    pub fn distance<U>(&self, other: &Point<U>) -> (d: u64)
        ensures
            d * d <= self.spec_distance_sq(*other) < (d + 1) * (d + 1),
    {
        integer_sqrt(self.distance_sq(other))
    }
}

} // verus!
