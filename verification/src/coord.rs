//! Geodetic points held as fixed-point planar vectors.
//!
//! A `Coord` stores latitude and longitude as `i64` microdegrees.  The
//! component-wise vector algebra, the dot product, the squared planar
//! distance and the total order on (longitude, latitude) are all exact;
//! planar distances are the floor of the exact square root, in units.

use vstd::prelude::*;
use crate::arith::{isqrt, mul_wide, sqrt_floor, lemma_sqrt_floor_max, lemma_sqrt_floor_bounds};

verus! {

/// Largest coordinate magnitude the geometry accepts, in microdegrees.
/// Every position on Earth (at most 180 degrees = 180_000_000
/// microdegrees) fits with a wide margin; the bound keeps every
/// intermediate product of the geometry inside `i128`.
pub const COORD_LIMIT: i64 = 1_000_000_000;

/// A geodetic position: latitude and longitude in microdegrees of decimal
/// degree, also used as a planar 2D vector at small scales.
#[derive(Copy, Clone, Debug, PartialEq, Eq, Structural)]
pub struct Coord {
    pub lat: i64,
    pub lon: i64,
}

/// A `Coord` used as a query point.
pub type Point = Coord;

/// Squared planar distance between two points, exactly.
pub open spec fn dist2(p: Coord, q: Coord) -> int {
    (q.lat - p.lat) * (q.lat - p.lat) + (q.lon - p.lon) * (q.lon - p.lon)
}

/// Strict total order on points: by longitude, then by latitude.
pub open spec fn coord_lt(p: Coord, q: Coord) -> bool {
    p.lon < q.lon || (p.lon == q.lon && p.lat < q.lat)
}

impl Coord {
    /// Both components are within the accepted coordinate range.
    pub open spec fn valid(self) -> bool {
        &&& -COORD_LIMIT <= self.lat <= COORD_LIMIT
        &&& -COORD_LIMIT <= self.lon <= COORD_LIMIT
    }

    /// Component-wise vector sum.
    pub fn add(self, other: Coord) -> (r: Coord)
        requires
            self.valid(),
            other.valid(),
        ensures
            r.lat == self.lat + other.lat,
            r.lon == self.lon + other.lon,
    {
        Coord { lat: self.lat + other.lat, lon: self.lon + other.lon }
    }

    /// Component-wise vector difference.
    pub fn sub(self, other: Coord) -> (r: Coord)
        requires
            self.valid(),
            other.valid(),
        ensures
            r.lat == self.lat - other.lat,
            r.lon == self.lon - other.lon,
    {
        Coord { lat: self.lat - other.lat, lon: self.lon - other.lon }
    }

    /// Planar dot product, exactly.
    pub fn dot(&self, o: Coord) -> (r: i128)
        requires
            self.valid(),
            o.valid(),
        ensures
            r == o.lat * self.lat + o.lon * self.lon,
    {
        let a: i128 = mul_wide(
            o.lat as i128,
            self.lat as i128,
            Ghost(COORD_LIMIT as int),
            Ghost(COORD_LIMIT as int),
        );
        let b: i128 = mul_wide(
            o.lon as i128,
            self.lon as i128,
            Ghost(COORD_LIMIT as int),
            Ghost(COORD_LIMIT as int),
        );
        a + b
    }

    /// Total order by longitude, then latitude.
    pub fn cmp(&self, other: &Coord) -> (r: core::cmp::Ordering)
        ensures
            r == core::cmp::Ordering::Less <==> coord_lt(*self, *other),
            r == core::cmp::Ordering::Greater <==> coord_lt(*other, *self),
            r == core::cmp::Ordering::Equal <==> *self == *other,
    {
        if self.lon == other.lon {
            if self.lat < other.lat {
                core::cmp::Ordering::Less
            } else if self.lat > other.lat {
                core::cmp::Ordering::Greater
            } else {
                core::cmp::Ordering::Equal
            }
        } else {
            if self.lon < other.lon {
                core::cmp::Ordering::Less
            } else {
                core::cmp::Ordering::Greater
            }
        }
    }

    /// Planar distance between two points: the floor of the exact square
    /// root of the squared distance, in microdegree units.
    pub fn distance(&self, from: &Coord) -> (r: u64)
        requires
            self.valid(),
            from.valid(),
        ensures
            r == sqrt_floor(dist2(*self, *from)),
            r <= 2_900_000_000,
    {
        let d2: u64 = dist2_exec(self, from);
        isqrt(d2)
    }

    /// Euclidean magnitude of the point taken as a planar vector: the
    /// floor of the exact square root, in microdegree units.
    pub fn norm(&self) -> (r: u64)
        requires
            self.valid(),
        ensures
            r == sqrt_floor(self.lat * self.lat + self.lon * self.lon),
    {
        let origin = Coord { lat: 0, lon: 0 };
        let d2: u64 = dist2_exec(&origin, self);
        isqrt(d2)
    }
}

/// Squared planar distance, computed without overflow.
pub fn dist2_exec(p: &Coord, q: &Coord) -> (r: u64)
    requires
        p.valid(),
        q.valid(),
    ensures
        r == dist2(*p, *q),
        r <= 8_000_000_000_000_000_000,
{
    let dlat: i64 = q.lat - p.lat;
    let dlon: i64 = q.lon - p.lon;
    let a: i128 = mul_wide(
        dlat as i128,
        dlat as i128,
        Ghost(2 * COORD_LIMIT as int),
        Ghost(2 * COORD_LIMIT as int),
    );
    let b: i128 = mul_wide(
        dlon as i128,
        dlon as i128,
        Ghost(2 * COORD_LIMIT as int),
        Ghost(2 * COORD_LIMIT as int),
    );
    proof {
        assert(a >= 0 && b >= 0) by (nonlinear_arith)
            requires
                a == dlat as int * dlat as int,
                b == dlon as int * dlon as int,
        ;
    }
    (a + b) as u64
}

/// The planar distance is symmetric: swapping the two points changes
/// neither the squared distance nor its rounded square root.
pub proof fn lemma_distance_symmetric(p: Coord, q: Coord)
    ensures
        dist2(p, q) == dist2(q, p),
        sqrt_floor(dist2(p, q)) == sqrt_floor(dist2(q, p)),
{
    assert(dist2(p, q) == dist2(q, p)) by (nonlinear_arith);
}

/// The planar distance from a point to itself is zero, and is zero only
/// there: distinct points are at a positive distance.
pub proof fn lemma_distance_zero(p: Coord, q: Coord)
    ensures
        dist2(p, q) >= 0,
        p == q <==> dist2(p, q) == 0,
        p == q <==> sqrt_floor(dist2(p, q)) == 0,
{
    assert(dist2(p, q) >= 0 && (dist2(p, q) == 0 ==> p.lat == q.lat && p.lon == q.lon))
        by (nonlinear_arith);
    if p == q {
        assert(dist2(p, q) == 0) by (nonlinear_arith)
            requires
                p.lat == q.lat,
                p.lon == q.lon,
        ;
    }
    if dist2(p, q) >= 1 {
        lemma_sqrt_floor_max(dist2(p, q), 1);
    } else {
        lemma_sqrt_floor_bounds(dist2(p, q));
    }
}

/// The order by (longitude, latitude) is a strict total order.
pub proof fn lemma_coord_order_total(p: Coord, q: Coord, r: Coord)
    ensures
        !coord_lt(p, p),
        coord_lt(p, q) || coord_lt(q, p) || p == q,
        !(coord_lt(p, q) && coord_lt(q, p)),
        coord_lt(p, q) && coord_lt(q, r) ==> coord_lt(p, r),
{
}

} // verus!
