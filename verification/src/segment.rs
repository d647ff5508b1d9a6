//! Directed line segments with exact containment, contiguity,
//! projection and intersection.
//!
//! All predicates are computed exactly over the integer coordinates: a
//! point lies on a segment when it is inside the segment's bounding box
//! and the cross product of the two spanning vectors vanishes.  At fixed
//! point resolution no floating-point epsilon is needed; degenerate
//! configurations (zero-length segments, parallel lines) are handled by
//! explicit guards rather than by error propagation.

use vstd::prelude::*;
use crate::arith::{div_floor, gcd, isqrt, mul_wide, sqrt_floor, lemma_div_in_range};
use vstd::arithmetic::div_mod::lemma_fundamental_div_mod_converse;
use crate::coord::{dist2, dist2_exec, Coord, Point, COORD_LIMIT};

verus! {

/// A directed segment from `a` to `b`, optionally tagged with the
/// vertical layer of grade-separated infrastructure.
#[derive(Clone, Debug)]
pub struct Segment {
    pub a: Coord,
    pub b: Coord,
    pub layer: Option<i8>,
}

/// The smaller of two integers.
pub open spec fn imin(x: int, y: int) -> int {
    if x <= y {
        x
    } else {
        y
    }
}

/// The larger of two integers.
pub open spec fn imax(x: int, y: int) -> int {
    if x <= y {
        y
    } else {
        x
    }
}

/// Cross product of `b - a` with `p - a`; zero exactly when `p` lies on
/// the infinite line through `a` and `b`.
pub open spec fn cross(a: Coord, b: Coord, p: Coord) -> int {
    (p.lon - a.lon) * (b.lat - a.lat) - (p.lat - a.lat) * (b.lon - a.lon)
}

/// `p` lies within the axis-aligned bounding box of the segment.
pub open spec fn in_bbox(s: Segment, p: Coord) -> bool {
    &&& imin(s.a.lat as int, s.b.lat as int) <= p.lat <= imax(s.a.lat as int, s.b.lat as int)
    &&& imin(s.a.lon as int, s.b.lon as int) <= p.lon <= imax(s.a.lon as int, s.b.lon as int)
}

/// `p` lies on the segment: inside the bounding box and collinear with
/// the endpoints.
pub open spec fn on_segment(s: Segment, p: Coord) -> bool {
    in_bbox(s, p) && cross(s.a, s.b, p) == 0
}

/// `p` lies on the segment and is neither of its endpoints.
pub open spec fn strictly_on(s: Segment, p: Coord) -> bool {
    on_segment(s, p) && p != s.a && p != s.b
}

/// Two segments are contiguous when they are not the same ordered pair
/// of endpoints and some endpoint of one lies on the other.
pub open spec fn contiguous(s: Segment, t: Segment) -> bool {
    if s.a == t.a && s.b == t.b {
        false
    } else {
        on_segment(s, t.a) || on_segment(s, t.b) || on_segment(t, s.a) || on_segment(t, s.b)
    }
}

impl Segment {
    /// Both endpoints are within the accepted coordinate range.
    pub open spec fn valid(self) -> bool {
        self.a.valid() && self.b.valid()
    }

    /// Planar length of the segment, in units: the floor of the exact
    /// square root of the squared endpoint distance.
    pub open spec fn spec_len(self) -> int {
        sqrt_floor(dist2(self.a, self.b))
    }

    /// The segment with the same layer and the endpoints swapped.
    pub open spec fn spec_reverse(self) -> Segment {
        Segment { a: self.b, b: self.a, layer: self.layer }
    }

    /// The endpoints as nested (latitude, longitude) pairs.
    pub fn into_tuple(&self) -> (r: ((i64, i64), (i64, i64)))
        ensures
            r == ((self.a.lat, self.a.lon), (self.b.lat, self.b.lon)),
    {
        ((self.a.lat, self.a.lon), ((self.b.lat, self.b.lon)))
    }

    /// Planar length of the segment in units.
    pub fn length(&self) -> (r: u64)
        requires
            self.valid(),
        ensures
            r == self.spec_len(),
            r <= 2_900_000_000,
    {
        let d2: u64 = dist2_exec(&self.a, &self.b);
        isqrt(d2)
    }

    /// The reversed segment: endpoints swapped, layer kept.
    pub fn reverse(&self) -> (r: Segment)
        ensures
            r == self.spec_reverse(),
    {
        Segment { a: self.b, b: self.a, layer: self.layer }
    }

    /// Exact containment test: `point` is inside the bounding box and
    /// collinear with the endpoints.
    pub fn contains(&self, point: &Point) -> (r: bool)
        requires
            self.valid(),
            point.valid(),
        ensures
            r == on_segment(*self, *point),
    {
        let lat_lo: i64 = if self.a.lat <= self.b.lat { self.a.lat } else { self.b.lat };
        let lat_hi: i64 = if self.a.lat <= self.b.lat { self.b.lat } else { self.a.lat };
        let lon_lo: i64 = if self.a.lon <= self.b.lon { self.a.lon } else { self.b.lon };
        let lon_hi: i64 = if self.a.lon <= self.b.lon { self.b.lon } else { self.a.lon };
        if point.lat < lat_lo || point.lat > lat_hi || point.lon < lon_lo || point.lon > lon_hi {
            return false;
        }
        let t1: i128 = mul_wide(
            (point.lon - self.a.lon) as i128,
            (self.b.lat - self.a.lat) as i128,
            Ghost(2 * COORD_LIMIT as int),
            Ghost(2 * COORD_LIMIT as int),
        );
        let t2: i128 = mul_wide(
            (point.lat - self.a.lat) as i128,
            (self.b.lon - self.a.lon) as i128,
            Ghost(2 * COORD_LIMIT as int),
            Ghost(2 * COORD_LIMIT as int),
        );
        t1 - t2 == 0
    }

    /// Containment excluding the two endpoints.
    pub fn strictly_contains(&self, point: &Point) -> (r: bool)
        requires
            self.valid(),
            point.valid(),
        ensures
            r == strictly_on(*self, *point),
    {
        if point.lat == self.a.lat && point.lon == self.a.lon {
            return false;
        }
        if point.lat == self.b.lat && point.lon == self.b.lon {
            return false;
        }
        self.contains(point)
    }

    /// Contiguity test: the segments are distinct as ordered endpoint
    /// pairs and an endpoint of one lies on the other.
    pub fn is_contiguous(&self, with: &Segment) -> (r: bool)
        requires
            self.valid(),
            with.valid(),
        ensures
            r == contiguous(*self, *with),
    {
        if self.a == with.a && self.b == with.b {
            false
        } else {
            self.contains(&with.a) || self.contains(&with.b) || with.contains(&self.a)
                || with.contains(&self.b)
        }
    }
}

/// Squared length of the segment's direction vector.
pub open spec fn proj_scale(s: Segment) -> int {
    let dlat = s.b.lat - s.a.lat;
    let dlon = s.b.lon - s.a.lon;
    dlat * dlat + dlon * dlon
}

/// Dot product of `p - a` with the direction vector `b - a`: the
/// position of the orthogonal projection of `p`, scaled by `proj_scale`.
pub open spec fn proj_t(s: Segment, p: Coord) -> int {
    (p.lat - s.a.lat) * (s.b.lat - s.a.lat) + (p.lon - s.a.lon) * (s.b.lon - s.a.lon)
}

/// Absolute value.
pub open spec fn iabs(x: int) -> int {
    if x < 0 {
        -x
    } else {
        x
    }
}

/// Greatest common divisor of the direction components' magnitudes.
/// The points with integer coordinates that lie exactly on the segment
/// are `a + k * (step_lat, step_lon)` for `k` in `0 ..= seg_gcd`.
pub open spec fn seg_gcd(s: Segment) -> int {
    gcd(iabs(s.b.lat - s.a.lat) as nat, iabs(s.b.lon - s.a.lon) as nat) as int
}

/// Latitude component of the primitive direction step.
pub open spec fn seg_step_lat(s: Segment) -> int {
    (s.b.lat - s.a.lat) / seg_gcd(s)
}

/// Longitude component of the primitive direction step.
pub open spec fn seg_step_lon(s: Segment) -> int {
    (s.b.lon - s.a.lon) / seg_gcd(s)
}

/// Spacing of the segment's lattice points along the projection
/// parameter: consecutive on-segment points sit this far apart in the
/// scale of `proj_t`.
pub open spec fn proj_spacing(s: Segment) -> int {
    proj_scale(s) / seg_gcd(s)
}

/// Index of the on-segment lattice point nearest to `p`: the nearest
/// multiple of the spacing to the projection parameter, clamped to the
/// segment's extent.
pub open spec fn proj_k(s: Segment, p: Coord) -> int {
    let k0 = (2 * proj_t(s, p) + proj_spacing(s)) / (2 * proj_spacing(s));
    if k0 < 0 {
        0
    } else if k0 > seg_gcd(s) {
        seg_gcd(s)
    } else {
        k0
    }
}

/// The point of the segment nearest to `p` in the planar metric, among
/// the integer-coordinate points lying exactly on the segment: the
/// orthogonal projection snapped to the nearest such point, endpoints
/// included (a query far beyond an end clamps to that endpoint).  A
/// zero-length segment has only its own endpoint to offer.
pub open spec fn proj_point(s: Segment, p: Coord) -> Coord {
    if s.a == s.b {
        s.b
    } else {
        Coord {
            lat: (s.a.lat + proj_k(s, p) * seg_step_lat(s)) as i64,
            lon: (s.a.lon + proj_k(s, p) * seg_step_lon(s)) as i64,
        }
    }
}

/// The exact intersection point `(latn/d, lonn/d)` lies within the
/// segment's bounding box, stated without division by scaling the box
/// by the positive denominator `d`.
pub open spec fn scaled_in_bbox(s: Segment, latn: int, lonn: int, d: int) -> bool {
    &&& imin(s.a.lat as int, s.b.lat as int) * d <= latn
        <= imax(s.a.lat as int, s.b.lat as int) * d
    &&& imin(s.a.lon as int, s.b.lon as int) * d <= lonn
        <= imax(s.a.lon as int, s.b.lon as int) * d
}

/// Determinant of the two carrier lines' equations: zero exactly for
/// parallel or degenerate lines.
pub open spec fn inter_det(s: Segment, t: Segment) -> int {
    let ap = s.b.lon - s.a.lon;
    let bp = s.a.lat - s.b.lat;
    let aq = t.b.lon - t.a.lon;
    let bq = t.a.lat - t.b.lat;
    ap * bq - aq * bp
}

/// Positive denominator of the exact crossing point of the two carrier
/// lines: the crossing is `(inter_latn / inter_den, inter_lonn / inter_den)`
/// as an exact rational.
pub open spec fn inter_den(s: Segment, t: Segment) -> int {
    iabs(inter_det(s, t))
}

/// Numerator of the exact crossing's latitude over `inter_den`.
pub open spec fn inter_latn(s: Segment, t: Segment) -> int {
    let ap = s.b.lon - s.a.lon;
    let bp = s.a.lat - s.b.lat;
    let cp = -(s.b.lat * ap) - (s.b.lon * bp);
    let aq = t.b.lon - t.a.lon;
    let bq = t.a.lat - t.b.lat;
    let cq = -(t.b.lat * aq) - (t.b.lon * bq);
    let raw = bp * cq - bq * cp;
    if inter_det(s, t) > 0 {
        raw
    } else {
        -raw
    }
}

/// Numerator of the exact crossing's longitude over `inter_den`.
pub open spec fn inter_lonn(s: Segment, t: Segment) -> int {
    let ap = s.b.lon - s.a.lon;
    let bp = s.a.lat - s.b.lat;
    let cp = -(s.b.lat * ap) - (s.b.lon * bp);
    let aq = t.b.lon - t.a.lon;
    let bq = t.a.lat - t.b.lat;
    let cq = -(t.b.lat * aq) - (t.b.lon * bq);
    let raw = aq * cp - ap * cq;
    if inter_det(s, t) > 0 {
        raw
    } else {
        -raw
    }
}

/// Geometric intersection of two segments, ignoring layers: the two
/// infinite lines are solved by Cramer's rule; a zero determinant
/// (parallel or degenerate lines) yields no intersection.  Whether the
/// segments cross is decided on the exact rational crossing point,
/// against both segments' extents; the crossing itself may have no
/// integer coordinates, so the returned `Coord` is that exact point
/// with each coordinate rounded down, and when the crossing is not a
/// lattice point the returned value lies off the carrier lines by less
/// than one coordinate unit.
pub open spec fn seg_intersection_raw(s: Segment, t: Segment) -> Option<Coord> {
    if inter_det(s, t) == 0 {
        None
    } else {
        let d = inter_den(s, t);
        let latn = inter_latn(s, t);
        let lonn = inter_lonn(s, t);
        if scaled_in_bbox(s, latn, lonn, d) && scaled_in_bbox(t, latn, lonn, d) {
            Some(Coord { lat: (latn / d) as i64, lon: (lonn / d) as i64 })
        } else {
            None
        }
    }
}

/// Intersection with the layer rule: a layered segment does not cross a
/// non-contiguous segment of a different layer (a bridge or tunnel does
/// not meet the road below at grade); contiguous segments always report
/// their touching point.
pub open spec fn seg_intersection(s: Segment, t: Segment) -> Option<Coord> {
    if s.layer is Some && !contiguous(s, t) && s.layer != t.layer {
        None
    } else {
        seg_intersection_raw(s, t)
    }
}

/// Whether two optional layer tags differ.
fn layers_differ(x: Option<i8>, y: Option<i8>) -> (r: bool)
    ensures
        r == (x != y),
{
    match (x, y) {
        (Some(u), Some(v)) => u != v,
        (None, None) => false,
        _ => true,
    }
}

impl Segment {
    /// The planar distance from `point` to the nearest point of the
    /// segment, and that nearest point: the orthogonal projection
    /// snapped to the nearest integer-coordinate point lying exactly on
    /// the segment, with queries beyond an end clamped to that
    /// endpoint.  The returned point always lies on the segment, and no
    /// point of the segment is nearer to the query.
    pub fn distance_from_point(&self, point: &Point) -> (r: (u64, Coord))
        requires
            self.valid(),
            point.valid(),
        ensures
            r.1 == proj_point(*self, *point),
            on_segment(*self, r.1),
            r.1.valid(),
            r.0 == sqrt_floor(dist2(*point, r.1)),
            r.0 <= 2_900_000_000,
            forall|z: Coord| on_segment(*self, z) ==> dist2(*point, r.1) <= dist2(*point, z),
            forall|z: Coord| on_segment(*self, z) ==> r.0 <= sqrt_floor(dist2(*point, z)),
    {
        proof {
            lemma_proj_point_on_segment(*self, *point);
        }
        if self.a.lat == self.b.lat && self.a.lon == self.b.lon {
            let d: u64 = point.distance(&self.b);
            proof {
                assert(*self == Segment { a: self.b, b: self.b, layer: self.layer });
                nearest_foralls(*self, *point, d);
            }
            return (d, self.b);
        }
        let dlat: i64 = self.b.lat - self.a.lat;
        let dlon: i64 = self.b.lon - self.a.lon;
        let adlat: u64 = if dlat >= 0 {
            dlat as u64
        } else {
            (-dlat) as u64
        };
        let adlon: u64 = if dlon >= 0 {
            dlon as u64
        } else {
            (-dlon) as u64
        };
        let g64: u64 = crate::arith::gcd_exec(adlat, adlon);
        let ghost bz = lemma_seg_decomposition(*self);
        let gi: i128 = g64 as i128;
        let slat: i128 = div_floor(dlat as i128, gi);
        let slon: i128 = div_floor(dlon as i128, gi);
        let sq_lat: i128 = mul_wide(
            dlat as i128,
            dlat as i128,
            Ghost(2 * COORD_LIMIT as int),
            Ghost(2 * COORD_LIMIT as int),
        );
        let sq_lon: i128 = mul_wide(
            dlon as i128,
            dlon as i128,
            Ghost(2 * COORD_LIMIT as int),
            Ghost(2 * COORD_LIMIT as int),
        );
        let l2: i128 = sq_lat + sq_lon;
        let spacing: i128 = div_floor(l2, gi);
        proof {
            assert(spacing <= spacing * gi) by (nonlinear_arith)
                requires
                    spacing >= 1,
                    gi >= 1,
            ;
        }
        let t: i128 = mul_wide(
            (point.lat - self.a.lat) as i128,
            dlat as i128,
            Ghost(2 * COORD_LIMIT as int),
            Ghost(2 * COORD_LIMIT as int),
        ) + mul_wide(
            (point.lon - self.a.lon) as i128,
            dlon as i128,
            Ghost(2 * COORD_LIMIT as int),
            Ghost(2 * COORD_LIMIT as int),
        );
        let k0: i128 = div_floor(2 * t + spacing, 2 * spacing);
        let k: i128 = if k0 < 0 {
            0
        } else if k0 > gi {
            gi
        } else {
            k0
        };
        proof {
            assert(k == proj_k(*self, *point));
            assert(gi == seg_gcd(*self));
            assert(gi <= 4_000_000_000);
            assert(-2_000_000_000 <= slat <= 2_000_000_000 && -2_000_000_000 <= slon
                <= 2_000_000_000) by (nonlinear_arith)
                requires
                    dlat == slat * gi,
                    dlon == slon * gi,
                    gi >= 1,
                    -2_000_000_000 <= dlat <= 2_000_000_000,
                    -2_000_000_000 <= dlon <= 2_000_000_000,
            ;
        }
        let off_lat: i128 = mul_wide(
            k,
            slat,
            Ghost(4 * COORD_LIMIT as int),
            Ghost(2 * COORD_LIMIT as int),
        );
        let off_lon: i128 = mul_wide(
            k,
            slon,
            Ghost(4 * COORD_LIMIT as int),
            Ghost(2 * COORD_LIMIT as int),
        );
        let q = Coord { lat: self.a.lat + off_lat as i64, lon: self.a.lon + off_lon as i64 };
        proof {
            assert(q == proj_point(*self, *point));
        }
        let d: u64 = point.distance(&q);
        proof {
            nearest_foralls(*self, *point, d);
        }
        (d, q)
    }

    /// Intersection of two segments: the layer rule first, then the
    /// exact geometric crossing test.  Whether the segments cross is
    /// decided on the exact rational crossing point; the returned
    /// coordinates bracket that point from below by less than one unit
    /// (the second `ensures`), so they can fail `contains` when the
    /// crossing is not a lattice point.
    pub fn intersection(&self, other: &Segment) -> (r: Option<Coord>)
        requires
            self.valid(),
            other.valid(),
        ensures
            r == seg_intersection(*self, *other),
            (match r {
                Some(c) => {
                    &&& c.valid()
                    &&& c.lat * inter_den(*self, *other) <= inter_latn(*self, *other) < c.lat
                        * inter_den(*self, *other) + inter_den(*self, *other)
                    &&& c.lon * inter_den(*self, *other) <= inter_lonn(*self, *other) < c.lon
                        * inter_den(*self, *other) + inter_den(*self, *other)
                },
                None => true,
            }),
    {
        if self.layer.is_some() {
            if !self.is_contiguous(other) && layers_differ(self.layer, other.layer) {
                return None;
            }
        }
        let g2: Ghost<int> = Ghost(2 * COORD_LIMIT as int);
        let g1: Ghost<int> = Ghost(COORD_LIMIT as int);
        let gc: Ghost<int> = Ghost(4_000_000_000_000_000_000);
        let ap: i128 = (self.b.lon - self.a.lon) as i128;
        let bp: i128 = (self.a.lat - self.b.lat) as i128;
        let cp: i128 = -mul_wide(self.b.lat as i128, ap, g1, g2) - mul_wide(
            self.b.lon as i128,
            bp,
            g1,
            g2,
        );
        let aq: i128 = (other.b.lon - other.a.lon) as i128;
        let bq: i128 = (other.a.lat - other.b.lat) as i128;
        let cq: i128 = -mul_wide(other.b.lat as i128, aq, g1, g2) - mul_wide(
            other.b.lon as i128,
            bq,
            g1,
            g2,
        );
        let det0: i128 = mul_wide(ap, bq, g2, g2) - mul_wide(aq, bp, g2, g2);
        if det0 == 0 {
            return None;
        }
        let latn0: i128 = mul_wide(bp, cq, g2, gc) - mul_wide(bq, cp, g2, gc);
        let lonn0: i128 = mul_wide(aq, cp, g2, gc) - mul_wide(ap, cq, g2, gc);
        let d: i128 = if det0 > 0 { det0 } else { -det0 };
        let latn: i128 = if det0 > 0 { latn0 } else { -latn0 };
        let lonn: i128 = if det0 > 0 { lonn0 } else { -lonn0 };
        if !in_scaled_box(self, latn, lonn, d) {
            return None;
        }
        if !in_scaled_box(other, latn, lonn, d) {
            return None;
        }
        let lat_q: i128 = div_floor(latn, d);
        let lon_q: i128 = div_floor(lonn, d);
        proof {
            let s = *self;
            lemma_div_in_range(
                latn as int,
                d as int,
                imin(s.a.lat as int, s.b.lat as int),
                imax(s.a.lat as int, s.b.lat as int),
            );
            lemma_div_in_range(
                lonn as int,
                d as int,
                imin(s.a.lon as int, s.b.lon as int),
                imax(s.a.lon as int, s.b.lon as int),
            );
        }
        Some(Coord { lat: lat_q as i64, lon: lon_q as i64 })
    }
}

/// Reversal preserves geometry: the reversed segment has the same
/// length and contains exactly the same points, strictly or not.
pub proof fn lemma_reverse_preserves(s: Segment, x: Coord)
    ensures
        s.spec_reverse().spec_len() == s.spec_len(),
        on_segment(s.spec_reverse(), x) == on_segment(s, x),
        strictly_on(s.spec_reverse(), x) == strictly_on(s, x),
{
    crate::coord::lemma_distance_symmetric(s.a, s.b);
    assert(cross(s.b, s.a, x) == -cross(s.a, s.b, x)) by (nonlinear_arith);
}

/// A segment contains both of its endpoints, and neither strictly.
pub proof fn lemma_endpoints_on_segment(s: Segment)
    ensures
        on_segment(s, s.a),
        on_segment(s, s.b),
        !strictly_on(s, s.a),
        !strictly_on(s, s.b),
{
    assert(cross(s.a, s.b, s.a) == 0) by (nonlinear_arith);
    assert(cross(s.a, s.b, s.b) == 0) by (nonlinear_arith);
}

/// Intersection is symmetric for segments without layer tags: both
/// orders give the same answer, point value included.
pub proof fn lemma_intersection_symmetric(s: Segment, t: Segment)
    requires
        s.layer is None,
        t.layer is None,
    ensures
        seg_intersection(s, t) == seg_intersection(t, s),
{
}

/// The layer rule: a layered segment crossing a non-contiguous segment
/// of a different layer reports no intersection; with equal layers, or
/// contiguous segments, the purely geometric answer stands.
pub proof fn lemma_layer_suppression(s: Segment, t: Segment)
    ensures
        (s.layer is Some && !contiguous(s, t) && s.layer != t.layer) ==> seg_intersection(
            s,
            t,
        ) is None,
        s.layer == t.layer ==> seg_intersection(s, t) == seg_intersection_raw(s, t),
        contiguous(s, t) ==> seg_intersection(s, t) == seg_intersection_raw(s, t),
{
}

/// For a proper segment: the gcd of the direction is positive and
/// divides each component exactly, the squared direction length factors
/// through it, and the returned pair holds Bezout coefficients writing
/// the gcd as an integer combination of the direction components.
pub proof fn lemma_seg_decomposition(s: Segment) -> (r: (int, int))
    requires
        s.a != s.b,
    ensures
        1 <= seg_gcd(s) <= iabs(s.b.lat - s.a.lat) + iabs(s.b.lon - s.a.lon),
        s.b.lat - s.a.lat == seg_step_lat(s) * seg_gcd(s),
        s.b.lon - s.a.lon == seg_step_lon(s) * seg_gcd(s),
        proj_scale(s) == seg_gcd(s) * proj_spacing(s),
        proj_spacing(s) >= 1,
        seg_gcd(s) == r.0 * (s.b.lat - s.a.lat) + r.1 * (s.b.lon - s.a.lon),
{
    let dlat = s.b.lat - s.a.lat;
    let dlon = s.b.lon - s.a.lon;
    let ad1 = iabs(dlat) as nat;
    let ad2 = iabs(dlon) as nat;
    let g = seg_gcd(s);
    let w = crate::arith::lemma_gcd(ad1, ad2);
    assert(ad1 > 0 || ad2 > 0);
    assert(g >= 1);
    if ad1 > 0 {
        assert(g <= ad1) by (nonlinear_arith)
            requires
                ad1 == w.0 * g,
                ad1 > 0,
                g >= 1,
        ;
    } else {
        assert(g <= ad2) by (nonlinear_arith)
            requires
                ad2 == w.1 * g,
                ad2 > 0,
                g >= 1,
        ;
    }
    if dlat >= 0 {
        lemma_fundamental_div_mod_converse(dlat, g, w.0, 0);
    } else {
        assert(dlat == (-w.0) * g + 0) by (nonlinear_arith)
            requires
                ad1 == w.0 * g,
                ad1 == -dlat,
        ;
        lemma_fundamental_div_mod_converse(dlat, g, -w.0, 0);
    }
    if dlon >= 0 {
        lemma_fundamental_div_mod_converse(dlon, g, w.1, 0);
    } else {
        assert(dlon == (-w.1) * g + 0) by (nonlinear_arith)
            requires
                ad2 == w.1 * g,
                ad2 == -dlon,
        ;
        lemma_fundamental_div_mod_converse(dlon, g, -w.1, 0);
    }
    let sl = seg_step_lat(s);
    let so = seg_step_lon(s);
    let s2 = sl * sl + so * so;
    if sl == 0 && so == 0 {
        assert(dlat == 0 && dlon == 0) by (nonlinear_arith)
            requires
                dlat == sl * g,
                dlon == so * g,
                sl == 0,
                so == 0,
        ;
        assert(s.a == s.b);
    }
    assert(s2 >= 1) by (nonlinear_arith)
        requires
            !(sl == 0 && so == 0),
            s2 == sl * sl + so * so,
    ;
    assert(proj_scale(s) == (g * s2) * g + 0) by (nonlinear_arith)
        requires
            dlat == sl * g,
            dlon == so * g,
            proj_scale(s) == dlat * dlat + dlon * dlon,
            s2 == sl * sl + so * so,
    ;
    lemma_fundamental_div_mod_converse(proj_scale(s), g, g * s2, 0);
    assert(proj_spacing(s) >= 1) by (nonlinear_arith)
        requires
            proj_spacing(s) == g * s2,
            g >= 1,
            s2 >= 1,
    ;
    assert(proj_scale(s) == seg_gcd(s) * proj_spacing(s)) by (nonlinear_arith)
        requires
            proj_scale(s) == (g * s2) * g,
            proj_spacing(s) == g * s2,
            g == seg_gcd(s),
    ;
    let x = if dlat < 0 {
        -w.2
    } else {
        w.2
    };
    let y = if dlon < 0 {
        -w.3
    } else {
        w.3
    };
    assert(g == x * dlat + y * dlon) by (nonlinear_arith)
        requires
            g == w.2 * ad1 + w.3 * ad2,
            ad1 == iabs(dlat),
            ad2 == iabs(dlon),
            iabs(dlat) == (if dlat < 0 { -dlat } else { dlat }),
            iabs(dlon) == (if dlon < 0 { -dlon } else { dlon }),
            x == (if dlat < 0 { -w.2 } else { w.2 }),
            y == (if dlon < 0 { -w.3 } else { w.3 }),
    ;
    (x, y)
}

/// Every integer point of a proper segment is a whole number of
/// primitive steps from its start; the returned index also places its
/// projection parameter at that multiple of the spacing.
pub proof fn lemma_on_segment_index(s: Segment, z: Coord) -> (m: int)
    requires
        s.a != s.b,
        on_segment(s, z),
    ensures
        0 <= m <= seg_gcd(s),
        z.lat - s.a.lat == m * seg_step_lat(s),
        z.lon - s.a.lon == m * seg_step_lon(s),
        (z.lat - s.a.lat) * (s.b.lat - s.a.lat) + (z.lon - s.a.lon) * (s.b.lon - s.a.lon) == m
            * proj_spacing(s),
{
    let bz = lemma_seg_decomposition(s);
    let dlat = s.b.lat - s.a.lat;
    let dlon = s.b.lon - s.a.lon;
    let g = seg_gcd(s);
    let sl = seg_step_lat(s);
    let so = seg_step_lon(s);
    let bigl = proj_spacing(s);
    let l2 = proj_scale(s);
    let zl = z.lat - s.a.lat;
    let zo = z.lon - s.a.lon;
    let u = zl * dlat + zo * dlon;
    assert(l2 * zl == u * dlat && l2 * zo == u * dlon) by (nonlinear_arith)
        requires
            cross(s.a, s.b, z) == 0,
            cross(s.a, s.b, z) == (z.lon - s.a.lon) * (s.b.lat - s.a.lat) - (z.lat - s.a.lat) * (
            s.b.lon - s.a.lon),
            zl == z.lat - s.a.lat,
            zo == z.lon - s.a.lon,
            dlat == s.b.lat - s.a.lat,
            dlon == s.b.lon - s.a.lon,
            u == zl * dlat + zo * dlon,
            l2 == dlat * dlat + dlon * dlon,
    ;
    assert(0 <= u <= l2) by (nonlinear_arith)
        requires
            u == zl * dlat + zo * dlon,
            zl == z.lat - s.a.lat,
            zo == z.lon - s.a.lon,
            dlat == s.b.lat - s.a.lat,
            dlon == s.b.lon - s.a.lon,
            l2 == dlat * dlat + dlon * dlon,
            imin(s.a.lat as int, s.b.lat as int) <= z.lat <= imax(s.a.lat as int, s.b.lat as int),
            imin(s.a.lon as int, s.b.lon as int) <= z.lon <= imax(s.a.lon as int, s.b.lon as int),
            imin(s.a.lat as int, s.b.lat as int) == (if s.a.lat <= s.b.lat {
                s.a.lat as int
            } else {
                s.b.lat as int
            }),
            imax(s.a.lat as int, s.b.lat as int) == (if s.a.lat <= s.b.lat {
                s.b.lat as int
            } else {
                s.a.lat as int
            }),
            imin(s.a.lon as int, s.b.lon as int) == (if s.a.lon <= s.b.lon {
                s.a.lon as int
            } else {
                s.b.lon as int
            }),
            imax(s.a.lon as int, s.b.lon as int) == (if s.a.lon <= s.b.lon {
                s.b.lon as int
            } else {
                s.a.lon as int
            }),
    ;
    let m = bz.0 * zl + bz.1 * zo;
    assert(u * g == bz.0 * (u * dlat) + bz.1 * (u * dlon)) by (nonlinear_arith)
        requires
            g == bz.0 * dlat + bz.1 * dlon,
    ;
    assert(bz.0 * (u * dlat) + bz.1 * (u * dlon) == l2 * (bz.0 * zl + bz.1 * zo))
        by (nonlinear_arith)
        requires
            l2 * zl == u * dlat,
            l2 * zo == u * dlon,
    ;
    assert(u * g == l2 * m);
    assert(u == m * bigl) by (nonlinear_arith)
        requires
            u * g == l2 * m,
            l2 == g * bigl,
            g >= 1,
    ;
    assert(zl == m * sl && zo == m * so) by (nonlinear_arith)
        requires
            l2 * zl == u * dlat,
            l2 * zo == u * dlon,
            u == m * bigl,
            dlat == sl * g,
            dlon == so * g,
            l2 == g * bigl,
            bigl >= 1,
            g >= 1,
    ;
    assert(0 <= m <= g) by (nonlinear_arith)
        requires
            0 <= u <= l2,
            u == m * bigl,
            l2 == g * bigl,
            bigl >= 1,
    ;
    m
}

/// The chosen nearest point lies on the segment, and its offset from
/// the start is the chosen number of primitive steps.
pub proof fn lemma_proj_point_on_segment(s: Segment, p: Coord)
    ensures
        on_segment(s, proj_point(s, p)),
        s.valid() ==> proj_point(s, p).valid(),
        s.a != s.b ==> proj_point(s, p).lat == s.a.lat + proj_k(s, p) * seg_step_lat(s),
        s.a != s.b ==> proj_point(s, p).lon == s.a.lon + proj_k(s, p) * seg_step_lon(s),
{
    if s.a == s.b {
        assert(cross(s.a, s.b, s.b) == 0) by (nonlinear_arith);
    } else {
        let bz = lemma_seg_decomposition(s);
        let dlat = s.b.lat - s.a.lat;
        let dlon = s.b.lon - s.a.lon;
        let g = seg_gcd(s);
        let sl = seg_step_lat(s);
        let so = seg_step_lon(s);
        let k = proj_k(s, p);
        assert(0 <= k <= g);
        assert(imin(0, dlat) <= k * sl <= imax(0, dlat) && imin(0, dlon) <= k * so <= imax(
            0,
            dlon,
        )) by (nonlinear_arith)
            requires
                0 <= k <= g,
                dlat == sl * g,
                dlon == so * g,
                imin(0, dlat) == (if 0 <= dlat {
                    0int
                } else {
                    dlat as int
                }),
                imax(0, dlat) == (if 0 <= dlat {
                    dlat as int
                } else {
                    0int
                }),
                imin(0, dlon) == (if 0 <= dlon {
                    0int
                } else {
                    dlon as int
                }),
                imax(0, dlon) == (if 0 <= dlon {
                    dlon as int
                } else {
                    0int
                }),
        ;
        assert(i64::MIN <= s.a.lat + k * sl <= i64::MAX);
        assert(i64::MIN <= s.a.lon + k * so <= i64::MAX);
        let q = proj_point(s, p);
        assert(q.lat == s.a.lat + k * sl);
        assert(q.lon == s.a.lon + k * so);
        assert(cross(s.a, s.b, q) == 0) by (nonlinear_arith)
            requires
                cross(s.a, s.b, q) == (q.lon - s.a.lon) * (s.b.lat - s.a.lat) - (q.lat - s.a.lat)
                    * (s.b.lon - s.a.lon),
                q.lat == s.a.lat + k * sl,
                q.lon == s.a.lon + k * so,
                s.b.lat - s.a.lat == sl * g,
                s.b.lon - s.a.lon == so * g,
        ;
    }
}

/// Among all points of the segment, none is nearer to `p` in the
/// planar metric than the chosen nearest point.
pub proof fn lemma_proj_point_nearest(s: Segment, p: Coord, z: Coord)
    requires
        on_segment(s, z),
    ensures
        dist2(p, proj_point(s, p)) <= dist2(p, z),
{
    lemma_proj_point_on_segment(s, p);
    if s.a == s.b {
        assert(z.lat == s.b.lat && z.lon == s.b.lon);
        assert(z == s.b);
    } else {
        let bz = lemma_seg_decomposition(s);
        let m = lemma_on_segment_index(s, z);
        let dlat = s.b.lat - s.a.lat;
        let dlon = s.b.lon - s.a.lon;
        let g = seg_gcd(s);
        let sl = seg_step_lat(s);
        let so = seg_step_lon(s);
        let bigl = proj_spacing(s);
        let l2 = proj_scale(s);
        let t = proj_t(s, p);
        let k = proj_k(s, p);
        let q = proj_point(s, p);
        crate::arith::lemma_nearest_multiple(t, bigl, g, k, m);
        let uq = k * bigl;
        let uz = m * bigl;
        assert((t - uq) * (t - uq) <= (t - uz) * (t - uz)) by (nonlinear_arith)
            requires
                (k * bigl - t) * (k * bigl - t) <= (m * bigl - t) * (m * bigl - t),
                uq == k * bigl,
                uz == m * bigl,
        ;
        assert(l2 * (q.lat - s.a.lat) == uq * dlat && l2 * (q.lon - s.a.lon) == uq * dlon)
            by (nonlinear_arith)
            requires
                q.lat == s.a.lat + k * sl,
                q.lon == s.a.lon + k * so,
                dlat == sl * g,
                dlon == so * g,
                l2 == g * bigl,
                uq == k * bigl,
        ;
        assert(l2 * (z.lat - s.a.lat) == uz * dlat && l2 * (z.lon - s.a.lon) == uz * dlon)
            by (nonlinear_arith)
            requires
                z.lat - s.a.lat == m * sl,
                z.lon - s.a.lon == m * so,
                dlat == sl * g,
                dlon == so * g,
                l2 == g * bigl,
                uz == m * bigl,
        ;
        let xx = l2 * p.lat - l2 * s.a.lat;
        let yy = l2 * p.lon - l2 * s.a.lon;
        assert(xx * dlat + yy * dlon == l2 * t) by (nonlinear_arith)
            requires
                xx == l2 * p.lat - l2 * s.a.lat,
                yy == l2 * p.lon - l2 * s.a.lon,
                l2 == dlat * dlat + dlon * dlon,
                t == (p.lat - s.a.lat) * dlat + (p.lon - s.a.lon) * dlon,
                dlat == s.b.lat - s.a.lat,
                dlon == s.b.lon - s.a.lon,
    ;
        let g1 = xx - t * dlat;
        let g2 = yy - t * dlon;
        assert(g1 * dlat + g2 * dlon == 0) by (nonlinear_arith)
            requires
                g1 == xx - t * dlat,
                g2 == yy - t * dlon,
                xx * dlat + yy * dlon == l2 * t,
                l2 == dlat * dlat + dlon * dlon,
        ;
        crate::arith::lemma_quad_min(g1, g2, dlat, dlon, t - uq, t - uz);
        assert(g1 + (t - uq) * dlat == xx - uq * dlat && g2 + (t - uq) * dlon == yy - uq * dlon)
            by (nonlinear_arith)
            requires
                g1 == xx - t * dlat,
                g2 == yy - t * dlon,
        ;
        assert(g1 + (t - uz) * dlat == xx - uz * dlat && g2 + (t - uz) * dlon == yy - uz * dlon)
            by (nonlinear_arith)
            requires
                g1 == xx - t * dlat,
                g2 == yy - t * dlon,
        ;
        assert(xx - uq * dlat == l2 * p.lat - l2 * q.lat && yy - uq * dlon == l2 * p.lon - l2
            * q.lon) by (nonlinear_arith)
            requires
                xx == l2 * p.lat - l2 * s.a.lat,
                yy == l2 * p.lon - l2 * s.a.lon,
                l2 * (q.lat - s.a.lat) == uq * dlat,
                l2 * (q.lon - s.a.lon) == uq * dlon,
        ;
        assert(xx - uz * dlat == l2 * p.lat - l2 * z.lat && yy - uz * dlon == l2 * p.lon - l2
            * z.lon) by (nonlinear_arith)
            requires
                xx == l2 * p.lat - l2 * s.a.lat,
                yy == l2 * p.lon - l2 * s.a.lon,
                l2 * (z.lat - s.a.lat) == uz * dlat,
                l2 * (z.lon - s.a.lon) == uz * dlon,
        ;
        assert((l2 * p.lat - l2 * q.lat) * (l2 * p.lat - l2 * q.lat) + (l2 * p.lon - l2 * q.lon) * (
        l2 * p.lon - l2 * q.lon) == (l2 * l2) * dist2(p, q)) by (nonlinear_arith)
            requires
                dist2(p, q) == (q.lat - p.lat) * (q.lat - p.lat) + (q.lon - p.lon) * (q.lon
                    - p.lon),
        ;
        assert((l2 * p.lat - l2 * z.lat) * (l2 * p.lat - l2 * z.lat) + (l2 * p.lon - l2 * z.lon) * (
        l2 * p.lon - l2 * z.lon) == (l2 * l2) * dist2(p, z)) by (nonlinear_arith)
            requires
                dist2(p, z) == (z.lat - p.lat) * (z.lat - p.lat) + (z.lon - p.lon) * (z.lon
                    - p.lon),
        ;
        assert(dist2(p, q) <= dist2(p, z)) by (nonlinear_arith)
            requires
                (l2 * l2) * dist2(p, q) <= (l2 * l2) * dist2(p, z),
                l2 >= 1,
        ;
    }
}

/// Both minimality statements of the nearest-point search, packaged
/// for its two exits.
proof fn nearest_foralls(s: Segment, p: Coord, d: u64)
    requires
        d == sqrt_floor(dist2(p, proj_point(s, p))),
    ensures
        forall|z: Coord| on_segment(s, z) ==> dist2(p, proj_point(s, p)) <= dist2(p, z),
        forall|z: Coord| on_segment(s, z) ==> d <= sqrt_floor(dist2(p, z)),
{
    assert(dist2(p, proj_point(s, p)) >= 0) by (nonlinear_arith);
    assert forall|z: Coord| on_segment(s, z) implies dist2(p, proj_point(s, p)) <= dist2(
        p,
        z,
    ) by {
        lemma_proj_point_nearest(s, p, z);
    }
    assert forall|z: Coord| on_segment(s, z) implies d <= sqrt_floor(dist2(p, z)) by {
        lemma_proj_point_nearest(s, p, z);
        crate::arith::lemma_sqrt_floor_monotone(dist2(p, proj_point(s, p)), dist2(p, z));
    }
}

/// Exact scaled bounding-box test used by the intersection: whether the
/// rational point `(latn/d, lonn/d)` lies within the box spanned by `a`
/// and `b`.
fn in_scaled_box(s: &Segment, latn: i128, lonn: i128, d: i128) -> (r: bool)
    requires
        s.valid(),
        0 < d <= 8_000_000_000_000_000_000,
        -16_000_000_000_000_000_000_000_000_000 <= latn <= 16_000_000_000_000_000_000_000_000_000,
        -16_000_000_000_000_000_000_000_000_000 <= lonn <= 16_000_000_000_000_000_000_000_000_000,
    ensures
        r == scaled_in_bbox(*s, latn as int, lonn as int, d as int),
{
    let a = &s.a;
    let b = &s.b;
    let lat_lo: i64 = if a.lat <= b.lat { a.lat } else { b.lat };
    let lat_hi: i64 = if a.lat <= b.lat { b.lat } else { a.lat };
    let lon_lo: i64 = if a.lon <= b.lon { a.lon } else { b.lon };
    let lon_hi: i64 = if a.lon <= b.lon { b.lon } else { a.lon };
    let g1: Ghost<int> = Ghost(COORD_LIMIT as int);
    let gd: Ghost<int> = Ghost(8_000_000_000_000_000_000);
    let lo_lat_s: i128 = mul_wide(lat_lo as i128, d, g1, gd);
    let hi_lat_s: i128 = mul_wide(lat_hi as i128, d, g1, gd);
    let lo_lon_s: i128 = mul_wide(lon_lo as i128, d, g1, gd);
    let hi_lon_s: i128 = mul_wide(lon_hi as i128, d, g1, gd);
    lo_lat_s <= latn && latn <= hi_lat_s && lo_lon_s <= lonn && lonn <= hi_lon_s
}

} // verus!
