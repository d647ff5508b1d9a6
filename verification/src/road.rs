//! Roads: ordered, end-to-end contiguous chains of segments, with
//! aggregate length, nearest-point search, directional partial length
//! and cross-road intersection enumeration.

use vstd::prelude::*;
use crate::arith::{div_floor, sqrt_floor, lemma_sqrt_floor_bounds, lemma_sqrt_floor_max};
use crate::coord::{dist2, Coord};
use crate::segment::{cross, imax, imin, on_segment, proj_point, seg_intersection, strictly_on, Segment};

verus! {

/// Direction of travel along a road's segment sequence.
pub enum Direction {
    Forward,
    Backward,
}

/// A directed polyline route.  The segments are expected to be
/// contiguous in sequence; access restrictions ride along as plain
/// attributes.
pub struct Road {
    pub segments: Vec<Segment>,
    pub name: Option<String>,
    pub forbidden_to_pedestrians: bool,
    pub forbidden_to_bikes: bool,
}

/// Total planar length of a segment sequence, in units.
pub open spec fn road_len(segs: Seq<Segment>) -> int
    decreases segs.len(),
{
    if segs.len() == 0 {
        0
    } else {
        segs[0].spec_len() + road_len(segs.drop_first())
    }
}

/// Walk the sequence from its start, accumulating segment lengths; the
/// first segment that strictly contains `p` contributes only the
/// distance from its starting endpoint to `p` and ends the walk.
pub open spec fn length_from_fwd(segs: Seq<Segment>, p: Coord) -> int
    decreases segs.len(),
{
    if segs.len() == 0 {
        0
    } else if strictly_on(segs[0], p) {
        sqrt_floor(dist2(segs[0].a, p))
    } else {
        segs[0].spec_len() + length_from_fwd(segs.drop_first(), p)
    }
}

/// Walk the sequence from its end, accumulating segment lengths; the
/// first segment (from the rear) that strictly contains `p` contributes
/// only the distance from its rear endpoint to `p` and ends the walk.
pub open spec fn length_from_bwd(segs: Seq<Segment>, p: Coord) -> int
    decreases segs.len(),
{
    if segs.len() == 0 {
        0
    } else if strictly_on(segs.last(), p) {
        sqrt_floor(dist2(segs.last().b, p))
    } else {
        segs.last().spec_len() + length_from_bwd(segs.drop_last(), p)
    }
}

/// Planar distance from `p` to the nearest point of one segment.
pub open spec fn cand_dist(s: Segment, p: Coord) -> int {
    sqrt_floor(dist2(p, proj_point(s, p)))
}

/// Append `c` unless it is already present.
pub open spec fn push_unique(acc: Seq<Coord>, c: Coord) -> Seq<Coord> {
    if acc.contains(c) {
        acc
    } else {
        acc.push(c)
    }
}

/// Fold one segment `sa` against every segment of `bs` in order,
/// appending each newly discovered intersection point to `acc`.
pub open spec fn collect_row(acc: Seq<Coord>, sa: Segment, bs: Seq<Segment>) -> Seq<Coord>
    decreases bs.len(),
{
    if bs.len() == 0 {
        acc
    } else {
        let acc2 = match seg_intersection(sa, bs[0]) {
            Some(c) => push_unique(acc, c),
            None => acc,
        };
        collect_row(acc2, sa, bs.drop_first())
    }
}

/// Fold every segment of `own` against every segment of `bs`, outer
/// loop over `own`, inner over `bs`, deduplicating in discovery order.
pub open spec fn collect_all(acc: Seq<Coord>, own: Seq<Segment>, bs: Seq<Segment>) -> Seq<Coord>
    decreases own.len(),
{
    if own.len() == 0 {
        acc
    } else {
        collect_all(collect_row(acc, own[0], bs), own.drop_first(), bs)
    }
}

/// A valid segment has coordinates in range and a length below the
/// bound that keeps road sums inside `u64`.
pub proof fn lemma_seg_len_bounds(s: Segment)
    requires
        s.valid(),
    ensures
        0 <= s.spec_len() <= 2_900_000_000,
{
    assert(0 <= dist2(s.a, s.b) <= 8_000_000_000_000_000_000) by (nonlinear_arith)
        requires
            s.valid(),
    ;
    lemma_sqrt_floor_bounds(dist2(s.a, s.b));
    let r = s.spec_len();
    if r > 2_900_000_000 {
        assert(r * r > 8_000_000_000_000_000_000) by (nonlinear_arith)
            requires
                r > 2_900_000_000,
        ;
    }
}

/// A road's total length is nonnegative and at most the segment count
/// times the largest segment length.
pub proof fn lemma_road_len_bounds(segs: Seq<Segment>)
    requires
        forall|i: int| 0 <= i < segs.len() ==> (#[trigger] segs[i]).valid(),
    ensures
        0 <= road_len(segs) <= segs.len() * 2_900_000_000,
    decreases segs.len(),
{
    if segs.len() == 0 {
    } else {
        lemma_seg_len_bounds(segs[0]);
        assert(forall|i: int|
            0 <= i < segs.drop_first().len() ==> (#[trigger] segs.drop_first()[i]).valid());
        lemma_road_len_bounds(segs.drop_first());
    }
}

/// For a point on a segment, the two planar distances to the endpoints
/// add up to the segment's length, up to the one unit the floored
/// square roots may lose.
pub proof fn lemma_collinear_additive(s: Segment, p: Coord)
    requires
        on_segment(s, p),
    ensures
        sqrt_floor(dist2(s.a, p)) + sqrt_floor(dist2(p, s.b)) <= s.spec_len(),
        s.spec_len() <= sqrt_floor(dist2(s.a, p)) + sqrt_floor(dist2(p, s.b)) + 1,
{
    let x1 = p.lat - s.a.lat;
    let y1 = p.lon - s.a.lon;
    let x2 = s.b.lat - p.lat;
    let y2 = s.b.lon - p.lon;
    let d1 = dist2(s.a, p);
    let d2 = dist2(p, s.b);
    let d = dist2(s.a, s.b);
    let m = x1 * x2 + y1 * y2;
    assert(d == d1 + d2 + 2 * m) by (nonlinear_arith)
        requires
            d == (x1 + x2) * (x1 + x2) + (y1 + y2) * (y1 + y2),
            d1 == x1 * x1 + y1 * y1,
            d2 == x2 * x2 + y2 * y2,
            m == x1 * x2 + y1 * y2,
    ;
    assert(x1 * x2 >= 0 && y1 * y2 >= 0) by (nonlinear_arith)
        requires
            x1 == p.lat - s.a.lat,
            y1 == p.lon - s.a.lon,
            x2 == s.b.lat - p.lat,
            y2 == s.b.lon - p.lon,
            imin(s.a.lat as int, s.b.lat as int) <= p.lat <= imax(s.a.lat as int, s.b.lat as int),
            imin(s.a.lon as int, s.b.lon as int) <= p.lon <= imax(s.a.lon as int, s.b.lon as int),
            imin(s.a.lat as int, s.b.lat as int) == if s.a.lat <= s.b.lat {
                s.a.lat as int
            } else {
                s.b.lat as int
            },
            imax(s.a.lat as int, s.b.lat as int) == if s.a.lat <= s.b.lat {
                s.b.lat as int
            } else {
                s.a.lat as int
            },
            imin(s.a.lon as int, s.b.lon as int) == if s.a.lon <= s.b.lon {
                s.a.lon as int
            } else {
                s.b.lon as int
            },
            imax(s.a.lon as int, s.b.lon as int) == if s.a.lon <= s.b.lon {
                s.b.lon as int
            } else {
                s.a.lon as int
            },
    ;
    assert(x1 * y2 - y1 * x2 == 0) by (nonlinear_arith)
        requires
            cross(s.a, s.b, p) == 0,
            x1 == p.lat - s.a.lat,
            y1 == p.lon - s.a.lon,
            x2 == s.b.lat - p.lat,
            y2 == s.b.lon - p.lon,
            cross(s.a, s.b, p) == (p.lon - s.a.lon) * (s.b.lat - s.a.lat) - (p.lat - s.a.lat) * (
            s.b.lon - s.a.lon),
    ;
    crate::arith::lemma_lagrange_parallel(x1, y1, x2, y2);
    assert(m * m == d1 * d2);
    assert(d1 >= 0 && d2 >= 0 && d >= 0) by (nonlinear_arith)
        requires
            d1 == x1 * x1 + y1 * y1,
            d2 == x2 * x2 + y2 * y2,
            d == (x1 + x2) * (x1 + x2) + (y1 + y2) * (y1 + y2),
    ;
    lemma_sqrt_floor_bounds(d1);
    lemma_sqrt_floor_bounds(d2);
    lemma_sqrt_floor_bounds(d);
    let s1 = sqrt_floor(d1);
    let s2 = sqrt_floor(d2);
    let sd = sqrt_floor(d);
    assert((s1 * s2) * (s1 * s2) == (s1 * s1) * (s2 * s2)) by (nonlinear_arith);
    assert((s1 * s1) * (s2 * s2) <= d1 * d2) by (nonlinear_arith)
        requires
            0 <= s1 * s1 <= d1,
            0 <= s2 * s2 <= d2,
    ;
    assert(s1 * s2 <= m) by (nonlinear_arith)
        requires
            (s1 * s2) * (s1 * s2) <= m * m,
            s1 >= 0,
            s2 >= 0,
            m >= 0,
    ;
    assert((s1 + s2) * (s1 + s2) == s1 * s1 + 2 * (s1 * s2) + s2 * s2) by (nonlinear_arith);
    assert((s1 + s2) * (s1 + s2) <= d);
    lemma_sqrt_floor_max(d, s1 + s2);
    let k = (s1 + 1) * (s2 + 1);
    assert(k * k == ((s1 + 1) * (s1 + 1)) * ((s2 + 1) * (s2 + 1))) by (nonlinear_arith)
        requires
            k == (s1 + 1) * (s2 + 1),
    ;
    assert(k > 0) by (nonlinear_arith)
        requires
            k == (s1 + 1) * (s2 + 1),
            s1 >= 0,
            s2 >= 0,
    ;
    assert(d1 * d2 < ((s1 + 1) * (s1 + 1)) * ((s2 + 1) * (s2 + 1))) by (nonlinear_arith)
        requires
            0 <= d1 < (s1 + 1) * (s1 + 1),
            0 <= d2 < (s2 + 1) * (s2 + 1),
    ;
    assert(m < k) by (nonlinear_arith)
        requires
            m * m < k * k,
            m >= 0,
            k > 0,
    ;
    assert((s1 + 1) * (s1 + 1) + (s2 + 1) * (s2 + 1) + 2 * k == (s1 + s2 + 2) * (s1 + s2 + 2))
        by (nonlinear_arith)
        requires
            k == (s1 + 1) * (s2 + 1),
    ;
    assert(d < (s1 + s2 + 2) * (s1 + s2 + 2));
    assert(sd < s1 + s2 + 2) by (nonlinear_arith)
        requires
            sd * sd <= d,
            d < (s1 + s2 + 2) * (s1 + s2 + 2),
            sd >= 0,
            s1 + s2 + 2 > 0,
    ;
}

/// Road length distributes over concatenation.
pub proof fn lemma_road_len_concat(xs: Seq<Segment>, ys: Seq<Segment>)
    ensures
        road_len(xs + ys) == road_len(xs) + road_len(ys),
    decreases xs.len(),
{
    if xs.len() == 0 {
        assert(xs + ys =~= ys);
    } else {
        assert((xs + ys).drop_first() =~= xs.drop_first() + ys);
        assert((xs + ys)[0] == xs[0]);
        lemma_road_len_concat(xs.drop_first(), ys);
    }
}

/// The forward walk stops at the first strictly containing segment:
/// its value is the length of the prefix before that segment plus the
/// distance from the segment's start to the point.
pub proof fn lemma_fwd_stops(segs: Seq<Segment>, p: Coord, i: int)
    requires
        0 <= i < segs.len(),
        strictly_on(segs[i], p),
        forall|j: int| 0 <= j < i ==> !strictly_on(#[trigger] segs[j], p),
    ensures
        length_from_fwd(segs, p) == road_len(segs.subrange(0, i)) + sqrt_floor(
            dist2(segs[i].a, p),
        ),
    decreases i,
{
    if i == 0 {
        assert(segs.subrange(0, 0) =~= Seq::<Segment>::empty());
    } else {
        let rest = segs.drop_first();
        assert(!strictly_on(segs[0], p));
        assert(rest[i - 1] == segs[i]);
        assert(forall|j: int| 0 <= j < i - 1 ==> !strictly_on(#[trigger] rest[j], p));
        lemma_fwd_stops(rest, p, i - 1);
        assert(segs.subrange(0, i).drop_first() =~= rest.subrange(0, i - 1));
        assert(segs.subrange(0, i)[0] == segs[0]);
    }
}

/// The backward walk stops at the last strictly containing segment:
/// its value is the length of the suffix after that segment plus the
/// distance from the segment's end to the point.
pub proof fn lemma_bwd_stops(segs: Seq<Segment>, p: Coord, i: int)
    requires
        0 <= i < segs.len(),
        strictly_on(segs[i], p),
        forall|j: int| i < j < segs.len() ==> !strictly_on(#[trigger] segs[j], p),
    ensures
        length_from_bwd(segs, p) == road_len(segs.subrange(i + 1, segs.len() as int))
            + sqrt_floor(dist2(segs[i].b, p)),
    decreases segs.len(),
{
    let n = segs.len() as int;
    if i == n - 1 {
        assert(segs.subrange(n, n) =~= Seq::<Segment>::empty());
        assert(segs.last() == segs[i]);
    } else {
        let rest = segs.drop_last();
        assert(!strictly_on(segs.last(), p));
        assert(rest[i] == segs[i]);
        assert(forall|j: int| i < j < rest.len() ==> !strictly_on(#[trigger] rest[j], p));
        lemma_bwd_stops(rest, p, i);
        assert(rest.subrange(i + 1, n - 1) =~= segs.subrange(i + 1, n - 1));
        lemma_road_len_concat(segs.subrange(i + 1, n - 1), seq![segs[n - 1]]);
        assert(segs.subrange(i + 1, n) =~= segs.subrange(i + 1, n - 1) + seq![segs[n - 1]]);
        assert(seq![segs[n - 1]].drop_first() =~= Seq::<Segment>::empty());
        assert(seq![segs[n - 1]][0] == segs[n - 1]);
        assert(road_len(Seq::<Segment>::empty()) == 0);
        assert(road_len(seq![segs[n - 1]]) == segs[n - 1].spec_len());
    }
}

/// Partial lengths are additive: for a point lying strictly on exactly
/// one segment of the road, the forward and backward partial lengths
/// add up to the road's total length, up to one unit of rounding.
pub proof fn lemma_partial_lengths_additive(segs: Seq<Segment>, p: Coord, i: int)
    requires
        0 <= i < segs.len(),
        strictly_on(segs[i], p),
        forall|j: int| 0 <= j < segs.len() && j != i ==> !strictly_on(#[trigger] segs[j], p),
    ensures
        road_len(segs) - 1 <= length_from_fwd(segs, p) + length_from_bwd(segs, p),
        length_from_fwd(segs, p) + length_from_bwd(segs, p) <= road_len(segs),
{
    let n = segs.len() as int;
    lemma_fwd_stops(segs, p, i);
    lemma_bwd_stops(segs, p, i);
    lemma_road_len_concat(seq![segs[i]], segs.subrange(i + 1, n));
    lemma_road_len_concat(segs.subrange(0, i), seq![segs[i]] + segs.subrange(i + 1, n));
    assert(segs =~= segs.subrange(0, i) + (seq![segs[i]] + segs.subrange(i + 1, n)));
    assert(seq![segs[i]].drop_first() =~= Seq::<Segment>::empty());
    assert(seq![segs[i]][0] == segs[i]);
    assert(road_len(Seq::<Segment>::empty()) == 0);
    assert(road_len(seq![segs[i]]) == segs[i].spec_len());
    lemma_collinear_additive(segs[i], p);
    crate::coord::lemma_distance_symmetric(p, segs[i].b);
}

impl Road {
    /// Every segment's coordinates are within the accepted range.
    pub open spec fn valid(self) -> bool {
        forall|i: int| 0 <= i < self.segments@.len() ==> (#[trigger] self.segments@[i]).valid()
    }

    /// Midpoint of the road's first start point and last end point,
    /// components rounded down.
    pub fn center(&self) -> (r: Coord)
        requires
            self.valid(),
            self.segments@.len() > 0,
        ensures
            r.lat == (self.segments@[0].a.lat + self.segments@.last().b.lat) / 2,
            r.lon == (self.segments@[0].a.lon + self.segments@.last().b.lon) / 2,
            r.valid(),
    {
        let first = &self.segments[0];
        let last = &self.segments[self.segments.len() - 1];
        let lat: i128 = div_floor(first.a.lat as i128 + last.b.lat as i128, 2);
        let lon: i128 = div_floor(first.a.lon as i128 + last.b.lon as i128, 2);
        Coord { lat: lat as i64, lon: lon as i64 }
    }

    /// Total planar length of the road: the sum of its segment lengths.
    pub fn length(&self) -> (r: u64)
        requires
            self.valid(),
            self.segments@.len() <= 0xFFFF_FFFF,
        ensures
            r == road_len(self.segments@),
    {
        let ghost all = self.segments@;
        let n: usize = self.segments.len();
        let mut total: u64 = 0;
        proof {
            assert(all.subrange(0, n as int) =~= all);
        }
        for i in 0..n
            invariant
                n == all.len() <= 0xFFFF_FFFF,
                all == self.segments@,
                self.valid(),
                total <= i * 2_900_000_000,
                total + road_len(all.subrange(i as int, n as int)) == road_len(all),
        {
            let seg = &self.segments[i];
            proof {
                assert(all.subrange(i as int, n as int).drop_first() =~= all.subrange(
                    i as int + 1,
                    n as int,
                ));
                assert(all.subrange(i as int, n as int)[0] == all[i as int]);
                lemma_seg_len_bounds(all[i as int]);
                lemma_road_len_bounds(all.subrange(i as int + 1, n as int));
            }
            total = total + seg.length();
        }
        proof {
            assert(all.subrange(n as int, n as int) =~= Seq::<Segment>::empty());
        }
        total
    }

    /// Partial length of the road from one of its ends to `point`: walk
    /// the segments from the chosen end, and stop at the first segment
    /// strictly containing `point`, adding only the distance from that
    /// segment's starting endpoint (in walk order) to `point`.  When no
    /// segment strictly contains the point the whole length is returned.
    pub fn length_from(&self, point: &Coord, direction: Direction) -> (r: u64)
        requires
            self.valid(),
            point.valid(),
            self.segments@.len() <= 0xFFFF_FFFF,
        ensures
            r == (match direction {
                Direction::Forward => length_from_fwd(self.segments@, *point),
                Direction::Backward => length_from_bwd(self.segments@, *point),
            }),
    {
        let ghost all = self.segments@;
        let n: usize = self.segments.len();
        let mut total: u64 = 0;
        proof {
            assert(all.subrange(0, n as int) =~= all);
        }
        match &direction {
            Direction::Forward => {
                for i in 0..n
                    invariant
                        n == all.len() <= 0xFFFF_FFFF,
                        all == self.segments@,
                        self.valid(),
                        point.valid(),
                        direction is Forward,
                        total <= i * 2_900_000_000,
                        total + length_from_fwd(all.subrange(i as int, n as int), *point)
                            == length_from_fwd(all, *point),
                {
                    let seg = &self.segments[i];
                    proof {
                        assert(all.subrange(i as int, n as int).drop_first() =~= all.subrange(
                            i as int + 1,
                            n as int,
                        ));
                        assert(all.subrange(i as int, n as int)[0] == all[i as int]);
                        lemma_seg_len_bounds(all[i as int]);
                    }
                    if seg.strictly_contains(point) {
                        let d: u64 = seg.a.distance(point);
                        return total + d;
                    }
                    total = total + seg.length();
                }
            },
            Direction::Backward => {
                for i in 0..n
                    invariant
                        n == all.len() <= 0xFFFF_FFFF,
                        all == self.segments@,
                        self.valid(),
                        point.valid(),
                        direction is Backward,
                        total <= i * 2_900_000_000,
                        total + length_from_bwd(all.subrange(0, n - i), *point)
                            == length_from_bwd(all, *point),
                {
                    let seg = &self.segments[n - 1 - i];
                    proof {
                        assert(all.subrange(0, n - i as int).drop_last() =~= all.subrange(
                            0,
                            n - i - 1,
                        ));
                        assert(all.subrange(0, n - i as int).last() == all[n - 1 - i as int]);
                        lemma_seg_len_bounds(all[n - 1 - i as int]);
                    }
                    if seg.strictly_contains(point) {
                        let d: u64 = seg.b.distance(point);
                        return total + d;
                    }
                    total = total + seg.length();
                }
            },
        }
        proof {
            assert(all.subrange(n as int, n as int) =~= Seq::<Segment>::empty());
            assert(all.subrange(0, 0) =~= Seq::<Segment>::empty());
        }
        total
    }
    /// The distance from `point` to the nearest point of the road, and
    /// that nearest point: the minimum over all segments of the
    /// per-segment nearest point, the first minimal segment winning
    /// ties.  The returned point lies on one of the road's segments.
    /// An empty road yields `u64::MAX` at the origin.
    pub fn distance_from_nearest_point(&self, point: &Coord) -> (r: (u64, Coord))
        requires
            self.valid(),
            point.valid(),
        ensures
            self.segments@.len() == 0 ==> r == (u64::MAX, (Coord { lat: 0, lon: 0 })),
            self.segments@.len() > 0 ==> exists|k: int|
                {
                    &&& 0 <= k < self.segments@.len()
                    &&& r.1 == proj_point(#[trigger] self.segments@[k], *point)
                    &&& on_segment(self.segments@[k], r.1)
                    &&& r.0 == cand_dist(self.segments@[k], *point)
                    &&& (forall|j: int| 0 <= j < k ==> cand_dist(#[trigger] self.segments@[j], *point) > r.0)
                    &&& (forall|j: int|
                        0 <= j < self.segments@.len()
                            ==> cand_dist(#[trigger] self.segments@[j], *point) >= r.0)
                },
    {
        let ghost all = self.segments@;
        let n: usize = self.segments.len();
        let mut best: u64 = u64::MAX;
        let mut best_pt = Coord { lat: 0, lon: 0 };
        let ghost mut bi: int = 0;
        for i in 0..n
            invariant
                n == all.len(),
                all == self.segments@,
                self.valid(),
                point.valid(),
                i == 0 ==> best == u64::MAX && best_pt == (Coord { lat: 0, lon: 0 }),
                i > 0 ==> {
                    &&& 0 <= bi < i
                    &&& best == cand_dist(all[bi], *point)
                    &&& best_pt == proj_point(all[bi], *point)
                    &&& on_segment(all[bi], best_pt)
                    &&& (forall|j: int| 0 <= j < bi ==> cand_dist(#[trigger] all[j], *point) > best)
                    &&& (forall|j: int| 0 <= j < i ==> cand_dist(#[trigger] all[j], *point) >= best)
                },
        {
            let seg = &self.segments[i];
            let tmp: (u64, Coord) = seg.distance_from_point(point);
            if tmp.0 < best {
                best = tmp.0;
                best_pt = tmp.1;
                proof {
                    bi = i as int;
                }
            }
        }
        (best, best_pt)
    }

    /// All intersection points between this road's segments and the
    /// other road's: outer loop over this road, inner loop over the
    /// other, deduplicated by exact coordinate equality, in discovery
    /// order.
    pub fn intersections(&self, with: &Road) -> (r: Vec<Coord>)
        requires
            self.valid(),
            with.valid(),
        ensures
            r@ == collect_all(Seq::<Coord>::empty(), self.segments@, with.segments@),
    {
        let ghost goal = collect_all(Seq::<Coord>::empty(), self.segments@, with.segments@);
        let ghost aseq = self.segments@;
        let ghost bseq = with.segments@;
        let n: usize = self.segments.len();
        let m: usize = with.segments.len();
        let mut result: Vec<Coord> = Vec::new();
        proof {
            assert(aseq.subrange(0, n as int) =~= aseq);
        }
        for i in 0..n
            invariant
                n == aseq.len(),
                m == bseq.len(),
                aseq == self.segments@,
                bseq == with.segments@,
                self.valid(),
                with.valid(),
                collect_all(result@, aseq.subrange(i as int, n as int), bseq) == goal,
        {
            let sa = &self.segments[i];
            proof {
                assert(aseq.subrange(i as int, n as int).drop_first() =~= aseq.subrange(
                    i as int + 1,
                    n as int,
                ));
                assert(aseq.subrange(i as int, n as int)[0] == aseq[i as int]);
                assert(bseq.subrange(0, m as int) =~= bseq);
            }
            for j in 0..m
                invariant
                    n == aseq.len(),
                    m == bseq.len(),
                    aseq == self.segments@,
                    bseq == with.segments@,
                    self.valid(),
                    with.valid(),
                    0 <= i < n,
                    *sa == aseq[i as int],
                    collect_all(
                        collect_row(result@, aseq[i as int], bseq.subrange(j as int, m as int)),
                        aseq.subrange(i as int + 1, n as int),
                        bseq,
                    ) == goal,
            {
                let sb = &with.segments[j];
                proof {
                    assert(bseq.subrange(j as int, m as int).drop_first() =~= bseq.subrange(
                        j as int + 1,
                        m as int,
                    ));
                    assert(bseq.subrange(j as int, m as int)[0] == bseq[j as int]);
                }
                match sa.intersection(sb) {
                    Some(c) => {
                        if !coord_in_vec(&result, &c) {
                            result.push(c);
                        }
                    },
                    None => {},
                }
            }
            proof {
                assert(bseq.subrange(m as int, m as int) =~= Seq::<Segment>::empty());
            }
        }
        proof {
            assert(aseq.subrange(n as int, n as int) =~= Seq::<Segment>::empty());
        }
        result
    }
}

/// Linear scan for an exact coordinate match.
fn coord_in_vec(v: &Vec<Coord>, c: &Coord) -> (r: bool)
    ensures
        r == v@.contains(*c),
{
    let n: usize = v.len();
    for i in 0..n
        invariant
            n == v@.len(),
            forall|k: int| 0 <= k < i ==> v@[k] != *c,
    {
        if v[i].lat == c.lat && v[i].lon == c.lon {
            proof {
                assert(v@[i as int] == *c);
            }
            return true;
        }
    }
    false
}

} // verus!
