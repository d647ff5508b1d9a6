//! Checks of the library's stated properties on concrete values, and
//! of the exact distances the fixed-point arithmetic produces.

use core::cmp::Ordering;
use road_geometry::coord::{Coord, Point};
use road_geometry::road::{Direction, Road};
use road_geometry::segment::Segment;

const DEG: i64 = 1_000_000;

fn pt(lat: i64, lon: i64) -> Point {
    Point { lat: lat * DEG, lon: lon * DEG }
}

#[test]
fn distance_symmetry_and_zero() {
    let p = pt(1, 1);
    let q = pt(4, 4);
    assert_eq!(p.distance(&q), q.distance(&p));
    assert_eq!(p.distance(&q), 4_242_640);
    assert_eq!(p.distance(&p), 0);
    let r = Point { lat: 3, lon: -7 };
    assert!(p.distance(&r) > 0);
}

#[test]
fn reverse_preserves_length_and_containment() {
    let s = Segment { a: pt(1, 1), b: pt(4, 4), layer: Some(2) };
    let r = s.reverse();
    assert_eq!(r.a, s.b);
    assert_eq!(r.b, s.a);
    assert_eq!(r.layer, Some(2));
    assert_eq!(s.length(), r.length());
    let inside = pt(3, 3);
    let outside = pt(3, 2);
    assert_eq!(s.contains(&inside), r.contains(&inside));
    assert_eq!(s.contains(&outside), r.contains(&outside));
    assert!(r.contains(&inside));
    assert!(!r.contains(&outside));
}

#[test]
fn endpoints_contained_but_not_strictly() {
    let s = Segment { a: pt(2, -1), b: pt(-3, 5), layer: None };
    assert!(s.contains(&s.a));
    assert!(s.contains(&s.b));
    assert!(!s.strictly_contains(&s.a));
    assert!(!s.strictly_contains(&s.b));
}

#[test]
fn projection_lands_on_segment() {
    let s = Segment { a: pt(1, 1), b: pt(4, 4), layer: None };
    let (d, proj) = s.distance_from_point(&pt(1, 3));
    assert_eq!(proj, pt(2, 2));
    assert!(s.contains(&proj));
    assert_eq!(d, 1_414_213);
    let (d2, proj2) = s.distance_from_point(&pt(-1, 2));
    assert_eq!(proj2, s.a);
    assert_eq!(d2, 2_236_067);
}

#[test]
fn intersection_symmetry() {
    let s = Segment { a: pt(1, 1), b: pt(4, 4), layer: None };
    let t = Segment { a: pt(1, 3), b: pt(3, 1), layer: None };
    assert_eq!(s.intersection(&t), t.intersection(&s));
    assert_eq!(s.intersection(&t), Some(pt(2, 2)));
    let far = Segment { a: pt(11, 3), b: pt(13, 1), layer: None };
    assert_eq!(s.intersection(&far), far.intersection(&s));
}

#[test]
fn same_layer_intersects() {
    let s = Segment { a: pt(1, 1), b: pt(4, 4), layer: Some(1) };
    let t = Segment { a: pt(1, 3), b: pt(3, 1), layer: Some(1) };
    assert_eq!(s.intersection(&t), Some(pt(2, 2)));
    let t_other = Segment { a: pt(1, 3), b: pt(3, 1), layer: Some(0) };
    assert_eq!(s.intersection(&t_other), None);
}

#[test]
fn zero_length_segment_yields_no_intersection() {
    let s = Segment { a: pt(2, 2), b: pt(2, 2), layer: None };
    let t = Segment { a: pt(1, 1), b: pt(4, 4), layer: None };
    assert_eq!(s.intersection(&t), None);
    let (d, nearest) = s.distance_from_point(&pt(2, 3));
    assert_eq!(nearest, pt(2, 2));
    assert_eq!(d, DEG as u64);
}

#[test]
fn nearest_point_lies_on_steep_segment() {
    let s = Segment { a: Coord { lat: 0, lon: 0 }, b: Coord { lat: 1, lon: 3 }, layer: None };
    let p = Coord { lat: 2, lon: 1 };
    let (d, proj) = s.distance_from_point(&p);
    assert!(s.contains(&proj));
    assert_eq!(proj, Coord { lat: 1, lon: 3 });
    assert_eq!(d, 2);
}

#[test]
fn nearest_point_is_minimal_over_lattice_points() {
    let s = Segment { a: Coord { lat: 0, lon: 0 }, b: Coord { lat: 3, lon: 9 }, layer: None };
    let p = Coord { lat: 3, lon: 2 };
    let (d, proj) = s.distance_from_point(&p);
    assert!(s.contains(&proj));
    assert_eq!(proj, Coord { lat: 1, lon: 3 });
    assert_eq!(d, 2);
}

#[test]
fn intersection_brackets_non_lattice_crossing() {
    let s = Segment { a: Coord { lat: 0, lon: 0 }, b: Coord { lat: 1, lon: 3 }, layer: None };
    let t = Segment { a: Coord { lat: 1, lon: 0 }, b: Coord { lat: 0, lon: 3 }, layer: None };
    let crossing = s.intersection(&t);
    assert_eq!(crossing, Some(Coord { lat: 0, lon: 1 }));
    assert_eq!(t.intersection(&s), crossing);
}

#[test]
fn coord_order_is_by_longitude_then_latitude() {
    let low = Coord { lat: 9, lon: 1 };
    let high = Coord { lat: 0, lon: 2 };
    assert_eq!(low.cmp(&high), Ordering::Less);
    assert_eq!(high.cmp(&low), Ordering::Greater);
    let tie = Coord { lat: 3, lon: 1 };
    assert_eq!(tie.cmp(&low), Ordering::Less);
    assert_eq!(low.cmp(&low), Ordering::Equal);
}

#[test]
fn coord_vector_algebra() {
    let p = Coord { lat: 3, lon: -2 };
    let q = Coord { lat: 10, lon: 5 };
    let sum = p.add(q);
    assert_eq!((sum.lat, sum.lon), (13, 3));
    let diff = q.sub(p);
    assert_eq!((diff.lat, diff.lon), (7, 7));
    assert_eq!(p.dot(q), 20i128);
    assert_eq!(Coord { lat: 3, lon: 4 }.norm(), 5);
}

#[test]
fn segment_into_tuple_reads_endpoints() {
    let s = Segment { a: Coord { lat: 1, lon: 2 }, b: Coord { lat: 3, lon: 4 }, layer: None };
    assert_eq!(s.into_tuple(), ((1, 2), (3, 4)));
}

#[test]
fn road_center_and_length() {
    let road = Road {
        name: Some(String::from("diagonal")),
        segments: vec![
            Segment { a: pt(1, 1), b: pt(4, 4), layer: None },
            Segment { a: pt(4, 4), b: pt(5, 4), layer: None },
        ],
        forbidden_to_pedestrians: false,
        forbidden_to_bikes: true,
    };
    let c = road.center();
    assert_eq!(c, Coord { lat: 3 * DEG, lon: 2_500_000 });
    assert_eq!(road.length(), 5_242_640);
}

#[test]
fn road_nearest_point_picks_minimal_segment() {
    let road = Road {
        name: None,
        segments: vec![
            Segment { a: pt(0, 0), b: pt(0, 4), layer: None },
            Segment { a: pt(0, 4), b: pt(4, 4), layer: None },
        ],
        forbidden_to_pedestrians: false,
        forbidden_to_bikes: false,
    };
    let (d, nearest) = road.distance_from_nearest_point(&pt(3, 3));
    assert_eq!(nearest, pt(3, 4));
    assert_eq!(d, DEG as u64);
    let empty = Road {
        name: None,
        segments: vec![],
        forbidden_to_pedestrians: false,
        forbidden_to_bikes: false,
    };
    let (de, ne) = empty.distance_from_nearest_point(&pt(3, 3));
    assert_eq!(de, u64::MAX);
    assert_eq!(ne, Coord { lat: 0, lon: 0 });
}

#[test]
fn road_intersections_deduplicate() {
    let one = Road {
        name: None,
        segments: vec![
            Segment { a: pt(1, 1), b: pt(4, 4), layer: None },
            Segment { a: pt(4, 4), b: pt(1, 1), layer: None },
        ],
        forbidden_to_pedestrians: false,
        forbidden_to_bikes: false,
    };
    let other = Road {
        name: None,
        segments: vec![Segment { a: pt(1, 3), b: pt(3, 1), layer: None }],
        forbidden_to_pedestrians: false,
        forbidden_to_bikes: false,
    };
    let crossings = one.intersections(&other);
    assert_eq!(crossings, vec![pt(2, 2)]);
    let disjoint = Road {
        name: None,
        segments: vec![Segment { a: pt(11, 3), b: pt(13, 1), layer: None }],
        forbidden_to_pedestrians: false,
        forbidden_to_bikes: false,
    };
    assert_eq!(one.intersections(&disjoint), Vec::<Coord>::new());
}

#[test]
fn partial_lengths_follow_the_walk() {
    let road = Road {
        name: None,
        segments: vec![
            Segment { a: pt(1, 1), b: pt(4, 4), layer: None },
            Segment { a: pt(4, 4), b: pt(5, 4), layer: None },
        ],
        forbidden_to_pedestrians: false,
        forbidden_to_bikes: false,
    };
    let point = pt(2, 2);
    assert_eq!(road.length_from(&point, Direction::Forward), 1_414_213);
    assert_eq!(road.length_from(&point, Direction::Backward), 3_828_427);
    let beyond = pt(9, 9);
    assert_eq!(road.length_from(&beyond, Direction::Forward), road.length());
}
