//! Segment and road geometry checks, with coordinates in microdegrees
//! (one degree = 1_000_000 units).

use road_geometry::coord::{Coord, Point};
use road_geometry::road::{Direction, Road};
use road_geometry::segment::Segment;

const DEG: i64 = 1_000_000;

fn pt(lat: i64, lon: i64) -> Point {
    Point { lat: lat * DEG, lon: lon * DEG }
}

#[test]
fn nearest_point_from_segment_near_test() {
    let segment = Segment { a: pt(1, 1), b: pt(4, 4), layer: None };
    let point = pt(1, 3);

    assert_eq!(segment.distance_from_point(&point).1, pt(2, 2));
}

#[test]
fn nearest_point_from_segment_far_left_test() {
    let segment = Segment { a: pt(1, 1), b: pt(4, 4), layer: None };
    let point = pt(-1, 2);

    assert_eq!(segment.distance_from_point(&point).1, pt(1, 1));
}

#[test]
fn nearest_point_from_segment_far_right_test() {
    let segment = Segment { a: pt(1, 1), b: pt(4, 4), layer: None };
    let point = pt(6, 5);

    assert_eq!(segment.distance_from_point(&point).1, pt(4, 4));
}

#[test]
fn segment_intersection_easy_test() {
    let first_segment = Segment { a: pt(1, 1), b: pt(4, 4), layer: None };
    let second_segment = Segment { a: pt(1, 3), b: pt(3, 1), layer: None };
    assert_eq!(first_segment.intersection(&second_segment), Some(pt(2, 2)));
}

#[test]
fn segment_intersection_end_test() {
    let first_segment = Segment { a: pt(1, 1), b: pt(4, 4), layer: None };
    let second_segment = Segment { a: pt(-1, 3), b: pt(1, 1), layer: None };
    assert_eq!(first_segment.intersection(&second_segment), Some(first_segment.a));
}

#[test]
fn segment_intersection_none_test() {
    let first_segment = Segment { a: pt(1, 1), b: pt(4, 4), layer: None };
    let second_segment = Segment { a: pt(11, 3), b: pt(13, 1), layer: None };
    assert_eq!(first_segment.intersection(&second_segment), None);
}

#[test]
fn on_segment_test() {
    let segment = Segment { a: pt(1, 1), b: pt(4, 4), layer: None };
    let first_point = pt(2, 2);
    let second_point = pt(5, 5);
    let third_point = pt(1, 1);
    assert_eq!(segment.contains(&first_point), true);
    assert_eq!(segment.contains(&second_point), false);
    assert_eq!(segment.contains(&third_point), true);
    assert_eq!(segment.strictly_contains(&third_point), false);
    assert_eq!(segment.strictly_contains(&second_point), false);
    assert_eq!(segment.strictly_contains(&first_point), true);
}

#[test]
fn partial_length_test() {
    let road = Road {
        name: None,
        segments: vec![
            Segment { a: pt(1, 1), b: pt(4, 4), layer: None },
            Segment { a: pt(4, 4), b: pt(5, 4), layer: None },
        ],
        forbidden_to_pedestrians: false,
        forbidden_to_bikes: false,
    };
    let point = pt(2, 2);
    let back = road.length_from(&point, Direction::Backward) as i128;
    let forth = road.length_from(&point, Direction::Forward) as i128;
    let total = road.length() as i128;
    assert!((back + forth - total).abs() <= 1);
}

#[test]
fn contiguity_test() {
    let first_segment = Segment { a: pt(1, 1), b: pt(1, 2), layer: None };
    let second_segment = Segment { a: pt(5, 1), b: pt(1, 2), layer: None };
    let third_segment = Segment { a: pt(1, 1), b: pt(6, 3), layer: None };
    let fourth_segment = Segment { b: pt(1, 1), a: pt(7, -1), layer: None };
    let non_contiguous_segment = Segment { b: pt(-1, 1), a: pt(7, -1), layer: None };
    assert!(first_segment.is_contiguous(&second_segment));
    assert!(first_segment.is_contiguous(&third_segment));
    assert!(first_segment.is_contiguous(&fourth_segment));
    assert_eq!(first_segment.is_contiguous(&non_contiguous_segment), false);
    assert_eq!(first_segment.is_contiguous(&first_segment), false);
}

#[test]
fn segment_intersection_layer_test() {
    let first_segment = Segment { a: pt(1, 1), b: pt(4, 4), layer: Some(0) };
    let second_segment = Segment { a: pt(1, 3), b: pt(3, 1), layer: Some(-1) };
    let third_segment = Segment { b: pt(1, 1), a: pt(-4, -2), layer: Some(-1) };
    assert_eq!(first_segment.intersection(&second_segment), None);
    assert_eq!(first_segment.intersection(&third_segment), Some(Coord { lat: DEG, lon: DEG }));
}
