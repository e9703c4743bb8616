use nalgebra::{Point3, Unit, Vector2, Vector3};
use nav_types::{ECEF, WGS84};
use std::cell::Cell;
use std::f64::consts::PI;
use tile_index::region::{
    edge_ends, face_edges, find_separating_axis, holds_all_corners, map_size, relate, Axis, Probe,
    EDGES, FACES, MAX_ELEVATION_M, MIN_ELEVATION_M,
};
use tile_index::region::Relation;

const EPSILON: f64 = 1e-10;

struct Solid {
    corners: [Point3<f64>; 8],
    edges: Vec<Unit<Vector3<f64>>>,
    face_normals: Vec<Unit<Vector3<f64>>>,
}

fn solid(corners: [Point3<f64>; 8]) -> Solid {
    let mut edges: Vec<Unit<Vector3<f64>>> = Vec::new();
    for i in 0..EDGES {
        let (from, to) = edge_ends(i);
        edges.push(Unit::new_normalize(corners[to] - corners[from]));
    }
    let mut face_normals = Vec::new();
    for i in 0..FACES {
        let (first, second) = face_edges(i);
        face_normals.push(Unit::new_normalize(edges[first].as_ref().cross(edges[second].as_ref())));
    }
    Solid { corners, edges, face_normals }
}

fn cuboid(min: [f64; 3], max: [f64; 3]) -> Solid {
    solid([
        Point3::new(min[0], min[1], min[2]),
        Point3::new(max[0], min[1], min[2]),
        Point3::new(max[0], max[1], min[2]),
        Point3::new(min[0], max[1], min[2]),
        Point3::new(min[0], min[1], max[2]),
        Point3::new(max[0], min[1], max[2]),
        Point3::new(max[0], max[1], max[2]),
        Point3::new(min[0], max[1], max[2]),
    ])
}

fn interval(corners: &[Point3<f64>], axis: &Vector3<f64>) -> (f64, f64) {
    let mut min = f64::INFINITY;
    let mut max = f64::NEG_INFINITY;
    for corner in corners {
        let d = corner.coords.dot(axis);
        min = min.min(d);
        max = max.max(d);
    }
    (min, max)
}

fn within(normal: &Vector3<f64>, own: &[Point3<f64>], point: &Point3<f64>) -> bool {
    let (min, max) = interval(own, normal);
    let d = point.coords.dot(normal);
    min <= d && d <= max
}

fn intersect_parts(
    a: &Solid,
    b_corners: &[Point3<f64>; 8],
    b_edges: &[Unit<Vector3<f64>>],
    b_normals: &[Unit<Vector3<f64>>],
) -> Relation {
    let probe = |axis: Axis| -> Probe {
        let direction = match axis {
            Axis::OwnFace(i) => a.face_normals[i].into_inner(),
            Axis::OtherFace(j) => b_normals[j].into_inner(),
            Axis::EdgePair(i, j) => {
                let cross = a.edges[i].as_ref().cross(b_edges[j].as_ref());
                if cross.norm() < EPSILON {
                    return Probe::Degenerate;
                }
                cross.normalize()
            }
        };
        let (a_min, a_max) = interval(&a.corners, &direction);
        let (b_min, b_max) = interval(b_corners, &direction);
        if a_max < b_min || b_max < a_min {
            Probe::Separated
        } else {
            Probe::Overlapping
        }
    };
    let own_holds = |face: usize, corner: usize| {
        within(a.face_normals[face].as_ref(), &a.corners, &b_corners[corner])
    };
    let other_holds =
        |face: usize, corner: usize| within(b_normals[face].as_ref(), b_corners, &a.corners[corner]);
    relate(b_normals.len(), b_edges.len(), &probe, &own_holds, &other_holds)
}

fn intersect(a: &Solid, b: &Solid) -> Relation {
    intersect_parts(a, &b.corners, &b.edges, &b.face_normals)
}

fn intersect_aabb(a: &Solid, min: [f64; 3], max: [f64; 3]) -> Relation {
    let b = cuboid(min, max);
    let axes = [Vector3::x_axis(), Vector3::y_axis(), Vector3::z_axis()];
    intersect_parts(a, &b.corners, &axes, &axes)
}

fn lat_lng(point: Vector2<f64>, z: u8) -> Option<(f64, f64)> {
    let size = f64::from(map_size(z)?);
    if point.min() < 0.0 || point.max() >= size {
        return None;
    }
    let lng = point.x / size * 360.0 - 180.0;
    let lat = (PI * (1.0 - 2.0 * point.y / size)).sinh().atan().to_degrees();
    Some((lat, lng))
}

fn web_mercator_rect(min: Vector2<f64>, max: Vector2<f64>, z: u8) -> Option<Solid> {
    let n_w = lat_lng(min.inf(&max), z)?;
    let s_e = lat_lng(min.sup(&max), z)?;
    let ecef_point = |lat: f64, lng: f64, elevation: f64| -> Point3<f64> {
        let ecef = ECEF::from(WGS84::from_degrees_and_meters(lat, lng, elevation));
        Point3::new(ecef.x(), ecef.y(), ecef.z())
    };
    let low = f64::from(MIN_ELEVATION_M);
    let high = f64::from(MAX_ELEVATION_M);
    Some(solid([
        ecef_point(n_w.0, n_w.1, low),
        ecef_point(n_w.0, s_e.1, low),
        ecef_point(s_e.0, s_e.1, low),
        ecef_point(s_e.0, n_w.1, low),
        ecef_point(n_w.0, n_w.1, high),
        ecef_point(n_w.0, s_e.1, high),
        ecef_point(s_e.0, s_e.1, high),
        ecef_point(s_e.0, n_w.1, high),
    ]))
}

#[test]
fn intersection_test() {
    let rect_1 =
        web_mercator_rect(Vector2::new(1.0, 1.0), Vector2::new(3.0, 3.0), 1).unwrap();
    let rect_2 =
        web_mercator_rect(Vector2::new(4.0, 4.0), Vector2::new(5.0, 5.0), 1).unwrap();
    let rect_3 =
        web_mercator_rect(Vector2::new(2.0, 2.0), Vector2::new(6.0, 6.0), 1).unwrap();
    assert_eq!(intersect(&rect_1, &rect_2), Relation::Out);
    assert_eq!(intersect(&rect_1, &rect_3), Relation::Cross);
    // Why Cross and not In? Because rect_2 is taller than rect_3.
    assert_eq!(intersect(&rect_3, &rect_2), Relation::Cross);
}

#[test]
fn rectangles_off_the_map_are_refused() {
    assert!(web_mercator_rect(Vector2::new(1.0, 1.0), Vector2::new(3.0, 3.0), 24).is_none());
    assert!(web_mercator_rect(Vector2::new(-1.0, 1.0), Vector2::new(3.0, 3.0), 1).is_none());
    assert!(web_mercator_rect(Vector2::new(1.0, 1.0), Vector2::new(512.0, 3.0), 1).is_none());
    assert!(web_mercator_rect(Vector2::new(1.0, 1.0), Vector2::new(511.0, 3.0), 1).is_some());
}

#[test]
fn a_box_far_away_is_out() {
    let a = cuboid([0.0, 0.0, 0.0], [10.0, 10.0, 10.0]);
    assert_eq!(intersect_aabb(&a, [100.0, 100.0, 100.0], [110.0, 110.0, 110.0]), Relation::Out);
    assert_eq!(intersect_aabb(&a, [-50.0, 2.0, 2.0], [-40.0, 3.0, 3.0]), Relation::Out);
    assert_eq!(intersect_aabb(&a, [2.0, 2.0, 10.5], [3.0, 3.0, 11.0]), Relation::Out);
}

#[test]
fn a_box_well_inside_is_in() {
    let a = cuboid([0.0, 0.0, 0.0], [10.0, 10.0, 10.0]);
    assert_eq!(intersect_aabb(&a, [2.0, 2.0, 2.0], [3.0, 3.0, 3.0]), Relation::In);
    assert_eq!(intersect_aabb(&a, [-5.0, -5.0, -5.0], [20.0, 20.0, 20.0]), Relation::In);
}

#[test]
fn a_box_partly_over_is_cross() {
    let a = cuboid([0.0, 0.0, 0.0], [10.0, 10.0, 10.0]);
    assert_eq!(intersect_aabb(&a, [5.0, 5.0, 5.0], [15.0, 15.0, 15.0]), Relation::Cross);
    assert_eq!(intersect_aabb(&a, [2.0, 2.0, -5.0], [3.0, 3.0, 15.0]), Relation::Cross);
}

#[test]
fn a_slanted_bar_is_out_above_and_cross_through() {
    let s = 0.5f64.sqrt();
    let bar = solid([
        Point3::new(-10.0 * s, -10.0 * s - 0.1 * s, 0.0),
        Point3::new(10.0 * s, 10.0 * s - 0.1 * s, 0.0),
        Point3::new(10.0 * s - 0.2 * s, 10.0 * s + 0.1 * s, 0.2 * s),
        Point3::new(-10.0 * s - 0.2 * s, -10.0 * s + 0.1 * s, 0.2 * s),
        Point3::new(-10.0 * s, -10.0 * s - 0.1 * s, 0.3),
        Point3::new(10.0 * s, 10.0 * s - 0.1 * s, 0.3),
        Point3::new(10.0 * s - 0.2 * s, 10.0 * s + 0.1 * s, 0.2 * s + 0.3),
        Point3::new(-10.0 * s - 0.2 * s, -10.0 * s + 0.1 * s, 0.2 * s + 0.3),
    ]);
    let far = intersect_aabb(&bar, [-1.0, -1.0, 5.0], [1.0, 1.0, 6.0]);
    assert_eq!(far, Relation::Out);
    let through = intersect_aabb(&bar, [-1.0, -1.0, -1.0], [1.0, 1.0, 1.0]);
    assert_eq!(through, Relation::Cross);
}

#[test]
fn the_search_stops_at_the_first_axis_that_separates() {
    let calls = Cell::new(0u32);
    let probe = |axis: Axis| {
        calls.set(calls.get() + 1);
        if axis == Axis::OtherFace(1) {
            Probe::Separated
        } else {
            Probe::Overlapping
        }
    };
    assert_eq!(find_separating_axis(3, 3, &probe), Some(Axis::OtherFace(1)));
    assert_eq!(calls.get(), 6 + 2);
}

#[test]
fn every_axis_is_tried_when_none_separates() {
    let calls = Cell::new(0u32);
    let probe = |axis: Axis| {
        calls.set(calls.get() + 1);
        match axis {
            Axis::EdgePair(i, j) if i == j => Probe::Degenerate,
            _ => Probe::Overlapping,
        }
    };
    assert_eq!(find_separating_axis(6, 12, &probe), None);
    assert_eq!(calls.get(), 6 + 6 + 12 * 12);
    calls.set(0);
    assert_eq!(find_separating_axis(3, 3, &probe), None);
    assert_eq!(calls.get(), 6 + 3 + 12 * 3);
    let last = |axis: Axis| {
        if axis == Axis::EdgePair(11, 2) {
            Probe::Separated
        } else {
            Probe::Overlapping
        }
    };
    assert_eq!(find_separating_axis(3, 3, &last), Some(Axis::EdgePair(11, 2)));
}

#[test]
fn one_corner_outside_one_face_is_enough() {
    assert!(holds_all_corners(6, &|_: usize, _: usize| true));
    assert!(!holds_all_corners(6, &|face: usize, corner: usize| !(face == 5 && corner == 7)));
    assert!(!holds_all_corners(3, &|face: usize, corner: usize| !(face == 0 && corner == 0)));
    assert!(holds_all_corners(3, &|face: usize, corner: usize| !(face == 5 && corner == 7)));
    assert!(holds_all_corners(0, &|_: usize, _: usize| false));
}

#[test]
fn containment_is_asked_only_when_nothing_separates() {
    let never = |_: Axis| Probe::Overlapping;
    let always = |_: Axis| Probe::Separated;
    let yes = |_: usize, _: usize| true;
    let no = |_: usize, _: usize| false;
    assert_eq!(relate(3, 3, &always, &yes, &yes), Relation::Out);
    assert_eq!(relate(3, 3, &never, &yes, &no), Relation::In);
    assert_eq!(relate(3, 3, &never, &no, &yes), Relation::In);
    assert_eq!(relate(3, 3, &never, &no, &no), Relation::Cross);
    assert_eq!(relate(6, 12, &never, &no, &no), Relation::Cross);
}
