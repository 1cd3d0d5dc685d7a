use topodata::{Area, Point};

/// A length in metres as the library counts it, in hundredths.
fn fixed(metres: f32) -> i32 {
    (metres * 100.0).round() as i32
}

fn reach(metres: f32) -> u32 {
    (metres * 100.0).round() as u32
}

fn point(x: f32, y: f32) -> Point {
    Point { x: fixed(x), y: fixed(y), data: () }
}

#[test]
fn area_intersects() {
    let cases = [
        (
            Area { center: point(0.0, 0.0), radius: reach(1.0) },
            Area { center: point(0.0, 0.0), radius: reach(1.0) },
            true,
        ),
        (
            Area { center: point(0.0, 0.0), radius: reach(1.0) },
            Area { center: point(2.0, 2.0), radius: reach(1.0) },
            true,
        ),
        (
            Area { center: point(0.0, 0.0), radius: reach(1.0) },
            Area { center: point(2.0, 2.0), radius: reach(0.9) },
            false,
        ),
    ];

    for (a1, a2, expected) in &cases {
        assert_eq!(a1.intersects(a2), *expected);
        assert_eq!(a2.intersects(a1), *expected);
    }
}

#[test]
fn intersects_is_symmetric_on_one_axis() {
    let a = Area { center: point(0.0, 0.0), radius: 100 };
    let b = Area { center: point(3.0, 0.0), radius: 100 };
    assert!(!a.intersects(&b));
    assert!(!b.intersects(&a));
    let c = Area { center: point(0.0, 3.0), radius: 200 };
    assert!(a.intersects(&c));
    assert!(c.intersects(&a));
}

#[test]
fn intersects_at_the_ends_of_the_range() {
    let a = Area { center: Point { x: i32::MIN, y: i32::MIN, data: () }, radius: u32::MAX };
    let b = Area { center: Point { x: i32::MAX, y: i32::MAX, data: () }, radius: 0 };
    assert!(a.intersects(&b));
    let c = Area { center: Point { x: i32::MIN, y: i32::MIN, data: () }, radius: u32::MAX - 1 };
    assert!(!c.intersects(&b));
    assert!(!b.intersects(&c));
}

#[test]
fn point_inside_includes_the_border() {
    let area = Area { center: point(1.0, -1.0), radius: reach(2.0) };
    assert!(area.is_point_inside(&point(1.0, -1.0)));
    assert!(area.is_point_inside(&point(3.0, 1.0)));
    assert!(area.is_point_inside(&point(-1.0, -3.0)));
    assert!(area.is_point_inside(&point(3.0, -3.0)));
    assert!(!area.is_point_inside(&point(3.01, 0.0)));
    assert!(!area.is_point_inside(&point(0.0, 1.01)));
    assert!(!area.is_point_inside(&point(-1.01, 0.0)));
    assert!(!area.is_point_inside(&point(0.0, -3.01)));
}

#[test]
fn point_inside_at_the_ends_of_the_range() {
    let area = Area { center: Point { x: i32::MAX, y: i32::MIN, data: () }, radius: u32::MAX };
    assert!(area.is_point_inside(&Point { x: i32::MIN, y: i32::MAX, data: () }));
    let small = Area { center: Point { x: i32::MAX, y: i32::MIN, data: () }, radius: 1 };
    assert!(small.is_point_inside(&Point { x: i32::MAX - 1, y: i32::MIN + 1, data: () }));
    assert!(!small.is_point_inside(&Point { x: i32::MAX - 2, y: i32::MIN, data: () }));
}

#[test]
fn from_points_is_centered_on_the_bounding_box() {
    let points = [point(0.0, 0.0), point(4.0, 2.0), point(1.0, 1.0)];
    let area = Area::from_points(&points);
    assert_eq!(area.center, point(2.0, 1.0));
    assert_eq!(area.radius, reach(2.0));
}

#[test]
fn from_points_takes_the_larger_side() {
    let points = [point(-1.0, -5.0), point(1.0, 5.0)];
    let area = Area::from_points(&points);
    assert_eq!(area.center, point(0.0, 0.0));
    assert_eq!(area.radius, reach(5.0));
}

#[test]
fn from_points_rounds_odd_sides_outwards() {
    let points = [
        Point { x: 0, y: 0, data: () },
        Point { x: 3, y: 1, data: () },
    ];
    let area = Area::from_points(&points);
    assert_eq!(area.center, Point { x: 1, y: 0, data: () });
    assert_eq!(area.radius, 2);
    for p in &points {
        assert!(area.is_point_inside(p));
    }
}

#[test]
fn from_points_of_one_point() {
    let points = [point(12.5, -3.25)];
    let area = Area::from_points(&points);
    assert_eq!(area.center, point(12.5, -3.25));
    assert_eq!(area.radius, 0);
    assert!(area.is_point_inside(&points[0]));
}

#[test]
fn from_points_contains_every_point() {
    let points = [
        point(374000.0, 31000.0),
        point(374012.5, 31999.99),
        point(373000.01, 31500.0),
        point(374500.0, 30000.0),
        point(373999.99, 31000.01),
    ];
    let area = Area::from_points(&points);
    for p in &points {
        assert!(area.is_point_inside(p));
    }
}

#[test]
fn from_points_over_the_whole_range() {
    let points = [
        Point { x: i32::MIN, y: i32::MAX, data: () },
        Point { x: i32::MAX, y: i32::MIN, data: () },
    ];
    let area = Area::from_points(&points);
    assert_eq!(area.center, Point { x: -1, y: -1, data: () });
    assert_eq!(area.radius, 1 << 31);
    for p in &points {
        assert!(area.is_point_inside(p));
    }
}
