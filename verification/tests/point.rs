use topodata::Point;

#[test]
fn distance_sq_of_a_right_triangle() {
    let a = Point { x: 0, y: 0, data: () };
    let b = Point { x: 300, y: -400, data: () };
    assert_eq!(a.distance_sq(&b), 250_000);
    assert_eq!(b.distance_sq(&a), 250_000);
    assert_eq!(a.distance(&b), 500);
}

#[test]
fn distance_ignores_the_payload() {
    let a = Point { x: 100, y: 100, data: 7u8 };
    let b = Point { x: 200, y: 100, data: "height" };
    assert_eq!(a.distance_sq(&b), 10_000);
    assert_eq!(a.distance(&b), 100);
    assert_eq!(b.distance(&a), 100);
}

#[test]
fn distance_rounds_down() {
    let a = Point { x: 0, y: 0, data: () };
    assert_eq!(a.distance_sq(&Point { x: 1, y: 1, data: () }), 2);
    assert_eq!(a.distance(&Point { x: 1, y: 1, data: () }), 1);
    assert_eq!(a.distance(&Point { x: 2, y: 2, data: () }), 2);
    assert_eq!(a.distance(&Point { x: 100, y: 100, data: () }), 141);
    assert_eq!(a.distance(&a), 0);
}

#[test]
fn distance_across_the_whole_range() {
    let a = Point { x: i32::MIN, y: i32::MIN, data: () };
    let b = Point { x: i32::MAX, y: i32::MAX, data: () };
    let side: u128 = (1u128 << 32) - 1;
    assert_eq!(a.distance_sq(&b), 2 * side * side);
    assert_eq!(a.distance(&b), 6_074_000_998);
    let c = Point { x: i32::MAX, y: i32::MIN, data: () };
    assert_eq!(a.distance(&c), 4_294_967_295);
}

#[test]
fn points_compare_by_their_fields() {
    let a = Point { x: 1, y: 2, data: 3 };
    assert_eq!(a, Point { x: 1, y: 2, data: 3 });
    assert_ne!(a, Point { x: 1, y: 2, data: 4 });
    assert_ne!(a, Point { x: 2, y: 1, data: 3 });
    let b = a;
    assert_eq!(a, b.clone());
}
