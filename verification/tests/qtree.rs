use topodata::qtree::{InsertError, QuadTree, QueryError, MAX_POINTS};
use topodata::{Area, Point};

fn point(x: i32, y: i32) -> Point {
    Point { x, y, data: () }
}

/// A point given in metres.
fn metres(x: i32, y: i32) -> Point {
    point(x * 100, y * 100)
}

fn square(x: i32, y: i32, radius: u32) -> Area {
    Area { center: point(x, y), radius }
}

fn buffer(len: usize) -> Vec<Point> {
    vec![point(i32::MIN, i32::MIN); len]
}

fn sorted(points: &[Point]) -> Vec<(i32, i32)> {
    let mut keys: Vec<(i32, i32)> = points.iter().map(|p| (p.x, p.y)).collect();
    keys.sort();
    keys
}

#[test]
fn new_tree_is_empty() {
    let mut tree = QuadTree::new(square(0, 0, 1000));
    assert_eq!(tree.size(), 0);
    let mut results = buffer(0);
    assert_eq!(tree.query(&square(0, 0, 1000), &mut results), Ok(0));
}

#[test]
fn four_points_in_a_small_area() {
    let mut tree = QuadTree::new(square(0, 0, 1000));
    assert_eq!(tree.insert(metres(1, 1)), Ok(()));
    assert_eq!(tree.insert(metres(-5, -5)), Ok(()));
    assert_eq!(tree.insert(metres(5, 5)), Ok(()));
    assert_eq!(tree.insert(metres(-1, -1)), Ok(()));
    assert_eq!(tree.size(), 4);

    let mut results = buffer(4);
    let found = tree.query(&square(0, 0, 100), &mut results);
    assert_eq!(found, Ok(2));
    assert_eq!(&results[..2], &[metres(1, 1), metres(-1, -1)]);
    assert_eq!(&results[2..], &buffer(2)[..]);
    assert_eq!(tree.size(), 4);

    let far = tree.query(&square(10000, 10000, 100), &mut results);
    assert_eq!(far, Err(QueryError::OutsideArea));
    assert_eq!(&results[..2], &[metres(1, 1), metres(-1, -1)]);
}

#[test]
fn insert_outside_is_refused() {
    let mut tree = QuadTree::new(square(0, 0, 1000));
    assert_eq!(tree.insert(metres(1, 1)), Ok(()));
    assert_eq!(tree.insert(point(1001, 0)), Err(InsertError::OutsideArea));
    assert_eq!(tree.insert(point(0, -1001)), Err(InsertError::OutsideArea));
    assert_eq!(tree.insert(point(i32::MAX, i32::MAX)), Err(InsertError::OutsideArea));
    assert_eq!(tree.size(), 1);
    assert_eq!(tree.insert(point(1000, -1000)), Ok(()));
    assert_eq!(tree.size(), 2);
}

#[test]
fn inserted_point_is_found_by_any_area_around_it() {
    let mut tree = QuadTree::new(square(0, 0, 100_000));
    for i in 0..50 {
        assert_eq!(tree.insert(point(i * 37 - 900, 800 - i * 29)), Ok(()));
    }
    let p = point(1234, -4321);
    assert_eq!(tree.insert(p), Ok(()));
    let areas = [
        square(1234, -4321, 0),
        square(1200, -4300, 50),
        square(0, 0, 100_000),
        square(101_234, -4321, 100_000),
        square(1234, 95_679, 100_000),
    ];
    for area in &areas {
        let mut results = buffer(tree.size());
        let n = tree.query(area, &mut results).unwrap();
        assert!(results[..n].contains(&p));
    }
}

#[test]
fn query_touching_the_tree_area_from_outside() {
    let mut tree = QuadTree::new(square(0, 0, 1000));
    assert_eq!(tree.insert(point(1000, 0)), Ok(()));
    let mut results = buffer(1);
    assert_eq!(tree.query(&square(1500, 0, 500), &mut results), Ok(1));
    assert_eq!(results[0], point(1000, 0));
    assert_eq!(tree.query(&square(1500, 0, 499), &mut results), Err(QueryError::OutsideArea));
    assert_eq!(tree.query(&square(0, 2000, 1000), &mut results), Ok(0));
    assert_eq!(results[0], point(1000, 0));
}

#[test]
fn query_remove_takes_the_points_out() {
    let mut tree = QuadTree::new(square(0, 0, 1000));
    for i in -10..=10 {
        assert_eq!(tree.insert(point(i * 50, i * 50)), Ok(()));
    }
    assert_eq!(tree.size(), 21);

    let area = square(0, 0, 100);
    let mut results = buffer(21);
    let n = tree.query_remove(&area, &mut results).unwrap();
    assert_eq!(n, 5);
    assert_eq!(
        sorted(&results[..n]),
        vec![(-100, -100), (-50, -50), (0, 0), (50, 50), (100, 100)]
    );
    assert_eq!(&results[n..], &buffer(16)[..]);
    assert_eq!(tree.size(), 16);

    let mut again = buffer(16);
    assert_eq!(tree.query(&area, &mut again), Ok(0));
    assert_eq!(tree.query_remove(&area, &mut again), Ok(0));
    assert_eq!(tree.size(), 16);

    let n = tree.query(&square(0, 0, 1000), &mut again).unwrap();
    assert_eq!(n, 16);
    let mut expected: Vec<(i32, i32)> =
        (-10..=10).filter(|i: &i32| i.abs() > 2).map(|i| (i * 50, i * 50)).collect();
    expected.sort();
    assert_eq!(sorted(&again[..n]), expected);
}

#[test]
fn query_remove_outside_changes_nothing() {
    let mut tree = QuadTree::new(square(0, 0, 1000));
    assert_eq!(tree.insert(point(5, 5)), Ok(()));
    let mut results = buffer(1);
    assert_eq!(
        tree.query_remove(&square(5000, 5000, 10), &mut results),
        Err(QueryError::OutsideArea)
    );
    assert_eq!(results, buffer(1));
    assert_eq!(tree.size(), 1);
}

#[test]
fn query_keeps_equal_points_apart() {
    let mut tree = QuadTree::new(square(0, 0, 1000));
    for _ in 0..3 {
        assert_eq!(tree.insert(point(7, 7)), Ok(()));
    }
    assert_eq!(tree.insert(point(8, 8)), Ok(()));
    let mut results = buffer(4);
    assert_eq!(tree.query(&square(7, 7, 0), &mut results), Ok(3));
    assert_eq!(&results[..3], &[point(7, 7), point(7, 7), point(7, 7)]);
    assert_eq!(tree.query_remove(&square(7, 7, 0), &mut results), Ok(3));
    assert_eq!(tree.size(), 1);
}

#[test]
fn subdivision_keeps_every_point_once() {
    let root = square(0, 0, 100_000);
    let mut tree = QuadTree::new(square(0, 0, 100_000));
    let mut inserted = Vec::new();
    for i in 0..(MAX_POINTS as i32 + 1) {
        let p = point((i * 7919) % 20_011 - 10_000, (i * 104_729) % 20_021 - 10_000);
        assert_eq!(tree.insert(p), Ok(()));
        inserted.push(p);
    }
    assert_eq!(tree.size(), MAX_POINTS + 1);

    let mut results = buffer(MAX_POINTS + 1);
    let n = tree.query(&root, &mut results).unwrap();
    assert_eq!(n, MAX_POINTS + 1);
    assert_eq!(sorted(&results), sorted(&inserted));
}

#[test]
fn subdivision_of_one_quarter_after_another() {
    let root = square(0, 0, 1 << 20);
    let mut tree = QuadTree::new(square(0, 0, 1 << 20));
    let mut inserted = Vec::new();
    for i in 0..5000 {
        let p = point(1000 + i % 70, 1000 + i / 70);
        assert_eq!(tree.insert(p), Ok(()));
        inserted.push(p);
    }
    assert_eq!(tree.size(), 5000);
    let mut results = buffer(5000);
    assert_eq!(tree.query(&root, &mut results), Ok(5000));
    assert_eq!(sorted(&results), sorted(&inserted));

    let part = square(1010, 1010, 10);
    let expected: Vec<Point> =
        inserted.iter().filter(|p| part.is_point_inside(p)).cloned().collect();
    assert_eq!(expected.len(), 21 * 21);
    let n = tree.query_remove(&part, &mut results).unwrap();
    assert_eq!(n, expected.len());
    assert_eq!(sorted(&results[..n]), sorted(&expected));
    assert_eq!(tree.size(), 5000 - expected.len());
    assert_eq!(tree.query(&part, &mut results), Ok(0));
}

#[test]
fn points_at_the_seams_of_the_quarters() {
    let root = square(0, 0, 1001);
    let mut tree = QuadTree::new(square(0, 0, 1001));
    let mut inserted = Vec::new();
    for i in 0..(MAX_POINTS as i32 + 200) {
        let p = match i % 4 {
            0 => point(0, i - 600),
            1 => point(i - 600, 0),
            2 => point(1001, 1001 - i),
            _ => point(-1001, i - 1001),
        };
        assert_eq!(tree.insert(p), Ok(()));
        inserted.push(p);
    }
    let mut results = buffer(inserted.len());
    assert_eq!(tree.query(&root, &mut results), Ok(inserted.len()));
    assert_eq!(sorted(&results), sorted(&inserted));
}

#[test]
fn many_points_in_one_place() {
    let mut tree = QuadTree::new(square(0, 0, 1 << 16));
    let count = 3 * MAX_POINTS;
    for _ in 0..count {
        assert_eq!(tree.insert(point(-321, 123)), Ok(()));
    }
    assert_eq!(tree.size(), count);
    let mut results = buffer(count);
    assert_eq!(tree.query(&square(-321, 123, 0), &mut results), Ok(count));
    assert!(results.iter().all(|p| *p == point(-321, 123)));
    assert_eq!(tree.query_remove(&square(-300, 100, 50), &mut results), Ok(count));
    assert_eq!(tree.size(), 0);
}

#[test]
fn small_area_is_never_divided() {
    let mut tree = QuadTree::new(square(10, 10, 2));
    let count = MAX_POINTS + 500;
    for i in 0..count as i32 {
        assert_eq!(tree.insert(point(8 + i % 5, 8 + (i / 5) % 5)), Ok(()));
    }
    assert_eq!(tree.insert(point(13, 10)), Err(InsertError::OutsideArea));
    assert_eq!(tree.size(), count);
    let mut results = buffer(count);
    assert_eq!(tree.query(&square(10, 10, 2), &mut results), Ok(count));
    // Every point is seen from every place: the first of the nearest wins.
    assert_eq!(tree.nearest(&point(12, 12)), Ok(Some(&point(12, 12))));
    assert_eq!(tree.nearest(&point(8, 8)), Ok(Some(&point(8, 8))));
    assert_eq!(tree.query_remove(&square(8, 8, 0), &mut results), Ok(count / 25));
    let next = tree.nearest(&point(8, 8)).unwrap().unwrap();
    assert_eq!(next.distance_sq(&point(8, 8)), 1);
}

#[test]
fn tree_at_the_end_of_the_range() {
    let root = Area { center: point(i32::MAX, i32::MIN), radius: u32::MAX };
    let mut tree = QuadTree::new(root);
    let mut inserted = Vec::new();
    for i in 0..(MAX_POINTS as i32 + 50) {
        let p = point(i32::MAX - i * 1000, i32::MIN + i * 2000);
        assert_eq!(tree.insert(p), Ok(()));
        inserted.push(p);
    }
    assert_eq!(tree.insert(point(i32::MIN, i32::MAX)), Ok(()));
    inserted.push(point(i32::MIN, i32::MAX));
    let mut results = buffer(inserted.len());
    let all = Area { center: point(0, 0), radius: u32::MAX };
    assert_eq!(tree.query(&all, &mut results), Ok(inserted.len()));
    assert_eq!(sorted(&results), sorted(&inserted));
}

#[test]
fn nearest_on_an_empty_tree() {
    let tree = QuadTree::new(square(0, 0, 1000));
    assert_eq!(tree.nearest(&point(0, 0)), Ok(None));
    assert_eq!(tree.nearest(&point(1000, -1000)), Ok(None));
}

#[test]
fn nearest_with_one_point() {
    let mut tree = QuadTree::new(square(0, 0, 1000));
    let p = point(400, -300);
    assert_eq!(tree.insert(p), Ok(()));
    for q in [point(0, 0), point(400, -300), point(-1000, 1000), point(1000, 1000)] {
        assert_eq!(tree.nearest(&q), Ok(Some(&p)));
    }
}

#[test]
fn nearest_outside_is_refused() {
    let mut tree = QuadTree::new(square(0, 0, 1000));
    assert_eq!(tree.insert(point(1, 1)), Ok(()));
    assert_eq!(tree.nearest(&point(1001, 0)), Err(QueryError::OutsideArea));
    assert_eq!(tree.nearest(&point(0, -1001)), Err(QueryError::OutsideArea));
}

#[test]
fn nearest_picks_the_least_distance() {
    let mut tree = QuadTree::new(square(0, 0, 1000));
    for p in [point(100, 100), point(-50, -50), point(500, 500), point(-10, 20)] {
        assert_eq!(tree.insert(p), Ok(()));
    }
    assert_eq!(tree.nearest(&point(0, 0)), Ok(Some(&point(-10, 20))));
    assert_eq!(tree.nearest(&point(90, 90)), Ok(Some(&point(100, 100))));
    assert_eq!(tree.nearest(&point(1000, 1000)), Ok(Some(&point(500, 500))));
    assert_eq!(tree.nearest(&point(-50, -50)), Ok(Some(&point(-50, -50))));
}

#[test]
fn nearest_keeps_the_first_of_equals() {
    let mut tree = QuadTree::new(square(0, 0, 1000));
    for p in [point(10, 0), point(0, 10), point(-10, 0), point(0, -10)] {
        assert_eq!(tree.insert(p), Ok(()));
    }
    assert_eq!(tree.nearest(&point(0, 0)), Ok(Some(&point(10, 0))));
    assert_eq!(tree.nearest(&point(-5, -5)), Ok(Some(&point(-10, 0))));
}

#[test]
fn nearest_searches_the_quarter_of_the_point() {
    let mut tree = QuadTree::new(square(0, 0, 10_000));
    // One point in the south-east, enough in the north-west to subdivide.
    assert_eq!(tree.insert(point(5000, 5000)), Ok(()));
    for i in 0..(MAX_POINTS as i32 + 1) {
        assert_eq!(tree.insert(point(-5000 - i, -5000 - i)), Ok(()));
    }
    assert_eq!(tree.size(), MAX_POINTS + 2);
    // South-east of the center only the south-east quarter is searched.
    assert_eq!(tree.nearest(&point(4000, 4000)), Ok(Some(&point(5000, 5000))));
    assert_eq!(tree.nearest(&point(10, 10)), Ok(Some(&point(5000, 5000))));
    // North-west of it the north-western points are.
    assert_eq!(tree.nearest(&point(-4000, -4000)), Ok(Some(&point(-5000, -5000))));
    // The north-east quarter is empty.
    assert_eq!(tree.nearest(&point(4000, -4000)), Ok(None));
    // The center lies in all four quarters: of two points equally far
    // the one of the earlier quarter is kept.
    assert_eq!(tree.nearest(&point(0, 0)), Ok(Some(&point(-5000, -5000))));
    assert_eq!(tree.nearest(&point(1, 1)), Ok(Some(&point(5000, 5000))));
}

#[test]
fn nearest_in_a_subdivided_tree_left_with_one_point() {
    let mut tree = QuadTree::new(square(0, 0, 10_000));
    assert_eq!(tree.insert(point(5000, -5000)), Ok(()));
    for i in 0..(MAX_POINTS as i32 + 1) {
        assert_eq!(tree.insert(point(-5000 - i, -5000)), Ok(()));
    }
    let mut results = buffer(MAX_POINTS + 1);
    assert_eq!(tree.query_remove(&square(-6000, -5000, 1500), &mut results), Ok(MAX_POINTS + 1));
    assert_eq!(tree.size(), 1);
    assert_eq!(tree.nearest(&point(4000, -4000)), Ok(Some(&point(5000, -5000))));
    assert_eq!(tree.nearest(&point(-4000, -4000)), Ok(None));
}
