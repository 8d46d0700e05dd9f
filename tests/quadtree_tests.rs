use quadtree::geometry::{NORTH_EAST, NORTH_WEST, SOUTH_EAST, SOUTH_WEST};
use quadtree::{InsertError, Point, Positioned, Quadtree, Rectangle, NODE_CAPACITY};

fn square(cx: i64, cy: i64, h: i64) -> Rectangle {
    Rectangle::new(Point::new(cx, cy), Point::new(h, h))
}

#[test]
fn test_insert() {
    let mut tree = Quadtree::new(Rectangle::new(Point::new(0, 0), Point::new(100, 100)));
    let entry = Point::new(50, 50);
    assert!(tree.insert(&entry).is_ok());
}

#[test]
fn test_insert_out_of_bounds() {
    let mut tree = Quadtree::new(Rectangle::new(Point::new(0, 0), Point::new(100, 100)));
    let entry = Point::new(150, 150);
    assert!(tree.insert(&entry).is_err());
}

#[test]
fn test_query() {
    let mut tree = Quadtree::new(Rectangle::new(Point::new(0, 0), Point::new(100, 100)));
    let entry = Point::new(50, 50);
    tree.insert(&entry).unwrap();
    let range = Rectangle::new(Point::new(0, 0), Point::new(100, 100));
    let result = tree.query(&range);
    assert_eq!(result.len(), 1);
    assert_eq!(result[0].position(), entry.position());
}

#[test]
fn test_query_out_of_bounds() {
    let mut tree = Quadtree::new(Rectangle::new(Point::new(0, 0), Point::new(100, 100)));
    let entry = Point::new(150, 150);
    if tree.insert(&entry).is_err() {}
    let range = Rectangle::new(Point::new(0, 0), Point::new(100, 100));
    let result = tree.query(&range);
    assert_eq!(result.len(), 0);
}

#[test]
fn insert_reports_out_of_bounds_error() {
    let mut tree = Quadtree::new(square(0, 0, 100));
    let outside = Point::new(150, 150);
    let inside = Point::new(50, 50);
    assert_eq!(tree.insert(&outside), Err(InsertError::OutOfBounds));
    assert_eq!(tree.insert(&inside), Ok(()));
}

#[test]
fn insert_accepts_points_on_the_boundary_edge() {
    let mut tree = Quadtree::new(square(0, 0, 100));
    let corner = Point::new(100, -100);
    let beyond = Point::new(101, 0);
    assert_eq!(tree.insert(&corner), Ok(()));
    assert_eq!(tree.insert(&beyond), Err(InsertError::OutOfBounds));
}

#[test]
fn query_returns_stored_entry_once() {
    let mut tree = Quadtree::new(square(0, 0, 100));
    let points = [
        Point::new(10, 10),
        Point::new(-20, 30),
        Point::new(60, -70),
        Point::new(-90, -90),
        Point::new(5, 5),
        Point::new(70, 70),
    ];
    for p in points.iter() {
        assert_eq!(tree.insert(p), Ok(()));
    }
    let result = tree.query(&square(5, 5, 1));
    assert_eq!(result.len(), 1);
    assert!(std::ptr::eq(result[0], &points[4]));
}

#[test]
fn query_excludes_entries_outside_range() {
    let mut tree = Quadtree::new(square(0, 0, 100));
    let a = Point::new(10, 10);
    let b = Point::new(-50, -50);
    tree.insert(&a).unwrap();
    tree.insert(&b).unwrap();
    let result = tree.query(&square(10, 10, 5));
    assert_eq!(result.len(), 1);
    assert_eq!(*result[0], a);
    assert!(result.iter().all(|e| **e != b));
}

#[test]
fn split_keeps_every_entry_exactly_once() {
    let mut tree = Quadtree::new(square(0, 0, 100));
    let points = [
        Point::new(1, 1),
        Point::new(2, 2),
        Point::new(3, 3),
        Point::new(4, 4),
        Point::new(-5, 5),
    ];
    assert_eq!(points.len(), NODE_CAPACITY + 1);
    for p in points.iter() {
        assert_eq!(tree.insert(p), Ok(()));
    }
    let result = tree.query(&square(0, 0, 100));
    assert_eq!(result.len(), points.len());
    for p in points.iter() {
        assert_eq!(result.iter().filter(|e| std::ptr::eq(**e, p)).count(), 1);
    }
    // Own entries of the root come first, then the quadrants' entries.
    assert_eq!(*result[0], points[0]);
    assert_eq!(*result[3], points[3]);
    assert_eq!(*result[4], points[4]);
}

#[test]
fn many_inserts_at_one_position_all_come_back() {
    let mut tree = Quadtree::new(square(0, 0, 64));
    let points: Vec<Point> = (0..20).map(|_| Point::new(7, -3)).collect();
    for p in points.iter() {
        assert_eq!(tree.insert(p), Ok(()));
    }
    let result = tree.query(&square(7, -3, 0));
    assert_eq!(result.len(), 20);
}

#[test]
fn repeated_query_gives_same_result() {
    let mut tree = Quadtree::new(square(0, 0, 100));
    let points: Vec<Point> = (0..12).map(|i| Point::new(i * 7 - 40, 30 - i * 5)).collect();
    for p in points.iter() {
        tree.insert(p).unwrap();
    }
    let range = square(-10, 10, 30);
    let first = tree.query(&range);
    let second = tree.query(&range);
    assert_eq!(first.len(), second.len());
    for (a, b) in first.iter().zip(second.iter()) {
        assert!(std::ptr::eq(*a, *b));
    }
}

#[test]
fn query_outside_root_is_empty() {
    let mut tree = Quadtree::new(square(0, 0, 100));
    let a = Point::new(100, 100);
    tree.insert(&a).unwrap();
    assert_eq!(tree.query(&square(300, 0, 50)).len(), 0);
    // Touching the boundary edge counts as meeting it.
    assert_eq!(tree.query(&square(150, 150, 50)).len(), 1);
}

#[test]
fn empty_tree_query_is_empty() {
    let tree: Quadtree<Point> = Quadtree::new(square(0, 0, 100));
    assert_eq!(tree.query(&square(0, 0, 100)).len(), 0);
}

#[test]
fn quadrants_follow_center_and_half_extent() {
    let r = Rectangle::new(Point::new(10, -20), Point::new(8, 6));
    let nw = r.quadrant_of(NORTH_WEST);
    let ne = r.quadrant_of(NORTH_EAST);
    let sw = r.quadrant_of(SOUTH_WEST);
    let se = r.quadrant_of(SOUTH_EAST);
    assert_eq!(nw, Rectangle::new(Point::new(6, -23), Point::new(4, 3)));
    assert_eq!(ne, Rectangle::new(Point::new(14, -23), Point::new(4, 3)));
    assert_eq!(sw, Rectangle::new(Point::new(6, -17), Point::new(4, 3)));
    assert_eq!(se, Rectangle::new(Point::new(14, -17), Point::new(4, 3)));
}

#[test]
fn odd_half_extent_quadrants_cover_the_node() {
    let mut tree = Quadtree::new(square(0, 0, 1));
    let center: Vec<Point> = (0..4).map(|_| Point::new(0, 0)).collect();
    for p in center.iter() {
        assert_eq!(tree.insert(p), Ok(()));
    }
    let corner = Point::new(1, 1);
    assert_eq!(tree.insert(&corner), Ok(()));
    let other = Point::new(-1, 1);
    assert_eq!(tree.insert(&other), Ok(()));
    assert_eq!(tree.query(&square(0, 0, 1)).len(), 6);
    assert_eq!(tree.query(&square(1, 1, 0)).len(), 1);
}

#[test]
fn entry_on_outer_edge_of_odd_quadrant_is_accepted() {
    let mut tree = Quadtree::new(square(0, 0, 100));
    let crowd: Vec<Point> = (0..12).map(|_| Point::new(-90, -90)).collect();
    for p in crowd.iter() {
        assert_eq!(tree.insert(p), Ok(()));
    }
    let edge = Point::new(-100, -75);
    assert_eq!(tree.insert(&edge), Ok(()));
    let found = tree.query(&square(-100, -75, 0));
    assert_eq!(found.len(), 1);
    assert!(std::ptr::eq(found[0], &edge));
    assert_eq!(tree.query(&square(0, 0, 100)).len(), 13);
}

#[test]
fn odd_quadrants_round_half_extent_up() {
    let r = Rectangle::new(Point::new(0, 0), Point::new(25, 3));
    assert_eq!(r.quadrant_of(NORTH_WEST), Rectangle::new(Point::new(-12, -1), Point::new(13, 2)));
    assert_eq!(r.quadrant_of(SOUTH_EAST), Rectangle::new(Point::new(12, 1), Point::new(13, 2)));
}

#[test]
fn contains_and_intersects_use_closed_bounds() {
    let r = square(0, 0, 10);
    assert!(r.contains(&Point::new(10, 10)));
    assert!(r.contains(&Point::new(-10, 0)));
    assert!(!r.contains(&Point::new(11, 0)));
    assert!(r.intersects(&square(20, 0, 10)));
    assert!(!r.intersects(&square(21, 0, 10)));
    assert!(!r.intersects(&square(0, 30, 10)));
}

#[test]
fn extreme_coordinates_do_not_overflow() {
    let r = Rectangle::new(Point::new(0, 0), Point::new(i64::MAX, i64::MAX));
    assert!(r.contains(&Point::new(i64::MAX, -i64::MAX)));
    assert!(!r.contains(&Point::new(i64::MIN, 0)));
    let far = Rectangle::new(Point::new(i64::MIN, i64::MIN), Point::new(i64::MAX, i64::MAX));
    assert!(r.intersects(&far));
}
