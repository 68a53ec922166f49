use quadtree::{Error, Point2D, QuadTree, QuadTreeOption, Rectangle};

#[test]
fn quadtree_rejects_out_of_bounds_and_keeps_count() {
    let mut tree = QuadTree::<u8>::new(Rectangle::new(0, 0, 100, 100));
    tree.insert(Point2D { x: 10, y: 10, data: 1 }).unwrap();
    assert_eq!(tree.count(), 1);

    assert_eq!(tree.insert(Point2D { x: 200, y: 10, data: 2 }), Err(Error::OutOfBounds));
    assert_eq!(tree.insert(Point2D { x: 10, y: -1, data: 3 }), Err(Error::OutOfBounds));
    assert_eq!(tree.count(), 1);

    let points = tree.query(Rectangle::new(0, 0, 100, 100));
    assert_eq!(points.len(), 1);
}

#[test]
fn quadtree_option_rejects_out_of_bounds_and_keeps_count() {
    let mut tree = QuadTreeOption::<u8>::new(Rectangle::new(0, 0, 100, 100));
    tree.insert(Point2D { x: 10, y: 10, data: 1 }).unwrap();
    assert_eq!(tree.count(), 1);

    assert_eq!(tree.insert(Point2D { x: 200, y: 10, data: 2 }), Err(Error::OutOfBounds));
    assert_eq!(tree.insert(Point2D { x: 10, y: -1, data: 3 }), Err(Error::OutOfBounds));
    assert_eq!(tree.count(), 1);

    let points = tree.query(Rectangle::new(0, 0, 100, 100));
    assert_eq!(points.len(), 1);
}

#[test]
fn quadtree_subdivides_past_capacity_in_one_quadrant() {
    // five points clustered near (10, 10): the fifth overflows the root
    // bucket and must descend, yet all five stay stored and queryable
    let mut tree = QuadTree::<u8>::new(Rectangle::new(0, 0, 100, 100));
    for i in 0..5 {
        tree.insert(Point2D { x: 10 + i, y: 10, data: i as u8 }).unwrap();
    }
    assert_eq!(tree.count(), 5);
    let points = tree.query(Rectangle::new(0, 0, 100, 100));
    assert_eq!(points.len(), 5);
}

#[test]
fn quadtree_option_subdivides_past_capacity_in_one_quadrant() {
    let mut tree = QuadTreeOption::<u8>::new(Rectangle::new(0, 0, 100, 100));
    for i in 0..5 {
        tree.insert(Point2D { x: 10 + i, y: 10, data: i as u8 }).unwrap();
    }
    assert_eq!(tree.count(), 5);
    let points = tree.query(Rectangle::new(0, 0, 100, 100));
    assert_eq!(points.len(), 5);
}

#[test]
fn quadtree_duplicate_coordinates_all_count() {
    let mut tree = QuadTree::<u8>::new(Rectangle::new(0, 0, 100, 100));
    for i in 0..10 {
        tree.insert(Point2D { x: 10, y: 10, data: i as u8 }).unwrap();
    }
    assert_eq!(tree.count(), 10);
    let points = tree.query(Rectangle::new(10, 10, 0, 0));
    assert_eq!(points.len(), 10);
}

#[test]
fn quadtree_option_duplicate_coordinates_all_count() {
    let mut tree = QuadTreeOption::<u8>::new(Rectangle::new(0, 0, 100, 100));
    for i in 0..10 {
        tree.insert(Point2D { x: 10, y: 10, data: i as u8 }).unwrap();
    }
    assert_eq!(tree.count(), 10);
    let points = tree.query(Rectangle::new(10, 10, 0, 0));
    assert_eq!(points.len(), 10);
}

#[test]
fn quadtree_two_cluster_scenario() {
    // two clusters of ten: (10,10)..(19,10) and (90,90)..(99,90)
    let mut tree = QuadTree::<u8>::new(Rectangle::new(0, 0, 100, 100));
    for i in 0..10 {
        tree.insert(Point2D { x: 10 + i, y: 10, data: 0 }).unwrap();
    }
    for i in 0..10 {
        tree.insert(Point2D { x: 90 + i, y: 90, data: 1 }).unwrap();
    }
    assert_eq!(tree.count(), 20);
    assert_eq!(tree.query(Rectangle::new(0, 0, 100, 100)).len(), 20);
    // the region [9, 20] x [9, 20] holds exactly the first cluster
    let near = tree.query(Rectangle::new(9, 9, 11, 11));
    assert_eq!(near.len(), 10);
    for p in near {
        assert!(p.data == 0);
    }
}

#[test]
fn quadtree_option_two_cluster_scenario() {
    let mut tree = QuadTreeOption::<u8>::new(Rectangle::new(0, 0, 100, 100));
    for i in 0..10 {
        tree.insert(Point2D { x: 10 + i, y: 10, data: 0 }).unwrap();
    }
    for i in 0..10 {
        tree.insert(Point2D { x: 90 + i, y: 90, data: 1 }).unwrap();
    }
    assert_eq!(tree.count(), 20);
    assert_eq!(tree.query(Rectangle::new(0, 0, 100, 100)).len(), 20);
    let near = tree.query(Rectangle::new(9, 9, 11, 11));
    assert_eq!(near.len(), 10);
    for p in near {
        assert!(p.data == 0);
    }
}

#[test]
fn quadtree_query_is_idempotent() {
    let mut tree = QuadTree::<u8>::new(Rectangle::new(0, 0, 100, 100));
    for i in 0..12 {
        tree.insert(Point2D { x: 5 * i, y: 3 * i, data: i as u8 }).unwrap();
    }
    let region = Rectangle::new(10, 0, 40, 40);
    let first = tree.query(region);
    let second = tree.query(region);
    assert_eq!(first.len(), second.len());
    for (a, b) in first.iter().zip(second.iter()) {
        assert_eq!((a.x, a.y, a.data), (b.x, b.y, b.data));
    }
}

#[test]
fn quadtree_option_query_is_idempotent() {
    let mut tree = QuadTreeOption::<u8>::new(Rectangle::new(0, 0, 100, 100));
    for i in 0..12 {
        tree.insert(Point2D { x: 5 * i, y: 3 * i, data: i as u8 }).unwrap();
    }
    let region = Rectangle::new(10, 0, 40, 40);
    let first = tree.query(region);
    let second = tree.query(region);
    assert_eq!(first.len(), second.len());
    for (a, b) in first.iter().zip(second.iter()) {
        assert_eq!((a.x, a.y, a.data), (b.x, b.y, b.data));
    }
}

#[test]
fn variants_agree_on_count_and_query_size() {
    // the two node representations answer the same questions identically
    let mut tagged = QuadTree::<u8>::new(Rectangle::new(0, 0, 100, 100));
    let mut uniform = QuadTreeOption::<u8>::new(Rectangle::new(0, 0, 100, 100));
    let coords = [
        (10, 10),
        (10, 10),
        (50, 50),
        (99, 1),
        (1, 99),
        (50, 50),
        (12, 13),
        (14, 15),
        (88, 92),
        (100, 100),
        (0, 0),
        (33, 66),
    ];
    for (i, (x, y)) in coords.iter().enumerate() {
        tagged.insert(Point2D { x: *x, y: *y, data: i as u8 }).unwrap();
        uniform.insert(Point2D { x: *x, y: *y, data: i as u8 }).unwrap();
    }
    assert_eq!(tagged.count(), uniform.count());
    for region in [
        Rectangle::new(0, 0, 100, 100),
        Rectangle::new(0, 0, 50, 50),
        Rectangle::new(49, 49, 2, 2),
        Rectangle::new(90, 0, 10, 10),
        Rectangle::new(60, 60, 0, 0),
    ] {
        let a = tagged.query(region);
        let b = uniform.query(region);
        assert_eq!(a.len(), b.len());
    }
}

#[test]
fn query_with_empty_region_finds_points_on_it() {
    // a zero-extent region still contains its own corner
    let mut tree = QuadTree::<u8>::new(Rectangle::new(0, 0, 100, 100));
    tree.insert(Point2D { x: 42, y: 42, data: 7 }).unwrap();
    let found = tree.query(Rectangle::new(42, 42, 0, 0));
    assert_eq!(found.len(), 1);
    assert!(found[0].data == 7);
    let missed = tree.query(Rectangle::new(41, 41, 0, 0));
    assert_eq!(missed.len(), 0);
}

#[test]
fn quadtree_routes_shared_edge_point_to_ne_first() {
    // fill the bucket, then insert the exact midpoint (50,50), which lies on
    // all four quadrant edges: the tagged variant tries NE, SE, SW, NW in
    // that order, so it lands in NE, ahead of a later NE point in pre-order
    let mut tree = QuadTree::<u8>::new(Rectangle::new(0, 0, 100, 100));
    tree.insert(Point2D { x: 1, y: 1, data: 0 }).unwrap();
    tree.insert(Point2D { x: 2, y: 2, data: 1 }).unwrap();
    tree.insert(Point2D { x: 3, y: 3, data: 2 }).unwrap();
    tree.insert(Point2D { x: 4, y: 4, data: 3 }).unwrap();
    tree.insert(Point2D { x: 50, y: 50, data: 9 }).unwrap();
    tree.insert(Point2D { x: 99, y: 1, data: 7 }).unwrap();

    let found = tree.query(Rectangle::new(0, 0, 100, 100));
    let data: Vec<u8> = found.iter().map(|p| p.data).collect();
    assert_eq!(data, vec![0, 1, 2, 3, 9, 7]);
}

#[test]
fn quadtree_option_routes_shared_edge_point_to_se() {
    // the uniform variant compares with strict less-than against the
    // midlines, so the midpoint (50,50) is not west or north of them and
    // falls to SE, after the NE point in pre-order
    let mut tree = QuadTreeOption::<u8>::new(Rectangle::new(0, 0, 100, 100));
    tree.insert(Point2D { x: 1, y: 1, data: 0 }).unwrap();
    tree.insert(Point2D { x: 2, y: 2, data: 1 }).unwrap();
    tree.insert(Point2D { x: 3, y: 3, data: 2 }).unwrap();
    tree.insert(Point2D { x: 4, y: 4, data: 3 }).unwrap();
    tree.insert(Point2D { x: 50, y: 50, data: 9 }).unwrap();
    tree.insert(Point2D { x: 99, y: 1, data: 7 }).unwrap();

    let found = tree.query(Rectangle::new(0, 0, 100, 100));
    let data: Vec<u8> = found.iter().map(|p| p.data).collect();
    assert_eq!(data, vec![0, 1, 2, 3, 7, 9]);
}
