use quadtree::{Point2D, QuadTree, Rectangle};

#[test]
fn quadtree_it_inserts_a_point() {
    let mut quadtree = QuadTree::<u8>::new(Rectangle::new(0, 0, 100, 100));
    assert_eq!(quadtree.count(), 0);

    let point = Point2D { x: 10, y: 10, data: 42 };
    quadtree.insert(point).unwrap();
    assert_eq!(quadtree.count(), 1);

    let points = quadtree.query(Rectangle::new(0, 0, 100, 100));
    assert_eq!(points.len(), 1);
    assert!(points[0].data == 42);

    let points = quadtree.query(Rectangle::new(9, 9, 11, 11));
    assert_eq!(points.len(), 1);
    assert!(points[0].data == 42);
}

#[test]
fn quadtree_it_inserts_many_points() {
    let mut quadtree = QuadTree::<u8>::new(Rectangle::new(0, 0, 100, 100));

    for i in 0..10 {
        let point = Point2D { x: 10 + i, y: 10 + i, data: 42 };
        quadtree.insert(point).unwrap();
    }

    for i in 0..10 {
        let point = Point2D { x: 90 + i, y: 90 + i, data: 42 };
        quadtree.insert(point).unwrap();
    }
    assert_eq!(quadtree.count(), 20);

    let points = quadtree.query(Rectangle::new(0, 0, 100, 100));
    assert_eq!(points.len(), 20);
    assert!(points[0].data == 42);

    let points = quadtree.query(Rectangle::new(9, 9, 11, 11));
    assert_eq!(points.len(), 10);
    assert!(points[0].data == 42);
}

#[test]
fn quadtree_it_inserts_the_same_point_often() {
    let mut quadtree = QuadTree::<u8>::new(Rectangle::new(0, 0, 100, 100));

    for _i in 0..10 {
        let point = Point2D { x: 10, y: 10, data: 42 };
        quadtree.insert(point).unwrap();
    }

    let points = quadtree.query(Rectangle::new(0, 0, 100, 100));
    assert_eq!(points.len(), 10);
    assert!(points[0].data == 42);
}
