use quadtree::Rectangle;

#[test]
fn contains_is_inclusive_on_all_four_edges() {
    let r = Rectangle::new(0, 0, 100, 100);
    assert!(r.contains(0, 0));
    assert!(r.contains(100, 100));
    assert!(r.contains(0, 100));
    assert!(r.contains(100, 0));
    assert!(r.contains(50, 50));
    assert!(!r.contains(101, 50));
    assert!(!r.contains(50, 101));
    assert!(!r.contains(-1, 50));
    assert!(!r.contains(50, -1));
}

#[test]
fn contains_with_negative_origin() {
    let r = Rectangle::new(-50, -50, 100, 100);
    assert!(r.contains(-50, -50));
    assert!(r.contains(0, 0));
    assert!(r.contains(50, 50));
    assert!(!r.contains(-51, 0));
    assert!(!r.contains(51, 0));
}

#[test]
fn quadrants_of_an_even_rectangle() {
    let r = Rectangle::new(0, 0, 100, 100);

    let nw = r.new_nw();
    assert_eq!((nw.x, nw.y, nw.width, nw.height), (0, 0, 50, 50));

    let ne = r.new_ne();
    assert_eq!((ne.x, ne.y, ne.width, ne.height), (50, 0, 50, 50));

    let sw = r.new_sw();
    assert_eq!((sw.x, sw.y, sw.width, sw.height), (0, 50, 50, 50));

    let se = r.new_se();
    assert_eq!((se.x, se.y, se.width, se.height), (50, 50, 50, 50));
}

#[test]
fn quadrants_of_an_odd_rectangle_tile_it_exactly() {
    let r = Rectangle::new(0, 0, 101, 101);

    let nw = r.new_nw();
    assert_eq!((nw.x, nw.y, nw.width, nw.height), (0, 0, 50, 50));

    let ne = r.new_ne();
    assert_eq!((ne.x, ne.y, ne.width, ne.height), (50, 0, 51, 50));

    let sw = r.new_sw();
    assert_eq!((sw.x, sw.y, sw.width, sw.height), (0, 50, 50, 51));

    let se = r.new_se();
    assert_eq!((se.x, se.y, se.width, se.height), (50, 50, 51, 51));

    // every point of the parent lies in at least one quadrant
    for x in 0..=101 {
        for y in 0..=101 {
            assert!(
                nw.contains(x, y) || ne.contains(x, y) || sw.contains(x, y) || se.contains(x, y)
            );
        }
    }
}

#[test]
fn quadrant_edges_are_shared() {
    let r = Rectangle::new(0, 0, 100, 100);
    // the midlines belong to the quadrants on both sides, consistent with
    // inclusive containment
    assert!(r.new_nw().contains(50, 50));
    assert!(r.new_ne().contains(50, 50));
    assert!(r.new_sw().contains(50, 50));
    assert!(r.new_se().contains(50, 50));
}
