use quadtree::{Point, Rect};

fn root() -> Rect {
    Rect::from_points(Point { x: -128, y: -128 }, Point { x: 128, y: 128 })
}

#[test]
fn node_locations_all() {
    let node_rect = root();
    let element_rect = Rect::from_points(Point { x: -10, y: -10 }, Point { x: 20, y: 20 });
    let locations = Rect::element_quad_locations(node_rect, element_rect);
    assert!(locations[0] && locations[1] && locations[2] && locations[3]);
}

#[test]
fn node_locations_tl() {
    let node_rect = root();
    let element_rect = Rect::from_points(Point { x: -10, y: 10 }, Point { x: -20, y: 20 });
    let locations = Rect::element_quad_locations(node_rect, element_rect);
    assert!(locations[0] && !locations[1] && !locations[2] && !locations[3]);
}

#[test]
fn node_locations_tr() {
    let node_rect = root();
    let element_rect = Rect::from_points(Point { x: 10, y: 10 }, Point { x: 20, y: 20 });
    let locations = Rect::element_quad_locations(node_rect, element_rect);
    assert!(!locations[0] && locations[1] && !locations[2] && !locations[3]);
}

#[test]
fn node_locations_bl() {
    let node_rect = root();
    let element_rect = Rect::from_points(Point { x: -10, y: -10 }, Point { x: -20, y: -20 });
    let locations = Rect::element_quad_locations(node_rect, element_rect);
    assert!(!locations[0] && !locations[1] && locations[2] && !locations[3]);
}

#[test]
fn node_locations_br() {
    let node_rect = root();
    let element_rect = Rect::from_points(Point { x: 10, y: -10 }, Point { x: 20, y: -20 });
    let locations = Rect::element_quad_locations(node_rect, element_rect);
    assert!(!locations[0] && !locations[1] && !locations[2] && locations[3]);
}

#[test]
fn from_points_normalises() {
    let r = Rect::from_points(Point { x: 5, y: -3 }, Point { x: -2, y: 7 });
    assert_eq!(r, Rect { left: -2, right: 5, top: 7, bottom: -3 });
}

#[test]
fn new_grows_right_and_down() {
    let r = Rect::new(10, 10, 1, 2);
    assert_eq!(r, Rect { left: 10, right: 11, top: 10, bottom: 8 });
    assert_eq!(Rect::new(-128, 128, 256, 256), root());
}

#[test]
fn quadrants_of_root() {
    let q = root().location_quads();
    assert_eq!(q[0], Rect { left: -128, right: 0, top: 128, bottom: 0 });
    assert_eq!(q[1], Rect { left: 0, right: 128, top: 128, bottom: 0 });
    assert_eq!(q[2], Rect { left: -128, right: 0, top: 0, bottom: -128 });
    assert_eq!(q[3], Rect { left: 0, right: 128, top: 0, bottom: -128 });
}

#[test]
fn midpoint_rounds_toward_lower_left() {
    let r = Rect { left: 0, right: 5, top: 5, bottom: 0 };
    let q = r.location_quads();
    assert_eq!(q[0], Rect { left: 0, right: 2, top: 5, bottom: 2 });
    assert_eq!(q[3], Rect { left: 2, right: 5, top: 2, bottom: 0 });
}

#[test]
fn intersect_is_inclusive() {
    let a = Rect { left: 0, right: 10, top: 10, bottom: 0 };
    assert!(a.intersect(Rect { left: 10, right: 20, top: 20, bottom: 10 }));
    assert!(!a.intersect(Rect { left: 11, right: 20, top: 20, bottom: 10 }));
    assert!(!a.intersect(Rect { left: 0, right: 10, top: -1, bottom: -5 }));
}

#[test]
fn point_on_midline_in_adjacent_quadrants() {
    let r = root();
    assert_eq!(Rect::point_quad_locations(r, &Point::new(0, 10)), [true, true, false, false]);
    assert_eq!(Rect::point_quad_locations(r, &Point::new(-10, 0)), [true, false, true, false]);
    assert_eq!(Rect::point_quad_locations(r, &Point::new(0, 0)), [true, true, true, true]);
    assert_eq!(Rect::point_quad_locations(r, &Point::new(5, -5)), [false, false, false, true]);
}

#[test]
fn point_as_rect() {
    assert_eq!(Point::to_rect(Point::new(3, -4)), Rect { left: 3, right: 3, top: -4, bottom: -4 });
}
