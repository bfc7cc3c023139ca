use quadtree::{Point, QuadTree, Query, Rect};

fn root() -> Rect {
    Rect::from_points(Point { x: -128, y: -128 }, Point { x: 128, y: 128 })
}

fn sorted<T: Copy + PartialOrd>(res: &Vec<T>) -> Vec<T> {
    let mut values: Vec<T> = res.clone();
    values.sort_by(|a, b| a.partial_cmp(b).unwrap());
    values
}

fn vec_compare<T>(res: &Vec<T>, expected: Vec<T>)
where
    T: std::fmt::Debug + Copy + PartialOrd,
{
    assert_eq!(expected, sorted(res));
}

#[test]
fn insert_2_elm() {
    let rect = root();
    let mut qt = QuadTree::<f32>::new(rect);
    qt.set_elements_per_node(2);

    let elm1_id = 1.0;
    let elm1_rect = Rect::from_points(Point { x: 10, y: 10 }, Point { x: 20, y: 20 });
    qt.insert(elm1_id, elm1_rect);

    let elm2_id = 2.0;
    let elm2_rect = Rect::from_points(Point { x: -10, y: -10 }, Point { x: -20, y: -20 });
    qt.insert(elm2_id, elm2_rect);

    let elm2_id = 3.0;
    let elm2_rect = Rect::from_points(Point { x: 0, y: 0 }, Point { x: 5, y: 5 });
    qt.insert(elm2_id, elm2_rect);

    let mut res = vec![];
    qt.query_p(Point::new(15, 15), -1, &mut res);
    assert_eq!(res.len(), 1);
    vec_compare(&res, vec![1.0]);

    res.clear();
    qt.query_p(Point::new(15, 15), -1, &mut res);
    assert_eq!(res.len(), 1);
    vec_compare(&res, vec![1.0]);
}

#[test]
fn insert_clear() {
    let rect = root();
    let mut qt = QuadTree::new(rect);
    qt.set_elements_per_node(2);

    let elm1 = 1;
    let elm1_rect = Rect::from_points(Point { x: 10, y: 10 }, Point { x: 20, y: 20 });
    qt.insert(elm1, elm1_rect);

    let elm2 = 2;
    let elm2_rect = Rect::from_points(Point { x: -10, y: -10 }, Point { x: -20, y: -20 });
    qt.insert(elm2, elm2_rect);

    let elm3 = 3;
    let elm3_rect = Rect::from_points(Point { x: 0, y: 0 }, Point { x: 5, y: 5 });
    qt.insert(elm3, elm3_rect);

    let nodes_before = qt.node_count();
    qt.clear();
    assert_eq!(qt.element_count(), 0);
    assert_eq!(qt.node_count(), nodes_before);

    let elm1 = 1;
    let elm1_rect = Rect::from_points(Point { x: 10, y: 10 }, Point { x: 20, y: 20 });
    qt.insert(elm1, elm1_rect);

    let elm2 = 2;
    let elm2_rect = Rect::from_points(Point { x: 12, y: 12 }, Point { x: 20, y: 20 });
    qt.insert(elm2, elm2_rect);

    let elm3 = 3;
    let elm3_rect = Rect::from_points(Point { x: 0, y: 0 }, Point { x: 5, y: 5 });
    qt.insert(elm3, elm3_rect);

    let mut res = vec![];
    qt.query_p(Point::new(15, 15), -1, &mut res);
    vec_compare(&res, vec![1, 2]);
    res.clear();
    qt.query(root(), -1, &mut res);
    vec_compare(&res, vec![1, 2, 3]);
}

#[test]
fn quadrant_spanning_element_found_at_centre() {
    let mut qt = QuadTree::new(root());
    qt.set_elements_per_node(6);
    let r = Rect::from_points(Point { x: -10, y: -10 }, Point { x: 20, y: 20 });
    assert_eq!(Rect::element_quad_locations(root(), r), [true, true, true, true]);
    let id = qt.insert(7, r);
    let mut res = vec![];
    qt.query_p(Point::new(0, 0), -1, &mut res);
    assert_eq!(res, vec![7]);
    assert_eq!(*qt.get(id), 7);
    assert_eq!(qt.element_rect(id), r);
}

#[test]
fn top_left_only_element() {
    let mut qt = QuadTree::new(root());
    qt.set_elements_per_node(6);
    let r = Rect::from_points(Point { x: -10, y: 10 }, Point { x: -20, y: 20 });
    assert_eq!(Rect::element_quad_locations(root(), r), [true, false, false, false]);
    qt.insert(4, r);
    let mut res = vec![];
    qt.query_p(Point::new(-15, 15), -1, &mut res);
    assert_eq!(res, vec![4]);
    res.clear();
    qt.query_p(Point::new(15, 15), -1, &mut res);
    assert!(res.is_empty());
}

#[test]
fn six_per_quadrant() {
    let mut qt = QuadTree::<i32>::new(Rect::new(-128, 128, 256, 256));
    qt.set_elements_per_node(6);
    for i in 0..6 {
        qt.insert(i, Rect::new(10 + i, 10, 1, 1));
    }
    for i in 0..6 {
        qt.insert(i + 10, Rect::new(-10 - i, 10, 1, 1));
    }
    for i in 0..6 {
        qt.insert(i + 20, Rect::new(-10 - i, -10, 1, 1));
    }
    for i in 0..6 {
        qt.insert(i + 30, Rect::new(10 + i, -10, 1, 1));
    }
    assert_eq!(qt.element_count(), 24);

    // a query only reports elements that overlap it: (15, 15) lies above
    // all of them
    let mut res = vec![];
    qt.query_p(Point::new(15, 15), -1, &mut res);
    assert!(res.is_empty());

    // the band that holds the six top-right elements
    res.clear();
    qt.query(Rect::from_points(Point { x: 1, y: 1 }, Point { x: 20, y: 15 }), -1, &mut res);
    vec_compare(&res, vec![0, 1, 2, 3, 4, 5]);

    res.clear();
    qt.query(Rect::from_points(Point { x: -1, y: 1 }, Point { x: -20, y: 15 }), -1, &mut res);
    vec_compare(&res, vec![10, 11, 12, 13, 14, 15]);

    // a point on an element's edge finds it
    res.clear();
    qt.query_p(Point::new(15, 10), -1, &mut res);
    vec_compare(&res, vec![4, 5]);
}

#[test]
fn grid_of_points() {
    let mut qt = QuadTree::<(i32, i32)>::new(root());
    qt.set_elements_per_node(6);
    let mut i = -51;
    while i < 49 {
        let mut j = -51;
        while j < 49 {
            qt.insert((i, j), Rect::new(i, j, 0, 0));
            j += 2;
        }
        i += 2;
    }
    assert_eq!(qt.element_count(), 2500);

    // only the element exactly at an odd point overlaps a point query
    let mut res = vec![];
    qt.query_p(Point::new(15, 15), -1, &mut res);
    assert_eq!(res, vec![(15, 15)]);

    res.clear();
    qt.query_p(Point::new(0, 0), -1, &mut res);
    assert_eq!(res.len(), 0);

    // odd coordinates in [-10, 10]: ten per axis
    res.clear();
    qt.query(Rect::from_points(Point { x: -10, y: -10 }, Point { x: 10, y: 10 }), -1, &mut res);
    assert_eq!(res.len(), 100);

    // odd coordinates in [-12, 12]: twelve per axis
    res.clear();
    qt.query(Rect::from_points(Point { x: -12, y: -12 }, Point { x: 12, y: 12 }), -1, &mut res);
    assert_eq!(res.len(), 144);
}

#[test]
fn insert_remove_cleanup_node_counts() {
    let mut qt = QuadTree::<i32>::new(Rect::new(-128, 128, 256, 256));
    qt.set_elements_per_node(2);
    let id0 = qt.insert(5, Rect::new(5, 5, 1, 1));
    let id1 = qt.insert(7, Rect::new(-100, -100, 1, 1));
    let _id2 = qt.insert(3, Rect::new(3, 3, 1, 1));
    let id3 = qt.insert(-3, Rect::new(-3, -3, 1, 1));
    let id4 = qt.insert(-6, Rect::new(-6, -6, 1, 1));
    assert_eq!(qt.node_count(), 9);

    qt.remove(id0);
    qt.remove(id1);
    qt.remove(id3);
    qt.remove(id4);
    assert_eq!(qt.node_count(), 9);
    assert_eq!(qt.element_count(), 1);

    qt.cleanup();
    assert_eq!(qt.node_count(), 5);

    qt.insert(5, Rect::new(5, 5, 1, 1));
    qt.insert(7, Rect::new(-100, -100, 1, 1));
    qt.insert(-3, Rect::new(-3, -3, 1, 1));
    qt.insert(-6, Rect::new(-6, -6, 1, 1));
    assert_eq!(qt.node_count(), 9);

    let mut res = vec![];
    qt.query(root(), -1, &mut res);
    vec_compare(&res, vec![-6, -3, 3, 5, 7]);
}

#[test]
fn cleanup_collapses_one_level_per_call() {
    let mut qt = QuadTree::<i32>::new(root());
    qt.set_elements_per_node(1);
    // two points close together split the tree several levels deep
    let a = qt.insert(1, Rect::new(100, 100, 0, 0));
    let b = qt.insert(2, Rect::new(101, 101, 0, 0));
    let deep = qt.node_count();
    assert!(deep > 9);
    qt.remove(a);
    qt.remove(b);
    assert_eq!(qt.node_count(), deep);
    qt.cleanup();
    let after_one = qt.node_count();
    assert!(after_one < deep);
    assert!(after_one > 1);
    assert_eq!((deep - after_one) % 4, 0);
    loop {
        let before = qt.node_count();
        qt.cleanup();
        let now = qt.node_count();
        assert_eq!((before - now) % 4, 0);
        if now == before {
            break;
        }
    }
    assert_eq!(qt.node_count(), 1);
    assert_eq!(qt.all_leaves().len(), 1);
}

#[test]
fn spanning_element_reported_once() {
    let mut qt = QuadTree::<i32>::new(root());
    qt.set_elements_per_node(2);
    qt.insert(1, Rect::new(50, 50, 1, 1));
    qt.insert(2, Rect::new(-50, -50, 1, 1));
    qt.insert(3, Rect::new(60, -60, 1, 1));
    assert!(qt.node_count() > 1);
    qt.insert(99, Rect::from_points(Point { x: -20, y: -20 }, Point { x: 20, y: 20 }));
    let mut res = vec![];
    qt.query(root(), -1, &mut res);
    assert_eq!(res.iter().filter(|v| **v == 99).count(), 1);
    assert_eq!(res.len(), 4);
}

#[test]
fn omitted_element_is_skipped() {
    let mut qt = QuadTree::<i32>::new(root());
    let a = qt.insert(1, Rect::new(0, 10, 10, 10));
    let _b = qt.insert(2, Rect::new(5, 5, 10, 10));
    let mut res = vec![];
    qt.query_p(Point::new(7, 3), a, &mut res);
    assert_eq!(res, vec![2]);
}

#[test]
fn query_appends_to_output() {
    let mut qt = QuadTree::<i32>::new(root());
    qt.insert(1, Rect::new(0, 10, 10, 10));
    let mut res = vec![42];
    qt.query_p(Point::new(5, 5), -1, &mut res);
    assert_eq!(res, vec![42, 1]);
}

#[test]
fn element_outside_root_is_not_indexed() {
    let mut qt = QuadTree::<i32>::new(root());
    qt.set_elements_per_node(1);
    qt.insert(1, Rect::new(10, 10, 1, 1));
    qt.insert(2, Rect::new(-10, 10, 1, 1));
    let out = qt.insert(3, Rect::new(500, 500, 1, 1));
    let mut res = vec![];
    qt.query_p(Point::new(500, 500), -1, &mut res);
    assert!(res.is_empty());
    qt.remove(out);
    assert_eq!(qt.element_count(), 2);
}

#[test]
fn leaves_and_their_elements() {
    let mut qt = QuadTree::<i32>::new(root());
    qt.set_elements_per_node(2);
    let a = qt.insert(1, Rect::new(10, 20, 5, 5));
    let b = qt.insert(2, Rect::new(-20, -10, 5, 5));
    let c = qt.insert(3, Rect::new(-1, 1, 2, 2));
    let leaves = qt.all_leaves();
    assert_eq!(leaves.len(), 4);
    for leaf in &leaves {
        assert_eq!(leaf.depth, 1);
        let mut ids = vec![];
        qt.get_leaf_elements(leaf.node_index, &mut ids);
        // the element spanning the centre is in every leaf
        assert!(ids.contains(&c));
        for id in &ids {
            assert!(leaf.rect.intersect(qt.element_rect(*id)));
        }
        if leaf.rect.intersect(qt.element_rect(a)) {
            assert!(ids.contains(&a));
        }
        if leaf.rect.intersect(qt.element_rect(b)) {
            assert!(ids.contains(&b));
        }
    }
    assert!(qt.max_element_id() >= 3);
}

#[test]
fn query_enum_constructors() {
    match Query::point(3, 4) {
        Query::Point(p) => assert_eq!(p, Point::new(3, 4)),
        Query::Rect(_) => panic!("expected a point"),
    }
    match Query::rect(root()) {
        Query::Rect(r) => assert_eq!(r, root()),
        Query::Point(_) => panic!("expected a rectangle"),
    }
}

#[test]
fn ids_restart_after_clear() {
    let mut qt = QuadTree::<i32>::new(root());
    assert_eq!(qt.insert(1, Rect::new(1, 1, 1, 1)), 0);
    assert_eq!(qt.insert(2, Rect::new(2, 2, 1, 1)), 1);
    assert_eq!(qt.max_element_id(), 2);
    qt.clear();
    assert_eq!(qt.max_element_id(), 0);
    assert_eq!(qt.insert(3, Rect::new(3, 3, 1, 1)), 0);
    let removed = qt.insert(4, Rect::new(4, 4, 1, 1));
    qt.remove(removed);
    // a freed id is handed out again
    assert_eq!(qt.insert(5, Rect::new(5, 5, 1, 1)), removed);
}
