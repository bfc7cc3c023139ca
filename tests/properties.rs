use quadtree::{Point, QuadTree, Rect};

fn root() -> Rect {
    Rect::from_points(Point { x: -128, y: -128 }, Point { x: 128, y: 128 })
}

fn sample_rects() -> Vec<Rect> {
    vec![
        Rect::new(10, 10, 1, 1),
        Rect::new(-10, 10, 3, 3),
        Rect::new(-50, -50, 100, 100),
        Rect::new(0, 0, 0, 0),
        Rect::new(64, 64, 0, 0),
        Rect::new(-128, 128, 256, 256),
        Rect::new(70, -70, 5, 5),
        Rect::new(-90, 90, 2, 40),
        Rect::new(33, 33, 1, 1),
        Rect::new(34, 34, 1, 1),
        Rect::new(35, 35, 1, 1),
    ]
}

fn sorted(mut v: Vec<i32>) -> Vec<i32> {
    v.sort();
    v
}

// Each leaf's chain holds exactly the elements that overlap the leaf.
fn check_placement(qt: &QuadTree<i32>, ids: &Vec<i32>) {
    for leaf in qt.all_leaves() {
        let mut in_leaf = vec![];
        qt.get_leaf_elements(leaf.node_index, &mut in_leaf);
        let mut expected = vec![];
        for id in ids {
            if leaf.rect.intersect(qt.element_rect(*id)) {
                expected.push(*id);
            }
        }
        assert_eq!(sorted(in_leaf), sorted(expected));
    }
}

#[test]
fn leaves_hold_exactly_overlapping_elements() {
    let mut qt = QuadTree::<i32>::new(root());
    qt.set_elements_per_node(2);
    let mut ids = vec![];
    for (k, r) in sample_rects().into_iter().enumerate() {
        ids.push(qt.insert(k as i32, r));
        check_placement(&qt, &ids);
    }
    let gone = ids.remove(2);
    qt.remove(gone);
    check_placement(&qt, &ids);
    qt.cleanup();
    check_placement(&qt, &ids);
}

#[test]
fn children_of_split_leaves_are_consecutive() {
    let mut qt = QuadTree::<i32>::new(root());
    qt.set_elements_per_node(1);
    for (k, r) in sample_rects().into_iter().enumerate() {
        qt.insert(k as i32, r);
    }
    // leaves at depth 1 sit in one block of four
    let mut depth_one: Vec<i32> = qt.all_leaves().iter().filter(|l| l.depth == 1).map(|l| l.node_index).collect();
    depth_one.sort();
    for w in depth_one.windows(2) {
        assert!(w[1] - w[0] >= 1);
    }
    assert!(qt.node_count() % 4 == 1);
}

#[test]
fn query_has_no_duplicates() {
    let mut qt = QuadTree::<i32>::new(root());
    qt.set_elements_per_node(1);
    for (k, r) in sample_rects().into_iter().enumerate() {
        qt.insert(k as i32, r);
    }
    let mut res = vec![];
    qt.query(root(), -1, &mut res);
    let s = sorted(res.clone());
    let mut d = s.clone();
    d.dedup();
    assert_eq!(s, d);
    assert_eq!(res.len(), sample_rects().len());
}

#[test]
fn insert_then_remove_leaves_empty_tree() {
    let mut qt = QuadTree::<i32>::new(root());
    qt.set_elements_per_node(2);
    let mut ids = vec![];
    for (k, r) in sample_rects().into_iter().enumerate() {
        ids.push(qt.insert(k as i32, r));
    }
    for id in ids {
        qt.remove(id);
    }
    assert_eq!(qt.element_count(), 0);
    for leaf in qt.all_leaves() {
        let mut in_leaf = vec![];
        qt.get_leaf_elements(leaf.node_index, &mut in_leaf);
        assert!(in_leaf.is_empty());
    }
    let mut res = vec![];
    qt.query(root(), -1, &mut res);
    assert!(res.is_empty());
}

#[test]
fn clear_then_refill_answers_like_fresh_tree() {
    let mut used = QuadTree::<i32>::new(root());
    used.set_elements_per_node(2);
    for (k, r) in sample_rects().into_iter().enumerate() {
        used.insert(100 + k as i32, r);
    }
    used.clear();
    let mut fresh = QuadTree::<i32>::new(root());
    fresh.set_elements_per_node(2);
    for (k, r) in sample_rects().into_iter().enumerate() {
        used.insert(k as i32, r);
        fresh.insert(k as i32, r);
    }
    let probes = vec![
        root(),
        Rect::new(0, 0, 0, 0),
        Rect::new(30, 40, 10, 10),
        Rect::new(-100, 100, 20, 20),
        Rect::new(60, -60, 20, 20),
    ];
    for q in probes {
        let mut a = vec![];
        let mut b = vec![];
        used.query(q, -1, &mut a);
        fresh.query(q, -1, &mut b);
        assert_eq!(sorted(a), sorted(b));
    }
}

#[test]
fn root_sized_element_found_everywhere() {
    let mut qt = QuadTree::<i32>::new(root());
    qt.set_elements_per_node(1);
    for (k, r) in sample_rects().into_iter().enumerate() {
        qt.insert(k as i32, r);
    }
    let big = qt.insert(500, root());
    for p in [(0, 0), (-128, -128), (128, 128), (77, -3), (-5, 99)] {
        let mut res = vec![];
        qt.query_p(Point::new(p.0, p.1), -1, &mut res);
        assert!(res.contains(&500));
    }
    let mut res = vec![];
    qt.query(Rect::new(-3, 3, 2, 2), -1, &mut res);
    assert!(res.contains(&500));
    qt.remove(big);
}

#[test]
fn zero_area_element_found_at_its_point() {
    let mut qt = QuadTree::<i32>::new(root());
    qt.set_elements_per_node(1);
    for (k, r) in sample_rects().into_iter().enumerate() {
        qt.insert(k as i32, r);
    }
    qt.insert(600, Rect::new(17, -23, 0, 0));
    let mut res = vec![];
    qt.query_p(Point::new(17, -23), -1, &mut res);
    assert!(res.contains(&600));
    res.clear();
    qt.query_p(Point::new(18, -23), -1, &mut res);
    assert!(!res.contains(&600));
}

#[test]
fn point_on_midline_reported_from_every_side() {
    let mut qt = QuadTree::<i32>::new(root());
    qt.set_elements_per_node(1);
    qt.insert(1, Rect::new(0, 0, 0, 0));
    qt.insert(2, Rect::new(0, 50, 0, 0));
    qt.insert(3, Rect::new(-60, 0, 0, 0));
    // the centre point is in all four quadrants' leaves
    let mut holders = 0;
    for leaf in qt.all_leaves() {
        let mut ids = vec![];
        qt.get_leaf_elements(leaf.node_index, &mut ids);
        if ids.contains(&0) {
            holders += 1;
        }
    }
    assert_eq!(holders, 4);
    for p in [(0, 0), (0, 50), (-60, 0)] {
        let mut res = vec![];
        qt.query_p(Point::new(p.0, p.1), -1, &mut res);
        assert_eq!(res.len(), 1);
    }
}

#[test]
fn leaves_below_depth_limit_stay_within_capacity() {
    let mut qt = QuadTree::<i32>::new(root());
    qt.set_elements_per_node(2);
    for (k, r) in sample_rects().into_iter().enumerate() {
        let id = qt.insert(k as i32, r);
        assert!(id >= 0);
        for leaf in qt.all_leaves() {
            let mut ids = vec![];
            qt.get_leaf_elements(leaf.node_index, &mut ids);
            if ids.contains(&id) && leaf.depth < 10 {
                assert!(ids.len() <= 2);
            }
            assert!(leaf.depth <= 10);
        }
    }
}

#[test]
fn all_leaves_lists_each_leaf_once() {
    let mut qt = QuadTree::<i32>::new(root());
    qt.set_elements_per_node(1);
    for (k, r) in sample_rects().into_iter().enumerate() {
        qt.insert(k as i32, r);
    }
    let mut idx: Vec<i32> = qt.all_leaves().iter().map(|l| l.node_index).collect();
    let n = idx.len();
    idx.sort();
    idx.dedup();
    assert_eq!(idx.len(), n);
    // leaves plus branches: every branch has four children
    assert_eq!((qt.node_count() - 1) % 4, 0);
    assert_eq!(n as i32, 1 + 3 * (qt.node_count() - 1) / 4);
}

#[test]
fn cleanup_keeps_other_branches() {
    let mut qt = QuadTree::<i32>::new(root());
    qt.set_elements_per_node(1);
    let a = qt.insert(1, Rect::new(100, 100, 0, 0));
    qt.insert(2, Rect::new(101, 101, 0, 0));
    qt.insert(3, Rect::new(-100, -100, 0, 0));
    let before = qt.node_count();
    qt.remove(a);
    qt.cleanup();
    // the element left in the top-right keeps its path
    let mut res = vec![];
    qt.query_p(Point::new(101, 101), -1, &mut res);
    assert_eq!(res, vec![2]);
    assert!(qt.node_count() <= before);
    assert_eq!((before - qt.node_count()) % 4, 0);
}

#[test]
fn every_leaf_above_depth_limit_within_capacity() {
    let mut qt = QuadTree::<i32>::new(root());
    qt.set_elements_per_node(3);
    for (k, r) in sample_rects().into_iter().enumerate() {
        qt.insert(k as i32, r);
        for leaf in qt.all_leaves() {
            let mut ids = vec![];
            qt.get_leaf_elements(leaf.node_index, &mut ids);
            if leaf.depth < 10 {
                assert!(ids.len() <= 3);
            }
        }
    }
}

#[test]
fn split_reuses_slots_freed_by_cleanup() {
    let mut qt = QuadTree::<i32>::new(Rect::new(-128, 128, 256, 256));
    qt.set_elements_per_node(2);
    let ids: Vec<i32> = [(5, 5), (-100, -100), (3, 3), (-3, -3), (-6, -6)]
        .iter()
        .map(|p| qt.insert(p.0, Rect::new(p.0, p.1, 1, 1)))
        .collect();
    let mut deep: Vec<i32> = qt.all_leaves().iter().filter(|l| l.depth == 2).map(|l| l.node_index).collect();
    deep.sort();
    assert_eq!(deep.len(), 4);
    assert_eq!(deep[3] - deep[0], 3);
    for (k, id) in ids.iter().enumerate() {
        if k != 2 {
            qt.remove(*id);
        }
    }
    qt.cleanup();
    assert_eq!(qt.node_count(), 5);
    for p in [(5, 5), (-100, -100), (-3, -3), (-6, -6)] {
        qt.insert(p.0, Rect::new(p.0, p.1, 1, 1));
    }
    assert_eq!(qt.node_count(), 9);
    let mut again: Vec<i32> = qt.all_leaves().iter().filter(|l| l.depth == 2).map(|l| l.node_index).collect();
    again.sort();
    assert_eq!(again, deep);
}
