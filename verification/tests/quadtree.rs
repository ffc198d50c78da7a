use quadtree::bounds::{contains, get_quadrant, get_quadrant_bounds};
use quadtree::{Bounded, Bounds, Items, QuadTree, Quadrant, QueryItems};

#[derive(PartialEq, Debug)]
struct TestRect {
    x: f32,
    y: f32,
    width: f32,
    height: f32,
}

impl Bounded for TestRect {
    fn bounds(&self) -> Bounds {
        Bounds {
            x: self.x as i64,
            y: self.y as i64,
            width: self.width as i64,
            height: self.height as i64,
        }
    }
}

fn new_test_quadtree<'a>() -> QuadTree<'a, TestRect> {
    QuadTree::new(Bounds { x: 0, y: 0, width: 16, height: 16 })
}

fn collect_items<'a>(mut it: Items<'a, TestRect>) -> Vec<&'a TestRect> {
    let mut v = Vec::new();
    while let Some(e) = it.next() {
        v.push(e);
    }
    v
}

fn collect_query<'a>(mut it: QueryItems<'a, TestRect>) -> Vec<&'a TestRect> {
    let mut v = Vec::new();
    while let Some(e) = it.next() {
        v.push(e);
    }
    v
}

fn rect(x: f32, y: f32, width: f32, height: f32) -> TestRect {
    TestRect { x, y, width, height }
}

#[test]
fn insert() {
    let mut qt = new_test_quadtree();
    let r1 = &TestRect { x: 0.0, y: 0.0, width: 1.0, height: 1.0 };
    let r2 = &TestRect { x: 14.0, y: 14.0, width: 1.0, height: 1.0 };
    qt.insert(r1);
    qt.insert(r2);
    let rects: Vec<&TestRect> = collect_items(qt.iter());
    assert!(rects == vec!(r1, r2));
    assert!(2 == qt.len());
}

#[test]
fn query() {
    let mut qt = new_test_quadtree();
    let r1 = &TestRect { x: 0.0, y: 0.0, width: 1.0, height: 1.0 };
    let r2 = &TestRect { x: 4.0, y: 4.0, width: 8.0, height: 8.0 };
    let r3 = &TestRect { x: 9.0, y: 9.0, width: 1.0, height: 1.0 };
    let r4 = &TestRect { x: 14.0, y: 14.0, width: 1.0, height: 1.0 };
    qt.insert(r1);
    qt.insert(r2);
    qt.insert(r3);
    let results: Vec<&TestRect> = collect_query(qt.query(r4));
    println!("{:?}", results);
    assert!(results.contains(&r2) && results.contains(&r3));
}

#[test]
fn clear() {
    let mut qt = new_test_quadtree();
    let r1 = &TestRect { x: 0.0, y: 0.0, width: 1.0, height: 1.0 };
    let r2 = &TestRect { x: 4.0, y: 4.0, width: 8.0, height: 8.0 };
    qt.insert(r1);
    qt.insert(r2);
    assert!(2 == qt.len());
    qt.clear();
    assert!(0 == qt.len());
}

#[test]
fn readme_query_finds_overlapping_rect() {
    let mut qt = QuadTree::new(Bounds { x: 0, y: 0, width: 8, height: 8 });
    let r1 = &rect(0.0, 0.0, 2.0, 2.0);
    let r2 = &rect(3.0, 3.0, 1.0, 1.0);
    let r3 = &rect(1.0, 1.0, 1.0, 1.0);
    qt.insert(r1);
    qt.insert(r2);
    qt.insert(r3);
    let results = collect_query(qt.query(r3));
    assert!(results.contains(&r1));
    assert_eq!(results, vec![r1, r2, r3]);
}

#[test]
fn new_tree_is_empty() {
    let qt = new_test_quadtree();
    assert_eq!(qt.len(), 0);
    assert!(collect_items(qt.iter()).is_empty());
    let probe = rect(1.0, 1.0, 1.0, 1.0);
    assert!(collect_query(qt.query(&probe)).is_empty());
}

#[test]
fn split_moves_fitting_elements_down() {
    let mut qt = new_test_quadtree();
    let a = &rect(1.0, 1.0, 1.0, 1.0); // top left
    let b = &rect(9.0, 1.0, 1.0, 1.0); // top right
    let c = &rect(9.0, 9.0, 1.0, 1.0); // bottom right
    let d = &rect(1.0, 9.0, 1.0, 1.0); // bottom left
    let e = &rect(6.0, 6.0, 4.0, 4.0); // across the middle
    qt.insert(e);
    qt.insert(d);
    qt.insert(c);
    qt.insert(b);
    // Four elements fit in one node; iteration keeps insertion order.
    assert_eq!(collect_items(qt.iter()), vec![e, d, c, b]);
    qt.insert(a);
    // The fifth splits the root: `e` stays, the others go to their quadrants,
    // and iteration visits top left, top right, bottom right, bottom left.
    assert_eq!(collect_items(qt.iter()), vec![e, a, b, c, d]);
    assert_eq!(qt.len(), 5);
}

#[test]
fn query_descends_into_one_quadrant() {
    let mut qt = new_test_quadtree();
    let a = &rect(1.0, 1.0, 1.0, 1.0);
    let b = &rect(9.0, 1.0, 1.0, 1.0);
    let c = &rect(9.0, 9.0, 1.0, 1.0);
    let d = &rect(1.0, 9.0, 1.0, 1.0);
    let e = &rect(6.0, 6.0, 4.0, 4.0);
    for r in [e, d, c, b, a] {
        qt.insert(r);
    }
    // A query in the bottom right quadrant sees the root's own element and
    // the bottom right subtree only.
    let probe = rect(12.0, 12.0, 1.0, 1.0);
    assert_eq!(collect_query(qt.query(&probe)), vec![e, c]);
    // Every stored element is found by a query for itself.
    for r in [a, b, c, d, e] {
        assert!(collect_query(qt.query(r)).contains(&r));
    }
}

#[test]
fn query_across_the_middle_visits_all_quadrants() {
    let mut qt = new_test_quadtree();
    let a = &rect(1.0, 1.0, 1.0, 1.0);
    let b = &rect(9.0, 1.0, 1.0, 1.0);
    let c = &rect(9.0, 9.0, 1.0, 1.0);
    let d = &rect(1.0, 9.0, 1.0, 1.0);
    let e = &rect(6.0, 6.0, 4.0, 4.0);
    for r in [e, d, c, b, a] {
        qt.insert(r);
    }
    // The probe fits no quadrant of the root but lies inside it: the query
    // visits the top left subtree, then bottom left, bottom right, top right.
    let probe = rect(7.0, 7.0, 2.0, 2.0);
    assert_eq!(collect_query(qt.query(&probe)), vec![e, a, d, c, b]);
}

#[test]
fn query_outside_the_tree_stops_after_the_root() {
    let mut qt = new_test_quadtree();
    let a = &rect(1.0, 1.0, 1.0, 1.0);
    let b = &rect(9.0, 1.0, 1.0, 1.0);
    let c = &rect(9.0, 9.0, 1.0, 1.0);
    let d = &rect(1.0, 9.0, 1.0, 1.0);
    let e = &rect(6.0, 6.0, 4.0, 4.0);
    for r in [e, d, c, b, a] {
        qt.insert(r);
    }
    let probe = rect(-5.0, 6.0, 30.0, 2.0);
    let mut it = qt.query(&probe);
    assert_eq!(it.next(), Some(e));
    assert_eq!(it.next(), None);
    assert_eq!(it.next(), None);
}

#[test]
fn query_across_split_quadrants_finds_overlapping() {
    let mut qt = new_test_quadtree();
    let far = &rect(9.0, 9.0, 1.0, 1.0);
    let small = [
        rect(0.0, 0.0, 1.0, 1.0),
        rect(1.0, 0.0, 1.0, 1.0),
        rect(0.0, 1.0, 1.0, 1.0),
        rect(1.0, 1.0, 1.0, 1.0),
        rect(2.0, 2.0, 1.0, 1.0),
    ];
    qt.insert(far);
    for r in small.iter() {
        qt.insert(r);
    }
    assert_eq!(qt.len(), 6);
    // The probe lies inside the tree and across the middle of the root and of
    // the split top left subtree: the query goes on into every quadrant and
    // finds `far`, which it overlaps.
    let probe = rect(6.0, 6.0, 4.0, 4.0);
    let found = collect_query(qt.query(&probe));
    assert!(found.contains(&far));
    assert_eq!(found.len(), 6);
}

#[test]
fn query_inside_a_split_quarter_finds_all_it_overlaps() {
    let mut qt = new_test_quadtree();
    let c1 = &rect(8.0, 8.0, 2.0, 2.0);
    let c2 = &rect(13.0, 8.0, 2.0, 2.0);
    let c3 = &rect(13.0, 13.0, 2.0, 2.0);
    let c4 = &rect(8.0, 13.0, 2.0, 2.0);
    let c5 = &rect(10.0, 10.0, 4.0, 4.0);
    for r in [c1, c2, c3, c4, c5] {
        qt.insert(r);
    }
    let probe = rect(9.0, 9.0, 5.0, 5.0);
    assert_eq!(collect_query(qt.query(&probe)), vec![c5, c1, c4, c3, c2]);
}

#[test]
fn iteration_restarts_after_the_end() {
    let mut qt = new_test_quadtree();
    let a = &rect(1.0, 1.0, 1.0, 1.0);
    let b = &rect(9.0, 1.0, 1.0, 1.0);
    let c = &rect(9.0, 9.0, 1.0, 1.0);
    let d = &rect(1.0, 9.0, 1.0, 1.0);
    let e = &rect(6.0, 6.0, 4.0, 4.0);
    for r in [e, d, c, b, a] {
        qt.insert(r);
    }
    let mut it = qt.iter();
    for expected in [e, a, b, c, d] {
        assert_eq!(it.next(), Some(expected));
    }
    assert_eq!(it.next(), None);
    // Back at the root, with the element index it had: the root's own
    // element is skipped and the subtrees come again.
    assert_eq!(it.next(), Some(a));
}

#[test]
fn iteration_of_an_unsplit_tree_stays_finished() {
    let mut qt = new_test_quadtree();
    let a = &rect(1.0, 1.0, 1.0, 1.0);
    qt.insert(a);
    let mut it = qt.iter();
    assert_eq!(it.next(), Some(a));
    assert_eq!(it.next(), None);
    assert_eq!(it.next(), None);
}

#[test]
fn clear_empties_a_split_tree() {
    let mut qt = new_test_quadtree();
    let rs: Vec<TestRect> = (0..12).map(|i| rect(i as f32, 0.0, 1.0, 1.0)).collect();
    for r in rs.iter() {
        qt.insert(r);
    }
    assert_eq!(qt.len(), 12);
    qt.clear();
    assert_eq!(qt.len(), 0);
    assert!(collect_items(qt.iter()).is_empty());
    let again = &rect(3.0, 3.0, 1.0, 1.0);
    qt.insert(again);
    assert_eq!(collect_items(qt.iter()), vec![again]);
}

#[test]
fn deep_splits_stop_at_the_depth_limit() {
    let mut qt = QuadTree::new(Bounds { x: 0, y: 0, width: 1 << 20, height: 1 << 20 });
    let rs: Vec<TestRect> = (0..40).map(|_| rect(0.0, 0.0, 0.0, 0.0)).collect();
    for r in rs.iter() {
        qt.insert(r);
    }
    assert_eq!(qt.len(), 40);
    assert_eq!(collect_items(qt.iter()).len(), 40);
    let probe = rect(0.0, 0.0, 0.0, 0.0);
    assert_eq!(collect_query(qt.query(&probe)).len(), 40);
}

#[test]
fn quadrant_of_an_area() {
    let b = Bounds { x: 0, y: 0, width: 16, height: 16 };
    let r = |x, y, w, h| Bounds { x, y, width: w, height: h };
    assert_eq!(get_quadrant(&b, &r(1, 1, 2, 2)), Some(Quadrant::TL));
    assert_eq!(get_quadrant(&b, &r(8, 1, 2, 2)), Some(Quadrant::TR));
    assert_eq!(get_quadrant(&b, &r(8, 8, 2, 2)), Some(Quadrant::BR));
    assert_eq!(get_quadrant(&b, &r(1, 8, 2, 2)), Some(Quadrant::BL));
    // Touching the dividing line or the far edge fits no quadrant.
    assert_eq!(get_quadrant(&b, &r(6, 1, 2, 2)), None);
    assert_eq!(get_quadrant(&b, &r(14, 1, 2, 2)), None);
    assert_eq!(get_quadrant(&b, &r(-1, 1, 2, 2)), None);
}

#[test]
fn halves_are_exact() {
    let b = Bounds { x: 0, y: 0, width: 15, height: 15 };
    let r = |x, y, w, h| Bounds { x, y, width: w, height: h };
    // The dividing line lies at 7.5.
    assert_eq!(get_quadrant(&b, &r(0, 0, 7, 1)), Some(Quadrant::TL));
    assert_eq!(get_quadrant(&b, &r(0, 0, 8, 1)), None);
    assert_eq!(get_quadrant(&b, &r(7, 0, 1, 1)), None);
    assert_eq!(get_quadrant(&b, &r(8, 0, 6, 1)), Some(Quadrant::TR));
    assert_eq!(get_quadrant(&b, &r(8, 8, 6, 6)), Some(Quadrant::BR));
}

#[test]
fn odd_sizes_split_exactly_in_the_tree() {
    let mut qt = QuadTree::new(Bounds { x: 0, y: 0, width: 15, height: 15 });
    let a = &rect(0.0, 0.0, 7.0, 1.0); // ends short of 7.5: top left
    let b = &rect(8.0, 0.0, 1.0, 1.0); // top right
    let c = &rect(8.0, 8.0, 1.0, 1.0); // bottom right
    let d = &rect(0.0, 8.0, 1.0, 1.0); // bottom left
    let e = &rect(7.0, 0.0, 1.0, 1.0); // across the line at 7.5
    for r in [e, d, c, b, a] {
        qt.insert(r);
    }
    assert_eq!(collect_items(qt.iter()), vec![e, a, b, c, d]);
}

#[test]
fn bounds_bound_themselves() {
    let b = Bounds { x: 1, y: 2, width: 3, height: 4 };
    assert_eq!(b.bounds(), b);
}

#[test]
fn picture_of_an_unsplit_tree() {
    let mut qt = new_test_quadtree();
    let a = &rect(1.0, 1.0, 1.0, 1.0);
    qt.insert(a);
    assert_eq!(
        qt.to_string(),
        "[TestRect { x: 1.0, y: 1.0, width: 1.0, height: 1.0 }]"
    );
}

#[test]
fn picture_of_a_split_tree() {
    let mut qt = new_test_quadtree();
    let a = &rect(1.0, 1.0, 1.0, 1.0);
    let b = &rect(9.0, 1.0, 1.0, 1.0);
    let c = &rect(9.0, 9.0, 1.0, 1.0);
    let d = &rect(1.0, 9.0, 1.0, 1.0);
    let e = &rect(6.0, 6.0, 4.0, 4.0);
    for r in [e, d, c, b, a] {
        qt.insert(r);
    }
    let expected = [
        "[TestRect { x: 6.0, y: 6.0, width: 4.0, height: 4.0 }]",
        "    [TestRect { x: 1.0, y: 1.0, width: 1.0, height: 1.0 }]",
        "    [TestRect { x: 9.0, y: 1.0, width: 1.0, height: 1.0 }]",
        "    [TestRect { x: 9.0, y: 9.0, width: 1.0, height: 1.0 }]",
        "    [TestRect { x: 1.0, y: 9.0, width: 1.0, height: 1.0 }]",
    ]
    .join("\n");
    assert_eq!(qt.to_string(), expected);
}

#[test]
fn picture_of_an_empty_tree() {
    let qt = new_test_quadtree();
    assert_eq!(qt.to_string(), "[]");
}

#[test]
fn explicit_bounds_decide_placement_and_queries() {
    let mut qt: QuadTree<'_, TestRect> = new_test_quadtree();
    // The rectangles' own fields are not consulted: the given areas are used.
    let a = &rect(101.0, 100.0, 1.0, 1.0);
    let b = &rect(102.0, 100.0, 1.0, 1.0);
    let c = &rect(103.0, 100.0, 1.0, 1.0);
    let d = &rect(104.0, 100.0, 1.0, 1.0);
    let e = &rect(105.0, 100.0, 1.0, 1.0);
    qt.insert_with_bounds(e, Bounds { x: 1, y: 9, width: 1, height: 1 });
    qt.insert_with_bounds(d, Bounds { x: 9, y: 9, width: 1, height: 1 });
    qt.insert_with_bounds(c, Bounds { x: 9, y: 1, width: 1, height: 1 });
    qt.insert_with_bounds(b, Bounds { x: 6, y: 6, width: 4, height: 4 });
    qt.insert_with_bounds(a, Bounds { x: 1, y: 1, width: 1, height: 1 });
    assert_eq!(collect_items(qt.iter()), vec![b, a, c, d, e]);
    let probe = rect(0.0, 0.0, 0.0, 0.0);
    let found =
        collect_query(qt.query_with_bounds(&probe, Bounds { x: 12, y: 2, width: 1, height: 1 }));
    assert_eq!(found, vec![b, c]);
}

#[test]
fn quadrant_areas_halve_the_area() {
    let b = Bounds { x: 2, y: 4, width: 10, height: 6 };
    assert_eq!(get_quadrant_bounds(&b, Quadrant::TL), Bounds { x: 2, y: 4, width: 5, height: 3 });
    assert_eq!(get_quadrant_bounds(&b, Quadrant::TR), Bounds { x: 7, y: 4, width: 5, height: 3 });
    assert_eq!(get_quadrant_bounds(&b, Quadrant::BR), Bounds { x: 7, y: 7, width: 5, height: 3 });
    assert_eq!(get_quadrant_bounds(&b, Quadrant::BL), Bounds { x: 2, y: 7, width: 5, height: 3 });
}

#[test]
fn containment_is_against_the_far_edges() {
    let origin = Bounds { x: 0, y: 0, width: 16, height: 16 };
    assert!(contains(&origin, &Bounds { x: 7, y: 7, width: 2, height: 2 }));
    assert!(!contains(&origin, &Bounds { x: 15, y: 7, width: 1, height: 2 }));
    assert!(!contains(&origin, &Bounds { x: -1, y: 7, width: 1, height: 2 }));
    let shifted = Bounds { x: 8, y: 8, width: 8, height: 8 };
    assert!(contains(&shifted, &Bounds { x: 9, y: 9, width: 1, height: 1 }));
    assert!(!contains(&shifted, &Bounds { x: 7, y: 9, width: 1, height: 1 }));
    assert!(!contains(&shifted, &Bounds { x: 9, y: 9, width: 7, height: 1 }));
}

#[test]
fn iteration_yields_every_insertion_once() {
    let mut qt = new_test_quadtree();
    let a = &rect(1.0, 1.0, 1.0, 1.0);
    let b = &rect(9.0, 9.0, 1.0, 1.0);
    let c = &rect(-4.0, 3.0, 30.0, 1.0);
    let inserted = [a, b, a, c, a, b, c];
    for r in inserted {
        qt.insert(r);
    }
    let items = collect_items(qt.iter());
    assert_eq!(items.len(), inserted.len());
    assert_eq!(qt.len(), inserted.len());
    for r in [a, b, c] {
        let stored = inserted.iter().filter(|x| **x == r).count();
        let yielded = items.iter().filter(|x| **x == r).count();
        assert_eq!(stored, yielded);
    }
}

#[test]
fn a_cleared_tree_behaves_like_a_new_one() {
    let rs: Vec<TestRect> = (0..9).map(|i| rect(i as f32, (i * 2) as f32, 1.0, 1.0)).collect();
    let mut used = new_test_quadtree();
    for r in rs.iter() {
        used.insert(r);
    }
    used.clear();
    let mut fresh = new_test_quadtree();
    for r in rs.iter().rev() {
        used.insert(r);
        fresh.insert(r);
    }
    assert_eq!(collect_items(used.iter()), collect_items(fresh.iter()));
    assert_eq!(used.len(), fresh.len());
    assert_eq!(used.to_string(), fresh.to_string());
    let probe = rect(3.0, 5.0, 2.0, 2.0);
    assert_eq!(collect_query(used.query(&probe)), collect_query(fresh.query(&probe)));
}
