use trapezoidation::{
    Coords, InsertError, QueryNode, QueryNodeBranch, Segment, Trapezoidation, TrapezoidIdx,
};

fn seg(ax: i32, ay: i32, bx: i32, by: i32) -> Segment {
    Segment::new(Coords::new(ax, ay), Coords::new(bx, by)).unwrap()
}

fn build(segments: &[Segment]) -> Trapezoidation {
    let mut td = Trapezoidation::new();
    for s in segments {
        assert!(td.insert(*s).is_ok());
    }
    td
}

/// Checks the correspondence between trapezoids and leaves, and that the DAG descends.
fn check_structure(td: &Trapezoidation) {
    let mut leaves = 0;
    for q in 0..td.query_node_count() {
        match td.query_node(trapezoidation::QueryIdx::new(q)) {
            QueryNode::Sink(ti) => {
                leaves += 1;
                assert!(ti.index() < td.trapezoid_count());
                assert_eq!(td.trapezoid(*ti).sink().index(), q);
            }
            QueryNode::Branch(l, r, _) => {
                assert!(q < l.index() && l.index() < td.query_node_count());
                assert!(q < r.index() && r.index() < td.query_node_count());
            }
        }
    }
    assert_eq!(leaves, td.trapezoid_count());
    for t in 0..td.trapezoid_count() {
        let sink = td.trapezoid(TrapezoidIdx::new(t)).sink();
        match td.query_node(sink) {
            QueryNode::Sink(ti) => assert_eq!(ti.index(), t),
            QueryNode::Branch(_, _, _) => panic!("sink of t{} is a branch", t),
        }
    }
}

fn contains(td: &Trapezoidation, ti: TrapezoidIdx, p: Coords) -> bool {
    let t = td.trapezoid(ti);
    t.down().map_or(true, |n| td.nexus(n).height() <= p.y)
        && t.up().map_or(true, |n| p.y < td.nexus(n).height())
        && t.left().map_or(true, |s| !td.segment(s).is_right_of(p))
        && t.right().map_or(true, |s| td.segment(s).is_right_of(p))
}

/// Checks on a grid that each point lies in the trapezoid found for it and in no other.
fn check_partition(td: &Trapezoidation, lo: i32, hi: i32) {
    for x in lo..=hi {
        for y in lo..=hi {
            let p = Coords::new(x, y);
            let found = td.locate(p);
            for t in 0..td.trapezoid_count() {
                let ti = TrapezoidIdx::new(t);
                assert_eq!(contains(td, ti, p), ti == found, "point ({}, {}) and t{}", x, y, t);
            }
        }
    }
}

/// The trapezoids as regions: the coordinates of their bounds, sorted.
fn regions(td: &Trapezoidation) -> Vec<(Option<Segment>, Option<Segment>, Option<i32>, Option<i32>)> {
    let mut all = Vec::new();
    for t in 0..td.trapezoid_count() {
        let z = td.trapezoid(TrapezoidIdx::new(t));
        all.push((
            z.left().map(|s| *td.segment(s)),
            z.right().map(|s| *td.segment(s)),
            z.down().map(|n| td.nexus(n).height()),
            z.up().map(|n| td.nexus(n).height()),
        ));
    }
    all.sort_by_key(|r| {
        let key = |s: &Option<Segment>| s.map(|s| (s.lo.x, s.lo.y, s.hi.x, s.hi.y));
        (key(&r.0), key(&r.1), r.2, r.3)
    });
    all
}

#[test]
fn new_is_one_trapezoid_and_one_leaf() {
    let td = Trapezoidation::new();
    assert_eq!(td.trapezoid_count(), 1);
    assert_eq!(td.query_node_count(), 1);
    assert_eq!(td.segment_count(), 0);
    assert_eq!(td.nexus_count(), 0);
    assert_eq!(td.root().index(), 0);
    let t = td.trapezoid(TrapezoidIdx::new(0));
    assert_eq!((t.left(), t.right(), t.down(), t.up()), (None, None, None, None));
    assert_eq!(td.locate(Coords::new(123, -456)).index(), 0);
    check_structure(&td);
    check_partition(&td, -3, 3);
}

#[test]
fn one_vertical_segment() {
    let mut td = Trapezoidation::new();
    let s = seg(0, 0, 0, 10);
    let si = td.insert(s).unwrap();
    assert_eq!(si.index(), 0);
    assert_eq!(td.segment_count(), 1);
    assert_eq!(*td.segment(si), s);
    assert_eq!(td.nexus_count(), 2);
    // Below, above, left and right of the segment.
    assert_eq!(td.trapezoid_count(), 4);
    assert_eq!(td.query_node_count(), 7);
    let mut beside = Vec::new();
    for t in 0..td.trapezoid_count() {
        let z = td.trapezoid(TrapezoidIdx::new(t));
        if z.left() == Some(si) || z.right() == Some(si) {
            beside.push(t);
        }
    }
    // Exactly two trapezoids are bounded by the segment: one on each side of x = 0.
    assert_eq!(beside.len(), 2);
    let left = td.locate(Coords::new(-5, 5));
    let right = td.locate(Coords::new(5, 5));
    assert_ne!(left, right);
    assert_eq!(td.trapezoid(left).right(), Some(si));
    assert_eq!(td.trapezoid(left).left(), None);
    assert_eq!(td.trapezoid(right).left(), Some(si));
    assert_eq!(td.trapezoid(right).right(), None);
    assert_eq!(td.nexus(td.trapezoid(left).down().unwrap()).at, Coords::new(0, 0));
    assert_eq!(td.nexus(td.trapezoid(left).up().unwrap()).at, Coords::new(0, 10));
    // A single X branch, over two leaves.
    let mut x_branches = 0;
    for q in 0..td.query_node_count() {
        if let QueryNode::Branch(l, r, QueryNodeBranch::X(a, b)) =
            td.query_node(trapezoidation::QueryIdx::new(q))
        {
            x_branches += 1;
            assert_eq!((*a, *b), (Coords::new(0, 0), Coords::new(0, 10)));
            assert!(matches!(td.query_node(*l), QueryNode::Sink(t) if *t == left));
            assert!(matches!(td.query_node(*r), QueryNode::Sink(t) if *t == right));
        }
    }
    assert_eq!(x_branches, 1);
    check_structure(&td);
    check_partition(&td, -3, 13);
}

#[test]
fn ties_go_right_and_up() {
    let td = build(&[seg(0, 0, 0, 10)]);
    let right = td.locate(Coords::new(5, 5));
    // On the segment: right of it.
    assert_eq!(td.locate(Coords::new(0, 5)), right);
    // At the height of the lower endpoint: above it.
    assert_eq!(td.locate(Coords::new(3, 0)), right);
    assert_eq!(td.locate(Coords::new(0, 0)), right);
    // At the height of the upper endpoint: above the segment.
    let above = td.locate(Coords::new(0, 10));
    assert_ne!(above, right);
    assert_eq!(td.locate(Coords::new(-50, 11)), above);
    assert_eq!(td.trapezoid(above).up(), None);
    let below = td.locate(Coords::new(0, -1));
    assert_eq!(td.trapezoid(below).down(), None);
    assert_eq!(td.locate(Coords::new(70, -1)), below);
}

#[test]
fn wedge_inside_differs_from_outside() {
    let td = build(&[seg(0, 0, -5, 10), seg(0, 0, 5, 10)]);
    let inside = td.locate(Coords::new(0, 5));
    let outside = td.locate(Coords::new(-10, 5));
    assert_ne!(inside, outside);
    for _ in 0..3 {
        assert_eq!(td.locate(Coords::new(0, 5)), inside);
        assert_eq!(td.locate(Coords::new(-10, 5)), outside);
    }
    assert_eq!(td.trapezoid(inside).left().map(|s| s.index()), Some(0));
    assert_eq!(td.trapezoid(inside).right().map(|s| s.index()), Some(1));
    assert_eq!(td.trapezoid_count(), 5);
    check_structure(&td);
    check_partition(&td, -12, 12);
}

fn quadrilateral() -> [Segment; 4] {
    [seg(0, 0, 4, 3), seg(4, 3, 1, 8), seg(1, 8, -3, 5), seg(-3, 5, 0, 0)]
}

fn bounded(td: &Trapezoidation) -> usize {
    (0..td.trapezoid_count())
        .filter(|t| {
            let z = td.trapezoid(TrapezoidIdx::new(*t));
            z.left().is_some() && z.right().is_some() && z.down().is_some() && z.up().is_some()
        })
        .count()
}

#[test]
fn quadrilateral_has_three_bounded_trapezoids() {
    let td = build(&quadrilateral());
    assert_eq!(bounded(&td), 3);
    // Three inside, one above, one below, two on the left and two on the right.
    assert_eq!(td.trapezoid_count(), 9);
    assert_eq!(td.nexus_count(), 4);
    let centre = td.locate(Coords::new(0, 4));
    let z = td.trapezoid(centre);
    assert_eq!(td.nexus(z.down().unwrap()).height(), 3);
    assert_eq!(td.nexus(z.up().unwrap()).height(), 5);
    assert_eq!(*td.segment(z.left().unwrap()), seg(-3, 5, 0, 0));
    assert_eq!(*td.segment(z.right().unwrap()), seg(4, 3, 1, 8));
    check_structure(&td);
    check_partition(&td, -6, 10);
}

#[test]
fn every_insertion_order_gives_the_same_regions() {
    let q = quadrilateral();
    let reference = regions(&build(&q));
    let mut orders = 0;
    for a in 0..4 {
        for b in 0..4 {
            for c in 0..4 {
                for d in 0..4 {
                    if a != b && a != c && a != d && b != c && b != d && c != d {
                        let td = build(&[q[a], q[b], q[c], q[d]]);
                        assert_eq!(regions(&td), reference);
                        check_structure(&td);
                        orders += 1;
                    }
                }
            }
        }
    }
    assert_eq!(orders, 24);
}

#[test]
fn parts_cut_off_from_a_vertex_are_merged() {
    let td = build(&[seg(0, 0, 0, 10), seg(5, -5, 5, 5)]);
    assert_eq!(td.trapezoid_count(), 7);
    assert_eq!(td.query_node_count(), 14);
    // Right of the second segment the line through (0, 0) no longer divides the plane.
    let merged = td.locate(Coords::new(10, 0));
    assert_eq!(td.locate(Coords::new(10, 3)), merged);
    assert_eq!(td.locate(Coords::new(10, -3)), merged);
    let z = td.trapezoid(merged);
    assert_eq!(z.left().map(|s| s.index()), Some(1));
    assert_eq!(z.right(), None);
    assert_eq!(td.nexus(z.down().unwrap()).at, Coords::new(5, -5));
    assert_eq!(td.nexus(z.up().unwrap()).at, Coords::new(5, 5));
    // Left of it the line still does.
    assert_ne!(td.locate(Coords::new(2, 3)), td.locate(Coords::new(2, -3)));
    check_structure(&td);
    check_partition(&td, -8, 12);
}

#[test]
fn flat_segment_is_rejected() {
    let mut td = build(&[seg(0, 0, 0, 10)]);
    let flat = Segment { lo: Coords::new(-3, 4), hi: Coords::new(3, 4) };
    assert_eq!(td.insert(flat), Err(InsertError::Flat));
    let upside_down = Segment { lo: Coords::new(0, 9), hi: Coords::new(0, 2) };
    assert_eq!(td.insert(upside_down), Err(InsertError::Flat));
    assert_eq!(td.trapezoid_count(), 4);
    assert_eq!(td.query_node_count(), 7);
    assert_eq!(td.segment_count(), 1);
    assert_eq!(td.nexus_count(), 2);
}

#[test]
fn crossing_segment_is_rejected_and_changes_nothing() {
    let mut td = build(&[seg(0, 0, 0, 10)]);
    let before = regions(&td);
    assert_eq!(td.insert(seg(-5, 2, 5, 8)), Err(InsertError::Blocked));
    assert_eq!(td.insert(seg(5, 2, -5, 8)), Err(InsertError::Blocked));
    // The same segment again, and one that overlaps it.
    assert_eq!(td.insert(seg(0, 0, 0, 10)), Err(InsertError::Blocked));
    assert_eq!(td.insert(seg(0, 5, 0, 15)), Err(InsertError::Blocked));
    assert_eq!(td.insert(seg(0, -5, 0, 15)), Err(InsertError::Blocked));
    assert_eq!(regions(&td), before);
    assert_eq!(td.trapezoid_count(), 4);
    assert_eq!(td.query_node_count(), 7);
    assert_eq!(td.segment_count(), 1);
    assert_eq!(td.nexus_count(), 2);
    check_structure(&td);
    // One that ends on it, or that it ends on, is rejected too.
    assert_eq!(td.insert(seg(0, 5, 6, 8)), Err(InsertError::Blocked));
    assert_eq!(td.insert(seg(-6, 1, 0, 5)), Err(InsertError::Blocked));
    assert_eq!(td.insert(seg(-3, -5, 3, 25)), Err(InsertError::Blocked));
    assert_eq!(td.insert(seg(-5, -5, 5, 5)), Err(InsertError::Blocked));
    assert_eq!(td.segment_count(), 1);
    // A segment that shares a vertex with it is accepted.
    assert!(td.insert(seg(0, 10, 4, 20)).is_ok());
    assert!(td.insert(seg(0, 0, -4, -9)).is_ok());
    assert!(td.insert(seg(0, 0, 7, 10)).is_ok());
    assert!(td.insert(seg(0, 10, -7, 0)).is_ok());
    check_structure(&td);
    check_partition(&td, -6, 22);
}

#[test]
fn trace_lists_the_trapezoids_from_top_to_bottom() {
    let td = build(&[seg(0, 0, 0, 10), seg(10, 3, 10, 6)]);
    let s = seg(5, -5, 5, 15);
    let (path, clear) = td.trace(&s);
    assert!(clear);
    let found: Vec<TrapezoidIdx> = vec![
        td.locate(Coords::new(5, 12)),
        td.locate(Coords::new(5, 8)),
        td.locate(Coords::new(5, 4)),
        td.locate(Coords::new(5, 1)),
        td.locate(Coords::new(5, -2)),
    ];
    assert_eq!(path, found);
    assert_eq!(td.locate_under(&s, 15), found[0]);
    assert_eq!(td.locate_under(&s, 10), found[1]);
    assert_eq!(td.locate_under(&s, 6), found[2]);
    let (_, clear) = td.trace(&seg(-5, 2, 5, 8));
    assert!(!clear);
}

#[test]
fn text_tree_of_one_segment() {
    let td = build(&[seg(0, 0, 0, 10)]);
    let root = td.root();
    let tree = td.query_node(root).as_text_tree(root, td.query_nodes());
    let expected = "[q0] Y((0, 10))\n\
                    +-- [q1] Y((0, 0))\n\
                    |   +-- [q3] S(t0)\n\
                    |   '-- [q4] X((0, 0), (0, 10))\n\
                    |       +-- [q5] S(t2)\n\
                    |       '-- [q6] S(t3)\n\
                    '-- [q2] S(t1)\n";
    assert_eq!(tree.to_string(), expected);
    let leaf = trapezoidation::QueryIdx::new(6);
    let tree = td.query_node(leaf).as_text_tree(leaf, td.query_nodes());
    assert_eq!(tree.to_string(), "[q6] S(t3)\n");
    assert!(!tree.has_children());
}

#[test]
fn admits_tells_beforehand_what_insert_does() {
    let mut td = build(&[seg(0, 0, 0, 10)]);
    assert!(!td.admits(&seg(-5, 2, 5, 8)));
    assert!(!td.admits(&Segment { lo: Coords::new(1, 1), hi: Coords::new(2, 1) }));
    assert!(!td.admits(&seg(0, 0, 0, 10)));
    let fine = seg(3, -4, 6, 20);
    assert!(td.admits(&fine));
    assert_eq!(td.trapezoid_count(), 4);
    assert!(td.insert(fine).is_ok());
    assert!(!td.admits(&fine));
}

#[test]
fn insert_all_stops_at_the_first_rejected_segment() {
    let q = quadrilateral();
    let mut td = Trapezoidation::new();
    assert_eq!(td.insert_all(&q), Ok(()));
    assert_eq!(regions(&td), regions(&build(&q)));
    assert_eq!(td.insert_all(&[]), Ok(()));

    let mut td = Trapezoidation::new();
    let crossing = seg(-5, 4, 5, 4 + 1);
    let outcome = td.insert_all(&[q[0], q[1], crossing, q[2]]);
    assert_eq!(outcome, Err((2, InsertError::Blocked)));
    assert_eq!(regions(&td), regions(&build(&[q[0], q[1]])));
    assert_eq!(td.segment_count(), 2);

    let flat = Segment { lo: Coords::new(0, 0), hi: Coords::new(9, 0) };
    let mut td = Trapezoidation::new();
    assert_eq!(td.insert_all(&[flat, q[0]]), Err((0, InsertError::Flat)));
    assert_eq!(td.trapezoid_count(), 1);
}

#[test]
fn polygon_with_a_hole() {
    let outer = [seg(0, 0, 20, 3), seg(20, 3, 17, 21), seg(17, 21, -2, 18), seg(-2, 18, 0, 0)];
    let hole = [seg(5, 6, 12, 7), seg(12, 7, 10, 13), seg(10, 13, 6, 11), seg(6, 11, 5, 6)];
    let mut all = Vec::new();
    all.extend_from_slice(&outer);
    all.extend_from_slice(&hole);
    let td = build(&all);
    check_structure(&td);
    check_partition(&td, -4, 23);
    let mut mixed = vec![hole[2], outer[1], hole[0], outer[3], outer[0], hole[3], outer[2], hole[1]];
    assert_eq!(regions(&build(&mixed)), regions(&td));
    mixed.reverse();
    assert_eq!(regions(&build(&mixed)), regions(&td));
    // Inside the hole, between the hole and the outer boundary, and outside.
    let in_hole = td.locate(Coords::new(8, 9));
    let in_ring = td.locate(Coords::new(2, 9));
    let outside = td.locate(Coords::new(-10, 9));
    assert_ne!(in_hole, in_ring);
    assert_ne!(in_ring, outside);
    assert_eq!(*td.segment(td.trapezoid(in_hole).left().unwrap()), hole[3]);
    assert_eq!(*td.segment(td.trapezoid(in_ring).right().unwrap()), hole[3]);
    assert_eq!(*td.segment(td.trapezoid(in_ring).left().unwrap()), outer[3]);
    assert_eq!(td.trapezoid(outside).left(), None);
}

#[test]
fn vertices_at_equal_heights() {
    // A kite: its left and right vertex are at the same height.
    let kite = [seg(0, -5, -3, 0), seg(3, 0, 0, 5), seg(0, -5, 3, 0), seg(-3, 0, 0, 5)];
    let td = build(&kite);
    check_structure(&td);
    check_partition(&td, -7, 7);
    assert_eq!(bounded(&td), 2);
    let mut other = kite;
    other.reverse();
    assert_eq!(regions(&build(&other)), regions(&td));
}

#[test]
fn insertion_divides_only_the_trapezoids_on_the_path() {
    let mut td = build(&[seg(0, 0, 0, 10), seg(10, 3, 10, 6), seg(-8, 2, -6, 12)]);
    let s = seg(5, -5, 4, 15);
    let (path, clear) = td.trace(&s);
    assert!(clear);
    let mut before = Vec::new();
    for x in -12..=14 {
        for y in -8..=18 {
            let p = Coords::new(x, y);
            let ti = td.locate(p);
            let z = td.trapezoid(ti);
            before.push((p, ti, (z.left(), z.right(), z.down(), z.up(), z.sink())));
        }
    }
    let si = td.insert(s).unwrap();
    for (p, ti, z) in before {
        let now = td.locate(p);
        let t = td.trapezoid(now);
        if !path.contains(&ti) {
            assert_eq!(now, ti);
            assert_eq!((t.left(), t.right(), t.down(), t.up(), t.sink()), z);
        } else if s.lo.y <= p.y && p.y < s.hi.y {
            if s.is_right_of(p) {
                assert_eq!(t.right(), Some(si));
            } else {
                assert_eq!(t.left(), Some(si));
            }
        } else if p.y >= s.hi.y {
            assert_eq!(td.nexus(t.down().unwrap()).height(), s.hi.y);
        } else {
            assert_eq!(td.nexus(t.up().unwrap()).height(), s.lo.y);
        }
    }
    check_structure(&td);
    check_partition(&td, -12, 18);
}

#[test]
fn text_tree_of_nodes_that_do_not_descend() {
    // A branch whose two children are one leaf, which stands before it in the list.
    let leaf = QueryNode::root(TrapezoidIdx::new(0));
    let mut branch = QueryNode::root(TrapezoidIdx::new(0));
    let q0 = trapezoidation::QueryIdx::new(0);
    let q1 = trapezoidation::QueryIdx::new(1);
    let _ = branch.branch_y(q0, q0, Coords::new(0, 0), TrapezoidIdx::new(0));
    let nodes = [leaf, branch];
    let tree = nodes[1].as_text_tree(q1, &nodes);
    assert_eq!(tree.to_string(), "[q1] Y((0, 0))\n+-- [q0] S(t0)\n'-- [q0] S(t0)\n");
    // Twice the same.
    assert_eq!(nodes[1].as_text_tree(q1, &nodes).to_string(), tree.to_string());

    // A node that is not reached may point anywhere, even at itself.
    let mut stray = QueryNode::root(TrapezoidIdx::new(0));
    let q2 = trapezoidation::QueryIdx::new(2);
    let _ = stray.merge_x(q2, trapezoidation::QueryIdx::new(9), Coords::new(0, 0), Coords::new(1, 1));
    let nodes = [leaf, branch, stray];
    let tree = nodes[1].as_text_tree(q1, &nodes);
    assert_eq!(tree.to_string(), "[q1] Y((0, 0))\n+-- [q0] S(t0)\n'-- [q0] S(t0)\n");

    // A node reached on two ways has its rows twice.
    let mut top = QueryNode::root(TrapezoidIdx::new(0));
    let _ = top.merge_x(q1, q0, Coords::new(0, 0), Coords::new(1, 1));
    let nodes = [leaf, branch, top];
    let tree = nodes[2].as_text_tree(q2, &nodes);
    assert_eq!(
        tree.to_string(),
        "[q2] X((0, 0), (1, 1))\n\
         +-- [q1] Y((0, 0))\n\
         |   +-- [q0] S(t0)\n\
         |   '-- [q0] S(t0)\n\
         '-- [q0] S(t0)\n"
    );
}
