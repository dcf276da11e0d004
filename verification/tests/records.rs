use trapezoidation::geom::{orientation, orientation_at};
use trapezoidation::{
    Arena, Coords, IndexedQueryNode, NexusIdx, QueryIdx, QueryNode, QueryNodeBranch, Segment,
    SegmentIdx, Trapezoid, TrapezoidIdx,
};

#[test]
fn all_is_unbounded_and_keeps_its_sink() {
    let t = Trapezoid::all(QueryIdx::new(7));
    assert_eq!(t.left(), None);
    assert_eq!(t.right(), None);
    assert_eq!(t.down(), None);
    assert_eq!(t.up(), None);
    assert_eq!(t.sink(), QueryIdx::new(7));
}

#[test]
fn split_vertical_gives_left_and_right_piece() {
    let mut t = Trapezoid::all(QueryIdx::new(0));
    t.set_left(SegmentIdx::new(1));
    t.set_right(SegmentIdx::new(2));
    t.set_down(NexusIdx::new(3));
    let r = t.split_vertical(QueryIdx::new(10), QueryIdx::new(11), SegmentIdx::new(5));
    assert_eq!(t.left(), Some(SegmentIdx::new(1)));
    assert_eq!(t.right(), Some(SegmentIdx::new(5)));
    assert_eq!(t.down(), Some(NexusIdx::new(3)));
    assert_eq!(t.up(), None);
    assert_eq!(t.sink(), QueryIdx::new(10));
    assert_eq!(r.left(), Some(SegmentIdx::new(5)));
    assert_eq!(r.right(), Some(SegmentIdx::new(2)));
    assert_eq!(r.down(), Some(NexusIdx::new(3)));
    assert_eq!(r.up(), None);
    assert_eq!(r.sink(), QueryIdx::new(11));
}

#[test]
fn split_horizontal_gives_down_and_up_piece() {
    let mut t = Trapezoid::all(QueryIdx::new(0));
    t.set_left(SegmentIdx::new(1));
    t.set_down(NexusIdx::new(3));
    let u = t.split_horizontal(QueryIdx::new(20), QueryIdx::new(21), NexusIdx::new(9));
    assert_eq!(t.left(), Some(SegmentIdx::new(1)));
    assert_eq!(t.right(), None);
    assert_eq!(t.down(), Some(NexusIdx::new(3)));
    assert_eq!(t.up(), Some(NexusIdx::new(9)));
    assert_eq!(t.sink(), QueryIdx::new(20));
    assert_eq!(u.left(), Some(SegmentIdx::new(1)));
    assert_eq!(u.right(), None);
    assert_eq!(u.down(), Some(NexusIdx::new(9)));
    assert_eq!(u.up(), None);
    assert_eq!(u.sink(), QueryIdx::new(21));
}

#[test]
fn setters_change_one_field_each() {
    let mut t = Trapezoid::all(QueryIdx::new(4));
    t.set_sink(QueryIdx::new(5));
    assert_eq!(t.sink(), QueryIdx::new(5));
    assert_eq!((t.left(), t.right(), t.down(), t.up()), (None, None, None, None));
    t.set_left(SegmentIdx::new(8));
    assert_eq!(t.left(), Some(SegmentIdx::new(8)));
    assert_eq!((t.right(), t.down(), t.up()), (None, None, None));
    t.set_right(SegmentIdx::new(9));
    assert_eq!(t.right(), Some(SegmentIdx::new(9)));
    assert_eq!(t.left(), Some(SegmentIdx::new(8)));
    t.set_down(NexusIdx::new(2));
    assert_eq!(t.down(), Some(NexusIdx::new(2)));
    assert_eq!(t.up(), None);
    assert_eq!(t.sink(), QueryIdx::new(5));
}

#[test]
fn trapezoid_text_shows_bounds_around_sink() {
    let mut t = Trapezoid::all(QueryIdx::new(12));
    assert_eq!(t.to_text(), "q12\n");
    t.set_left(SegmentIdx::new(0));
    t.set_right(SegmentIdx::new(31));
    t.set_down(NexusIdx::new(4));
    let u = t.split_horizontal(QueryIdx::new(5), QueryIdx::new(6), NexusIdx::new(100));
    assert_eq!(t.to_text(), "-n100-\n[s0]q5[s31]\n-n4-\n");
    assert_eq!(u.to_text(), "[s0]q6[s31]\n-n100-\n");
}

fn is_sink(node: &QueryNode, ti: usize) -> bool {
    match node {
        QueryNode::Sink(t) => t.index() == ti,
        QueryNode::Branch(_, _, _) => false,
    }
}

#[test]
fn root_is_a_leaf() {
    assert!(is_sink(&QueryNode::root(TrapezoidIdx::new(3)), 3));
}

#[test]
fn branch_x_returns_old_node_and_fresh_leaf() {
    let mut node = QueryNode::root(TrapezoidIdx::new(3));
    let (old, fresh) = node.branch_x(
        QueryIdx::new(4),
        QueryIdx::new(5),
        Coords::new(0, 0),
        Coords::new(0, 10),
        TrapezoidIdx::new(9),
    );
    assert!(is_sink(&old, 3));
    assert!(is_sink(&fresh, 9));
    match node {
        QueryNode::Branch(l, r, QueryNodeBranch::X(a, b)) => {
            assert_eq!(l, QueryIdx::new(4));
            assert_eq!(r, QueryIdx::new(5));
            assert_eq!(a, Coords::new(0, 0));
            assert_eq!(b, Coords::new(0, 10));
        }
        _ => panic!("not an X branch"),
    }
}

#[test]
fn branch_y_returns_old_node_and_fresh_leaf() {
    let mut node = QueryNode::root(TrapezoidIdx::new(1));
    let (old, fresh) =
        node.branch_y(QueryIdx::new(2), QueryIdx::new(3), Coords::new(7, -4), TrapezoidIdx::new(6));
    assert!(is_sink(&old, 1));
    assert!(is_sink(&fresh, 6));
    match node {
        QueryNode::Branch(l, r, QueryNodeBranch::Y(c)) => {
            assert_eq!(l, QueryIdx::new(2));
            assert_eq!(r, QueryIdx::new(3));
            assert_eq!(c, Coords::new(7, -4));
        }
        _ => panic!("not a Y branch"),
    }
}

#[test]
fn merge_x_returns_old_node_only() {
    let mut node = QueryNode::root(TrapezoidIdx::new(8));
    let old = node.merge_x(QueryIdx::new(2), QueryIdx::new(9), Coords::new(1, 1), Coords::new(2, 5));
    assert!(is_sink(&old, 8));
    match node {
        QueryNode::Branch(l, r, QueryNodeBranch::X(a, b)) => {
            assert_eq!((l, r), (QueryIdx::new(2), QueryIdx::new(9)));
            assert_eq!((a, b), (Coords::new(1, 1), Coords::new(2, 5)));
        }
        _ => panic!("not an X branch"),
    }
}

#[test]
fn tests_send_points_left_or_right() {
    let x = QueryNodeBranch::X(Coords::new(0, 0), Coords::new(0, 10));
    assert!(x.goes_left(Coords::new(-1, 5)));
    assert!(!x.goes_left(Coords::new(1, 5)));
    assert!(!x.goes_left(Coords::new(0, 5)));
    let slanted = QueryNodeBranch::X(Coords::new(0, 0), Coords::new(10, 10));
    assert!(slanted.goes_left(Coords::new(4, 5)));
    assert!(!slanted.goes_left(Coords::new(5, 5)));
    assert!(!slanted.goes_left(Coords::new(6, 5)));
    let y = QueryNodeBranch::Y(Coords::new(3, 8));
    assert!(y.goes_left(Coords::new(100, 7)));
    assert!(!y.goes_left(Coords::new(-100, 8)));
    assert!(!y.goes_left(Coords::new(0, 9)));
}

#[test]
fn extreme_coordinates_do_not_overflow() {
    let x = QueryNodeBranch::X(Coords::new(i32::MIN, i32::MIN), Coords::new(i32::MAX, i32::MAX));
    assert!(x.goes_left(Coords::new(i32::MIN, i32::MAX)));
    assert!(!x.goes_left(Coords::new(i32::MAX, i32::MIN)));
    assert!(!x.goes_left(Coords::new(0, 0)));
    let s = Segment::new(Coords::new(i32::MAX, i32::MAX), Coords::new(i32::MIN, i32::MIN)).unwrap();
    assert!(x.goes_left_under(&s, i32::MIN + 1) == false);
}

#[test]
fn node_text_matches_the_display_forms() {
    assert_eq!(QueryNode::root(TrapezoidIdx::new(3)).to_text(), "S(t3)");
    let x = QueryNodeBranch::X(Coords::new(0, 0), Coords::new(-5, 10));
    assert_eq!(x.to_text(), "X((0, 0), (-5, 10))");
    let y = QueryNodeBranch::Y(Coords::new(i32::MIN, i32::MAX));
    assert_eq!(y.to_text(), "Y((-2147483648, 2147483647))");
    let mut node = QueryNode::root(TrapezoidIdx::new(3));
    let _ = node.merge_x(QueryIdx::new(1), QueryIdx::new(2), Coords::new(0, 0), Coords::new(-5, 10));
    assert_eq!(node.to_text(), "X((0, 0), (-5, 10))");
    assert_eq!(IndexedQueryNode(QueryIdx::new(40), &node).to_text(), "[q40] X((0, 0), (-5, 10))");
}

#[test]
fn decimal_text_has_no_leading_zeros() {
    assert_eq!(trapezoidation::text::decimal_text(0), "0");
    assert_eq!(trapezoidation::text::decimal_text(7), "7");
    assert_eq!(trapezoidation::text::decimal_text(10), "10");
    assert_eq!(trapezoidation::text::decimal_text(9_007_199), "9007199");
    assert_eq!(trapezoidation::text::decimal_text(usize::MAX), usize::MAX.to_string());
    let mut out = String::from("x=");
    trapezoidation::text::push_signed(&mut out, -40);
    trapezoidation::text::push_decimal(&mut out, 1234567890123);
    assert_eq!(out, "x=-401234567890123");
}

#[test]
fn handle_text_has_kind_prefix() {
    assert_eq!(QueryIdx::new(0).to_text(), "q0");
    assert_eq!(TrapezoidIdx::new(19).to_text(), "t19");
    assert_eq!(SegmentIdx::new(205).to_text(), "s205");
    assert_eq!(NexusIdx::new(1000).to_text(), "n1000");
    assert_eq!(Coords::new(-12, 0).to_text(), "(-12, 0)");
}

#[test]
fn orientation_is_twice_the_signed_area() {
    let a = Coords::new(1, 1);
    let b = Coords::new(4, 5);
    assert_eq!(orientation(a, b, Coords::new(0, 3)), 3 * 2 - 4 * -1);
    assert_eq!(orientation(a, b, Coords::new(7, 9)), 0);
    assert_eq!(orientation(a, b, Coords::new(5, 2)), 3 * 1 - 4 * 4);
    assert_eq!(
        orientation(
            Coords::new(i32::MIN, i32::MIN),
            Coords::new(i32::MAX, i32::MAX),
            Coords::new(i32::MIN, i32::MAX)
        ),
        (u32::MAX as i128) * (u32::MAX as i128)
    );
}

#[test]
fn orientation_at_is_the_scaled_side_of_the_point_at_a_height() {
    let a = Coords::new(0, 0);
    let b = Coords::new(0, 10);
    let lo = Coords::new(-4, 2);
    let hi = Coords::new(4, 6);
    // At height 4 the second line passes through (0, 4), on the first line.
    assert_eq!(orientation_at(a, b, lo, hi, 4), 0);
    // At height 2 it passes through (-4, 2): left of the first line, 4 * orient = 4 * 40.
    assert_eq!(orientation_at(a, b, lo, hi, 2), 160);
    assert_eq!(orientation_at(a, b, lo, hi, 2), 4 * orientation(a, b, lo));
    // At height 6 it passes through (4, 6): right of the first line.
    assert_eq!(orientation_at(a, b, lo, hi, 6), -160);
    assert_eq!(orientation_at(a, b, lo, hi, 6), 4 * orientation(a, b, hi));
    // At height 3 it passes through (-2, 3).
    assert_eq!(orientation_at(a, b, lo, hi, 3), 4 * orientation(a, b, Coords::new(-2, 3)));
}

#[test]
fn handles_are_ordered_by_slot() {
    assert!(QueryIdx::new(3) < QueryIdx::new(4));
    assert!(QueryIdx::new(4) > QueryIdx::new(3));
    assert!(QueryIdx::new(4) <= QueryIdx::new(4));
    assert!(!(QueryIdx::new(5) < QueryIdx::new(5)));
    assert_eq!(
        TrapezoidIdx::new(1).partial_cmp(&TrapezoidIdx::new(0)),
        Some(std::cmp::Ordering::Greater)
    );
}

#[test]
fn handles_compare_by_slot() {
    assert_eq!(QueryIdx::new(3), QueryIdx::new(3));
    assert_ne!(QueryIdx::new(3), QueryIdx::new(4));
    assert_eq!(QueryIdx::new(3).index(), 3);
    let h = TrapezoidIdx::new(5);
    let c = h.clone();
    assert_eq!(h, c);
}

#[test]
fn arena_allocates_in_order_and_keeps_slots() {
    let mut arena: Arena<u32, ()> = Arena::new();
    assert_eq!(arena.len(), 0);
    let a = arena.allocate(10);
    let b = arena.allocate(20);
    assert_eq!((a.index(), b.index()), (0, 1));
    assert_eq!(arena.len(), 2);
    *arena.get_mut(a) = 11;
    assert_eq!(*arena.get(a), 11);
    assert_eq!(*arena.get(b), 20);
    let c = arena.allocate(30);
    assert_eq!(c.index(), 2);
    assert_eq!(arena.as_slice(), &[11, 20, 30]);
    assert!(arena.holds(c));
    assert!(!arena.holds(trapezoidation::Idx::new(3)));
}

#[test]
fn segment_orders_its_endpoints_by_height() {
    let a = Coords::new(3, 9);
    let b = Coords::new(-2, 1);
    let s = Segment::new(a, b).unwrap();
    assert_eq!((s.lo, s.hi), (b, a));
    let s = Segment::new(b, a).unwrap();
    assert_eq!((s.lo, s.hi), (b, a));
    assert_eq!(Segment::new(a, Coords::new(50, 9)), None);
    assert_eq!(Segment::new(a, a), None);
    assert!(s.is_right_of(Coords::new(-10, 5)));
    assert!(!s.is_right_of(Coords::new(10, 5)));
}
