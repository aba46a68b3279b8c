use coordinates_outliers::{Connection, Graph, Point, PointPlane, DECIMALS};

fn pt(x: i64, y: i64) -> Point {
    Point::new(x, y, DECIMALS)
}

fn total_frequency(plane: &PointPlane) -> usize {
    plane.get_points().iter().map(|e| e.1).sum()
}

#[test]
fn point_truncates_toward_zero() {
    let p = Point::new(1_234_567, -1_234_567, 6);
    assert_eq!(p, Point { x: 1234, y: -1234 });
    let q = Point::new(999, -999, 6);
    assert_eq!(q, Point { x: 0, y: 0 });
    let r = Point::new(i64::MIN, i64::MAX, 18);
    assert_eq!(r, Point { x: -9223, y: 9223 });
}

#[test]
fn point_scales_coarser_input() {
    assert_eq!(Point::new(2, -3, 0), Point { x: 2000, y: -3000 });
    assert_eq!(Point::new(15, 7, 1), Point { x: 1500, y: 700 });
    assert_eq!(Point::new(123, -45, 3), Point { x: 123, y: -45 });
}

#[test]
fn truncation_is_idempotent() {
    let p = Point::new(123_456, -987_654, 5);
    let q = Point::new(p.x, p.y, DECIMALS);
    assert_eq!(p, q);
    assert_eq!(p.key(), q.key());
}

#[test]
fn samples_differing_below_precision_are_one_location() {
    let a = Point::new(1_123_450, 2_000_001, 6);
    let b = Point::new(1_123_499, 2_000_999, 6);
    assert_eq!(a, b);
    assert_eq!(a.key(), b.key());
    let c = Point::new(-1_123_450, 5, 6);
    let d = Point::new(-1_123_001, 999, 6);
    assert_eq!(c, d);

    let other = pt(7000, 7000);
    let plane = PointPlane::new(vec![a, other, b], 10);
    assert_eq!(plane.get_point_frequency(&a), 2);
    assert_eq!(plane.get_graph().weight(a, other), 1);
    assert_eq!(plane.get_graph().weight(other, b), 1);
    assert_eq!(plane.get_point_weight(&b), 2);
}

#[test]
fn key_has_three_decimals() {
    assert_eq!(Point { x: 123, y: -1500 }.key(), "0.123 -1.500");
    assert_eq!(Point { x: -5, y: 12000 }.key(), "-0.005 12.000");
    assert_eq!(Point { x: 0, y: 1_234_567 }.key(), "0.000 1234.567");
    assert_eq!(
        Point { x: i64::MIN, y: i64::MAX }.key(),
        "-9223372036854775.808 9223372036854775.807"
    );
}

#[test]
fn frequencies_sum_to_points_ingested() {
    let a = pt(123, 123);
    let b = pt(1123, 1123);
    let c = pt(2123, 2123);
    let mut plane = PointPlane::new(vec![a, b, c, a, b, a], 100);
    assert_eq!(total_frequency(&plane), 6);
    assert_eq!(plane.get_ingested(), 6);
    plane.push(vec![c, c, b]);
    assert_eq!(total_frequency(&plane), 9);
    assert_eq!(plane.get_ingested(), 9);
    plane.push(vec![pt(5, 5)]);
    assert_eq!(total_frequency(&plane), 10);
    assert_eq!(plane.get_points().len(), 4);
}

#[test]
fn unseen_point_has_no_frequency_or_weight() {
    let a = pt(1, 1);
    let b = pt(2, 2);
    let plane = PointPlane::new(vec![a, b, a], 10);
    let never = pt(3, 3);
    assert_eq!(plane.get_point_frequency(&never), 0);
    assert_eq!(plane.get_point_weight(&never), 0);
}

#[test]
fn cycle_counts_each_step_once() {
    let a = pt(123, 123);
    let b = pt(1123, 1123);
    let c = pt(2123, 2123);
    let plane = PointPlane::new(vec![a, b, c, a], 100);
    assert_eq!(plane.get_point_frequency(&a), 2);
    assert_eq!(plane.get_point_frequency(&b), 1);
    assert_eq!(plane.get_point_frequency(&c), 1);
    let g = plane.get_graph();
    assert_eq!(g.weight(a, b), 1);
    assert_eq!(g.weight(b, c), 1);
    assert_eq!(g.weight(c, a), 1);
    assert_eq!(g.len(), 3);
}

#[test]
fn back_and_forth_steps_are_directed() {
    let a = pt(10, 20);
    let b = pt(30, 40);
    let plane = PointPlane::new(vec![a, b, a, b], 100);
    let g = plane.get_graph();
    assert_eq!(g.weight(a, b), 2);
    assert_eq!(g.weight(b, a), 1);
    assert_eq!(g.weight(a, a), 0);
    assert_eq!(g.weight(b, b), 0);
    assert_eq!(g.len(), 2);
    assert_eq!(plane.get_point_weight(&a), 3);
    assert_eq!(plane.get_point_weight(&b), 3);
}

#[test]
fn step_to_itself_counts_once_in_point_weight() {
    let a = pt(1, 2);
    let plane = PointPlane::new(vec![a, a, a], 10);
    assert_eq!(plane.get_graph().weight(a, a), 2);
    assert_eq!(plane.get_point_weight(&a), 2);
    assert_eq!(plane.get_point_frequency(&a), 3);
}

#[test]
fn retain_removes_exact_matches_only() {
    let a = pt(1, 1);
    let b = pt(2, 2);
    let c = pt(3, 3);
    let mut plane = PointPlane::new(vec![a, b, a, b, c], 10);
    assert_eq!(plane.get_point_frequency(&c), 1);
    plane.retain(1);
    assert_eq!(plane.get_point_frequency(&a), 2);
    assert_eq!(plane.get_point_frequency(&b), 2);
    assert_eq!(plane.get_point_frequency(&c), 0);
    assert_eq!(plane.get_points().len(), 2);
    let g = plane.get_graph();
    assert_eq!(g.weight(a, b), 2);
    assert_eq!(g.weight(b, a), 0);
    assert_eq!(g.weight(b, c), 0);
    assert_eq!(g.len(), 1);

    plane.retain(3);
    assert_eq!(plane.get_point_frequency(&a), 2);
    assert_eq!(plane.get_graph().weight(a, b), 2);

    plane.retain(2);
    assert_eq!(plane.get_point_frequency(&a), 0);
    assert_eq!(plane.get_point_frequency(&b), 0);
    assert_eq!(plane.get_graph().len(), 0);
    assert_eq!(plane.get_ingested(), 5);
}

#[test]
fn retain_zero_keeps_everything() {
    let a = pt(1, 1);
    let b = pt(2, 2);
    let mut plane = PointPlane::new(vec![a, b], 10);
    plane.retain(0);
    assert_eq!(plane.get_point_frequency(&a), 1);
    assert_eq!(plane.get_point_frequency(&b), 1);
    assert_eq!(plane.get_graph().weight(a, b), 1);
}

#[test]
fn push_adds_no_step_across_batches() {
    let a = pt(1, 1);
    let b = pt(2, 2);
    let c = pt(3, 3);
    let d = pt(4, 4);
    let mut plane = PointPlane::new(vec![a, b], 10);
    plane.push(vec![c, d]);
    let g = plane.get_graph();
    assert_eq!(g.weight(b, c), 0);
    assert_eq!(g.weight(a, b), 1);
    assert_eq!(g.weight(c, d), 1);
    assert_eq!(g.len(), 2);
    assert_eq!(plane.get_point_frequency(&c), 1);
}

#[test]
fn demonstration_trace() {
    let a = pt(123, 123);
    let b = pt(1123, 1123);
    let c = pt(2123, 2123);
    let d = pt(3123, 3123);
    let e = pt(123, 123);
    let f = pt(1123, 1123);
    let mut plane = PointPlane::new(vec![a, b, c, d, e, f], 100);
    assert_eq!(plane.get_capacity(), 100);
    assert_eq!(plane.get_point_frequency(&a), 2);
    assert_eq!(plane.get_point_weight(&a), 3);
    plane.retain(2);
    assert_eq!(plane.get_point_frequency(&a), 0);
    assert_eq!(plane.get_point_frequency(&c), 1);
    assert_eq!(plane.get_graph().weight(a, b), 0);
    assert_eq!(plane.get_graph().weight(d, a), 1);
    assert_eq!(plane.get_point_weight(&a), 1);
}

#[test]
fn graph_push_upserts() {
    let a = pt(1, 1);
    let b = pt(2, 2);
    let mut g = Graph::new();
    g.push(&Connection::new(a, b));
    assert_eq!(g.weight(a, b), 1);
    g.push(&Connection::new(a, b));
    assert_eq!(g.weight(a, b), 2);
    assert_eq!(g.len(), 1);
    g.push(&Connection::new(b, a));
    assert_eq!(g.len(), 2);
    assert_eq!(g.weight(b, a), 1);
    assert_eq!(g.get(0).weight(), 2);
    assert_eq!(g.point_weight(&a), 3);

    let mut heavy = Connection::new(a, pt(9, 9));
    heavy.increment();
    heavy.increment();
    g.push(&heavy);
    assert_eq!(g.weight(a, pt(9, 9)), 1);
}

#[test]
fn graph_retain_drops_exact_weight() {
    let a = pt(1, 1);
    let b = pt(2, 2);
    let mut g = Graph::new();
    g.push(&Connection::new(a, b));
    g.push(&Connection::new(a, b));
    g.push(&Connection::new(b, a));
    g.retain(1);
    assert_eq!(g.len(), 1);
    assert_eq!(g.weight(a, b), 2);
    assert_eq!(g.weight(b, a), 0);
}

#[test]
fn connection_equality_is_directed_and_ignores_weight() {
    let a = pt(1, 1);
    let b = pt(2, 2);
    let mut x = Connection::new(a, b);
    let y = Connection::new(a, b);
    x.increment();
    assert_eq!(x.weight(), 1);
    assert_eq!(y.weight(), 0);
    assert!(x == y);
    assert!(Connection::new(a, b) != Connection::new(b, a));
    assert_eq!(x.from(), a);
    assert_eq!(x.to(), b);
}

#[test]
fn connection_matches_either_end() {
    let a = pt(1, 1);
    let b = pt(2, 2);
    let c = Connection::new(a, b);
    assert!(c.matches(&a));
    assert!(c.matches(&b));
    assert!(!c.matches(&pt(3, 3)));
}

#[test]
fn keys_differ_for_different_points() {
    let p = Point { x: 1, y: 23 };
    let q = Point { x: 12, y: 3 };
    assert_ne!(p.key(), q.key());
    assert_eq!(p.key(), "0.001 0.023");
    assert_ne!(Point { x: -1, y: 0 }.key(), Point { x: 1, y: 0 }.key());
}

#[test]
fn single_step_gives_each_end_weight_one() {
    let p = pt(1500, 2500);
    let q = pt(3500, 4500);
    let plane = PointPlane::new(vec![p, q], 10);
    assert_eq!(plane.get_point_weight(&p), 1);
    assert_eq!(plane.get_point_weight(&q), 1);
}

#[test]
fn retain_lowers_point_weight_only_through_removed_steps() {
    let a = pt(1, 1);
    let b = pt(2, 2);
    let c = pt(3, 3);
    let mut plane = PointPlane::new(vec![a, b, a, b, c], 10);
    assert_eq!(plane.get_point_weight(&a), 3);
    assert_eq!(plane.get_point_weight(&c), 1);
    plane.retain(2);
    assert_eq!(plane.get_point_weight(&a), 1);
    assert_eq!(plane.get_point_weight(&c), 1);
    assert_eq!(plane.get_point_weight(&b), 2);
}

#[test]
fn weight_at_most_twice_frequency() {
    let a = pt(1, 1);
    let b = pt(2, 2);
    let c = pt(3, 3);
    let mut plane = PointPlane::new(vec![b, a, c, a, a, b], 10);
    plane.push(vec![c, a, b]);
    for p in [a, b, c] {
        assert!(plane.get_point_weight(&p) <= 2 * plane.get_point_frequency(&p));
    }
    assert_eq!(plane.get_point_weight(&a), 7);
    assert_eq!(plane.get_point_frequency(&a), 4);
}

#[test]
fn two_batches_match_joined_batch_but_for_the_seam() {
    let a = pt(1, 1);
    let b = pt(2, 2);
    let c = pt(3, 3);
    let s1 = vec![a, b, c];
    let s2 = vec![a, c, b];
    let mut both = PointPlane::new(s1.clone(), 10);
    both.push(s2.clone());
    let mut joined_points = s1.clone();
    joined_points.extend(s2.iter().copied());
    let joined = PointPlane::new(joined_points, 10);
    for p in [a, b, c] {
        assert_eq!(both.get_point_frequency(&p), joined.get_point_frequency(&p));
        for q in [a, b, c] {
            let seam = if p == c && q == a { 1 } else { 0 };
            assert_eq!(
                both.get_graph().weight(p, q) + seam,
                joined.get_graph().weight(p, q)
            );
        }
    }
}
