use rasterlab::circle::bresenham_circle;
use rasterlab::curve::castle_pitway;
use rasterlab::line::step_by_step;
use rasterlab::logger::NoOpLogger;
use rasterlab::pixel::Pixel;

fn p(x: i32, y: i32) -> Pixel {
    Pixel { x, y }
}

#[test]
fn circle_radius_five_octant_walk() {
    let mut log = NoOpLogger;
    let pixels = bresenham_circle(p(0, 0), 5, &mut log);
    // the octant walk visits (0,5), (1,5), (2,4), (3,3): four iterations,
    // eight reflections each
    assert_eq!(pixels.len(), 32);
    assert!(pixels.contains(&p(0, 5)));
    assert!(pixels.contains(&p(5, 0)));
    assert!(pixels.contains(&p(4, 2)));
    assert!(pixels.contains(&p(-4, 2)));
    assert!(pixels.contains(&p(3, -3)));
}

#[test]
fn circle_radius_five_is_octant_symmetric() {
    let mut log = NoOpLogger;
    let pixels = bresenham_circle(p(0, 0), 5, &mut log);
    for q in pixels.iter() {
        assert!(pixels.contains(&p(-q.x, q.y)));
        assert!(pixels.contains(&p(q.x, -q.y)));
        assert!(pixels.contains(&p(-q.x, -q.y)));
        assert!(pixels.contains(&p(q.y, q.x)));
        assert!(pixels.contains(&p(-q.y, q.x)));
        assert!(pixels.contains(&p(q.y, -q.x)));
        assert!(pixels.contains(&p(-q.y, -q.x)));
    }
}

#[test]
fn circle_zero_radius_reflects_the_center() {
    let mut log = NoOpLogger;
    let pixels = bresenham_circle(p(10, -7), 0, &mut log);
    assert_eq!(pixels.len(), 8);
    for q in pixels.iter() {
        assert_eq!(*q, p(10, -7));
    }
}

#[test]
fn circle_is_offset_by_its_center() {
    let mut log = NoOpLogger;
    let at_origin = bresenham_circle(p(0, 0), 5, &mut log);
    let moved = bresenham_circle(p(100, 200), 5, &mut log);
    assert_eq!(at_origin.len(), moved.len());
    for (a, b) in at_origin.iter().zip(moved.iter()) {
        assert_eq!(b.x, a.x + 100);
        assert_eq!(b.y, a.y + 200);
    }
}

#[test]
fn curve_needs_two_control_points() {
    let mut log = NoOpLogger;
    assert_eq!(castle_pitway(&vec![], &mut log).len(), 0);
    assert_eq!(castle_pitway(&vec![p(3, 4)], &mut log).len(), 0);
}

#[test]
fn curve_two_points_matches_line_endpoints() {
    // with two control points the evaluator degenerates to a straight line
    let mut log = NoOpLogger;
    let curve = castle_pitway(&vec![p(0, 0), p(10, 5)], &mut log);
    let line = step_by_step(p(0, 0), p(10, 5), &mut log);
    assert_eq!(curve[0], line[0]);
    assert_eq!(curve[curve.len() - 1], line[line.len() - 1]);
    assert_eq!(curve[0], p(0, 0));
    assert_eq!(curve[curve.len() - 1], p(10, 5));
}

#[test]
fn curve_deduplicates_coinciding_samples() {
    let mut log = NoOpLogger;
    let pts = vec![p(-80, -50), p(-30, 80), p(30, -80), p(80, 50)];
    let curve = castle_pitway(&pts, &mut log);
    assert!(curve.len() <= 1001);
    // rounded samples coincide, so strictly fewer than 1001 pixels remain
    assert!(curve.len() < 1001);
    for i in 0..curve.len() {
        for j in (i + 1)..curve.len() {
            assert_ne!(curve[i], curve[j]);
        }
    }
}

#[test]
fn curve_starts_and_ends_on_the_control_polygon() {
    let mut log = NoOpLogger;
    let pts = vec![p(-80, -50), p(-30, 80), p(30, -80), p(80, 50)];
    let curve = castle_pitway(&pts, &mut log);
    assert_eq!(curve[0], p(-80, -50));
    assert_eq!(curve[curve.len() - 1], p(80, 50));
}
