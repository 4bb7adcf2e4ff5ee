use rasterlab::line::{bresenham_line, dda, step_by_step};
use rasterlab::logger::NoOpLogger;
use rasterlab::pixel::Pixel;

fn p(x: i32, y: i32) -> Pixel {
    Pixel { x, y }
}

#[test]
fn step_by_step_shallow_line_scenario() {
    // dx = 100 > dy = 30, dominant axis X, slope 0.3, intercept 5
    let mut log = NoOpLogger;
    let pixels = step_by_step(p(-50, -10), p(50, 20), &mut log);
    assert_eq!(pixels.len(), 101);
    // at x = -50 the dependent coordinate is round(-50 * 0.3 + 5) = -10
    assert_eq!(pixels[0], p(-50, -10));
    // at x = 0 the dependent coordinate is round(0 * 0.3 + 5) = 5
    assert_eq!(pixels[50], p(0, 5));
    assert_eq!(pixels[100], p(50, 20));
}

#[test]
fn step_by_step_steep_line_walks_y() {
    let mut log = NoOpLogger;
    let pixels = step_by_step(p(0, 0), p(2, 8), &mut log);
    assert_eq!(pixels.len(), 9);
    assert_eq!(pixels[0], p(0, 0));
    assert_eq!(pixels[8], p(2, 8));
    // at y = 4 the dependent coordinate is round(4 * 0.25) = 1
    assert_eq!(pixels[4], p(1, 4));
}

#[test]
fn step_by_step_coincident_points_single_pixel() {
    let mut log = NoOpLogger;
    let pixels = step_by_step(p(7, -3), p(7, -3), &mut log);
    assert_eq!(pixels, vec![p(7, -3)]);
}

#[test]
fn dda_exact_pixels() {
    let mut log = NoOpLogger;
    let pixels = dda(p(0, 0), p(4, 2), &mut log);
    assert_eq!(
        pixels,
        vec![p(0, 0), p(1, 1), p(2, 1), p(3, 2), p(4, 2)]
    );
}

#[test]
fn dda_runs_from_first_point_to_second() {
    let mut log = NoOpLogger;
    let pixels = dda(p(50, 20), p(-50, -10), &mut log);
    assert_eq!(pixels.len(), 101);
    assert_eq!(pixels[0], p(50, 20));
    assert_eq!(pixels[100], p(-50, -10));
}

#[test]
fn dda_coincident_points_single_pixel() {
    let mut log = NoOpLogger;
    let pixels = dda(p(-2, 9), p(-2, 9), &mut log);
    assert_eq!(pixels, vec![p(-2, 9)]);
}

#[test]
fn bresenham_classic_midpoint_trace() {
    // the classic trace from (0,0) to (3,1)
    let mut log = NoOpLogger;
    let pixels = bresenham_line(p(0, 0), p(3, 1), &mut log);
    assert_eq!(pixels, vec![p(0, 0), p(1, 0), p(2, 1), p(3, 1)]);
}

#[test]
fn bresenham_all_quadrants_end_on_endpoints() {
    let mut log = NoOpLogger;
    let ends = [p(9, 4), p(-9, 4), p(9, -4), p(-9, -4), p(4, 9), p(-4, 9), p(4, -9), p(-4, -9)];
    for e in ends.iter() {
        let pixels = bresenham_line(p(0, 0), *e, &mut log);
        assert_eq!(pixels[0], p(0, 0));
        assert_eq!(pixels[pixels.len() - 1], *e);
        assert_eq!(pixels.len(), 10);
    }
}

#[test]
fn bresenham_coincident_points_single_pixel() {
    let mut log = NoOpLogger;
    let pixels = bresenham_line(p(3, 3), p(3, 3), &mut log);
    assert_eq!(pixels, vec![p(3, 3)]);
}

#[test]
fn bresenham_equals_step_by_step_as_a_set() {
    // an odd dominant span meets no rounding tie
    let mut log = NoOpLogger;
    let cases = [
        (p(0, 0), p(9, 4)),
        (p(0, 0), p(-9, 4)),
        (p(2, 1), p(9, 22)),
        (p(5, 5), p(-6, -2)),
    ];
    for (a, b) in cases.iter() {
        let s1 = bresenham_line(*a, *b, &mut log);
        let s2 = step_by_step(*a, *b, &mut log);
        assert_eq!(s1.len(), s2.len());
        for q in s1.iter() {
            assert!(s2.contains(q));
        }
        for q in s2.iter() {
            assert!(s1.contains(q));
        }
    }
}

#[test]
fn line_rasterizers_cover_the_dominant_span() {
    let mut log = NoOpLogger;
    let a = p(-50, -10);
    let b = p(50, 20);
    let sbs = step_by_step(a, b, &mut log);
    assert_eq!(sbs[0].x, -50);
    assert_eq!(sbs[sbs.len() - 1].x, 50);
    let d = dda(a, b, &mut log);
    assert_eq!(d[0].x, -50);
    assert_eq!(d[d.len() - 1].x, 50);
    let br = bresenham_line(a, b, &mut log);
    assert_eq!(br[0].x, -50);
    assert_eq!(br[br.len() - 1].x, 50);
}
