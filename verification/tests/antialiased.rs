use rasterlab::aa::{bresenham_aa, dda_aa, step_by_step_aa, wu_line};
use rasterlab::logger::NoOpLogger;
use rasterlab::pixel::{AntialiasedPixel, Pixel};

fn p(x: i32, y: i32) -> Pixel {
    Pixel { x, y }
}

fn check_pairs(pixels: &Vec<AntialiasedPixel>) {
    assert!(pixels.len() % 2 == 0);
    let mut k = 0;
    while k + 1 < pixels.len() {
        let lo = pixels[k];
        let hi = pixels[k + 1];
        assert_eq!(lo.cov_den, hi.cov_den);
        assert!(lo.cov_den > 0);
        assert!(0 <= lo.cov_num && lo.cov_num <= lo.cov_den);
        assert!(0 <= hi.cov_num && hi.cov_num <= hi.cov_den);
        // the two coverages sum to one, far within the 1e-4 tolerance
        assert_eq!(lo.cov_num + hi.cov_num, lo.cov_den);
        let sum = lo.cov_num as f64 / lo.cov_den as f64 + hi.cov_num as f64 / hi.cov_den as f64;
        assert!((sum - 1.0).abs() < 1e-4);
        k += 2;
    }
}

#[test]
fn wu_pairs_are_complementary() {
    let mut log = NoOpLogger;
    check_pairs(&wu_line(p(0, 0), p(5, 3), &mut log));
    check_pairs(&wu_line(p(2, -1), p(-4, 9), &mut log));
    check_pairs(&wu_line(p(3, 3), p(3, 3), &mut log));
}

#[test]
fn wu_walks_the_dominant_axis_sorted() {
    let mut log = NoOpLogger;
    // shallow: x is dominant and increases from -4 to 2
    let pixels = wu_line(p(2, -1), p(-4, 1), &mut log);
    assert_eq!(pixels.len(), 14);
    assert_eq!(pixels[0].x, -4);
    assert_eq!(pixels[0].y, 1);
    assert_eq!(pixels[0].cov_num, pixels[0].cov_den);
    assert_eq!(pixels[13].x, 2);
    // steep: y is dominant and increases
    let steep = wu_line(p(0, 4), p(1, 0), &mut log);
    assert_eq!(steep[0].y, 0);
    assert_eq!(steep[steep.len() - 1].y, 4);
}

#[test]
fn wu_exact_coverages_on_a_gentle_slope() {
    let mut log = NoOpLogger;
    // from (0,0) to (4,1): fractional parts 0, 1/4, 2/4, 3/4, 0 (of y = x/4)
    let pixels = wu_line(p(0, 0), p(4, 1), &mut log);
    assert_eq!(pixels.len(), 10);
    assert_eq!((pixels[0].x, pixels[0].y, pixels[0].cov_num, pixels[0].cov_den), (0, 0, 4, 4));
    assert_eq!((pixels[1].x, pixels[1].y, pixels[1].cov_num), (0, 1, 0));
    assert_eq!((pixels[2].x, pixels[2].y, pixels[2].cov_num), (1, 0, 3));
    assert_eq!((pixels[3].x, pixels[3].y, pixels[3].cov_num), (1, 1, 1));
    assert_eq!((pixels[8].x, pixels[8].y, pixels[8].cov_num), (4, 1, 4));
}

#[test]
fn wu_vertical_and_horizontal_lines() {
    let mut log = NoOpLogger;
    // vertical: the steep frame walks y with zero fractional parts
    let v = wu_line(p(0, 0), p(0, 5), &mut log);
    assert_eq!(v.len(), 12);
    let mut k = 0;
    while k + 1 < v.len() {
        assert_eq!(v[k].x, 0);
        assert_eq!(v[k + 1].x, 1);
        assert_eq!(v[k].y, (k / 2) as i32);
        assert_eq!(v[k].cov_num, v[k].cov_den);
        assert_eq!(v[k + 1].cov_num, 0);
        k += 2;
    }
    // horizontal: full coverage on the line's own row
    let h = wu_line(p(3, 2), p(7, 2), &mut log);
    assert_eq!(h.len(), 10);
    assert_eq!((h[0].x, h[0].y), (3, 2));
    assert_eq!(h[0].cov_num, h[0].cov_den);
    assert_eq!((h[1].x, h[1].y, h[1].cov_num), (3, 3, 0));
}

#[test]
fn step_by_step_aa_pairs_are_complementary() {
    let mut log = NoOpLogger;
    check_pairs(&step_by_step_aa(p(-50, -10), p(50, 20), &mut log));
    check_pairs(&step_by_step_aa(p(1, 8), p(2, -5), &mut log));
    check_pairs(&step_by_step_aa(p(0, 0), p(0, 0), &mut log));
}

#[test]
fn step_by_step_aa_brackets_the_exact_line() {
    let mut log = NoOpLogger;
    // from (0,0) to (4,2): at x = 1 the exact y is 0.5
    let pixels = step_by_step_aa(p(0, 0), p(4, 2), &mut log);
    assert_eq!(pixels.len(), 10);
    assert_eq!((pixels[2].x, pixels[2].y, pixels[2].cov_num, pixels[2].cov_den), (1, 0, 2, 4));
    assert_eq!((pixels[3].x, pixels[3].y, pixels[3].cov_num), (1, 1, 2));
}

#[test]
fn dda_aa_pairs_are_complementary() {
    let mut log = NoOpLogger;
    check_pairs(&dda_aa(p(-50, -10), p(50, 20), &mut log));
    check_pairs(&dda_aa(p(1, 8), p(2, -5), &mut log));
    check_pairs(&dda_aa(p(6, 1), p(6, 1), &mut log));
}

#[test]
fn dda_aa_holds_the_dominant_coordinate_exact() {
    let mut log = NoOpLogger;
    let pixels = dda_aa(p(0, 0), p(6, 3), &mut log);
    assert_eq!(pixels.len(), 14);
    let mut k = 0;
    let mut x = 0;
    while k < pixels.len() {
        assert_eq!(pixels[k].x, x);
        assert_eq!(pixels[k + 1].x, x);
        // the two bracketing pixels are vertically adjacent
        assert_eq!(pixels[k + 1].y, pixels[k].y + 1);
        k += 2;
        x += 1;
    }
}

#[test]
fn bresenham_aa_pairs_are_complementary() {
    let mut log = NoOpLogger;
    check_pairs(&bresenham_aa(p(-50, -10), p(50, 20), &mut log));
    check_pairs(&bresenham_aa(p(1, 8), p(2, -5), &mut log));
    check_pairs(&bresenham_aa(p(0, 0), p(0, 0), &mut log));
}

#[test]
fn bresenham_aa_intensity_reads_before_the_reset() {
    let mut log = NoOpLogger;
    // from (0,0) to (4,2): d/span runs 0, 2/4, 0 (reset), 2/4, 0
    let pixels = bresenham_aa(p(0, 0), p(4, 2), &mut log);
    assert_eq!(pixels.len(), 10);
    assert_eq!((pixels[0].x, pixels[0].y, pixels[0].cov_num, pixels[0].cov_den), (0, 0, 4, 4));
    assert_eq!((pixels[1].x, pixels[1].y, pixels[1].cov_num), (0, 1, 0));
    assert_eq!((pixels[2].x, pixels[2].y, pixels[2].cov_num), (1, 0, 2));
    assert_eq!((pixels[3].x, pixels[3].y, pixels[3].cov_num), (1, 1, 2));
    assert_eq!((pixels[4].x, pixels[4].y, pixels[4].cov_num), (2, 1, 4));
    assert_eq!((pixels[8].x, pixels[8].y, pixels[8].cov_num), (4, 2, 4));
}

#[test]
fn antialiased_variants_cover_the_dominant_span() {
    let mut log = NoOpLogger;
    let a = p(-50, -10);
    let b = p(50, 20);
    let wu = wu_line(a, b, &mut log);
    assert_eq!(wu[0].x, -50);
    assert_eq!(wu[wu.len() - 1].x, 50);
    let s = step_by_step_aa(a, b, &mut log);
    assert_eq!(s[0].x, -50);
    assert_eq!(s[s.len() - 1].x, 50);
    let d = dda_aa(a, b, &mut log);
    assert_eq!(d[0].x, -50);
    assert_eq!(d[d.len() - 1].x, 50);
    let br = bresenham_aa(a, b, &mut log);
    assert_eq!(br[0].x, -50);
    assert_eq!(br[br.len() - 2].x, 50);
}
