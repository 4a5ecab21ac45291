//! End-to-end behaviour of the noise field: unit gradients, zeros at lattice
//! points, continuity, kernel selection and deterministic evaluation.
//! Coordinates are 16.16 fixed point: `65536` is `1.0`.

use perlin::grid::isqrt;
use perlin::PerlinNoise;

#[test]
fn gradients_have_unit_magnitude() {
    let p = PerlinNoise::new(3);
    for iy in 0..3 {
        for ix in 0..3 {
            let g = p.gradient_at(ix, iy);
            let m = g.x * g.x + g.y * g.y;
            // squared magnitude within 4 * 65536 of 65536^2: the length is
            // 1.0 within about 3e-5
            assert!((m - 65536 * 65536).abs() <= 4 * 65536);
        }
    }
}

#[test]
fn lattice_points_evaluate_to_zero() {
    let p = PerlinNoise::new(4);
    for i in 0..3i64 {
        for j in 0..3i64 {
            assert_eq!(p.get(i * 65536, j * 65536), 0);
        }
    }
}

#[test]
fn nearby_points_evaluate_nearby() {
    // within a cell, moving by one fixed-point step (about 1.5e-5 of a cell)
    // moves the value by at most a few steps: no jumps
    let p = PerlinNoise::new(4);
    let y = 98304; // 1.5
    let mut prev = p.get(81920, y); // 1.25
    for k in 1..33i64 {
        let v = p.get(81920 + k, y);
        assert!((v - prev).abs() <= 64);
        prev = v;
    }
}

#[test]
fn single_steps_stay_within_the_proven_bounds() {
    // one fixed-point step moves the value by at most 12 * kb + 17 along x
    // and 4 * kb + 17 along y, where kb is the kernel's step bound
    let mut p = PerlinNoise::new(4);
    let kernels = [
        ("linear", 1i64),
        ("smooth", 8),
        ("smoother", 30),
        ("smoothest", 560),
    ];
    for (name, kb) in kernels {
        assert!(p.set_smooth_function(name));
        let x = 81920; // 1.25
        let y = 90000;
        assert!((p.get(x + 1, y) - p.get(x, y)).abs() <= 12 * kb + 17);
        assert!((p.get(x, y + 1) - p.get(x, y)).abs() <= 4 * kb + 17);
    }
}

#[test]
fn adjacent_cells_agree_at_the_boundary() {
    // approaching x = 2.0 from the left meets the value at x = 2.0, which the
    // right cell computes
    let p = PerlinNoise::new(4);
    let y = 98304; // 1.5
    let at_edge = p.get(2 * 65536, y);
    let left_of_edge = p.get(2 * 65536 - 1, y);
    assert!((at_edge - left_of_edge).abs() <= 64);
}

#[test]
fn selector_recognizes_the_four_names() {
    let mut p = PerlinNoise::new(4);
    assert!(p.set_smooth_function("linear"));
    assert!(p.set_smooth_function("smooth"));
    assert!(p.set_smooth_function("smoother"));
    assert!(p.set_smooth_function("smoothest"));
    assert!(!p.set_smooth_function("bogus"));
    assert!(!p.set_smooth_function(""));
    assert!(!p.set_smooth_function("smoothestest"));
    assert!(!p.set_smooth_function("Linear"));
}

#[test]
fn rejected_selector_leaves_evaluation_unchanged() {
    let mut p = PerlinNoise::new(4);
    assert!(p.set_smooth_function("smoothest"));
    let before = p.get(81920, 98304);
    assert!(!p.set_smooth_function("bogus"));
    let after = p.get(81920, 98304);
    assert_eq!(before, after);
}

#[test]
fn evaluation_is_deterministic_for_a_fixed_grid() {
    let p = PerlinNoise::new(4);
    let v = p.get(98304, 98304); // (1.5, 1.5)
    // roughly [-1, 1]: the dot-gradient bound is 2.0
    assert!(-2 * 65536 <= v && v <= 2 * 65536);
    assert_eq!(p.get(98304, 98304), v);
    assert_eq!(p.get(98304, 98304), v);
}

#[test]
fn distinct_constructions_are_independent() {
    // construction draws fresh randomness; both fields still evaluate within
    // the dot-gradient bound everywhere
    let a = PerlinNoise::new(2);
    let b = PerlinNoise::new(2);
    let va = a.get(32768, 32768);
    let vb = b.get(32768, 32768);
    assert!(va.abs() <= 2 * 65536);
    assert!(vb.abs() <= 2 * 65536);
}

#[test]
fn degenerate_sizes_construct() {
    let _empty = PerlinNoise::new(0);
    let single = PerlinNoise::new(1);
    let g = single.gradient_at(0, 0);
    assert!((g.x * g.x + g.y * g.y - 65536 * 65536).abs() <= 4 * 65536);
}

#[test]
fn isqrt_exact_values() {
    assert_eq!(isqrt(0), 0);
    assert_eq!(isqrt(1), 1);
    assert_eq!(isqrt(2), 1);
    assert_eq!(isqrt(3), 1);
    assert_eq!(isqrt(4), 2);
    assert_eq!(isqrt(65536), 256);
    assert_eq!(isqrt(4294967296), 65536);
    assert_eq!(isqrt(4294967295), 65535);
    assert_eq!(isqrt(1125899906842623), 33554431);
}
