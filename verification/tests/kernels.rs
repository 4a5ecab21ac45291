//! Exact fixed-point values of the smoothing kernels and the interpolation
//! primitive. `65536` is the fixed-point one, `32768` one half, `16384` one
//! quarter.

use perlin::fixed::clamp;
use perlin::kernel::{interp, smootherstep, smootheststep, smoothstep, SmoothFunction};

#[test]
fn clamp_holds_unit_interval() {
    assert_eq!(clamp(-1), 0);
    assert_eq!(clamp(-65536), 0);
    assert_eq!(clamp(0), 0);
    assert_eq!(clamp(40000), 40000);
    assert_eq!(clamp(65536), 65536);
    assert_eq!(clamp(65537), 65536);
    assert_eq!(clamp(131072), 65536);
}

#[test]
fn linear_kernel_is_identity() {
    // linear(0) = 0, linear(1) = 1, linear(0.5) = 0.5, through interp over
    // the samples 0 and 65536 the weight is returned unchanged
    assert_eq!(interp(SmoothFunction::Linear, 0, 65536, 0), 0);
    assert_eq!(interp(SmoothFunction::Linear, 0, 65536, 65536), 65536);
    assert_eq!(interp(SmoothFunction::Linear, 0, 65536, 32768), 32768);
}

#[test]
fn smoothstep_values() {
    assert_eq!(smoothstep(0), 0);
    assert_eq!(smoothstep(65536), 65536);
    // smoothstep(0.5) = 0.5 exactly
    assert_eq!(smoothstep(32768), 32768);
    // smoothstep(0.25) = 0.15625 exactly
    assert_eq!(smoothstep(16384), 10240);
}

#[test]
fn smootherstep_values() {
    assert_eq!(smootherstep(0), 0);
    assert_eq!(smootherstep(65536), 65536);
    // smootherstep(0.5) = 0.5 exactly
    assert_eq!(smootherstep(32768), 32768);
    // smootherstep(0.25) = 0.103515625 exactly
    assert_eq!(smootherstep(16384), 6784);
}

#[test]
fn smootheststep_values() {
    assert_eq!(smootheststep(0), 0);
    assert_eq!(smootheststep(65536), 65536);
    // smootheststep(0.25): 35/256 - 84/1024 + 70/4096 - 20/16384, floored
    assert_eq!(smootheststep(16384), 4624);
}

#[test]
fn kernels_differ_between_endpoints() {
    // the same blend parameter gives different weights under different
    // kernels, so selecting a kernel changes evaluation results
    let lin = interp(SmoothFunction::Linear, 0, 65536, 16384);
    let smooth = interp(SmoothFunction::Smoothstep, 0, 65536, 16384);
    let smoother = interp(SmoothFunction::Smootherstep, 0, 65536, 16384);
    let smoothest = interp(SmoothFunction::Smootheststep, 0, 65536, 16384);
    assert_eq!(lin, 16384);
    assert_eq!(smooth, 10240);
    assert_eq!(smoother, 6784);
    assert_eq!(smoothest, 4624);
}

#[test]
fn interp_clamps_blend_parameter() {
    // a blend parameter of -1 behaves as 0, one of 2 behaves as 1
    assert_eq!(
        interp(SmoothFunction::Smootherstep, 100, 200, -65536),
        interp(SmoothFunction::Smootherstep, 100, 200, 0)
    );
    assert_eq!(interp(SmoothFunction::Smootherstep, 100, 200, -65536), 100);
    assert_eq!(
        interp(SmoothFunction::Smootherstep, 100, 200, 131072),
        interp(SmoothFunction::Smootherstep, 100, 200, 65536)
    );
    assert_eq!(interp(SmoothFunction::Smootherstep, 100, 200, 131072), 200);
}

#[test]
fn interp_stays_between_samples() {
    let r = interp(SmoothFunction::Smoothstep, -300, 500, 20000);
    assert!(-300 <= r && r <= 500);
    let r2 = interp(SmoothFunction::Smootheststep, 500, -300, 20000);
    assert!(-300 <= r2 && r2 <= 500);
}
