//! The selectable smoothing kernels and the interpolation primitive.
//!
//! A kernel maps a blend parameter in `[0, ONE]` to a weight in `[0, ONE]`;
//! all four kernels fix the endpoints (`0` maps to `0`, `ONE` to `ONE`), which
//! is what makes noise continuous across grid-cell boundaries.

use crate::fixed::{
    clamp, lemma_scale_down_bound, lemma_scale_down_close_k, scale_down, spec_clamp01,
    spec_scale_down, ONE,
};
use vstd::arithmetic::div_mod::{
    lemma_div_basics_1, lemma_div_is_ordered, lemma_div_multiples_vanish, lemma_div_pos_is_pos,
    lemma_fundamental_div_mod, lemma_mod_bound,
};
use vstd::arithmetic::mul::{
    lemma_mul_basics, lemma_mul_inequality, lemma_mul_nonnegative, lemma_mul_upper_bound,
};
use vstd::prelude::*;

verus! {

/// Largest magnitude of a sample accepted by [`interp`]; the evaluator only
/// ever passes dot-gradient values, whose magnitude stays below `2 * ONE`.
pub const INTERP_MAX: i64 = 16 * 65536;

/// The smoothing kernel applied to interpolation weights.
#[derive(Clone, Copy, PartialEq, Eq, Structural, Debug)]
pub enum SmoothFunction {
    Linear,
    Smoothstep,
    Smootherstep,
    Smootheststep,
}

/// `x * x * (3 - 2 * x)` in fixed point, clamped to `[0, ONE]`.
pub open spec fn spec_smoothstep(x: int) -> int {
    let x2 = x * x / (ONE as int);
    spec_clamp01(x2 * (3 * ONE - 2 * x) / (ONE as int))
}

/// `x^3 * (6 * x^2 - 15 * x + 10)` in fixed point, clamped to `[0, ONE]`.
pub open spec fn spec_smootherstep(x: int) -> int {
    let x2 = x * x / (ONE as int);
    let x3 = x2 * x / (ONE as int);
    let u = x * (15 * ONE - 6 * x) / (ONE as int);
    spec_clamp01(x3 * (10 * ONE - u) / (ONE as int))
}

/// `35 * x^4 - 84 * x^5 + 70 * x^6 - 20 * x^7` in fixed point, clamped to
/// `[0, ONE]`; this is `-x^4 * (2 * x * (5 * x * (2 * x - 7) + 42) - 35)`
/// with the powers spelled out.
pub open spec fn spec_smootheststep(x: int) -> int {
    let x2 = x * x / (ONE as int);
    let x3 = x2 * x / (ONE as int);
    let x4 = x3 * x / (ONE as int);
    let x5 = x4 * x / (ONE as int);
    let x6 = x5 * x / (ONE as int);
    let x7 = x6 * x / (ONE as int);
    spec_clamp01(35 * x4 + 70 * x6 - (84 * x5 + 20 * x7))
}

/// The weight a kernel assigns to an already clamped blend parameter.
pub open spec fn spec_kernel(f: SmoothFunction, x: int) -> int {
    match f {
        SmoothFunction::Linear => x,
        SmoothFunction::Smoothstep => spec_smoothstep(x),
        SmoothFunction::Smootherstep => spec_smootherstep(x),
        SmoothFunction::Smootheststep => spec_smootheststep(x),
    }
}

/// Blending two samples: `a0 + w * (a1 - a0)` where `w` is the active kernel
/// applied to the clamped blend parameter.
pub open spec fn spec_interp(f: SmoothFunction, a0: int, a1: int, x: int) -> int {
    let w = spec_kernel(f, spec_clamp01(x));
    if a1 >= a0 {
        a0 + w * (a1 - a0) / (ONE as int)
    } else {
        a0 - w * (a0 - a1) / (ONE as int)
    }
}

/// Smoothstep kernel on a clamped parameter.
pub fn smoothstep(x: i64) -> (r: i64)
    requires
        0 <= x <= ONE,
    ensures
        r == spec_smoothstep(x as int),
        0 <= r <= ONE,
{
    proof {
        lemma_mul_upper_bound(x as int, ONE as int, x as int, ONE as int);
        lemma_mul_nonnegative(x as int, x as int);
    }
    let sq: i64 = x * x;
    let x2: i64 = scale_down(sq);
    proof {
        lemma_scale_down_bound(sq as int, ONE as int);
    }
    let t: i64 = 3 * ONE - 2 * x;
    proof {
        lemma_mul_upper_bound(x2 as int, ONE as int, t as int, 3 * ONE as int);
        lemma_mul_nonnegative(x2 as int, t as int);
    }
    let p: i64 = x2 * t;
    let r0: i64 = scale_down(p);
    clamp(r0)
}

/// Smootherstep kernel on a clamped parameter.
pub fn smootherstep(x: i64) -> (r: i64)
    requires
        0 <= x <= ONE,
    ensures
        r == spec_smootherstep(x as int),
        0 <= r <= ONE,
{
    proof {
        lemma_mul_upper_bound(x as int, ONE as int, x as int, ONE as int);
        lemma_mul_nonnegative(x as int, x as int);
    }
    let sq: i64 = x * x;
    let x2: i64 = scale_down(sq);
    proof {
        lemma_scale_down_bound(sq as int, ONE as int);
        lemma_mul_upper_bound(x2 as int, ONE as int, x as int, ONE as int);
        lemma_mul_nonnegative(x2 as int, x as int);
    }
    let p3: i64 = x2 * x;
    let x3: i64 = scale_down(p3);
    proof {
        lemma_scale_down_bound(p3 as int, ONE as int);
    }
    let t: i64 = 15 * ONE - 6 * x;
    proof {
        lemma_mul_nonnegative(x as int, t as int);
        assert(x * t <= 9 * 65536 * 65536) by (nonlinear_arith)
            requires
                0 <= x <= 65536,
                t == 15 * 65536 - 6 * x,
        ;
    }
    let pu: i64 = x * t;
    let u: i64 = scale_down(pu);
    proof {
        lemma_scale_down_bound(pu as int, 9 * ONE as int);
    }
    let b: i64 = 10 * ONE - u;
    proof {
        lemma_mul_upper_bound(x3 as int, ONE as int, b as int, 10 * ONE as int);
        lemma_mul_nonnegative(x3 as int, b as int);
    }
    let pb: i64 = x3 * b;
    let r0: i64 = scale_down(pb);
    clamp(r0)
}

/// Smootheststep kernel on a clamped parameter.
pub fn smootheststep(x: i64) -> (r: i64)
    requires
        0 <= x <= ONE,
    ensures
        r == spec_smootheststep(x as int),
        0 <= r <= ONE,
{
    proof {
        lemma_mul_upper_bound(x as int, ONE as int, x as int, ONE as int);
        lemma_mul_nonnegative(x as int, x as int);
    }
    let sq: i64 = x * x;
    let x2: i64 = scale_down(sq);
    proof {
        lemma_scale_down_bound(sq as int, ONE as int);
        lemma_mul_upper_bound(x2 as int, ONE as int, x as int, ONE as int);
        lemma_mul_nonnegative(x2 as int, x as int);
    }
    let p3: i64 = x2 * x;
    let x3: i64 = scale_down(p3);
    proof {
        lemma_scale_down_bound(p3 as int, ONE as int);
        lemma_mul_upper_bound(x3 as int, ONE as int, x as int, ONE as int);
        lemma_mul_nonnegative(x3 as int, x as int);
    }
    let p4: i64 = x3 * x;
    let x4: i64 = scale_down(p4);
    proof {
        lemma_scale_down_bound(p4 as int, ONE as int);
        lemma_mul_upper_bound(x4 as int, ONE as int, x as int, ONE as int);
        lemma_mul_nonnegative(x4 as int, x as int);
    }
    let p5: i64 = x4 * x;
    let x5: i64 = scale_down(p5);
    proof {
        lemma_scale_down_bound(p5 as int, ONE as int);
        lemma_mul_upper_bound(x5 as int, ONE as int, x as int, ONE as int);
        lemma_mul_nonnegative(x5 as int, x as int);
    }
    let p6: i64 = x5 * x;
    let x6: i64 = scale_down(p6);
    proof {
        lemma_scale_down_bound(p6 as int, ONE as int);
        lemma_mul_upper_bound(x6 as int, ONE as int, x as int, ONE as int);
        lemma_mul_nonnegative(x6 as int, x as int);
    }
    let p7: i64 = x6 * x;
    let x7: i64 = scale_down(p7);
    proof {
        lemma_scale_down_bound(p7 as int, ONE as int);
    }
    let pos: i64 = 35 * x4 + 70 * x6;
    let neg: i64 = 84 * x5 + 20 * x7;
    clamp(pos - neg)
}

/// Blends `a0` toward `a1` by the weight the kernel assigns to the clamped
/// blend parameter `x`; the result stays between the two samples.
pub fn interp(f: SmoothFunction, a0: i64, a1: i64, x: i64) -> (r: i64)
    requires
        -INTERP_MAX <= a0 <= INTERP_MAX,
        -INTERP_MAX <= a1 <= INTERP_MAX,
    ensures
        r == spec_interp(f, a0 as int, a1 as int, x as int),
        a0 <= a1 ==> a0 <= r <= a1,
        a1 <= a0 ==> a1 <= r <= a0,
{
    let xc: i64 = clamp(x);
    let w: i64 = match f {
        SmoothFunction::Linear => xc,
        SmoothFunction::Smoothstep => smoothstep(xc),
        SmoothFunction::Smootherstep => smootherstep(xc),
        SmoothFunction::Smootheststep => smootheststep(xc),
    };
    if a1 >= a0 {
        let d: i64 = a1 - a0;
        proof {
            lemma_mul_nonnegative(w as int, d as int);
            lemma_mul_upper_bound(w as int, ONE as int, d as int, 2 * INTERP_MAX as int);
            lemma_mul_inequality(w as int, ONE as int, d as int);
            lemma_div_is_ordered(w * d, (ONE as int) * d, ONE as int);
            lemma_div_multiples_vanish(d as int, ONE as int);
            lemma_div_pos_is_pos(w * d, ONE as int);
        }
        let p: i64 = w * d;
        let q: i64 = scale_down(p);
        a0 + q
    } else {
        let d: i64 = a0 - a1;
        proof {
            lemma_mul_nonnegative(w as int, d as int);
            lemma_mul_upper_bound(w as int, ONE as int, d as int, 2 * INTERP_MAX as int);
            lemma_mul_inequality(w as int, ONE as int, d as int);
            lemma_div_is_ordered(w * d, (ONE as int) * d, ONE as int);
            lemma_div_multiples_vanish(d as int, ONE as int);
            lemma_div_pos_is_pos(w * d, ONE as int);
        }
        let p: i64 = w * d;
        let q: i64 = scale_down(p);
        a0 - q
    }
}

/// How far one step of the blend parameter can move a kernel's weight.
pub open spec fn spec_kernel_step_bound(f: SmoothFunction) -> int {
    match f {
        SmoothFunction::Linear => 1,
        SmoothFunction::Smoothstep => 8,
        SmoothFunction::Smootherstep => 30,
        SmoothFunction::Smootheststep => 560,
    }
}

/// One step of the blend parameter moves the smoothstep weight by at most 8.
proof fn lemma_smoothstep_step(s: int)
    requires
        0 <= s,
        s + 1 <= ONE,
    ensures
        spec_smoothstep(s) - 8 <= spec_smoothstep(s + 1) <= spec_smoothstep(s) + 8,
{
    let one: int = ONE as int;
    let c: int = s * s / one;
    let c2: int = (s + 1) * (s + 1) / one;
    lemma_mul_nonnegative(s, s);
    lemma_mul_nonnegative(s + 1, s + 1);
    lemma_mul_upper_bound(s, one, s, one);
    lemma_mul_upper_bound(s + 1, one, s + 1, one);
    assert((s + 1) * (s + 1) == s * s + 2 * s + 1) by (nonlinear_arith);
    lemma_scale_down_close_k(s * s + 2 * s + 1, s * s, 2);
    lemma_scale_down_bound(s * s, one);
    lemma_scale_down_bound((s + 1) * (s + 1), one);
    assert(spec_scale_down(s * s) == c);
    assert(spec_scale_down(s * s + 2 * s + 1) == c2);
    assert(c <= c2 <= c + 2);
    assert(0 <= c <= one);
    let t: int = 3 * one - 2 * s;
    let t2: int = 3 * one - 2 * (s + 1);
    assert(c2 * t2 - c * t == (c2 - c) * t2 - 2 * c) by (nonlinear_arith)
        requires
            t2 == t - 2,
    ;
    assert(0 <= (c2 - c) * t2 <= 2 * (3 * 65536)) by (nonlinear_arith)
        requires
            0 <= c2 - c <= 2,
            0 <= t2 <= 3 * 65536,
    ;
    lemma_mul_nonnegative(c, t);
    lemma_mul_nonnegative(c2, t2);
    assert(spec_scale_down(c * t) == c * t / one);
    assert(spec_scale_down(c2 * t2) == c2 * t2 / one);
    if c2 * t2 >= c * t {
        lemma_scale_down_close_k(c2 * t2, c * t, 6);
    } else {
        lemma_scale_down_close_k(c * t, c2 * t2, 2);
    }
    assert(c * t / one - 2 <= c2 * t2 / one <= c * t / one + 6);
    assert(spec_smoothstep(s) == spec_clamp01(c * t / one));
    assert(spec_smoothstep(s + 1) == spec_clamp01(c2 * t2 / one));
}

/// One step of the blend parameter moves the smootherstep weight by at
/// most 30.
proof fn lemma_smootherstep_step(s: int)
    requires
        0 <= s,
        s + 1 <= ONE,
    ensures
        spec_smootherstep(s) - 30 <= spec_smootherstep(s + 1) <= spec_smootherstep(s) + 30,
{
    let one: int = ONE as int;
    let s2: int = s + 1;
    let a2: int = s * s / one;
    let b2: int = s2 * s2 / one;
    lemma_mul_nonnegative(s, s);
    lemma_mul_nonnegative(s2, s2);
    lemma_mul_upper_bound(s, one, s, one);
    lemma_mul_upper_bound(s2, one, s2, one);
    assert(s2 * s2 == s * s + 2 * s + 1) by (nonlinear_arith)
        requires
            s2 == s + 1,
    ;
    lemma_scale_down_close_k(s * s + 2 * s + 1, s * s, 2);
    lemma_scale_down_bound(s * s, one);
    lemma_scale_down_bound(s2 * s2, one);
    assert(spec_scale_down(s * s) == a2);
    assert(spec_scale_down(s * s + 2 * s + 1) == b2);
    assert(a2 <= b2 <= a2 + 2);
    assert(0 <= a2 <= one);
    assert(0 <= b2 <= one);
    let a3: int = a2 * s / one;
    let b3: int = b2 * s2 / one;
    lemma_mul_nonnegative(a2, s);
    lemma_mul_nonnegative(b2, s2);
    lemma_mul_upper_bound(a2, one, s, one);
    lemma_mul_upper_bound(b2, one, s2, one);
    assert(b2 * s2 - a2 * s == (b2 - a2) * s2 + a2) by (nonlinear_arith)
        requires
            s2 == s + 1,
    ;
    assert(0 <= (b2 - a2) * s2 <= 2 * 65536) by (nonlinear_arith)
        requires
            0 <= b2 - a2 <= 2,
            0 <= s2 <= 65536,
    ;
    lemma_scale_down_close_k(b2 * s2, a2 * s, 3);
    lemma_scale_down_bound(a2 * s, one);
    lemma_scale_down_bound(b2 * s2, one);
    assert(spec_scale_down(a2 * s) == a3);
    assert(spec_scale_down(b2 * s2) == b3);
    assert(a3 <= b3 <= a3 + 3);
    assert(0 <= a3 <= one);
    let ta: int = 15 * one - 6 * s;
    let tb: int = 15 * one - 6 * s2;
    let ua: int = s * ta / one;
    let ub: int = s2 * tb / one;
    lemma_mul_nonnegative(s, ta);
    lemma_mul_nonnegative(s2, tb);
    assert(s2 * tb - s * ta == 15 * one - 12 * s - 6) by (nonlinear_arith)
        requires
            s2 == s + 1,
            ta == 15 * one - 6 * s,
            tb == 15 * one - 6 * s2,
    ;
    lemma_scale_down_close_k(s2 * tb, s * ta, 15);
    assert(s * ta <= 9 * 65536 * 65536) by (nonlinear_arith)
        requires
            0 <= s <= 65536,
            ta == 15 * 65536 - 6 * s,
    ;
    assert(s2 * tb <= 9 * 65536 * 65536) by (nonlinear_arith)
        requires
            0 <= s2 <= 65536,
            tb == 15 * 65536 - 6 * s2,
    ;
    lemma_scale_down_bound(s * ta, 9 * one);
    lemma_scale_down_bound(s2 * tb, 9 * one);
    assert(spec_scale_down(s * ta) == ua);
    assert(spec_scale_down(s2 * tb) == ub);
    assert(ua <= ub <= ua + 15);
    assert(0 <= ua <= 9 * one);
    assert(0 <= ub <= 9 * one);
    let ba: int = 10 * one - ua;
    let bb: int = 10 * one - ub;
    assert(b3 * bb - a3 * ba == (b3 - a3) * bb + a3 * (bb - ba)) by (nonlinear_arith);
    assert(0 <= (b3 - a3) * bb <= 3 * (10 * 65536)) by (nonlinear_arith)
        requires
            0 <= b3 - a3 <= 3,
            0 <= bb <= 10 * 65536,
    ;
    assert(-(15 * 65536) <= a3 * (bb - ba) <= 0) by (nonlinear_arith)
        requires
            0 <= a3 <= 65536,
            -15 <= bb - ba <= 0,
    ;
    lemma_mul_nonnegative(a3, ba);
    lemma_mul_nonnegative(b3, bb);
    assert(spec_scale_down(a3 * ba) == a3 * ba / one);
    assert(spec_scale_down(b3 * bb) == b3 * bb / one);
    if b3 * bb >= a3 * ba {
        lemma_scale_down_close_k(b3 * bb, a3 * ba, 30);
    } else {
        lemma_scale_down_close_k(a3 * ba, b3 * bb, 15);
    }
    assert(a3 * ba / one - 15 <= b3 * bb / one <= a3 * ba / one + 30);
    assert(spec_smootherstep(s) == spec_clamp01(a3 * ba / one));
    assert(spec_smootherstep(s2) == spec_clamp01(b3 * bb / one));
}

/// One step of the blend parameter moves the smootheststep weight by at
/// most 560.
proof fn lemma_smootheststep_step(s: int)
    requires
        0 <= s,
        s + 1 <= ONE,
    ensures
        spec_smootheststep(s) - 560 <= spec_smootheststep(s + 1) <= spec_smootheststep(s) + 560,
{
    let one: int = ONE as int;
    let s2: int = s + 1;
    let a2: int = s * s / one;
    let b2: int = s2 * s2 / one;
    lemma_mul_nonnegative(s, s);
    lemma_mul_nonnegative(s2, s2);
    lemma_mul_upper_bound(s, one, s, one);
    lemma_mul_upper_bound(s2, one, s2, one);
    assert(s2 * s2 == s * s + 2 * s + 1) by (nonlinear_arith)
        requires
            s2 == s + 1,
    ;
    lemma_scale_down_close_k(s * s + 2 * s + 1, s * s, 2);
    lemma_scale_down_bound(s * s, one);
    lemma_scale_down_bound(s2 * s2, one);
    assert(spec_scale_down(s * s) == a2);
    assert(spec_scale_down(s * s + 2 * s + 1) == b2);
    assert(a2 <= b2 <= a2 + 2);
    assert(0 <= a2 <= one);
    assert(0 <= b2 <= one);
    let a3: int = lemma_power_step(a2, b2, 2, s);
    let b3: int = b2 * s2 / one;
    let a4: int = lemma_power_step(a3, b3, 3, s);
    let b4: int = b3 * s2 / one;
    let a5: int = lemma_power_step(a4, b4, 4, s);
    let b5: int = b4 * s2 / one;
    let a6: int = lemma_power_step(a5, b5, 5, s);
    let b6: int = b5 * s2 / one;
    let a7: int = lemma_power_step(a6, b6, 6, s);
    let b7: int = b6 * s2 / one;
    let pa: int = 35 * a4 + 70 * a6 - (84 * a5 + 20 * a7);
    let pb: int = 35 * b4 + 70 * b6 - (84 * b5 + 20 * b7);
    assert(pa - 560 <= pb <= pa + 560);
    assert(spec_smootheststep(s) == spec_clamp01(pa));
    assert(spec_smootheststep(s2) == spec_clamp01(pb));
}

/// Helper for the power chain of [`lemma_smootheststep_step`]: from the
/// bounds on one fixed-point power of the parameter it derives the bounds on
/// the next, and returns that next power at the lower parameter.
proof fn lemma_power_step(ak: int, bk: int, k: int, s: int) -> (an: int)
    requires
        0 <= s,
        s + 1 <= ONE,
        0 <= k,
        ak <= bk <= ak + k,
        0 <= ak <= ONE,
        0 <= bk <= ONE,
    ensures
        an == ak * s / (ONE as int),
        an <= bk * (s + 1) / (ONE as int) <= an + k + 1,
        0 <= an <= ONE,
        0 <= bk * (s + 1) / (ONE as int) <= ONE,
{
    let one: int = ONE as int;
    let s2: int = s + 1;
    lemma_mul_nonnegative(ak, s);
    lemma_mul_nonnegative(bk, s2);
    lemma_mul_upper_bound(ak, one, s, one);
    lemma_mul_upper_bound(bk, one, s2, one);
    assert(bk * s2 - ak * s == (bk - ak) * s2 + ak) by (nonlinear_arith)
        requires
            s2 == s + 1,
    ;
    assert(0 <= (bk - ak) * s2 <= k * 65536) by (nonlinear_arith)
        requires
            0 <= bk - ak <= k,
            0 <= s2 <= 65536,
    ;
    lemma_scale_down_close_k(bk * s2, ak * s, k + 1);
    lemma_scale_down_bound(ak * s, one);
    lemma_scale_down_bound(bk * s2, one);
    assert(spec_scale_down(ak * s) == ak * s / one);
    assert(spec_scale_down(bk * s2) == bk * s2 / one);
    lemma_div_pos_is_pos(ak * s, one);
    lemma_div_pos_is_pos(bk * s2, one);
    ak * s / one
}

/// One step of the blend parameter moves any kernel's weight by at most that
/// kernel's [`spec_kernel_step_bound`].
pub proof fn lemma_kernel_step(f: SmoothFunction, s: int)
    requires
        0 <= s,
        s + 1 <= ONE,
    ensures
        spec_kernel(f, s) - spec_kernel_step_bound(f) <= spec_kernel(f, s + 1) <= spec_kernel(
            f,
            s,
        ) + spec_kernel_step_bound(f),
{
    match f {
        SmoothFunction::Linear => {
        }
        SmoothFunction::Smoothstep => {
            lemma_smoothstep_step(s);
        }
        SmoothFunction::Smootherstep => {
            lemma_smootherstep_step(s);
        }
        SmoothFunction::Smootheststep => {
            lemma_smootheststep_step(s);
        }
    }
}

/// Every kernel fixes the endpoints of the unit interval: the weight of `0`
/// is `0` and the weight of `ONE` is `ONE`, whichever kernel is active.
pub proof fn lemma_kernel_endpoints(f: SmoothFunction)
    ensures
        spec_kernel(f, 0) == 0,
        spec_kernel(f, ONE as int) == ONE as int,
{
    lemma_div_multiples_vanish(0, ONE as int);
    lemma_div_multiples_vanish(1, ONE as int);
    lemma_div_multiples_vanish(ONE as int, ONE as int);
    lemma_div_multiples_vanish(9 * ONE as int, ONE as int);
    match f {
        SmoothFunction::Linear => {
        }
        SmoothFunction::Smoothstep => {
            assert(spec_smoothstep(0) == 0);
            assert(spec_smoothstep(ONE as int) == ONE as int);
        }
        SmoothFunction::Smootherstep => {
            assert(spec_smootherstep(0) == 0);
            assert(spec_smootherstep(ONE as int) == ONE as int);
        }
        SmoothFunction::Smootheststep => {
            assert(spec_smootheststep(0) == 0);
            assert(spec_smootheststep(ONE as int) == ONE as int);
        }
    }
}

/// At the endpoints of a cell the blend returns one input sample exactly:
/// blend parameter `0` yields `a0` and blend parameter `ONE` yields `a1`,
/// whichever kernel is active. This is what makes adjacent cells agree on
/// their shared edge.
pub proof fn lemma_interp_endpoints(f: SmoothFunction, a0: int, a1: int)
    ensures
        spec_interp(f, a0, a1, 0) == a0,
        spec_interp(f, a0, a1, ONE as int) == a1,
{
    lemma_kernel_endpoints(f);
    lemma_mul_basics(a1 - a0);
    lemma_mul_basics(a0 - a1);
    lemma_div_basics_1(ONE as int);
    lemma_div_multiples_vanish(a1 - a0, ONE as int);
    lemma_div_multiples_vanish(a0 - a1, ONE as int);
}

/// Every kernel maps a clamped blend parameter to a weight in `[0, ONE]`.
pub proof fn lemma_kernel_range(f: SmoothFunction, s: int)
    ensures
        0 <= spec_kernel(f, spec_clamp01(s)) <= ONE,
{
    match f {
        SmoothFunction::Linear => {
        }
        SmoothFunction::Smoothstep => {
        }
        SmoothFunction::Smootherstep => {
        }
        SmoothFunction::Smootheststep => {
        }
    }
}

/// The blended value is the exact affine blend `a0 + w * (a1 - a0) / ONE`,
/// where `w` is the active kernel's weight, up to less than one fixed-point
/// step of rounding in either direction.
pub proof fn lemma_interp_window(f: SmoothFunction, a0: int, a1: int, s: int)
    ensures
        (ONE as int) * a0 + spec_kernel(f, spec_clamp01(s)) * (a1 - a0) - ONE < (ONE as int)
            * spec_interp(f, a0, a1, s) < (ONE as int) * a0 + spec_kernel(f, spec_clamp01(s)) * (a1
            - a0) + ONE,
{
    let one: int = ONE as int;
    let w: int = spec_kernel(f, spec_clamp01(s));
    if a1 >= a0 {
        lemma_fundamental_div_mod(w * (a1 - a0), one);
        lemma_mod_bound(w * (a1 - a0), one);
    } else {
        lemma_fundamental_div_mod(w * (a0 - a1), one);
        lemma_mod_bound(w * (a0 - a1), one);
        assert(w * (a0 - a1) == -(w * (a1 - a0))) by (nonlinear_arith);
    }
}

/// The blended value lies between the two samples, whichever kernel is
/// active.
pub proof fn lemma_interp_between(f: SmoothFunction, a0: int, a1: int, s: int)
    ensures
        a0 <= a1 ==> a0 <= spec_interp(f, a0, a1, s) <= a1,
        a1 <= a0 ==> a1 <= spec_interp(f, a0, a1, s) <= a0,
{
    let one: int = ONE as int;
    let w: int = spec_kernel(f, spec_clamp01(s));
    lemma_kernel_range(f, s);
    lemma_interp_window(f, a0, a1, s);
    if a0 <= a1 {
        lemma_mul_nonnegative(w, a1 - a0);
        lemma_mul_inequality(w, one, a1 - a0);
    } else {
        assert(one * (a1 - a0) <= w * (a1 - a0) <= 0) by (nonlinear_arith)
            requires
                0 <= w <= 65536,
                one == 65536,
                a1 - a0 <= 0,
        ;
    }
}

/// Blending is Lipschitz: when each sample moves by at most `da` and the
/// kernel's weight by at most `dw` (the samples staying within the working
/// range), the blended value moves by at most `3 * da + 4 * dw + 2`.
pub proof fn lemma_interp_step(
    f: SmoothFunction,
    a0: int,
    a1: int,
    s: int,
    b0: int,
    b1: int,
    t: int,
    da: int,
    dw: int,
)
    requires
        0 <= da,
        0 <= dw,
        a0 - da <= b0 <= a0 + da,
        a1 - da <= b1 <= a1 + da,
        spec_kernel(f, spec_clamp01(s)) - dw <= spec_kernel(f, spec_clamp01(t)) <= spec_kernel(
            f,
            spec_clamp01(s),
        ) + dw,
        -(4 * ONE as int) <= a1 - a0 <= 4 * ONE as int,
    ensures
        spec_interp(f, a0, a1, s) - (3 * da + 4 * dw + 2) <= spec_interp(f, b0, b1, t)
            <= spec_interp(f, a0, a1, s) + (3 * da + 4 * dw + 2),
{
    let one: int = ONE as int;
    let w: int = spec_kernel(f, spec_clamp01(s));
    let u: int = spec_kernel(f, spec_clamp01(t));
    lemma_kernel_range(f, s);
    lemma_kernel_range(f, t);
    lemma_interp_window(f, a0, a1, s);
    lemma_interp_window(f, b0, b1, t);
    assert(-dw <= u - w <= dw);
    assert(u * (b1 - b0) - u * (a1 - a0) == u * ((b1 - b0) - (a1 - a0))) by (nonlinear_arith);
    assert(-(65536 * (2 * da)) <= u * ((b1 - b0) - (a1 - a0)) <= 65536 * (2 * da))
        by (nonlinear_arith)
        requires
            0 <= u <= 65536,
            0 <= da,
            -(2 * da) <= (b1 - b0) - (a1 - a0) <= 2 * da,
    ;
    assert(u * (a1 - a0) - w * (a1 - a0) == (u - w) * (a1 - a0)) by (nonlinear_arith);
    assert(-(dw * (4 * 65536)) <= (u - w) * (a1 - a0) <= dw * (4 * 65536)) by (nonlinear_arith)
        requires
            -dw <= u - w <= dw,
            0 <= dw,
            -(4 * 65536) <= a1 - a0 <= 4 * 65536,
    ;
}

/// The blend parameter of [`spec_interp`] is clamped: any parameter at or
/// below `0` blends like `0`, any at or above `ONE` blends like `ONE`.
pub proof fn lemma_interp_clamps(f: SmoothFunction, a0: int, a1: int, x: int)
    ensures
        x <= 0 ==> spec_interp(f, a0, a1, x) == spec_interp(f, a0, a1, 0),
        x >= ONE ==> spec_interp(f, a0, a1, x) == spec_interp(f, a0, a1, ONE as int),
{
}

} // verus!
