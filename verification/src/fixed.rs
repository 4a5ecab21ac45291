//! Signed 16.16 fixed-point scalars: an `i64` holds a real number scaled by
//! [`ONE`]. All noise values, coordinates and interpolation weights in this
//! crate are such scalars.

use vstd::arithmetic::div_mod::{
    lemma_basic_div, lemma_div_is_ordered, lemma_div_multiples_vanish,
    lemma_div_multiples_vanish_fancy, lemma_div_pos_is_pos, lemma_fundamental_div_mod,
    lemma_mod_bound,
};
use vstd::prelude::*;

verus! {

/// The fixed-point representation of the real number 1.
pub const ONE: i64 = 65536;

/// Largest magnitude accepted by [`scale_down`]: every `i64` but `i64::MIN`,
/// whose negation would overflow.
pub const SCALE_DOWN_MAX: i64 = 0x7fff_ffff_ffff_ffff;

/// Division of a scaled product by [`ONE`], rounding toward zero.
pub open spec fn spec_scale_down(v: int) -> int {
    if v >= 0 {
        v / (ONE as int)
    } else {
        -((-v) / (ONE as int))
    }
}

/// Clamping to the fixed-point unit interval `[0, ONE]`.
pub open spec fn spec_clamp01(x: int) -> int {
    if x < 0 {
        0
    } else if x > ONE {
        ONE as int
    } else {
        x
    }
}

/// Divides a scaled product by [`ONE`], rounding toward zero.
pub fn scale_down(v: i64) -> (r: i64)
    requires
        -SCALE_DOWN_MAX <= v <= SCALE_DOWN_MAX,
    ensures
        r == spec_scale_down(v as int),
        v >= 0 ==> 0 <= r <= v,
        v < 0 ==> v <= r <= 0,
{
    if v >= 0 {
        proof {
            lemma_div_pos_is_pos(v as int, ONE as int);
            lemma_div_is_ordered_one(v as int);
        }
        ((v as u64) / (ONE as u64)) as i64
    } else {
        let m: i64 = -v;
        proof {
            lemma_div_pos_is_pos(m as int, ONE as int);
            lemma_div_is_ordered_one(m as int);
        }
        -(((m as u64) / (ONE as u64)) as i64)
    }
}

/// A non-negative value shrinks (weakly) when divided by [`ONE`].
proof fn lemma_div_is_ordered_one(v: int)
    requires
        0 <= v,
    ensures
        v / (ONE as int) <= v,
{
    lemma_fundamental_div_mod(v, ONE as int);
    lemma_div_pos_is_pos(v, ONE as int);
    assert((ONE as int) * (v / (ONE as int)) >= v / (ONE as int)) by (nonlinear_arith)
        requires
            v / (ONE as int) >= 0,
    ;
}

/// A value of magnitude at most `b * ONE` scales down to magnitude at most `b`.
pub proof fn lemma_scale_down_bound(v: int, b: int)
    requires
        0 <= b,
        -(b * (ONE as int)) <= v <= b * (ONE as int),
    ensures
        -b <= spec_scale_down(v) <= b,
{
    lemma_div_multiples_vanish(b, ONE as int);
    if v >= 0 {
        lemma_div_pos_is_pos(v, ONE as int);
        lemma_div_is_ordered(v, b * (ONE as int), ONE as int);
        assert(b * (ONE as int) == (ONE as int) * b);
    } else {
        lemma_div_pos_is_pos(-v, ONE as int);
        lemma_div_is_ordered(-v, b * (ONE as int), ONE as int);
        assert(b * (ONE as int) == (ONE as int) * b);
    }
}

/// Scaling down preserves order.
pub proof fn lemma_scale_down_monotone(u: int, v: int)
    requires
        u <= v,
    ensures
        spec_scale_down(u) <= spec_scale_down(v),
{
    if u >= 0 {
        lemma_div_is_ordered(u, v, ONE as int);
    } else if v < 0 {
        lemma_div_is_ordered(-v, -u, ONE as int);
    } else {
        lemma_div_pos_is_pos(-u, ONE as int);
        lemma_div_pos_is_pos(v, ONE as int);
    }
}

/// Adding [`ONE`] to the operand raises the scaled-down value by exactly one
/// step or, around zero where truncation flattens it, not at all.
pub proof fn lemma_scale_down_shift(u: int)
    ensures
        spec_scale_down(u) <= spec_scale_down(u + ONE) <= spec_scale_down(u) + 1,
{
    let one: int = ONE as int;
    lemma_scale_down_monotone(u, u + one);
    if u >= 0 {
        lemma_fundamental_div_mod(u, one);
        lemma_mod_bound(u, one);
        lemma_div_multiples_vanish_fancy(u / one + 1, u % one, one);
        assert(u + one == one * (u / one + 1) + u % one);
    } else if u + one >= 0 {
        lemma_basic_div(u + one, one);
        lemma_div_pos_is_pos(-u, one);
        lemma_div_is_ordered(-u, one, one);
        lemma_div_multiples_vanish(1, one);
        assert(one == one * 1);
    } else {
        lemma_fundamental_div_mod(-u, one);
        lemma_mod_bound(-u, one);
        lemma_div_multiples_vanish_fancy((-u) / one - 1, (-u) % one, one);
        assert(-(u + one) == one * ((-u) / one - 1) + (-u) % one);
    }
}

/// Operands at most `k * ONE` apart scale down to values at most `k` apart.
pub proof fn lemma_scale_down_close_k(u: int, v: int, k: int)
    requires
        0 <= k,
        v <= u <= v + k * (ONE as int),
    ensures
        spec_scale_down(v) <= spec_scale_down(u) <= spec_scale_down(v) + k,
    decreases k,
{
    lemma_scale_down_monotone(v, u);
    if k == 0 {
    } else if u <= v + (k - 1) * (ONE as int) {
        lemma_scale_down_close_k(u, v, k - 1);
    } else if k == 1 {
        lemma_scale_down_close(u, v);
    } else {
        lemma_scale_down_close_k(u - ONE as int, v, k - 1);
        lemma_scale_down_shift(u - ONE as int);
    }
}

/// Operands at most [`ONE`] apart scale down to values at most one apart.
pub proof fn lemma_scale_down_close(u: int, v: int)
    requires
        v <= u <= v + ONE,
    ensures
        spec_scale_down(v) <= spec_scale_down(u) <= spec_scale_down(v) + 1,
{
    lemma_scale_down_monotone(v, u);
    lemma_scale_down_monotone(u, v + ONE as int);
    lemma_scale_down_shift(v);
}

/// Clamps a blend parameter to `[0, ONE]`.
pub fn clamp(x: i64) -> (r: i64)
    ensures
        r == spec_clamp01(x as int),
{
    if x < 0 {
        0
    } else if x > ONE {
        ONE
    } else {
        x
    }
}

} // verus!
