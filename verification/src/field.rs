//! The noise field: a square grid of random unit gradients plus the active
//! smoothing kernel, with point evaluation and kernel selection.

use crate::fixed::{
    lemma_scale_down_bound, lemma_scale_down_close, scale_down, spec_clamp01, spec_scale_down, ONE,
};
use crate::grid::{is_unit, random_gradient, Gradient};
use crate::kernel::{
    interp, lemma_interp_between, lemma_interp_endpoints, lemma_interp_step, lemma_kernel_step,
    spec_interp, spec_kernel_step_bound, SmoothFunction, INTERP_MAX,
};
use vstd::arithmetic::div_mod::{
    lemma_div_basics_1, lemma_div_is_ordered, lemma_div_multiples_vanish,
    lemma_div_multiples_vanish_fancy, lemma_div_pos_is_pos, lemma_fundamental_div_mod,
    lemma_mod_bound,
};
use vstd::arithmetic::mul::lemma_mul_nonnegative;
use vstd::prelude::*;
use vstd::string::StrSliceExecFns;

verus! {

/// The dot product of a gradient with the displacement `(dx, dy)` from its
/// lattice point to the query point, in fixed point.
pub open spec fn spec_dot(g: Gradient, dx: int, dy: int) -> int {
    spec_scale_down(dx * g.x + dy * g.y)
}

/// A field of gradient noise: the immutable grid (stored row-major) and the
/// mutable kernel selection.
pub struct PerlinNoise {
    g: Vec<Gradient>,
    size: usize,
    smooth: SmoothFunction,
}

/// Evaluation of the noise at `(x, y)` through the grid cell whose lower
/// corner is `(cx, cy)`: the four corner dot-gradients, blended horizontally
/// and then vertically by the active kernel.
pub open spec fn spec_eval_cell(p: PerlinNoise, cx: int, cy: int, x: int, y: int) -> int {
    let f = p.smooth();
    let n00 = spec_dot(p.gradient(cx, cy), x - cx * (ONE as int), y - cy * (ONE as int));
    let n10 = spec_dot(p.gradient(cx + 1, cy), x - (cx + 1) * (ONE as int), y - cy * (ONE as int));
    let n01 = spec_dot(p.gradient(cx, cy + 1), x - cx * (ONE as int), y - (cy + 1) * (ONE as int));
    let n11 = spec_dot(
        p.gradient(cx + 1, cy + 1),
        x - (cx + 1) * (ONE as int),
        y - (cy + 1) * (ONE as int),
    );
    let ix0 = spec_interp(f, n00, n10, x - cx * (ONE as int));
    let ix1 = spec_interp(f, n01, n11, x - cx * (ONE as int));
    spec_interp(f, ix0, ix1, y - cy * (ONE as int))
}

/// The value [`PerlinNoise::get`] returns: evaluation through the cell the
/// query point falls in.
pub open spec fn spec_get(p: PerlinNoise, x: int, y: int) -> int {
    spec_eval_cell(p, x / (ONE as int), y / (ONE as int), x, y)
}

/// A row index, a column index and the grid side give a row-major position
/// inside the grid.
proof fn lemma_grid_index(size: int, ix: int, iy: int)
    requires
        0 <= ix < size,
        0 <= iy < size,
    ensures
        0 <= iy * size + ix < size * size,
{
    lemma_mul_nonnegative(iy, size);
    assert(iy * size + ix < size * size) by (nonlinear_arith)
        requires
            0 <= ix < size,
            0 <= iy < size,
    ;
}

impl PerlinNoise {
    /// The side length of the gradient grid.
    pub closed spec fn size(self) -> int {
        self.size as int
    }

    /// The gradients, row-major.
    pub closed spec fn gradients(self) -> Seq<Gradient> {
        self.g@
    }

    /// The gradient stored at column `ix`, row `iy`.
    pub open spec fn gradient(self, ix: int, iy: int) -> Gradient {
        self.gradients()[iy * self.size() + ix]
    }

    /// The active smoothing kernel.
    pub closed spec fn smooth(self) -> SmoothFunction {
        self.smooth
    }

    /// Well-formedness: the grid is square with side [`Self::size`], and
    /// every stored gradient is a unit vector.
    pub open spec fn wf(self) -> bool {
        &&& self.gradients().len() == self.size() * self.size()
        &&& forall|k: int| 0 <= k < self.gradients().len() ==> is_unit(#[trigger] self.gradients()[k])
    }

    /// Builds a field over a freshly randomized `size` x `size` gradient
    /// grid; the kernel starts out as smootherstep.
    pub fn new(size: usize) -> (p: PerlinNoise)
        requires
            size * size <= usize::MAX,
        ensures
            p.wf(),
            p.size() == size,
            p.smooth() == SmoothFunction::Smootherstep,
    {
        let total: usize = size * size;
        let mut g: Vec<Gradient> = Vec::new();
        while g.len() < total
            invariant
                g@.len() <= total,
                forall|k: int| 0 <= k < g@.len() ==> is_unit(#[trigger] g@[k]),
            decreases total - g@.len(),
        {
            let grad: Gradient = random_gradient();
            g.push(grad);
        }
        PerlinNoise { g, size, smooth: SmoothFunction::Smootherstep }
    }

    /// Every gradient a well-formed field holds is a unit vector.
    pub proof fn lemma_gradient_unit(self, ix: int, iy: int)
        requires
            self.wf(),
            0 <= ix < self.size(),
            0 <= iy < self.size(),
        ensures
            is_unit(self.gradient(ix, iy)),
    {
        lemma_grid_index(self.size(), ix, iy);
    }

    /// Reads the gradient at column `ix`, row `iy`.
    pub fn gradient_at(&self, ix: usize, iy: usize) -> (g: Gradient)
        requires
            self.wf(),
            ix < self.size(),
            iy < self.size(),
        ensures
            g == self.gradient(ix as int, iy as int),
            is_unit(g),
    {
        proof {
            lemma_grid_index(self.size(), ix as int, iy as int);
        }
        let total: usize = self.g.len();
        let idx: usize = iy * self.size + ix;
        assert(idx < total);
        self.g[idx]
    }

    /// The dot-gradient at corner `(ix, iy)` for the query point `(x, y)`:
    /// the stored gradient dotted with the displacement from the corner.
    fn dot_grid_gradient(&self, ix: usize, iy: usize, x: i64, y: i64) -> (r: i64)
        requires
            self.wf(),
            ix < self.size(),
            iy < self.size(),
            (ix as int) * (ONE as int) <= i64::MAX,
            (iy as int) * (ONE as int) <= i64::MAX,
            -(ONE as int) <= x - (ix as int) * (ONE as int) <= ONE as int,
            -(ONE as int) <= y - (iy as int) * (ONE as int) <= ONE as int,
        ensures
            r == spec_dot(
                self.gradient(ix as int, iy as int),
                x - (ix as int) * (ONE as int),
                y - (iy as int) * (ONE as int),
            ),
            -(2 * ONE as int) <= r <= 2 * ONE as int,
    {
        let g: Gradient = self.gradient_at(ix, iy);
        let cx: i64 = (ix as i64) * ONE;
        let cy: i64 = (iy as i64) * ONE;
        let dx: i64 = x - cx;
        let dy: i64 = y - cy;
        proof {
            assert(-(65536 * 65536) <= (dx as int) * (g.x as int) <= 65536 * 65536)
                by (nonlinear_arith)
                requires
                    -65536 <= dx as int <= 65536,
                    -65536 <= g.x as int <= 65536,
            ;
            assert(-(65536 * 65536) <= (dy as int) * (g.y as int) <= 65536 * 65536)
                by (nonlinear_arith)
                requires
                    -65536 <= dy as int <= 65536,
                    -65536 <= g.y as int <= 65536,
            ;
        }
        let px: i64 = dx * g.x;
        let py: i64 = dy * g.y;
        let num: i64 = px + py;
        proof {
            lemma_scale_down_bound(num as int, 2 * ONE as int);
        }
        scale_down(num)
    }

    /// Samples the noise at the fixed-point coordinates `(x, y)`, which must
    /// lie inside the grid: both in `[0, (size - 1) * ONE)`.
    pub fn get(&self, x: i64, y: i64) -> (v: i64)
        requires
            self.wf(),
            self.size() * (ONE as int) <= i64::MAX,
            0 <= x < (self.size() - 1) * (ONE as int),
            0 <= y < (self.size() - 1) * (ONE as int),
        ensures
            v == spec_get(*self, x as int, y as int),
            -(2 * ONE as int) <= v <= 2 * ONE as int,
    {
        let x0: i64 = scale_down(x);
        let y0: i64 = scale_down(y);
        proof {
            lemma_div_pos_is_pos(x as int, ONE as int);
            lemma_div_pos_is_pos(y as int, ONE as int);
            assert((self.size() - 1) * (ONE as int) - 1 == (ONE as int) * (self.size() - 2) + (
            ONE as int - 1));
            lemma_div_is_ordered(x as int, (self.size() - 1) * (ONE as int) - 1, ONE as int);
            lemma_div_is_ordered(y as int, (self.size() - 1) * (ONE as int) - 1, ONE as int);
            lemma_div_multiples_vanish_fancy(self.size() - 2, ONE as int - 1, ONE as int);
            lemma_fundamental_div_mod(x as int, ONE as int);
            lemma_fundamental_div_mod(y as int, ONE as int);
            lemma_mod_bound(x as int, ONE as int);
            lemma_mod_bound(y as int, ONE as int);
        }
        let ix0: usize = x0 as usize;
        let iy0: usize = y0 as usize;
        let ix1: usize = ix0 + 1;
        let iy1: usize = iy0 + 1;
        let sx: i64 = x - x0 * ONE;
        let sy: i64 = y - y0 * ONE;
        let n00: i64 = self.dot_grid_gradient(ix0, iy0, x, y);
        let n10: i64 = self.dot_grid_gradient(ix1, iy0, x, y);
        let ix0v: i64 = interp(self.smooth, n00, n10, sx);
        let n01: i64 = self.dot_grid_gradient(ix0, iy1, x, y);
        let n11: i64 = self.dot_grid_gradient(ix1, iy1, x, y);
        let ix1v: i64 = interp(self.smooth, n01, n11, sx);
        interp(self.smooth, ix0v, ix1v, sy)
    }

    /// Selects the smoothing kernel by name. The recognized names are
    /// `"linear"`, `"smooth"`, `"smoother"` and `"smoothest"`; any other name
    /// is reported as failure and leaves the field unchanged.
    pub fn set_smooth_function(&mut self, s: &str) -> (r: bool)
        ensures
            final(self).size() == old(self).size(),
            final(self).gradients() == old(self).gradients(),
            final(self).wf() == old(self).wf(),
            r == (s@ == "linear"@ || s@ == "smooth"@ || s@ == "smoother"@ || s@
                == "smoothest"@),
            final(self).smooth() == (if s@ == "linear"@ {
                SmoothFunction::Linear
            } else if s@ == "smooth"@ {
                SmoothFunction::Smoothstep
            } else if s@ == "smoother"@ {
                SmoothFunction::Smootherstep
            } else if s@ == "smoothest"@ {
                SmoothFunction::Smootheststep
            } else {
                old(self).smooth()
            }),
    {
        if str_eq(s, "linear") {
            self.smooth = SmoothFunction::Linear;
            true
        } else if str_eq(s, "smooth") {
            self.smooth = SmoothFunction::Smoothstep;
            true
        } else if str_eq(s, "smoother") {
            self.smooth = SmoothFunction::Smootherstep;
            true
        } else if str_eq(s, "smoothest") {
            self.smooth = SmoothFunction::Smootheststep;
            true
        } else {
            false
        }
    }
}

/// The dot-gradient of a unit gradient against a displacement inside one
/// cell is bounded by `2 * ONE` in magnitude.
pub proof fn lemma_dot_bound(g: Gradient, dx: int, dy: int)
    requires
        is_unit(g),
        -(ONE as int) <= dx <= ONE as int,
        -(ONE as int) <= dy <= ONE as int,
    ensures
        -(2 * ONE as int) <= spec_dot(g, dx, dy) <= 2 * ONE as int,
{
    assert(-(65536 * 65536) <= dx * g.x <= 65536 * 65536) by (nonlinear_arith)
        requires
            -65536 <= dx <= 65536,
            -65536 <= g.x as int <= 65536,
    ;
    assert(-(65536 * 65536) <= dy * g.y <= 65536 * 65536) by (nonlinear_arith)
        requires
            -65536 <= dy <= 65536,
            -65536 <= g.y as int <= 65536,
    ;
    lemma_scale_down_bound(dx * g.x + dy * g.y, 2 * ONE as int);
}

/// Moving the query point one fixed-point step along the x axis moves a
/// corner's dot-gradient by at most one step.
pub proof fn lemma_dot_step_x(g: Gradient, dx: int, dy: int)
    requires
        is_unit(g),
    ensures
        spec_dot(g, dx, dy) - 1 <= spec_dot(g, dx + 1, dy) <= spec_dot(g, dx, dy) + 1,
{
    assert((dx + 1) * g.x == dx * g.x + g.x) by (nonlinear_arith);
    if g.x >= 0 {
        lemma_scale_down_close(dx * g.x + dy * g.y + g.x, dx * g.x + dy * g.y);
    } else {
        lemma_scale_down_close(dx * g.x + dy * g.y, dx * g.x + g.x + dy * g.y);
        assert(dx * g.x + g.x + dy * g.y == dx * g.x + dy * g.y + g.x);
    }
}

/// Moving the query point one fixed-point step along the y axis moves a
/// corner's dot-gradient by at most one step.
pub proof fn lemma_dot_step_y(g: Gradient, dx: int, dy: int)
    requires
        is_unit(g),
    ensures
        spec_dot(g, dx, dy) - 1 <= spec_dot(g, dx, dy + 1) <= spec_dot(g, dx, dy) + 1,
{
    assert((dy + 1) * g.y == dy * g.y + g.y) by (nonlinear_arith);
    if g.y >= 0 {
        lemma_scale_down_close(dx * g.x + dy * g.y + g.y, dx * g.x + dy * g.y);
    } else {
        lemma_scale_down_close(dx * g.x + dy * g.y, dx * g.x + dy * g.y + g.y);
    }
}

/// Within one grid cell the noise has no jumps along the y axis: moving the
/// query point one fixed-point step (about `1.5e-5` of a cell) moves the
/// value by an amount bounded by a constant of the active kernel.
pub proof fn lemma_continuity_y(p: PerlinNoise, x: int, y: int)
    requires
        p.wf(),
        0 <= x,
        0 <= y,
        y / (ONE as int) == (y + 1) / (ONE as int),
        x / (ONE as int) + 1 < p.size(),
        y / (ONE as int) + 1 < p.size(),
    ensures
        spec_get(p, x, y) - (4 * spec_kernel_step_bound(p.smooth()) + 17) <= spec_get(p, x, y + 1)
            <= spec_get(p, x, y) + (4 * spec_kernel_step_bound(p.smooth()) + 17),
{
    let one: int = ONE as int;
    let cx: int = x / one;
    let cy: int = y / one;
    let f = p.smooth();
    lemma_div_pos_is_pos(x, one);
    lemma_div_pos_is_pos(y, one);
    lemma_fundamental_div_mod(x, one);
    lemma_mod_bound(x, one);
    lemma_fundamental_div_mod(y, one);
    lemma_mod_bound(y, one);
    lemma_fundamental_div_mod(y + 1, one);
    lemma_mod_bound(y + 1, one);
    let dx: int = x - cx * one;
    let dy: int = y - cy * one;
    assert(0 <= dx < one);
    assert(0 <= dy && dy + 1 < one);
    p.lemma_gradient_unit(cx, cy);
    p.lemma_gradient_unit(cx + 1, cy);
    p.lemma_gradient_unit(cx, cy + 1);
    p.lemma_gradient_unit(cx + 1, cy + 1);
    let g00 = p.gradient(cx, cy);
    let g10 = p.gradient(cx + 1, cy);
    let g01 = p.gradient(cx, cy + 1);
    let g11 = p.gradient(cx + 1, cy + 1);
    lemma_dot_bound(g00, dx, dy);
    lemma_dot_bound(g00, dx, dy + 1);
    lemma_dot_bound(g10, dx - one, dy);
    lemma_dot_bound(g10, dx - one, dy + 1);
    lemma_dot_bound(g01, dx, dy - one);
    lemma_dot_bound(g01, dx, dy + 1 - one);
    lemma_dot_bound(g11, dx - one, dy - one);
    lemma_dot_bound(g11, dx - one, dy + 1 - one);
    lemma_dot_step_y(g00, dx, dy);
    lemma_dot_step_y(g10, dx - one, dy);
    lemma_dot_step_y(g01, dx, dy - one);
    lemma_dot_step_y(g11, dx - one, dy - one);
    let n00: int = spec_dot(g00, dx, dy);
    let n10: int = spec_dot(g10, dx - one, dy);
    let n01: int = spec_dot(g01, dx, dy - one);
    let n11: int = spec_dot(g11, dx - one, dy - one);
    let m00: int = spec_dot(g00, dx, dy + 1);
    let m10: int = spec_dot(g10, dx - one, dy + 1);
    let m01: int = spec_dot(g01, dx, dy + 1 - one);
    let m11: int = spec_dot(g11, dx - one, dy + 1 - one);
    lemma_interp_step(f, n00, n10, dx, m00, m10, dx, 1, 0);
    lemma_interp_step(f, n01, n11, dx, m01, m11, dx, 1, 0);
    let ix0: int = spec_interp(f, n00, n10, dx);
    let ix1: int = spec_interp(f, n01, n11, dx);
    let jx0: int = spec_interp(f, m00, m10, dx);
    let jx1: int = spec_interp(f, m01, m11, dx);
    lemma_interp_between(f, n00, n10, dx);
    lemma_interp_between(f, n01, n11, dx);
    let kb: int = spec_kernel_step_bound(f);
    assert(kb >= 1);
    lemma_kernel_step(f, dy);
    assert(spec_clamp01(dy) == dy);
    assert(spec_clamp01(dy + 1) == dy + 1);
    lemma_interp_step(f, ix0, ix1, dy, jx0, jx1, dy + 1, 5, kb);
    assert(spec_eval_cell(p, cx, cy, x, y) == spec_interp(f, ix0, ix1, dy));
    assert(spec_eval_cell(p, cx, cy, x, y + 1) == spec_interp(f, jx0, jx1, dy + 1));
}

/// Within one grid cell the noise has no jumps along the x axis: moving the
/// query point one fixed-point step (about `1.5e-5` of a cell) moves the
/// value by an amount bounded by a constant of the active kernel.
pub proof fn lemma_continuity_x(p: PerlinNoise, x: int, y: int)
    requires
        p.wf(),
        0 <= x,
        0 <= y,
        x / (ONE as int) == (x + 1) / (ONE as int),
        x / (ONE as int) + 1 < p.size(),
        y / (ONE as int) + 1 < p.size(),
    ensures
        spec_get(p, x, y) - (12 * spec_kernel_step_bound(p.smooth()) + 17) <= spec_get(
            p,
            x + 1,
            y,
        ) <= spec_get(p, x, y) + (12 * spec_kernel_step_bound(p.smooth()) + 17),
{
    let one: int = ONE as int;
    let cx: int = x / one;
    let cy: int = y / one;
    let f = p.smooth();
    lemma_div_pos_is_pos(x, one);
    lemma_div_pos_is_pos(y, one);
    lemma_fundamental_div_mod(x, one);
    lemma_mod_bound(x, one);
    lemma_fundamental_div_mod(x + 1, one);
    lemma_mod_bound(x + 1, one);
    lemma_fundamental_div_mod(y, one);
    lemma_mod_bound(y, one);
    let dx: int = x - cx * one;
    let dy: int = y - cy * one;
    assert(0 <= dx && dx + 1 < one);
    assert(0 <= dy < one);
    p.lemma_gradient_unit(cx, cy);
    p.lemma_gradient_unit(cx + 1, cy);
    p.lemma_gradient_unit(cx, cy + 1);
    p.lemma_gradient_unit(cx + 1, cy + 1);
    let g00 = p.gradient(cx, cy);
    let g10 = p.gradient(cx + 1, cy);
    let g01 = p.gradient(cx, cy + 1);
    let g11 = p.gradient(cx + 1, cy + 1);
    lemma_dot_bound(g00, dx, dy);
    lemma_dot_bound(g00, dx + 1, dy);
    lemma_dot_bound(g10, dx - one, dy);
    lemma_dot_bound(g10, dx + 1 - one, dy);
    lemma_dot_bound(g01, dx, dy - one);
    lemma_dot_bound(g01, dx + 1, dy - one);
    lemma_dot_bound(g11, dx - one, dy - one);
    lemma_dot_bound(g11, dx + 1 - one, dy - one);
    lemma_dot_step_x(g00, dx, dy);
    lemma_dot_step_x(g10, dx - one, dy);
    lemma_dot_step_x(g01, dx, dy - one);
    lemma_dot_step_x(g11, dx - one, dy - one);
    let n00: int = spec_dot(g00, dx, dy);
    let n10: int = spec_dot(g10, dx - one, dy);
    let n01: int = spec_dot(g01, dx, dy - one);
    let n11: int = spec_dot(g11, dx - one, dy - one);
    let m00: int = spec_dot(g00, dx + 1, dy);
    let m10: int = spec_dot(g10, dx + 1 - one, dy);
    let m01: int = spec_dot(g01, dx + 1, dy - one);
    let m11: int = spec_dot(g11, dx + 1 - one, dy - one);
    let kb: int = spec_kernel_step_bound(f);
    assert(kb >= 1);
    lemma_kernel_step(f, dx);
    assert(spec_clamp01(dx) == dx);
    assert(spec_clamp01(dx + 1) == dx + 1);
    lemma_interp_step(f, n00, n10, dx, m00, m10, dx + 1, 1, kb);
    lemma_interp_step(f, n01, n11, dx, m01, m11, dx + 1, 1, kb);
    let ix0: int = spec_interp(f, n00, n10, dx);
    let ix1: int = spec_interp(f, n01, n11, dx);
    let jx0: int = spec_interp(f, m00, m10, dx + 1);
    let jx1: int = spec_interp(f, m01, m11, dx + 1);
    lemma_interp_between(f, n00, n10, dx);
    lemma_interp_between(f, n01, n11, dx);
    lemma_interp_step(f, ix0, ix1, dy, jx0, jx1, dy, 4 * kb + 5, 0);
    assert(spec_eval_cell(p, cx, cy, x, y) == spec_interp(f, ix0, ix1, dy));
    assert(spec_eval_cell(p, cx, cy, x + 1, y) == spec_interp(f, jx0, jx1, dy));
}

/// At a lattice point of the grid the noise vanishes exactly: the
/// displacement to the nearest corner is zero, so its dot-gradient is zero,
/// and both blend parameters are zero, so that corner's value is returned.
pub proof fn lemma_lattice_zero(p: PerlinNoise, i: int, j: int)
    requires
        0 <= i < p.size() - 1,
        0 <= j < p.size() - 1,
    ensures
        spec_get(p, i * (ONE as int), j * (ONE as int)) == 0,
{
    let one: int = ONE as int;
    let x: int = i * one;
    let y: int = j * one;
    let f = p.smooth();
    lemma_div_multiples_vanish(i, one);
    lemma_div_multiples_vanish(j, one);
    assert(x / one == i);
    assert(y / one == j);
    let n00: int = spec_dot(p.gradient(i, j), x - i * one, y - j * one);
    let n10: int = spec_dot(p.gradient(i + 1, j), x - (i + 1) * one, y - j * one);
    let n01: int = spec_dot(p.gradient(i, j + 1), x - i * one, y - (j + 1) * one);
    let n11: int = spec_dot(p.gradient(i + 1, j + 1), x - (i + 1) * one, y - (j + 1) * one);
    assert(n00 == 0) by {
        lemma_div_basics_1(one);
        assert(x - i * one == 0);
        assert(y - j * one == 0);
    }
    lemma_interp_endpoints(f, n00, n10);
    lemma_interp_endpoints(f, n01, n11);
    let ix0: int = spec_interp(f, n00, n10, x - i * one);
    let ix1: int = spec_interp(f, n01, n11, x - i * one);
    assert(ix0 == 0);
    assert(ix1 == n01);
    lemma_interp_endpoints(f, ix0, ix1);
    assert(spec_interp(f, ix0, ix1, y - j * one) == 0);
}

/// Adjacent cells agree on their shared edge: at `x = (cx + 1) * ONE`, the
/// value computed through the cell at `cx` (there the horizontal blend is
/// exactly `ONE`) equals the value computed through the cell at `cx + 1`
/// (there it is exactly `0`), and that is the value [`spec_get`] returns on
/// the edge. The kernels fixing the endpoints of the unit interval is what
/// makes the two agree.
pub proof fn lemma_cell_boundary(p: PerlinNoise, cx: int, cy: int, y: int)
    requires
        0 <= cx,
        cx + 2 < p.size(),
        0 <= cy,
        cy + 1 < p.size(),
        cy == y / (ONE as int),
    ensures
        spec_eval_cell(p, cx, cy, (cx + 1) * (ONE as int), y) == spec_eval_cell(
            p,
            cx + 1,
            cy,
            (cx + 1) * (ONE as int),
            y,
        ),
        spec_get(p, (cx + 1) * (ONE as int), y) == spec_eval_cell(
            p,
            cx,
            cy,
            (cx + 1) * (ONE as int),
            y,
        ),
{
    let one: int = ONE as int;
    let x: int = (cx + 1) * one;
    let f = p.smooth();
    lemma_div_multiples_vanish(cx + 1, one);
    assert(x / one == cx + 1);
    assert(x - cx * one == one);
    assert(x - (cx + 1) * one == 0);
    let l00: int = spec_dot(p.gradient(cx, cy), x - cx * one, y - cy * one);
    let l10: int = spec_dot(p.gradient(cx + 1, cy), x - (cx + 1) * one, y - cy * one);
    let l01: int = spec_dot(p.gradient(cx, cy + 1), x - cx * one, y - (cy + 1) * one);
    let l11: int = spec_dot(p.gradient(cx + 1, cy + 1), x - (cx + 1) * one, y - (cy + 1) * one);
    let r10: int = spec_dot(p.gradient(cx + 2, cy), x - (cx + 2) * one, y - cy * one);
    let r11: int = spec_dot(p.gradient(cx + 2, cy + 1), x - (cx + 2) * one, y - (cy + 1) * one);
    lemma_interp_endpoints(f, l00, l10);
    lemma_interp_endpoints(f, l01, l11);
    lemma_interp_endpoints(f, l10, r10);
    lemma_interp_endpoints(f, l11, r11);
    assert(spec_eval_cell(p, cx, cy, x, y) == spec_interp(f, l10, l11, y - cy * one));
    assert(spec_eval_cell(p, cx + 1, cy, x, y) == spec_interp(f, l10, l11, y - cy * one));
}

/// The counterpart of [`lemma_cell_boundary`] for a horizontal seam: at
/// `y = (cy + 1) * ONE` the cell at `cy` and the cell at `cy + 1` compute the
/// same value, and that is the value [`spec_get`] returns there.
pub proof fn lemma_cell_boundary_y(p: PerlinNoise, cx: int, cy: int, x: int)
    requires
        0 <= cx,
        cx + 1 < p.size(),
        0 <= cy,
        cy + 2 < p.size(),
        cx == x / (ONE as int),
    ensures
        spec_eval_cell(p, cx, cy, x, (cy + 1) * (ONE as int)) == spec_eval_cell(
            p,
            cx,
            cy + 1,
            x,
            (cy + 1) * (ONE as int),
        ),
        spec_get(p, x, (cy + 1) * (ONE as int)) == spec_eval_cell(
            p,
            cx,
            cy,
            x,
            (cy + 1) * (ONE as int),
        ),
{
    let one: int = ONE as int;
    let y: int = (cy + 1) * one;
    let f = p.smooth();
    lemma_div_multiples_vanish(cy + 1, one);
    assert(y / one == cy + 1);
    assert(y - cy * one == one);
    assert(y - (cy + 1) * one == 0);
    let l01: int = spec_dot(p.gradient(cx, cy + 1), x - cx * one, y - (cy + 1) * one);
    let l11: int = spec_dot(p.gradient(cx + 1, cy + 1), x - (cx + 1) * one, y - (cy + 1) * one);
    let l00: int = spec_dot(p.gradient(cx, cy), x - cx * one, y - cy * one);
    let l10: int = spec_dot(p.gradient(cx + 1, cy), x - (cx + 1) * one, y - cy * one);
    let r01: int = spec_dot(p.gradient(cx, cy + 2), x - cx * one, y - (cy + 2) * one);
    let r11: int = spec_dot(p.gradient(cx + 1, cy + 2), x - (cx + 1) * one, y - (cy + 2) * one);
    let low0: int = spec_interp(f, l00, l10, x - cx * one);
    let low1: int = spec_interp(f, l01, l11, x - cx * one);
    let up1: int = spec_interp(f, r01, r11, x - cx * one);
    lemma_interp_endpoints(f, low0, low1);
    lemma_interp_endpoints(f, low1, up1);
    assert(spec_eval_cell(p, cx, cy, x, y) == low1);
    assert(spec_eval_cell(p, cx, cy + 1, x, y) == low1);
}

/// Character-by-character string comparison; two string slices are equal
/// exactly when their views are.
fn str_eq(a: &str, b: &str) -> (r: bool)
    ensures
        r == (a@ == b@),
{
    let la: usize = a.unicode_len();
    let lb: usize = b.unicode_len();
    if la != lb {
        return false;
    }
    let mut i: usize = 0;
    while i < la
        invariant
            i <= la,
            la == a@.len(),
            la == b@.len(),
            forall|j: int| 0 <= j < i ==> a@[j] == b@[j],
        decreases la - i,
    {
        let ca: char = a.get_char(i);
        let cb: char = b.get_char(i);
        if ca != cb {
            return false;
        }
        i = i + 1;
    }
    proof {
        assert(a@ =~= b@);
    }
    true
}

} // verus!
