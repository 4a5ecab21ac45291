//! Random unit gradient vectors in fixed point.
//!
//! A gradient is drawn by sampling a uniformly random lattice point of a
//! quarter annulus, normalising it to length [`ONE`] with an integer square
//! root, and flipping each component's sign with a fair coin. The result is
//! checked against [`is_unit`] before it is accepted, so every gradient a
//! grid ever holds provably has magnitude `1` up to the tolerance
//! [`UNIT_TOL`] (about `3e-5` relative error in the length).

use crate::fixed::ONE;
use vstd::arithmetic::div_mod::{lemma_fundamental_div_mod, lemma_mod_bound};
use vstd::arithmetic::mul::lemma_mul_upper_bound;
use vstd::prelude::*;

verus! {

/// Largest accepted deviation of a gradient's squared magnitude from
/// `ONE * ONE`.
pub const UNIT_TOL: i64 = 4 * 65536;

/// A 2D gradient vector whose components are 16.16 fixed-point scalars.
#[derive(Clone, Copy, PartialEq, Eq, Structural, Debug)]
pub struct Gradient {
    pub x: i64,
    pub y: i64,
}

/// The gradient invariant: both components lie in `[-ONE, ONE]` and the
/// squared magnitude is `ONE * ONE` up to [`UNIT_TOL`].
pub open spec fn is_unit(g: Gradient) -> bool {
    &&& -ONE <= g.x <= ONE
    &&& -ONE <= g.y <= ONE
    &&& (ONE as int) * (ONE as int) - UNIT_TOL <= g.x * g.x + g.y * g.y <= (ONE as int) * (ONE
        as int) + UNIT_TOL
}

/// Relies on `rand::random`: a fresh sample of the process-wide generator,
/// uniformly distributed over `u64`. Nothing is assumed of the value drawn.
#[verifier::external_body]
fn random_u64() -> u64 {
    rand::random::<u64>()
}

/// Integer square root by binary search.
pub fn isqrt(n: u64) -> (r: u64)
    requires
        n < 1125899906842624,
    ensures
        r * r <= n < (r + 1) * (r + 1),
{
    let mut lo: u64 = 0;
    let mut hi: u64 = 33554432;
    while lo + 1 < hi
        invariant
            lo < hi <= 33554432,
            lo * lo <= n,
            n < hi * hi,
        decreases hi - lo,
    {
        let span: u64 = hi - lo;
        let half: u64 = span / 2;
        proof {
            lemma_fundamental_div_mod(span as int, 2);
            lemma_mod_bound(span as int, 2);
        }
        let mid: u64 = lo + half;
        proof {
            lemma_mul_upper_bound(mid as int, 33554432, mid as int, 33554432);
        }
        if mid * mid <= n {
            lo = mid;
        } else {
            hi = mid;
        }
    }
    lo
}

/// Draws a fresh random gradient satisfying [`is_unit`].
///
/// Sampling rejects lattice points outside the annulus with radii between
/// half of and the full sampling span, then normalises; a bounded number of
/// attempts is made, with the axis vector `(ONE, 0)` as the (in practice
/// unreached) fallback.
pub fn random_gradient() -> (g: Gradient)
    ensures
        is_unit(g),
{
    let mut tries: usize = 0;
    while tries < 64
        invariant
            tries <= 64,
        decreases 64 - tries,
    {
        tries = tries + 1;
        let ra: u64 = random_u64();
        let rb: u64 = random_u64();
        let a: u64 = ra % 1048577;
        let b: u64 = rb % 1048577;
        proof {
            lemma_mod_bound(ra as int, 1048577);
            lemma_mod_bound(rb as int, 1048577);
            lemma_mul_upper_bound(a as int, 1048576, a as int, 1048576);
            lemma_mul_upper_bound(b as int, 1048576, b as int, 1048576);
        }
        let n: u64 = a * a + b * b;
        if 274877906944 <= n && n <= 1099511627776 {
            let r: u64 = isqrt(n);
            proof {
                assert(r >= 1) by (nonlinear_arith)
                    requires
                        n < (r + 1) * (r + 1),
                        274877906944 <= n,
                ;
            }
            let gx0: u64 = a * 65536 / r;
            let gy0: u64 = b * 65536 / r;
            if gx0 <= 65536 && gy0 <= 65536 {
                let sbits: u64 = random_u64();
                let gx: i64 = if sbits % 2 == 1 {
                    -(gx0 as i64)
                } else {
                    gx0 as i64
                };
                let gy: i64 = if (sbits / 2) % 2 == 1 {
                    -(gy0 as i64)
                } else {
                    gy0 as i64
                };
                proof {
                    lemma_mul_upper_bound(gx0 as int, 65536, gx0 as int, 65536);
                    lemma_mul_upper_bound(gy0 as int, 65536, gy0 as int, 65536);
                    assert((gx as int) * (gx as int) == (gx0 as int) * (gx0 as int))
                        by (nonlinear_arith)
                        requires
                            gx == gx0 || gx as int == -(gx0 as int),
                    ;
                    assert((gy as int) * (gy as int) == (gy0 as int) * (gy0 as int))
                        by (nonlinear_arith)
                        requires
                            gy == gy0 || gy as int == -(gy0 as int),
                    ;
                }
                let mx: i64 = gx * gx;
                let my: i64 = gy * gy;
                let m: i64 = mx + my;
                if ONE * ONE - UNIT_TOL <= m && m <= ONE * ONE + UNIT_TOL {
                    return Gradient { x: gx, y: gy };
                }
            }
        }
    }
    Gradient { x: ONE, y: 0 }
}

} // verus!
