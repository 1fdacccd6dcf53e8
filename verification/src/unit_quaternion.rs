//! A unit (normalized) quaternion over fixed-point components.
//!
//! A component value of [`ONE`] stands for the real number one, so the four
//! components are real numbers with nine decimal places. Construction always
//! normalizes: the components are divided by the Euclidean norm of the
//! 4-vector, except that an input whose norm lies below [`NORM_EPS`] (the
//! fixed-point rendering of a near-zero threshold) is replaced by the
//! identity quaternion rather than divided by a near-zero value.
//!
//! The norm is computed scaled by [`ONE`], as the integer square root of
//! `norm_sq * ONE²` while that product fits 128 bits, and as
//! `isqrt(norm_sq) * ONE` beyond (where the coarser root is already
//! accurate to a part in 2^32). Either way the squared norm of a
//! constructed quaternion provably stays within `8 * ONE + 4` of `ONE²`,
//! that is, the norm itself within a few parts in a billion of one.

use vstd::arithmetic::div_mod::{
    lemma_basic_div, lemma_div_by_multiple, lemma_div_is_ordered, lemma_div_multiples_vanish,
    lemma_fundamental_div_mod, lemma_fundamental_div_mod_converse_div, lemma_mod_bound,
};
use vstd::arithmetic::mul::{
    lemma_mul_inequality, lemma_mul_is_associative, lemma_mul_is_distributive_add,
    lemma_mul_is_distributive_add_other_way, lemma_mul_strict_inequality,
};
use vstd::prelude::*;

use crate::math::{is_isqrt, isqrt, isqrt_u128, lemma_isqrt_bounds, lemma_isqrt_is};

verus! {

/// The number of fixed-point units that make up the real number one.
pub const ONE: i64 = 1_000_000_000;

/// Norm threshold for the identity fallback: 100 units is 1e-7.
pub const NORM_EPS: i64 = 100;

/// Largest magnitude accepted for a raw input component (2^62 units), so
/// that the sum of the four squared components stays within `u128`.
pub const COMP_MAX: i64 = 0x4000000000000000;

/// Up to this squared norm (2^64), the norm is computed as
/// `isqrt(norm_sq * ONE²)`, which still fits 128 bits; beyond it, as
/// `isqrt(norm_sq) * ONE`, already accurate to a part in 2^32 there.
pub const NORM_FINE_LIMIT: u128 = 0x10000000000000000;

/// The squared Euclidean norm of the 4-vector `(w, x, y, z)`.
pub open spec fn norm_sq_of(w: int, x: int, y: int, z: int) -> int {
    w * w + x * x + y * y + z * z
}

/// Scale a component up by `ONE²` and divide it by the norm `n` (itself
/// scaled by [`ONE`]), rounding the magnitude down (truncation toward
/// zero, as the executable unsigned division does after the sign is split
/// off).
pub open spec fn scale_div(c: int, n: int) -> int {
    if c >= 0 {
        (c * ((ONE as int) * (ONE as int))) / n
    } else {
        -(((-c) * ((ONE as int) * (ONE as int))) / n)
    }
}

/// The Euclidean norm of a 4-vector with squared norm `m`, scaled by
/// [`ONE`]: the integer square root of `m * ONE²` while that fits the
/// machine (`m` below [`NORM_FINE_LIMIT`]), else the coarser
/// `isqrt(m) * ONE`.
pub open spec fn scaled_norm(m: int) -> int {
    if m < NORM_FINE_LIMIT as int {
        isqrt(m * ((ONE as int) * (ONE as int)))
    } else {
        isqrt(m) * (ONE as int)
    }
}

/// What construction returns, componentwise: the identity quaternion when
/// the squared norm lies below the threshold's square, otherwise each
/// component scaled by `ONE²` and divided by the scaled norm.
pub open spec fn spec_new(w: int, x: int, y: int, z: int) -> (int, int, int, int) {
    let m = norm_sq_of(w, x, y, z);
    if m < (NORM_EPS as int) * (NORM_EPS as int) {
        (ONE as int, 0, 0, 0)
    } else {
        let n = scaled_norm(m);
        (scale_div(w, n), scale_div(x, n), scale_div(y, n), scale_div(z, n))
    }
}

/// A quaternion meant to hold unit norm: four fixed-point components,
/// normalized on construction. There is no mutating operation; every
/// transformation builds a new value.
#[derive(Clone, Copy, Debug, PartialEq, Eq, Structural)]
pub struct UnitQuaternion {
    /// Real (scalar) part.
    pub w: i64,
    /// First imaginary component.
    pub x: i64,
    /// Second imaginary component.
    pub y: i64,
    /// Third imaginary component.
    pub z: i64,
}

impl UnitQuaternion {
    /// The four components as unbounded integers, in `(w, x, y, z)` order.
    pub open spec fn parts(self) -> (int, int, int, int) {
        (self.w as int, self.x as int, self.y as int, self.z as int)
    }

    /// The squared Euclidean norm of the components.
    pub open spec fn norm_sq(self) -> int {
        norm_sq_of(self.w as int, self.x as int, self.y as int, self.z as int)
    }

    /// The identity quaternion `(1, 0, 0, 0)` as a value.
    pub open spec fn spec_identity() -> Self {
        UnitQuaternion { w: ONE, x: 0, y: 0, z: 0 }
    }

    /// The unit-norm invariant, up to the fixed-point rounding error: the
    /// squared norm lies within `8 * ONE + 4` of `ONE²` (so the norm lies
    /// within a few parts in a billion of one), and every component lies
    /// within [`ONE`] in magnitude. The identity fallback satisfies it
    /// exactly.
    pub open spec fn is_unit(self) -> bool {
        &&& self.norm_sq() > (ONE as int) * (ONE as int) - 8 * (ONE as int) - 4
        &&& self.norm_sq() < (ONE as int) * (ONE as int) + 8 * (ONE as int) + 4
        &&& -ONE <= self.w <= ONE
        &&& -ONE <= self.x <= ONE
        &&& -ONE <= self.y <= ONE
        &&& -ONE <= self.z <= ONE
    }

    /// Every component lies within [`COMP_MAX`] in magnitude.
    pub open spec fn bounded(self) -> bool {
        &&& -COMP_MAX <= self.w <= COMP_MAX
        &&& -COMP_MAX <= self.x <= COMP_MAX
        &&& -COMP_MAX <= self.y <= COMP_MAX
        &&& -COMP_MAX <= self.z <= COMP_MAX
    }

    /// Construct a quaternion from raw components and normalize it.
    ///
    /// An input whose norm lies below the near-zero threshold yields the
    /// identity quaternion; the operation never fails, and the result
    /// always satisfies the unit-norm invariant.
    pub fn new(w: i64, x: i64, y: i64, z: i64) -> (q: Self)
        requires
            -COMP_MAX <= w <= COMP_MAX,
            -COMP_MAX <= x <= COMP_MAX,
            -COMP_MAX <= y <= COMP_MAX,
            -COMP_MAX <= z <= COMP_MAX,
        ensures
            q.parts() == spec_new(w as int, x as int, y as int, z as int),
            norm_sq_of(w as int, x as int, y as int, z as int) < (NORM_EPS as int) * (
            NORM_EPS as int) ==> q == Self::spec_identity(),
            q.is_unit(),
    {
        let q = (Self { w, x, y, z }).normalized();
        proof {
            if norm_sq_of(w as int, x as int, y as int, z as int) < (NORM_EPS as int) * (
            NORM_EPS as int) {
                assert(q.w == ONE && q.x == 0 && q.y == 0 && q.z == 0);
            } else {
                lemma_new_unit_norm(w as int, x as int, y as int, z as int);
            }
        }
        q
    }

    /// The identity quaternion `(1, 0, 0, 0)`; its norm is exactly one.
    pub fn identity() -> (q: Self)
        ensures
            q == Self::spec_identity(),
            q.w == ONE && q.x == 0 && q.y == 0 && q.z == 0,
            q.norm_sq() == (ONE as int) * (ONE as int),
            q.is_unit(),
    {
        Self { w: ONE, x: 0, y: 0, z: 0 }
    }

    /// The real (scalar) part, read verbatim; a total operation.
    pub fn real_part(&self) -> (r: i64)
        ensures
            r == self.w,
    {
        self.w
    }

    /// Normalize: divide each component by the Euclidean norm, or fall back
    /// to the identity when the norm lies below the threshold.
    fn normalized(self) -> (q: Self)
        requires
            self.bounded(),
        ensures
            q.parts() == spec_new(self.w as int, self.x as int, self.y as int, self.z as int),
    {
        let m: u128 = self.norm_sq_exec();
        proof {
            assert((NORM_EPS as int) * (NORM_EPS as int) == 10000) by (nonlinear_arith)
                requires
                    NORM_EPS == 100i64,
            ;
        }
        if m < (NORM_EPS as u128) * (NORM_EPS as u128) {
            Self::identity()
        } else {
            let n: u128 = self.norm();
            proof {
                lemma_scaled_norm_brackets(m as int);
                lemma_squares_in_norm_sq(self.w as int, self.x as int, self.y as int, self.z as int);
                lemma_comp_scaled_within_norm(self.w as int, m as int, n as int);
                lemma_comp_scaled_within_norm(self.x as int, m as int, n as int);
                lemma_comp_scaled_within_norm(self.y as int, m as int, n as int);
                lemma_comp_scaled_within_norm(self.z as int, m as int, n as int);
            }
            Self {
                w: Self::scale_component(self.w, n),
                x: Self::scale_component(self.x, n),
                y: Self::scale_component(self.y, n),
                z: Self::scale_component(self.z, n),
            }
        }
    }

    /// The exact squared Euclidean norm of the components.
    fn norm_sq_exec(&self) -> (m: u128)
        requires
            self.bounded(),
        ensures
            m as int == self.norm_sq(),
    {
        proof {
            lemma_square_bounded(self.w as int);
            lemma_square_bounded(self.x as int);
            lemma_square_bounded(self.y as int);
            lemma_square_bounded(self.z as int);
        }
        let w2: i128 = (self.w as i128) * (self.w as i128);
        let x2: i128 = (self.x as i128) * (self.x as i128);
        let y2: i128 = (self.y as i128) * (self.y as i128);
        let z2: i128 = (self.z as i128) * (self.z as i128);
        (w2 + x2 + y2 + z2) as u128
    }

    /// The Euclidean norm of the components, scaled by [`ONE`].
    fn norm(&self) -> (n: u128)
        requires
            self.bounded(),
        ensures
            n as int == scaled_norm(self.norm_sq()),
    {
        let m: u128 = self.norm_sq_exec();
        proof {
            assert((ONE as int) * (ONE as int) == 1_000_000_000_000_000_000) by (nonlinear_arith)
                requires
                    ONE == 1_000_000_000i64,
            ;
        }
        if m < NORM_FINE_LIMIT {
            let scale2: u128 = (ONE as u128) * (ONE as u128);
            proof {
                assert((m as int) * (scale2 as int) <= u128::MAX) by (nonlinear_arith)
                    requires
                        m as int <= 0xffffffffffffffff,
                        scale2 == 1_000_000_000_000_000_000u128,
                ;
            }
            isqrt_u128(m * scale2)
        } else {
            let r: u128 = isqrt_u128(m);
            proof {
                assert(r as int <= 0xffffffffffffffff) by (nonlinear_arith)
                    requires
                        (r as int) * (r as int) <= m as int,
                        m <= u128::MAX,
                        0 <= r as int,
                ;
            }
            r * (ONE as u128)
        }
    }

    /// One component of the division step: `|c| * ONE² / n`, with the sign
    /// of `c` restored.
    fn scale_component(c: i64, n: u128) -> (r: i64)
        requires
            1 <= n,
            -COMP_MAX <= c <= COMP_MAX,
            -(n as int) <= (c as int) * (ONE as int) <= n as int,
        ensures
            r as int == scale_div(c as int, n as int),
            -ONE <= r <= ONE,
    {
        let neg = c < 0;
        let a: u128 = if neg {
            (-c) as u128
        } else {
            c as u128
        };
        proof {
            assert((ONE as int) * (ONE as int) == 1_000_000_000_000_000_000) by (nonlinear_arith)
                requires
                    ONE == 1_000_000_000i64,
            ;
        }
        let scale2: u128 = (ONE as u128) * (ONE as u128);
        proof {
            assert((a as int) * (scale2 as int) <= u128::MAX) by (nonlinear_arith)
                requires
                    0 <= a as int <= 0x4000000000000000,
                    scale2 == 1_000_000_000_000_000_000u128,
            ;
        }
        let prod: u128 = a * scale2;
        let q: u128 = prod / n;
        proof {
            lemma_mul_is_associative(a as int, ONE as int, ONE as int);
            lemma_mul_inequality((a as int) * (ONE as int), n as int, ONE as int);
            lemma_div_is_ordered(
                (a as int) * ((ONE as int) * (ONE as int)),
                (n as int) * (ONE as int),
                n as int,
            );
            lemma_div_multiples_vanish(ONE as int, n as int);
            assert(q as int <= ONE as int);
        }
        let r64: i64 = q as i64;
        if neg {
            -r64
        } else {
            r64
        }
    }
}

/// The scaled norm satisfies the square-root bracketing that its branch
/// provides: its square is at most `m * ONE²`, the next candidate's square
/// (one unit further in the fine branch, `ONE` units in the coarse one)
/// is beyond it, and it is at least [`ONE`] once `m` is positive.
proof fn lemma_scaled_norm_brackets(m: int)
    requires
        0 <= m,
    ensures
        ({
            let nr = scaled_norm(m);
            let oo = (ONE as int) * (ONE as int);
            &&& 0 <= nr
            &&& nr * nr <= m * oo
            &&& m < NORM_FINE_LIMIT as int ==> m * oo < (nr + 1) * (nr + 1)
            &&& m >= NORM_FINE_LIMIT as int ==> m * oo < (nr + (ONE as int)) * (nr + (ONE as int))
            &&& 1 <= m ==> (ONE as int) <= nr
            &&& m >= NORM_FINE_LIMIT as int ==> oo <= nr
        }),
{
    let one = ONE as int;
    let oo = one * one;
    let nr = scaled_norm(m);
    if m < NORM_FINE_LIMIT as int {
        assert(0 <= m * oo) by (nonlinear_arith)
            requires
                0 <= m,
                0 <= oo,
        ;
        lemma_isqrt_bounds(m * oo);
        if 1 <= m {
            lemma_mul_inequality(1, m, oo);
            assert(one <= nr) by (nonlinear_arith)
                requires
                    oo <= m * oo,
                    m * oo < (nr + 1) * (nr + 1),
                    0 <= nr,
                    oo == one * one,
                    1 <= one,
            ;
        }
    } else {
        lemma_isqrt_bounds(m);
        let rt = isqrt(m);
        lemma_square_scaled(rt, one);
        lemma_mul_inequality(rt * rt, m, oo);
        lemma_mul_strict_inequality(m, (rt + 1) * (rt + 1), oo);
        lemma_square_scaled(rt + 1, one);
        lemma_mul_is_distributive_add_other_way(one, rt, 1);
        assert(0x100000000 <= rt) by (nonlinear_arith)
            requires
                m < (rt + 1) * (rt + 1),
                NORM_FINE_LIMIT as int <= m,
                NORM_FINE_LIMIT == 0x10000000000000000u128,
                0 <= rt,
        ;
        assert(one <= nr && oo <= nr) by (nonlinear_arith)
            requires
                nr == rt * one,
                0x100000000 <= rt,
                one == 1_000_000_000,
                oo == one * one,
        ;
    }
}

/// A component of a vector with squared norm `m` stays, after scaling by
/// [`ONE`], within the scaled norm in magnitude.
proof fn lemma_comp_scaled_within_norm(c: int, m: int, nr: int)
    requires
        c * c <= m,
        0 <= m,
        nr == scaled_norm(m),
    ensures
        -nr <= c * (ONE as int) <= nr,
{
    let one = ONE as int;
    let oo = one * one;
    lemma_scaled_norm_brackets(m);
    lemma_square_scaled(c, one);
    lemma_mul_inequality(c * c, m, oo);
    if m < NORM_FINE_LIMIT as int {
        lemma_comp_within_sqrt(c * one, m * oo, nr);
    } else {
        lemma_isqrt_bounds(m);
        let rt = isqrt(m);
        lemma_comp_within_sqrt(c, m, rt);
        assert(-(rt * one) <= c * one <= rt * one) by (nonlinear_arith)
            requires
                -rt <= c <= rt,
                1 <= one,
        ;
    }
}

/// Dividing by a norm of exactly `ONE²` (the scaled norm of an exactly
/// unit vector) leaves a component unchanged.
proof fn lemma_scale_div_by_unit(c: int)
    ensures
        scale_div(c, (ONE as int) * (ONE as int)) == c,
{
    if c >= 0 {
        lemma_div_by_multiple(c, (ONE as int) * (ONE as int));
    } else {
        lemma_div_by_multiple(-c, (ONE as int) * (ONE as int));
    }
}

/// Negating a component negates its scaled quotient.
proof fn lemma_scale_div_neg(c: int, n: int)
    requires
        1 <= n,
    ensures
        scale_div(-c, n) == -scale_div(c, n),
{
    if c == 0 {
        lemma_basic_div(0, n);
    }
}

/// The scaled quotient of a nonnegative component brackets the exact
/// ratio `c * ONE² / n` from below.
proof fn lemma_scale_div_bracket(c: int, n: int)
    requires
        1 <= n,
        0 <= c,
    ensures
        0 <= scale_div(c, n),
        scale_div(c, n) * n <= c * ((ONE as int) * (ONE as int)),
        c * ((ONE as int) * (ONE as int)) < (scale_div(c, n) + 1) * n,
{
    let oo = (ONE as int) * (ONE as int);
    let q = (c * oo) / n;
    lemma_fundamental_div_mod(c * oo, n);
    lemma_mod_bound(c * oo, n);
    assert(c * oo == n * q + (c * oo) % n);
    assert(q * n <= c * oo && c * oo < (q + 1) * n) by (nonlinear_arith)
        requires
            c * oo == n * q + (c * oo) % n,
            0 <= (c * oo) % n < n,
    ;
    assert(0 <= q) by (nonlinear_arith)
        requires
            q * n <= c * oo,
            c * oo < (q + 1) * n,
            0 <= c * oo,
            1 <= n,
    ;
}

/// A nonnegative component within `n / ONE` has a scaled quotient within
/// [`ONE`].
proof fn lemma_scale_div_unit_bound(c: int, n: int)
    requires
        1 <= n,
        0 <= c,
        c * (ONE as int) <= n,
    ensures
        scale_div(c, n) <= ONE as int,
{
    let one = ONE as int;
    lemma_mul_is_associative(c, one, one);
    lemma_mul_inequality(c * one, n, one);
    lemma_div_is_ordered(c * (one * one), n * one, n);
    lemma_div_multiples_vanish(one, n);
}

/// The squared scaled quotient of a component within `n / ONE` in
/// magnitude, bracketed by the squared exact ratio: the rounding in one
/// component costs at most `2 * ONE + 1` units of squared norm (scaled by
/// `n * n`).
proof fn lemma_scale_div_square_bounds(c: int, n: int)
    requires
        1 <= n,
        -n <= c * (ONE as int) <= n,
    ensures
        -(ONE as int) <= scale_div(c, n) <= ONE as int,
        scale_div(c, n) * scale_div(c, n) * (n * n) <= (c * c) * (((ONE as int) * (ONE as int)) * (
        (ONE as int) * (ONE as int))),
        (c * c) * (((ONE as int) * (ONE as int)) * ((ONE as int) * (ONE as int))) < (scale_div(c, n)
            * scale_div(c, n) + 2 * (ONE as int) + 1) * (n * n),
{
    let one = ONE as int;
    let oo = one * one;
    let a = if c >= 0 {
        c
    } else {
        -c
    };
    assert(-n <= a * one <= n) by (nonlinear_arith)
        requires
            -n <= c * one <= n,
            a == c || a == -c,
    ;
    let q = scale_div(a, n);
    lemma_scale_div_bracket(a, n);
    lemma_scale_div_unit_bound(a, n);
    lemma_scale_div_neg(a, n);
    assert(scale_div(c, n) == q || scale_div(c, n) == -q);
    assert(scale_div(c, n) * scale_div(c, n) == q * q) by (nonlinear_arith)
        requires
            scale_div(c, n) == q || scale_div(c, n) == -q,
    ;
    assert(q * q * (n * n) <= (a * a) * (oo * oo)) by (nonlinear_arith)
        requires
            q * n <= a * oo,
            0 <= q,
            0 <= a,
            1 <= n,
            1 <= oo,
    ;
    assert((a * a) * (oo * oo) < (q * q + 2 * one + 1) * (n * n)) by (nonlinear_arith)
        requires
            a * oo < (q + 1) * n,
            0 <= q <= one,
            0 <= a,
            1 <= n,
            1 <= one,
            oo == one * one,
    ;
    assert(a * a == c * c) by (nonlinear_arith)
        requires
            a == c || a == -c,
    ;
}

/// A square distributes over a scaled component.
proof fn lemma_square_scaled(k: int, c: int)
    by (nonlinear_arith)
    ensures
        (k * c) * (k * c) == (k * k) * (c * c),
{
}

/// A square of an in-range component stays within 2^124.
proof fn lemma_square_bounded(c: int)
    by (nonlinear_arith)
    requires
        -(COMP_MAX as int) <= c <= COMP_MAX as int,
    ensures
        0 <= c * c <= (COMP_MAX as int) * (COMP_MAX as int),
{
}

/// Each squared component is at most the squared norm.
proof fn lemma_squares_in_norm_sq(w: int, x: int, y: int, z: int)
    by (nonlinear_arith)
    ensures
        w * w <= norm_sq_of(w, x, y, z),
        x * x <= norm_sq_of(w, x, y, z),
        y * y <= norm_sq_of(w, x, y, z),
        z * z <= norm_sq_of(w, x, y, z),
        0 <= norm_sq_of(w, x, y, z),
{
}

/// A component whose square is at most `m` lies within the integer square
/// root of `m` in magnitude.
proof fn lemma_comp_within_sqrt(c: int, m: int, n: int)
    by (nonlinear_arith)
    requires
        c * c <= m,
        m < (n + 1) * (n + 1),
        0 <= n,
    ensures
        -n <= c <= n,
{
}

/// Scaling numerator and divisor of the quotient by the same positive
/// factor leaves the quotient unchanged.
proof fn lemma_scale_div_scaled(c: int, n: int, k: int)
    requires
        1 <= n,
        1 <= k,
    ensures
        scale_div(k * c, k * n) == scale_div(c, n),
{
    let oo = (ONE as int) * (ONE as int);
    let a = if c >= 0 {
        c
    } else {
        -c
    };
    assert((k * a) * oo == k * (a * oo) && (if c >= 0 {
        k * c == k * a
    } else {
        k * c == -(k * a) && k * c < 0
    })) by (nonlinear_arith)
        requires
            1 <= k,
            a == if c >= 0 {
                c
            } else {
                -c
            },
    ;
    let q = (a * oo) / n;
    let r = (a * oo) % n;
    lemma_fundamental_div_mod(a * oo, n);
    lemma_mod_bound(a * oo, n);
    assert(k * (a * oo) == q * (k * n) + k * r && 0 <= k * r < k * n) by (nonlinear_arith)
        requires
            a * oo == n * q + r,
            0 <= r < n,
            1 <= k,
    ;
    lemma_fundamental_div_mod_converse_div(k * (a * oo), k * n, q, k * r);
    assert(((k * a) * oo) / (k * n) == q);
    if c >= 0 {
        assert(scale_div(k * c, k * n) == ((k * a) * oo) / (k * n));
    } else {
        assert(scale_div(k * c, k * n) == -(((k * a) * oo) / (k * n)));
    }
}

/// The summation core of the norm bound: with `nr` a lower square-root
/// bracket of `m * ONE²` and every scaled component within `nr`, the
/// squared norm after the division step exceeds `ONE² - 8·ONE - 4` and is
/// bounded above, scaled by `nr²`, by `m * ONE⁴`.
proof fn lemma_norm_sq_brackets(w: int, x: int, y: int, z: int, nr: int)
    requires
        1 <= nr,
        nr * nr <= norm_sq_of(w, x, y, z) * ((ONE as int) * (ONE as int)),
        -nr <= w * (ONE as int) <= nr,
        -nr <= x * (ONE as int) <= nr,
        -nr <= y * (ONE as int) <= nr,
        -nr <= z * (ONE as int) <= nr,
    ensures
        ({
            let s2 = norm_sq_of(scale_div(w, nr), scale_div(x, nr), scale_div(y, nr), scale_div(z,
            nr));
            let one = ONE as int;
            &&& s2 > one * one - 8 * one - 4
            &&& s2 * (nr * nr) <= (norm_sq_of(w, x, y, z) * (one * one)) * (one * one)
            &&& -one <= scale_div(w, nr) <= one
            &&& -one <= scale_div(x, nr) <= one
            &&& -one <= scale_div(y, nr) <= one
            &&& -one <= scale_div(z, nr) <= one
        }),
{
    let one = ONE as int;
    let oo = one * one;
    let oo2 = oo * oo;
    let m = norm_sq_of(w, x, y, z);
    let sw = scale_div(w, nr);
    let sx = scale_div(x, nr);
    let sy = scale_div(y, nr);
    let sz = scale_div(z, nr);
    lemma_scale_div_square_bounds(w, nr);
    lemma_scale_div_square_bounds(x, nr);
    lemma_scale_div_square_bounds(y, nr);
    lemma_scale_div_square_bounds(z, nr);
    let s2 = norm_sq_of(sw, sx, sy, sz);
    lemma_squares_in_norm_sq(sw, sx, sy, sz);
    let nn = nr * nr;
    lemma_mul_is_distributive_add_other_way(nn, sw * sw + sx * sx + sy * sy, sz * sz);
    lemma_mul_is_distributive_add_other_way(nn, sw * sw + sx * sx, sy * sy);
    lemma_mul_is_distributive_add_other_way(nn, sw * sw, sx * sx);
    lemma_mul_is_distributive_add_other_way(oo2, w * w + x * x + y * y, z * z);
    lemma_mul_is_distributive_add_other_way(oo2, w * w + x * x, y * y);
    lemma_mul_is_distributive_add_other_way(oo2, w * w, x * x);
    lemma_mul_is_distributive_add_other_way(nn, sw * sw, 2 * one + 1);
    lemma_mul_is_distributive_add_other_way(nn, sx * sx, 2 * one + 1);
    lemma_mul_is_distributive_add_other_way(nn, sy * sy, 2 * one + 1);
    lemma_mul_is_distributive_add_other_way(nn, sz * sz, 2 * one + 1);
    lemma_mul_is_distributive_add_other_way(nn, s2, 8 * one + 4);
    assert(4 * ((2 * one + 1) * nn) == (8 * one + 4) * nn) by (nonlinear_arith);
    assert(s2 * nn <= m * oo2);
    assert(m * oo2 < (s2 + 8 * one + 4) * nn);
    lemma_mul_inequality(nn, m * oo, oo);
    lemma_mul_is_associative(m, oo, oo);
    assert(nn * oo <= m * oo2);
    assert(1 <= nn) by (nonlinear_arith)
        requires
            1 <= nr,
            nn == nr * nr,
    ;
    assert(oo < s2 + 8 * one + 4) by (nonlinear_arith)
        requires
            nn * oo < (s2 + 8 * one + 4) * nn,
            1 <= nn,
    ;
}

/// Law: above the threshold, construction yields a quaternion of unit
/// norm up to the fixed-point rounding error. The squared norm of the
/// result lies strictly within `8 * ONE + 4` of `ONE²` — a norm within a
/// few parts in a billion of one — and every component lies within
/// [`ONE`] in magnitude.
pub proof fn lemma_new_unit_norm(w: int, x: int, y: int, z: int)
    requires
        norm_sq_of(w, x, y, z) >= (NORM_EPS as int) * (NORM_EPS as int),
    ensures
        ({
            let (a, b, c, d) = spec_new(w, x, y, z);
            &&& norm_sq_of(a, b, c, d) > (ONE as int) * (ONE as int) - 8 * (ONE as int) - 4
            &&& norm_sq_of(a, b, c, d) < (ONE as int) * (ONE as int) + 8 * (ONE as int) + 4
            &&& -(ONE as int) <= a <= ONE as int
            &&& -(ONE as int) <= b <= ONE as int
            &&& -(ONE as int) <= c <= ONE as int
            &&& -(ONE as int) <= d <= ONE as int
        }),
{
    let one = ONE as int;
    let eps = NORM_EPS as int;
    let oo = one * one;
    let m = norm_sq_of(w, x, y, z);
    lemma_squares_in_norm_sq(w, x, y, z);
    lemma_scaled_norm_brackets(m);
    let nr = scaled_norm(m);
    lemma_comp_scaled_within_norm(w, m, nr);
    lemma_comp_scaled_within_norm(x, m, nr);
    lemma_comp_scaled_within_norm(y, m, nr);
    lemma_comp_scaled_within_norm(z, m, nr);
    lemma_norm_sq_brackets(w, x, y, z, nr);
    let s2 = norm_sq_of(scale_div(w, nr), scale_div(x, nr), scale_div(y, nr), scale_div(z, nr));
    if m < NORM_FINE_LIMIT as int {
        lemma_square_scaled(eps, one);
        lemma_mul_inequality(eps * eps, m, oo);
        lemma_comp_within_sqrt(eps * one, m * oo, nr);
        assert(s2 * nr <= (nr + 2) * oo) by (nonlinear_arith)
            requires
                s2 * (nr * nr) <= (m * oo) * oo,
                m * oo < (nr + 1) * (nr + 1),
                1 <= nr,
                0 <= s2,
                1 <= oo,
        ;
        assert(s2 < oo + 8 * one + 4) by (nonlinear_arith)
            requires
                s2 * nr <= (nr + 2) * oo,
                eps * one <= nr,
                0 <= s2,
                one == 1_000_000_000,
                eps == 100,
                oo == one * one,
        ;
    } else {
        lemma_isqrt_bounds(m);
        let rt = isqrt(m);
        lemma_comp_within_sqrt(0x100000000, m, rt);
        assert(s2 * ((rt * rt) * oo) <= (m * oo) * oo && (m * oo) * oo < ((rt + 1) * (rt + 1) * oo)
            * oo) by (nonlinear_arith)
            requires
                s2 * (nr * nr) <= (m * oo) * oo,
                nr == rt * one,
                m < (rt + 1) * (rt + 1),
                oo == one * one,
                1 <= one,
                0 <= m,
                0 <= s2,
                0 <= rt,
        ;
        assert(s2 * (rt * rt) < ((rt + 1) * (rt + 1)) * oo) by (nonlinear_arith)
            requires
                s2 * ((rt * rt) * oo) < ((rt + 1) * (rt + 1) * oo) * oo,
                1 <= oo,
        ;
        assert(s2 * rt <= (rt + 3) * oo) by (nonlinear_arith)
            requires
                s2 * (rt * rt) < ((rt + 1) * (rt + 1)) * oo,
                1 <= rt,
                0 <= s2,
                1 <= oo,
        ;
        assert(s2 < oo + 8 * one + 4) by (nonlinear_arith)
            requires
                s2 * rt <= (rt + 3) * oo,
                0x100000000 <= rt,
                0 <= s2,
                one == 1_000_000_000,
                oo == one * one,
        ;
    }
}

/// Law: normalizing is idempotent on exact fixed-point data.
/// Re-constructing a quaternion from components whose squared norm is
/// exactly `ONE²` gives those components back unchanged.
pub proof fn lemma_renormalize_unit(w: int, x: int, y: int, z: int)
    requires
        norm_sq_of(w, x, y, z) == (ONE as int) * (ONE as int),
    ensures
        spec_new(w, x, y, z) == (w, x, y, z),
{
    let one = ONE as int;
    let eps = NORM_EPS as int;
    let oo = one * one;
    let m = norm_sq_of(w, x, y, z);
    assert(eps * eps <= m && m < NORM_FINE_LIMIT as int && oo * oo < (oo + 1) * (oo + 1))
        by (nonlinear_arith)
        requires
            m == oo,
            oo == one * one,
            one == 1_000_000_000,
            eps == 100,
    ;
    assert(is_isqrt(oo, m * oo));
    lemma_isqrt_is(oo, m * oo);
    lemma_scale_div_by_unit(w);
    lemma_scale_div_by_unit(x);
    lemma_scale_div_by_unit(y);
    lemma_scale_div_by_unit(z);
}

/// Law: normalizing is idempotent up to the representation's granularity.
/// Re-constructing a quaternion that satisfies the unit-norm invariant
/// from its own components moves every component by at most 6 units
/// (6e-9 in real terms).
pub proof fn lemma_renormalize_close(q: UnitQuaternion)
    requires
        q.is_unit(),
    ensures
        ({
            let (a, b, c, d) = spec_new(q.w as int, q.x as int, q.y as int, q.z as int);
            &&& -6 <= a - q.w <= 6
            &&& -6 <= b - q.x <= 6
            &&& -6 <= c - q.y <= 6
            &&& -6 <= d - q.z <= 6
        }),
{
    let one = ONE as int;
    let eps = NORM_EPS as int;
    let oo = one * one;
    let m = q.norm_sq();
    assert(eps * eps <= m && m < NORM_FINE_LIMIT as int) by (nonlinear_arith)
        requires
            oo - 8 * one - 4 < m < oo + 8 * one + 4,
            oo == one * one,
            one == 1_000_000_000,
            eps == 100,
    ;
    lemma_scaled_norm_brackets(m);
    let nr = scaled_norm(m);
    assert(oo - 5 * one <= nr) by (nonlinear_arith)
        requires
            m * oo < (nr + 1) * (nr + 1),
            oo - 8 * one - 3 <= m,
            0 <= nr,
            oo == one * one,
            one == 1_000_000_000,
    ;
    assert(nr <= oo + 5 * one) by (nonlinear_arith)
        requires
            nr * nr <= m * oo,
            m <= oo + 8 * one + 3,
            0 <= nr,
            oo == one * one,
            one == 1_000_000_000,
    ;
    lemma_renormalize_component(q.w as int, nr);
    lemma_renormalize_component(q.x as int, nr);
    lemma_renormalize_component(q.y as int, nr);
    lemma_renormalize_component(q.z as int, nr);
}

/// One component of the approximate-idempotence argument: dividing
/// `|c| * ONE²` by a norm within `5 * ONE` of `ONE²` moves a component
/// within [`ONE`] by at most 6 units.
proof fn lemma_renormalize_component(c: int, nr: int)
    requires
        -(ONE as int) <= c <= ONE as int,
        (ONE as int) * (ONE as int) - 5 * (ONE as int) <= nr,
        nr <= (ONE as int) * (ONE as int) + 5 * (ONE as int),
    ensures
        -6 <= scale_div(c, nr) - c <= 6,
{
    let one = ONE as int;
    let oo = one * one;
    let a = if c >= 0 {
        c
    } else {
        -c
    };
    assert(1 <= nr) by (nonlinear_arith)
        requires
            oo - 5 * one <= nr,
            oo == one * one,
            one == 1_000_000_000,
    ;
    let q = scale_div(a, nr);
    lemma_scale_div_bracket(a, nr);
    lemma_scale_div_neg(a, nr);
    assert(a - 6 <= q <= a + 6) by (nonlinear_arith)
        requires
            q * nr <= a * oo,
            a * oo < (q + 1) * nr,
            oo - 5 * one <= nr <= oo + 5 * one,
            0 <= a <= one,
            0 <= q,
            oo == one * one,
            one == 1_000_000_000,
    ;
    assert(scale_div(c, nr) == q || (scale_div(c, nr) == -q && c == -a));
}

/// Law: scaling invariance. Scaling all four components by one positive
/// factor does not change the constructed quaternion, provided the
/// input's norm reaches the threshold and is exact in fixed point (its
/// squared norm is a perfect square; otherwise the integer square root of
/// the scaled input can round differently and shift the result by a few
/// units).
pub proof fn lemma_scaling_invariance(k: int, w: int, x: int, y: int, z: int)
    requires
        1 <= k,
        norm_sq_of(w, x, y, z) >= (NORM_EPS as int) * (NORM_EPS as int),
        isqrt(norm_sq_of(w, x, y, z)) * isqrt(norm_sq_of(w, x, y, z)) == norm_sq_of(w, x, y, z),
    ensures
        spec_new(k * w, k * x, k * y, k * z) == spec_new(w, x, y, z),
{
    let one = ONE as int;
    let eps = NORM_EPS as int;
    let oo = one * one;
    let m = norm_sq_of(w, x, y, z);
    lemma_isqrt_bounds(m);
    let rt = isqrt(m);
    assert(1 <= rt) by (nonlinear_arith)
        requires
            rt * rt == m,
            eps * eps <= m,
            0 <= rt,
            eps == 100,
    ;
    lemma_perfect_square_scaled_norm(m, rt);
    let ms = norm_sq_of(k * w, k * x, k * y, k * z);
    lemma_square_scaled(k, w);
    lemma_square_scaled(k, x);
    lemma_square_scaled(k, y);
    lemma_square_scaled(k, z);
    lemma_mul_is_distributive_add(k * k, w * w + x * x + y * y, z * z);
    lemma_mul_is_distributive_add(k * k, w * w + x * x, y * y);
    lemma_mul_is_distributive_add(k * k, w * w, x * x);
    assert(ms == (k * k) * m);
    assert(0 <= k * rt && (k * rt) * (k * rt) == ms && ms < (k * rt + 1) * (k * rt + 1) && ms >= eps
        * eps) by (nonlinear_arith)
        requires
            ms == (k * k) * m,
            rt * rt == m,
            eps * eps <= m,
            1 <= k,
            1 <= rt,
    ;
    assert(is_isqrt(k * rt, ms));
    lemma_isqrt_is(k * rt, ms);
    lemma_perfect_square_scaled_norm(ms, k * rt);
    assert((k * rt) * one == k * (rt * one)) by (nonlinear_arith);
    lemma_scale_div_scaled(w, rt * one, k);
    lemma_scale_div_scaled(x, rt * one, k);
    lemma_scale_div_scaled(y, rt * one, k);
    lemma_scale_div_scaled(z, rt * one, k);
    assert(1 <= rt * one) by (nonlinear_arith)
        requires
            1 <= rt,
            1 <= one,
    ;
}

/// For a perfect-square squared norm, both branches of the scaled norm
/// agree on the exact value `isqrt(m) * ONE`.
proof fn lemma_perfect_square_scaled_norm(m: int, rt: int)
    requires
        0 <= rt,
        rt * rt == m,
        isqrt(m) == rt,
    ensures
        scaled_norm(m) == rt * (ONE as int),
{
    let one = ONE as int;
    let oo = one * one;
    if m < NORM_FINE_LIMIT as int {
        lemma_square_scaled(rt, one);
        assert(0 <= rt * one && (rt * one) * (rt * one) <= m * oo && m * oo < (rt * one + 1) * (rt
            * one + 1)) by (nonlinear_arith)
            requires
                rt * rt == m,
                (rt * one) * (rt * one) == (rt * rt) * (one * one),
                oo == one * one,
                0 <= rt,
                1 <= one,
        ;
        assert(is_isqrt(rt * one, m * oo));
        lemma_isqrt_is(rt * one, m * oo);
    }
}

/// Law: scaling invariance up to the representation's granularity.
/// Scaling all four components of an input whose norm reaches the
/// threshold by any positive integer factor moves every component of the
/// constructed quaternion by at most 2 units (2e-9 in real terms); for a
/// negative factor, combine with [`lemma_negation`].
pub proof fn lemma_scaling_close(k: int, w: int, x: int, y: int, z: int)
    requires
        1 <= k,
        norm_sq_of(w, x, y, z) >= (NORM_EPS as int) * (NORM_EPS as int),
    ensures
        ({
            let (a1, b1, c1, d1) = spec_new(w, x, y, z);
            let (a2, b2, c2, d2) = spec_new(k * w, k * x, k * y, k * z);
            &&& -2 <= a2 - a1 <= 2
            &&& -2 <= b2 - b1 <= 2
            &&& -2 <= c2 - c1 <= 2
            &&& -2 <= d2 - d1 <= 2
        }),
{
    let one = ONE as int;
    let eps = NORM_EPS as int;
    let oo = one * one;
    let m = norm_sq_of(w, x, y, z);
    let ms = norm_sq_of(k * w, k * x, k * y, k * z);
    lemma_square_scaled(k, w);
    lemma_square_scaled(k, x);
    lemma_square_scaled(k, y);
    lemma_square_scaled(k, z);
    lemma_mul_is_distributive_add(k * k, w * w + x * x + y * y, z * z);
    lemma_mul_is_distributive_add(k * k, w * w + x * x, y * y);
    lemma_mul_is_distributive_add(k * k, w * w, x * x);
    assert(ms == (k * k) * m);
    assert(ms >= eps * eps && ms >= m) by (nonlinear_arith)
        requires
            ms == (k * k) * m,
            eps * eps <= m,
            eps == 100,
            1 <= k,
    ;
    lemma_scaled_norm_brackets(m);
    lemma_scaled_norm_brackets(ms);
    let nr1 = scaled_norm(m);
    let nr2 = scaled_norm(ms);
    let gran1: int = if m < NORM_FINE_LIMIT as int {
        1
    } else {
        one
    };
    let gran2: int = if ms < NORM_FINE_LIMIT as int {
        1
    } else {
        one
    };
    assert(gran1 * one <= nr1) by (nonlinear_arith)
        requires
            gran1 == 1 || (gran1 == one && oo <= nr1),
            one <= nr1,
            oo == one * one,
            1 <= one,
    ;
    assert(gran2 * one <= nr2) by (nonlinear_arith)
        requires
            gran2 == 1 || (gran2 == one && oo <= nr2),
            one <= nr2,
            oo == one * one,
            1 <= one,
    ;
    assert(k * nr1 < nr2 + gran2) by (nonlinear_arith)
        requires
            nr1 * nr1 <= m * oo,
            ms * oo < (nr2 + gran2) * (nr2 + gran2),
            ms == (k * k) * m,
            0 <= nr1,
            0 <= nr2 + gran2,
            1 <= k,
    ;
    assert(nr2 < k * nr1 + k * gran1) by (nonlinear_arith)
        requires
            nr2 * nr2 <= ms * oo,
            m * oo < (nr1 + gran1) * (nr1 + gran1),
            ms == (k * k) * m,
            0 <= nr2,
            0 <= nr1 + gran1,
            1 <= k,
    ;
    lemma_squares_in_norm_sq(w, x, y, z);
    lemma_squares_in_norm_sq(k * w, k * x, k * y, k * z);
    lemma_scale_div_close(w, k, nr1, nr2, gran1, gran2, m, ms);
    lemma_scale_div_close(x, k, nr1, nr2, gran1, gran2, m, ms);
    lemma_scale_div_close(y, k, nr1, nr2, gran1, gran2, m, ms);
    lemma_scale_div_close(z, k, nr1, nr2, gran1, gran2, m, ms);
}

/// One component of the approximate scaling argument: dividing the
/// scaled-up component by either of two norm brackets that stand in the
/// ratio `k` up to one granule moves the quotient by at most 2 units.
proof fn lemma_scale_div_close(c: int, k: int, nr1: int, nr2: int, gran1: int, gran2: int, m: int, ms: int)
    requires
        1 <= k,
        1 <= nr1,
        1 <= nr2,
        1 <= gran1,
        1 <= gran2,
        gran1 * (ONE as int) <= nr1,
        gran2 * (ONE as int) <= nr2,
        k * nr1 < nr2 + gran2,
        nr2 < k * nr1 + k * gran1,
        c * c <= m,
        0 <= m,
        nr1 == scaled_norm(m),
        nr2 == scaled_norm(ms),
        (k * c) * (k * c) <= ms,
        0 <= ms,
    ensures
        -2 <= scale_div(k * c, nr2) - scale_div(c, nr1) <= 2,
{
    let one = ONE as int;
    let oo = one * one;
    let a = if c >= 0 {
        c
    } else {
        -c
    };
    lemma_comp_scaled_within_norm(c, m, nr1);
    lemma_comp_scaled_within_norm(k * c, ms, nr2);
    assert(0 <= a && a * one <= nr1 && (k * a) * one <= nr2 && (k * a) * oo == k * (a * oo) && (
    if c >= 0 {
        k * c == k * a
    } else {
        k * c == -(k * a)
    })) by (nonlinear_arith)
        requires
            a == if c >= 0 {
                c
            } else {
                -c
            },
            -nr1 <= c * one <= nr1,
            -nr2 <= (k * c) * one <= nr2,
            oo == one * one,
            1 <= one,
            1 <= k,
    ;
    let s1 = scale_div(a, nr1);
    let s2 = scale_div(k * a, nr2);
    lemma_scale_div_bracket(a, nr1);
    lemma_scale_div_bracket(k * a, nr2);
    lemma_scale_div_unit_bound(a, nr1);
    lemma_scale_div_unit_bound(k * a, nr2);
    assert(s1 <= s2 + 2) by (nonlinear_arith)
        requires
            s1 * nr1 <= a * oo,
            (k * a) * oo < (s2 + 1) * nr2,
            (k * a) * oo == k * (a * oo),
            nr2 < k * nr1 + k * gran1,
            gran1 * one <= nr1,
            0 <= s2 <= one,
            0 <= a,
            1 <= k,
            1 <= gran1,
            1 <= nr1,
            1 <= one,
    ;
    assert(s2 <= s1 + 2) by (nonlinear_arith)
        requires
            s2 * nr2 <= (k * a) * oo,
            a * oo < (s1 + 1) * nr1,
            (k * a) * oo == k * (a * oo),
            k * nr1 < nr2 + gran2,
            gran2 * one <= nr2,
            0 <= s2 <= one,
            0 <= s1,
            0 <= a,
            1 <= k,
            1 <= gran2,
            1 <= nr1,
            1 <= nr2,
            1 <= one,
    ;
    lemma_scale_div_neg(a, nr1);
    lemma_scale_div_neg(k * a, nr2);
    if c >= 0 {
        assert(scale_div(c, nr1) == s1 && scale_div(k * c, nr2) == s2);
    } else {
        assert(scale_div(c, nr1) == -s1 && scale_div(k * c, nr2) == -s2);
    }
}

/// Law: negating all four components of an input whose norm reaches the
/// threshold negates every component of the constructed quaternion.
pub proof fn lemma_negation(w: int, x: int, y: int, z: int)
    requires
        norm_sq_of(w, x, y, z) >= (NORM_EPS as int) * (NORM_EPS as int),
    ensures
        ({
            let (a, b, c, d) = spec_new(w, x, y, z);
            spec_new(-w, -x, -y, -z) == (-a, -b, -c, -d)
        }),
{
    let m = norm_sq_of(w, x, y, z);
    lemma_scaled_norm_brackets(m);
    let nr = scaled_norm(m);
    assert(norm_sq_of(-w, -x, -y, -z) == m) by (nonlinear_arith)
        requires
            m == w * w + x * x + y * y + z * z,
            norm_sq_of(-w, -x, -y, -z) == (-w) * (-w) + (-x) * (-x) + (-y) * (-y) + (-z) * (-z),
    ;
    lemma_scale_div_neg(w, nr);
    lemma_scale_div_neg(x, nr);
    lemma_scale_div_neg(y, nr);
    lemma_scale_div_neg(z, nr);
}

} // verus!
