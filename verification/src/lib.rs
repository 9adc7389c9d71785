//! Modular multiplicative inverses computed with the extended Euclidean
//! algorithm.
//!
//! `gcd_extended` returns the greatest common divisor of two non-negative
//! numbers together with a pair of Bézout coefficients, and `mod_inverse`
//! uses it to find the inverse of a number modulo `m`, or `0` when the two
//! are not coprime.

use vstd::arithmetic::div_mod::{
    lemma_fundamental_div_mod, lemma_mod_multiples_vanish, lemma_small_mod,
};
use vstd::prelude::*;

verus! {

/// Greatest common divisor of `a` and `b`, defined by the Euclidean
/// recurrence: `gcd(0, b) == b` and `gcd(a, b) == gcd(b % a, a)` otherwise.
pub open spec fn gcd(a: nat, b: nat) -> nat
    decreases a,
{
    if a == 0 {
        b
    } else {
        gcd(b % a, a)
    }
}

/// Magnitude bound for a Bézout coefficient produced by `gcd_extended`:
/// `n` itself when `n >= 1`, and `1` for the degenerate inputs `n <= 0`.
pub open spec fn coeff_bound(n: int) -> int {
    if n >= 1 {
        n
    } else {
        1
    }
}

/// Extended Euclidean algorithm: returns `g == gcd(a, b)` and stores in
/// `x` and `y` Bézout coefficients satisfying `a * x + b * y == g`.
///
/// The base case `a == 0` yields exactly `(b, 0, 1)`. The coefficients are
/// bounded by `coeff_bound`, which keeps every intermediate product of the
/// recurrence inside `i32`.
pub fn gcd_extended(a: i32, b: i32, x: &mut i32, y: &mut i32) -> (g: i32)
    requires
        a >= 0,
        b >= 0,
    ensures
        g == gcd(a as nat, b as nat),
        a * *final(x) + b * *final(y) == g,
        a == 0 ==> g == b && *final(x) == 0 && *final(y) == 1,
        -coeff_bound(b as int) <= *final(x) <= coeff_bound(b as int),
        -coeff_bound(a as int) <= *final(y) <= coeff_bound(a as int),
    decreases a,
{
    if a == 0 {
        *x = 0;
        *y = 1;
        return b;
    }

    let q: i32 = b / a;
    let r: i32 = b % a;

    let mut x1: i32 = 1;
    let mut y1: i32 = 1;
    let g: i32 = gcd_extended(r, a, &mut x1, &mut y1);

    proof {
        lemma_fundamental_div_mod(b as int, a as int);
        assert(a * q + r == b);
        assert(q >= 0) by (nonlinear_arith)
            requires
                a * q + r == b,
                a > 0,
                b >= 0,
                0 <= r < a,
        ;
        // The recurrence `gcd(a, b) == gcd(b % a, a)` is the definition
        // of `gcd` unfolded once.
        assert(b as nat % (a as nat) == r as nat);
        assert(gcd(a as nat, b as nat) == gcd(r as nat, a as nat));
        if r == 0 {
            // The recursive call hit its base case, so `x1 == 0` and the
            // products below vanish.
            assert(q * x1 == 0) by (nonlinear_arith)
                requires
                    x1 == 0,
            ;
        } else {
            // `|x1| <= a` and `q >= 0`, so `|q * x1| <= q * a == b - r`.
            assert(-(b - r) <= q * x1 <= b - r) by (nonlinear_arith)
                requires
                    q >= 0,
                    -a <= x1 <= a,
                    a * q == b - r,
            ;
        }
        // Bézout identity at this level, from the one the recursion gives:
        // a * (y1 - q * x1) + b * x1 == r * x1 + a * y1 == g.
        assert(a * (y1 - q * x1) + b * x1 == g) by (nonlinear_arith)
            requires
                r * x1 + a * y1 == g,
                a * q + r == b,
        ;
    }

    let nx: i32 = y1 - q * x1;
    *x = nx;
    *y = x1;
    g
}

/// Modular multiplicative inverse of `a` modulo `m`.
///
/// When `a` and `m` are coprime, returns the unique `r` in `[0, m)` with
/// `(a * r) % m == 1`; when they are not, no inverse exists and the
/// sentinel `0` is returned. For `m > 1` the two cases cannot collide,
/// since `0` never satisfies `(a * 0) % m == 1`.
pub fn mod_inverse(a: i32, m: i32) -> (r: i32)
    requires
        a >= 0,
        m > 1,
    ensures
        gcd(a as nat, m as nat) == 1 ==> 0 <= r < m && (a * r) % (m as int) == 1,
        gcd(a as nat, m as nat) != 1 ==> r == 0,
{
    let mut x: i32 = 1;
    let mut y: i32 = 1;
    let g: i32 = gcd_extended(a, m, &mut x, &mut y);

    if g != 1 {
        return 0;  // no inverse: `a` and `m` share a factor
    }

    // `|x| <= m`, so one shift by `m` lands the coefficient in `[0, m)`.
    let r: i32 = if x < 0 {
        x + m
    } else if x >= m {
        x - m
    } else {
        x
    };

    proof {
        // `r` differs from `x` by a multiple of `m`, so modulo `m` the
        // product `a * r` agrees with `a * x`, and the Bézout identity
        // `a * x + m * y == 1` reduces it to `1 % m == 1`.
        if x < 0 {
            assert(a * r == m * (a as int) + a * x) by (nonlinear_arith)
                requires
                    r == x + m,
            ;
            lemma_mod_multiples_vanish(a as int, a as int * x as int, m as int);
        } else if x >= m {
            assert(a * r == m * (-(a as int)) + a * x) by (nonlinear_arith)
                requires
                    r == x - m,
            ;
            lemma_mod_multiples_vanish(-(a as int), a as int * x as int, m as int);
        }
        assert(a as int * x as int == m as int * (-(y as int)) + 1) by (nonlinear_arith)
            requires
                a * x + m * y == 1,
        ;
        lemma_mod_multiples_vanish(-(y as int), 1, m as int);
        lemma_small_mod(1, m as nat);
        assert((a * r) % (m as int) == 1);
    }

    r
}

} // verus!
