//! Exact integer arithmetic used by the geometry: a floor square root,
//! overflow-checked wide multiplication, and floor division on `i128`.

use vstd::prelude::*;
use vstd::arithmetic::div_mod::lemma_fundamental_div_mod;
use vstd::arithmetic::div_mod::lemma_fundamental_div_mod_converse;
use vstd::arithmetic::div_mod::lemma_mod_bound;

verus! {

/// Floor of the square root of `n` (0 for negative arguments).
pub open spec fn sqrt_floor(n: int) -> int
    decreases n,
{
    if n <= 0 {
        0
    } else {
        let r = sqrt_floor(n - 1);
        if (r + 1) * (r + 1) <= n {
            r + 1
        } else {
            r
        }
    }
}

/// `sqrt_floor(n)` is the greatest integer whose square is at most `n`.
pub proof fn lemma_sqrt_floor_bounds(n: int)
    requires
        n >= 0,
    ensures
        sqrt_floor(n) >= 0,
        sqrt_floor(n) * sqrt_floor(n) <= n,
        n < (sqrt_floor(n) + 1) * (sqrt_floor(n) + 1),
    decreases n,
{
    if n == 0 {
    } else {
        lemma_sqrt_floor_bounds(n - 1);
        let r = sqrt_floor(n - 1);
        if (r + 1) * (r + 1) <= n {
            assert(n <= (r + 1) * (r + 1));
            assert((r + 1) * (r + 1) < (r + 2) * (r + 2)) by (nonlinear_arith)
                requires
                    r >= 0,
            ;
        }
    }
}

/// Any `r` with `r^2 <= n < (r+1)^2` is `sqrt_floor(n)`.
pub proof fn lemma_sqrt_floor_is(n: int, r: int)
    requires
        n >= 0,
        r >= 0,
        r * r <= n,
        n < (r + 1) * (r + 1),
    ensures
        r == sqrt_floor(n),
{
    lemma_sqrt_floor_bounds(n);
    let s = sqrt_floor(n);
    if r < s {
        assert((r + 1) * (r + 1) <= s * s) by (nonlinear_arith)
            requires
                0 <= r,
                r + 1 <= s,
        ;
    }
    if s < r {
        assert((s + 1) * (s + 1) <= r * r) by (nonlinear_arith)
            requires
                0 <= s,
                s + 1 <= r,
        ;
    }
}

/// Any `k` with `k^2 <= n` is at most `sqrt_floor(n)`.
pub proof fn lemma_sqrt_floor_max(n: int, k: int)
    requires
        n >= 0,
        k >= 0,
        k * k <= n,
    ensures
        k <= sqrt_floor(n),
{
    lemma_sqrt_floor_bounds(n);
    let s = sqrt_floor(n);
    if s < k {
        assert((s + 1) * (s + 1) <= k * k) by (nonlinear_arith)
            requires
                0 <= s,
                s + 1 <= k,
        ;
    }
}

/// Floor square root by bisection, for values up to `8 * 10^18`.
pub fn isqrt(n: u64) -> (r: u64)
    requires
        n <= 8_000_000_000_000_000_000,
    ensures
        r == sqrt_floor(n as int),
        r * r <= n,
        n < (r + 1) * (r + 1),
        r <= 2_900_000_000,
{
    let mut lo: u64 = 0;
    let mut hi: u64 = 2_900_000_000;
    assert(2_900_000_000int * 2_900_000_000int == 8_410_000_000_000_000_000int);
    while lo + 1 < hi
        invariant
            lo < hi <= 2_900_000_000,
            lo * lo <= n,
            n < hi * hi,
            n <= 8_000_000_000_000_000_000,
        decreases hi - lo,
    {
        let mid: u64 = lo + (hi - lo) / 2;
        assert(lo < mid < hi);
        assert(mid * mid <= 8_410_000_000_000_000_000) by (nonlinear_arith)
            requires
                mid <= 2_900_000_000,
        ;
        if mid * mid <= n {
            lo = mid;
        } else {
            hi = mid;
        }
    }
    proof {
        lemma_sqrt_floor_is(n as int, lo as int);
    }
    lo
}

/// Product of two bounded `i128` values, with the bounds carried as ghost
/// arguments so that callers get an overflow-free product and its range.
pub fn mul_wide(x: i128, y: i128, bx: Ghost<int>, by: Ghost<int>) -> (r: i128)
    requires
        0 <= bx@,
        0 <= by@,
        -bx@ <= x <= bx@,
        -by@ <= y <= by@,
        bx@ * by@ <= 0x7fff_ffff_ffff_ffff_ffff_ffff_ffff_ffff,
    ensures
        r == x * y,
        -(bx@ * by@) <= r <= bx@ * by@,
{
    proof {
        assert(-(bx@ * by@) <= x * y <= bx@ * by@) by (nonlinear_arith)
            requires
                0 <= bx@,
                0 <= by@,
                -bx@ <= x <= bx@,
                -by@ <= y <= by@,
        ;
    }
    x * y
}

/// `sqrt_floor` is monotone.
pub proof fn lemma_sqrt_floor_monotone(a: int, b: int)
    requires
        0 <= a <= b,
    ensures
        sqrt_floor(a) <= sqrt_floor(b),
{
    lemma_sqrt_floor_bounds(a);
    lemma_sqrt_floor_max(b, sqrt_floor(a));
}

/// Greatest common divisor by Euclid's recurrence.
pub open spec fn gcd(a: nat, b: nat) -> nat
    decreases b,
{
    if b == 0 {
        a
    } else {
        gcd(b, a % b)
    }
}

/// Euclid's algorithm justified: the returned tuple holds the two
/// cofactors that exhibit `gcd(a, b)` dividing `a` and `b`, and the two
/// Bezout coefficients that write `gcd(a, b)` as an integer combination
/// of `a` and `b`.
pub proof fn lemma_gcd(a: nat, b: nat) -> (r: (int, int, int, int))
    ensures
        a == r.0 * gcd(a, b),
        b == r.1 * gcd(a, b),
        gcd(a, b) == r.2 * a + r.3 * b,
        a > 0 || b > 0 ==> gcd(a, b) > 0,
    decreases b,
{
    if b == 0 {
        assert(a == 1 * gcd(a, b) && b == 0 * gcd(a, b) && gcd(a, b) == 1 * a + 0 * b)
            by (nonlinear_arith)
            requires
                gcd(a, b) == a,
                b == 0,
        ;
        (1, 0, 1, 0)
    } else {
        let rr = lemma_gcd(b, a % b);
        let g = gcd(b, a % b);
        lemma_fundamental_div_mod(a as int, b as int);
        let ka = (a as int / b as int) * rr.0 + rr.1;
        assert(a == ka * g) by (nonlinear_arith)
            requires
                a as int == b as int * (a as int / b as int) + a as int % b as int,
                b == rr.0 * g,
                a as int % b as int == rr.1 * g,
                ka == (a as int / b as int) * rr.0 + rr.1,
        ;
        let x = rr.3;
        let y = rr.2 - rr.3 * (a as int / b as int);
        assert(g == x * a + y * b) by (nonlinear_arith)
            requires
                g == rr.2 * b + rr.3 * (a as int % b as int),
                a as int % b as int == a as int - b as int * (a as int / b as int),
                x == rr.3,
                y == rr.2 - rr.3 * (a as int / b as int),
        ;
        (ka, rr.0, x, y)
    }
}

/// Euclid's algorithm, executably.
pub fn gcd_exec(a: u64, b: u64) -> (r: u64)
    ensures
        r == gcd(a as nat, b as nat),
{
    let mut x: u64 = a;
    let mut y: u64 = b;
    while y != 0
        invariant
            gcd(x as nat, y as nat) == gcd(a as nat, b as nat),
        decreases y,
    {
        let t: u64 = x % y;
        x = y;
        y = t;
    }
    x
}

/// Among the multiples `0, L, 2L, ..., gL` of a positive step `L`, the
/// one that `k` picks (the nearest to `t`, clamped to the range) is at
/// least as close to `t` as any other.
pub proof fn lemma_nearest_multiple(t: int, step: int, g: int, k: int, m: int)
    requires
        step > 0,
        g >= 0,
        0 <= m <= g,
        k == ({
            let k0 = (2 * t + step) / (2 * step);
            if k0 < 0 {
                0
            } else if k0 > g {
                g
            } else {
                k0
            }
        }),
    ensures
        (k * step - t) * (k * step - t) <= (m * step - t) * (m * step - t),
{
    let k0 = (2 * t + step) / (2 * step);
    lemma_fundamental_div_mod(2 * t + step, 2 * step);
    lemma_mod_bound(2 * t + step, 2 * step);
    assert(step * (2 * k0 - 1) <= 2 * t < step * (2 * k0 + 1)) by (nonlinear_arith)
        requires
            2 * t + step == 2 * step * k0 + (2 * t + step) % (2 * step),
            0 <= (2 * t + step) % (2 * step) < 2 * step,
            step > 0,
    ;
    if k0 < 0 {
        assert((0 * step - t) * (0 * step - t) <= (m * step - t) * (m * step - t))
            by (nonlinear_arith)
            requires
                2 * t < step * (2 * k0 + 1),
                k0 < 0,
                step > 0,
                m >= 0,
        ;
    } else if k0 > g {
        assert((g * step - t) * (g * step - t) <= (m * step - t) * (m * step - t))
            by (nonlinear_arith)
            requires
                step * (2 * k0 - 1) <= 2 * t,
                k0 > g,
                step > 0,
                m <= g,
        ;
    } else {
        assert((k0 * step - t) * (k0 * step - t) <= (m * step - t) * (m * step - t))
            by (nonlinear_arith)
            requires
                step * (2 * k0 - 1) <= 2 * t < step * (2 * k0 + 1),
                step > 0,
    ;
    }
}

/// A quadratic in one scaled direction: with the residual `(g1, g2)`
/// orthogonal to the direction `(d1, d2)`, moving further along the
/// direction never brings the point closer.
pub proof fn lemma_quad_min(g1: int, g2: int, d1: int, d2: int, v: int, w: int)
    requires
        g1 * d1 + g2 * d2 == 0,
        v * v <= w * w,
    ensures
        (g1 + v * d1) * (g1 + v * d1) + (g2 + v * d2) * (g2 + v * d2) <= (g1 + w * d1) * (g1 + w
            * d1) + (g2 + w * d2) * (g2 + w * d2),
{
    expand_square_step(g1, v, d1);
    expand_square_step(g2, v, d2);
    expand_square_step(g1, w, d1);
    expand_square_step(g2, w, d2);
    assert(v * (g1 * d1) + v * (g2 * d2) == 0 && w * (g1 * d1) + w * (g2 * d2) == 0)
        by (nonlinear_arith)
        requires
            g1 * d1 + g2 * d2 == 0,
    ;
    assert(d1 * d1 >= 0 && d2 * d2 >= 0) by (nonlinear_arith);
    assert((v * v) * (d1 * d1) <= (w * w) * (d1 * d1)) by (nonlinear_arith)
        requires
            v * v <= w * w,
            d1 * d1 >= 0,
    ;
    assert((v * v) * (d2 * d2) <= (w * w) * (d2 * d2)) by (nonlinear_arith)
        requires
            v * v <= w * w,
            d2 * d2 >= 0,
    ;
}

/// One binomial square, expanded into atoms the callers share.
proof fn expand_square_step(g: int, v: int, d: int)
    ensures
        (g + v * d) * (g + v * d) == g * g + 2 * (v * (g * d)) + (v * v) * (d * d),
{
    assert((g + v * d) * (g + v * d) == g * g + 2 * (g * (v * d)) + (v * d) * (v * d))
        by (nonlinear_arith);
    assert(g * (v * d) == v * (g * d)) by (nonlinear_arith);
    assert((v * d) * (v * d) == (v * v) * (d * d)) by (nonlinear_arith);
}

/// Lagrange's identity for parallel planar vectors: when the cross
/// product vanishes, the square of the dot product is the product of
/// the squared norms.
pub proof fn lemma_lagrange_parallel(x1: int, y1: int, x2: int, y2: int)
    requires
        x1 * y2 - y1 * x2 == 0,
    ensures
        (x1 * x2 + y1 * y2) * (x1 * x2 + y1 * y2) == (x1 * x1 + y1 * y1) * (x2 * x2 + y2 * y2),
{
    assert((x1 * x2 + y1 * y2) * (x1 * x2 + y1 * y2) == (x1 * x2) * (x1 * x2) + 2 * ((x1 * x2) * (
    y1 * y2)) + (y1 * y2) * (y1 * y2)) by (nonlinear_arith);
    assert((x1 * y2 - y1 * x2) * (x1 * y2 - y1 * x2) == (x1 * y2) * (x1 * y2) - 2 * ((x1 * y2) * (
    y1 * x2)) + (y1 * x2) * (y1 * x2)) by (nonlinear_arith);
    assert((x1 * x2) * (x1 * x2) == (x1 * x1) * (x2 * x2)) by (nonlinear_arith);
    assert((y1 * y2) * (y1 * y2) == (y1 * y1) * (y2 * y2)) by (nonlinear_arith);
    assert((x1 * y2) * (x1 * y2) == (x1 * x1) * (y2 * y2)) by (nonlinear_arith);
    assert((y1 * x2) * (y1 * x2) == (y1 * y1) * (x2 * x2)) by (nonlinear_arith);
    assert((x1 * x2) * (y1 * y2) == (x1 * y2) * (y1 * x2)) by (nonlinear_arith);
    assert((x1 * x1 + y1 * y1) * (x2 * x2 + y2 * y2) == (x1 * x1) * (x2 * x2) + (x1 * x1) * (y2
        * y2) + (y1 * y1) * (x2 * x2) + (y1 * y1) * (y2 * y2)) by (nonlinear_arith);
    assert((x1 * y2 - y1 * x2) * (x1 * y2 - y1 * x2) == 0) by (nonlinear_arith)
        requires
            x1 * y2 - y1 * x2 == 0,
    ;
}

/// Floor division respects integer bounds given as multiples of the
/// divisor: if `lo*d <= n <= hi*d` then `lo <= n/d <= hi`.
pub proof fn lemma_div_in_range(n: int, d: int, lo: int, hi: int)
    requires
        d > 0,
        lo * d <= n <= hi * d,
    ensures
        lo <= n / d <= hi,
{
    lemma_fundamental_div_mod(n, d);
    vstd::arithmetic::div_mod::lemma_mod_bound(n, d);
    assert(lo <= n / d <= hi) by (nonlinear_arith)
        requires
            d > 0,
            lo * d <= n <= hi * d,
            n == d * (n / d) + n % d,
            0 <= n % d < d,
    ;
}

/// Floor (Euclidean) division of `n` by a positive `d`.
pub fn div_floor(n: i128, d: i128) -> (r: i128)
    requires
        0 < d,
        -0x4000_0000_0000_0000_0000_0000_0000_0000 <= n
            <= 0x4000_0000_0000_0000_0000_0000_0000_0000,
    ensures
        r == n as int / d as int,
        r * d <= n < r * d + d,
{
    let mut quot: i128 = 0;
    if n >= 0 {
        let q: u128 = (n as u128) / (d as u128);
        proof {
            lemma_fundamental_div_mod(n as int, d as int);
            assert(q * d <= n) by (nonlinear_arith)
                requires
                    d >= 1,
                    q >= 0,
                    n >= 0,
                    q == n as int / d as int,
                    n as int == d as int * (n as int / d as int) + n as int % d as int,
                    n as int % d as int >= 0,
            ;
        }
        quot = q as i128;
    } else {
        let m: u128 = (-n) as u128;
        let q: u128 = m / (d as u128);
        let rem: u128 = m % (d as u128);
        proof {
            lemma_fundamental_div_mod(m as int, d as int);
            assert(q as int * d as int + rem as int == m as int) by (nonlinear_arith)
                requires
                    q == m as int / d as int,
                    rem == m as int % d as int,
                    m as int == d as int * (m as int / d as int) + m as int % d as int,
            ;
        }
        if rem == 0 {
            proof {
                assert(n as int == -(q as int) * d as int + 0) by (nonlinear_arith)
                    requires
                        q as int * d as int == m as int,
                        m as int == -(n as int),
                ;
                lemma_fundamental_div_mod_converse(n as int, d as int, -(q as int), 0);
            }
            quot = -(q as i128);
        } else {
            proof {
                assert(n as int == (-(q as int) - 1) * d as int + (d as int - rem as int))
                    by (nonlinear_arith)
                    requires
                        q as int * d as int + rem as int == m as int,
                        m as int == -(n as int),
                ;
                lemma_fundamental_div_mod_converse(
                    n as int,
                    d as int,
                    -(q as int) - 1,
                    d as int - rem as int,
                );
            }
            quot = -(q as i128) - 1;
        }
    }
    proof {
        assert(quot * d <= n < quot * d + d) by (nonlinear_arith)
            requires
                quot == n as int / d as int,
                d > 0,
        ;
    }
    quot
}

} // verus!
