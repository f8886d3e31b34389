use vstd::prelude::*;
use vstd::arithmetic::div_mod::{lemma_fundamental_div_mod, lemma_fundamental_div_mod_converse};

verus! {

/// `n / d` rounded to the nearest integer, halves rounded up.
pub open spec fn round_div(n: int, d: int) -> int {
    (2 * n + d) / (2 * d)
}

/// Magnitude of the numerators that `div_round` accepts.
pub const NUM_LIMIT: i64 = 0x1000_0000_0000_0000;

/// Magnitude of the divisors that `div_round` accepts.
pub const DIV_LIMIT: i64 = 0x1_0000_0000;

/// Rounding division of a signed numerator by a positive divisor.
pub fn div_round(n: i64, d: i64) -> (r: i64)
    requires
        -NUM_LIMIT <= n <= NUM_LIMIT,
        0 < d <= DIV_LIMIT,
    ensures
        r as int == round_div(n as int, d as int),
{
    let a: i64 = 2 * n + d;
    let b: i64 = 2 * d;
    if a >= 0 {
        let q: u64 = (a as u64) / (b as u64);
        q as i64
    } else {
        let m: u64 = (-a) as u64;
        let q: u64 = (m + (b as u64) - 1) / (b as u64);
        proof {
            let k = m + b - 1;
            lemma_fundamental_div_mod(k as int, b as int);
            let rem = k % (b as int);
            assert(a == -(q as int) * b + (b - 1 - rem)) by (nonlinear_arith)
                requires
                    k == q * b + rem,
                    k == m + b - 1,
                    m == -a,
            ;
            lemma_fundamental_div_mod_converse(a as int, b as int, -(q as int), b - 1 - rem);
        }
        -(q as i64)
    }
}

/// Bound on a rounded quotient from a bound on the numerator.
pub proof fn lemma_round_div_bound(n: int, d: int, lim: int)
    requires
        0 < d,
        -lim <= n <= lim,
    ensures
        -(lim / d) - 1 <= round_div(n, d) <= lim / d + 1,
{
    assert(-(lim / d) - 1 <= round_div(n, d) <= lim / d + 1) by (nonlinear_arith)
        requires 0 < d, -lim <= n <= lim;
}

} // verus!

verus! {

/// A numerator between `lo * d` and `hi * d` gives a rounded quotient between `lo` and `hi`.
pub proof fn lemma_round_div_range(n: int, d: int, lo: int, hi: int)
    requires
        0 < d,
        lo * d <= n <= hi * d,
    ensures
        lo <= round_div(n, d) <= hi,
{
    lemma_fundamental_div_mod(2 * n + d, 2 * d);
    let q = round_div(n, d);
    let r = (2 * n + d) % (2 * d);
    assert(lo <= q <= hi) by (nonlinear_arith)
        requires
            2 * n + d == (2 * d) * q + r,
            0 <= r < 2 * d,
            0 < d,
            lo * d <= n <= hi * d,
    ;
}

/// Plane samples and transform coefficients are fixed-point numbers with this
/// many units per channel level (8 fractional bits).
pub const SAMPLE_ONE: i64 = 256;

/// A rounded quotient times its divisor lies within one divisor of the numerator.
pub proof fn lemma_round_div_close(n: int, d: int)
    requires
        0 < d,
    ensures
        n - d <= round_div(n, d) * d <= n + d,
{
    lemma_fundamental_div_mod(2 * n + d, 2 * d);
    let q = round_div(n, d);
    let r = (2 * n + d) % (2 * d);
    assert(n - d <= q * d <= n + d) by (nonlinear_arith)
        requires
            2 * n + d == (2 * d) * q + r,
            0 <= r < 2 * d,
            0 < d,
    ;
}

} // verus!
