//! The reach of the solver's search: every `m > r` is among the candidates
//! of the search for its own value C(m, r). The upper end of the search is
//! four times a power of two `p` whose `r`-th power is at least the falling
//! factorial; a falling factorial of `m >= 4 p` is above that power.

use crate::binomial::{
    binomial, factorial, falling_factorial, lemma_binomial_diagonal, lemma_falling_factorial_grows,
    lemma_falling_factorial_is_binomial,
};
use crate::solver::{ceil_log2, in_search_range, lemma_ceil_div, lemma_ceil_log2, scaled_target};
use vstd::arithmetic::power::{
    lemma0_pow, lemma_pow0, lemma_pow_adds, lemma_pow_distributes, lemma_pow_multiplies,
    lemma_pow_positive, pow,
};
use vstd::arithmetic::power2::{
    lemma2_to64, lemma_pow2, lemma_pow2_adds, lemma_pow2_pos, lemma_pow2_strictly_increases,
    lemma_pow2_unfold, pow2,
};
use vstd::prelude::*;

verus! {

/// The falling factorial of `j` factors is at least the `j`-th power of a
/// lower bound of its factors.
pub proof fn lemma_falling_factorial_above_power(m: nat, r: nat, j: nat)
    requires
        j <= r <= m,
    ensures
        falling_factorial(m, j) >= pow((m - r + 1) as int, j),
    decreases j,
{
    let base = (m - r + 1) as int;
    if j == 0 {
        lemma_pow0(base);
    } else {
        let q = (j - 1) as nat;
        lemma_falling_factorial_above_power(m, r, q);
        let below = falling_factorial(m, q) as int;
        let factor = (m - j + 1) as int;
        let power = pow(base, q);
        assert(pow(base, j) == base * power) by {
            reveal(pow);
        }
        lemma_pow_positive(base, q);
        assert(below * factor >= base * power) by (nonlinear_arith)
            requires
                below >= power,
                power > 0,
                factor >= base,
                base >= 1,
        ;
    }
}

/// The `r`-th power grows strictly with its base, for `r >= 1`.
pub proof fn lemma_power_strictly_monotonic(a: nat, b: nat, r: nat)
    requires
        a < b,
        r >= 1,
    ensures
        pow(a as int, r) < pow(b as int, r),
    decreases r,
{
    let e = (r - 1) as nat;
    let x = pow(a as int, e);
    let y = pow(b as int, e);
    assert(pow(a as int, r) == a * x) by {
        reveal(pow);
    }
    assert(pow(b as int, r) == b * y) by {
        reveal(pow);
    }
    if r == 1 {
        lemma_pow0(a as int);
        lemma_pow0(b as int);
        assert(a * x == a && b * y == b) by (nonlinear_arith)
            requires
                x == 1,
                y == 1,
        ;
    } else {
        lemma_power_strictly_monotonic(a, b, e);
        lemma_pow_positive(b as int, e);
        if a > 0 {
            lemma_pow_positive(a as int, e);
        } else {
            lemma0_pow(e);
        }
        assert(a * x < b * y) by (nonlinear_arith)
            requires
                0 <= a < b,
                0 <= x < y,
        ;
    }
}

/// A power does not shrink as its base grows.
pub proof fn lemma_power_monotonic(a: nat, b: nat, e: nat)
    requires
        a <= b,
    ensures
        pow(a as int, e) <= pow(b as int, e),
{
    if e == 0 {
        lemma_pow0(a as int);
        lemma_pow0(b as int);
    } else if a < b {
        lemma_power_strictly_monotonic(a, b, e);
    }
}

/// A falling factorial splits into its leading factors and the rest:
/// m falling (a + b) = (m falling a) ((m - a) falling b).
pub proof fn lemma_falling_factorial_split(m: nat, a: nat, b: nat)
    requires
        a + b <= m,
    ensures
        falling_factorial(m, a + b) == falling_factorial(m, a) * falling_factorial(
            (m - a) as nat,
            b,
        ),
    decreases b,
{
    let x = falling_factorial(m, a) as int;
    if b == 0 {
        assert(falling_factorial((m - a) as nat, 0) == 1);
        assert(x * 1 == x);
    } else {
        let y = falling_factorial((m - a) as nat, (b - 1) as nat) as int;
        let z = (m - a - b + 1) as int;
        lemma_falling_factorial_split(m, a, (b - 1) as nat);
        assert(falling_factorial(m, a + b) == falling_factorial(m, (a + b - 1) as nat) * z);
        assert(falling_factorial((m - a) as nat, b) == y * z);
        assert((x * y) * z == x * (y * z)) by (nonlinear_arith);
    }
}

/// n falling n = n!.
pub proof fn lemma_falling_factorial_full(n: nat)
    ensures
        falling_factorial(n, n) == factorial(n),
{
    lemma_falling_factorial_is_binomial(n, n);
    lemma_binomial_diagonal(n);
    assert(1 * factorial(n) == factorial(n));
}

/// C(n, k) <= 2^n.
pub proof fn lemma_binomial_below_power(n: nat, k: nat)
    ensures
        binomial(n, k) <= pow2(n),
    decreases n,
{
    lemma_pow2_pos(n);
    if k > 0 && n > 0 {
        lemma_binomial_below_power((n - 1) as nat, (k - 1) as nat);
        lemma_binomial_below_power((n - 1) as nat, k);
        lemma_pow2_unfold(n);
    }
}

/// n! <= p^n for n <= p.
pub proof fn lemma_factorial_below_power(n: nat, p: nat)
    requires
        n <= p,
    ensures
        factorial(n) <= pow(p as int, n),
    decreases n,
{
    if n == 0 {
        lemma_pow0(p as int);
    } else {
        let e = (n - 1) as nat;
        lemma_factorial_below_power(e, p);
        assert(pow(p as int, n) == p * pow(p as int, e)) by {
            reveal(pow);
        }
        assert(n * factorial(e) <= p * pow(p as int, e)) by (nonlinear_arith)
            requires
                n <= p,
                factorial(e) <= pow(p as int, e),
        ;
    }
}

/// p^p <= 4^p p!.
pub proof fn lemma_power_below_factorial(p: nat)
    requires
        p >= 1,
    ensures
        pow(p as int, p) <= pow2(2 * p) * factorial(p),
{
    lemma_falling_factorial_above_power(2 * p, p, p);
    lemma_power_monotonic(p, p + 1, p);
    lemma_falling_factorial_is_binomial(2 * p, p);
    lemma_binomial_below_power(2 * p, p);
    assert(binomial(2 * p, p) * factorial(p) <= pow2(2 * p) * factorial(p)) by (nonlinear_arith)
        requires
            binomial(2 * p, p) <= pow2(2 * p),
    ;
}

/// p^t <= 4^p (p falling t) for t <= p.
pub proof fn lemma_power_below_falling(p: nat, t: nat)
    requires
        p >= 1,
        t <= p,
    ensures
        pow(p as int, t) <= pow2(2 * p) * falling_factorial(p, t),
{
    let u = (p - t) as nat;
    lemma_falling_factorial_split(p, t, u);
    lemma_falling_factorial_full(p);
    lemma_falling_factorial_full(u);
    lemma_factorial_below_power(u, p);
    lemma_pow_adds(p as int, t, u);
    lemma_power_below_factorial(p);
    crate::binomial::lemma_factorial_positive(u);
    if p > 0 {
        lemma_pow_positive(p as int, t);
    }
    let power_t = pow(p as int, t);
    let power_u = pow(p as int, u);
    let rest = factorial(u) as int;
    let four = pow2(2 * p) as int;
    let falling = falling_factorial(p, t) as int;
    assert(power_t <= four * falling) by (nonlinear_arith)
        requires
            power_t >= 0,
            rest >= 1,
            rest <= power_u,
            power_t * power_u <= four * (falling * rest),
            four >= 0,
            falling >= 0,
    ;
}

/// The factors of m! above `p` outgrow 4^p p^(m - p), for m >= 4 p.
pub proof fn lemma_large_factors(m: nat, p: nat)
    requires
        p >= 1,
        m >= 4 * p,
    ensures
        falling_factorial(m, (m - p) as nat) > pow2(2 * p) * pow(p as int, (m - p) as nat),
{
    let top = (m - 2 * p) as nat;
    lemma_falling_factorial_split(m, top, p);
    lemma_falling_factorial_above_power(m, top, top);
    lemma_falling_factorial_above_power(2 * p, p, p);
    lemma_power_monotonic(2 * p, 2 * p + 1, top);
    lemma_power_strictly_monotonic(p, p + 1, p);
    lemma_pow_distributes(2, p as int, top);
    lemma_pow2(top);
    if 2 * p < top {
        lemma_pow2_strictly_increases(2 * p, top);
    }
    lemma_pow_adds(p as int, top, p);
    lemma_pow_positive(p as int, top);
    lemma_pow_positive(p as int, p);
    lemma_pow2_pos(2 * p);
    let high = falling_factorial(m, top) as int;
    let low = falling_factorial(2 * p, p) as int;
    let two_top = pow2(top) as int;
    let p_top = pow(p as int, top);
    let p_p = pow(p as int, p);
    let four = pow2(2 * p) as int;
    assert(high * low > four * (p_top * p_p)) by (nonlinear_arith)
        requires
            high >= two_top * p_top,
            low > p_p,
            two_top >= four,
            four >= 1,
            p_top >= 1,
            p_p >= 1,
    ;
}

/// A falling factorial of `m >= 4 p` is above the power of `p` with as many
/// factors: m falling r > p^r for 1 <= r < m.
pub proof fn lemma_falling_factorial_outgrows(m: nat, r: nat, p: nat)
    requires
        p >= 1,
        1 <= r < m,
        m >= 4 * p,
    ensures
        falling_factorial(m, r) > pow(p as int, r),
{
    if r + p <= m {
        lemma_falling_factorial_above_power(m, r, r);
        lemma_power_monotonic(p + 1, (m - r + 1) as nat, r);
        lemma_power_strictly_monotonic(p, p + 1, r);
    } else {
        let s = (m - p) as nat;
        let t = (r - s) as nat;
        lemma_falling_factorial_split(m, s, t);
        lemma_large_factors(m, p);
        lemma_power_below_falling(p, t);
        lemma_pow_adds(p as int, s, t);
        lemma_falling_factorial_grows(p, t, t);
        lemma_pow_positive(p as int, s);
        lemma_pow_positive(p as int, t);
        lemma_pow2_pos(2 * p);
        let high = falling_factorial(m, s) as int;
        let low = falling_factorial(p, t) as int;
        let four = pow2(2 * p) as int;
        let p_s = pow(p as int, s);
        let p_t = pow(p as int, t);
        assert(high * low > p_s * p_t) by (nonlinear_arith)
            requires
                high > four * p_s,
                p_t <= four * low,
                low >= 1,
                four >= 1,
                p_s >= 1,
                p_t >= 1,
        ;
    }
}

/// The search reaches every `m` above the order: the search for the value
/// C(m, r) has `m` among its candidates, for 1 <= r < m.
pub proof fn lemma_search_range_complete(m: nat, r: nat)
    requires
        1 <= r < m,
    ensures
        in_search_range(m, binomial(m, r), r),
{
    let target = scaled_target(binomial(m, r), r);
    lemma_falling_factorial_is_binomial(m, r);
    let c = ceil_log2(target);
    let q = ((c + r - 1) / r as int) as nat;
    let p = pow2(q);
    lemma_ceil_log2(target);
    lemma_ceil_div(c as int, r as int);
    if c < r * q {
        lemma_pow2_strictly_increases(c, r * q);
    }
    lemma_pow2(q);
    lemma_pow2(q * r);
    lemma_pow_multiplies(2, q, r);
    assert(q * r == r * q) by (nonlinear_arith);
    assert(target <= pow(p as int, r));
    lemma_pow2_pos(q);
    lemma2_to64();
    lemma_pow2_adds(q, 2);
    if m >= 4 * p {
        lemma_falling_factorial_outgrows(m, r, p);
    }
}

} // verus!
