//! The mathematical model: binomial coefficients, factorials and falling
//! factorials over the natural numbers, with the identities that the
//! generators, the oracle and the inverse solver rest on.

use vstd::prelude::*;

verus! {

/// The binomial coefficient C(n, k), defined by Pascal's rule. It is zero
/// when `k > n`.
pub open spec fn binomial(n: nat, k: nat) -> nat
    decreases n,
{
    if k == 0 {
        1
    } else if n == 0 {
        0
    } else {
        binomial((n - 1) as nat, (k - 1) as nat) + binomial((n - 1) as nat, k)
    }
}

/// n! = 1 * 2 * ... * n.
pub open spec fn factorial(n: nat) -> nat
    decreases n,
{
    if n == 0 {
        1
    } else {
        n * factorial((n - 1) as nat)
    }
}

/// The falling factorial m * (m - 1) * ... * (m - r + 1), a product of `r`
/// factors. It is zero when `m < r`.
pub open spec fn falling_factorial(m: nat, r: nat) -> nat
    decreases r,
{
    if r == 0 {
        1
    } else if m < r {
        0
    } else {
        falling_factorial(m, (r - 1) as nat) * ((m - r + 1) as nat)
    }
}

/// C(n, k) = 0 for k > n.
pub proof fn lemma_binomial_beyond_row(n: nat, k: nat)
    requires
        k > n,
    ensures
        binomial(n, k) == 0,
    decreases n,
{
    if n > 0 {
        lemma_binomial_beyond_row((n - 1) as nat, (k - 1) as nat);
        lemma_binomial_beyond_row((n - 1) as nat, k);
    }
}

/// C(n, n) = 1.
pub proof fn lemma_binomial_diagonal(n: nat)
    ensures
        binomial(n, n) == 1,
    decreases n,
{
    if n > 0 {
        lemma_binomial_diagonal((n - 1) as nat);
        lemma_binomial_beyond_row((n - 1) as nat, n);
    }
}

/// C(n, k) >= 1 for k <= n.
pub proof fn lemma_binomial_positive(n: nat, k: nat)
    requires
        k <= n,
    ensures
        binomial(n, k) >= 1,
    decreases n,
{
    if k > 0 && n > 0 {
        lemma_binomial_positive((n - 1) as nat, (k - 1) as nat);
    }
}

/// C(n, 1) = n.
pub proof fn lemma_binomial_one(n: nat)
    ensures
        binomial(n, 1) == n,
    decreases n,
{
    if n > 0 {
        lemma_binomial_one((n - 1) as nat);
        assert(binomial((n - 1) as nat, 0) == 1);
    }
}

/// The absorption identities:
/// (r + 1) C(m, r + 1) = (m - r) C(m, r) and
/// (r + 1) C(m + 1, r + 1) = (m + 1) C(m, r).
pub proof fn lemma_binomial_absorption(m: nat, r: nat)
    ensures
        (r + 1) * binomial(m, r + 1) == (m - r) * binomial(m, r),
        (r + 1) * binomial(m + 1, r + 1) == (m + 1) * binomial(m, r),
    decreases m,
{
    let c = binomial(m, r) as int;
    let d = binomial(m, r + 1) as int;
    if m == 0 {
        if r > 0 {
            assert(c == 0);
        }
        assert(d == 0);
        assert((r + 1) * d == (m - r) * c) by (nonlinear_arith)
            requires
                d == 0,
                m == 0,
                r == 0 || c == 0,
        ;
    } else {
        let p = (m - 1) as nat;
        let a = binomial(p, r) as int;
        let b = binomial(p, r + 1) as int;
        lemma_binomial_absorption(p, r);
        assert(d == a + b);
        if r == 0 {
            assert(c == 1);
            assert(a == 1);
            assert((r + 1) * d == (m - r) * c) by (nonlinear_arith)
                requires
                    r == 0,
                    c == 1,
                    a == 1,
                    d == a + b,
                    (r + 1) * b == (p - r) * a,
                    p == m - 1,
            ;
        } else {
            let q = (r - 1) as nat;
            let e = binomial(p, q) as int;
            lemma_binomial_absorption(p, q);
            assert(c == e + a);
            // r * a == (p - q) * e  and  (r + 1) * b == (p - r) * a
            assert((r + 1) * d == (m - r) * c) by (nonlinear_arith)
                requires
                    c == e + a,
                    d == a + b,
                    (q + 1) * a == (p - q) * e,
                    (r + 1) * b == (p - r) * a,
                    p == m - 1,
                    q == r - 1,
            ;
        }
    }
    assert(binomial(m + 1, r + 1) == c + d);
    assert((r + 1) * binomial(m + 1, r + 1) == (m + 1) * c) by (nonlinear_arith)
        requires
            binomial(m + 1, r + 1) == c + d,
            (r + 1) * d == (m - r) * c,
    ;
}

/// The falling factorial is the binomial coefficient times r!:
/// m (m - 1) ... (m - r + 1) = C(m, r) r!.
pub proof fn lemma_falling_factorial_is_binomial(m: nat, r: nat)
    ensures
        falling_factorial(m, r) == binomial(m, r) * factorial(r),
    decreases r,
{
    if r == 0 {
        assert(binomial(m, 0) == 1);
        assert(factorial(0) == 1);
        assert(binomial(m, 0) * factorial(0) == 1) by (nonlinear_arith)
            requires
                binomial(m, 0) == 1,
                factorial(0) == 1,
        ;
    } else if m < r {
        lemma_binomial_beyond_row(m, r);
        assert(binomial(m, r) * factorial(r) == 0) by (nonlinear_arith)
            requires
                binomial(m, r) == 0,
        ;
    } else {
        let q = (r - 1) as nat;
        lemma_falling_factorial_is_binomial(m, q);
        lemma_binomial_absorption(m, q);
        let c = binomial(m, q) as int;
        let d = binomial(m, r) as int;
        let f = factorial(q) as int;
        assert(falling_factorial(m, r) == (c * f) * (m - q));
        assert(factorial(r) == r * f);
        assert((c * f) * (m - q) == d * (r * f)) by (nonlinear_arith)
            requires
                r * d == (m - q) * c,
        ;
    }
}

/// Peeling the leading factor: (m + 1) falling (r + 1) is (m + 1) times
/// m falling r.
pub proof fn lemma_falling_factorial_lead(m: nat, r: nat)
    ensures
        falling_factorial(m + 1, r + 1) == (m + 1) * falling_factorial(m, r),
{
    lemma_falling_factorial_is_binomial(m + 1, r + 1);
    lemma_falling_factorial_is_binomial(m, r);
    lemma_binomial_absorption(m, r);
    let c = binomial(m, r) as int;
    let d = binomial(m + 1, r + 1) as int;
    let f = factorial(r) as int;
    assert(factorial(r + 1) == (r + 1) * f);
    assert(d * ((r + 1) * f) == (m + 1) * (c * f)) by (nonlinear_arith)
        requires
            (r + 1) * d == (m + 1) * c,
    ;
}

/// The first factorials: 2! = 2, 3! = 6, 4! = 24.
pub proof fn lemma_factorial_small()
    ensures
        factorial(0) == 1,
        factorial(1) == 1,
        factorial(2) == 2,
        factorial(3) == 6,
        factorial(4) == 24,
{
    reveal_with_fuel(factorial, 5);
}

/// r! >= 1.
pub proof fn lemma_factorial_positive(r: nat)
    ensures
        factorial(r) >= 1,
    decreases r,
{
    if r > 0 {
        lemma_factorial_positive((r - 1) as nat);
        assert(r * factorial((r - 1) as nat) >= 1) by (nonlinear_arith)
            requires
                r >= 1,
                factorial((r - 1) as nat) >= 1,
        ;
    }
}

/// Down a column `k >= 1` the binomial coefficients strictly increase from
/// row `k - 1` on.
pub proof fn lemma_binomial_strictly_monotonic(n1: nat, n2: nat, k: nat)
    requires
        k >= 1,
        k <= n1 + 1,
        n1 < n2,
    ensures
        binomial(n1, k) < binomial(n2, k),
    decreases n2,
{
    let p = (n2 - 1) as nat;
    lemma_binomial_positive(p, (k - 1) as nat);
    if n1 < p {
        lemma_binomial_strictly_monotonic(n1, p, k);
    }
}

/// For a fixed number of factors `r >= 1`, the falling factorial strictly
/// increases with `m` from `m = r - 1` on.
pub proof fn lemma_falling_factorial_strictly_monotonic(m1: nat, m2: nat, r: nat)
    requires
        r >= 1,
        r <= m1 + 1,
        m1 < m2,
    ensures
        falling_factorial(m1, r) < falling_factorial(m2, r),
{
    lemma_falling_factorial_is_binomial(m1, r);
    lemma_falling_factorial_is_binomial(m2, r);
    lemma_binomial_strictly_monotonic(m1, m2, r);
    lemma_factorial_positive(r);
    assert(binomial(m1, r) * factorial(r) < binomial(m2, r) * factorial(r)) by (nonlinear_arith)
        requires
            binomial(m1, r) < binomial(m2, r),
            factorial(r) >= 1,
    ;
}

/// With more factors, none of them below one, the falling factorial does not
/// decrease: m falling j <= m falling r for j <= r <= m.
pub proof fn lemma_falling_factorial_grows(m: nat, j: nat, r: nat)
    requires
        j <= r <= m,
    ensures
        falling_factorial(m, j) <= falling_factorial(m, r),
        falling_factorial(m, r) >= 1,
    decreases r,
{
    if r == 0 {
    } else {
        let q = (r - 1) as nat;
        lemma_falling_factorial_grows(m, if j <= q { j } else { q }, q);
        assert(falling_factorial(m, q) * ((m - r + 1) as nat) >= falling_factorial(m, q))
            by (nonlinear_arith)
            requires
                m - r + 1 >= 1,
        ;
    }
}

/// Symmetry of the rows of the triangle: C(n, k) = C(n, n - k).
pub proof fn lemma_binomial_symmetric(n: nat, k: nat)
    requires
        k <= n,
    ensures
        binomial(n, k) == binomial(n, (n - k) as nat),
    decreases n,
{
    if k == 0 {
        lemma_binomial_diagonal(n);
    } else if k == n {
        lemma_binomial_diagonal(n);
    } else {
        let p = (n - 1) as nat;
        lemma_binomial_symmetric(p, (k - 1) as nat);
        lemma_binomial_symmetric(p, k);
    }
}

/// Along the first half of a row the binomial coefficients strictly
/// increase: C(n, k) < C(n, k + 1) where 2 (k + 1) <= n.
pub proof fn lemma_binomial_row_step(n: nat, k: nat)
    requires
        2 * (k + 1) <= n,
    ensures
        binomial(n, k) < binomial(n, k + 1),
{
    lemma_binomial_absorption(n, k);
    lemma_binomial_positive(n, k);
    let x = binomial(n, k + 1) as int;
    let y = binomial(n, k) as int;
    if x <= y {
        assert((k + 1) * x <= (k + 1) * y) by (nonlinear_arith)
            requires
                x <= y,
        ;
        assert((k + 1) * y < (n - k) * y) by (nonlinear_arith)
            requires
                k + 1 < n - k,
                y >= 1,
        ;
    }
}

/// Within the first half of a row, entries in two columns differ:
/// C(n, k1) < C(n, k2) for k1 < k2 and 2 k2 <= n.
pub proof fn lemma_binomial_first_half(n: nat, k1: nat, k2: nat)
    requires
        k1 < k2,
        2 * k2 <= n,
    ensures
        binomial(n, k1) < binomial(n, k2),
    decreases k2,
{
    lemma_binomial_row_step(n, (k2 - 1) as nat);
    if k1 + 1 < k2 {
        lemma_binomial_first_half(n, k1, (k2 - 1) as nat);
    }
}

/// Dividing the falling factorial by r! gives the binomial coefficient,
/// without remainder.
pub proof fn lemma_binomial_is_quotient(m: nat, r: nat)
    ensures
        falling_factorial(m, r) / factorial(r) == binomial(m, r),
        falling_factorial(m, r) % factorial(r) == 0,
{
    lemma_falling_factorial_is_binomial(m, r);
    lemma_factorial_positive(r);
    vstd::arithmetic::div_mod::lemma_fundamental_div_mod_converse(
        falling_factorial(m, r) as int,
        factorial(r) as int,
        binomial(m, r) as int,
        0,
    );
}

} // verus!
