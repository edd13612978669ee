//! The inverse of the binomial coefficient: given a value `k` and an order
//! `r`, find `m` with C(m, r) = k. The general solver is a binary search on
//! the falling factorial; order 2 also has a closed form through an integer
//! square root.

use crate::binomial::{
    binomial, factorial, falling_factorial, lemma_binomial_positive,
    lemma_binomial_strictly_monotonic, lemma_factorial_positive,
    lemma_falling_factorial_grows, lemma_falling_factorial_is_binomial,
    lemma_falling_factorial_strictly_monotonic,
};
use crate::search_range::lemma_search_range_complete;
use crate::uint::{limb_1, limb_2, limb_3, uint_modulus, UInt, UINT_BITS};
use vstd::arithmetic::power2::*;
use vstd::prelude::*;

verus! {

/// ceil(log2(n)): the least `e` with n <= 2^e. It is 0 for n <= 1.
pub open spec fn ceil_log2(n: nat) -> nat
    decreases n,
{
    if n <= 1 {
        0
    } else {
        1 + ceil_log2((n + 1) / 2)
    }
}

/// The target of the search for C(m, r) = k: the value k r!, which the
/// falling factorial of `m` is compared with.
pub open spec fn scaled_target(k: nat, r: nat) -> nat {
    k * factorial(r)
}

/// The exponent of the upper end of the search: ceil(log2(target) / r) + 2.
pub open spec fn search_exponent(target: nat, r: nat) -> nat {
    (ceil_log2(target) + r - 1) as nat / r + 2
}

/// The upper end of the search, a power of two: candidates are below it.
pub open spec fn search_upper(target: nat, r: nat) -> nat {
    pow2(search_exponent(target, r))
}

/// Whether the search for C(m, r) = k stays within 256 bits: the scaled
/// target and the upper end of the search are representable.
pub open spec fn solver_fits(k: nat, r: nat) -> bool {
    &&& scaled_target(k, r) < uint_modulus()
    &&& search_exponent(scaled_target(k, r), r) < UINT_BITS
}

/// The candidates of the search for C(m, r) = k: r < m < upper end.
pub open spec fn in_search_range(m: nat, k: nat, r: nat) -> bool {
    r < m < search_upper(scaled_target(k, r), r)
}

/// Whether `m` solves C(m, r) = k above the order: the entry of value 1 at
/// the end of row `r` is not looked for.
pub open spec fn is_solution(m: nat, k: nat, r: nat) -> bool {
    r < m && binomial(m, r) == k
}

/// What the solver finds: the `m > r` with C(m, r) = k, if there is one.
pub open spec fn find_choose_spec(k: nat, r: nat) -> Option<nat> {
    if exists|m: nat| is_solution(m, k, r) {
        Some(choose|m: nat| is_solution(m, k, r))
    } else {
        None
    }
}

/// Whether `n` is the square of a natural number.
pub open spec fn is_perfect_square(n: nat) -> bool {
    exists|s: nat| #[trigger] (s * s) == n
}

/// Whether `k` is a triangular number: C(m, 2) for some `m >= 1`.
pub open spec fn is_triangular(k: nat) -> bool {
    exists|m: nat| m >= 1 && #[trigger] binomial(m, 2) == k
}

/// The powers of two at the limb boundaries.
pub proof fn lemma_pow2_limbs()
    ensures
        pow2(64) == limb_1(),
        pow2(128) == limb_2(),
        pow2(192) == limb_3(),
        pow2(256) == uint_modulus(),
{
    lemma2_to64();
    lemma_pow2_adds(64, 64);
    lemma_pow2_adds(128, 64);
    lemma_pow2_adds(192, 64);
}

/// `ceil_log2(n)` is the least exponent whose power of two reaches `n`.
pub proof fn lemma_ceil_log2(n: nat)
    ensures
        n <= pow2(ceil_log2(n)),
        n > 1 ==> pow2((ceil_log2(n) - 1) as nat) < n,
    decreases n,
{
    lemma2_to64();
    if n > 1 {
        let h = (n + 1) / 2;
        lemma_ceil_log2(h);
        let e = ceil_log2(h);
        lemma_pow2_unfold(e + 1);
        if h > 1 {
            lemma_pow2_unfold(e);
        }
    }
}

/// Of a power of two that reaches `n`, the exponent is at least
/// `ceil_log2(n)`.
pub proof fn lemma_ceil_log2_least(n: nat, e: nat)
    requires
        n <= pow2(e),
    ensures
        ceil_log2(n) <= e,
{
    lemma_ceil_log2(n);
    lemma2_to64();
    if n > 1 && ceil_log2(n) > e {
        let c = (ceil_log2(n) - 1) as nat;
        if e < c {
            lemma_pow2_strictly_increases(e, c);
        }
    }
}

/// Three bits of headroom are enough: where the scaled target is below
/// 2^253, the search stays within 256 bits.
pub proof fn lemma_solver_fits(k: nat, r: nat)
    requires
        r >= 1,
        8 * scaled_target(k, r) < uint_modulus(),
    ensures
        solver_fits(k, r),
{
    let target = scaled_target(k, r);
    lemma_pow2_limbs();
    lemma2_to64();
    lemma_pow2_adds(253, 3);
    lemma_ceil_log2_least(target, 253);
    lemma_ceil_div(ceil_log2(target) as int, r as int);
}

/// i! <= r! for i <= r.
pub proof fn lemma_factorial_monotonic(i: nat, r: nat)
    requires
        i <= r,
    ensures
        factorial(i) <= factorial(r),
    decreases r,
{
    if i < r {
        lemma_factorial_monotonic(i, (r - 1) as nat);
        lemma_factorial_positive((r - 1) as nat);
        assert(r * factorial((r - 1) as nat) >= factorial((r - 1) as nat)) by (nonlinear_arith)
            requires
                r >= 1,
        ;
    }
}

/// C(m, r) = k exactly when the falling factorial of `m` meets the scaled
/// target, and the comparison of the two carries over.
pub proof fn lemma_scaled_comparison(m: nat, k: nat, r: nat)
    ensures
        falling_factorial(m, r) == scaled_target(k, r) <==> binomial(m, r) == k,
        falling_factorial(m, r) < scaled_target(k, r) <==> binomial(m, r) < k,
{
    lemma_falling_factorial_is_binomial(m, r);
    lemma_factorial_positive(r);
    let c = binomial(m, r);
    let f = factorial(r);
    assert(c < k ==> c * f < k * f) by (nonlinear_arith)
        requires
            f >= 1,
    ;
    assert(c > k ==> c * f > k * f) by (nonlinear_arith)
        requires
            f >= 1,
    ;
}

/// At most one `m > r` solves C(m, r) = k.
pub proof fn lemma_solution_unique(m1: nat, m2: nat, k: nat, r: nat)
    requires
        r >= 1,
        is_solution(m1, k, r),
        is_solution(m2, k, r),
    ensures
        m1 == m2,
{
    if m1 < m2 {
        lemma_binomial_strictly_monotonic(m1, m2, r);
    }
    if m2 < m1 {
        lemma_binomial_strictly_monotonic(m2, m1, r);
    }
}

/// Rounding a quotient up: (c + d - 1) / d is c / d where `d` divides `c`,
/// and one more where it does not.
pub proof fn lemma_ceil_div(c: int, d: int)
    requires
        c >= 0,
        d >= 1,
    ensures
        (c + d - 1) / d == if c % d == 0 {
            c / d
        } else {
            c / d + 1
        },
        (c + d - 1) / d <= c,
        c <= d * ((c + d - 1) / d),
{
    let q = c / d;
    let rem = c % d;
    vstd::arithmetic::div_mod::lemma_fundamental_div_mod(c, d);
    vstd::arithmetic::div_mod::lemma_mod_bound(c, d);
    vstd::arithmetic::div_mod::lemma_div_pos_is_pos(c, d);
    if rem == 0 {
        vstd::arithmetic::div_mod::lemma_fundamental_div_mod_converse(c + d - 1, d, q, d - 1);
        assert(d * q >= q) by (nonlinear_arith)
            requires
                d >= 1,
                q >= 0,
        ;
    } else {
        assert(d * (q + 1) == d * q + d) by (nonlinear_arith);
        vstd::arithmetic::div_mod::lemma_fundamental_div_mod_converse(
            c + d - 1,
            d,
            q + 1,
            rem - 1,
        );
        assert(d * q >= q) by (nonlinear_arith)
            requires
                d >= 1,
                q >= 0,
        ;
    }
}

/// The solver inverts the oracle: of the value C(row, column) and the order
/// `column` it finds `row`, for 1 <= column < row.
pub proof fn lemma_find_choose_inverts(row: nat, column: nat)
    requires
        1 <= column < row,
    ensures
        find_choose_spec(binomial(row, column), column) == Some(row),
{
    let k = binomial(row, column);
    assert(is_solution(row, k, column));
    let found = choose|m: nat| is_solution(m, k, column);
    lemma_solution_unique(found, row, k, column);
}

/// Where no candidate `m` of the search has C(m, r) = k, the solver finds
/// nothing: no `m` beyond the candidates has that value either.
pub proof fn lemma_find_choose_none(k: nat, r: nat)
    requires
        r >= 1,
        forall|m: nat| in_search_range(m, k, r) ==> binomial(m, r) != k,
    ensures
        find_choose_spec(k, r) is None,
{
    if exists|m: nat| is_solution(m, k, r) {
        let m = choose|m: nat| is_solution(m, k, r);
        lemma_search_range_complete(m, r);
    }
}

/// The closed form for order 2: `k` is C(m, 2) for some `m >= 1` exactly
/// when 8 k + 1 is a perfect square.
pub proof fn lemma_triangular_closed_form(k: nat)
    ensures
        is_triangular(k) <==> is_perfect_square(8 * k + 1),
{
    crate::binomial::lemma_factorial_small();
    if is_triangular(k) {
        let m = choose|m: nat| m >= 1 && #[trigger] binomial(m, 2) == k;
        lemma_pair_product(m);
        let s = (2 * m - 1) as nat;
        assert(s * s == 8 * k + 1) by (nonlinear_arith)
            requires
                s == 2 * m - 1,
                m * (m - 1) == k * 2,
        ;
    }
    if is_perfect_square(8 * k + 1) {
        let s = choose|s: nat| #[trigger] (s * s) == 8 * k + 1;
        let half = s / 2;
        if s % 2 == 0 {
            assert(s * s == 4 * (half * half)) by (nonlinear_arith)
                requires
                    s == 2 * half,
            ;
            assert(false);
        }
        let m = half + 1;
        assert(m * (m - 1) == 2 * k) by (nonlinear_arith)
            requires
                s == 2 * m - 1,
                s * s == 8 * k + 1,
        ;
        lemma_pair_product(m);
        assert(binomial(m, 2) == k) by (nonlinear_arith)
            requires
                binomial(m, 2) * 2 == m * (m - 1),
                m * (m - 1) == 2 * k,
        ;
    }
}

/// Twice C(m, 2) is m (m - 1), for m >= 1.
pub proof fn lemma_pair_product(m: nat)
    requires
        m >= 1,
    ensures
        binomial(m, 2) * 2 == m * (m - 1),
{
    crate::binomial::lemma_factorial_small();
    lemma_falling_factorial_is_binomial(m, 2);
    if m >= 2 {
        assert(falling_factorial(m, 2) == m * (m - 1)) by {
            reveal_with_fuel(falling_factorial, 3);
            assert(falling_factorial(m, 1) == 1 * m);
        }
    } else {
        assert(falling_factorial(m, 2) == 0);
        assert(m * (m - 1) == 0) by (nonlinear_arith)
            requires
                m == 1,
        ;
    }
}

/// The closed form and the solver agree on order 2: for k >= 2, the number
/// 8 k + 1 is a perfect square exactly when the solver finds an `m` with
/// C(m, 2) = k.
pub proof fn lemma_closed_form_agrees(k: nat)
    requires
        k >= 2,
    ensures
        is_perfect_square(8 * k + 1) <==> find_choose_spec(k, 2) is Some,
{
    lemma_triangular_closed_form(k);
    if find_choose_spec(k, 2) is Some {
        let m = choose|m: nat| is_solution(m, k, 2);
        assert(m >= 1 && binomial(m, 2) == k);
    }
    if is_triangular(k) {
        let m = choose|m: nat| m >= 1 && #[trigger] binomial(m, 2) == k;
        lemma_pair_product(m);
        if m <= 2 {
            assert(m * (m - 1) <= 2) by (nonlinear_arith)
                requires
                    1 <= m <= 2,
            ;
        }
        assert(is_solution(m, k, 2));
    }
}

/// Whether `n` is a perfect square: the integer square root, squared, gives
/// `n` back.
pub fn is_square(n: UInt) -> (b: bool)
    ensures
        b == is_perfect_square(n@),
{
    let sq = n.isqrt();
    proof {
        n.lemma_view(n);
    }
    let b = sq.times(sq).is_equal(&n);
    proof {
        let q = sq@;
        if b {
            assert(q * q == n@);
        } else {
            assert forall|s: nat| #[trigger] (s * s) != n@ by {
                if s < q {
                    assert(s * s < q * q) by (nonlinear_arith)
                        requires
                            s < q,
                    ;
                } else if s > q {
                    assert(s * s >= (q + 1) * (q + 1)) by (nonlinear_arith)
                        requires
                            s >= q + 1,
                    ;
                }
            }
        }
    }
    b
}

/// Whether `n` = C(m, 2) for some `m >= 1`, by the closed form: `n` is a
/// triangular number exactly when 8 n + 1 is a perfect square.
pub fn is_choose2(n: UInt) -> (b: bool)
    requires
        8 * n@ + 1 < uint_modulus(),
    ensures
        b == is_perfect_square(8 * n@ + 1),
        b == is_triangular(n@),
{
    proof {
        lemma2_to64();
        lemma_triangular_closed_form(n@);
    }
    let shifted = n.shifted_left(3);
    is_square(shifted.plus(UInt::from_u64(1)))
}

/// The scaled target k r!.
fn scale_target(k: UInt, r: u32) -> (t: UInt)
    requires
        scaled_target(k@, r as nat) < uint_modulus(),
    ensures
        t@ == scaled_target(k@, r as nat),
{
    let mut t = k;
    let mut i: u32 = 0;
    proof {
        assert(k@ * factorial(0) == k@) by (nonlinear_arith)
            requires
                factorial(0) == 1,
        ;
    }
    while i < r
        invariant
            i <= r,
            t@ == k@ * factorial(i as nat),
            k@ * factorial(r as nat) < uint_modulus(),
        decreases r - i,
    {
        i = i + 1;
        proof {
            let f = factorial((i - 1) as nat);
            lemma_factorial_monotonic(i as nat, r as nat);
            assert(factorial(i as nat) == i * f);
            assert(t@ * i == k@ * factorial(i as nat)) by (nonlinear_arith)
                requires
                    t@ == k@ * f,
                    factorial(i as nat) == i * f,
            ;
            assert(k@ * factorial(i as nat) <= k@ * factorial(r as nat)) by (nonlinear_arith)
                requires
                    factorial(i as nat) <= factorial(r as nat),
            ;
        }
        t = t.times(UInt::from_u64(i as u64));
    }
    t
}

/// The upper end of the search for a target of at least one.
fn upper_end(target: UInt, r: u32) -> (hi: UInt)
    requires
        r >= 1,
        target@ >= 1,
        search_exponent(target@, r as nat) < UINT_BITS,
    ensures
        hi@ == search_upper(target@, r as nat),
{
    let one = UInt::from_u64(1);
    let log = target.ilog2();
    proof {
        lemma2_to64();
        lemma_pow2_limbs();
        lemma_pow2_strictly_increases(log as nat, 256);
        assert(1 * pow2(log as nat) == pow2(log as nat));
    }
    let floor_power = one.shifted_left(log);
    let ceil: u32 = if floor_power.is_equal(&target) {
        log
    } else {
        log + 1
    };
    proof {
        // ceil is ceil_log2(target)
        lemma_ceil_log2(target@);
        if floor_power@ == target@ {
            lemma_ceil_log2_least(target@, log as nat);
            if ceil_log2(target@) < log {
                lemma_pow2_strictly_increases(ceil_log2(target@), log as nat);
            }
        } else {
            lemma_ceil_log2_least(target@, (log + 1) as nat);
            if ceil_log2(target@) <= log {
                if ceil_log2(target@) < log {
                    lemma_pow2_strictly_increases(ceil_log2(target@), log as nat);
                }
            }
        }
        assert(ceil == ceil_log2(target@));
    }
    let quotient: u32 = ceil / r;
    let exponent: u32 = if ceil % r == 0 {
        quotient + 2
    } else {
        quotient + 3
    };
    proof {
        lemma_ceil_div(ceil as int, r as int);
        assert(exponent == search_exponent(target@, r as nat));
        lemma_pow2_strictly_increases(exponent as nat, 256);
        assert(1 * pow2(exponent as nat) == pow2(exponent as nat));
    }
    one.shifted_left(exponent)
}

/// The three outcomes of comparing a candidate's falling factorial with the
/// target.
enum Probe {
    Below,
    Equal,
    Above,
}

/// Compares the falling factorial of `mid`, of `r` factors, with the target.
/// The product is built factor by factor and given up as soon as it is above
/// the target.
fn probe(mid: UInt, r: u32, target: UInt) -> (p: Probe)
    requires
        1 <= r < mid@,
    ensures
        p is Below <==> falling_factorial(mid@, r as nat) < target@,
        p is Equal <==> falling_factorial(mid@, r as nat) == target@,
        p is Above <==> falling_factorial(mid@, r as nat) > target@,
{
    let one = UInt::from_u64(1);
    let mut factor = mid;
    let mut product = mid;
    let mut j: u32 = 1;
    proof {
        assert(falling_factorial(mid@, 0) == 1);
        assert(falling_factorial(mid@, 1) == 1 * mid@);
    }
    if product.is_greater(&target) {
        proof {
            lemma_falling_factorial_grows(mid@, 1, r as nat);
        }
        return Probe::Above;
    }
    while j < r
        invariant
            1 <= j <= r < mid@,
            one@ == 1,
            factor@ == mid@ - j + 1,
            product@ == falling_factorial(mid@, j as nat),
            product@ <= target@,
        decreases r - j,
    {
        factor = factor.minus(one);
        j = j + 1;
        proof {
            lemma_falling_factorial_grows(mid@, j as nat, r as nat);
            assert(falling_factorial(mid@, j as nat) == product@ * factor@);
        }
        match product.checked_times(factor) {
            Some(next) => {
                if next.is_greater(&target) {
                    return Probe::Above;
                }
                product = next;
            },
            None => {
                proof {
                    target.lemma_view(target);
                }
                return Probe::Above;
            },
        }
    }
    if product.is_less(&target) {
        Probe::Below
    } else {
        Probe::Equal
    }
}

/// Finds the `m > r` with C(m, r) = k, if there is one.
///
/// The search is a bisection on `m` among r < m < 2^(ceil(log2(k r!) / r) + 2):
/// the falling factorial of `m` grows strictly with `m`, it equals k r!
/// exactly when C(m, r) = k, and no `m` beyond the upper end has a falling
/// factorial as small as k r!.
pub fn find_choose_r(k: UInt, r: u32) -> (found: Option<UInt>)
    requires
        r >= 1,
        solver_fits(k@, r as nat),
    ensures
        match found {
            Some(m) => is_solution(m@, k@, r as nat),
            None => forall|m: nat| !is_solution(m, k@, r as nat),
        },
        match found {
            Some(m) => find_choose_spec(k@, r as nat) == Some(m@),
            None => find_choose_spec(k@, r as nat) is None,
        },
{
    let ghost order = r as nat;
    let ghost goal = scaled_target(k@, order);
    let ghost top = search_upper(goal, order);
    if k.is_zero() {
        proof {
            assert forall|m: nat| !is_solution(m, k@, order) by {
                if order < m {
                    lemma_binomial_positive(m, order);
                }
            }
        }
        return None;
    }
    let target = scale_target(k, r);
    proof {
        lemma_factorial_positive(order);
        assert(k@ * factorial(order) >= 1) by (nonlinear_arith)
            requires
                k@ >= 1,
                factorial(order) >= 1,
        ;
    }
    let one = UInt::from_u64(1);
    let mut hi = upper_end(target, r);
    let mut lo = UInt::from_u64(r as u64 + 1);
    proof {
        lemma2_to64();
    }
    while lo.is_less(&hi)
        invariant
            order == r,
            r >= 1,
            goal == scaled_target(k@, order),
            target@ == goal,
            top == search_upper(goal, order),
            one@ == 1,
            order < lo@,
            hi@ <= top,
            lo@ == order + 1 || falling_factorial((lo@ - 1) as nat, order) < goal,
            hi@ == top || falling_factorial(hi@, order) > goal,
        decreases hi@ - lo@,
    {
        proof {
            lemma2_to64();
            hi.lemma_view(hi);
        }
        let half = hi.minus(lo).shifted_right(1);
        let mid = lo.plus(half);
        match probe(mid, r, target) {
            Probe::Above => {
                hi = mid;
            },
            Probe::Below => {
                lo = mid.plus(one);
            },
            Probe::Equal => {
                proof {
                    lemma_scaled_comparison(mid@, k@, order);
                    assert(is_solution(mid@, k@, order));
                    let w = choose|m: nat| is_solution(m, k@, order);
                    lemma_solution_unique(w, mid@, k@, order);
                }
                return Some(mid);
            },
        }
    }
    proof {
        assert forall|m: nat| !is_solution(m, k@, order) by {
            if is_solution(m, k@, order) {
                lemma_search_range_complete(m, order);
                lemma_scaled_comparison(m, k@, order);
                if m < lo@ {
                    if m < lo@ - 1 {
                        lemma_falling_factorial_strictly_monotonic(m, (lo@ - 1) as nat, order);
                    }
                } else {
                    if hi@ < m {
                        lemma_falling_factorial_strictly_monotonic(hi@, m, order);
                    }
                }
            }
        }
    }
    None
}

/// Whether k = C(m, r) for some `m > r`.
pub fn is_choose_r(k: UInt, r: u32) -> (b: bool)
    requires
        r >= 1,
        solver_fits(k@, r as nat),
    ensures
        b == find_choose_spec(k@, r as nat).is_some(),
{
    find_choose_r(k, r).is_some()
}

} // verus!
