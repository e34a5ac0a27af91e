//! Mathematical model of the floor square root and the facts about it that
//! the executable code relies on.
use vstd::prelude::*;

verus! {

/// The largest `r` with `r * r <= n`, built up one `n` at a time.
pub open spec fn floor_sqrt(n: nat) -> nat
    decreases n,
{
    if n == 0 {
        0
    } else {
        let r = floor_sqrt((n - 1) as nat);
        if (r + 1) * (r + 1) <= n {
            r + 1
        } else {
            r
        }
    }
}

/// `r` is the floor of the square root of `n`.
pub open spec fn is_floor_sqrt(n: int, r: int) -> bool {
    0 <= r && r * r <= n && n < (r + 1) * (r + 1)
}

/// Exactness: `floor_sqrt(n)` squared does not exceed `n`, and the next integer
/// squared does.
pub proof fn lemma_floor_sqrt_bounds(n: nat)
    ensures
        is_floor_sqrt(n as int, floor_sqrt(n) as int),
    decreases n,
{
    if n > 0 {
        lemma_floor_sqrt_bounds((n - 1) as nat);
        let r = floor_sqrt((n - 1) as nat);
        if (r + 1) * (r + 1) <= n {
            assert((r + 1) * (r + 1) < (r + 2) * (r + 2)) by (nonlinear_arith);
        }
    }
}

/// The floor square root is the only integer whose square, and no more, fits
/// under `n`.
pub proof fn lemma_floor_sqrt_unique(n: nat, x: int)
    requires
        is_floor_sqrt(n as int, x),
    ensures
        x == floor_sqrt(n),
{
    lemma_floor_sqrt_bounds(n);
    let r = floor_sqrt(n) as int;
    if x < r {
        assert((x + 1) * (x + 1) <= r * r) by (nonlinear_arith)
            requires
                0 <= x + 1 <= r,
        ;
    } else if x > r {
        assert((r + 1) * (r + 1) <= x * x) by (nonlinear_arith)
            requires
                0 <= r + 1 <= x,
        ;
    }
}

/// The square root of a perfect square `k * k` is `k`.
pub proof fn lemma_floor_sqrt_of_square(k: nat)
    ensures
        floor_sqrt(k * k) == k,
{
    assert(k * k < (k + 1) * (k + 1)) by (nonlinear_arith);
    lemma_floor_sqrt_unique(k * k, k as int);
}

/// The floor square root never decreases as its argument grows.
pub proof fn lemma_floor_sqrt_monotone(x: nat, y: nat)
    requires
        x <= y,
    ensures
        floor_sqrt(x) <= floor_sqrt(y),
{
    lemma_floor_sqrt_bounds(x);
    lemma_floor_sqrt_bounds(y);
    let rx = floor_sqrt(x) as int;
    let ry = floor_sqrt(y) as int;
    if rx > ry {
        assert((ry + 1) * (ry + 1) <= rx * rx) by (nonlinear_arith)
            requires
                0 <= ry + 1 <= rx,
        ;
    }
}

/// One Newton step `y = (x + a / x) / 2` from any positive `x` lands on or
/// above the root `r`; its distance above `r + 1` shrinks quadratically; and
/// it reaches `r + 1` when `a < r * (r + 1)` only from far away.
pub proof fn lemma_newton_step(a: int, r: int, x: int)
    requires
        is_floor_sqrt(a, r),
        x >= 1,
    ensures
        r <= (x + a / x) / 2,
        2 * x * ((x + a / x) / 2 - (r + 1)) < (x - (r + 1)) * (x - (r + 1)),
        (x + a / x) / 2 >= r + 1 && a < r * (r + 1) ==> (x - (r + 1)) * (x - (r + 1)) >= r + 2,
{
    let q = a / x;
    let y = (x + q) / 2;
    let b = r + 1;
    assert(q * x <= a < q * x + x) by {
        vstd::arithmetic::div_mod::lemma_fundamental_div_mod(a, x);
        assert(x * q == q * x) by (nonlinear_arith);
    }
    assert(q >= 0) by {
        vstd::arithmetic::div_mod::lemma_div_pos_is_pos(a, x);
    }
    assert(x + q >= 2 * r) by (nonlinear_arith)
        requires
            r * r <= a,
            a < q * x + x,
            x >= 1,
            q >= 0,
            r >= 0,
    ;
    assert(2 * x * (y - b) < (x - b) * (x - b)) by (nonlinear_arith)
        requires
            2 * y <= x + q,
            q * x <= a,
            a < b * b,
            x >= 1,
    ;
    if y >= b && a < r * b {
        assert((x - b) * (x - b) >= b + 1) by (nonlinear_arith)
            requires
                x + q >= 2 * b,
                q * x <= a,
                a < r * b,
                b == r + 1,
                x >= 1,
        ;
    }
}

/// The first Newton step from a seed `s` with `s <= r < 2 * s` ends less than
/// a quarter of `r + 1` above `r + 1`.
pub proof fn lemma_newton_first(s: int, b: int, v: int)
    requires
        1 <= s < b <= 2 * s,
        2 * s * v < (s - b) * (s - b),
    ensures
        4 * v < b,
{
    if v > 0 {
        assert(4 * v < b) by (nonlinear_arith)
            requires
                1 <= s < b <= 2 * s,
                2 * s * v < (s - b) * (s - b),
                v > 0,
        ;
    }
}

/// A Newton step from `x = b + u`, with `c * u < b`, ends at `b + v` with
/// `2 * c * c * v < b`.
pub proof fn lemma_newton_progress(b: int, u: int, v: int, c: int)
    requires
        b >= 2,
        u >= -1,
        c >= 1,
        c * u < b,
        2 * (b + u) * v < u * u,
    ensures
        2 * c * c * v < b,
{
    if v > 0 {
        assert(2 * (b + u) * v >= 2 * (b + u)) by (nonlinear_arith)
            requires
                b + u >= 0,
                v >= 1,
        ;
        if u < 2 {
            assert(u * u <= 1) by (nonlinear_arith)
                requires
                    -1 <= u <= 1,
            ;
        }
        assert(u >= 2);
        assert(c * u >= 2) by (nonlinear_arith)
            requires
                c >= 1,
                u >= 2,
        ;
        assert(c * u * (c * u) < b * b) by (nonlinear_arith)
            requires
                0 < c * u < b,
        ;
        assert(2 * b * v < u * u) by (nonlinear_arith)
            requires
                2 * (b + u) * v < u * u,
                u >= 0,
                v > 0,
        ;
        assert(c * c * (2 * b * v) < c * u * (c * u)) by (nonlinear_arith)
            requires
                2 * b * v < u * u,
                c >= 1,
        ;
        assert((2 * c * c * v) * b < b * b) by (nonlinear_arith)
            requires
                c * c * (2 * b * v) < b * b,
        ;
        assert(2 * c * c * v < b) by (nonlinear_arith)
            requires
                (2 * c * c * v) * b < b * b,
                b >= 1,
        ;
    } else {
        assert(2 * c * c * v <= 0) by (nonlinear_arith)
            requires
                c >= 1,
                v <= 0,
        ;
    }
}

/// A seed `s` with `s * s <= a < 4 * s * s` lies at or below the root `r`, and
/// `r` is below `2 * s`.
pub proof fn lemma_seed_brackets_root(a: int, r: int, s: int)
    requires
        is_floor_sqrt(a, r),
        s >= 1,
        s * s <= a < 4 * (s * s),
    ensures
        s <= r < 2 * s,
{
    if s > r {
        assert((r + 1) * (r + 1) <= s * s) by (nonlinear_arith)
            requires
                0 <= r + 1 <= s,
        ;
    }
    if r >= 2 * s {
        assert(4 * (s * s) <= r * r) by (nonlinear_arith)
            requires
                0 <= 2 * s <= r,
        ;
    }
}

/// The quotient `a / x` taken at any `x >= r` stays below `r + 3`.
pub proof fn lemma_quotient_near_root(a: int, r: int, x: int)
    requires
        is_floor_sqrt(a, r),
        r >= 1,
        x >= r,
    ensures
        a / x <= r + 2,
{
    let q = a / x;
    assert(q * x <= a) by {
        vstd::arithmetic::div_mod::lemma_fundamental_div_mod(a, x);
        assert(x * q == q * x) by (nonlinear_arith);
    }
    if q > r + 2 {
        assert((r + 1) * (r + 1) <= (r + 3) * r) by (nonlinear_arith)
            requires
                r >= 1,
        ;
        assert((r + 3) * r <= q * x) by (nonlinear_arith)
            requires
                q >= r + 3,
                x >= r,
                r >= 1,
        ;
    }
}

/// Where the distance `u` above `b` satisfies `2048 * u < b <= 65536`, its
/// square stays below `b + 1`.
pub proof fn lemma_close_enough(b: int, u: int)
    requires
        1 <= b <= 65536,
        u >= -1,
        2048 * u < b,
    ensures
        u * u < b + 1,
{
    if u >= 1 {
        assert(u * u <= 31 * u) by (nonlinear_arith)
            requires
                1 <= u <= 31,
        ;
    } else {
        assert(u * u <= 1) by (nonlinear_arith)
            requires
                -1 <= u <= 0,
        ;
    }
}

/// Once `x` is `r` or `r + 1`, and `r + 1` only where `a >= r * (r + 1)`, the
/// smaller of `x` and `a / x` is `r`.
pub proof fn lemma_final_correction(a: int, r: int, x: int)
    requires
        is_floor_sqrt(a, r),
        r >= 1,
        r <= x <= r + 1,
        x == r + 1 ==> a >= r * (r + 1),
    ensures
        (if x < a / x { x } else { a / x }) == r,
{
    let q = a / x;
    assert(q * x <= a < q * x + x) by {
        vstd::arithmetic::div_mod::lemma_fundamental_div_mod(a, x);
        assert(x * q == q * x) by (nonlinear_arith);
    }
    if x == r {
        assert(q >= r) by (nonlinear_arith)
            requires
                r * r <= a,
                a < q * x + x,
                x == r,
                r >= 1,
        ;
    } else {
        assert(q >= r) by (nonlinear_arith)
            requires
                r * (r + 1) <= a,
                a < q * x + x,
                x == r + 1,
                r >= 1,
        ;
        assert(q <= r) by (nonlinear_arith)
            requires
                q * x <= a,
                a < (r + 1) * (r + 1),
                x == r + 1,
                r >= 1,
        ;
    }
}

} // verus!
