//! The integer square root: a log2 seed, four Newton steps and a final
//! correction, proved exact for every `u32`.
use vstd::prelude::*;
use vstd::arithmetic::power2::{
    pow2,
    lemma2_to64,
    lemma_pow2_adds,
    lemma_pow2_pos,
    lemma_pow2_strictly_increases,
};
use vstd::bits::{lemma_u32_shr_is_div, lemma_u32_shl_is_mul};
use crate::store::SqrtStore;
use crate::math::{
    floor_sqrt,
    is_floor_sqrt,
    lemma_close_enough,
    lemma_floor_sqrt_bounds,
    lemma_final_correction,
    lemma_newton_first,
    lemma_newton_progress,
    lemma_newton_step,
    lemma_quotient_near_root,
    lemma_seed_brackets_root,
};

verus! {

/// Square root and base-2 logarithm on unsigned 32-bit integers.
pub struct SqrtContract;

/// Narrowing `val` to `val / 2^k`, while `result` grows by `k`, keeps `value`
/// between `val * 2^result` and `(val + 1) * 2^result`.
proof fn lemma_log2_window(value: nat, val: nat, result: nat, k: nat)
    requires
        val * pow2(result) <= value < (val + 1) * pow2(result),
        val >= pow2(k),
    ensures
        val / pow2(k) >= 1,
        (val / pow2(k)) * pow2(result + k) <= value < (val / pow2(k) + 1) * pow2(result + k),
{
    lemma_pow2_pos(k);
    lemma_pow2_pos(result);
    lemma_pow2_adds(result, k);
    let d = pow2(k) as int;
    let p = pow2(result) as int;
    let q = val as int / d;
    vstd::arithmetic::div_mod::lemma_fundamental_div_mod(val as int, d);
    assert(q >= 1) by {
        vstd::arithmetic::div_mod::lemma_div_non_zero(val as int, d);
    }
    assert(q * d <= val < q * d + d);
    assert(q * (p * d) <= value) by (nonlinear_arith)
        requires
            q * d <= val,
            val * p <= value,
            p >= 1,
    ;
    assert(value < (q + 1) * (p * d)) by (nonlinear_arith)
        requires
            val + 1 <= q * d + d,
            value < (val + 1) * p,
            p >= 1,
    ;
    assert(pow2(result + k) == p * d) by (nonlinear_arith)
        requires
            pow2(result + k) == pow2(result) * pow2(k),
            p == pow2(result),
            d == pow2(k),
    ;
}

/// For `a >= 1` the root lies in `1..=65535`.
proof fn lemma_root_range(a: int, root: int)
    requires
        1 <= a <= u32::MAX,
        is_floor_sqrt(a, root),
    ensures
        1 <= root <= 65535,
{
    if root >= 65536 {
        assert(65536 * 65536 <= root * root) by (nonlinear_arith)
            requires
                root >= 65536,
        ;
    }
}

/// The seed `2^(e / 2)`, with `e = floor(log2(a))`, is at most `2^15` and its
/// square brackets `a` within a factor of four.
proof fn lemma_seed_square(a: u32, e: u32, h: u32)
    requires
        a >= 1,
        pow2(e as nat) <= a < pow2(e as nat + 1),
        e <= 31,
        h == e >> 1,
    ensures
        h <= 15,
        (1u32 << h) == pow2(h as nat),
        1 <= pow2(h as nat) <= 0x8000,
        pow2(h as nat) * pow2(h as nat) <= a < 4 * (pow2(h as nat) * pow2(h as nat)),
{
    lemma2_to64();
    lemma_u32_shr_is_div(e, 1);
    let hn = h as nat;
    if hn < 15 {
        lemma_pow2_strictly_increases(hn, 15);
    }
    lemma_pow2_pos(hn);
    lemma_u32_shl_is_mul(1, h);
    lemma_pow2_adds(hn, hn);
    lemma_pow2_adds(hn + hn, 1);
    lemma_pow2_adds(hn + hn, 2);
    if e as nat == hn + hn + 1 {
        lemma_pow2_adds(hn + hn + 1, 1);
    }
}

/// The first quotient `a / s` stays below `4 * s`.
proof fn lemma_seed_quotient(a: int, s: int)
    requires
        s >= 1,
        a < 4 * (s * s),
    ensures
        a / s < 4 * s,
{
    let q = a / s;
    vstd::arithmetic::div_mod::lemma_fundamental_div_mod(a, s);
    assert(s * q == q * s) by (nonlinear_arith);
    if q >= 4 * s {
        assert(4 * (s * s) <= q * s) by (nonlinear_arith)
            requires
                q >= 4 * s,
                s >= 1,
        ;
    }
}

impl SqrtContract {
    /// The position of the highest set bit of `value`: `floor(log2(value))`,
    /// and 0 for 0.
    pub fn log2(value: u32) -> (r: u32)
        ensures
            value == 0 ==> r == 0,
            value >= 1 ==> pow2(r as nat) <= value < pow2(r as nat + 1),
            r <= 31,
    {
        proof {
            lemma2_to64();
        }
        let mut val = value;
        let mut result: u32 = 0;
        proof {
            lemma_u32_shr_is_div(val, 16);
        }
        if val >> 16 > 0 {
            proof {
                lemma_log2_window(value as nat, val as nat, result as nat, 16);
            }
            val = val >> 16;
            result = result + 16;
        }
        assert(val * pow2(result as nat) <= value < (val + 1) * pow2(result as nat));
        assert(value >= 1 ==> val >= 1);
        assert(val < 0x10000 && result <= 16);
        proof {
            lemma_u32_shr_is_div(val, 8);
        }
        if val >> 8 > 0 {
            proof {
                lemma_log2_window(value as nat, val as nat, result as nat, 8);
            }
            val = val >> 8;
            result = result + 8;
        }
        assert(val * pow2(result as nat) <= value < (val + 1) * pow2(result as nat));
        assert(value >= 1 ==> val >= 1);
        assert(val < 0x100 && result <= 24);
        proof {
            lemma_u32_shr_is_div(val, 4);
        }
        if val >> 4 > 0 {
            proof {
                lemma_log2_window(value as nat, val as nat, result as nat, 4);
            }
            val = val >> 4;
            result = result + 4;
        }
        assert(val * pow2(result as nat) <= value < (val + 1) * pow2(result as nat));
        assert(value >= 1 ==> val >= 1);
        assert(val < 0x10 && result <= 28);
        proof {
            lemma_u32_shr_is_div(val, 2);
        }
        if val >> 2 > 0 {
            proof {
                lemma_log2_window(value as nat, val as nat, result as nat, 2);
            }
            val = val >> 2;
            result = result + 2;
        }
        assert(val * pow2(result as nat) <= value < (val + 1) * pow2(result as nat));
        assert(value >= 1 ==> val >= 1);
        assert(val < 4 && result <= 30);
        proof {
            lemma_u32_shr_is_div(val, 1);
            lemma_pow2_adds(result as nat, 1);
        }
        if val >> 1 > 0 {
            proof {
                lemma_log2_window(value as nat, val as nat, result as nat, 1);
                lemma_pow2_adds(result as nat + 1, 1);
            }
            result = result + 1;
        }
        result
    }

    /// The floor of the square root of `a`: the largest `r` with `r * r <= a`.
    pub fn sqrt(a: u32) -> (r: u32)
        ensures
            r == floor_sqrt(a as nat),
    {
        if a == 0 {
            0
        } else {
            let ghost root = floor_sqrt(a as nat) as int;
            let ghost b = root + 1;
            let e = Self::log2(a);
            let h = e >> 1;
            proof {
                lemma2_to64();
                lemma_floor_sqrt_bounds(a as nat);
                lemma_root_range(a as int, root);
                lemma_seed_square(a, e, h);
            }
            let mut result: u32 = 1 << h;
            let ghost s = result as int;
            proof {
                lemma_seed_brackets_root(a as int, root, s);
                lemma_seed_quotient(a as int, s);
                lemma_newton_step(a as int, root, s);
                assert(result + a / result <= u32::MAX);
                lemma_u32_shr_is_div((result + a / result) as u32, 1);
            }
            result = (result + a / result) >> 1;
            proof {
                lemma_newton_first(s, b, result - b);
                lemma_quotient_near_root(a as int, root, result as int);
                lemma_newton_step(a as int, root, result as int);
                lemma_newton_progress(b, result - b, (result + a / result) / 2 - b, 4);
                assert(result + a / result <= u32::MAX);
                lemma_u32_shr_is_div((result + a / result) as u32, 1);
            }
            result = (result + a / result) >> 1;
            proof {
                lemma_quotient_near_root(a as int, root, result as int);
                lemma_newton_step(a as int, root, result as int);
                lemma_newton_progress(b, result - b, (result + a / result) / 2 - b, 32);
                assert(result + a / result <= u32::MAX);
                lemma_u32_shr_is_div((result + a / result) as u32, 1);
            }
            result = (result + a / result) >> 1;
            proof {
                lemma_quotient_near_root(a as int, root, result as int);
                lemma_newton_step(a as int, root, result as int);
                lemma_newton_progress(b, result - b, (result + a / result) / 2 - b, 2048);
                lemma_close_enough(b, result - b);
                assert(result + a / result <= u32::MAX);
                lemma_u32_shr_is_div((result + a / result) as u32, 1);
            }
            result = (result + a / result) >> 1;
            proof {
                assert(result <= b) by (nonlinear_arith)
                    requires
                        2 * 2048 * 2048 * (result - b) < b,
                        b <= 65536,
                ;
                lemma_final_correction(a as int, root, result as int);
            }
            if result < a / result {
                result
            } else {
                a / result
            }
        }
    }

    /// What a memoized lookup yields for `x` given what the store held under
    /// it: the stored value when there was one, else the computed root and
    /// the request to store it.
    pub fn resolve_cached(stored: Option<u32>, x: u32) -> (r: (u32, bool))
        ensures
            match stored {
                Some(y) => r.0 == y && !r.1,
                None => r.0 == floor_sqrt(x as nat) && r.1,
            },
    {
        match stored {
            Some(y) => (y, false),
            None => (Self::sqrt(x), true),
        }
    }

    /// The square root of `x`, taken from `store` when it is there, and
    /// otherwise computed and written to `store`.
    pub fn sqrt_cached(store: &mut SqrtStore, x: u32) -> (r: u32)
        requires
            old(store).write_count() < u64::MAX,
        ensures
            cached_outcome(*old(store), x, *final(store), r),
    {
        let (y, write) = Self::resolve_cached(store.get(x), x);
        if write {
            store.set(x, y);
        }
        y
    }

}

/// What `sqrt_cached(x)` does: on a store `before` that holds `x` it returns
/// the stored value and leaves the store as it was; on one that does not, it
/// returns the root of `x` and writes it, once, under `x`.
pub open spec fn cached_outcome(before: SqrtStore, x: u32, after: SqrtStore, r: u32) -> bool {
    if before@.contains_key(x) {
        r == before@[x] && after@ == before@ && after.write_count() == before.write_count()
    } else {
        &&& r == floor_sqrt(x as nat)
        &&& after@ == before@.insert(x, r)
        &&& after.write_count() == before.write_count() + 1
    }
}

/// Two calls of `sqrt_cached(x)` in a row, on a store whose entries are all
/// roots of their keys, return the same value, the root of `x`; the second
/// leaves the store and its write count as they were.
pub proof fn lemma_sqrt_cached_idempotent(
    s0: SqrtStore,
    s1: SqrtStore,
    s2: SqrtStore,
    x: u32,
    r1: u32,
    r2: u32,
)
    requires
        s0.is_consistent(),
        cached_outcome(s0, x, s1, r1),
        cached_outcome(s1, x, s2, r2),
    ensures
        r1 == floor_sqrt(x as nat),
        r2 == r1,
        s2@ == s1@,
        s2.write_count() == s1.write_count(),
{
}

/// After a first call of `sqrt_cached(x)` on a store whose entries are all
/// roots of their keys, the store holds the root of `x` under `x`, has taken
/// at most one write, and is still made of roots; a second call writes
/// nothing.
pub proof fn lemma_sqrt_cached_writes_once(
    s0: SqrtStore,
    s1: SqrtStore,
    s2: SqrtStore,
    x: u32,
    r1: u32,
    r2: u32,
)
    requires
        s0.is_consistent(),
        cached_outcome(s0, x, s1, r1),
        cached_outcome(s1, x, s2, r2),
    ensures
        s1@.contains_key(x),
        s1@[x] == floor_sqrt(x as nat),
        s1.is_consistent(),
        s1.write_count() <= s0.write_count() + 1,
        s2.write_count() == s1.write_count(),
        s2@ == s1@,
{
    assert forall|k: u32| #[trigger] s1@.contains_key(k) implies s1@[k] == floor_sqrt(k as nat) by {
        if k != x {
            assert(s0@.contains_key(k));
        }
    }
}

} // verus!
