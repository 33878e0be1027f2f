//! Exact proportional shares: `pool * weight / total` without loss of range.

use vstd::prelude::*;
use vstd::arithmetic::div_mod::{
    lemma_div_is_ordered, lemma_fundamental_div_mod, lemma_fundamental_div_mod_converse, lemma_mod_pos_bound,
};
use crate::primitives::Balance;

verus! {

/// What a holder of `weight` out of `total` receives of `pool`: the exact
/// quotient `pool * weight / total`, rounded down. Nothing is received of an
/// empty total.
pub open spec fn share(pool: nat, weight: nat, total: nat) -> nat {
    if total == 0 {
        0
    } else {
        (pool * weight) / total
    }
}

/// A number that is `q` times `d` and a rest below `d` has the quotient `q`.
proof fn lemma_quotient_is(x: int, d: int, q: int, r: int)
    requires
        0 < d,
        0 <= r < d,
        x == q * d + r,
    ensures
        x / d == q,
{
    lemma_fundamental_div_mod_converse(x, d, q, r);
}

/// The quotient of `x * y` by `c` stays below `y` as long as `x` is below
/// `c`.
proof fn lemma_product_bounds_quotient(q: int, c: int, x: int, y: int)
    by (nonlinear_arith)
    requires
        0 <= q,
        0 < c,
        0 <= x < c,
        0 <= y,
        q * c <= x * y,
    ensures
        q <= y,
        y > 0 ==> q < y,
{
}

/// `x * y / c` for `x < c`, by doubling `x` once for every bit of `y` and
/// keeping quotient and remainder apart, so that no intermediate value leaves
/// the range of the type.
fn mul_div_reduced(x: u128, y: u128, c: u128) -> (q: u128)
    requires
        x < c,
    ensures
        q == (x * y) / (c as int),
        q <= y,
{
    let mut n: u128 = y;
    // The term: x * 2^k == tq * c + tr.
    let mut tq: u128 = 0;
    let mut tr: u128 = x;
    // The sum of the terms taken so far: aq * c + ar.
    let mut aq: u128 = 0;
    let mut ar: u128 = 0;
    while n > 0
        invariant
            x < c,
            tr < c,
            ar < c,
            aq * c + ar + (tq * c + tr) * n == x * y,
        decreases n,
    {
        let ghost term: int = tq * c + tr;
        let half: u128 = n / 2;
        if n % 2 == 1 {
            proof {
                assert(term * n == term * (2 * half) + term) by (nonlinear_arith)
                    requires
                        n == 2 * half + 1,
                ;
                assert(term * (2 * half) >= 0) by (nonlinear_arith)
                    requires
                        term >= 0,
                        half >= 0,
                ;
                assert((aq + tq + 1) * c == aq * c + tq * c + c) by (nonlinear_arith);
                assert((aq + tq) * c == aq * c + tq * c) by (nonlinear_arith);
                if ar >= c - tr {
                    lemma_product_bounds_quotient(aq + tq + 1, c as int, x as int, y as int);
                } else {
                    lemma_product_bounds_quotient(aq + tq, c as int, x as int, y as int);
                }
            }
            if ar >= c - tr {
                ar = ar - (c - tr);
                aq = aq + tq + 1;
            } else {
                ar = ar + tr;
                aq = aq + tq;
            }
        } else {
            proof {
                assert(term * n == term * (2 * half)) by (nonlinear_arith)
                    requires
                        n == 2 * half,
                ;
            }
        }
        assert(aq * c + ar + term * (2 * half) == x * y);
        if half > 0 {
            proof {
                assert(term * (2 * half) == (2 * term) * half) by (nonlinear_arith);
                assert((2 * term) * half >= 2 * term) by (nonlinear_arith)
                    requires
                        term >= 0,
                        half >= 1,
                ;
                assert((2 * tq + 1) * c == 2 * (tq * c) + c) by (nonlinear_arith);
                assert((2 * tq) * c == 2 * (tq * c)) by (nonlinear_arith);
                assert(aq * c >= 0) by (nonlinear_arith)
                    requires
                        aq >= 0,
                        c >= 0,
                ;
                if tr >= c - tr {
                    lemma_product_bounds_quotient(2 * tq + 1, c as int, x as int, y as int);
                } else {
                    lemma_product_bounds_quotient(2 * tq, c as int, x as int, y as int);
                }
            }
            if tr >= c - tr {
                tr = tr - (c - tr);
                tq = tq + tq + 1;
            } else {
                tr = tr + tr;
                tq = tq + tq;
            }
        } else {
            proof {
                assert(term * (2 * half) == 0) by (nonlinear_arith)
                    requires
                        half == 0,
                ;
                assert((tq * c + tr) * half == 0) by (nonlinear_arith)
                    requires
                        half == 0,
                ;
            }
        }
        n = half;
    }
    proof {
        assert((tq * c + tr) * n == 0) by (nonlinear_arith)
            requires
                n == 0,
        ;
        lemma_quotient_is(x * y, c as int, aq as int, ar as int);
        assert(aq * c <= x * y);
        lemma_product_bounds_quotient(aq as int, c as int, x as int, y as int);
    }
    aq
}

/// The share of `pool` that falls to `weight` out of `total`, rounded down.
/// Nothing falls to anybody out of an empty total.
///
/// The result is exact for every input: the product `pool * weight` is never
/// formed in the machine's integers. The weight has to be part of the total,
/// so that the share fits the type.
pub fn proportional_share(pool: Balance, weight: Balance, total: Balance) -> (r: Balance)
    requires
        weight <= total,
    ensures
        r == share(pool as nat, weight as nat, total as nat),
        r <= pool,
{
    if total == 0 {
        return 0;
    }
    let whole: u128 = pool / total;
    let rest: u128 = pool % total;
    let low: u128 = mul_div_reduced(rest, weight, total);
    proof {
        let p: int = pool as int;
        let w: int = weight as int;
        let t: int = total as int;
        let rem: int = (rest * weight) % t;
        assert(rest * weight == low * t + rem && 0 <= rem < t) by {
            lemma_fundamental_div_mod(rest * weight, t);
            lemma_mod_pos_bound(rest * weight, t);
            assert(t * low == low * t) by (nonlinear_arith);
        }
        assert(p == whole * t + rest) by {
            lemma_fundamental_div_mod(p, t);
            assert(t * whole == whole * t) by (nonlinear_arith);
        }
        assert(p * w == (whole * w + low) * t + rem) by (nonlinear_arith)
            requires
                p == whole * t + rest,
                rest * w == low * t + rem,
        ;
        lemma_quotient_is(p * w, t, whole * w + low, rem);
        assert(whole * w >= 0) by (nonlinear_arith)
            requires
                whole >= 0,
                w >= 0,
        ;
        assert(whole * w + low <= p) by (nonlinear_arith)
            requires
                (whole * w + low) * t <= p * w,
                0 <= w <= t,
                0 < t,
                0 <= p,
                0 <= whole * w + low,
        ;
    }
    whole * weight + low
}

/// A share falls short of the exact quotient by less than one unit.
pub proof fn lemma_share_error_below_one(pool: nat, weight: nat, total: nat)
    requires
        total > 0,
    ensures
        share(pool, weight, total) * total <= pool * weight,
        pool * weight < (share(pool, weight, total) + 1) * total,
{
    let x: int = (pool * weight) as int;
    let t: int = total as int;
    lemma_fundamental_div_mod(x, t);
    lemma_mod_pos_bound(x, t);
    assert(t * (x / t) == (x / t) * t) by (nonlinear_arith);
    assert((x / t + 1) * t == (x / t) * t + t) by (nonlinear_arith);
}

/// The larger weight never receives the smaller share.
pub proof fn lemma_share_monotonic(pool: nat, a: nat, b: nat, total: nat)
    requires
        a <= b,
    ensures
        share(pool, a, total) <= share(pool, b, total),
{
    if total > 0 {
        assert(pool * a <= pool * b) by (nonlinear_arith)
            requires
                a <= b,
        ;
        lemma_div_is_ordered((pool * a) as int, (pool * b) as int, total as int);
    }
}

/// Two holders of one pool receive in the ratio of their weights, up to the
/// rounding of each share: with weights `a` and `b`, the shares `sa` and `sb`
/// satisfy `-b < sa * b - sb * a < a`.
pub proof fn lemma_share_proportional(pool: nat, a: nat, b: nat, total: nat)
    requires
        total > 0,
        a > 0,
        b > 0,
    ensures
        share(pool, a, total) * b - share(pool, b, total) * a < a,
        share(pool, a, total) * b - share(pool, b, total) * a > -b,
{
    lemma_share_error_below_one(pool, a, total);
    lemma_share_error_below_one(pool, b, total);
    let sa: int = share(pool, a, total) as int;
    let sb: int = share(pool, b, total) as int;
    let p: int = pool as int;
    let t: int = total as int;
    let x: int = a as int;
    let y: int = b as int;
    assert(sa * y - sb * x < x) by (nonlinear_arith)
        requires
            sa * t <= p * x,
            p * y < (sb + 1) * t,
            t > 0,
            x > 0,
            y > 0,
            sa >= 0,
            sb >= 0,
    {
        assert((sa * t) * y <= (p * x) * y);
        assert((p * y) * x < ((sb + 1) * t) * x);
        assert((sa * y - sb * x - x) * t < 0);
    }
    assert(sa * y - sb * x > -y) by (nonlinear_arith)
        requires
            sb * t <= p * y,
            p * x < (sa + 1) * t,
            t > 0,
            x > 0,
            y > 0,
            sa >= 0,
            sb >= 0,
    {
        assert((sb * t) * x <= (p * y) * x);
        assert((p * x) * y < ((sa + 1) * t) * y);
        assert((sa * y - sb * x + y) * t > 0);
    }
}

} // verus!
