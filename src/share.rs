use vstd::prelude::*;
use vstd::arithmetic::div_mod::{
    lemma_fundamental_div_mod, lemma_fundamental_div_mod_converse, lemma_mod_bound,
};
use crate::model::{ceil_div, corrected_share, share};
use crate::types::{Rate, RATE_SCALE, MAX_VOLUME};

verus! {

/// With `base * amount = q * pool + r`, `r * rate = q2 * pool + r2` and
/// `q * rate + q2 = k * RATE_SCALE + rem`, the share is `k`, plus one unless
/// the division is exact.
proof fn lemma_share_parts(
    base: int,
    amount: int,
    pool: int,
    rate: Rate,
    q: int,
    r: int,
    q2: int,
    r2: int,
    k: int,
    rem: int,
)
    requires
        pool > 0,
        base * amount == q * pool + r,
        0 <= r < pool,
        r * rate.billionths == q2 * pool + r2,
        0 <= r2 < pool,
        q * rate.billionths + q2 == k * RATE_SCALE + rem,
        0 <= rem < RATE_SCALE,
    ensures
        share(base, amount, pool, rate) == if rem != 0 || r2 != 0 {
            k + 1
        } else {
            k
        },
        corrected_share(base, amount, pool, rate) == if 10 * (rem * pool + r2) > pool {
            k + 1
        } else {
            k
        },
        0 <= rem * pool + r2 < pool * RATE_SCALE,
        (rem * pool + r2 > 0) == (rem != 0 || r2 != 0),
{
    let n = rate.billionths as int;
    let s = RATE_SCALE as int;
    let p = base * amount * n;
    assert(p == (q * pool + r) * n) by (nonlinear_arith)
        requires
            base * amount == q * pool + r,
            p == base * amount * n,
    ;
    assert((q * pool + r) * n == (q * n) * pool + r * n) by (nonlinear_arith);
    assert((q * n) * pool + r * n == (q * n + q2) * pool + r2) by (nonlinear_arith)
        requires
            r * n == q2 * pool + r2,
    ;
    assert((q * n + q2) * pool == k * (pool * s) + rem * pool) by (nonlinear_arith)
        requires
            q * n + q2 == k * s + rem,
    ;
    assert(0 <= rem * pool + r2 < pool * s) by (nonlinear_arith)
        requires
            pool > 0,
            0 <= r2 < pool,
            0 <= rem < s,
    ;
    lemma_fundamental_div_mod_converse(p, pool * s, k, rem * pool + r2);
    if rem != 0 {
        assert(rem * pool > 0) by (nonlinear_arith)
            requires
                rem > 0,
                pool > 0,
        ;
    }
    lemma_corrected_parts(base, amount, pool, rate, k, rem * pool + r2);
}

/// With `base * amount * rate = k * pool * RATE_SCALE + rest`, the commission
/// share is `k`, plus one where `rest` exceeds a tenth of `pool`.
proof fn lemma_corrected_parts(base: int, amount: int, pool: int, rate: Rate, k: int, rest: int)
    requires
        pool > 0,
        base * amount * rate.billionths == k * (pool * RATE_SCALE) + rest,
        0 <= rest < pool * RATE_SCALE,
    ensures
        corrected_share(base, amount, pool, rate) == if 10 * rest > pool {
            k + 1
        } else {
            k
        },
{
    let dd = 10 * pool * RATE_SCALE;
    let num = 10 * base * amount * rate.billionths - pool;
    assert(num == k * dd + (10 * rest - pool)) by (nonlinear_arith)
        requires
            base * amount * rate.billionths == k * (pool * RATE_SCALE) + rest,
            num == 10 * base * amount * rate.billionths - pool,
            dd == 10 * pool * RATE_SCALE,
    ;
    assert(pool < dd) by (nonlinear_arith)
        requires
            pool > 0,
            dd == 10 * pool * RATE_SCALE,
    ;
    if 10 * rest - pool >= 0 {
        lemma_fundamental_div_mod_converse(num, dd, k, 10 * rest - pool);
    } else {
        assert(num == (k - 1) * dd + (10 * rest - pool + dd)) by (nonlinear_arith)
            requires
                num == k * dd + (10 * rest - pool),
        ;
        lemma_fundamental_div_mod_converse(num, dd, k - 1, 10 * rest - pool + dd);
    }
    assert(ceil_div(num, dd) == corrected_share(base, amount, pool, rate));
}

/// Nothing is charged on a coin of amount zero.
pub proof fn lemma_zero_amount_shares(base: int, pool: int, rate: Rate)
    requires
        pool >= 0,
    ensures
        share(base, 0, pool, rate) == 0,
        corrected_share(base, 0, pool, rate) == 0,
{
    if pool > 0 {
        let dd = 10 * pool * RATE_SCALE;
        assert(base * 0 == 0);
        assert(10 * base * 0 * rate.billionths == 0) by (nonlinear_arith);
        assert(base * 0 * rate.billionths == 0) by (nonlinear_arith);
        assert(pool < dd) by (nonlinear_arith)
            requires
                pool > 0,
                dd == 10 * pool * RATE_SCALE,
        ;
        lemma_fundamental_div_mod_converse(-pool, dd, -1, dd - pool);
        lemma_fundamental_div_mod_converse(0, pool * RATE_SCALE, 0, 0);
    }
}

/// A share is never negative, and never more than `amount * 2^36`; the
/// commission share is never more than the plain share.
pub proof fn lemma_share_bounds(base: int, amount: int, pool: int, rate: Rate)
    requires
        0 <= base <= pool,
        0 <= amount,
    ensures
        0 <= share(base, amount, pool, rate) <= amount * 0x10_0000_0000,
        0 <= corrected_share(base, amount, pool, rate) <= share(base, amount, pool, rate),
{
    if pool > 0 {
        let n = rate.billionths as int;
        let s = RATE_SCALE as int;
        let x = base * amount;
        let q = x / pool;
        let r = x % pool;
        let q2 = (r * n) / pool;
        let r2 = (r * n) % pool;
        let k = (q * n + q2) / s;
        let rem = (q * n + q2) % s;
        assert(0 <= x <= pool * amount) by (nonlinear_arith)
            requires
                0 <= base <= pool,
                0 <= amount,
                x == base * amount,
        ;
        lemma_fundamental_div_mod(x, pool);
        lemma_mod_bound(x, pool);
        assert(q * pool + r == x && 0 <= r < pool) by (nonlinear_arith)
            requires
                x == pool * (x / pool) + (x % pool),
                q == x / pool,
                r == x % pool,
                0 <= x % pool < pool,
        ;
        assert(0 <= q <= amount) by (nonlinear_arith)
            requires
                q * pool + r == x,
                0 <= r < pool,
                0 <= x <= pool * amount,
        ;
        lemma_fundamental_div_mod(r * n, pool);
        lemma_mod_bound(r * n, pool);
        assert(q2 * pool + r2 == r * n && 0 <= r2 < pool) by (nonlinear_arith)
            requires
                r * n == pool * ((r * n) / pool) + ((r * n) % pool),
                q2 == (r * n) / pool,
                r2 == (r * n) % pool,
                0 <= (r * n) % pool < pool,
        ;
        assert(0 <= q2 <= n) by (nonlinear_arith)
            requires
                q2 * pool + r2 == r * n,
                0 <= r2 < pool,
                0 <= r < pool,
                0 <= n,
        ;
        lemma_fundamental_div_mod(q * n + q2, s);
        lemma_mod_bound(q * n + q2, s);
        assert(k * s + rem == q * n + q2 && 0 <= rem < s) by (nonlinear_arith)
            requires
                q * n + q2 == s * ((q * n + q2) / s) + ((q * n + q2) % s),
                k == (q * n + q2) / s,
                rem == (q * n + q2) % s,
                0 <= (q * n + q2) % s < s,
        ;
        lemma_share_parts(base, amount, pool, rate, q, r, q2, r2, k, rem);
        if amount == 0 {
            assert(x == 0);
            assert(q == 0 && r == 0);
            assert(r * n == 0);
            assert(q2 == 0 && r2 == 0);
            assert(k == 0 && rem == 0);
        } else {
            assert(q * n <= amount * n) by (nonlinear_arith)
                requires
                    0 <= q <= amount,
                    0 <= n,
            ;
            assert(amount * n <= amount * 0xffff_ffff_ffff_ffff) by (nonlinear_arith)
                requires
                    0 <= amount,
                    0 <= n <= 0xffff_ffff_ffff_ffff,
            ;
            assert(0 <= k * s);
            assert(k * s < (amount * 0x10_0000_0000 - 1) * s);
            assert(0 <= k < amount * 0x10_0000_0000 - 1) by (nonlinear_arith)
                requires
                    0 <= k * s < (amount * 0x10_0000_0000 - 1) * s,
                    s == 1_000_000_000,
            ;
        }
    }
}

/// The quotient `k` and remainder `rest` of `base * amount * rate` by
/// `pool * RATE_SCALE`, computed without overflow.
fn share_terms(base: i128, amount: i128, pool: i128, rate: Rate) -> (r: (u128, u128))
    requires
        0 <= base <= pool <= MAX_VOLUME,
        0 <= amount <= MAX_VOLUME,
        pool > 0,
    ensures
        share(base as int, amount as int, pool as int, rate) == if r.1 > 0 {
            r.0 + 1
        } else {
            r.0 as int
        },
        corrected_share(base as int, amount as int, pool as int, rate) == if 10 * r.1 > pool {
            r.0 + 1
        } else {
            r.0 as int
        },
        r.1 < pool * RATE_SCALE,
        r.0 + 1 <= 0x10_0000_0000 * MAX_VOLUME + 1,
{
    let n: u128 = rate.billionths as u128;
    let p: u128 = pool as u128;
    assert((base as int) * (amount as int) < 0x4000_0000_0000_0000_0000_0000_0000_0000) by (
    nonlinear_arith)
        requires
            0 <= base <= MAX_VOLUME,
            0 <= amount <= MAX_VOLUME,
    ;
    let x: u128 = (base as u128) * (amount as u128);
    let q: u128 = x / p;
    let rm: u128 = x % p;
    proof {
        lemma_fundamental_div_mod(x as int, p as int);
    }
    assert(q <= amount) by (nonlinear_arith)
        requires
            q * p + rm == x,
            0 <= rm < p,
            x == base * amount,
            base <= pool,
            p == pool,
            0 <= amount,
    ;
    assert(rm * n < 0x8000_0000_0000_0000_0000_0000_0000_0000) by (nonlinear_arith)
        requires
            rm < p,
            p <= MAX_VOLUME,
            n < 0x1_0000_0000_0000_0000,
    ;
    let y: u128 = rm * n;
    let q2: u128 = y / p;
    let r2: u128 = y % p;
    proof {
        lemma_fundamental_div_mod(y as int, p as int);
    }
    assert(q2 <= n) by (nonlinear_arith)
        requires
            q2 * p + r2 == y,
            y == rm * n,
            rm < p,
            0 <= r2,
    ;
    assert(q * n <= 0x7fff_ffff_ffff_ffff_0000_0000_0000_0000) by (nonlinear_arith)
        requires
            q <= MAX_VOLUME,
            n < 0x1_0000_0000_0000_0000,
    ;
    let m: u128 = q * n + q2;
    let s: u128 = RATE_SCALE as u128;
    let k: u128 = m / s;
    let rem: u128 = m % s;
    proof {
        lemma_fundamental_div_mod(m as int, s as int);
        lemma_share_bounds(base as int, amount as int, pool as int, rate);
        lemma_share_parts(
            base as int,
            amount as int,
            pool as int,
            rate,
            q as int,
            rm as int,
            q2 as int,
            r2 as int,
            k as int,
            rem as int,
        );
    }
    assert(rem * p < 0x4000_0000_0000_0000_0000_0000) by (nonlinear_arith)
        requires
            rem < 1_000_000_000,
            p <= MAX_VOLUME,
    ;
    assert(0x10_0000_0000 * (amount as int) <= 0x10_0000_0000 * MAX_VOLUME) by (nonlinear_arith)
        requires
            amount <= MAX_VOLUME,
    ;
    (k, rem * p + r2)
}

/// The burn share: `ceil(base * rate * amount / pool)`, exactly, in 128-bit integers.
pub fn surcharge_share(base: i128, amount: i128, pool: i128, rate: Rate) -> (r: i128)
    requires
        0 <= base <= pool <= MAX_VOLUME,
        0 <= amount <= MAX_VOLUME,
    ensures
        r == share(base as int, amount as int, pool as int, rate),
{
    if pool == 0 {
        return 0;
    }
    let (k, rest) = share_terms(base, amount, pool, rate);
    if rest > 0 {
        (k + 1) as i128
    } else {
        k as i128
    }
}

/// The commission share: `ceil(base * rate * amount / pool - 1e-10)`, exactly,
/// in 128-bit integers (see `corrected_share`).
pub fn commission_surcharge_share(base: i128, amount: i128, pool: i128, rate: Rate) -> (r: i128)
    requires
        0 <= base <= pool <= MAX_VOLUME,
        0 <= amount <= MAX_VOLUME,
    ensures
        r == corrected_share(base as int, amount as int, pool as int, rate),
{
    if pool == 0 {
        return 0;
    }
    let (k, rest) = share_terms(base, amount, pool, rate);
    assert(rest < 0x4000_0000_0000_0000_0000_0000_0000) by (nonlinear_arith)
        requires
            rest < pool * RATE_SCALE,
            pool <= MAX_VOLUME,
    ;
    if 10 * rest > pool as u128 {
        (k + 1) as i128
    } else {
        k as i128
    }
}

} // verus!
