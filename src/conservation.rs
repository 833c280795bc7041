use vstd::prelude::*;
use crate::model::{at, balanced, burn_of, burn_total, coin_total, commission_of, commission_total, credits, debit_of, debits, delta, issuer_of, not_at, plain, settles, side_total, total};
use crate::tally::{lemma_coin_absent, lemma_coin_ext};
use crate::types::{Balance, Coin, DenomDefinition, MultiSend};

verus! {

/// Sum of `f` over a sequence of addresses.
pub open spec fn sum_over(addrs: Seq<Seq<char>>, f: spec_fn(Seq<char>) -> int) -> int
    decreases addrs.len(),
{
    if addrs.len() == 0 {
        0
    } else {
        sum_over(addrs.drop_last(), f) + f(addrs.last())
    }
}

proof fn lemma_sum_concat(a: Seq<Seq<char>>, b: Seq<Seq<char>>, f: spec_fn(Seq<char>) -> int)
    ensures
        sum_over(a + b, f) == sum_over(a, f) + sum_over(b, f),
    decreases b.len(),
{
    if b.len() > 0 {
        lemma_sum_concat(a, b.drop_last(), f);
        assert((a + b).drop_last() =~= a + b.drop_last());
        assert((a + b).last() == b.last());
    } else {
        assert(a + b =~= a);
    }
}

proof fn lemma_sum_zero(a: Seq<Seq<char>>, f: spec_fn(Seq<char>) -> int)
    requires
        forall|i: int| 0 <= i < a.len() ==> f(#[trigger] a[i]) == 0,
    ensures
        sum_over(a, f) == 0,
    decreases a.len(),
{
    if a.len() > 0 {
        let r = a.drop_last();
        assert forall|i: int| 0 <= i < r.len() implies f(#[trigger] r[i]) == 0 by {
            assert(r[i] == a[i]);
        }
        lemma_sum_zero(r, f);
        assert(f(a[a.len() - 1]) == 0);
    }
}

proof fn lemma_sum_add(
    a: Seq<Seq<char>>,
    f: spec_fn(Seq<char>) -> int,
    g: spec_fn(Seq<char>) -> int,
    h: spec_fn(Seq<char>) -> int,
)
    requires
        forall|x: Seq<char>| #[trigger] f(x) == g(x) + h(x),
    ensures
        sum_over(a, f) == sum_over(a, g) + sum_over(a, h),
    decreases a.len(),
{
    if a.len() > 0 {
        lemma_sum_add(a.drop_last(), f, g, h);
    }
}

proof fn lemma_sum_net(
    a: Seq<Seq<char>>,
    f: spec_fn(Seq<char>) -> int,
    g: spec_fn(Seq<char>) -> int,
    h: spec_fn(Seq<char>) -> int,
    k: spec_fn(Seq<char>) -> int,
)
    requires
        forall|x: Seq<char>| #[trigger] f(x) == g(x) - h(x) + k(x),
    ensures
        sum_over(a, f) == sum_over(a, g) - sum_over(a, h) + sum_over(a, k),
    decreases a.len(),
{
    if a.len() > 0 {
        lemma_sum_net(a.drop_last(), f, g, h, k);
    }
}

/// Over distinct addresses that include `x`, a quantity carried by `x` alone sums to itself.
proof fn lemma_sum_single(a: Seq<Seq<char>>, x: Seq<char>, f: spec_fn(Seq<char>) -> int)
    requires
        a.no_duplicates(),
        a.contains(x),
        forall|y: Seq<char>| y != x ==> #[trigger] f(y) == 0,
    ensures
        sum_over(a, f) == f(x),
    decreases a.len(),
{
    let r = a.drop_last();
    assert(r.no_duplicates());
    if a.last() == x {
        assert forall|i: int| 0 <= i < r.len() implies f(#[trigger] r[i]) == 0 by {
            assert(r[i] == a[i]);
            assert(a[i] != a[a.len() - 1]);
        }
        lemma_sum_zero(r, f);
    } else {
        let i = choose|i: int| 0 <= i < a.len() && a[i] == x;
        assert(i < a.len() - 1);
        assert(r[i] == x);
        lemma_sum_single(r, x, f);
    }
}

/// Sum over balances of what their coins of `d` count for, each balance with
/// the cost that its address selects.
pub open spec fn side_total_by(
    side: Seq<Balance>,
    d: Seq<char>,
    cost: spec_fn(Seq<char>) -> spec_fn(int) -> int,
) -> int
    decreases side.len(),
{
    if side.len() == 0 {
        0
    } else {
        side_total_by(side.drop_last(), d, cost) + coin_total(
            side.last().coins@,
            d,
            cost(side.last().address@),
        )
    }
}

pub open spec fn addresses(side: Seq<Balance>) -> Seq<Seq<char>> {
    side.map_values(|b: Balance| b.address@)
}

/// Summing the share of each address over distinct addresses that include
/// every address of `side` gives the total of the side.
proof fn lemma_sum_by_address(
    addrs: Seq<Seq<char>>,
    side: Seq<Balance>,
    d: Seq<char>,
    cost: spec_fn(Seq<char>) -> spec_fn(int) -> int,
)
    requires
        addrs.no_duplicates(),
        forall|i: int| 0 <= i < side.len() ==> addrs.contains(#[trigger] side[i].address@),
    ensures
        sum_over(addrs, |a: Seq<char>| side_total(side, d, at(a), cost(a))) == side_total_by(
            side,
            d,
            cost,
        ),
    decreases side.len(),
{
    let whole = |a: Seq<char>| side_total(side, d, at(a), cost(a));
    if side.len() == 0 {
        lemma_sum_zero(addrs, whole);
    } else {
        let rest = side.drop_last();
        let b = side.last();
        assert forall|i: int| 0 <= i < rest.len() implies addrs.contains(
            #[trigger] rest[i].address@,
        ) by {
            assert(rest[i] == side[i]);
        }
        lemma_sum_by_address(addrs, rest, d, cost);
        let before = |a: Seq<char>| side_total(rest, d, at(a), cost(a));
        let own = |a: Seq<char>|
            if a == b.address@ {
                coin_total(b.coins@, d, cost(a))
            } else {
                0
            };
        assert(addrs.contains(side[side.len() - 1].address@));
        lemma_sum_single(addrs, b.address@, own);
        lemma_sum_add(addrs, whole, before, own);
    }
}

/// Coins of distinct denominations add up, in `d`, to the amount of the coin
/// of `d`, or to zero where there is none.
proof fn lemma_distinct_coins(coins: Seq<Coin>, d: Seq<char>, j: int)
    requires
        forall|a: int, b: int| 0 <= a < b < coins.len() ==> coins[a].denom@ != coins[b].denom@,
        0 <= j < coins.len(),
        coins[j].denom@ == d,
    ensures
        coin_total(coins, d, plain()) == coins[j].amount,
    decreases coins.len(),
{
    let rest = coins.drop_last();
    if j == coins.len() - 1 {
        assert forall|k: int| 0 <= k < rest.len() implies #[trigger] rest[k].denom@ != d by {
            assert(rest[k] == coins[k]);
        }
        lemma_coin_absent(rest, d, plain());
    } else {
        assert(rest[j] == coins[j]);
        assert(coins.last().denom@ != d);
        lemma_distinct_coins(rest, d, j);
    }
}

/// Each balance of `result` lists distinct denominations, each with the net
/// change of its address, and lists `d` wherever that change is nonzero.
pub open spec fn rows_exact(result: Seq<Balance>, tx: MultiSend, defs: Seq<DenomDefinition>, d: Seq<char>) -> bool {
    forall|i: int|
        #![trigger result[i]]
        0 <= i < result.len() ==> {
            &&& forall|j: int, k: int|
                0 <= j < k < result[i].coins@.len() ==> result[i].coins@[j].denom@
                    != result[i].coins@[k].denom@
            &&& forall|j: int|
                0 <= j < result[i].coins@.len() ==> #[trigger] result[i].coins@[j].amount == delta(
                    tx,
                    defs,
                    result[i].address@,
                    result[i].coins@[j].denom@,
                )
            &&& delta(tx, defs, result[i].address@, d) != 0 ==> exists|j: int|
                0 <= j < result[i].coins@.len() && result[i].coins@[j].denom@ == d
        }
}

/// The entries of `result` in `d` add up to the sum of the net changes of its addresses.
proof fn lemma_result_total(result: Seq<Balance>, tx: MultiSend, defs: Seq<DenomDefinition>, d: Seq<char>)
    requires
        rows_exact(result, tx, defs, d),
    ensures
        total(result, d) == sum_over(addresses(result), |a: Seq<char>| delta(tx, defs, a, d)),
    decreases result.len(),
{
    let f = |a: Seq<char>| delta(tx, defs, a, d);
    if result.len() > 0 {
        let rest = result.drop_last();
        let n = result.len() - 1;
        let b = result[n];
        assert(rows_exact(rest, tx, defs, d)) by {
            assert forall|i: int| 0 <= i < rest.len() implies #[trigger] rest[i] == result[i] by {}
        }
        lemma_result_total(rest, tx, defs, d);
        assert(addresses(result).drop_last() =~= addresses(rest));
        assert(addresses(result).last() == b.address@);
        assert(result.last() == b);
        if exists|j: int| 0 <= j < b.coins@.len() && b.coins@[j].denom@ == d {
            let j = choose|j: int| 0 <= j < b.coins@.len() && b.coins@[j].denom@ == d;
            lemma_distinct_coins(b.coins@, d, j);
            assert(b.coins@[j].amount == delta(tx, defs, b.address@, d));
        } else {
            assert forall|k: int| 0 <= k < b.coins@.len() implies #[trigger] b.coins@[k].denom@ != d by {}
            lemma_coin_absent(b.coins@, d, plain());
        }
    } else {
        assert(addresses(result).len() == 0);
    }
}

/// Keeps, once each, the addresses of `addrs` that `taken` lacks.
pub open spec fn fresh(addrs: Seq<Seq<char>>, taken: Seq<Seq<char>>) -> Seq<Seq<char>>
    decreases addrs.len(),
{
    if addrs.len() == 0 {
        Seq::empty()
    } else {
        let e = fresh(addrs.drop_last(), taken);
        let x = addrs.last();
        if taken.contains(x) || e.contains(x) {
            e
        } else {
            e.push(x)
        }
    }
}

proof fn lemma_fresh(addrs: Seq<Seq<char>>, taken: Seq<Seq<char>>)
    ensures
        fresh(addrs, taken).no_duplicates(),
        forall|x: Seq<char>| #[trigger] fresh(addrs, taken).contains(x) ==> !taken.contains(x),
        forall|i: int|
            0 <= i < addrs.len() && !taken.contains(#[trigger] addrs[i]) ==> fresh(addrs, taken).contains(addrs[i]),
    decreases addrs.len(),
{
    if addrs.len() > 0 {
        let r = addrs.drop_last();
        lemma_fresh(r, taken);
        let e = fresh(r, taken);
        let x = addrs.last();
        if !(taken.contains(x) || e.contains(x)) {
            let e2 = e.push(x);
            assert forall|a: int, b: int| 0 <= a < b < e2.len() implies e2[a] != e2[b] by {
                if b == e2.len() - 1 {
                    assert(e2[a] == e[a]);
                }
            }
            assert forall|y: Seq<char>| #[trigger] e2.contains(y) implies !taken.contains(y) by {
                let k = choose|k: int| 0 <= k < e2.len() && e2[k] == y;
                if k < e.len() {
                    assert(e[k] == y);
                    assert(e.contains(y));
                } else {
                    assert(y == x);
                }
            }
            assert forall|i: int|
                0 <= i < addrs.len() && !taken.contains(#[trigger] addrs[i]) implies e2.contains(addrs[i]) by {
                if i < addrs.len() - 1 {
                    assert(r[i] == addrs[i]);
                    let k = choose|k: int| 0 <= k < e.len() && e[k] == addrs[i];
                    assert(e2[k] == addrs[i]);
                } else {
                    assert(e2[e.len() as int] == x);
                }
            }
        } else {
            assert forall|i: int|
                0 <= i < addrs.len() && !taken.contains(#[trigger] addrs[i]) implies e.contains(addrs[i]) by {
                if i < addrs.len() - 1 {
                    assert(r[i] == addrs[i]);
                }
            }
        }
    }
}

proof fn lemma_sum_ext(a: Seq<Seq<char>>, f: spec_fn(Seq<char>) -> int, g: spec_fn(Seq<char>) -> int)
    requires
        forall|x: Seq<char>| #[trigger] f(x) == g(x),
    ensures
        sum_over(a, f) == sum_over(a, g),
    decreases a.len(),
{
    if a.len() > 0 {
        lemma_sum_ext(a.drop_last(), f, g);
    }
}

proof fn lemma_coin_add3(
    coins: Seq<Coin>,
    d: Seq<char>,
    f: spec_fn(int) -> int,
    g: spec_fn(int) -> int,
    h: spec_fn(int) -> int,
    k: spec_fn(int) -> int,
)
    requires
        forall|x: int| #[trigger] f(x) == g(x) + h(x) + k(x),
    ensures
        coin_total(coins, d, f) == coin_total(coins, d, g) + coin_total(coins, d, h) + coin_total(
            coins,
            d,
            k,
        ),
    decreases coins.len(),
{
    if coins.len() > 0 {
        lemma_coin_add3(coins.drop_last(), d, f, g, h, k);
    }
}

/// What each sender pays in `d`, by address.
pub open spec fn payer_costs(tx: MultiSend, defs: Seq<DenomDefinition>, d: Seq<char>) -> spec_fn(Seq<char>) -> spec_fn(int) -> int {
    |a: Seq<char>| debit_of(tx, defs, a, d)
}

/// What senders pay is what they send, plus the burn and the commission.
proof fn lemma_payments(side: Seq<Balance>, tx: MultiSend, defs: Seq<DenomDefinition>, d: Seq<char>)
    ensures
        side_total_by(side, d, payer_costs(tx, defs, d)) == total(side, d) + side_total(
            side,
            d,
            not_at(issuer_of(defs, d)),
            burn_of(tx, defs, d),
        ) + side_total(side, d, not_at(issuer_of(defs, d)), commission_of(tx, defs, d)),
    decreases side.len(),
{
    if side.len() > 0 {
        lemma_payments(side.drop_last(), tx, defs, d);
        let b = side.last();
        let iss = issuer_of(defs, d);
        if b.address@ == iss {
            lemma_coin_ext(b.coins@, d, debit_of(tx, defs, b.address@, d), plain());
        } else {
            lemma_coin_add3(
                b.coins@,
                d,
                debit_of(tx, defs, b.address@, d),
                plain(),
                burn_of(tx, defs, d),
                commission_of(tx, defs, d),
            );
        }
    }
}

pub open spec fn amounts() -> spec_fn(Seq<char>) -> spec_fn(int) -> int {
    |a: Seq<char>| plain()
}

proof fn lemma_receipts(side: Seq<Balance>, d: Seq<char>)
    ensures
        side_total_by(side, d, amounts()) == total(side, d),
    decreases side.len(),
{
    if side.len() > 0 {
        lemma_receipts(side.drop_last(), d);
    }
}

/// A settling result is exact for each denomination on its own.
proof fn lemma_rows_exact(result: Seq<Balance>, tx: MultiSend, defs: Seq<DenomDefinition>, d: Seq<char>)
    requires
        settles(result, tx, defs),
    ensures
        rows_exact(result, tx, defs, d),
{
    assert forall|i: int| 0 <= i < result.len() && delta(tx, defs, result[i].address@, d) != 0 implies exists|j: int|
        0 <= j < result[i].coins@.len() && #[trigger] result[i].coins@[j].denom@ == d by {
        let (i2, j) = choose|i2: int, j: int|
            0 <= i2 < result.len() && 0 <= j < result[i2].coins@.len() && result[i2].address@
                == result[i].address@ && result[i2].coins@[j].denom@ == d;
        assert(i2 == i);
    }
    assert forall|i: int, j: int| 0 <= i < result.len() && 0 <= j < result[i].coins@.len() implies
        #[trigger] result[i].coins@[j].amount == delta(tx, defs, result[i].address@, result[i].coins@[j].denom@) by {
        let c = result[i].coins@[j];
        assert(c.amount == delta(tx, defs, result[i].address@, c.denom@));
    }
}

/// Conservation: in every denomination, what the accounts of a settled
/// transfer gain falls short of what they lose by exactly the burn. Credits
/// (outputs and the issuer's commission) plus the burn equal the debits.
pub proof fn lemma_conservation(result: Seq<Balance>, tx: MultiSend, defs: Seq<DenomDefinition>, d: Seq<char>)
    requires
        balanced(tx),
        settles(result, tx, defs),
    ensures
        total(result, d) + burn_total(tx, defs, d) == 0,
{
    let iss = issuer_of(defs, d);
    let r = addresses(result);
    let p = addresses(tx.inputs@) + addresses(tx.outputs@) + seq![iss];
    let e = fresh(p, r);
    let u = r + e;
    let net = |a: Seq<char>| delta(tx, defs, a, d);
    lemma_rows_exact(result, tx, defs, d);
    lemma_result_total(result, tx, defs, d);
    lemma_fresh(p, r);
    assert(r.no_duplicates()) by {
        assert forall|a: int, b: int| 0 <= a < b < r.len() implies r[a] != r[b] by {
            assert(r[a] == result[a].address@ && r[b] == result[b].address@);
        }
    }
    assert(u.no_duplicates()) by {
        assert forall|a: int, b: int| 0 <= a < b < u.len() implies u[a] != u[b] by {
            if b < r.len() {
            } else if a >= r.len() {
                assert(u[a] == e[a - r.len()] && u[b] == e[b - r.len()]);
            } else {
                assert(u[b] == e[b - r.len()]);
                assert(e.contains(u[b]));
                assert(r.contains(u[a]));
            }
        }
    }
    assert forall|x: Seq<char>| p.contains(x) implies #[trigger] u.contains(x) by {
        let i = choose|i: int| 0 <= i < p.len() && p[i] == x;
        if r.contains(x) {
            let k = choose|k: int| 0 <= k < r.len() && r[k] == x;
            assert(u[k] == x);
        } else {
            assert(e.contains(p[i]));
            let k = choose|k: int| 0 <= k < e.len() && e[k] == x;
            assert(u[r.len() + k] == x);
        }
    }
    // The fresh addresses change nothing.
    assert forall|i: int| 0 <= i < e.len() implies net(#[trigger] e[i]) == 0 by {
        assert(e.contains(e[i]));
        if delta(tx, defs, e[i], d) != 0 {
            let (k, j) = choose|k: int, j: int|
                0 <= k < result.len() && 0 <= j < result[k].coins@.len() && result[k].address@
                    == e[i] && result[k].coins@[j].denom@ == d;
            assert(r[k] == e[i]);
        }
    }
    lemma_sum_zero(e, net);
    lemma_sum_concat(r, e, net);
    // Every address that sends or receives is counted.
    assert forall|i: int| 0 <= i < tx.inputs@.len() implies u.contains(#[trigger] tx.inputs@[i].address@) by {
        assert(p[i] == tx.inputs@[i].address@);
        assert(p.contains(p[i]));
    }
    assert forall|i: int| 0 <= i < tx.outputs@.len() implies u.contains(#[trigger] tx.outputs@[i].address@) by {
        let k = tx.inputs@.len() + i;
        assert(p[k] == tx.outputs@[i].address@);
        assert(p.contains(p[k]));
    }
    assert(p[p.len() - 1] == iss);
    assert(u.contains(iss));
    let gained = |a: Seq<char>| credits(tx, a, d);
    let paid = |a: Seq<char>| debits(tx, defs, a, d);
    let commission = |a: Seq<char>|
        if a == iss {
            commission_total(tx, defs, d)
        } else {
            0
        };
    lemma_sum_net(u, net, gained, paid, commission);
    lemma_sum_single(u, iss, commission);
    lemma_sum_by_address(u, tx.outputs@, d, amounts());
    lemma_sum_ext(u, gained, |a: Seq<char>| side_total(tx.outputs@, d, at(a), amounts()(a)));
    lemma_receipts(tx.outputs@, d);
    lemma_sum_by_address(u, tx.inputs@, d, payer_costs(tx, defs, d));
    lemma_sum_ext(
        u,
        paid,
        |a: Seq<char>| side_total(tx.inputs@, d, at(a), payer_costs(tx, defs, d)(a)),
    );
    lemma_payments(tx.inputs@, tx, defs, d);
    assert(total(tx.inputs@, d) == total(tx.outputs@, d));
}

} // verus!
