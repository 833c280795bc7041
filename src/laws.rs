use vstd::prelude::*;
use crate::model::{accepted, amounts_nonneg, burn_of, burn_total, credits, all_defined, at, balanced, burn_share, coin_short, coin_total, commission_of, commission_share, debit, debit_of, debits, def_of, delta, except, find_balance, held, input_fails, issuer_of, non_issuer_total, not_at, plain, settles, side_total, surcharge_base, total, within_limits};
use crate::conservation::lemma_conservation;
use crate::share::{lemma_share_bounds, lemma_zero_amount_shares};
use crate::tally::{lemma_side_bound, lemma_side_ext, scaled_by};
use crate::types::{Balance, Coin, DenomDefinition, MultiSend};

verus! {

/// Amount of `d` sent by the balances of `addr` alone.
pub open spec fn own_total(side: Seq<Balance>, d: Seq<char>, addr: Seq<char>) -> int {
    side_total(side, d, at(addr), plain())
}

/// The non-issuer volume of a denomination is its whole volume less what the
/// issuer's own balances move: nothing else is left out, and nothing of the
/// issuer's is counted.
pub proof fn lemma_issuer_excluded(side: Seq<Balance>, d: Seq<char>, issuer: Seq<char>)
    ensures
        non_issuer_total(side, d, issuer) == total(side, d) - own_total(side, d, issuer),
    decreases side.len(),
{
    if side.len() > 0 {
        lemma_issuer_excluded(side.drop_last(), d, issuer);
    }
}

/// The issuer of a denomination pays exactly what it sends of it: no burn and
/// no commission.
pub proof fn lemma_issuer_pays_no_surcharge(tx: MultiSend, defs: Seq<DenomDefinition>, d: Seq<char>)
    ensures
        forall|x: int| #[trigger] debit(tx, defs, issuer_of(defs, d), d, x) == x,
        debits(tx, defs, issuer_of(defs, d), d) == own_total(tx.inputs@, d, issuer_of(defs, d)),
{
    let iss = issuer_of(defs, d);
    lemma_side_ext(
        tx.inputs@,
        d,
        at(iss),
        debit_of(tx, defs, iss, d),
        at(iss),
        plain(),
    );
}

/// Burn and commission shares of a coin are never negative.
pub proof fn lemma_shares_nonneg(tx: MultiSend, defs: Seq<DenomDefinition>, d: Seq<char>, amount: int)
    requires
        within_limits(tx),
        amount >= 0,
    ensures
        burn_share(tx, defs, d, amount) >= 0,
        commission_share(tx, defs, d, amount) >= 0,
{
    let iss = issuer_of(defs, d);
    let id = plain();
    assert(scaled_by(id, 1));
    lemma_side_bound(tx.inputs@, d, except(Some(iss)), id, 1);
    lemma_side_bound(tx.outputs@, d, except(Some(iss)), id, 1);
    let base = surcharge_base(tx, defs, d);
    let pool = non_issuer_total(tx.inputs@, d, iss);
    lemma_share_bounds(base, amount, pool, def_of(defs, d).unwrap().burn_rate);
    lemma_share_bounds(base, amount, pool, def_of(defs, d).unwrap().commission_rate);
}

pub open spec fn all_zero(side: Seq<Balance>) -> bool {
    forall|i: int, j: int|
        0 <= i < side.len() && 0 <= j < side[i].coins@.len() ==> side[i].coins@[j].amount == 0
}

proof fn lemma_zero_coins(coins: Seq<Coin>, d: Seq<char>, f: spec_fn(int) -> int)
    requires
        forall|j: int| 0 <= j < coins.len() ==> #[trigger] coins[j].amount == 0,
        f(0) == 0,
    ensures
        coin_total(coins, d, f) == 0,
    decreases coins.len(),
{
    if coins.len() > 0 {
        let rest = coins.drop_last();
        assert forall|j: int| 0 <= j < rest.len() implies #[trigger] rest[j].amount == 0 by {
            assert(rest[j] == coins[j]);
        }
        lemma_zero_coins(rest, d, f);
    }
}

proof fn lemma_zero_side(side: Seq<Balance>, d: Seq<char>, who: spec_fn(Seq<char>) -> bool, f: spec_fn(int) -> int)
    requires
        all_zero(side),
        f(0) == 0,
    ensures
        side_total(side, d, who, f) == 0,
    decreases side.len(),
{
    if side.len() > 0 {
        let rest = side.drop_last();
        assert forall|i: int, j: int|
            0 <= i < rest.len() && 0 <= j < rest[i].coins@.len() implies rest[i].coins@[j].amount
            == 0 by {
            assert(rest[i] == side[i]);
        }
        lemma_zero_side(rest, d, who, f);
        let last = side.last();
        assert forall|j: int| 0 <= j < last.coins@.len() implies #[trigger] last.coins@[j].amount
            == 0 by {
            assert(last == side[side.len() - 1]);
        }
        lemma_zero_coins(last.coins@, d, f);
    }
}

/// Every input account has a balance, with an entry holding no negative amount
/// for each denomination it sends.
pub open spec fn senders_funded(balances: Seq<Balance>, tx: MultiSend) -> bool {
    forall|i: int|
        #![trigger tx.inputs@[i]]
        0 <= i < tx.inputs@.len() ==> {
            &&& find_balance(balances, tx.inputs@[i].address@) is Some
            &&& forall|j: int|
                0 <= j < tx.inputs@[i].coins@.len() ==> match held(
                    find_balance(balances, tx.inputs@[i].address@).unwrap().coins@,
                    #[trigger] tx.inputs@[i].coins@[j].denom@,
                ) {
                    Some(h) => h >= 0,
                    None => false,
                }
        }
}

proof fn lemma_zero_shares(tx: MultiSend, defs: Seq<DenomDefinition>)
    requires
        all_zero(tx.inputs@),
    ensures
        forall|d: Seq<char>, x: int|
            x == 0 ==> #[trigger] burn_share(tx, defs, d, x) == 0 && commission_share(tx, defs, d, x) == 0,
{
    assert forall|d: Seq<char>, x: int| x == 0 implies #[trigger] burn_share(tx, defs, d, x) == 0
        && commission_share(tx, defs, d, x) == 0 by {
        let iss = issuer_of(defs, d);
        let base = surcharge_base(tx, defs, d);
        let pool = non_issuer_total(tx.inputs@, d, iss);
        lemma_zero_side(tx.inputs@, d, except(Some(iss)), plain());
        lemma_zero_amount_shares(base, pool, def_of(defs, d).unwrap().burn_rate);
        lemma_zero_amount_shares(base, pool, def_of(defs, d).unwrap().commission_rate);
    }
}

/// A transfer whose amounts are all zero is settled, whatever the rates,
/// provided its denominations are defined and each sender has an entry for
/// what it sends, holding no negative amount.
pub proof fn lemma_zero_transfer_accepted(balances: Seq<Balance>, defs: Seq<DenomDefinition>, tx: MultiSend)
    requires
        all_zero(tx.inputs@),
        all_zero(tx.outputs@),
        all_defined(tx.inputs@, defs),
        all_defined(tx.outputs@, defs),
        senders_funded(balances, tx),
    ensures
        accepted(balances, defs, tx),
{
    assert forall|d: Seq<char>| #[trigger] total(tx.inputs@, d) == total(tx.outputs@, d) by {
        lemma_zero_side(tx.inputs@, d, except(None), plain());
        lemma_zero_side(tx.outputs@, d, except(None), plain());
    }
    assert(balanced(tx));
    lemma_zero_shares(tx, defs);
    assert forall|i: int| !#[trigger] input_fails(balances, defs, tx, i) by {
        if 0 <= i < tx.inputs@.len() {
            assert(find_balance(balances, tx.inputs@[i].address@) is Some);
            assert forall|j: int| !coin_short(balances, defs, tx, i, j) by {
                if 0 <= j < tx.inputs@[i].coins@.len() {
                    let c = tx.inputs@[i].coins@[j];
                    assert(c.amount == 0);
                    assert(burn_share(tx, defs, c.denom@, 0) == 0);
                    assert(held(
                        find_balance(balances, tx.inputs@[i].address@).unwrap().coins@,
                        c.denom@,
                    ) is Some);
                }
            }
        }
    }
}

/// A transfer whose amounts are all zero changes no holding, whatever the rates.
pub proof fn lemma_zero_transfer_no_change(tx: MultiSend, defs: Seq<DenomDefinition>)
    requires
        all_zero(tx.inputs@),
        all_zero(tx.outputs@),
    ensures
        forall|a: Seq<char>, d: Seq<char>| #[trigger] delta(tx, defs, a, d) == 0,
{
    lemma_zero_shares(tx, defs);
    assert forall|a: Seq<char>, d: Seq<char>| #[trigger] delta(tx, defs, a, d) == 0 by {
        assert(burn_share(tx, defs, d, 0) == 0);
        lemma_zero_side(tx.inputs@, d, at(a), debit_of(tx, defs, a, d));
        lemma_zero_side(tx.outputs@, d, at(a), plain());
        let iss = issuer_of(defs, d);
        lemma_zero_side(tx.inputs@, d, not_at(iss), commission_of(tx, defs, d));
    }
}

/// The only result that settles a transfer whose amounts are all zero is empty.
pub proof fn lemma_zero_transfer(tx: MultiSend, defs: Seq<DenomDefinition>, result: Seq<Balance>)
    requires
        all_zero(tx.inputs@),
        all_zero(tx.outputs@),
        settles(result, tx, defs),
    ensures
        result.len() == 0,
{
    lemma_zero_transfer_no_change(tx, defs);
    if result.len() > 0 {
        assert(result[0].coins@.len() > 0);
        let c = result[0].coins@[0];
        assert(c.amount != 0 && c.amount == delta(tx, defs, result[0].address@, c.denom@));
    }
}

proof fn lemma_push_step(
    side: Seq<Balance>,
    b: Balance,
    d: Seq<char>,
    who: spec_fn(Seq<char>) -> bool,
    f: spec_fn(int) -> int,
)
    requires
        b.coins@.len() == 1,
    ensures
        side_total(side.push(b), d, who, f) == side_total(side, d, who, f) + if who(b.address@)
            && b.coins@[0].denom@ == d {
            f(b.coins@[0].amount as int)
        } else {
            0
        },
{
    assert(side.push(b).drop_last() =~= side);
    assert(b.coins@.drop_last().len() == 0);
    assert(coin_total(b.coins@, d, f) == coin_total(b.coins@.drop_last(), d, f) + if b.coins@.last().denom@ == d {
        f(b.coins@.last().amount as int)
    } else {
        0
    });
}

/// Adding one coin of `d` sent by its issuer to itself, as one more input and
/// one more output, changes no net change of any account in any denomination,
/// so exactly the same results settle both transfers: the issuer's own volume
/// carries no surcharge and takes no part in the shares of others.
pub proof fn lemma_issuer_round_trip(
    tx: MultiSend,
    tx2: MultiSend,
    defs: Seq<DenomDefinition>,
    d: Seq<char>,
    b: Balance,
    result: Seq<Balance>,
)
    requires
        b.address@ == issuer_of(defs, d),
        b.coins@.len() == 1,
        b.coins@[0].denom@ == d,
        tx2.inputs@ == tx.inputs@.push(b),
        tx2.outputs@ == tx.outputs@.push(b),
    ensures
        forall|a: Seq<char>, e: Seq<char>| #[trigger] delta(tx2, defs, a, e) == delta(tx, defs, a, e),
        settles(result, tx2, defs) == settles(result, tx, defs),
{
    assert forall|a: Seq<char>, e: Seq<char>| #[trigger] delta(tx2, defs, a, e) == delta(tx, defs, a, e) by {
        let ie = issuer_of(defs, e);
        lemma_push_step(tx.inputs@, b, e, except(Some(ie)), plain());
        lemma_push_step(tx.outputs@, b, e, except(Some(ie)), plain());
        assert(non_issuer_total(tx2.inputs@, e, ie) == non_issuer_total(tx.inputs@, e, ie));
        assert(non_issuer_total(tx2.outputs@, e, ie) == non_issuer_total(tx.outputs@, e, ie));
        assert(surcharge_base(tx2, defs, e) == surcharge_base(tx, defs, e));
        assert forall|x: int| #[trigger] debit_of(tx2, defs, a, e)(x) == debit_of(tx, defs, a, e)(x) by {}
        assert forall|x: int| #[trigger] commission_of(tx2, defs, e)(x) == commission_of(tx, defs, e)(x) by {}
        lemma_side_ext(tx2.inputs@, e, at(a), debit_of(tx2, defs, a, e), at(a), debit_of(tx, defs, a, e));
        lemma_side_ext(tx2.inputs@, e, not_at(ie), commission_of(tx2, defs, e), not_at(ie), commission_of(tx, defs, e));
        lemma_push_step(tx.inputs@, b, e, at(a), debit_of(tx, defs, a, e));
        lemma_push_step(tx.inputs@, b, e, not_at(ie), commission_of(tx, defs, e));
        lemma_push_step(tx.outputs@, b, e, at(a), plain());
    }
    if settles(result, tx, defs) {
        lemma_same_changes_settle(result, tx, tx2, defs);
    }
    if settles(result, tx2, defs) {
        assert forall|a: Seq<char>, e: Seq<char>| #[trigger] delta(tx, defs, a, e) == delta(tx2, defs, a, e) by {
            assert(delta(tx2, defs, a, e) == delta(tx, defs, a, e));
        }
        lemma_same_changes_settle(result, tx2, tx, defs);
    }
}

proof fn lemma_same_changes_settle(result: Seq<Balance>, tx: MultiSend, tx2: MultiSend, defs: Seq<DenomDefinition>)
    requires
        forall|a: Seq<char>, e: Seq<char>| #[trigger] delta(tx2, defs, a, e) == delta(tx, defs, a, e),
        settles(result, tx, defs),
    ensures
        settles(result, tx2, defs),
{
    assert forall|i: int, j: int|
        0 <= i < result.len() && 0 <= j < result[i].coins@.len() implies {
            let c = #[trigger] result[i].coins@[j];
            c.amount != 0 && c.amount == delta(tx2, defs, result[i].address@, c.denom@)
        } by {
        let c = result[i].coins@[j];
        assert(delta(tx2, defs, result[i].address@, c.denom@) == delta(tx, defs, result[i].address@, c.denom@));
    }
    assert forall|addr: Seq<char>, e: Seq<char>|
        #[trigger] delta(tx2, defs, addr, e) != 0 implies exists|i: int, j: int|
            0 <= i < result.len() && 0 <= j < result[i].coins@.len() && result[i].address@ == addr
                && result[i].coins@[j].denom@ == e by {
        assert(delta(tx, defs, addr, e) != 0);
    }
}

proof fn lemma_coin_ge(coins: Seq<Coin>, d: Seq<char>, f: spec_fn(int) -> int, g: spec_fn(int) -> int)
    requires
        forall|j: int| 0 <= j < coins.len() ==> #[trigger] coins[j].amount >= 0,
        forall|y: int| 0 <= y ==> #[trigger] f(y) >= g(y),
    ensures
        coin_total(coins, d, f) >= coin_total(coins, d, g),
    decreases coins.len(),
{
    if coins.len() > 0 {
        let r = coins.drop_last();
        assert forall|j: int| 0 <= j < r.len() implies #[trigger] r[j].amount >= 0 by {
            assert(r[j] == coins[j]);
        }
        lemma_coin_ge(r, d, f, g);
        assert(coins.last().amount >= 0);
    }
}

/// Where `f` is at least `g` on non-negative amounts, so are their sums.
proof fn lemma_side_ge(
    side: Seq<Balance>,
    d: Seq<char>,
    who: spec_fn(Seq<char>) -> bool,
    f: spec_fn(int) -> int,
    g: spec_fn(int) -> int,
)
    requires
        amounts_nonneg(side),
        forall|y: int| 0 <= y ==> #[trigger] f(y) >= g(y),
    ensures
        side_total(side, d, who, f) >= side_total(side, d, who, g),
    decreases side.len(),
{
    if side.len() > 0 {
        let r = side.drop_last();
        assert forall|i: int, j: int|
            0 <= i < r.len() && 0 <= j < r[i].coins@.len() implies r[i].coins@[j].amount >= 0 by {
            assert(r[i] == side[i]);
        }
        lemma_side_ge(r, d, who, f, g);
        let last = side.last();
        assert forall|j: int| 0 <= j < last.coins@.len() implies #[trigger] last.coins@[j].amount >= 0 by {
            assert(last == side[side.len() - 1]);
        }
        lemma_coin_ge(last.coins@, d, f, g);
    }
}

pub open spec fn nothing() -> spec_fn(int) -> int {
    |x: int| 0
}

proof fn lemma_nothing(side: Seq<Balance>, d: Seq<char>, who: spec_fn(Seq<char>) -> bool)
    ensures
        side_total(side, d, who, nothing()) == 0,
    decreases side.len(),
{
    if side.len() > 0 {
        lemma_nothing(side.drop_last(), d, who);
        lemma_coins_nothing(side.last().coins@, d);
    }
}

proof fn lemma_coins_nothing(coins: Seq<Coin>, d: Seq<char>)
    ensures
        coin_total(coins, d, nothing()) == 0,
    decreases coins.len(),
{
    if coins.len() > 0 {
        lemma_coins_nothing(coins.drop_last(), d);
    }
}

/// Since no share is negative: an account other than the issuer ends up at
/// most with what it receives less what it sends, the issuer at least with
/// that, and the amount burnt is never negative.
pub proof fn lemma_surcharge_direction(tx: MultiSend, defs: Seq<DenomDefinition>, d: Seq<char>, x: Seq<char>)
    requires
        within_limits(tx),
    ensures
        x != issuer_of(defs, d) ==> delta(tx, defs, x, d) <= credits(tx, x, d) - own_total(tx.inputs@, d, x),
        delta(tx, defs, issuer_of(defs, d), d) >= credits(tx, issuer_of(defs, d), d) - own_total(
            tx.inputs@,
            d,
            issuer_of(defs, d),
        ),
        burn_total(tx, defs, d) >= 0,
{
    let iss = issuer_of(defs, d);
    assert forall|y: int| 0 <= y implies #[trigger] debit_of(tx, defs, x, d)(y) >= plain()(y) by {
        lemma_shares_nonneg(tx, defs, d, y);
    }
    lemma_side_ge(tx.inputs@, d, at(x), debit_of(tx, defs, x, d), plain());
    assert forall|y: int| 0 <= y implies #[trigger] commission_of(tx, defs, d)(y) >= nothing()(y) by {
        lemma_shares_nonneg(tx, defs, d, y);
    }
    lemma_side_ge(tx.inputs@, d, not_at(iss), commission_of(tx, defs, d), nothing());
    assert forall|y: int| 0 <= y implies #[trigger] burn_of(tx, defs, d)(y) >= nothing()(y) by {
        lemma_shares_nonneg(tx, defs, d, y);
    }
    lemma_side_ge(tx.inputs@, d, not_at(iss), burn_of(tx, defs, d), nothing());
    lemma_nothing(tx.inputs@, d, not_at(iss));
    lemma_issuer_pays_no_surcharge(tx, defs, d);
}

/// In every denomination, the entries of a result that settles a transfer add
/// up to at most zero: what accounts gain never exceeds what they lose.
pub proof fn lemma_result_not_positive(result: Seq<Balance>, tx: MultiSend, defs: Seq<DenomDefinition>, d: Seq<char>)
    requires
        within_limits(tx),
        balanced(tx),
        settles(result, tx, defs),
    ensures
        total(result, d) <= 0,
{
    lemma_conservation(result, tx, defs, d);
    lemma_surcharge_direction(tx, defs, d, issuer_of(defs, d));
}

} // verus!
