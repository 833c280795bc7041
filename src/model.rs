use vstd::prelude::*;
use crate::types::{Balance, Coin, DenomDefinition, MultiSend, Rate, Rejection, RATE_SCALE, MAX_VOLUME};

verus! {

/// Sum of `f(amount)` over the coins of denomination `d`.
pub open spec fn coin_total(coins: Seq<Coin>, d: Seq<char>, f: spec_fn(int) -> int) -> int
    decreases coins.len(),
{
    if coins.len() == 0 {
        0
    } else {
        coin_total(coins.drop_last(), d, f) + if coins.last().denom@ == d {
            f(coins.last().amount as int)
        } else {
            0
        }
    }
}

/// Sum of `coin_total(.., d, f)` over the balances whose address satisfies `who`.
pub open spec fn side_total(
    side: Seq<Balance>,
    d: Seq<char>,
    who: spec_fn(Seq<char>) -> bool,
    f: spec_fn(int) -> int,
) -> int
    decreases side.len(),
{
    if side.len() == 0 {
        0
    } else {
        side_total(side.drop_last(), d, who, f) + if who(side.last().address@) {
            coin_total(side.last().coins@, d, f)
        } else {
            0
        }
    }
}

/// Sum of all amounts, whatever their denomination.
pub open spec fn coin_mass(coins: Seq<Coin>) -> int
    decreases coins.len(),
{
    if coins.len() == 0 {
        0
    } else {
        coin_mass(coins.drop_last()) + coins.last().amount
    }
}

/// Sum of all amounts of all balances.
pub open spec fn side_mass(side: Seq<Balance>) -> int
    decreases side.len(),
{
    if side.len() == 0 {
        0
    } else {
        side_mass(side.drop_last()) + coin_mass(side.last().coins@)
    }
}

pub open spec fn amounts_nonneg(side: Seq<Balance>) -> bool {
    forall|i: int, j: int|
        0 <= i < side.len() && 0 <= j < side[i].coins@.len() ==> side[i].coins@[j].amount >= 0
}

/// A transfer whose amounts are non-negative and whose two sides each move at
/// most `MAX_VOLUME` in all.
pub open spec fn within_limits(tx: MultiSend) -> bool {
    &&& amounts_nonneg(tx.inputs@)
    &&& amounts_nonneg(tx.outputs@)
    &&& side_mass(tx.inputs@) <= MAX_VOLUME
    &&& side_mass(tx.outputs@) <= MAX_VOLUME
}

/// The filter that leaves out the balances of address `skip`, if any.
pub open spec fn except(skip: Option<Seq<char>>) -> spec_fn(Seq<char>) -> bool {
    |a: Seq<char>| skip != Some(a)
}

/// A coin counts for its amount.
pub open spec fn plain() -> spec_fn(int) -> int {
    |x: int| x
}

/// Amount of `d` on one side, leaving out the balances of address `skip`.
pub open spec fn volume(side: Seq<Balance>, d: Seq<char>, skip: Option<Seq<char>>) -> int {
    side_total(side, d, except(skip), plain())
}

pub open spec fn total(side: Seq<Balance>, d: Seq<char>) -> int {
    volume(side, d, None)
}

pub open spec fn non_issuer_total(side: Seq<Balance>, d: Seq<char>, issuer: Seq<char>) -> int {
    volume(side, d, Some(issuer))
}

/// Every denomination moves as much in as out.
pub open spec fn balanced(tx: MultiSend) -> bool {
    forall|d: Seq<char>| #[trigger] total(tx.inputs@, d) == total(tx.outputs@, d)
}

/// The first definition of `d`.
pub open spec fn def_of(defs: Seq<DenomDefinition>, d: Seq<char>) -> Option<DenomDefinition>
    decreases defs.len(),
{
    if defs.len() == 0 {
        None
    } else if defs[0].denom@ == d {
        Some(defs[0])
    } else {
        def_of(defs.drop_first(), d)
    }
}

pub open spec fn issuer_of(defs: Seq<DenomDefinition>, d: Seq<char>) -> Seq<char> {
    def_of(defs, d).unwrap().issuer@
}

pub open spec fn ceil_div(p: int, q: int) -> int {
    if p % q == 0 {
        p / q
    } else {
        p / q + 1
    }
}

/// The share of `amount` in a surcharge of `rate` on `base`, spread over a pool
/// of `pool`: `ceil(base * rate * amount / pool)`, in exact rational arithmetic.
/// This is the burn share.
pub open spec fn share(base: int, amount: int, pool: int, rate: Rate) -> int {
    if pool == 0 {
        0
    } else {
        ceil_div(base * amount * rate.billionths, pool * RATE_SCALE)
    }
}

/// The commission share: `ceil(base * rate * amount / pool - 1e-10)`, in exact
/// rational arithmetic. Taking `1e-10` off before rounding up lowers every
/// share that lies at most `1e-10` above a whole number (an exact multiple
/// among them) to that number; the burn share takes nothing off. As a single
/// fraction: `ceil((10 * base * amount * rate - pool) / (10 * pool * RATE_SCALE))`.
pub open spec fn corrected_share(base: int, amount: int, pool: int, rate: Rate) -> int {
    if pool == 0 {
        0
    } else {
        ceil_div(10 * base * amount * rate.billionths - pool, 10 * pool * RATE_SCALE)
    }
}

/// The volume of `d` moved between non-issuers, on which surcharges are due.
pub open spec fn surcharge_base(tx: MultiSend, defs: Seq<DenomDefinition>, d: Seq<char>) -> int {
    let iss = issuer_of(defs, d);
    let a = non_issuer_total(tx.inputs@, d, iss);
    let b = non_issuer_total(tx.outputs@, d, iss);
    if a <= b {
        a
    } else {
        b
    }
}

pub open spec fn burn_share(tx: MultiSend, defs: Seq<DenomDefinition>, d: Seq<char>, amount: int) -> int {
    share(
        surcharge_base(tx, defs, d),
        amount,
        non_issuer_total(tx.inputs@, d, issuer_of(defs, d)),
        def_of(defs, d).unwrap().burn_rate,
    )
}

pub open spec fn commission_share(
    tx: MultiSend,
    defs: Seq<DenomDefinition>,
    d: Seq<char>,
    amount: int,
) -> int {
    corrected_share(
        surcharge_base(tx, defs, d),
        amount,
        non_issuer_total(tx.inputs@, d, issuer_of(defs, d)),
        def_of(defs, d).unwrap().commission_rate,
    )
}

/// What an input coin of `amount` of `d` costs the account `payer`.
pub open spec fn debit(
    tx: MultiSend,
    defs: Seq<DenomDefinition>,
    payer: Seq<char>,
    d: Seq<char>,
    amount: int,
) -> int {
    if payer == issuer_of(defs, d) {
        amount
    } else {
        amount + burn_share(tx, defs, d, amount) + commission_share(tx, defs, d, amount)
    }
}

/// The filter that picks the balances of `addr`.
pub open spec fn at(addr: Seq<char>) -> spec_fn(Seq<char>) -> bool {
    |a: Seq<char>| a == addr
}

/// The filter that leaves out the balances of `addr`.
pub open spec fn not_at(addr: Seq<char>) -> spec_fn(Seq<char>) -> bool {
    |a: Seq<char>| a != addr
}

/// What each input coin of `d` costs `payer`.
pub open spec fn debit_of(tx: MultiSend, defs: Seq<DenomDefinition>, payer: Seq<char>, d: Seq<char>) -> spec_fn(int) -> int {
    |x: int| debit(tx, defs, payer, d, x)
}

pub open spec fn burn_of(tx: MultiSend, defs: Seq<DenomDefinition>, d: Seq<char>) -> spec_fn(int) -> int {
    |x: int| burn_share(tx, defs, d, x)
}

pub open spec fn commission_of(tx: MultiSend, defs: Seq<DenomDefinition>, d: Seq<char>) -> spec_fn(int) -> int {
    |x: int| commission_share(tx, defs, d, x)
}

/// All that `addr` pays in `d`.
pub open spec fn debits(tx: MultiSend, defs: Seq<DenomDefinition>, addr: Seq<char>, d: Seq<char>) -> int {
    side_total(tx.inputs@, d, at(addr), debit_of(tx, defs, addr, d))
}

/// All that `addr` receives in `d` as an output.
pub open spec fn credits(tx: MultiSend, addr: Seq<char>, d: Seq<char>) -> int {
    side_total(tx.outputs@, d, at(addr), plain())
}

/// The commission collected in `d`, which goes to its issuer.
pub open spec fn commission_total(tx: MultiSend, defs: Seq<DenomDefinition>, d: Seq<char>) -> int {
    let iss = issuer_of(defs, d);
    side_total(tx.inputs@, d, not_at(iss), commission_of(tx, defs, d))
}

/// The amount of `d` destroyed.
pub open spec fn burn_total(tx: MultiSend, defs: Seq<DenomDefinition>, d: Seq<char>) -> int {
    let iss = issuer_of(defs, d);
    side_total(tx.inputs@, d, not_at(iss), burn_of(tx, defs, d))
}

/// The net change of the holding of `d` by `addr`.
pub open spec fn delta(tx: MultiSend, defs: Seq<DenomDefinition>, addr: Seq<char>, d: Seq<char>) -> int {
    credits(tx, addr, d) - debits(tx, defs, addr, d) + if addr == issuer_of(defs, d) {
        commission_total(tx, defs, d)
    } else {
        0
    }
}

pub open spec fn defined(defs: Seq<DenomDefinition>, d: Seq<char>) -> bool {
    def_of(defs, d) is Some
}

/// Coin `j` of balance `i` names a denomination without definition.
pub open spec fn undefined_at(side: Seq<Balance>, defs: Seq<DenomDefinition>, i: int, j: int) -> bool {
    &&& 0 <= i < side.len()
    &&& 0 <= j < side[i].coins@.len()
    &&& !defined(defs, side[i].coins@[j].denom@)
}

pub open spec fn all_defined(side: Seq<Balance>, defs: Seq<DenomDefinition>) -> bool {
    forall|i: int, j: int| !#[trigger] undefined_at(side, defs, i, j)
}

/// Coin `j` of balance `i` is the first, in order, without definition.
pub open spec fn first_undefined(side: Seq<Balance>, defs: Seq<DenomDefinition>, i: int, j: int) -> bool {
    &&& undefined_at(side, defs, i, j)
    &&& forall|i2: int, j2: int|
        (i2 < i || (i2 == i && j2 < j)) ==> !#[trigger] undefined_at(side, defs, i2, j2)
}

/// The first balance of address `addr`.
pub open spec fn find_balance(balances: Seq<Balance>, addr: Seq<char>) -> Option<Balance>
    decreases balances.len(),
{
    if balances.len() == 0 {
        None
    } else if balances[0].address@ == addr {
        Some(balances[0])
    } else {
        find_balance(balances.drop_first(), addr)
    }
}

/// The amount of `d` held, from the first coin of `d`; none where there is no such coin.
pub open spec fn held(coins: Seq<Coin>, d: Seq<char>) -> Option<int>
    decreases coins.len(),
{
    if coins.len() == 0 {
        None
    } else if coins[0].denom@ == d {
        Some(coins[0].amount as int)
    } else {
        held(coins.drop_first(), d)
    }
}

/// Input `i` has a balance, and that balance cannot pay for coin `j` of the
/// input: it has no entry for the coin's denomination, or holds less of it
/// than the coin costs. Both are an insufficient balance.
pub open spec fn coin_short(
    balances: Seq<Balance>,
    defs: Seq<DenomDefinition>,
    tx: MultiSend,
    i: int,
    j: int,
) -> bool {
    let b = tx.inputs@[i];
    let c = b.coins@[j];
    &&& 0 <= j < b.coins@.len()
    &&& find_balance(balances, b.address@) is Some
    &&& match held(find_balance(balances, b.address@).unwrap().coins@, c.denom@) {
        None => true,
        Some(h) => h < debit(tx, defs, b.address@, c.denom@, c.amount as int),
    }
}

/// Input `i` has no balance, or cannot pay for one of its coins.
pub open spec fn input_fails(balances: Seq<Balance>, defs: Seq<DenomDefinition>, tx: MultiSend, i: int) -> bool {
    &&& 0 <= i < tx.inputs@.len()
    &&& (find_balance(balances, tx.inputs@[i].address@) is None || exists|j: int|
        coin_short(balances, defs, tx, i, j))
}

pub open spec fn first_failing(balances: Seq<Balance>, defs: Seq<DenomDefinition>, tx: MultiSend, i: int) -> bool {
    &&& input_fails(balances, defs, tx, i)
    &&& forall|i2: int| i2 < i ==> !#[trigger] input_fails(balances, defs, tx, i2)
}

/// The transfer is settled: it is balanced, every denomination it names is
/// defined, and every sender has a balance that covers each of its coins.
pub open spec fn accepted(balances: Seq<Balance>, defs: Seq<DenomDefinition>, tx: MultiSend) -> bool {
    &&& balanced(tx)
    &&& all_defined(tx.inputs@, defs)
    &&& all_defined(tx.outputs@, defs)
    &&& forall|i: int| !#[trigger] input_fails(balances, defs, tx, i)
}

/// The rejection that the transfer earns: the checks run in the order
/// conservation, definitions (inputs, then outputs), then each input in turn,
/// and the first that fails decides.
pub open spec fn rejected_with(
    balances: Seq<Balance>,
    defs: Seq<DenomDefinition>,
    tx: MultiSend,
    e: Rejection,
) -> bool {
    match e {
        Rejection::Conservation => !balanced(tx),
        Rejection::Unknown(d) => balanced(tx) && ((exists|i: int, j: int|
            first_undefined(tx.inputs@, defs, i, j) && tx.inputs@[i].coins@[j].denom@ == d) || (
        all_defined(tx.inputs@, defs) && exists|i: int, j: int|
            first_undefined(tx.outputs@, defs, i, j) && tx.outputs@[i].coins@[j].denom@ == d)),
        Rejection::Missing(a) => {
            &&& balanced(tx)
            &&& all_defined(tx.inputs@, defs)
            &&& all_defined(tx.outputs@, defs)
            &&& exists|i: int|
                first_failing(balances, defs, tx, i) && find_balance(
                    balances,
                    tx.inputs@[i].address@,
                ) is None && tx.inputs@[i].address@ == a
        },
        Rejection::Insufficient(a, d) => {
            &&& balanced(tx)
            &&& all_defined(tx.inputs@, defs)
            &&& all_defined(tx.outputs@, defs)
            &&& exists|i: int, j: int|
                first_failing(balances, defs, tx, i) && coin_short(balances, defs, tx, i, j) && (
                forall|j2: int| j2 < j ==> !#[trigger] coin_short(balances, defs, tx, i, j2))
                    && tx.inputs@[i].address@ == a && tx.inputs@[i].coins@[j].denom@ == d
        },
    }
}

/// `result` lists, grouped by address, exactly the nonzero net changes of the
/// transfer, each once.
pub open spec fn settles(result: Seq<Balance>, tx: MultiSend, defs: Seq<DenomDefinition>) -> bool {
    &&& forall|i: int, k: int|
        0 <= i < k < result.len() ==> result[i].address@ != result[k].address@
    &&& forall|i: int| 0 <= i < result.len() ==> #[trigger] result[i].coins@.len() > 0
    &&& forall|i: int, j: int, k: int|
        0 <= i < result.len() && 0 <= j < k < result[i].coins@.len()
            ==> result[i].coins@[j].denom@ != result[i].coins@[k].denom@
    &&& forall|i: int, j: int|
        0 <= i < result.len() && 0 <= j < result[i].coins@.len() ==> {
            let c = #[trigger] result[i].coins@[j];
            c.amount != 0 && c.amount == delta(tx, defs, result[i].address@, c.denom@)
        }
    &&& forall|addr: Seq<char>, d: Seq<char>|
        #[trigger] delta(tx, defs, addr, d) != 0 ==> exists|i: int, j: int|
            0 <= i < result.len() && 0 <= j < result[i].coins@.len() && result[i].address@ == addr
                && result[i].coins@[j].denom@ == d
}

} // verus!
