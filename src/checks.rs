use vstd::prelude::*;
use crate::lookup::{find_account, find_definition, held_amount};
use crate::model::{all_defined, amounts_nonneg, balanced, coin_short, except, find_balance, first_failing, first_undefined, input_fails, plain, rejected_with, side_mass, total, undefined_at, within_limits};
use crate::settle::{denom_facts, lemma_debit_cost};
use crate::sums::{cost_of, costs, no_facts, picks, sum_side, Cost, Pick};
use crate::tally::{lemma_coin_le_mass, lemma_side_absent, lemma_side_ext};
use crate::types::{Balance, DenomDefinition, MultiSend, SettlementError, MAX_VOLUME};

verus! {

pub open spec fn agree(tx: MultiSend, d: Seq<char>) -> bool {
    total(tx.inputs@, d) == total(tx.outputs@, d)
}

/// The amount of `denom` on one side.
fn total_of(side: &Vec<Balance>, denom: &String) -> (r: i128)
    requires
        amounts_nonneg(side@),
        side_mass(side@) <= MAX_VOLUME,
    ensures
        r == total(side@, denom@),
{
    let none = no_facts();
    let r = sum_side(side, denom, Pick::Every, denom, Cost::Plain, &none);
    proof {
        lemma_side_ext(
            side@,
            denom@,
            picks(Pick::Every, denom@),
            costs(Cost::Plain, none),
            except(None),
            plain(),
        );
    }
    r
}

/// Whether the totals of every denomination named on `side` agree.
fn totals_agree(tx: &MultiSend, side: &Vec<Balance>) -> (r: bool)
    requires
        within_limits(*tx),
    ensures
        r ==> forall|i: int, j: int|
            0 <= i < side@.len() && 0 <= j < side@[i].coins@.len() ==> #[trigger] agree(
                *tx,
                side@[i].coins@[j].denom@,
            ),
        !r ==> !balanced(*tx),
{
    let mut i: usize = 0;
    while i < side.len()
        invariant
            i <= side@.len(),
            within_limits(*tx),
            forall|i2: int, j2: int|
                0 <= i2 < i && 0 <= j2 < side@[i2].coins@.len() ==> #[trigger] agree(
                    *tx,
                    side@[i2].coins@[j2].denom@,
                ),
        decreases side.len() - i,
    {
        let b = &side[i];
        let mut j: usize = 0;
        while j < b.coins.len()
            invariant
                i < side@.len(),
                b == side@[i as int],
                j <= b.coins@.len(),
                within_limits(*tx),
                forall|i2: int, j2: int|
                    0 <= i2 < i && 0 <= j2 < side@[i2].coins@.len() ==> #[trigger] agree(
                        *tx,
                        side@[i2].coins@[j2].denom@,
                    ),
                forall|j2: int| 0 <= j2 < j ==> #[trigger] agree(*tx, b.coins@[j2].denom@),
            decreases b.coins.len() - j,
        {
            let d = &b.coins[j].denom;
            let a = total_of(&tx.inputs, d);
            let c = total_of(&tx.outputs, d);
            if a != c {
                assert(!agree(*tx, d@));
                return false;
            }
            j += 1;
        }
        i += 1;
    }
    true
}

/// Whether every denomination moves as much in as out.
pub fn is_balanced(tx: &MultiSend) -> (r: bool)
    requires
        within_limits(*tx),
    ensures
        r == balanced(*tx),
{
    if !totals_agree(tx, &tx.inputs) {
        return false;
    }
    if !totals_agree(tx, &tx.outputs) {
        return false;
    }
    proof {
        assert forall|d: Seq<char>| #[trigger]
            total(tx.inputs@, d) == total(tx.outputs@, d) by {
            let ins = tx.inputs@;
            let outs = tx.outputs@;
            if exists|i: int, j: int|
                0 <= i < ins.len() && 0 <= j < ins[i].coins@.len() && ins[i].coins@[j].denom@ == d {
                let (i, j) = choose|i: int, j: int|
                    0 <= i < ins.len() && 0 <= j < ins[i].coins@.len() && ins[i].coins@[j].denom@
                        == d;
                assert(agree(*tx, ins[i].coins@[j].denom@));
            } else if exists|i: int, j: int|
                0 <= i < outs.len() && 0 <= j < outs[i].coins@.len() && outs[i].coins@[j].denom@
                    == d {
                let (i, j) = choose|i: int, j: int|
                    0 <= i < outs.len() && 0 <= j < outs[i].coins@.len() && outs[i].coins@[j].denom@
                        == d;
                assert(agree(*tx, outs[i].coins@[j].denom@));
            } else {
                lemma_side_absent(ins, d, except(None), plain());
                lemma_side_absent(outs, d, except(None), plain());
            }
        }
    }
    true
}

/// The first coin of `side`, in order, whose denomination has no definition.
pub fn first_unknown(side: &Vec<Balance>, defs: &Vec<DenomDefinition>) -> (r: Option<(usize, usize)>)
    ensures
        match r {
            Some((i, j)) => first_undefined(side@, defs@, i as int, j as int),
            None => all_defined(side@, defs@),
        },
{
    let mut i: usize = 0;
    while i < side.len()
        invariant
            i <= side@.len(),
            forall|i2: int, j2: int| i2 < i ==> !#[trigger] undefined_at(side@, defs@, i2, j2),
        decreases side.len() - i,
    {
        let b = &side[i];
        let mut j: usize = 0;
        while j < b.coins.len()
            invariant
                i < side@.len(),
                b == side@[i as int],
                j <= b.coins@.len(),
                forall|i2: int, j2: int|
                    (i2 < i || (i2 == i && j2 < j)) ==> !#[trigger] undefined_at(
                        side@,
                        defs@,
                        i2,
                        j2,
                    ),
            decreases b.coins.len() - j,
        {
            if find_definition(defs, &b.coins[j].denom).is_none() {
                return Some((i, j));
            }
            j += 1;
        }
        i += 1;
    }
    None
}

/// Each input in turn: its account must have a balance that covers each of its coins.
pub fn check_inputs(
    balances: &Vec<Balance>,
    defs: &Vec<DenomDefinition>,
    tx: &MultiSend,
) -> (r: Result<(), SettlementError>)
    requires
        within_limits(*tx),
        balanced(*tx),
        all_defined(tx.inputs@, defs@),
        all_defined(tx.outputs@, defs@),
    ensures
        match r {
            Ok(()) => forall|i: int| !#[trigger] input_fails(balances@, defs@, *tx, i),
            Err(e) => rejected_with(balances@, defs@, *tx, e@),
        },
{
    let mut i: usize = 0;
    while i < tx.inputs.len()
        invariant
            i <= tx.inputs@.len(),
            within_limits(*tx),
            balanced(*tx),
            all_defined(tx.inputs@, defs@),
            all_defined(tx.outputs@, defs@),
            forall|i2: int| i2 < i ==> !#[trigger] input_fails(balances@, defs@, *tx, i2),
        decreases tx.inputs.len() - i,
    {
        let b = &tx.inputs[i];
        let k = find_account(balances, &b.address);
        if k.is_none() {
            let e = SettlementError::MissingBalance { address: b.address.clone() };
            assert(input_fails(balances@, defs@, *tx, i as int));
            assert(first_failing(balances@, defs@, *tx, i as int));
            return Err(e);
        }
        let rec = &balances[k.unwrap()];
        let mut j: usize = 0;
        while j < b.coins.len()
            invariant
                i < tx.inputs@.len(),
                b == tx.inputs@[i as int],
                k == Some(k.unwrap()),
                k.unwrap() < balances@.len(),
                rec == balances@[k.unwrap() as int],
                find_balance(balances@, b.address@) == Some(*rec),
                j <= b.coins@.len(),
                within_limits(*tx),
                balanced(*tx),
                all_defined(tx.inputs@, defs@),
                all_defined(tx.outputs@, defs@),
                forall|i2: int| i2 < i ==> !#[trigger] input_fails(balances@, defs@, *tx, i2),
                forall|j2: int| j2 < j ==> !#[trigger] coin_short(balances@, defs@, *tx, i as int, j2),
            decreases b.coins.len() - j,
        {
            let c = &b.coins[j];
            assert(!undefined_at(tx.inputs@, defs@, i as int, j as int));
            let facts = denom_facts(tx, defs, &c.denom);
            proof {
                lemma_coin_le_mass(tx.inputs@, i as int, j as int);
                lemma_debit_cost(facts, *tx, defs@, c.denom@, b.address@, c.amount as int);
            }
            let cost = if b.address == facts.issuer {
                Cost::Plain
            } else {
                Cost::Surcharged
            };
            let owed = cost_of(cost, &facts, c.amount);
            let covered = match held_amount(&rec.coins, &c.denom) {
                Some(have) => have >= owed,
                None => false,
            };
            if !covered {
                let e = SettlementError::InsufficientBalance {
                    address: b.address.clone(),
                    denom: c.denom.clone(),
                };
                assert(coin_short(balances@, defs@, *tx, i as int, j as int));
                assert(input_fails(balances@, defs@, *tx, i as int));
                assert(first_failing(balances@, defs@, *tx, i as int));
                return Err(e);
            }
            j += 1;
        }
        assert(!input_fails(balances@, defs@, *tx, i as int));
        i += 1;
    }
    Ok(())
}

} // verus!
