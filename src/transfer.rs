use vstd::prelude::*;
use crate::assemble::{Change, changes_wf, coins_for, collect_changes, covers, from_change, group, grouped, has_address, listed};
use crate::checks::{check_inputs, first_unknown, is_balanced};
use crate::model::{accepted, balanced, delta, rejected_with, settles, within_limits};
use crate::types::{Balance, DenomDefinition, MultiSend, SettlementError};

verus! {

proof fn lemma_settles(flat: Seq<Change>, result: Seq<Balance>, tx: MultiSend, defs: Seq<DenomDefinition>)
    requires
        changes_wf(flat, tx, defs),
        forall|a: Seq<char>, d: Seq<char>| #[trigger] covers(flat, tx, defs, a, d),
        grouped(flat, result),
    ensures
        settles(result, tx, defs),
{
    assert forall|i: int, j: int|
        0 <= i < result.len() && 0 <= j < result[i].coins@.len() implies {
            let c = #[trigger] result[i].coins@[j];
            c.amount != 0 && c.amount == delta(tx, defs, result[i].address@, c.denom@)
        } by {
        let c = result[i].coins@[j];
        assert(coins_for(flat, result[i].address@, result[i].coins@));
        assert(listed(flat, result[i].address@, c));
        let p = choose|p: int| from_change(flat, result[i].address@, c, p);
        assert(flat[p].amount != 0);
    }
    assert forall|addr: Seq<char>, d: Seq<char>|
        #[trigger] delta(tx, defs, addr, d) != 0 implies exists|i: int, j: int|
            0 <= i < result.len() && 0 <= j < result[i].coins@.len() && result[i].address@ == addr
                && result[i].coins@[j].denom@ == d by {
        assert(covers(flat, tx, defs, addr, d));
        let p = choose|p: int| 0 <= p < flat.len() && flat[p].address@ == addr && flat[p].denom@ == d;
        assert(has_address(result, flat[p].address@));
        let i = choose|i: int| 0 <= i < result.len() && result[i].address@ == flat[p].address@;
        assert(coins_for(flat, result[i].address@, result[i].coins@));
        assert(flat[p].address@ == result[i].address@);
        let j = choose|j: int|
            0 <= j < result[i].coins@.len() && result[i].coins@[j].denom@ == flat[p].denom@;
        assert(0 <= i < result.len() && 0 <= j < result[i].coins@.len() && result[i].address@ == addr
            && result[i].coins@[j].denom@ == d);
    }
}

/// Settles a transfer against the balances held before it and the definitions
/// of its denominations.
///
/// On success the result lists, one balance per address, every nonzero net
/// change: each input coin costs its sender its amount plus, unless the sender
/// issued the denomination, a burn and a commission share; each output coin
/// credits its amount; each issuer receives the commission collected on its
/// denomination. Otherwise the first failing check decides the error:
/// conservation, then definitions, then each input in turn. A sender with no
/// balance at all is a missing balance; a sender whose balance has no entry for
/// a denomination it sends, or holds less than a coin costs, is an insufficient
/// balance for that account and denomination. Each coin is checked on its own.
pub fn calculate_balance_changes(
    original_balances: Vec<Balance>,
    definitions: Vec<DenomDefinition>,
    multi_send_tx: MultiSend,
) -> (r: Result<Vec<Balance>, SettlementError>)
    requires
        within_limits(multi_send_tx),
    ensures
        match r {
            Ok(v) => accepted(original_balances@, definitions@, multi_send_tx) && settles(
                v@,
                multi_send_tx,
                definitions@,
            ),
            Err(e) => !accepted(original_balances@, definitions@, multi_send_tx) && rejected_with(
                original_balances@,
                definitions@,
                multi_send_tx,
                e@,
            ),
        },
        !balanced(multi_send_tx) ==> (r matches Err(SettlementError::ConservationMismatch)),
{
    let tx = &multi_send_tx;
    if !is_balanced(tx) {
        return Err(SettlementError::ConservationMismatch);
    }
    match first_unknown(&tx.inputs, &definitions) {
        Some((i, j)) => {
            return Err(
                SettlementError::UnknownDenomination { denom: tx.inputs[i].coins[j].denom.clone() },
            );
        },
        None => {},
    }
    match first_unknown(&tx.outputs, &definitions) {
        Some((i, j)) => {
            return Err(
                SettlementError::UnknownDenomination {
                    denom: tx.outputs[i].coins[j].denom.clone(),
                },
            );
        },
        None => {},
    }
    match check_inputs(&original_balances, &definitions, tx) {
        Err(e) => {
            return Err(e);
        },
        Ok(()) => {},
    }
    let flat = collect_changes(tx, &definitions);
    let result = group(&flat);
    proof {
        lemma_settles(flat@, result@, *tx, definitions@);
    }
    Ok(result)
}

} // verus!
