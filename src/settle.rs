use vstd::prelude::*;
use crate::lookup::find_definition;
use crate::model::{at, commission_of, commission_share, commission_total, credits, debit, debit_of, debits, def_of, defined, delta, except, issuer_of, non_issuer_total, not_at, plain, side_mass, surcharge_base, within_limits};
use crate::sums::{no_facts, costs, picks, sum_side, Cost, DenomFacts, Pick, COST_FACTOR};
use crate::tally::{lemma_side_bound, lemma_side_ext};
use crate::types::{DenomDefinition, MultiSend, MAX_VOLUME};

verus! {

/// `facts` holds the issuer, rates, base and pool of `d` in `tx`.
pub open spec fn facts_of(facts: DenomFacts, tx: MultiSend, defs: Seq<DenomDefinition>, d: Seq<char>) -> bool {
    &&& facts.wf()
    &&& facts.issuer@ == issuer_of(defs, d)
    &&& facts.base == surcharge_base(tx, defs, d)
    &&& facts.pool == non_issuer_total(tx.inputs@, d, issuer_of(defs, d))
    &&& facts.burn_rate == def_of(defs, d).unwrap().burn_rate
    &&& facts.commission_rate == def_of(defs, d).unwrap().commission_rate
}

/// What an input coin of `amount` costs `payer`, as computed from `facts`.
pub proof fn lemma_debit_cost(
    facts: DenomFacts,
    tx: MultiSend,
    defs: Seq<DenomDefinition>,
    d: Seq<char>,
    payer: Seq<char>,
    amount: int,
)
    requires
        facts_of(facts, tx, defs, d),
    ensures
        debit(tx, defs, payer, d, amount) == costs(
            if payer == facts.issuer@ {
                Cost::Plain
            } else {
                Cost::Surcharged
            },
            facts,
        )(amount),
        commission_share(tx, defs, d, amount) == costs(Cost::Commission, facts)(amount),
{
}

/// The issuer, rates, base and pool of a defined denomination.
pub fn denom_facts(tx: &MultiSend, defs: &Vec<DenomDefinition>, denom: &String) -> (r: DenomFacts)
    requires
        within_limits(*tx),
        defined(defs@, denom@),
    ensures
        facts_of(r, *tx, defs@, denom@),
{
    let k = find_definition(defs, denom).unwrap();
    let def = &defs[k];
    let none = no_facts();
    let pool = sum_side(&tx.inputs, denom, Pick::Except, &def.issuer, Cost::Plain, &none);
    let out = sum_side(&tx.outputs, denom, Pick::Except, &def.issuer, Cost::Plain, &none);
    proof {
        let iss = def.issuer@;
        let id = costs(Cost::Plain, none);
        assert forall|x: int| 0 <= x implies 0 <= #[trigger] id(x) <= 1 * x by {}
        lemma_side_bound(tx.inputs@, denom@, picks(Pick::Except, iss), id, 1);
        lemma_side_bound(tx.outputs@, denom@, picks(Pick::Except, iss), id, 1);
        lemma_side_ext(
            tx.inputs@,
            denom@,
            picks(Pick::Except, iss),
            id,
            except(Some(iss)),
            plain(),
        );
        lemma_side_ext(
            tx.outputs@,
            denom@,
            picks(Pick::Except, iss),
            id,
            except(Some(iss)),
            plain(),
        );
    }
    let base = if pool <= out {
        pool
    } else {
        out
    };
    DenomFacts {
        issuer: def.issuer.clone(),
        base,
        pool,
        burn_rate: def.burn_rate,
        commission_rate: def.commission_rate,
    }
}

/// The net change of the holding of `denom` by `address`.
pub fn net_change(
    tx: &MultiSend,
    defs: &Vec<DenomDefinition>,
    facts: &DenomFacts,
    address: &String,
    denom: &String,
) -> (r: i128)
    requires
        within_limits(*tx),
        facts_of(*facts, *tx, defs@, denom@),
    ensures
        r == delta(*tx, defs@, address@, denom@),
{
    let is_issuer = *address == facts.issuer;
    let cost = if is_issuer {
        Cost::Plain
    } else {
        Cost::Surcharged
    };
    let gained = sum_side(&tx.outputs, denom, Pick::Only, address, Cost::Plain, facts);
    let paid = sum_side(&tx.inputs, denom, Pick::Only, address, cost, facts);
    let ghost dd = defs@;
    let ghost d = denom@;
    let ghost addr = address@;
    proof {
        lemma_side_ext(
            tx.outputs@,
            d,
            picks(Pick::Only, addr),
            costs(Cost::Plain, *facts),
            at(addr),
            plain(),
        );
        assert forall|x: int| #[trigger] costs(cost, *facts)(x) == debit(*tx, dd, addr, d, x) by {
            lemma_debit_cost(*facts, *tx, dd, d, addr, x);
        }
        lemma_side_ext(
            tx.inputs@,
            d,
            picks(Pick::Only, addr),
            costs(cost, *facts),
            at(addr),
            debit_of(*tx, dd, addr, d),
        );
        assert(gained == credits(*tx, addr, d));
        assert(paid == debits(*tx, dd, addr, d));
        assert(COST_FACTOR * side_mass(tx.inputs@) <= COST_FACTOR * MAX_VOLUME) by (nonlinear_arith)
            requires
                side_mass(tx.inputs@) <= MAX_VOLUME,
        ;
        assert(COST_FACTOR * side_mass(tx.outputs@) <= COST_FACTOR * MAX_VOLUME) by (
        nonlinear_arith)
            requires
                side_mass(tx.outputs@) <= MAX_VOLUME,
        ;
    }
    if is_issuer {
        let collected = sum_side(
            &tx.inputs,
            denom,
            Pick::Except,
            &facts.issuer,
            Cost::Commission,
            facts,
        );
        proof {
            let iss = facts.issuer@;
            assert forall|x: int| #[trigger] costs(Cost::Commission, *facts)(x) == commission_share(
                *tx,
                dd,
                d,
                x,
            ) by {
                lemma_debit_cost(*facts, *tx, dd, d, addr, x);
            }
            lemma_side_ext(
                tx.inputs@,
                d,
                picks(Pick::Except, iss),
                costs(Cost::Commission, *facts),
                not_at(iss),
                commission_of(*tx, dd, d),
            );
            assert(collected == commission_total(*tx, dd, d));
        }
        gained - paid + collected
    } else {
        gained - paid
    }
}

} // verus!
