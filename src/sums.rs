use vstd::prelude::*;
use crate::model::{amounts_nonneg, coin_total, corrected_share, share, side_mass, side_total};
use crate::share::{commission_surcharge_share, lemma_share_bounds, surcharge_share};
use crate::tally::{lemma_coin_step, lemma_partial_bound, lemma_side_bound, lemma_side_step, scaled_by};
use crate::types::{Balance, Rate, MAX_VOLUME};

verus! {

/// What the surcharges of one denomination are computed from.
pub struct DenomFacts {
    pub issuer: String,
    /// The volume moved between non-issuers.
    pub base: i128,
    /// The volume sent by non-issuers.
    pub pool: i128,
    pub burn_rate: Rate,
    pub commission_rate: Rate,
}

impl DenomFacts {
    pub open spec fn wf(&self) -> bool {
        0 <= self.base <= self.pool <= MAX_VOLUME
    }
}

/// Which balances a sum reads, by their address compared with a key.
#[derive(Clone, Copy)]
pub enum Pick {
    Only,
    Except,
    Every,
}

/// What a coin counts for in a sum.
#[derive(Clone, Copy)]
pub enum Cost {
    /// Its amount.
    Plain,
    /// Its amount with both surcharges.
    Surcharged,
    /// Its commission.
    Commission,
}

/// The bound on what a coin of amount `x` can count for: `COST_FACTOR * x`.
pub const COST_FACTOR: i128 = 0x40_0000_0000;

pub open spec fn picks(pick: Pick, key: Seq<char>) -> spec_fn(Seq<char>) -> bool {
    |a: Seq<char>|
        match pick {
            Pick::Only => a == key,
            Pick::Except => a != key,
            Pick::Every => true,
        }
}

pub open spec fn costs(cost: Cost, facts: DenomFacts) -> spec_fn(int) -> int {
    |x: int|
        match cost {
            Cost::Plain => x,
            Cost::Surcharged => x + share(facts.base as int, x, facts.pool as int, facts.burn_rate)
                + corrected_share(facts.base as int, x, facts.pool as int, facts.commission_rate),
            Cost::Commission => corrected_share(
                facts.base as int,
                x,
                facts.pool as int,
                facts.commission_rate,
            ),
        }
}

pub proof fn lemma_costs_scaled(cost: Cost, facts: DenomFacts)
    requires
        facts.wf(),
    ensures
        scaled_by(costs(cost, facts), COST_FACTOR as int),
{
    assert forall|x: int| 0 <= x implies 0 <= #[trigger] costs(cost, facts)(x) <= COST_FACTOR * x by {
        lemma_share_bounds(facts.base as int, x, facts.pool as int, facts.burn_rate);
        lemma_share_bounds(facts.base as int, x, facts.pool as int, facts.commission_rate);
    }
}

pub(crate) fn cost_of(cost: Cost, facts: &DenomFacts, x: i128) -> (r: i128)
    requires
        facts.wf(),
        0 <= x <= MAX_VOLUME,
    ensures
        r == costs(cost, *facts)(x as int),
{
    proof {
        lemma_costs_scaled(cost, *facts);
        lemma_share_bounds(facts.base as int, x as int, facts.pool as int, facts.burn_rate);
        lemma_share_bounds(facts.base as int, x as int, facts.pool as int, facts.commission_rate);
        assert(0 <= costs(cost, *facts)(x as int) <= COST_FACTOR * x);
        assert(COST_FACTOR * x <= COST_FACTOR * MAX_VOLUME) by (nonlinear_arith)
            requires
                0 <= x <= MAX_VOLUME,
        ;
    }
    match cost {
        Cost::Plain => x,
        Cost::Surcharged => {
            let b = surcharge_share(facts.base, x, facts.pool, facts.burn_rate);
            let c = commission_surcharge_share(facts.base, x, facts.pool, facts.commission_rate);
            x + b + c
        },
        Cost::Commission => commission_surcharge_share(
            facts.base,
            x,
            facts.pool,
            facts.commission_rate,
        ),
    }
}

fn picked(pick: Pick, key: &String, a: &String) -> (r: bool)
    ensures
        r == picks(pick, key@)(a@),
{
    match pick {
        Pick::Only => *a == *key,
        Pick::Except => *a != *key,
        Pick::Every => true,
    }
}

/// Sum of what the coins of `denom` count for, over the balances picked.
pub fn sum_side(
    side: &Vec<Balance>,
    denom: &String,
    pick: Pick,
    key: &String,
    cost: Cost,
    facts: &DenomFacts,
) -> (r: i128)
    requires
        amounts_nonneg(side@),
        side_mass(side@) <= MAX_VOLUME,
        facts.wf(),
    ensures
        r == side_total(side@, denom@, picks(pick, key@), costs(cost, *facts)),
        0 <= r <= COST_FACTOR * side_mass(side@),
{
    let ghost who = picks(pick, key@);
    let ghost f = costs(cost, *facts);
    let ghost k = COST_FACTOR as int;
    proof {
        lemma_costs_scaled(cost, *facts);
        assert(COST_FACTOR * MAX_VOLUME < 0x1_0000_0000_0000_0000_0000_0000_0000) by (nonlinear_arith);
        assert(side@.take(0) =~= Seq::<Balance>::empty());
        assert(k * side_mass(side@) <= k * MAX_VOLUME) by (nonlinear_arith)
            requires
                side_mass(side@) <= MAX_VOLUME,
                k >= 0,
        ;
    }
    let mut acc: i128 = 0;
    let mut i: usize = 0;
    while i < side.len()
        invariant
            i <= side@.len(),
            amounts_nonneg(side@),
            side_mass(side@) <= MAX_VOLUME,
            facts.wf(),
            who == picks(pick, key@),
            f == costs(cost, *facts),
            k == COST_FACTOR,
            scaled_by(f, k),
            k * side_mass(side@) <= k * MAX_VOLUME,
            0 <= acc,
            acc == side_total(side@.take(i as int), denom@, who, f),
        decreases side.len() - i,
    {
        let b = &side[i];
        if picked(pick, key, &b.address) {
            let ghost coins = b.coins@;
            let mut inner: i128 = 0;
            let mut j: usize = 0;
            proof {
                assert(coins.take(0) =~= Seq::empty());
            }
            while j < b.coins.len()
                invariant
                    i < side@.len(),
                    b == side@[i as int],
                    coins == b.coins@,
                    j <= coins.len(),
                    amounts_nonneg(side@),
                    side_mass(side@) <= MAX_VOLUME,
                    facts.wf(),
                    f == costs(cost, *facts),
                    scaled_by(f, k),
                    k == COST_FACTOR,
                    k * side_mass(side@) <= k * MAX_VOLUME,
                    0 <= acc,
                    acc == side_total(side@.take(i as int), denom@, who, f),
                    inner == coin_total(coins.take(j as int), denom@, f),
                decreases coins.len() - j,
            {
                let c = &b.coins[j];
                proof {
                    lemma_coin_step(coins, j as int, denom@, f);
                    lemma_partial_bound(side@, i as int, j as int + 1, denom@, who, f, k);
                    lemma_partial_bound(side@, i as int, j as int + 1, c.denom@, who, |x: int| x, 1);
                    lemma_partial_bound(side@, i as int, j as int, c.denom@, who, |x: int| x, 1);
                    lemma_coin_step(coins, j as int, c.denom@, |x: int| x);
                    assert(0 <= c.amount);
                }
                if c.denom == *denom {
                    let v = cost_of(cost, facts, c.amount);
                    inner = inner + v;
                }
                j += 1;
            }
            proof {
                assert(coins.take(coins.len() as int) =~= coins);
                lemma_partial_bound(side@, i as int, coins.len() as int, denom@, who, f, k);
            }
            acc = acc + inner;
        }
        proof {
            lemma_side_step(side@, i as int, denom@, who, f);
        }
        i += 1;
    }
    proof {
        assert(side@.take(side@.len() as int) =~= side@);
        lemma_side_bound(side@, denom@, who, f, k);
    }
    acc
}

/// Facts for sums whose cost reads none of them.
pub fn no_facts() -> (r: DenomFacts)
    ensures
        r.wf(),
{
    DenomFacts {
        issuer: String::new(),
        base: 0,
        pool: 0,
        burn_rate: Rate { billionths: 0 },
        commission_rate: Rate { billionths: 0 },
    }
}

} // verus!
