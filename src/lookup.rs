use vstd::prelude::*;
use crate::model::{def_of, find_balance, held};
use crate::types::{Balance, Coin, DenomDefinition};

verus! {

/// The position of the first definition of `denom`.
pub fn find_definition(defs: &Vec<DenomDefinition>, denom: &String) -> (r: Option<usize>)
    ensures
        match r {
            Some(k) => k < defs@.len() && def_of(defs@, denom@) == Some(defs@[k as int]),
            None => def_of(defs@, denom@) is None,
        },
{
    let mut k: usize = 0;
    assert(defs@.skip(0) =~= defs@);
    while k < defs.len()
        invariant
            k <= defs@.len(),
            def_of(defs@, denom@) == def_of(defs@.skip(k as int), denom@),
        decreases defs.len() - k,
    {
        assert(defs@.skip(k as int)[0] == defs@[k as int]);
        assert(defs@.skip(k as int).drop_first() =~= defs@.skip(k as int + 1));
        if defs[k].denom == *denom {
            return Some(k);
        }
        k += 1;
    }
    assert(defs@.skip(k as int).len() == 0);
    None
}

/// The position of the first balance of `address`.
pub fn find_account(balances: &Vec<Balance>, address: &String) -> (r: Option<usize>)
    ensures
        match r {
            Some(k) => k < balances@.len() && find_balance(balances@, address@) == Some(
                balances@[k as int],
            ),
            None => find_balance(balances@, address@) is None,
        },
{
    let mut k: usize = 0;
    assert(balances@.skip(0) =~= balances@);
    while k < balances.len()
        invariant
            k <= balances@.len(),
            find_balance(balances@, address@) == find_balance(balances@.skip(k as int), address@),
        decreases balances.len() - k,
    {
        assert(balances@.skip(k as int)[0] == balances@[k as int]);
        assert(balances@.skip(k as int).drop_first() =~= balances@.skip(k as int + 1));
        if balances[k].address == *address {
            return Some(k);
        }
        k += 1;
    }
    assert(balances@.skip(k as int).len() == 0);
    None
}

/// The amount of `denom` among `coins`, from its first coin; none where there is no such coin.
pub fn held_amount(coins: &Vec<Coin>, denom: &String) -> (r: Option<i128>)
    ensures
        match r {
            Some(v) => held(coins@, denom@) == Some(v as int),
            None => held(coins@, denom@) is None,
        },
{
    let mut k: usize = 0;
    assert(coins@.skip(0) =~= coins@);
    while k < coins.len()
        invariant
            k <= coins@.len(),
            held(coins@, denom@) == held(coins@.skip(k as int), denom@),
        decreases coins.len() - k,
    {
        assert(coins@.skip(k as int)[0] == coins@[k as int]);
        assert(coins@.skip(k as int).drop_first() =~= coins@.skip(k as int + 1));
        if coins[k].denom == *denom {
            return Some(coins[k].amount);
        }
        k += 1;
    }
    assert(coins@.skip(k as int).len() == 0);
    None
}

} // verus!
