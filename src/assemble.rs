use vstd::prelude::*;
use crate::tally::lemma_side_absent;
use crate::lookup::find_definition;
use crate::model::{all_defined, at, commission_of, debit_of, defined, delta, issuer_of, not_at, plain, undefined_at, within_limits};
use crate::settle::{denom_facts, net_change};
use crate::types::{Balance, Coin, DenomDefinition, MultiSend};

verus! {

/// One nonzero net change.
pub struct Change {
    pub address: String,
    pub denom: String,
    pub amount: i128,
}

/// Each (address, denomination) at most once, with its nonzero net change.
pub open spec fn changes_wf(flat: Seq<Change>, tx: MultiSend, defs: Seq<DenomDefinition>) -> bool {
    &&& forall|p: int, q: int|
        0 <= p < q < flat.len() ==> !(flat[p].address@ == flat[q].address@ && flat[p].denom@
            == flat[q].denom@)
    &&& forall|p: int|
        0 <= p < flat.len() ==> #[trigger] flat[p].amount != 0 && flat[p].amount == delta(
            tx,
            defs,
            flat[p].address@,
            flat[p].denom@,
        )
}

/// Where the net change of `addr` in `d` is nonzero, it is listed.
pub open spec fn covers(flat: Seq<Change>, tx: MultiSend, defs: Seq<DenomDefinition>, addr: Seq<char>, d: Seq<char>) -> bool {
    delta(tx, defs, addr, d) != 0 ==> exists|p: int|
        0 <= p < flat.len() && flat[p].address@ == addr && flat[p].denom@ == d
}

pub proof fn lemma_covers_grow(
    old_flat: Seq<Change>,
    flat: Seq<Change>,
    tx: MultiSend,
    defs: Seq<DenomDefinition>,
    addr: Seq<char>,
    d: Seq<char>,
)
    requires
        covers(old_flat, tx, defs, addr, d),
        old_flat.len() <= flat.len(),
        forall|p: int| 0 <= p < old_flat.len() ==> flat[p] == old_flat[p],
    ensures
        covers(flat, tx, defs, addr, d),
{
    if delta(tx, defs, addr, d) != 0 {
        let p = choose|p: int|
            0 <= p < old_flat.len() && old_flat[p].address@ == addr && old_flat[p].denom@ == d;
        assert(flat[p] == old_flat[p]);
    }
}

/// Lists the net change of `address` in `denom` unless it is zero or listed already.
fn record(
    flat: &mut Vec<Change>,
    tx: &MultiSend,
    defs: &Vec<DenomDefinition>,
    address: &String,
    denom: &String,
)
    requires
        within_limits(*tx),
        defined(defs@, denom@),
        changes_wf(old(flat)@, *tx, defs@),
    ensures
        changes_wf(final(flat)@, *tx, defs@),
        old(flat)@.len() <= final(flat)@.len(),
        forall|p: int| 0 <= p < old(flat)@.len() ==> final(flat)@[p] == old(flat)@[p],
        covers(final(flat)@, *tx, defs@, address@, denom@),
        forall|a: Seq<char>, d: Seq<char>|
            covers(old(flat)@, *tx, defs@, a, d) ==> #[trigger] covers(final(flat)@, *tx, defs@, a, d),
{
    let ghost before = flat@;
    let mut p: usize = 0;
    while p < flat.len()
        invariant
            p <= flat@.len(),
            flat@ == old(flat)@,
            changes_wf(flat@, *tx, defs@),
            forall|q: int|
                0 <= q < p ==> !(flat@[q].address@ == address@ && #[trigger] flat@[q].denom@
                    == denom@),
        decreases flat.len() - p,
    {
        if flat[p].address == *address && flat[p].denom == *denom {
            assert(flat@[p as int].address@ == address@);
            return;
        }
        p += 1;
    }
    let facts = denom_facts(tx, defs, denom);
    let amount = net_change(tx, defs, &facts, address, denom);
    if amount != 0 {
        flat.push(Change { address: address.clone(), denom: denom.clone(), amount });
        assert(flat@[flat@.len() - 1].address@ == address@);
    }
    proof {
        assert forall|a: Seq<char>, d: Seq<char>|
            covers(before, *tx, defs@, a, d) implies #[trigger] covers(flat@, *tx, defs@, a, d) by {
            lemma_covers_grow(before, flat@, *tx, defs@, a, d);
        }
    }
}

/// A nonzero net change belongs to an account that sends or receives the
/// denomination, or to its issuer where it is sent.
pub proof fn lemma_change_sources(tx: MultiSend, defs: Seq<DenomDefinition>, addr: Seq<char>, d: Seq<char>)
    requires
        delta(tx, defs, addr, d) != 0,
    ensures
        (exists|i: int, j: int|
            0 <= i < tx.inputs@.len() && 0 <= j < tx.inputs@[i].coins@.len()
                && tx.inputs@[i].coins@[j].denom@ == d && (tx.inputs@[i].address@ == addr || addr
                == issuer_of(defs, d))) || (exists|i: int, j: int|
            0 <= i < tx.outputs@.len() && 0 <= j < tx.outputs@[i].coins@.len()
                && tx.outputs@[i].coins@[j].denom@ == d && tx.outputs@[i].address@ == addr),
{
    let ins = tx.inputs@;
    let outs = tx.outputs@;
    if !(exists|i: int, j: int|
        0 <= i < ins.len() && 0 <= j < ins[i].coins@.len() && ins[i].coins@[j].denom@ == d && (
        ins[i].address@ == addr || addr == issuer_of(defs, d))) && !(exists|i: int, j: int|
        0 <= i < outs.len() && 0 <= j < outs[i].coins@.len() && outs[i].coins@[j].denom@ == d
            && outs[i].address@ == addr) {
        let iss = issuer_of(defs, d);
        lemma_side_absent(
            ins,
            d,
            at(addr),
            debit_of(tx, defs, addr, d),
        );
        lemma_side_absent(outs, d, at(addr), plain());
        if addr == iss {
            lemma_side_absent(
                ins,
                d,
                not_at(iss),
                commission_of(tx, defs, d),
            );
        }
    }
}

pub open spec fn input_done(flat: Seq<Change>, tx: MultiSend, defs: Seq<DenomDefinition>, i: int, j: int) -> bool {
    let d = tx.inputs@[i].coins@[j].denom@;
    covers(flat, tx, defs, tx.inputs@[i].address@, d) && covers(flat, tx, defs, issuer_of(defs, d), d)
}

pub open spec fn output_done(flat: Seq<Change>, tx: MultiSend, defs: Seq<DenomDefinition>, i: int, j: int) -> bool {
    covers(flat, tx, defs, tx.outputs@[i].address@, tx.outputs@[i].coins@[j].denom@)
}

/// Every nonzero net change of the transfer, each once.
pub fn collect_changes(tx: &MultiSend, defs: &Vec<DenomDefinition>) -> (r: Vec<Change>)
    requires
        within_limits(*tx),
        all_defined(tx.inputs@, defs@),
        all_defined(tx.outputs@, defs@),
    ensures
        changes_wf(r@, *tx, defs@),
        forall|a: Seq<char>, d: Seq<char>| #[trigger] covers(r@, *tx, defs@, a, d),
{
    let mut flat: Vec<Change> = Vec::new();
    let mut i: usize = 0;
    while i < tx.inputs.len()
        invariant
            i <= tx.inputs@.len(),
            within_limits(*tx),
            all_defined(tx.inputs@, defs@),
            changes_wf(flat@, *tx, defs@),
            forall|i2: int, j2: int|
                0 <= i2 < i && 0 <= j2 < tx.inputs@[i2].coins@.len() ==> #[trigger] input_done(
                    flat@,
                    *tx,
                    defs@,
                    i2,
                    j2,
                ),
        decreases tx.inputs.len() - i,
    {
        let b = &tx.inputs[i];
        let mut j: usize = 0;
        while j < b.coins.len()
            invariant
                i < tx.inputs@.len(),
                b == tx.inputs@[i as int],
                j <= b.coins@.len(),
                within_limits(*tx),
                all_defined(tx.inputs@, defs@),
                changes_wf(flat@, *tx, defs@),
                forall|i2: int, j2: int|
                    0 <= i2 < i && 0 <= j2 < tx.inputs@[i2].coins@.len() ==> #[trigger] input_done(
                        flat@,
                        *tx,
                        defs@,
                        i2,
                        j2,
                    ),
                forall|j2: int| 0 <= j2 < j ==> #[trigger] input_done(flat@, *tx, defs@, i as int, j2),
            decreases b.coins.len() - j,
        {
            let d = &b.coins[j].denom;
            assert(!undefined_at(tx.inputs@, defs@, i as int, j as int));
            let k = find_definition(defs, d).unwrap();
            let ghost f0 = flat@;
            record(&mut flat, tx, defs, &b.address, d);
            let ghost f1 = flat@;
            record(&mut flat, tx, defs, &defs[k].issuer, d);
            assert(input_done(flat@, *tx, defs@, i as int, j as int));
            assert forall|i2: int, j2: int|
                0 <= i2 < tx.inputs@.len() && 0 <= j2 < tx.inputs@[i2].coins@.len() && input_done(
                    f0,
                    *tx,
                    defs@,
                    i2,
                    j2,
                ) implies #[trigger] input_done(flat@, *tx, defs@, i2, j2) by {
                let dd = tx.inputs@[i2].coins@[j2].denom@;
                assert(covers(f1, *tx, defs@, tx.inputs@[i2].address@, dd));
                assert(covers(f1, *tx, defs@, issuer_of(defs@, dd), dd));
            }
            j += 1;
        }
        i += 1;
    }
    let mut i: usize = 0;
    while i < tx.outputs.len()
        invariant
            i <= tx.outputs@.len(),
            within_limits(*tx),
            all_defined(tx.outputs@, defs@),
            changes_wf(flat@, *tx, defs@),
            forall|i2: int, j2: int|
                0 <= i2 < tx.inputs@.len() && 0 <= j2 < tx.inputs@[i2].coins@.len()
                    ==> #[trigger] input_done(flat@, *tx, defs@, i2, j2),
            forall|i2: int, j2: int|
                0 <= i2 < i && 0 <= j2 < tx.outputs@[i2].coins@.len() ==> #[trigger] output_done(
                    flat@,
                    *tx,
                    defs@,
                    i2,
                    j2,
                ),
        decreases tx.outputs.len() - i,
    {
        let b = &tx.outputs[i];
        let mut j: usize = 0;
        while j < b.coins.len()
            invariant
                i < tx.outputs@.len(),
                b == tx.outputs@[i as int],
                j <= b.coins@.len(),
                within_limits(*tx),
                all_defined(tx.outputs@, defs@),
                changes_wf(flat@, *tx, defs@),
                forall|i2: int, j2: int|
                    0 <= i2 < tx.inputs@.len() && 0 <= j2 < tx.inputs@[i2].coins@.len()
                        ==> #[trigger] input_done(flat@, *tx, defs@, i2, j2),
                forall|i2: int, j2: int|
                    0 <= i2 < i && 0 <= j2 < tx.outputs@[i2].coins@.len()
                        ==> #[trigger] output_done(flat@, *tx, defs@, i2, j2),
                forall|j2: int| 0 <= j2 < j ==> #[trigger] output_done(flat@, *tx, defs@, i as int, j2),
            decreases b.coins.len() - j,
        {
            assert(!undefined_at(tx.outputs@, defs@, i as int, j as int));
            let ghost f0 = flat@;
            record(&mut flat, tx, defs, &b.address, &b.coins[j].denom);
            assert forall|i2: int, j2: int|
                0 <= i2 < tx.inputs@.len() && 0 <= j2 < tx.inputs@[i2].coins@.len() && input_done(
                    f0,
                    *tx,
                    defs@,
                    i2,
                    j2,
                ) implies #[trigger] input_done(flat@, *tx, defs@, i2, j2) by {
                let dd = tx.inputs@[i2].coins@[j2].denom@;
                assert(covers(flat@, *tx, defs@, tx.inputs@[i2].address@, dd));
                assert(covers(flat@, *tx, defs@, issuer_of(defs@, dd), dd));
            }
            assert forall|i2: int, j2: int|
                0 <= i2 < tx.outputs@.len() && 0 <= j2 < tx.outputs@[i2].coins@.len() && output_done(
                    f0,
                    *tx,
                    defs@,
                    i2,
                    j2,
                ) implies #[trigger] output_done(flat@, *tx, defs@, i2, j2) by {
                assert(covers(
                    flat@,
                    *tx,
                    defs@,
                    tx.outputs@[i2].address@,
                    tx.outputs@[i2].coins@[j2].denom@,
                ));
            }
            j += 1;
        }
        i += 1;
    }
    proof {
        assert forall|a: Seq<char>, d: Seq<char>| #[trigger] covers(flat@, *tx, defs@, a, d) by {
            if delta(*tx, defs@, a, d) != 0 {
                lemma_change_sources(*tx, defs@, a, d);
                if exists|i: int, j: int|
                    0 <= i < tx.inputs@.len() && 0 <= j < tx.inputs@[i].coins@.len()
                        && tx.inputs@[i].coins@[j].denom@ == d && (tx.inputs@[i].address@ == a || a
                        == issuer_of(defs@, d)) {
                    let (i, j) = choose|i: int, j: int|
                        0 <= i < tx.inputs@.len() && 0 <= j < tx.inputs@[i].coins@.len()
                            && tx.inputs@[i].coins@[j].denom@ == d && (tx.inputs@[i].address@ == a
                            || a == issuer_of(defs@, d));
                    assert(input_done(flat@, *tx, defs@, i, j));
                } else {
                    let (i, j) = choose|i: int, j: int|
                        0 <= i < tx.outputs@.len() && 0 <= j < tx.outputs@[i].coins@.len()
                            && tx.outputs@[i].coins@[j].denom@ == d && tx.outputs@[i].address@ == a;
                    assert(output_done(flat@, *tx, defs@, i, j));
                }
            }
        }
    }
    flat
}

pub open spec fn keys_unique(flat: Seq<Change>) -> bool {
    forall|p: int, q: int|
        0 <= p < q < flat.len() ==> !(flat[p].address@ == flat[q].address@ && flat[p].denom@
            == flat[q].denom@)
}

/// Coin `c` is the change `p` of `flat`, of address `addr`.
pub open spec fn from_change(flat: Seq<Change>, addr: Seq<char>, c: Coin, p: int) -> bool {
    0 <= p < flat.len() && flat[p].address@ == addr && flat[p].denom@ == c.denom@ && flat[p].amount
        == c.amount
}

/// Coin `c` is a change of `flat`, of address `addr`.
pub open spec fn listed(flat: Seq<Change>, addr: Seq<char>, c: Coin) -> bool {
    exists|p: int| from_change(flat, addr, c, p)
}

/// Some balance of `result` has address `a`.
pub open spec fn has_address(result: Seq<Balance>, a: Seq<char>) -> bool {
    exists|i: int| 0 <= i < result.len() && result[i].address@ == a
}

/// Every coin of `coins` is a change of `addr`, and every change of `addr` is a coin.
pub open spec fn coins_for(flat: Seq<Change>, addr: Seq<char>, coins: Seq<Coin>) -> bool {
    &&& forall|j: int| 0 <= j < coins.len() ==> #[trigger] listed(flat, addr, coins[j])
    &&& forall|p: int|
        0 <= p < flat.len() && #[trigger] flat[p].address@ == addr ==> exists|j: int|
            0 <= j < coins.len() && coins[j].denom@ == flat[p].denom@
    &&& forall|j: int, k: int| 0 <= j < k < coins.len() ==> coins[j].denom@ != coins[k].denom@
}

/// Coin `c` is one of the first `p` changes of `flat`, of address `addr`.
pub open spec fn listed_before(flat: Seq<Change>, addr: Seq<char>, c: Coin, p: int) -> bool {
    exists|q: int| 0 <= q < p && from_change(flat, addr, c, q)
}

/// `coins` holds, in order, the changes of `addr` among the first `p` of `flat`.
pub open spec fn coins_upto(flat: Seq<Change>, addr: Seq<char>, coins: Seq<Coin>, p: int) -> bool {
    &&& forall|j: int| 0 <= j < coins.len() ==> #[trigger] listed_before(flat, addr, coins[j], p)
    &&& forall|j: int, k: int| 0 <= j < k < coins.len() ==> coins[j].denom@ != coins[k].denom@
    &&& forall|q: int|
        0 <= q < p && #[trigger] flat[q].address@ == addr ==> exists|j: int|
            0 <= j < coins.len() && coins[j].denom@ == flat[q].denom@
}

proof fn lemma_coins_skip(flat: Seq<Change>, addr: Seq<char>, coins: Seq<Coin>, p: int)
    requires
        coins_upto(flat, addr, coins, p),
        0 <= p < flat.len(),
        flat[p].address@ != addr,
    ensures
        coins_upto(flat, addr, coins, p + 1),
{
    assert forall|j: int| 0 <= j < coins.len() implies #[trigger] listed_before(flat, addr, coins[j], p + 1) by {
        assert(listed_before(flat, addr, coins[j], p));
        let q = choose|q: int| 0 <= q < p && from_change(flat, addr, coins[j], q);
        assert(0 <= q < p + 1 && from_change(flat, addr, coins[j], q));
    }
    assert forall|q: int|
        0 <= q < p + 1 && #[trigger] flat[q].address@ == addr implies exists|j: int|
            0 <= j < coins.len() && coins[j].denom@ == flat[q].denom@ by {
        assert(q < p);
    }
}

proof fn lemma_coins_push(flat: Seq<Change>, addr: Seq<char>, coins: Seq<Coin>, p: int, c: Coin)
    requires
        coins_upto(flat, addr, coins, p),
        keys_unique(flat),
        from_change(flat, addr, c, p),
    ensures
        coins_upto(flat, addr, coins.push(c), p + 1),
{
    let out = coins.push(c);
    assert forall|j: int| 0 <= j < out.len() implies #[trigger] listed_before(flat, addr, out[j], p + 1) by {
        if j < coins.len() {
            assert(listed_before(flat, addr, coins[j], p));
            let q = choose|q: int| 0 <= q < p && from_change(flat, addr, coins[j], q);
            assert(out[j] == coins[j]);
            assert(0 <= q < p + 1 && from_change(flat, addr, out[j], q));
        } else {
            assert(out[j] == c);
            assert(0 <= p < p + 1 && from_change(flat, addr, out[j], p));
        }
    }
    assert forall|j: int, k: int| 0 <= j < k < out.len() implies out[j].denom@ != out[k].denom@ by {
        if k == coins.len() {
            assert(listed_before(flat, addr, coins[j], p));
            let q = choose|q: int| 0 <= q < p && from_change(flat, addr, coins[j], q);
            assert(out[j] == coins[j]);
        } else {
            assert(out[j] == coins[j] && out[k] == coins[k]);
        }
    }
    assert forall|q: int|
        0 <= q < p + 1 && #[trigger] flat[q].address@ == addr implies exists|j: int|
            0 <= j < out.len() && out[j].denom@ == flat[q].denom@ by {
        if q < p {
            let j = choose|j: int| 0 <= j < coins.len() && coins[j].denom@ == flat[q].denom@;
            assert(out[j] == coins[j]);
        } else {
            assert(out[coins.len() as int] == c);
        }
    }
}

/// The changes of `address`, as coins.
fn coins_of(flat: &Vec<Change>, address: &String) -> (r: Vec<Coin>)
    requires
        keys_unique(flat@),
    ensures
        coins_for(flat@, address@, r@),
{
    let mut out: Vec<Coin> = Vec::new();
    let mut p: usize = 0;
    while p < flat.len()
        invariant
            p <= flat@.len(),
            keys_unique(flat@),
            coins_upto(flat@, address@, out@, p as int),
        decreases flat.len() - p,
    {
        if flat[p].address == *address {
            let c = Coin { denom: flat[p].denom.clone(), amount: flat[p].amount };
            proof {
                lemma_coins_push(flat@, address@, out@, p as int, c);
            }
            out.push(c);
        } else {
            proof {
                lemma_coins_skip(flat@, address@, out@, p as int);
            }
        }
        p += 1;
    }
    proof {
        assert forall|j: int| 0 <= j < out@.len() implies #[trigger] listed(flat@, address@, out@[j]) by {
            assert(listed_before(flat@, address@, out@[j], p as int));
            let q = choose|q: int| 0 <= q < p && from_change(flat@, address@, out@[j], q);
            assert(from_change(flat@, address@, out@[j], q));
        }
        assert forall|q: int|
            0 <= q < flat@.len() && #[trigger] flat@[q].address@ == address@ implies exists|j: int|
                0 <= j < out@.len() && out@[j].denom@ == flat@[q].denom@ by {
            assert(q < p);
        }
    }
    out
}

/// The changes of `flat`, one balance per address.
pub open spec fn grouped(flat: Seq<Change>, result: Seq<Balance>) -> bool {
    &&& forall|i: int, k: int|
        0 <= i < k < result.len() ==> result[i].address@ != result[k].address@
    &&& forall|i: int| 0 <= i < result.len() ==> #[trigger] result[i].coins@.len() > 0
    &&& forall|i: int| 0 <= i < result.len() ==> coins_for(flat, #[trigger] result[i].address@, result[i].coins@)
    &&& forall|p: int| 0 <= p < flat.len() ==> has_address(result, #[trigger] flat[p].address@)
}

pub fn group(flat: &Vec<Change>) -> (r: Vec<Balance>)
    requires
        keys_unique(flat@),
    ensures
        grouped(flat@, r@),
{
    let mut out: Vec<Balance> = Vec::new();
    let mut p: usize = 0;
    while p < flat.len()
        invariant
            p <= flat@.len(),
            keys_unique(flat@),
            forall|i: int, k: int| 0 <= i < k < out@.len() ==> out@[i].address@ != out@[k].address@,
            forall|i: int| 0 <= i < out@.len() ==> #[trigger] out@[i].coins@.len() > 0,
            forall|i: int| 0 <= i < out@.len() ==> coins_for(flat@, #[trigger] out@[i].address@, out@[i].coins@),
            forall|p2: int| 0 <= p2 < p ==> has_address(out@, #[trigger] flat@[p2].address@),
        decreases flat.len() - p,
    {
        let mut i: usize = 0;
        let mut found = false;
        while i < out.len()
            invariant
                i <= out@.len(),
                p < flat@.len(),
                found ==> exists|i2: int|
                    0 <= i2 < i && #[trigger] out@[i2].address@ == flat@[p as int].address@,
                !found ==> forall|i2: int|
                    0 <= i2 < i ==> #[trigger] out@[i2].address@ != flat@[p as int].address@,
            decreases out.len() - i,
        {
            if out[i].address == flat[p].address {
                found = true;
            }
            i += 1;
        }
        if !found {
            let coins = coins_of(flat, &flat[p].address);
            let ghost old_out = out@;
            out.push(Balance { address: flat[p].address.clone(), coins });
            proof {
                let n = out@.len() - 1;
                assert forall|i2: int| 0 <= i2 < n implies out@[i2] == old_out[i2] by {}
                assert(out@[n].address@ == flat@[p as int].address@);
                assert(coins_for(flat@, out@[n].address@, out@[n].coins@));
                assert(out@[n].coins@.len() > 0);
                assert forall|i2: int| 0 <= i2 < out@.len() implies #[trigger] out@[i2].coins@.len() > 0 by {
                    if i2 < n {
                        assert(out@[i2] == old_out[i2]);
                        assert(old_out[i2].coins@.len() > 0);
                    }
                }
                assert forall|i2: int| 0 <= i2 < out@.len() implies coins_for(
                    flat@,
                    #[trigger] out@[i2].address@,
                    out@[i2].coins@,
                ) by {
                    if i2 < n {
                        assert(out@[i2] == old_out[i2]);
                        assert(coins_for(flat@, old_out[i2].address@, old_out[i2].coins@));
                    }
                }
                assert forall|p2: int| 0 <= p2 < p + 1 implies has_address(out@, #[trigger] flat@[p2].address@) by {
                    if p2 < p {
                        assert(has_address(old_out, flat@[p2].address@));
                        let i = choose|i: int| 0 <= i < old_out.len() && #[trigger] old_out[i].address@ == flat@[p2].address@;
                        assert(out@[i] == old_out[i]);
                    } else {
                        assert(out@[n].address@ == flat@[p2].address@);
                    }
                }
            }
        } else {
            let ghost i2 = choose|i2: int|
                0 <= i2 < i && #[trigger] out@[i2].address@ == flat@[p as int].address@;
            assert(has_address(out@, flat@[p as int].address@));
        }
        p += 1;
    }
    out
}

} // verus!
