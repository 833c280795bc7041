use vstd::prelude::*;
use crate::model::{amounts_nonneg, coin_mass, coin_total, side_mass, side_total};
use crate::types::{Balance, Coin};

verus! {

pub open spec fn coins_nonneg(coins: Seq<Coin>) -> bool {
    forall|j: int| 0 <= j < coins.len() ==> #[trigger] coins[j].amount >= 0
}

/// `f` is non-negative and at most `k` times its argument on non-negative arguments.
pub open spec fn scaled_by(f: spec_fn(int) -> int, k: int) -> bool {
    forall|x: int| 0 <= x ==> 0 <= #[trigger] f(x) <= k * x
}

pub proof fn lemma_coin_step(coins: Seq<Coin>, j: int, d: Seq<char>, f: spec_fn(int) -> int)
    requires
        0 <= j < coins.len(),
    ensures
        coin_total(coins.take(j + 1), d, f) == coin_total(coins.take(j), d, f) + if coins[j].denom@
            == d {
            f(coins[j].amount as int)
        } else {
            0
        },
        coin_mass(coins.take(j + 1)) == coin_mass(coins.take(j)) + coins[j].amount,
{
    assert(coins.take(j + 1).drop_last() =~= coins.take(j));
}

pub proof fn lemma_side_step(
    side: Seq<Balance>,
    i: int,
    d: Seq<char>,
    who: spec_fn(Seq<char>) -> bool,
    f: spec_fn(int) -> int,
)
    requires
        0 <= i < side.len(),
    ensures
        side_total(side.take(i + 1), d, who, f) == side_total(side.take(i), d, who, f) + if who(
            side[i].address@,
        ) {
            coin_total(side[i].coins@, d, f)
        } else {
            0
        },
        side_mass(side.take(i + 1)) == side_mass(side.take(i)) + coin_mass(side[i].coins@),
{
    assert(side.take(i + 1).drop_last() =~= side.take(i));
}

pub proof fn lemma_coin_bound(coins: Seq<Coin>, d: Seq<char>, f: spec_fn(int) -> int, k: int)
    requires
        coins_nonneg(coins),
        scaled_by(f, k),
    ensures
        0 <= coin_total(coins, d, f) <= k * coin_mass(coins),
        0 <= coin_mass(coins),
    decreases coins.len(),
{
    if coins.len() > 0 {
        let rest = coins.drop_last();
        lemma_coin_bound(rest, d, f, k);
        let a = coins.last().amount as int;
        assert(0 <= a);
        assert(0 <= f(a) <= k * a);
        assert(k * coin_mass(rest) + k * a == k * (coin_mass(rest) + a)) by (nonlinear_arith);
    }
}

pub proof fn lemma_side_bound(
    side: Seq<Balance>,
    d: Seq<char>,
    who: spec_fn(Seq<char>) -> bool,
    f: spec_fn(int) -> int,
    k: int,
)
    requires
        amounts_nonneg(side),
        scaled_by(f, k),
    ensures
        0 <= side_total(side, d, who, f) <= k * side_mass(side),
        0 <= side_mass(side),
    decreases side.len(),
{
    if side.len() > 0 {
        let rest = side.drop_last();
        assert(amounts_nonneg(rest)) by {
            assert forall|i: int, j: int|
                0 <= i < rest.len() && 0 <= j < rest[i].coins@.len() implies rest[i].coins@[j].amount
                >= 0 by {
                assert(rest[i] == side[i]);
            }
        }
        lemma_side_bound(rest, d, who, f, k);
        let last = side.last();
        assert(coins_nonneg(last.coins@)) by {
            assert forall|j: int| 0 <= j < last.coins@.len() implies #[trigger] last.coins@[j].amount
                >= 0 by {
                assert(last == side[side.len() - 1]);
            }
        }
        lemma_coin_bound(last.coins@, d, f, k);
        let m = coin_mass(last.coins@);
        assert(k * side_mass(rest) + k * m == k * (side_mass(rest) + m)) by (nonlinear_arith);
    }
}

/// The sums over a prefix, and part of the next balance, stay within the bound of the whole.
pub proof fn lemma_partial_bound(
    side: Seq<Balance>,
    i: int,
    j: int,
    d: Seq<char>,
    who: spec_fn(Seq<char>) -> bool,
    f: spec_fn(int) -> int,
    k: int,
)
    requires
        amounts_nonneg(side),
        scaled_by(f, k),
        k >= 0,
        0 <= i < side.len(),
        0 <= j <= side[i].coins@.len(),
    ensures
        0 <= side_total(side.take(i), d, who, f) + coin_total(side[i].coins@.take(j), d, f) <= k
            * side_mass(side),
{
    let pre = side.take(i + 1);
    assert(amounts_nonneg(pre)) by {
        assert forall|a: int, b: int|
            0 <= a < pre.len() && 0 <= b < pre[a].coins@.len() implies pre[a].coins@[b].amount
            >= 0 by {
            assert(pre[a] == side[a]);
        }
    }
    assert(amounts_nonneg(side.take(i))) by {
        assert forall|a: int, b: int|
            0 <= a < side.take(i).len() && 0 <= b < side.take(i)[a].coins@.len() implies side.take(
            i,
        )[a].coins@[b].amount >= 0 by {
            assert(side.take(i)[a] == side[a]);
        }
    }
    let coins = side[i].coins@;
    assert(coins_nonneg(coins.take(j)));
    assert(coins_nonneg(coins));
    assert(coins_nonneg(coins.skip(j)));
    lemma_side_bound(side.take(i), d, who, f, k);
    lemma_coin_bound(coins.take(j), d, f, k);
    lemma_coin_bound(coins.skip(j), d, |x: int| x, 1);
    lemma_mass_split(coins, j);
    lemma_side_step(side, i, d, who, f);
    lemma_side_mass_prefix(side, i + 1);
    let a = side_mass(side.take(i));
    let b = coin_mass(coins.take(j));
    let c = coin_mass(coins);
    assert(k * a + k * b <= k * (a + c)) by (nonlinear_arith)
        requires
            b <= c,
            k >= 0,
    ;
    assert(k * (a + c) <= k * side_mass(side)) by (nonlinear_arith)
        requires
            a + c <= side_mass(side),
            k >= 0,
    ;
}

/// The mass of a sequence of coins is that of a prefix plus that of the rest.
pub proof fn lemma_mass_split(coins: Seq<Coin>, j: int)
    requires
        0 <= j <= coins.len(),
    ensures
        coin_mass(coins) == coin_mass(coins.take(j)) + coin_mass(coins.skip(j)),
    decreases coins.len() - j,
{
    if j < coins.len() {
        lemma_mass_split(coins, j + 1);
        lemma_coin_step(coins, j, Seq::empty(), |x: int| x);
        let s = coins.skip(j);
        assert(s.drop_first() =~= coins.skip(j + 1));
        lemma_mass_first(s);
    } else {
        assert(coins.take(j) =~= coins);
        assert(coins.skip(j).len() == 0);
    }
}

/// The mass of a non-empty sequence of coins, taken from its front.
pub proof fn lemma_mass_first(coins: Seq<Coin>)
    requires
        coins.len() > 0,
    ensures
        coin_mass(coins) == coins[0].amount + coin_mass(coins.drop_first()),
    decreases coins.len(),
{
    if coins.len() > 1 {
        let r = coins.drop_last();
        lemma_mass_first(r);
        assert(r.drop_first() =~= coins.drop_first().drop_last());
        assert(coin_mass(r) == r[0].amount + coin_mass(r.drop_first()));
        assert(coin_mass(coins) == coin_mass(r) + coins.last().amount);
        assert(coins.drop_first().last() == coins.last());
        assert(r[0] == coins[0]);
        assert(coin_mass(coins.drop_first()) == coin_mass(coins.drop_first().drop_last())
            + coins.drop_first().last().amount);
    } else {
        assert(coins.drop_first().len() == 0);
        assert(coins.drop_last().len() == 0);
        assert(coin_mass(coins.drop_last()) == 0);
        assert(coin_mass(coins.drop_first()) == 0);
        assert(coins.last() == coins[0]);
        assert(coin_mass(coins) == coin_mass(coins.drop_last()) + coins.last().amount);
    }
}

/// With non-negative amounts, the mass of a prefix of balances is at most the whole.
pub proof fn lemma_side_mass_prefix(side: Seq<Balance>, i: int)
    requires
        amounts_nonneg(side),
        0 <= i <= side.len(),
    ensures
        side_mass(side.take(i)) <= side_mass(side),
    decreases side.len() - i,
{
    if i < side.len() {
        lemma_side_mass_prefix(side, i + 1);
        lemma_side_step(side, i, Seq::empty(), |a: Seq<char>| true, |x: int| x);
        assert(coins_nonneg(side[i].coins@));
        lemma_coin_bound(side[i].coins@, Seq::empty(), |x: int| x, 1);
    } else {
        assert(side.take(i) =~= side);
    }
}

/// Sums agree where their filters and their costs agree pointwise.
pub proof fn lemma_side_ext(
    side: Seq<Balance>,
    d: Seq<char>,
    who1: spec_fn(Seq<char>) -> bool,
    f1: spec_fn(int) -> int,
    who2: spec_fn(Seq<char>) -> bool,
    f2: spec_fn(int) -> int,
)
    requires
        forall|a: Seq<char>| #[trigger] who1(a) == who2(a),
        forall|x: int| #[trigger] f1(x) == f2(x),
    ensures
        side_total(side, d, who1, f1) == side_total(side, d, who2, f2),
    decreases side.len(),
{
    if side.len() > 0 {
        lemma_side_ext(side.drop_last(), d, who1, f1, who2, f2);
        lemma_coin_ext(side.last().coins@, d, f1, f2);
    }
}

pub proof fn lemma_coin_ext(coins: Seq<Coin>, d: Seq<char>, f1: spec_fn(int) -> int, f2: spec_fn(int) -> int)
    requires
        forall|x: int| #[trigger] f1(x) == f2(x),
    ensures
        coin_total(coins, d, f1) == coin_total(coins, d, f2),
    decreases coins.len(),
{
    if coins.len() > 0 {
        lemma_coin_ext(coins.drop_last(), d, f1, f2);
    }
}

/// A sum over balances none of which, among those picked, has a coin of `d` is zero.
pub proof fn lemma_side_absent(
    side: Seq<Balance>,
    d: Seq<char>,
    who: spec_fn(Seq<char>) -> bool,
    f: spec_fn(int) -> int,
)
    requires
        forall|i: int, j: int|
            0 <= i < side.len() && 0 <= j < side[i].coins@.len() && who(side[i].address@)
                ==> #[trigger] side[i].coins@[j].denom@ != d,
    ensures
        side_total(side, d, who, f) == 0,
    decreases side.len(),
{
    if side.len() > 0 {
        let rest = side.drop_last();
        assert forall|i: int, j: int|
            0 <= i < rest.len() && 0 <= j < rest[i].coins@.len() && who(rest[i].address@)
                implies #[trigger] rest[i].coins@[j].denom@ != d by {
            assert(rest[i] == side[i]);
        }
        lemma_side_absent(rest, d, who, f);
        let last = side.last();
        if who(last.address@) {
            assert(last == side[side.len() - 1]);
            lemma_coin_absent(last.coins@, d, f);
        }
    }
}

pub proof fn lemma_coin_absent(coins: Seq<Coin>, d: Seq<char>, f: spec_fn(int) -> int)
    requires
        forall|j: int| 0 <= j < coins.len() ==> #[trigger] coins[j].denom@ != d,
    ensures
        coin_total(coins, d, f) == 0,
    decreases coins.len(),
{
    if coins.len() > 0 {
        let rest = coins.drop_last();
        assert forall|j: int| 0 <= j < rest.len() implies #[trigger] rest[j].denom@ != d by {
            assert(rest[j] == coins[j]);
        }
        lemma_coin_absent(rest, d, f);
    }
}

/// A coin of a side with non-negative amounts moves at most the side's mass.
pub proof fn lemma_coin_le_mass(side: Seq<Balance>, i: int, j: int)
    requires
        amounts_nonneg(side),
        0 <= i < side.len(),
        0 <= j < side[i].coins@.len(),
    ensures
        0 <= side[i].coins@[j].amount <= side_mass(side),
{
    let c = side[i].coins@[j];
    let who = |a: Seq<char>| true;
    let id = |x: int| x;
    assert(scaled_by(id, 1));
    lemma_partial_bound(side, i, j + 1, c.denom@, who, id, 1);
    assert(amounts_nonneg(side.take(i))) by {
        assert forall|a: int, b: int|
            0 <= a < side.take(i).len() && 0 <= b < side.take(i)[a].coins@.len() implies side.take(
            i,
        )[a].coins@[b].amount >= 0 by {
            assert(side.take(i)[a] == side[a]);
        }
    }
    lemma_side_bound(side.take(i), c.denom@, who, id, 1);
    assert(coins_nonneg(side[i].coins@.take(j)));
    lemma_coin_bound(side[i].coins@.take(j), c.denom@, id, 1);
    lemma_coin_step(side[i].coins@, j, c.denom@, id);
}

} // verus!
