//! Coin change: the minimum number of coins that make an amount.
use vstd::prelude::*;

verus! {

/// Sum of the values in `s`.
pub open spec fn total(s: Seq<i32>) -> int
    decreases s.len(),
{
    if s.len() == 0 {
        0
    } else {
        total(s.drop_last()) + s.last() as int
    }
}

/// `picks` are positive values taken from `coins` (any number of times each)
/// that add up to `amount`.
pub open spec fn makes(coins: Seq<i32>, amount: int, picks: Seq<i32>) -> bool {
    &&& forall|i: int| 0 <= i < picks.len() ==> #[trigger] picks[i] > 0 && coins.contains(picks[i])
    &&& total(picks) == amount
}

/// `amount` can be made from exactly `n` coins.
pub open spec fn makeable(coins: Seq<i32>, amount: int, n: nat) -> bool {
    exists|picks: Seq<i32>| picks.len() == n && #[trigger] makes(coins, amount, picks)
}

proof fn lemma_total_at_least_len(picks: Seq<i32>)
    requires
        forall|i: int| 0 <= i < picks.len() ==> #[trigger] picks[i] > 0,
    ensures
        total(picks) >= picks.len(),
    decreases picks.len(),
{
    if picks.len() > 0 {
        assert forall|i: int| 0 <= i < picks.drop_last().len() implies #[trigger] picks.drop_last()[i] > 0 by {
            assert(picks.drop_last()[i] == picks[i]);
        }
        lemma_total_at_least_len(picks.drop_last());
    }
}

/// The fewest coins (of the positive values in `coins`, each usable any number
/// of times) that add up to `amount`, or `None` when no combination does.
pub fn coin_change(coins: &[i32], amount: i32) -> (r: Option<i32>)
    ensures
        match r {
            Some(c) => c >= 0 && makeable(coins@, amount as int, c as nat) && forall|m: nat|
                makeable(coins@, amount as int, m) ==> c <= m,
            None => forall|m: nat| !makeable(coins@, amount as int, m),
        },
{
    if amount < 0 {
        proof {
            assert forall|m: nat| !makeable(coins@, amount as int, m) by {
                if makeable(coins@, amount as int, m) {
                    let picks = choose|picks: Seq<i32>| picks.len() == m && #[trigger] makes(coins@, amount as int, picks);
                    lemma_total_at_least_len(picks);
                }
            }
        }
        return None;
    }
    let amount = amount as usize;
    let mut dp: Vec<usize> = Vec::new();
    let mut k: usize = 0;
    while k <= amount
        invariant
            k <= amount + 1,
            amount <= 0x7FFF_FFFF,
            dp@.len() == k,
            forall|j: int| 0 <= j < k ==> dp@[j] == usize::MAX,
        decreases amount + 1 - k,
    {
        dp.push(usize::MAX);
        k = k + 1;
    }
    dp.set(0, 0);
    let ghost mut wit: Seq<Seq<i32>> = Seq::new((amount + 1) as nat, |t: int| Seq::<i32>::empty());
    proof {
        assert(makes(coins@, 0, Seq::<i32>::empty()));
        assert(makeable(coins@, 0, 0nat));
    }
    let mut t: usize = 1;
    while t <= amount
        invariant
            1 <= t <= amount + 1,
            dp@.len() == amount + 1,
            wit.len() == amount + 1,
            dp@[0] == 0,
            wit[0] == Seq::<i32>::empty(),
            amount <= 0x7FFF_FFFF,
            forall|j: int| t <= j <= amount ==> #[trigger] dp@[j] == usize::MAX,
            // Every total below `t` has its optimum in `dp`.
            forall|j: int|
                0 <= j < t ==> (#[trigger] dp@[j] == usize::MAX <==> forall|m: nat|
                    !makeable(coins@, j, m)),
            forall|j: int|
                0 <= j < t && #[trigger] dp@[j] != usize::MAX ==> wit[j].len() == dp@[j]
                    && makes(coins@, j, wit[j]) && dp@[j] <= j,
            forall|j: int, m: nat|
                0 <= j < t && #[trigger] makeable(coins@, j, m) ==> dp@[j] <= m,
        decreases amount + 1 - t,
    {
        let mut ci: usize = 0;
        while ci < coins.len()
            invariant
                1 <= t <= amount,
                dp@.len() == amount + 1,
                wit.len() == amount + 1,
                dp@[0] == 0,
                wit[0] == Seq::<i32>::empty(),
                amount <= 0x7FFF_FFFF,
                forall|j: int| t < j <= amount ==> #[trigger] dp@[j] == usize::MAX,
                ci <= coins@.len(),
                forall|j: int|
                    0 <= j < t ==> (#[trigger] dp@[j] == usize::MAX <==> forall|m: nat|
                        !makeable(coins@, j, m)),
                forall|j: int|
                    0 <= j < t && #[trigger] dp@[j] != usize::MAX ==> wit[j].len() == dp@[j]
                        && makes(coins@, j, wit[j]) && dp@[j] <= j,
                forall|j: int, m: nat|
                    0 <= j < t && #[trigger] makeable(coins@, j, m) ==> dp@[j] <= m,
                dp@[t as int] != usize::MAX ==> wit[t as int].len() == dp@[t as int]
                    && makes(coins@, t as int, wit[t as int]) && dp@[t as int] <= t,
                // Every coin seen so far has been tried at `t`.
                forall|c: int|
                    0 <= c < ci && 0 < coins@[c] <= t && dp@[t - coins@[c]] != usize::MAX
                        ==> dp@[t as int] <= dp@[t - coins@[c]] + 1,
            decreases coins@.len() - ci,
        {
            let coin = coins[ci];
            if coin > 0 && (coin as usize) <= t && dp[t - coin as usize] != usize::MAX {
                let c = coin as usize;
                let candidate = dp[t - c] + 1;
                if candidate < dp[t] {
                    dp.set(t, candidate);
                    proof {
                        let w = wit[t - c].push(coin);
                        assert(w.drop_last() =~= wit[t - c]);
                        assert(coins@.contains(coin)) by {
                            assert(coins@[ci as int] == coin);
                        }
                        assert forall|i: int| 0 <= i < w.len() implies #[trigger] w[i] > 0 && coins@.contains(w[i]) by {
                            if i < w.len() - 1 {
                                assert(w[i] == wit[t - c][i]);
                            }
                        }
                        wit = wit.update(t as int, w);
                    }
                }
            }
            ci = ci + 1;
        }
        proof {
            assert forall|m: nat| #[trigger] makeable(coins@, t as int, m) implies dp@[t as int] <= m
                && dp@[t as int] != usize::MAX by {
                let picks = choose|picks: Seq<i32>| picks.len() == m && #[trigger] makes(coins@, t as int, picks);
                lemma_total_at_least_len(picks);
                let last = picks.last();
                let rest = picks.drop_last();
                assert(picks[picks.len() - 1] == last);
                assert(coins@.contains(last));
                let c = choose|c: int| 0 <= c < coins@.len() && coins@[c] == last;
                assert forall|i: int| 0 <= i < rest.len() implies #[trigger] rest[i] > 0 && coins@.contains(rest[i]) by {
                    assert(rest[i] == picks[i]);
                }
                lemma_total_at_least_len(rest);
                assert(makes(coins@, t - last, rest));
                assert(makeable(coins@, t - last, (m - 1) as nat));
                assert(dp@[t - last] <= m - 1);
                assert(dp@[t - last] != usize::MAX);
                assert(dp@[t - last] <= t - last);
            }
            if dp@[t as int] != usize::MAX {
                assert(makeable(coins@, t as int, dp@[t as int] as nat));
            }
        }
        t = t + 1;
    }
    if dp[amount] == usize::MAX {
        None
    } else {
        proof {
            assert(makeable(coins@, amount as int, dp@[amount as int] as nat));
        }
        Some(dp[amount] as i32)
    }
}

} // verus!
