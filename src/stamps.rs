//! Fewest stamps (coins) that sum to a target, by dynamic programming over
//! a growing memo table.

use vstd::prelude::*;

verus! {

/// The fewest coins of `coins` that sum to `n`, or `u32::MAX` when no
/// combination does.
pub open spec fn fewest_coins(coins: Seq<usize>, n: nat) -> int
    decreases n, coins.len() + 1,
{
    if n == 0 {
        0
    } else {
        best_last_coin(coins, n, coins.len())
    }
}

/// The fewest coins that sum to `n` when the last coin is one of the first
/// `k` of `coins`, or `u32::MAX` when there is no such combination.
pub open spec fn best_last_coin(coins: Seq<usize>, n: nat, k: nat) -> int
    decreases n, k,
{
    if k == 0 || k > coins.len() {
        u32::MAX as int
    } else {
        let c = coins[k - 1];
        let rest = best_last_coin(coins, n, (k - 1) as nat);
        if 1 <= c <= n {
            let with_c = fewest_coins(coins, (n - c) as nat) + 1;
            if with_c < rest {
                with_c
            } else {
                rest
            }
        } else {
            rest
        }
    }
}

/// The coin values are positive and include `1`, so every amount can be made.
pub open spec fn valid_coins(coins: Seq<usize>) -> bool {
    &&& coins.contains(1)
    &&& forall|i: int| 0 <= i < coins.len() ==> #[trigger] coins[i] >= 1
}

proof fn lemma_best_last_coin_bound(coins: Seq<usize>, n: nat, k: nat, j: int)
    requires
        0 <= j < k <= coins.len(),
        1 <= coins[j] <= n,
    ensures
        best_last_coin(coins, n, k) <= fewest_coins(coins, (n - coins[j]) as nat) + 1,
    decreases k,
{
    if j < k - 1 {
        lemma_best_last_coin_bound(coins, n, (k - 1) as nat, j);
    }
}

proof fn lemma_best_last_coin_nonneg(coins: Seq<usize>, n: nat, k: nat)
    requires
        forall|m: nat| m < n ==> #[trigger] fewest_coins(coins, m) >= 0,
    ensures
        best_last_coin(coins, n, k) >= 0,
    decreases k,
{
    if k > 0 && k <= coins.len() {
        lemma_best_last_coin_nonneg(coins, n, (k - 1) as nat);
        let c = coins[k - 1];
        if 1 <= c <= n {
            assert(fewest_coins(coins, (n - c) as nat) >= 0);
        }
    }
}

/// With a coin of value `1`, an amount `n` never needs more than `n` coins.
pub proof fn lemma_fewest_coins_bound(coins: Seq<usize>, n: nat)
    requires
        valid_coins(coins),
    ensures
        0 <= fewest_coins(coins, n) <= n,
    decreases n,
{
    if n > 0 {
        assert forall|m: nat| m < n implies #[trigger] fewest_coins(coins, m) >= 0 by {
            lemma_fewest_coins_bound(coins, m);
        }
        lemma_best_last_coin_nonneg(coins, n, coins.len());
        let j = choose|j: int| 0 <= j < coins.len() && coins[j] == 1;
        lemma_fewest_coins_bound(coins, (n - 1) as nat);
        lemma_best_last_coin_bound(coins, n, coins.len(), j);
    }
}

/// Fewest-coin counts for the amounts `0, 1, 2, ...`, computed on demand.
pub struct ChangeMaker {
    coins: Vec<usize>,
    memo: Vec<u32>,
}

impl ChangeMaker {
    /// The coin values.
    pub closed spec fn coin_values(&self) -> Seq<usize> {
        self.coins@
    }

    /// The memo holds the fewest-coin count of each amount below its length.
    pub closed spec fn wf(&self) -> bool {
        &&& valid_coins(self.coins@)
        &&& self.memo@.len() >= 1
        &&& forall|n: int|
            0 <= n < self.memo@.len() ==> #[trigger] self.memo@[n] as int == fewest_coins(
                self.coins@,
                n as nat,
            )
    }

    /// A change maker for the coin values `coins`.
    pub fn new(coins: &[usize]) -> (r: Self)
        requires
            valid_coins(coins@),
        ensures
            r.wf(),
            r.coin_values() == coins@,
    {
        let mut memo: Vec<u32> = Vec::new();
        memo.push(0);
        let mut values: Vec<usize> = Vec::new();
        let mut i: usize = 0;
        while i < coins.len()
            invariant
                i <= coins.len(),
                values@ == coins@.take(i as int),
            decreases coins.len() - i,
        {
            values.push(coins[i]);
            i = i + 1;
            proof {
                assert(values@ =~= coins@.take(i as int));
            }
        }
        proof {
            assert(values@ =~= coins@);
        }
        ChangeMaker { coins: values, memo }
    }

    /// The fewest coins that sum to `target`.
    pub fn calculate_memo(&mut self, target: usize) -> (r: u32)
        requires
            old(self).wf(),
            target < u32::MAX,
        ensures
            final(self).wf(),
            final(self).coin_values() == old(self).coin_values(),
            r as int == fewest_coins(old(self).coin_values(), target as nat),
    {
        let ghost coins = self.coins@;
        let mut n: usize = self.memo.len();
        while n <= target
            invariant
                self.wf(),
                self.coins@ == coins,
                target < u32::MAX,
                n == self.memo@.len(),
            decreases target + 1 - n,
        {
            let mut min_coins: u32 = u32::MAX;
            let mut i: usize = 0;
            while i < self.coins.len()
                invariant
                    self.wf(),
                    self.coins@ == coins,
                    target < u32::MAX,
                    n == self.memo@.len(),
                    1 <= n <= target,
                    i <= coins.len(),
                    min_coins as int == best_last_coin(coins, n as nat, i as nat),
                decreases coins.len() - i,
            {
                let coin = self.coins[i];
                if n >= coin {
                    proof {
                        assert(coins[i as int] >= 1);
                        lemma_fewest_coins_bound(coins, (n - coin) as nat);
                    }
                    let with_coin = self.memo[n - coin] + 1;
                    if with_coin < min_coins {
                        min_coins = with_coin;
                    }
                }
                i = i + 1;
            }
            self.memo.push(min_coins);
            n = n + 1;
        }
        self.memo[target]
    }
}


/// The fewest-coin counts of the amounts `targets`, summed.
pub open spec fn stamps_total(coins: Seq<usize>, targets: Seq<usize>) -> int
    decreases targets.len(),
{
    if targets.len() == 0 {
        0
    } else {
        fewest_coins(coins, targets[0] as nat) + stamps_total(coins, targets.drop_first())
    }
}

/// The least `fewest(l) + fewest(t - l)` over the splits `l <= t - l` with `l >= from`,
/// or `u32::MAX` when there is none.
pub open spec fn best_split_from(coins: Seq<usize>, t: nat, from: nat) -> int
    decreases t + 1 - from,
{
    if 2 * from > t {
        u32::MAX as int
    } else {
        let here = fewest_coins(coins, from) + fewest_coins(coins, (t - from) as nat);
        let later = best_split_from(coins, t, from + 1);
        if here < later {
            here
        } else {
            later
        }
    }
}

/// The smallest part a balanced split of `t` may have: the two parts differ
/// by at most one hundred.
pub open spec fn split_start(t: nat) -> nat {
    if (t + 1) / 2 >= 50 {
        ((t + 1) / 2 - 50) as nat
    } else {
        0
    }
}

/// The fewest stamps for the amounts `targets`, each split into two
/// balanced parts; an amount of zero counts nothing.
pub open spec fn split_total(coins: Seq<usize>, targets: Seq<usize>) -> int
    decreases targets.len(),
{
    if targets.len() == 0 {
        0
    } else {
        let t = targets[0] as nat;
        (if t == 0 {
            0
        } else {
            best_split_from(coins, t, split_start(t))
        }) + split_total(coins, targets.drop_first())
    }
}

/// The coin values of the first kind of sorting.
pub open spec fn first_coins() -> Seq<usize> {
    seq![1, 3, 5, 10]
}

/// The coin values of the second kind of sorting.
pub open spec fn second_coins() -> Seq<usize> {
    seq![1, 3, 5, 10, 15, 16, 20, 24, 25, 30]
}

/// The coin values of the third kind of sorting.
pub open spec fn third_coins() -> Seq<usize> {
    seq![1, 3, 5, 10, 15, 16, 20, 24, 25, 30, 37, 38, 49, 50, 74, 75, 100, 101]
}

proof fn lemma_stamps_total_nonneg(coins: Seq<usize>, targets: Seq<usize>)
    requires
        valid_coins(coins),
    ensures
        stamps_total(coins, targets) >= 0,
    decreases targets.len(),
{
    if targets.len() > 0 {
        lemma_fewest_coins_bound(coins, targets[0] as nat);
        lemma_stamps_total_nonneg(coins, targets.drop_first());
    }
}

proof fn lemma_best_split_nonneg(coins: Seq<usize>, t: nat, from: nat)
    requires
        valid_coins(coins),
    ensures
        best_split_from(coins, t, from) >= 0,
    decreases t + 1 - from,
{
    if 2 * from <= t {
        lemma_fewest_coins_bound(coins, from);
        lemma_fewest_coins_bound(coins, (t - from) as nat);
        lemma_best_split_nonneg(coins, t, from + 1);
    }
}

proof fn lemma_best_split_at_most_max(coins: Seq<usize>, t: nat, from: nat)
    ensures
        best_split_from(coins, t, from) <= u32::MAX,
    decreases t + 1 - from,
{
    if 2 * from <= t {
        lemma_best_split_at_most_max(coins, t, from + 1);
    }
}

proof fn lemma_split_total_nonneg(coins: Seq<usize>, targets: Seq<usize>)
    requires
        valid_coins(coins),
    ensures
        split_total(coins, targets) >= 0,
    decreases targets.len(),
{
    if targets.len() > 0 {
        let t = targets[0] as nat;
        lemma_best_split_nonneg(coins, t, split_start(t));
        lemma_split_total_nonneg(coins, targets.drop_first());
    }
}

/// The fewest coins of `maker` for each of `targets`, summed.
fn sum_of_fewest(maker: &mut ChangeMaker, targets: &[usize]) -> (r: u32)
    requires
        old(maker).wf(),
        forall|i: int| 0 <= i < targets.len() ==> #[trigger] targets[i] < u32::MAX,
        stamps_total(old(maker).coin_values(), targets@) <= u32::MAX,
    ensures
        final(maker).wf(),
        final(maker).coin_values() == old(maker).coin_values(),
        r == stamps_total(old(maker).coin_values(), targets@),
{
    let ghost coins = maker.coin_values();
    let mut total: u32 = 0;
    let mut i: usize = 0;
    proof {
        assert(targets@.skip(0) =~= targets@);
    }
    while i < targets.len()
        invariant
            maker.wf(),
            maker.coin_values() == coins,
            i <= targets.len(),
            forall|j: int| 0 <= j < targets.len() ==> #[trigger] targets[j] < u32::MAX,
            stamps_total(coins, targets@) <= u32::MAX,
            total + stamps_total(coins, targets@.skip(i as int)) == stamps_total(coins, targets@),
        decreases targets.len() - i,
    {
        proof {
            assert(targets@.skip(i as int).drop_first() =~= targets@.skip(i + 1));
            lemma_stamps_total_nonneg(coins, targets@.skip(i + 1));
        }
        total = total + maker.calculate_memo(targets[i]);
        i = i + 1;
    }
    proof {
        assert(targets@.skip(0) =~= targets@);
    }
    total
}

/// The fewest stamps for each of `targets` with the coins `1, 3, 5, 10`, summed.
pub fn part1(targets: &[usize]) -> (r: u32)
    requires
        forall|i: int| 0 <= i < targets.len() ==> #[trigger] targets[i] < u32::MAX,
        stamps_total(first_coins(), targets@) <= u32::MAX,
    ensures
        r == stamps_total(first_coins(), targets@),
{
    let coins: Vec<usize> = vec![1, 3, 5, 10];
    proof {
        assert(coins@ =~= first_coins());
        assert(coins@[0] == 1);
    }
    let mut maker = ChangeMaker::new(coins.as_slice());
    sum_of_fewest(&mut maker, targets)
}

/// The fewest stamps for each of `targets` with the coins up to `30`, summed.
pub fn part2(targets: &[usize]) -> (r: u32)
    requires
        forall|i: int| 0 <= i < targets.len() ==> #[trigger] targets[i] < u32::MAX,
        stamps_total(second_coins(), targets@) <= u32::MAX,
    ensures
        r == stamps_total(second_coins(), targets@),
{
    let coins: Vec<usize> = vec![1, 3, 5, 10, 15, 16, 20, 24, 25, 30];
    proof {
        assert(coins@ =~= second_coins());
        assert(coins@[0] == 1);
    }
    let mut maker = ChangeMaker::new(coins.as_slice());
    sum_of_fewest(&mut maker, targets)
}

/// The fewest stamps for `target` split into two parts that differ by at
/// most one hundred.
fn fewest_balanced_split(maker: &mut ChangeMaker, target: usize) -> (r: u32)
    requires
        old(maker).wf(),
        1 <= target < u32::MAX,
    ensures
        final(maker).wf(),
        final(maker).coin_values() == old(maker).coin_values(),
        r == best_split_from(old(maker).coin_values(), target as nat, split_start(target as nat)),
{
    let ghost coins = maker.coin_values();
    let mut best: u32 = u32::MAX;
    let half = (target + 1) / 2;
    let mut left: usize = if half >= 50 {
        half - 50
    } else {
        0
    };
    let ghost first = left as nat;
    proof {
        lemma_best_split_at_most_max(coins, target as nat, first);
    }
    while left <= target - left
        invariant
            maker.wf(),
            maker.coin_values() == coins,
            1 <= target < u32::MAX,
            first <= left,
            2 * first <= target + 1,
            left <= target / 2 + 1,
            (if best < best_split_from(coins, target as nat, left as nat) {
                best as int
            } else {
                best_split_from(coins, target as nat, left as nat)
            }) == best_split_from(coins, target as nat, first),
        decreases target + 1 - left,
    {
        let right = target - left;
        proof {
            lemma_fewest_coins_bound(coins, left as nat);
            lemma_fewest_coins_bound(coins, right as nat);
        }
        let left_stamps = maker.calculate_memo(left);
        let right_stamps = maker.calculate_memo(right);
        let stamps = left_stamps + right_stamps;
        if stamps < best {
            best = stamps;
        }
        left = left + 1;
    }
    proof {
        assert(best_split_from(coins, target as nat, left as nat) == u32::MAX);
    }
    best
}

/// The fewest stamps for each non-zero amount of `targets` split into two
/// balanced parts, with the coins up to `101`, summed.
pub fn part3(targets: &[usize]) -> (r: u32)
    requires
        forall|i: int| 0 <= i < targets.len() ==> #[trigger] targets[i] < u32::MAX,
        split_total(third_coins(), targets@) <= u32::MAX,
    ensures
        r == split_total(third_coins(), targets@),
{
    let coins: Vec<usize> = vec![
        1, 3, 5, 10, 15, 16, 20, 24, 25, 30, 37, 38, 49, 50, 74, 75, 100, 101,
    ];
    proof {
        assert(coins@ =~= third_coins());
        assert(coins@[0] == 1);
    }
    let mut maker = ChangeMaker::new(coins.as_slice());
    let ghost c = third_coins();
    let mut total: u32 = 0;
    let mut i: usize = 0;
    proof {
        assert(targets@.skip(0) =~= targets@);
    }
    while i < targets.len()
        invariant
            maker.wf(),
            maker.coin_values() == c,
            valid_coins(c),
            i <= targets.len(),
            forall|j: int| 0 <= j < targets.len() ==> #[trigger] targets[j] < u32::MAX,
            split_total(c, targets@) <= u32::MAX,
            total + split_total(c, targets@.skip(i as int)) == split_total(c, targets@),
        decreases targets.len() - i,
    {
        proof {
            assert(targets@.skip(i as int).drop_first() =~= targets@.skip(i + 1));
            lemma_split_total_nonneg(c, targets@.skip(i + 1));
        }
        let target = targets[i];
        if target != 0 {
            let best = fewest_balanced_split(&mut maker, target);
            total = total + best;
        }
        i = i + 1;
    }
    proof {
        assert(targets@.skip(0) =~= targets@);
    }
    total
}
} // verus!
