//! Potion counting for a line of monsters: each letter names a monster, and
//! monsters fighting in a group need extra potions.

use vstd::prelude::*;
use crate::text::{trim_bounds, trimmed};

verus! {

/// Potions needed for one monster, or `None` for a letter that is no monster.
pub open spec fn potions_for(c: u8) -> Option<int> {
    if c == 65 {
        Some(0)
    } else if c == 66 {
        Some(1)
    } else if c == 67 {
        Some(3)
    } else if c == 68 {
        Some(5)
    } else {
        None
    }
}

/// Potions for the monster named by `c`, or zero for a letter that is no monster.
pub open spec fn potions_or_zero(c: u8) -> int {
    match potions_for(c) {
        Some(v) => v,
        None => 0,
    }
}

/// Potions for the monsters of `s`, ignoring what is no monster.
pub open spec fn plain_total(s: Seq<u8>) -> int
    decreases s.len(),
{
    if s.len() == 0 {
        0
    } else {
        potions_or_zero(s[0]) + plain_total(s.drop_first())
    }
}

/// Number of monsters in `s`.
pub open spec fn monsters(s: Seq<u8>) -> int
    decreases s.len(),
{
    if s.len() == 0 {
        0
    } else {
        (if potions_for(s[0]) is Some { 1int } else { 0int }) + monsters(s.drop_first())
    }
}

/// Extra potions for a group with `n` monsters: two each when two or three fight together.
pub open spec fn group_bonus(n: int) -> int {
    if n == 3 {
        6
    } else if n == 2 {
        2
    } else {
        0
    }
}

/// Potions for the full groups of `k` letters at the front of `s`; a shorter
/// remainder at the end is ignored.
pub open spec fn grouped_total(s: Seq<u8>, k: nat) -> int
    decreases s.len(),
{
    if k == 0 || s.len() < k {
        0
    } else {
        plain_total(s.take(k as int)) + group_bonus(monsters(s.take(k as int))) + grouped_total(
            s.skip(k as int),
            k,
        )
    }
}

proof fn lemma_plain_total_bounds(s: Seq<u8>)
    ensures
        0 <= plain_total(s) <= 5 * s.len(),
        0 <= monsters(s) <= s.len(),
    decreases s.len(),
{
    if s.len() > 0 {
        lemma_plain_total_bounds(s.drop_first());
    }
}

proof fn lemma_grouped_total_nonneg(s: Seq<u8>, k: nat)
    ensures
        grouped_total(s, k) >= 0,
    decreases s.len(),
{
    if k > 0 && s.len() >= k {
        lemma_plain_total_bounds(s.take(k as int));
        lemma_grouped_total_nonneg(s.skip(k as int), k);
    }
}

/// Groups of one letter get no bonus.
proof fn lemma_grouped_by_one(s: Seq<u8>)
    ensures
        grouped_total(s, 1) == plain_total(s),
    decreases s.len(),
{
    if s.len() >= 1 {
        lemma_grouped_by_one(s.skip(1));
        let one = s.take(1);
        assert(one.drop_first() =~= Seq::<u8>::empty());
        assert(one[0] == s[0]);
        assert(plain_total(one) == potions_or_zero(s[0]) + plain_total(one.drop_first()));
        assert(monsters(one) == (if potions_for(s[0]) is Some { 1int } else { 0int }) + monsters(
            one.drop_first(),
        ));
        assert(s.skip(1) =~= s.drop_first());
    }
}

/// Potions needed for the monster named by `c`.
pub fn potions_needed(c: u8) -> (r: Option<i64>)
    ensures
        r matches Some(v) ==> potions_for(c) == Some(v as int),
        r is None ==> potions_for(c) is None,
{
    if c == 65 {
        Some(0)
    } else if c == 66 {
        Some(1)
    } else if c == 67 {
        Some(3)
    } else if c == 68 {
        Some(5)
    } else {
        None
    }
}

/// Potions for the letters `s[lo..hi]`, each monster fighting alone.
fn plain_potions(s: &[u8], lo: usize, hi: usize) -> (r: (i64, i64))
    requires
        lo <= hi <= s.len(),
        hi - lo <= 3,
    ensures
        r.0 == plain_total(s@.subrange(lo as int, hi as int)),
        r.1 == monsters(s@.subrange(lo as int, hi as int)),
{
    let mut total: i64 = 0;
    let mut count: i64 = 0;
    let mut i = lo;
    while i < hi
        invariant
            lo <= i <= hi <= s.len(),
            hi - lo <= 3,
            0 <= total <= 5 * (i - lo),
            0 <= count <= i - lo,
            total + plain_total(s@.subrange(i as int, hi as int)) == plain_total(
                s@.subrange(lo as int, hi as int),
            ),
            count + monsters(s@.subrange(i as int, hi as int)) == monsters(
                s@.subrange(lo as int, hi as int),
            ),
        decreases hi - i,
    {
        proof {
            assert(s@.subrange(i as int, hi as int).drop_first() =~= s@.subrange(
                i + 1,
                hi as int,
            ));
        }
        if let Some(v) = potions_needed(s[i]) {
            total = total + v;
            count = count + 1;
        }
        i = i + 1;
    }
    (total, count)
}

/// Potions for the full groups of `k` letters in `s[lo..hi]`.
fn grouped_potions(s: &[u8], lo: usize, hi: usize, k: usize) -> (r: i64)
    requires
        lo <= hi <= s.len(),
        1 <= k <= 3,
        grouped_total(s@.subrange(lo as int, hi as int), k as nat) <= i64::MAX,
    ensures
        r == grouped_total(s@.subrange(lo as int, hi as int), k as nat),
{
    let ghost whole = s@.subrange(lo as int, hi as int);
    let mut total: i64 = 0;
    let mut i = lo;
    while hi - i >= k
        invariant
            lo <= i <= hi <= s.len(),
            1 <= k <= 3,
            grouped_total(whole, k as nat) <= i64::MAX,
            whole == s@.subrange(lo as int, hi as int),
            total + grouped_total(s@.subrange(i as int, hi as int), k as nat) == grouped_total(
                whole,
                k as nat,
            ),
        decreases hi - i,
    {
        let ghost rest = s@.subrange(i as int, hi as int);
        proof {
            assert(rest.take(k as int) =~= s@.subrange(i as int, (i + k) as int));
            assert(rest.skip(k as int) =~= s@.subrange((i + k) as int, hi as int));
            lemma_grouped_total_nonneg(rest.skip(k as int), k as nat);
            lemma_plain_total_bounds(rest.take(k as int));
        }
        let (plain, count) = plain_potions(s, i, i + k);
        let bonus: i64 = if count == 3 {
            6
        } else if count == 2 {
            2
        } else {
            0
        };
        total = total + plain + bonus;
        i = i + k;
    }
    total
}

/// Potions for the monsters of the trimmed line `s`, each fighting alone.
pub fn part1(s: &[u8]) -> (r: i64)
    requires
        plain_total(trimmed(s@)) <= i64::MAX,
    ensures
        r == plain_total(trimmed(s@)),
{
    let (lo, hi) = trim_bounds(s);
    proof {
        lemma_grouped_by_one(trimmed(s@));
    }
    grouped_potions(s, lo, hi, 1)
}

/// Potions for the monsters of the trimmed line `s`, fighting in pairs.
pub fn part2(s: &[u8]) -> (r: i64)
    requires
        grouped_total(trimmed(s@), 2) <= i64::MAX,
    ensures
        r == grouped_total(trimmed(s@), 2),
{
    let (lo, hi) = trim_bounds(s);
    grouped_potions(s, lo, hi, 2)
}

/// Potions for the monsters of the trimmed line `s`, fighting in threes.
pub fn part3(s: &[u8]) -> (r: i64)
    requires
        grouped_total(trimmed(s@), 3) <= i64::MAX,
    ensures
        r == grouped_total(trimmed(s@), 3),
{
    let (lo, hi) = trim_bounds(s);
    grouped_potions(s, lo, hi, 3)
}

} // verus!
