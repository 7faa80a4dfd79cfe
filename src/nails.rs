//! Strikes needed to bring a row of nails to one height.

use vstd::prelude::*;
use vstd::relations::{sorted_by, total_ordering};

verus! {

/// The order in which nail heights are sorted.
pub open spec fn height_leq() -> spec_fn(i64, i64) -> bool {
    |a: i64, b: i64| a <= b
}

/// The lowest height of `s`, or `0` for no nails.
pub open spec fn lowest(s: Seq<i64>) -> int
    decreases s.len(),
{
    if s.len() == 0 {
        0
    } else if s.len() == 1 {
        s[0] as int
    } else {
        let rest = lowest(s.drop_first());
        if s[0] < rest {
            s[0] as int
        } else {
            rest
        }
    }
}

/// Strikes to bring every nail of `s` down to `level`.
pub open spec fn strikes_down_to(s: Seq<i64>, level: int) -> int
    decreases s.len(),
{
    if s.len() == 0 {
        0
    } else {
        s[0] - level + strikes_down_to(s.drop_first(), level)
    }
}

/// Strikes, up or down, to bring every nail of `s` to `level`.
pub open spec fn strikes_to(s: Seq<i64>, level: int) -> int
    decreases s.len(),
{
    if s.len() == 0 {
        0
    } else {
        (if s[0] >= level {
            s[0] - level
        } else {
            level - s[0]
        }) + strikes_to(s.drop_first(), level)
    }
}

/// The middle height of `s` once sorted (the upper middle for an even count).
pub open spec fn middle_height(s: Seq<i64>) -> i64 {
    s.sort_by(height_leq())[s.len() as int / 2]
}

proof fn lemma_lowest_is_lowest(s: Seq<i64>)
    requires
        s.len() > 0,
    ensures
        forall|i: int| 0 <= i < s.len() ==> lowest(s) <= #[trigger] s[i],
        exists|i: int| 0 <= i < s.len() && lowest(s) == s[i],
    decreases s.len(),
{
    if s.len() == 1 {
        assert(lowest(s) == s[0]);
    } else {
        lemma_lowest_is_lowest(s.drop_first());
        assert forall|i: int| 0 <= i < s.len() implies lowest(s) <= #[trigger] s[i] by {
            if i > 0 {
                assert(s[i] == s.drop_first()[i - 1]);
            }
        }
        if s[0] < lowest(s.drop_first()) {
            assert(lowest(s) == s[0]);
        } else {
            let j = choose|j: int|
                0 <= j < s.drop_first().len() && lowest(s.drop_first()) == s.drop_first()[j];
            assert(s[j + 1] == s.drop_first()[j]);
        }
    }
}

proof fn lemma_strikes_down_nonneg(s: Seq<i64>, level: int)
    requires
        forall|i: int| 0 <= i < s.len() ==> level <= #[trigger] s[i],
    ensures
        strikes_down_to(s, level) >= 0,
    decreases s.len(),
{
    if s.len() > 0 {
        assert forall|i: int| 0 <= i < s.len() - 1 implies level <= #[trigger] s.drop_first()[i] by {
            assert(s.drop_first()[i] == s[i + 1]);
        }
        lemma_strikes_down_nonneg(s.drop_first(), level);
    }
}

proof fn lemma_strikes_to_nonneg(s: Seq<i64>, level: int)
    ensures
        strikes_to(s, level) >= 0,
    decreases s.len(),
{
    if s.len() > 0 {
        lemma_strikes_to_nonneg(s.drop_first(), level);
    }
}

/// Strikes to bring every nail down to the lowest one.
pub fn minimum_strikes_part1(nail_heights: &[i64]) -> (r: i64)
    requires
        strikes_down_to(nail_heights@, lowest(nail_heights@)) <= i64::MAX,
    ensures
        r == strikes_down_to(nail_heights@, lowest(nail_heights@)),
{
    let ghost s = nail_heights@;
    if nail_heights.len() == 0 {
        return 0;
    }
    let mut min = nail_heights[nail_heights.len() - 1];
    let mut i = nail_heights.len() - 1;
    while i > 0
        invariant
            0 <= i < s.len(),
            s == nail_heights@,
            min as int == lowest(s.skip(i as int)),
        decreases i,
    {
        i = i - 1;
        proof {
            assert(s.skip(i as int).drop_first() =~= s.skip(i + 1));
        }
        if nail_heights[i] < min {
            min = nail_heights[i];
        }
    }
    proof {
        assert(s.skip(0) =~= s);
        lemma_lowest_is_lowest(s);
    }
    let mut total: i64 = 0;
    let mut j: usize = 0;
    while j < nail_heights.len()
        invariant
            j <= s.len(),
            s == nail_heights@,
            min as int == lowest(s),
            forall|k: int| 0 <= k < s.len() ==> min <= #[trigger] s[k],
            strikes_down_to(s, min as int) <= i64::MAX,
            total >= 0,
            total + strikes_down_to(s.skip(j as int), min as int) == strikes_down_to(s, min as int),
        decreases s.len() - j,
    {
        proof {
            assert(s.skip(j as int).drop_first() =~= s.skip(j + 1));
            assert forall|k: int| 0 <= k < s.skip(j + 1).len() implies min <= #[trigger] s.skip(
                j + 1,
            )[k] by {
                assert(s.skip(j + 1)[k] == s[j + 1 + k]);
            }
            lemma_strikes_down_nonneg(s.skip(j + 1), min as int);
            assert(s.skip(j as int)[0] == s[j as int]);
        }
        total = total + (nail_heights[j] - min);
        j = j + 1;
    }
    proof {
        assert(s.skip(0) =~= s);
    }
    total
}

/// Relies on `slice::sort`: it orders the elements ascending and keeps the
/// same elements.
#[verifier::external_body]
fn sort_ascending(v: &mut Vec<i64>)
    ensures
        final(v)@.to_multiset() == old(v)@.to_multiset(),
        forall|i: int, j: int| 0 <= i < j < final(v)@.len() ==> final(v)@[i] <= final(v)@[j],
{
    v.sort();
}

proof fn lemma_height_leq_total()
    ensures
        total_ordering(height_leq()),
{
}

/// The middle height of `values` once sorted.
pub fn median(values: &[i64]) -> (r: i64)
    requires
        values.len() > 0,
    ensures
        r == middle_height(values@),
{
    let mut sorted: Vec<i64> = Vec::new();
    let mut i: usize = 0;
    while i < values.len()
        invariant
            i <= values.len(),
            sorted@ == values@.take(i as int),
        decreases values.len() - i,
    {
        sorted.push(values[i]);
        i = i + 1;
        proof {
            assert(sorted@ =~= values@.take(i as int));
        }
    }
    proof {
        assert(sorted@ =~= values@);
    }
    sort_ascending(&mut sorted);
    proof {
        lemma_height_leq_total();
        values@.lemma_sort_by_ensures(height_leq());
        assert(sorted_by(sorted@, height_leq()));
        assert(sorted@.to_multiset() == values@.sort_by(height_leq()).to_multiset());
        vstd::seq_lib::lemma_sorted_unique(sorted@, values@.sort_by(height_leq()), height_leq());
        assert(sorted@ == values@.sort_by(height_leq()));
        sorted@.to_multiset_ensures();
        values@.to_multiset_ensures();
    }
    let middle_idx = sorted.len() / 2;
    sorted[middle_idx]
}

/// Strikes, up or down, to bring every nail to the middle height.
pub fn minimum_strikes_part3(nail_heights: &[i64]) -> (r: i64)
    requires
        nail_heights.len() > 0,
        strikes_to(nail_heights@, middle_height(nail_heights@) as int) <= i64::MAX,
    ensures
        r == strikes_to(nail_heights@, middle_height(nail_heights@) as int),
{
    let ghost s = nail_heights@;
    let med = median(nail_heights);
    let mut total: i64 = 0;
    let mut j: usize = 0;
    proof {
        assert(s.skip(0) =~= s);
    }
    while j < nail_heights.len()
        invariant
            j <= s.len(),
            s == nail_heights@,
            strikes_to(s, med as int) <= i64::MAX,
            total >= 0,
            total + strikes_to(s.skip(j as int), med as int) == strikes_to(s, med as int),
        decreases s.len() - j,
    {
        proof {
            assert(s.skip(j as int).drop_first() =~= s.skip(j + 1));
            lemma_strikes_to_nonneg(s.skip(j + 1), med as int);
            assert(s.skip(j as int)[0] == s[j as int]);
        }
        let x = nail_heights[j];
        let d: i64 = if x >= med {
            x - med
        } else {
            med - x
        };
        total = total + d;
        j = j + 1;
    }
    proof {
        assert(s.skip(0) =~= s);
    }
    total
}

} // verus!
