//! A population of termite generations: each day every termite of a
//! generation turns into the termites its rule lists. Generations are
//! numbered `0..n`; `rules[g]` lists the offspring of one termite of
//! generation `g`, a generation listed twice counting twice.

use vstd::prelude::*;
use crate::text::{fields, fields_view, split_fields, trim_bounds, trimmed};

verus! {

/// How often `k` occurs in `s`.
pub open spec fn count_in(s: Seq<usize>, k: int) -> int
    decreases s.len(),
{
    if s.len() == 0 {
        0
    } else {
        count_in(s.drop_last(), k) + if s.last() == k {
            1int
        } else {
            0int
        }
    }
}

/// Termites of generation `c` born tomorrow from generations `0..g` of `pop`.
pub open spec fn offspring(rules: Seq<Seq<usize>>, pop: Seq<int>, c: int, g: int) -> int
    decreases g,
{
    if g <= 0 {
        0
    } else {
        offspring(rules, pop, c, g - 1) + pop[g - 1] * count_in(rules[g - 1], c)
    }
}

/// The population one day after `pop`.
pub open spec fn next_population(rules: Seq<Seq<usize>>, pop: Seq<int>) -> Seq<int> {
    Seq::new(pop.len(), |c: int| offspring(rules, pop, c, pop.len() as int))
}

/// The population `d` days after `pop`.
pub open spec fn population_after(rules: Seq<Seq<usize>>, pop: Seq<int>, d: nat) -> Seq<int>
    decreases d,
{
    if d == 0 {
        pop
    } else {
        next_population(rules, population_after(rules, pop, (d - 1) as nat))
    }
}

/// The number of termites in `pop`.
pub open spec fn total(pop: Seq<int>) -> int
    decreases pop.len(),
{
    if pop.len() == 0 {
        0
    } else {
        total(pop.drop_last()) + pop.last()
    }
}

/// The population counting the termites listed in `elems`, by generation.
pub open spec fn population_of(elems: Seq<usize>, kinds: nat) -> Seq<int> {
    Seq::new(kinds, |k: int| count_in(elems, k))
}

/// Every rule is for a generation `0..kinds` and names generations `0..kinds`.
pub open spec fn valid_rules(rules: Seq<Seq<usize>>, kinds: nat) -> bool {
    &&& rules.len() == kinds
    &&& forall|g: int, j: int|
        0 <= g < kinds && 0 <= j < rules[g].len() ==> #[trigger] rules[g][j] < kinds
}

/// The populations of the first `days` days all fit in an `i64`.
pub open spec fn populations_fit(rules: Seq<Seq<usize>>, pop: Seq<int>, days: nat) -> bool {
    forall|d: nat| d <= days ==> #[trigger] total(population_after(rules, pop, d)) <= i64::MAX
}

/// The view of counts as integers.
pub open spec fn counts_view(v: Seq<i64>) -> Seq<int> {
    Seq::new(v.len(), |i: int| v[i] as int)
}

proof fn lemma_count_in_nonneg(s: Seq<usize>, k: int)
    ensures
        0 <= count_in(s, k) <= s.len(),
    decreases s.len(),
{
    if s.len() > 0 {
        lemma_count_in_nonneg(s.drop_last(), k);
    }
}

proof fn lemma_offspring_grows(rules: Seq<Seq<usize>>, pop: Seq<int>, c: int, g: int, h: int)
    requires
        0 <= g <= h <= pop.len(),
        forall|i: int| 0 <= i < pop.len() ==> #[trigger] pop[i] >= 0,
    ensures
        0 <= offspring(rules, pop, c, g) <= offspring(rules, pop, c, h),
    decreases h,
{
    if g < h {
        lemma_offspring_grows(rules, pop, c, g, h - 1);
        lemma_count_in_nonneg(rules[h - 1], c);
        assert(pop[h - 1] * count_in(rules[h - 1], c) >= 0) by (nonlinear_arith)
            requires
                pop[h - 1] >= 0,
                count_in(rules[h - 1], c) >= 0,
        ;
    } else if g > 0 {
        lemma_offspring_grows(rules, pop, c, g - 1, g - 1);
        lemma_offspring_grows(rules, pop, c, 0, g - 1);
        lemma_count_in_nonneg(rules[g - 1], c);
        assert(pop[g - 1] * count_in(rules[g - 1], c) >= 0) by (nonlinear_arith)
            requires
                pop[g - 1] >= 0,
                count_in(rules[g - 1], c) >= 0,
        ;
    }
}

proof fn lemma_entry_below_total(pop: Seq<int>, i: int)
    requires
        0 <= i < pop.len(),
        forall|k: int| 0 <= k < pop.len() ==> #[trigger] pop[k] >= 0,
    ensures
        0 <= pop[i] <= total(pop),
        total(pop) >= 0,
    decreases pop.len(),
{
    lemma_total_nonneg(pop.drop_last());
    if i < pop.len() - 1 {
        lemma_entry_below_total(pop.drop_last(), i);
    }
}

proof fn lemma_total_nonneg(pop: Seq<int>)
    requires
        forall|k: int| 0 <= k < pop.len() ==> #[trigger] pop[k] >= 0,
    ensures
        total(pop) >= 0,
    decreases pop.len(),
{
    if pop.len() > 0 {
        lemma_total_nonneg(pop.drop_last());
    }
}

proof fn lemma_population_nonneg(rules: Seq<Seq<usize>>, pop: Seq<int>, d: nat)
    requires
        forall|k: int| 0 <= k < pop.len() ==> #[trigger] pop[k] >= 0,
    ensures
        population_after(rules, pop, d).len() == pop.len(),
        forall|k: int|
            0 <= k < pop.len() ==> #[trigger] population_after(rules, pop, d)[k] >= 0,
    decreases d,
{
    if d > 0 {
        let prev = population_after(rules, pop, (d - 1) as nat);
        lemma_population_nonneg(rules, pop, (d - 1) as nat);
        assert forall|k: int| 0 <= k < pop.len() implies #[trigger] population_after(
            rules,
            pop,
            d,
        )[k] >= 0 by {
            lemma_offspring_grows(rules, prev, k, 0, prev.len() as int);
        }
    }
}

/// How many termites of each generation `0..kinds` the list `elems` holds.
pub fn from_elems(elems: &[usize], kinds: usize) -> (r: Vec<i64>)
    requires
        forall|i: int| 0 <= i < elems.len() ==> #[trigger] elems@[i] < kinds,
        elems.len() <= i64::MAX,
    ensures
        counts_view(r@) == population_of(elems@, kinds as nat),
{
    let mut counts: Vec<i64> = Vec::new();
    while counts.len() < kinds
        invariant
            counts@.len() <= kinds,
            forall|k: int| 0 <= k < counts@.len() ==> #[trigger] counts@[k] == 0,
        decreases kinds - counts@.len(),
    {
        counts.push(0);
    }
    let mut i: usize = 0;
    while i < elems.len()
        invariant
            forall|j: int| 0 <= j < elems.len() ==> #[trigger] elems@[j] < kinds,
            elems.len() <= i64::MAX,
            i <= elems.len(),
            counts@.len() == kinds,
            forall|k: int| 0 <= k < kinds ==> #[trigger] counts@[k] == count_in(elems@.take(i as int), k),
        decreases elems.len() - i,
    {
        let e = elems[i];
        proof {
            assert(elems@.take(i + 1).drop_last() =~= elems@.take(i as int));
            lemma_count_in_nonneg(elems@.take(i as int), e as int);
        }
        let c = counts[e];
        counts.set(e, c + 1);
        i = i + 1;
    }
    proof {
        assert(elems@.take(elems.len() as int) =~= elems@);
        assert(counts_view(counts@) =~= population_of(elems@, kinds as nat));
    }
    counts
}

/// The population one day after `pop`.
fn next_day(rules: &[Vec<usize>], pop: &Vec<i64>) -> (r: Vec<i64>)
    requires
        valid_rules(rules@.map_values(|v: Vec<usize>| v@), pop@.len() as nat),
        forall|k: int| 0 <= k < pop@.len() ==> #[trigger] pop@[k] >= 0,
        total(next_population(rules@.map_values(|v: Vec<usize>| v@), counts_view(pop@)))
            <= i64::MAX,
    ensures
        counts_view(r@) == next_population(
            rules@.map_values(|v: Vec<usize>| v@),
            counts_view(pop@),
        ),
{
    let ghost rs = rules@.map_values(|v: Vec<usize>| v@);
    let ghost p = counts_view(pop@);
    let ghost nxt = next_population(rs, p);
    let n = pop.len();
    proof {
        assert forall|k: int| 0 <= k < p.len() implies #[trigger] p[k] >= 0 by {}
        assert forall|c: int| 0 <= c < n implies #[trigger] nxt[c] <= i64::MAX by {
            assert forall|k: int| 0 <= k < nxt.len() implies #[trigger] nxt[k] >= 0 by {
                lemma_offspring_grows(rs, p, k, 0, n as int);
            }
            lemma_entry_below_total(nxt, c);
        }
    }
    let mut next: Vec<i64> = Vec::new();
    while next.len() < n
        invariant
            next@.len() <= n,
            forall|k: int| 0 <= k < next@.len() ==> #[trigger] next@[k] == 0,
        decreases n - next@.len(),
    {
        next.push(0);
    }
    let mut g: usize = 0;
    while g < n
        invariant
            rs == rules@.map_values(|v: Vec<usize>| v@),
            p == counts_view(pop@),
            nxt == next_population(rs, p),
            n == pop@.len(),
            valid_rules(rs, n as nat),
            forall|k: int| 0 <= k < p.len() ==> #[trigger] p[k] >= 0,
            forall|c: int| 0 <= c < n ==> #[trigger] nxt[c] <= i64::MAX,
            g <= n,
            next@.len() == n,
            forall|c: int| 0 <= c < n ==> #[trigger] next@[c] == offspring(rs, p, c, g as int),
        decreases n - g,
    {
        let children = &rules[g];
        proof {
            assert(rs[g as int] == children@);
        }
        let amount = pop[g];
        let mut j: usize = 0;
        while j < children.len()
            invariant
                rs == rules@.map_values(|v: Vec<usize>| v@),
                p == counts_view(pop@),
                nxt == next_population(rs, p),
                n == pop@.len(),
                valid_rules(rs, n as nat),
                forall|k: int| 0 <= k < p.len() ==> #[trigger] p[k] >= 0,
                forall|c: int| 0 <= c < n ==> #[trigger] nxt[c] <= i64::MAX,
                g < n,
                rs[g as int] == children@,
                amount == p[g as int],
                j <= children.len(),
                next@.len() == n,
                forall|c: int|
                    0 <= c < n ==> #[trigger] next@[c] == offspring(rs, p, c, g as int) + amount
                        * count_in(children@.take(j as int), c),
            decreases children.len() - j,
        {
            let child = children[j];
            proof {
                assert(child < n);
                assert(children@.take(j + 1).drop_last() =~= children@.take(j as int));
                assert forall|c: int| 0 <= c < n implies amount * count_in(children@.take(j + 1), c)
                    == amount * count_in(children@.take(j as int), c) + (if c == child {
                    amount as int
                } else {
                    0
                }) by {
                    assert(amount * (count_in(children@.take(j as int), c) + 1) == amount * count_in(
                        children@.take(j as int),
                        c,
                    ) + amount) by (nonlinear_arith);
                }
                lemma_count_in_nonneg(children@.take(j + 1), child as int);
                lemma_count_in_nonneg(children@, child as int);
                lemma_take_count_grows(children@, j + 1, child as int);
                lemma_offspring_grows(rs, p, child as int, g + 1, n as int);
                assert(amount * count_in(children@.take(j + 1), child as int) <= amount * count_in(
                    children@,
                    child as int,
                )) by (nonlinear_arith)
                    requires
                        amount >= 0,
                        count_in(children@.take(j + 1), child as int) <= count_in(
                            children@,
                            child as int,
                        ),
                ;
                assert(offspring(rs, p, child as int, g + 1) == offspring(rs, p, child as int, g as int)
                    + amount * count_in(children@, child as int));
            }
            let current = next[child];
            proof {
                let ci = child as int;
                assert(current == offspring(rs, p, ci, g as int) + amount * count_in(
                    children@.take(j as int),
                    ci,
                ));
                assert(amount * count_in(children@.take(j + 1), ci) == amount * count_in(
                    children@.take(j as int),
                    ci,
                ) + amount);
                assert(nxt[ci] == offspring(rs, p, ci, n as int));
                assert(nxt[ci] <= i64::MAX);
                lemma_offspring_grows(rs, p, ci, 0, g as int);
                lemma_count_in_nonneg(children@.take(j as int), ci);
                assert(amount * count_in(children@.take(j as int), ci) >= 0) by (nonlinear_arith)
                    requires
                        amount >= 0,
                        count_in(children@.take(j as int), ci) >= 0,
                ;
            }
            next.set(child, current + amount);
            j = j + 1;
        }
        proof {
            assert(children@.take(children@.len() as int) =~= children@);
        }
        g = g + 1;
    }
    proof {
        assert(counts_view(next@) =~= nxt);
    }
    next
}

proof fn lemma_take_count_grows(s: Seq<usize>, j: int, k: int)
    requires
        0 <= j <= s.len(),
    ensures
        count_in(s.take(j), k) <= count_in(s, k),
    decreases s.len() - j,
{
    if j < s.len() {
        lemma_take_count_grows(s, j + 1, k);
        assert(s.take(j + 1).drop_last() =~= s.take(j));
    } else {
        assert(s.take(j) =~= s);
    }
}


proof fn lemma_total_prefix(pop: Seq<int>, k: int)
    requires
        0 <= k <= pop.len(),
        forall|i: int| 0 <= i < pop.len() ==> #[trigger] pop[i] >= 0,
    ensures
        0 <= total(pop.take(k)) <= total(pop),
    decreases pop.len() - k,
{
    if k < pop.len() {
        lemma_total_prefix(pop, k + 1);
        assert(pop.take(k + 1).drop_last() =~= pop.take(k));
        assert forall|i: int| 0 <= i < pop.take(k).len() implies #[trigger] pop.take(k)[i] >= 0 by {}
        lemma_total_nonneg(pop.take(k));
    } else {
        assert(pop.take(k) =~= pop);
        lemma_total_nonneg(pop);
    }
}

/// The number of termites after `days` days, starting from one termite for
/// each entry of `initial`.
pub fn simulate(rules: &[Vec<usize>], initial: &[usize], days: usize) -> (r: i64)
    requires
        valid_rules(rules@.map_values(|v: Vec<usize>| v@), rules@.len() as nat),
        forall|i: int| 0 <= i < initial.len() ==> #[trigger] initial@[i] < rules@.len(),
        initial.len() <= i64::MAX,
        populations_fit(
            rules@.map_values(|v: Vec<usize>| v@),
            population_of(initial@, rules@.len() as nat),
            days as nat,
        ),
    ensures
        r == total(
            population_after(
                rules@.map_values(|v: Vec<usize>| v@),
                population_of(initial@, rules@.len() as nat),
                days as nat,
            ),
        ),
{
    let ghost rs = rules@.map_values(|v: Vec<usize>| v@);
    let ghost p0 = population_of(initial@, rules@.len() as nat);
    let mut curr = from_elems(initial, rules.len());
    proof {
        assert forall|k: int| 0 <= k < p0.len() implies #[trigger] p0[k] >= 0 by {
            lemma_count_in_nonneg(initial@, k);
        }
    }
    let mut day: usize = 0;
    while day < days
        invariant
            rs == rules@.map_values(|v: Vec<usize>| v@),
            p0 == population_of(initial@, rules@.len() as nat),
            valid_rules(rs, rules@.len() as nat),
            forall|k: int| 0 <= k < p0.len() ==> #[trigger] p0[k] >= 0,
            populations_fit(rs, p0, days as nat),
            day <= days,
            counts_view(curr@) == population_after(rs, p0, day as nat),
        decreases days - day,
    {
        proof {
            lemma_population_nonneg(rs, p0, day as nat);
            assert(curr@.len() == counts_view(curr@).len());
            assert forall|k: int| 0 <= k < curr@.len() implies #[trigger] curr@[k] >= 0 by {
                assert(counts_view(curr@)[k] == curr@[k]);
            }
            assert(total(population_after(rs, p0, (day + 1) as nat)) <= i64::MAX);
            assert((day + 1 - 1) as nat == day as nat);
        }
        curr = next_day(rules, &curr);
        day = day + 1;
    }
    let ghost last = counts_view(curr@);
    proof {
        lemma_population_nonneg(rs, p0, day as nat);
        assert(total(last) <= i64::MAX);
    }
    let mut sum: i64 = 0;
    let mut i: usize = 0;
    while i < curr.len()
        invariant
            last == counts_view(curr@),
            forall|k: int| 0 <= k < last.len() ==> #[trigger] last[k] >= 0,
            total(last) <= i64::MAX,
            i <= curr.len(),
            sum == total(last.take(i as int)),
        decreases curr.len() - i,
    {
        proof {
            assert(last.take(i + 1).drop_last() =~= last.take(i as int));
            lemma_total_prefix(last, i + 1);
        }
        sum = sum + curr[i];
        i = i + 1;
    }
    proof {
        assert(last.take(last.len() as int) =~= last);
    }
    sum
}

/// The lines of the trimmed `input`.
pub open spec fn rule_lines(input: Seq<u8>) -> Seq<Seq<u8>> {
    fields(trimmed(input), 10)
}

/// The generation a rule line is for: the text before its first `:`.
pub open spec fn rule_head(line: Seq<u8>) -> Seq<u8> {
    fields(line, 58)[0]
}

/// The offspring a rule line lists: the text after its first `:`, split at commas.
pub open spec fn rule_children(line: Seq<u8>) -> Seq<Seq<u8>> {
    fields(line.skip(fields(line, 58)[0].len() + 1int), 44)
}

/// Every line has a `:`, and every generation a rule lists has a rule.
pub open spec fn is_rule_text(input: Seq<u8>) -> bool {
    let lines = rule_lines(input);
    &&& forall|y: int| 0 <= y < lines.len() ==> fields(#[trigger] lines[y], 58).len() >= 2
    &&& forall|y: int, j: int|
        0 <= y < lines.len() && 0 <= j < rule_children(lines[y]).len() ==> exists|z: int|
            0 <= z < lines.len() && rule_head(lines[z]) == #[trigger] rule_children(lines[y])[j]
}

/// `i` is the first index at which `names` holds `name`.
pub open spec fn is_first_index(names: Seq<Seq<u8>>, name: Seq<u8>, i: int) -> bool {
    &&& 0 <= i < names.len()
    &&& names[i] == name
    &&& forall|k: int| 0 <= k < i ==> #[trigger] names[k] != name
}

/// The first index of `name` in `names`.
fn find_name(names: &Vec<Vec<u8>>, name: &Vec<u8>) -> (r: Option<usize>)
    ensures
        match r {
            Some(i) => is_first_index(fields_view(names@), name@, i as int),
            None => forall|k: int| 0 <= k < names@.len() ==> #[trigger] names@[k]@ != name@,
        },
{
    let mut i: usize = 0;
    while i < names.len()
        invariant
            i <= names.len(),
            forall|k: int| 0 <= k < i ==> #[trigger] names@[k]@ != name@,
        decreases names.len() - i,
    {
        if crate::inscriptions::same_bytes(names[i].as_slice(), name.as_slice()) {
            proof {
                assert forall|k: int| 0 <= k < i implies #[trigger] fields_view(names@)[k] != name@ by {
                    assert(fields_view(names@)[k] == names@[k]@);
                }
            }
            return Some(i);
        }
        i = i + 1;
    }
    None
}

/// The rules written in `input`, one line `G:A,B,...` per generation `G`:
/// the generation names in the order of the lines, and for each line the
/// indices of the generations it lists.
pub fn parse_input(input: &[u8]) -> (r: (Vec<Vec<u8>>, Vec<Vec<usize>>))
    requires
        is_rule_text(input@),
    ensures
        fields_view(r.0@).len() == rule_lines(input@).len(),
        forall|y: int| 0 <= y < r.0@.len() ==> #[trigger] r.0@[y]@ == rule_head(rule_lines(input@)[y]),
        r.1@.len() == r.0@.len(),
        forall|y: int|
            0 <= y < r.1@.len() ==> (#[trigger] r.1@[y])@.len() == rule_children(rule_lines(input@)[y]).len(),
        forall|y: int, j: int|
            0 <= y < r.1@.len() && 0 <= j < r.1@[y]@.len() ==> is_first_index(
                fields_view(r.0@),
                rule_children(rule_lines(input@)[y])[j],
                #[trigger] r.1@[y]@[j] as int,
            ),
{
    let (lo, hi) = trim_bounds(input);
    let mut text: Vec<u8> = Vec::new();
    let mut i = lo;
    while i < hi
        invariant
            lo <= i <= hi <= input.len(),
            text@ == input@.subrange(lo as int, i as int),
        decreases hi - i,
    {
        text.push(input[i]);
        i = i + 1;
        proof {
            assert(text@ =~= input@.subrange(lo as int, i as int));
        }
    }
    let lines = split_fields(text.as_slice(), 10);
    let ghost ls = rule_lines(input@);
    let mut names: Vec<Vec<u8>> = Vec::new();
    let mut children_text: Vec<Vec<Vec<u8>>> = Vec::new();
    let mut y: usize = 0;
    while y < lines.len()
        invariant
            fields_view(lines@) == ls,
            ls == rule_lines(input@),
            is_rule_text(input@),
            y <= lines.len(),
            names@.len() == y,
            children_text@.len() == y,
            forall|k: int| 0 <= k < y ==> #[trigger] names@[k]@ == rule_head(ls[k]),
            forall|k: int| 0 <= k < y ==> fields_view((#[trigger] children_text@[k])@) == rule_children(ls[k]),
        decreases lines.len() - y,
    {
        let line = lines[y].as_slice();
        proof {
            assert(ls[y as int] == line@);
            assert(fields(line@, 58).len() >= 2);
        }
        let parts = split_fields(line, 58);
        proof {
            assert(fields_view(parts@)[0] == parts@[0]@);
            lemma_first_field_fits(line@, 58);
        }
        let head = copy_bytes(parts[0].as_slice());
        let line_len = line.len();
        assert(parts@[0]@.len() + 1 <= line_len);
        let after = parts[0].len() + 1;
        let mut tail: Vec<u8> = Vec::new();
        let mut c = after;
        while c < line.len()
            invariant
                after <= c <= line.len(),
                tail@ == line@.subrange(after as int, c as int),
            decreases line.len() - c,
        {
            tail.push(line[c]);
            c = c + 1;
            proof {
                assert(tail@ =~= line@.subrange(after as int, c as int));
            }
        }
        proof {
            assert(tail@ =~= line@.skip(after as int));
        }
        let kids = split_fields(tail.as_slice(), 44);
        names.push(head);
        children_text.push(kids);
        y = y + 1;
    }
    let mut rules: Vec<Vec<usize>> = Vec::new();
    let mut z: usize = 0;
    while z < children_text.len()
        invariant
            ls == rule_lines(input@),
            is_rule_text(input@),
            names@.len() == ls.len(),
            children_text@.len() == ls.len(),
            forall|k: int| 0 <= k < ls.len() ==> #[trigger] names@[k]@ == rule_head(ls[k]),
            forall|k: int| 0 <= k < ls.len() ==> fields_view((#[trigger] children_text@[k])@) == rule_children(ls[k]),
            z <= children_text.len(),
            rules@.len() == z,
            forall|k: int| 0 <= k < z ==> (#[trigger] rules@[k])@.len() == rule_children(ls[k]).len(),
            forall|k: int, j: int|
                0 <= k < z && 0 <= j < rules@[k]@.len() ==> is_first_index(
                    fields_view(names@),
                    rule_children(ls[k])[j],
                    #[trigger] rules@[k]@[j] as int,
                ),
        decreases children_text.len() - z,
    {
        let kids = &children_text[z];
        let ghost kv = rule_children(ls[z as int]);
        proof {
            assert(fields_view(kids@) == kv);
        }
        let mut row: Vec<usize> = Vec::new();
        let mut j: usize = 0;
        while j < kids.len()
            invariant
                ls == rule_lines(input@),
                is_rule_text(input@),
                names@.len() == ls.len(),
                forall|k: int| 0 <= k < ls.len() ==> #[trigger] names@[k]@ == rule_head(ls[k]),
                z < ls.len(),
                fields_view(kids@) == kv,
                kv == rule_children(ls[z as int]),
                j <= kids.len(),
                row@.len() == j,
                forall|m: int|
                    0 <= m < j ==> is_first_index(fields_view(names@), kv[m], #[trigger] row@[m] as int),
            decreases kids.len() - j,
        {
            proof {
                assert(kv[j as int] == kids@[j as int]@);
                let zz = choose|zz: int| 0 <= zz < ls.len() && rule_head(ls[zz]) == #[trigger] rule_children(ls[z as int])[j as int];
                assert(names@[zz]@ == kids@[j as int]@);
            }
            let found = find_name(&names, &kids[j]);
            let index = match found {
                Some(index) => index,
                None => 0,
            };
            row.push(index);
            j = j + 1;
        }
        rules.push(row);
        z = z + 1;
    }
    (names, rules)
}

/// A copy of `b`.
pub fn copy_bytes(b: &[u8]) -> (r: Vec<u8>)
    ensures
        r@ == b@,
{
    let mut r: Vec<u8> = Vec::new();
    let mut i: usize = 0;
    while i < b.len()
        invariant
            i <= b.len(),
            r@ == b@.take(i as int),
        decreases b.len() - i,
    {
        r.push(b[i]);
        i = i + 1;
        proof {
            assert(r@ =~= b@.take(i as int));
        }
    }
    proof {
        assert(r@ =~= b@);
    }
    r
}

pub proof fn lemma_first_field_fits(s: Seq<u8>, sep: u8)
    requires
        fields(s, sep).len() >= 2,
    ensures
        fields(s, sep)[0].len() + 1 <= s.len(),
        fields(s, sep)[0] == s.take(fields(s, sep)[0].len() as int),
{
    let p = crate::text::index_of(s, sep);
    if p >= s.len() {
        assert(fields(s, sep).len() == 1);
    }
}

/// The generation names of the rules in `input`, in the order of the lines.
pub open spec fn rule_names(input: Seq<u8>) -> Seq<Seq<u8>> {
    Seq::new(rule_lines(input).len(), |y: int| rule_head(rule_lines(input)[y]))
}

/// The first index of `name` in `names`.
pub open spec fn first_index_of(names: Seq<Seq<u8>>, name: Seq<u8>) -> int {
    choose|i: int| is_first_index(names, name, i)
}

/// The rules of `input` with each generation named by the index of its line.
pub open spec fn indexed_rules(input: Seq<u8>) -> Seq<Seq<usize>> {
    Seq::new(
        rule_lines(input).len(),
        |y: int|
            Seq::new(
                rule_children(rule_lines(input)[y]).len(),
                |j: int|
                    first_index_of(rule_names(input), rule_children(rule_lines(input)[y])[j]) as usize,
            ),
    )
}

/// The number of termites after `days` days of the rules of `input`,
/// starting from one termite of the generation named `start`.
pub open spec fn population_from(input: Seq<u8>, start: Seq<u8>, days: nat) -> int {
    let n = rule_lines(input).len();
    total(
        population_after(
            indexed_rules(input),
            population_of(seq![first_index_of(rule_names(input), start) as usize], n),
            days,
        ),
    )
}

proof fn lemma_first_index_unique(names: Seq<Seq<u8>>, name: Seq<u8>, i: int)
    requires
        is_first_index(names, name, i),
    ensures
        first_index_of(names, name) == i,
{
    let j = first_index_of(names, name);
    if j < i {
        assert(names[j] != name);
    } else if i < j {
        assert(names[i] != name);
    }
}

/// The parsed rules, as sequences.
proof fn lemma_parsed_rules(input: Seq<u8>, names: Seq<Vec<u8>>, rules: Seq<Vec<usize>>)
    requires
        fields_view(names).len() == rule_lines(input).len(),
        forall|y: int| 0 <= y < names.len() ==> #[trigger] names[y]@ == rule_head(rule_lines(input)[y]),
        rules.len() == names.len(),
        forall|y: int|
            0 <= y < rules.len() ==> (#[trigger] rules[y])@.len() == rule_children(rule_lines(input)[y]).len(),
        forall|y: int, j: int|
            0 <= y < rules.len() && 0 <= j < rules[y]@.len() ==> is_first_index(
                fields_view(names),
                rule_children(rule_lines(input)[y])[j],
                #[trigger] rules[y]@[j] as int,
            ),
    ensures
        fields_view(names) == rule_names(input),
        rules.map_values(|v: Vec<usize>| v@) == indexed_rules(input),
        valid_rules(indexed_rules(input), names.len() as nat),
{
    assert(fields_view(names) =~= rule_names(input));
    let rs = rules.map_values(|v: Vec<usize>| v@);
    assert forall|y: int| 0 <= y < rs.len() implies #[trigger] rs[y] == indexed_rules(input)[y] by {
        assert forall|j: int| 0 <= j < rs[y].len() implies #[trigger] rs[y][j] == indexed_rules(input)[y][j] by {
            assert(is_first_index(fields_view(names), rule_children(rule_lines(input)[y])[j], rules[y]@[j] as int));
            lemma_first_index_unique(rule_names(input), rule_children(rule_lines(input)[y])[j], rules[y]@[j] as int);
        }
        assert(rs[y] =~= indexed_rules(input)[y]);
    }
    assert(rs =~= indexed_rules(input));
}

/// The number of termites after `days` days, starting from one termite of
/// the generation named `start`.
fn population_of_named(input: &[u8], start: &Vec<u8>, days: usize) -> (r: i64)
    requires
        is_rule_text(input@),
        rule_names(input@).contains(start@),
        populations_fit(
            indexed_rules(input@),
            population_of(
                seq![first_index_of(rule_names(input@), start@) as usize],
                rule_lines(input@).len(),
            ),
            days as nat,
        ),
    ensures
        r == population_from(input@, start@, days as nat),
{
    let (names, rules) = parse_input(input);
    proof {
        lemma_parsed_rules(input@, names@, rules@);
    }
    let found = find_name(&names, start);
    let index = match found {
        Some(i) => i,
        None => {
            proof {
                let k = choose|k: int| 0 <= k < rule_names(input@).len() && rule_names(input@)[k] == start@;
                assert(names@[k]@ == start@);
            }
            0
        },
    };
    proof {
        lemma_first_index_unique(rule_names(input@), start@, index as int);
    }
    let initial: Vec<usize> = vec![index];
    proof {
        assert(initial@ =~= seq![first_index_of(rule_names(input@), start@) as usize]);
    }
    simulate(rules.as_slice(), initial.as_slice(), days)
}

/// The number of termites after four days, starting from one of generation `A`.
pub fn part1(input: &[u8]) -> (r: i64)
    requires
        is_rule_text(input@),
        rule_names(input@).contains(seq![65u8]),
        populations_fit(
            indexed_rules(input@),
            population_of(
                seq![first_index_of(rule_names(input@), seq![65u8]) as usize],
                rule_lines(input@).len(),
            ),
            4,
        ),
    ensures
        r == population_from(input@, seq![65u8], 4),
{
    let start: Vec<u8> = vec![65];
    proof {
        assert(start@ =~= seq![65u8]);
    }
    population_of_named(input, &start, 4)
}

/// The number of termites after ten days, starting from one of generation `Z`.
pub fn part2(input: &[u8]) -> (r: i64)
    requires
        is_rule_text(input@),
        rule_names(input@).contains(seq![90u8]),
        populations_fit(
            indexed_rules(input@),
            population_of(
                seq![first_index_of(rule_names(input@), seq![90u8]) as usize],
                rule_lines(input@).len(),
            ),
            10,
        ),
    ensures
        r == population_from(input@, seq![90u8], 10),
{
    let start: Vec<u8> = vec![90];
    proof {
        assert(start@ =~= seq![90u8]);
    }
    population_of_named(input, &start, 10)
}

/// The number of termites after twenty days from one termite of each generation.
pub open spec fn twenty_day_populations(input: Seq<u8>) -> Seq<int> {
    let n = rule_lines(input).len();
    Seq::new(
        n,
        |g: int| total(population_after(indexed_rules(input), population_of(seq![g as usize], n), 20)),
    )
}

/// The largest value of `s`, which is not empty.
pub open spec fn seq_max(s: Seq<int>) -> int
    decreases s.len(),
{
    if s.len() <= 1 {
        s[0]
    } else {
        let rest = seq_max(s.drop_last());
        if s.last() > rest {
            s.last()
        } else {
            rest
        }
    }
}

/// The smallest value of `s`, which is not empty.
pub open spec fn seq_min(s: Seq<int>) -> int
    decreases s.len(),
{
    if s.len() <= 1 {
        s[0]
    } else {
        let rest = seq_min(s.drop_last());
        if s.last() < rest {
            s.last()
        } else {
            rest
        }
    }
}

/// The difference between the largest and the smallest population after
/// twenty days, over the generations the first termite may be of.
pub fn part3(input: &[u8]) -> (r: i64)
    requires
        is_rule_text(input@),
        forall|g: int|
            0 <= g < rule_lines(input@).len() ==> #[trigger] populations_fit(
                indexed_rules(input@),
                population_of(seq![g as usize], rule_lines(input@).len()),
                20,
            ),
    ensures
        r == seq_max(twenty_day_populations(input@)) - seq_min(twenty_day_populations(input@)),
{
    let (names, rules) = parse_input(input);
    proof {
        lemma_parsed_rules(input@, names@, rules@);
        crate::inscriptions::lemma_fields_nonempty(trimmed(input@), 10);
    }
    let ghost pops = twenty_day_populations(input@);
    let ghost kinds = rule_lines(input@).len();
    proof {
        assert forall|h: int| 0 <= h < kinds implies 0 <= #[trigger] pops[h] <= i64::MAX by {
            let p0 = population_of(seq![h as usize], kinds);
            assert(populations_fit(indexed_rules(input@), p0, 20));
            assert(total(population_after(indexed_rules(input@), p0, 20)) <= i64::MAX);
            assert forall|k: int| 0 <= k < p0.len() implies #[trigger] p0[k] >= 0 by {
                lemma_count_in_nonneg(seq![h as usize], k);
            }
            lemma_population_nonneg(indexed_rules(input@), p0, 20);
            lemma_total_nonneg(population_after(indexed_rules(input@), p0, 20));
        }
    }
    let n = rules.len();
    let mut max: i64 = 0;
    let mut min: i64 = 0;
    let mut g: usize = 0;
    while g < n
        invariant
            n == rule_lines(input@).len(),
            n >= 1,
            rules@.map_values(|v: Vec<usize>| v@) == indexed_rules(input@),
            rules@.len() == n,
            valid_rules(indexed_rules(input@), n as nat),
            pops == twenty_day_populations(input@),
            forall|h: int|
                0 <= h < n ==> #[trigger] populations_fit(
                    indexed_rules(input@),
                    population_of(seq![h as usize], n as nat),
                    20,
                ),
            g <= n,
            g >= 1 ==> max == seq_max(pops.take(g as int)) && min == seq_min(pops.take(g as int)),
            g >= 1 ==> 0 <= min <= i64::MAX && 0 <= max <= i64::MAX,
            forall|h: int| 0 <= h < n ==> 0 <= #[trigger] pops[h] <= i64::MAX,
        decreases n - g,
    {
        let initial: Vec<usize> = vec![g];
        proof {
            assert(initial@ =~= seq![g as usize]);
            assert(populations_fit(indexed_rules(input@), population_of(seq![g as usize], n as nat), 20));
        }
        let value = simulate(rules.as_slice(), initial.as_slice(), 20);
        proof {
            assert(value == pops[g as int]);
            let t = pops.take(g + 1);
            assert(t.drop_last() =~= pops.take(g as int));
            assert(t.last() == pops[g as int]);
            if g == 0 {
                assert(t.len() == 1);
            }
        }
        if g == 0 || value > max {
            max = value;
        }
        if g == 0 || value < min {
            min = value;
        }
        g = g + 1;
    }
    proof {
        assert(pops.take(n as int) =~= pops);
    }
    max - min
}
} // verus!
