//! Racing plans: each segment of a plan raises, lowers or keeps a chariot's
//! power, and the essence gathered is the power summed over the segments.

use vstd::prelude::*;
use crate::text::{fields, fields_view, split_fields, trim_bounds, trimmed};
use vstd::relations::{sorted_by, total_ordering};

verus! {

/// What a segment does to the power.
#[derive(Debug, Clone, Copy, PartialEq, Eq, Hash, Structural)]
pub enum Action {
    Inc,
    Dec,
    Noop,
}

/// The action written as `s`: `+`, `-`, and `=` or `S` for keeping the power.
pub open spec fn action_of(s: Seq<u8>) -> Option<Action> {
    if s == seq![43u8] {
        Some(Action::Inc)
    } else if s == seq![45u8] {
        Some(Action::Dec)
    } else if s == seq![61u8] || s == seq![83u8] {
        Some(Action::Noop)
    } else {
        None
    }
}

/// The power after one segment of `a`, starting from `p`.
pub open spec fn apply_action(a: Action, p: int) -> int {
    match a {
        Action::Inc => p + 1,
        Action::Dec => if p - 1 > 0 {
            p - 1
        } else {
            0
        },
        Action::Noop => p,
    }
}

impl Action {
    /// The action written as `s`.
    pub fn parse(s: &[u8]) -> (r: Self)
        requires
            action_of(s@) is Some,
        ensures
            action_of(s@) == Some(r),
    {
        if s.len() == 1 && s[0] == 43 {
            proof {
                assert(s@ =~= seq![43u8]);
            }
            Action::Inc
        } else if s.len() == 1 && s[0] == 45 {
            proof {
                assert(s@ =~= seq![45u8]);
            }
            Action::Dec
        } else {
            proof {
                if s@ == seq![43u8] {
                    assert(s[0] == 43);
                }
                if s@ == seq![45u8] {
                    assert(s[0] == 45);
                }
            }
            Action::Noop
        }
    }
}

/// A plan: the actions of consecutive segments, repeated as long as needed.
#[derive(Debug, Clone)]
pub struct Plan {
    pub actions: Vec<Action>,
}

/// The power after `k` segments of `actions`, starting from `p0`.
pub open spec fn power_after(actions: Seq<Action>, k: nat, p0: int) -> int
    decreases k,
{
    if k == 0 {
        p0
    } else {
        let j = (k - 1) as nat;
        apply_action(actions[(j % actions.len()) as int], power_after(actions, j, p0))
    }
}

/// The power summed over the first `k` segments.
pub open spec fn essence_after(actions: Seq<Action>, k: nat, p0: int) -> int
    decreases k,
{
    if k == 0 {
        0
    } else {
        essence_after(actions, (k - 1) as nat, p0) + power_after(actions, k, p0)
    }
}

/// Every power and every partial sum of the first `steps` segments fits in an `i64`.
pub open spec fn simulation_fits(actions: Seq<Action>, steps: int, p0: int) -> bool {
    forall|k: nat|
        k <= steps ==> i64::MIN < #[trigger] power_after(actions, k, p0) < i64::MAX && i64::MIN
            <= essence_after(actions, k, p0) <= i64::MAX
}

/// Every field of `s` between commas names an action.
pub open spec fn is_plan_text(s: Seq<u8>) -> bool {
    forall|i: int| 0 <= i < fields(s, 44).len() ==> #[trigger] action_of(fields(s, 44)[i]) is Some
}

impl Plan {
    /// The plan written as actions separated by commas.
    pub fn parse(input: &[u8]) -> (r: Self)
        requires
            is_plan_text(input@),
        ensures
            r.actions@.len() == fields(input@, 44).len(),
            forall|i: int|
                0 <= i < r.actions@.len() ==> action_of(fields(input@, 44)[i]) == Some(
                    #[trigger] r.actions@[i],
                ),
    {
        let parts = split_fields(input, 44);
        let ghost fs = fields(input@, 44);
        let mut actions: Vec<Action> = Vec::new();
        let mut i: usize = 0;
        while i < parts.len()
            invariant
                fields_view(parts@) == fs,
                fs == fields(input@, 44),
                is_plan_text(input@),
                i <= parts.len(),
                actions@.len() == i,
                forall|k: int|
                    0 <= k < i ==> action_of(fs[k]) == Some(#[trigger] actions@[k]),
            decreases parts.len() - i,
        {
            proof {
                assert(fields_view(parts@)[i as int] == parts@[i as int]@);
                assert(action_of(fs[i as int]) is Some);
            }
            let a = Action::parse(parts[i].as_slice());
            actions.push(a);
            i = i + 1;
        }
        Plan { actions }
    }

    /// The essence gathered over `steps` segments, starting with power
    /// `initial_power`.
    pub fn simulate(&self, steps: i64, initial_power: i64) -> (r: i64)
        requires
            self.actions@.len() >= 1,
            simulation_fits(self.actions@, steps as int, initial_power as int),
        ensures
            r == essence_after(self.actions@, if steps > 0 { steps as nat } else { 0 }, initial_power as int),
    {
        let ghost acts = self.actions@;
        let mut power = initial_power;
        let mut total: i64 = 0;
        let mut i: i64 = 0;
        while i < steps
            invariant
                acts == self.actions@,
                acts.len() >= 1,
                simulation_fits(acts, steps as int, initial_power as int),
                0 <= i,
                i <= steps || steps <= 0,
                steps <= 0 ==> i == 0,
                power == power_after(acts, i as nat, initial_power as int),
                total == essence_after(acts, i as nat, initial_power as int),
            decreases steps - i,
        {
            let idx = ((i as u64) % (self.actions.len() as u64)) as usize;
            proof {
                assert(power_after(acts, i as nat, initial_power as int) < i64::MAX);
                assert(power_after(acts, i as nat, initial_power as int) > i64::MIN);
                assert(i as nat + 1 - 1 == i as nat);
            }
            match self.actions[idx] {
                Action::Inc => power = power + 1,
                Action::Dec => power = if power - 1 > 0 {
                    power - 1
                } else {
                    0
                },
                Action::Noop => {},
            }
            proof {
                assert(power == power_after(acts, (i + 1) as nat, initial_power as int));
                assert(i64::MIN <= essence_after(acts, (i + 1) as nat, initial_power as int)
                    <= i64::MAX);
            }
            total = total + power;
            i = i + 1;
        }
        total
    }
}


proof fn lemma_power_bounds(actions: Seq<Action>, k: nat, p0: int)
    requires
        actions.len() >= 1,
        p0 >= 0,
    ensures
        0 <= power_after(actions, k, p0) <= p0 + k,
        0 <= essence_after(actions, k, p0) <= k * (p0 + k),
    decreases k,
{
    if k > 0 {
        lemma_power_bounds(actions, (k - 1) as nat, p0);
        assert((k - 1) * (p0 + k - 1) + (p0 + k) <= k * (p0 + k)) by (nonlinear_arith)
            requires
                k >= 1,
                p0 >= 0,
        ;
    }
}

/// A line of the plans text: `name:actions`.
pub open spec fn plan_lines(input: Seq<u8>) -> Seq<Seq<u8>> {
    fields(trimmed(input), 10)
}

/// The name of a plan line: the text before its first `:`.
pub open spec fn plan_name(line: Seq<u8>) -> Seq<u8> {
    fields(line, 58)[0]
}

/// The actions of a plan line: the fields after its first `:`.
pub open spec fn plan_actions(line: Seq<u8>) -> Seq<Action> {
    let text = line.skip(fields(line, 58)[0].len() + 1int);
    Seq::new(fields(text, 44).len(), |i: int| action_of(fields(text, 44)[i])->0)
}

/// Every line has a name, a `:` and at least one action, all readable.
pub open spec fn is_plans_text(input: Seq<u8>) -> bool {
    forall|y: int|
        0 <= y < plan_lines(input).len() ==> fields(#[trigger] plan_lines(input)[y], 58).len() >= 2
            && is_plan_text(plan_lines(input)[y].skip(fields(plan_lines(input)[y], 58)[0].len() + 1int))
}

/// The essence of plan line `y` over ten segments from power ten.
pub open spec fn plan_score(input: Seq<u8>, y: int) -> int {
    essence_after(plan_actions(plan_lines(input)[y]), 10, 10)
}

/// Line `a` ranks before or with line `b`: a higher score, or the same score
/// and not a later line.
pub open spec fn ranks_before(input: Seq<u8>) -> spec_fn(int, int) -> bool {
    |a: int, b: int| plan_score(input, a) > plan_score(input, b) || (plan_score(input, a)
        == plan_score(input, b) && a <= b)
}

/// The lines of `input` in rank order.
pub open spec fn ranking(input: Seq<u8>) -> Seq<int> {
    Seq::new(plan_lines(input).len(), |i: int| i).sort_by(ranks_before(input))
}

/// The texts of `parts` one after another.
pub open spec fn concat(parts: Seq<Seq<u8>>) -> Seq<u8>
    decreases parts.len(),
{
    if parts.len() == 0 {
        Seq::empty()
    } else {
        concat(parts.drop_last()) + parts.last()
    }
}

/// The names of the plans, concatenated in rank order.
pub open spec fn ranked_names(input: Seq<u8>) -> Seq<u8> {
    concat(ranking(input).map_values(|y: int| plan_name(plan_lines(input)[y])))
}

proof fn lemma_ranks_before_total(input: Seq<u8>)
    ensures
        total_ordering(ranks_before(input)),
{
}

/// The rank order puts `i`, a later line than every
/// line of the sorted `out`, right before the first line it outscores.
proof fn lemma_insert_sorted(input: Seq<u8>, out: Seq<int>, pos: int, i: int)
    requires
        sorted_by(out, ranks_before(input)),
        0 <= pos <= out.len(),
        forall|k: int| 0 <= k < out.len() ==> #[trigger] out[k] < i,
        forall|k: int| 0 <= k < pos ==> !(plan_score(input, i) > plan_score(input, #[trigger] out[k])),
        pos < out.len() ==> plan_score(input, i) > plan_score(input, out[pos]),
    ensures
        sorted_by(out.insert(pos, i), ranks_before(input)),
{
    let rb = ranks_before(input);
    let r = out.insert(pos, i);
    assert forall|a: int, b: int| 0 <= a < b < r.len() implies #[trigger] rb(r[a], r[b]) by {
        if b < pos {
            assert(rb(out[a], out[b]));
        } else if b == pos {
            assert(r[a] == out[a]);
            assert(!(plan_score(input, i) > plan_score(input, out[a])));
        } else if a == pos {
            assert(r[b] == out[b - 1]);
            if b - 1 > pos {
                assert(rb(out[pos], out[b - 1]));
            }
        } else if a < pos {
            assert(rb(out[a], out[b - 1]));
        } else {
            assert(rb(out[a - 1], out[b - 1]));
        }
    }
}

/// A looping track: each segment's terrain raises or lowers the power, or,
/// where it is neutral, leaves the plan's action to act.
#[derive(Debug, Clone)]
pub struct Track {
    pub terrain: Vec<Action>,
}

/// The action that counts on a segment with terrain `t` and planned action `a`.
pub open spec fn effective_action(t: Action, a: Action) -> Action {
    if t == Action::Noop {
        a
    } else {
        t
    }
}

/// The power after `k` segments on `terrain` following `plan`, both
/// repeated, starting from `p0`.
pub open spec fn track_power(terrain: Seq<Action>, plan: Seq<Action>, k: nat, p0: int) -> int
    decreases k,
{
    if k == 0 {
        p0
    } else {
        let j = (k - 1) as nat;
        apply_action(
            effective_action(terrain[(j % terrain.len()) as int], plan[(j % plan.len()) as int]),
            track_power(terrain, plan, j, p0),
        )
    }
}

/// The power summed over the first `k` segments of the track.
pub open spec fn track_essence(terrain: Seq<Action>, plan: Seq<Action>, k: nat, p0: int) -> int
    decreases k,
{
    if k == 0 {
        0
    } else {
        track_essence(terrain, plan, (k - 1) as nat, p0) + track_power(terrain, plan, k, p0)
    }
}

/// Every power and partial sum of the first `steps` segments fits in an `i64`.
pub open spec fn track_fits(terrain: Seq<Action>, plan: Seq<Action>, steps: nat, p0: int) -> bool {
    forall|k: nat|
        k <= steps ==> i64::MIN < #[trigger] track_power(terrain, plan, k, p0) < i64::MAX
            && i64::MIN <= track_essence(terrain, plan, k, p0) <= i64::MAX
}

impl Track {
    /// One segment: the new power, and the positions on the track and in the
    /// plan of the next segment.
    pub fn get_and_step(&self, plan: &Plan, indices: (usize, usize), power: i64) -> (r: (
        (usize, usize),
        i64,
    ))
        requires
            indices.0 < self.terrain@.len(),
            indices.1 < plan.actions@.len(),
            i64::MIN < power < i64::MAX,
        ensures
            r.0.0 == (indices.0 + 1) % (self.terrain@.len() as int),
            r.0.1 == (indices.1 + 1) % (plan.actions@.len() as int),
            r.1 == apply_action(
                effective_action(self.terrain@[indices.0 as int], plan.actions@[indices.1 as int]),
                power as int,
            ),
    {
        let terrain_idx = indices.0;
        let plan_idx = indices.1;
        let new_power = match (self.terrain[terrain_idx], plan.actions[plan_idx]) {
            (Action::Inc, _) => power + 1,
            (Action::Dec, _) => if power - 1 > 0 {
                power - 1
            } else {
                0
            },
            (Action::Noop, Action::Inc) => power + 1,
            (Action::Noop, Action::Dec) => if power - 1 > 0 {
                power - 1
            } else {
                0
            },
            (Action::Noop, Action::Noop) => power,
        };
        let terrain_len = self.terrain.len();
        let plan_len = plan.actions.len();
        let next_terrain_idx = (terrain_idx + 1) % terrain_len;
        let next_plan_idx = (plan_idx + 1) % plan_len;
        ((next_terrain_idx, next_plan_idx), new_power)
    }

    /// The essence gathered over `rounds` laps of the track following `plan`,
    /// starting with power `initial_power`.
    pub fn simulate(&self, plan: &Plan, rounds: usize, initial_power: i64) -> (r: i64)
        requires
            self.terrain@.len() >= 1,
            plan.actions@.len() >= 1,
            rounds * self.terrain@.len() <= usize::MAX,
            track_fits(
                self.terrain@,
                plan.actions@,
                (rounds * self.terrain@.len()) as nat,
                initial_power as int,
            ),
        ensures
            r == track_essence(
                self.terrain@,
                plan.actions@,
                (rounds * self.terrain@.len()) as nat,
                initial_power as int,
            ),
    {
        let ghost t = self.terrain@;
        let ghost a = plan.actions@;
        let ghost steps = (rounds * t.len()) as nat;
        let len = self.terrain.len();
        let mut total: i64 = 0;
        let mut power = initial_power;
        let mut indices: (usize, usize) = (0, 0);
        let mut round: usize = 0;
        proof {
            assert((0 * len) % (len as int) == 0 && (0 * len) % (a.len() as int) == 0) by (
            nonlinear_arith)
                requires
                    len >= 1,
                    a.len() >= 1,
            ;
            assert(0 * len == 0);
        }
        while round < rounds
            invariant
                t == self.terrain@,
                a == plan.actions@,
                len == t.len(),
                len >= 1,
                a.len() >= 1,
                round <= rounds,
                steps == rounds * len,
                rounds * len <= usize::MAX,
                track_fits(t, a, steps, initial_power as int),
                indices.0 == (round * len) % (len as int),
                indices.1 == (round * len) % (a.len() as int),
                power == track_power(t, a, (round * len) as nat, initial_power as int),
                total == track_essence(t, a, (round * len) as nat, initial_power as int),
            decreases rounds - round,
        {
            let mut s: usize = 0;
            while s < len
                invariant
                    t == self.terrain@,
                    a == plan.actions@,
                    len == t.len(),
                    len >= 1,
                    a.len() >= 1,
                    round < rounds,
                    s <= len,
                    steps == rounds * len,
                    rounds * len <= usize::MAX,
                    track_fits(t, a, steps, initial_power as int),
                    indices.0 == (round * len + s) % (len as int),
                    indices.1 == (round * len + s) % (a.len() as int),
                    power == track_power(t, a, (round * len + s) as nat, initial_power as int),
                    total == track_essence(t, a, (round * len + s) as nat, initial_power as int),
                decreases len - s,
            {
                let ghost k = (round * len + s) as nat;
                proof {
                    assert(k + 1 <= steps) by (nonlinear_arith)
                        requires
                            k == round * len + s,
                            s < len,
                            round < rounds,
                            steps == rounds * len,
                    ;
                    assert(k <= steps);
                    assert(i64::MIN < track_power(t, a, k, initial_power as int) < i64::MAX);
                    assert(i64::MIN <= track_essence(t, a, k + 1, initial_power as int)
                        <= i64::MAX);
                    assert((k + 1 - 1) as nat == k);
                    lemma_mod_next(k as int, len as int);
                    lemma_mod_next(k as int, a.len() as int);
                }
                let (next_indices, next_power) = self.get_and_step(plan, indices, power);
                indices = next_indices;
                power = next_power;
                total = total + power;
                s = s + 1;
            }
            proof {
                assert(round * len + len == (round + 1) * len) by (nonlinear_arith);
            }
            round = round + 1;
        }
        total
    }
}

/// Moving one step on in a cycle of length `m`.
proof fn lemma_mod_next(k: int, m: int)
    requires
        0 <= k,
        m >= 1,
    ensures
        (k % m + 1) % m == (k + 1) % m,
        0 <= k % m < m,
{
    assert((k % m + 1) % m == (k + 1) % m) by (nonlinear_arith)
        requires
            m >= 1,
            k >= 0,
    ;
}

/// The names of the plans of `input`, concatenated from the plan gathering
/// the most essence over ten segments from power ten to the least, plans
/// with equal essence in the order of their lines.
pub fn part1(input: &[u8]) -> (r: Vec<u8>)
    requires
        is_plans_text(input@),
    ensures
        r@ == ranked_names(input@),
{
    let text = crate::text::trimmed_copy(input);
    let lines = split_fields(text.as_slice(), 10);
    let ghost ls = plan_lines(input@);
    let n = lines.len();
    let mut names: Vec<Vec<u8>> = Vec::new();
    let mut scores: Vec<i64> = Vec::new();
    let mut y: usize = 0;
    while y < n
        invariant
            fields_view(lines@) == ls,
            ls == plan_lines(input@),
            n == ls.len(),
            is_plans_text(input@),
            y <= n,
            names@.len() == y,
            scores@.len() == y,
            forall|k: int| 0 <= k < y ==> #[trigger] names@[k]@ == plan_name(ls[k]),
            forall|k: int| 0 <= k < y ==> #[trigger] scores@[k] == plan_score(input@, k),
        decreases n - y,
    {
        let line = lines[y].as_slice();
        proof {
            assert(ls[y as int] == line@);
            assert(fields(line@, 58).len() >= 2);
            crate::termites::lemma_first_field_fits(line@, 58);
        }
        let parts = split_fields(line, 58);
        proof {
            assert(fields_view(parts@)[0] == parts@[0]@);
        }
        let name = crate::termites::copy_bytes(parts[0].as_slice());
        let line_len = line.len();
        assert(parts@[0]@.len() + 1 <= line_len);
        let after = parts[0].len() + 1;
        let mut tail: Vec<u8> = Vec::new();
        let mut c = after;
        while c < line.len()
            invariant
                after <= c <= line.len(),
                tail@ == line@.subrange(after as int, c as int),
            decreases line.len() - c,
        {
            tail.push(line[c]);
            c = c + 1;
            proof {
                assert(tail@ =~= line@.subrange(after as int, c as int));
            }
        }
        proof {
            assert(tail@ =~= line@.skip(after as int));
        }
        let plan = Plan::parse(tail.as_slice());
        let ghost acts = plan_actions(ls[y as int]);
        proof {
            assert(plan.actions@ =~= acts);
            crate::inscriptions::lemma_fields_nonempty(tail@, 44);
            assert forall|k: nat| k <= 10 implies i64::MIN < #[trigger] power_after(acts, k, 10) < i64::MAX
                && i64::MIN <= essence_after(acts, k, 10) <= i64::MAX by {
                lemma_power_bounds(acts, k, 10);
                assert(k * (10 + k) <= 200) by (nonlinear_arith)
                    requires
                        k <= 10,
                ;
            }
        }
        let score = plan.simulate(10, 10);
        names.push(name);
        scores.push(score);
        y = y + 1;
    }
    let ghost rb = ranks_before(input@);
    let ghost all = Seq::new(n as nat, |i: int| i);
    let mut order: Vec<usize> = Vec::new();
    let mut i: usize = 0;
    proof {
        assert(order@.map_values(|v: usize| v as int) =~= all.take(0));
    }
    while i < n
        invariant
            n == ls.len(),
            ls == plan_lines(input@),
            scores@.len() == n,
            forall|k: int| 0 <= k < n ==> #[trigger] scores@[k] == plan_score(input@, k),
            rb == ranks_before(input@),
            all == Seq::new(n as nat, |k: int| k),
            i <= n,
            order@.len() == i,
            forall|k: int| 0 <= k < i ==> #[trigger] order@[k] < i,
            sorted_by(order@.map_values(|v: usize| v as int), rb),
            order@.map_values(|v: usize| v as int).to_multiset() == all.take(i as int).to_multiset(),
        decreases n - i,
    {
        let ghost before = order@.map_values(|v: usize| v as int);
        let mut pos: usize = 0;
        while pos < order.len() && !(scores[i] > scores[order[pos]])
            invariant
                n == ls.len(),
                scores@.len() == n,
                forall|k: int| 0 <= k < n ==> #[trigger] scores@[k] == plan_score(input@, k),
                i < n,
                order@.len() == i,
                forall|k: int| 0 <= k < i ==> #[trigger] order@[k] < i,
                before == order@.map_values(|v: usize| v as int),
                pos <= order.len(),
                forall|k: int| 0 <= k < pos ==> !(plan_score(input@, i as int) > plan_score(
                    input@,
                    #[trigger] before[k],
                )),
            decreases order.len() - pos,
        {
            pos = pos + 1;
        }
        proof {
            lemma_insert_sorted(input@, before, pos as int, i as int);
            crate::plans::lemma_multiset_insert_step(before, all, pos as int, i as int);
        }
        order.insert(pos, i);
        proof {
            assert(order@.map_values(|v: usize| v as int) =~= before.insert(pos as int, i as int));
        }
        i = i + 1;
    }
    let ghost sorted = order@.map_values(|v: usize| v as int);
    proof {
        assert(all.take(n as int) =~= all);
        lemma_ranks_before_total(input@);
        all.lemma_sort_by_ensures(rb);
        vstd::seq_lib::lemma_sorted_unique(sorted, all.sort_by(rb), rb);
        assert(sorted == ranking(input@));
    }
    let mut out: Vec<u8> = Vec::new();
    let mut p: usize = 0;
    let ghost named = ranking(input@).map_values(|y: int| plan_name(plan_lines(input@)[y]));
    while p < n
        invariant
            sorted == order@.map_values(|v: usize| v as int),
            sorted == ranking(input@),
            named == ranking(input@).map_values(|y: int| plan_name(plan_lines(input@)[y])),
            order@.len() == n,
            names@.len() == n,
            n == ls.len(),
            ls == plan_lines(input@),
            forall|k: int| 0 <= k < n ==> #[trigger] order@[k] < n,
            forall|k: int| 0 <= k < n ==> #[trigger] names@[k]@ == plan_name(ls[k]),
            p <= n,
            out@ == concat(named.take(p as int)),
        decreases n - p,
    {
        let idx = order[p];
        proof {
            assert(named.take(p + 1).drop_last() =~= named.take(p as int));
            assert(named[p as int] == plan_name(ls[sorted[p as int]]));
            assert(sorted[p as int] == idx);
        }
        let name = &names[idx];
        let mut c: usize = 0;
        let ghost start = out@;
        while c < name.len()
            invariant
                c <= name.len(),
                out@ == start + name@.take(c as int),
            decreases name.len() - c,
        {
            out.push(name[c]);
            c = c + 1;
            proof {
                assert(out@ =~= start + name@.take(c as int));
            }
        }
        proof {
            assert(name@.take(name.len() as int) =~= name@);
        }
        p = p + 1;
    }
    proof {
        assert(named.take(n as int) =~= named);
    }
    out
}

proof fn lemma_multiset_insert_step(before: Seq<int>, all: Seq<int>, pos: int, i: int)
    requires
        0 <= pos <= before.len(),
        0 <= i < all.len(),
        all[i] == i,
        before.to_multiset() == all.take(i).to_multiset(),
    ensures
        before.insert(pos, i).to_multiset() == all.take(i + 1).to_multiset(),
{
    vstd::seq_lib::to_multiset_insert(before, pos, i);
    assert(all.take(i + 1) =~= all.take(i).push(i));
    vstd::seq_lib::to_multiset_build(all.take(i), i);
}
} // verus!
