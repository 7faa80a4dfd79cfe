//! Three interchangeable cycle detectors and the skip-ahead evaluator that
//! uses their result.

use std::collections::HashMap;
use std::hash::Hash;
use vstd::prelude::*;
use vstd::std_specs::hash::obeys_key_model;
use vstd::arithmetic::power2::{
    lemma2_to64, lemma2_to64_rest, lemma_pow2_strictly_increases, lemma_pow2_unfold, pow2,
};
use crate::orbit::{
    computes, cycle_period, has_plain_equality, is_least_period, is_tail_length, iterate,
    lemma_iterate_add, lemma_iterate_succ, lemma_no_early_return, lemma_orbit_shape,
    lemma_orbits_agree, lemma_period_everywhere, lemma_period_unique, lemma_periodic,
    lemma_return_everywhere, lemma_tail_unique, lemma_walk_step, repeats_under, repeats_within,
    tail_length, walked,
};

verus! {

/// Where the orbit of `initial_element` becomes periodic.
#[derive(Debug, Clone, Copy, PartialEq, Eq, Hash)]
pub struct CycleInfo<S> {
    /// Number of steps from `initial_element` to the first state on the cycle.
    pub start: u64,
    /// Number of steps after which a state on the cycle returns.
    pub length: u64,
    /// The state the search started from.
    pub initial_element: S,
    /// The state reached after `start` steps.
    pub first_element_in_cycle: S,
}

impl<S> CycleInfo<S> {
    /// The value is consistent with `f`: `first_element_in_cycle` lies
    /// `start` steps from `initial_element` and returns after `length >= 1` steps.
    pub open spec fn is_cycle_of(&self, f: spec_fn(S) -> S) -> bool {
        &&& self.length >= 1
        &&& iterate(f, self.initial_element, self.start as nat) == self.first_element_in_cycle
        &&& iterate(f, self.first_element_in_cycle, self.length as nat)
            == self.first_element_in_cycle
    }

    /// `start` is the tail length and `length` the least period of the orbit
    /// of `initial_element`, and `first_element_in_cycle` the state at index `start`.
    pub open spec fn describes_orbit(&self, f: spec_fn(S) -> S) -> bool {
        &&& is_tail_length(f, self.initial_element, self.start as nat)
        &&& is_least_period(f, self.initial_element, self.start as nat, self.length as nat)
        &&& iterate(f, self.initial_element, self.start as nat) == self.first_element_in_cycle
    }
}

/// The largest orbit prefix, in steps, within which the detectors must find a
/// repeated state: their counters and block sizes then fit in a `u64`.
pub const SEARCH_LIMIT: u64 = 0x8000_0000_0000_0000;

/// A copy of `x`.
fn duplicate<S: Clone + PartialEq>(x: &S) -> (r: S)
    requires
        has_plain_equality::<S>(),
    ensures
        r == *x,
{
    let r = x.clone();
    assert(cloned(*x, r));
    r
}

/// Finds the tail and period of the orbit of `initial_element` with two
/// cursors, one moving twice as fast as the other.
pub fn floyd<S: Clone + Eq, F: Fn(S) -> S>(initial_element: S, next: F) -> (r: CycleInfo<S>)
    requires
        repeats_under(next, initial_element, SEARCH_LIMIT as nat),
        has_plain_equality::<S>(),
    ensures
        r.initial_element == initial_element,
        forall|f: spec_fn(S) -> S|
            #[trigger] computes(next, f) ==> r.describes_orbit(f) && r.is_cycle_of(f),
{
    let ghost x0 = initial_element;
    let ghost f = choose|f: spec_fn(S) -> S|
        computes(next, f) && repeats_within(f, x0, SEARCH_LIMIT as nat);
    let ghost mu = tail_length(f, x0);
    let ghost lam = cycle_period(f, x0);
    let ghost v: nat = ((mu + 1) * lam) as nat;
    proof {
        lemma_orbit_shape(f, x0, SEARCH_LIMIT as nat);
        assert(v >= mu + 1) by (nonlinear_arith)
            requires
                lam >= 1,
                v == (mu + 1) * lam,
        ;
        let y = iterate(f, x0, mu);
        lemma_iterate_add(f, x0, mu, lam);
        lemma_periodic(f, y, lam, (mu + 1) as nat, 0);
        lemma_iterate_add(f, x0, mu, v);
        lemma_return_everywhere(f, x0, mu, lam, mu, v, v);
    }

    let mut tortoise = next(duplicate(&initial_element));
    proof {
        lemma_walk_step(next, f, x0, 0, tortoise);
    }
    let ghost mut nu: nat = 1;
    let mut hare = next(duplicate(&tortoise));
    proof {
        lemma_walk_step(next, f, x0, 1, hare);
    }
    while tortoise != hare
        invariant
            computes(next, f),
            has_plain_equality::<S>(),
            1 <= nu <= v,
            tortoise == iterate(f, x0, nu),
            hare == iterate(f, x0, 2 * nu),
            walked(next, f, x0, 2 * nu),
            iterate(f, x0, v) == iterate(f, x0, 2 * v),
        decreases v - nu,
    {
        tortoise = next(tortoise);
        proof {
            lemma_iterate_succ(f, x0, nu);
        }
        let ghost h = 2 * nu;
        hare = next(hare);
        proof {
            lemma_walk_step(next, f, x0, h, hare);
        }
        hare = next(hare);
        proof {
            lemma_walk_step(next, f, x0, h + 1, hare);
            nu = nu + 1;
        }
    }
    // The cursors met at index `nu` on the cycle, so `nu` steps return
    // everywhere on it, and the hare walked past the first return.
    proof {
        if nu < mu {
            assert(iterate(f, x0, nu) != iterate(f, x0, 2 * nu));
        }
        assert(iterate(f, x0, nu) == iterate(f, x0, nu + nu));
        if nu < lam {
            lemma_no_early_return(f, x0, mu, lam, nu, nu);
        }
        lemma_return_everywhere(f, x0, mu, lam, nu, nu, mu);
    }

    let mut start: u64 = 0;
    tortoise = duplicate(&initial_element);
    while tortoise != hare
        invariant
            computes(next, f),
            has_plain_equality::<S>(),
            start <= mu,
            mu + lam <= SEARCH_LIMIT,
            mu + lam <= 2 * nu,
            walked(next, f, x0, 2 * nu),
            tortoise == iterate(f, x0, start as nat),
            hare == iterate(f, x0, nu + start as nat),
            iterate(f, x0, mu) == iterate(f, x0, mu + nu),
        decreases mu - start,
    {
        tortoise = next(tortoise);
        hare = next(hare);
        proof {
            lemma_iterate_succ(f, x0, start as nat);
            lemma_iterate_succ(f, x0, nu + start as nat);
        }
        start = start + 1;
    }
    proof {
        if start < mu {
            assert(iterate(f, x0, start as nat) != iterate(f, x0, nu + start as nat));
        }
    }

    let mut length: u64 = 1;
    hare = next(duplicate(&tortoise));
    proof {
        lemma_iterate_succ(f, x0, mu);
    }
    while tortoise != hare
        invariant
            computes(next, f),
            has_plain_equality::<S>(),
            1 <= length <= lam,
            is_tail_length(f, x0, mu),
            is_least_period(f, x0, mu, lam),
            mu + lam <= SEARCH_LIMIT,
            mu + lam <= 2 * nu,
            walked(next, f, x0, 2 * nu),
            start == mu,
            tortoise == iterate(f, x0, mu),
            hare == iterate(f, x0, mu + length as nat),
        decreases lam - length,
    {
        hare = next(hare);
        proof {
            lemma_iterate_succ(f, x0, mu + length as nat);
        }
        length = length + 1;
    }

    let r = CycleInfo { start, length, initial_element, first_element_in_cycle: tortoise };
    proof {
        lemma_result_for_every_transition(next, f, r, 2 * nu);
    }
    r
}

/// Block sizes of the period search are powers of two up to `SEARCH_LIMIT`:
/// one below the limit can double without passing it.
proof fn lemma_doubling_fits(k: nat)
    requires
        k <= 63,
    ensures
        pow2(0) == 1,
        pow2(63) == SEARCH_LIMIT,
        pow2(k) <= SEARCH_LIMIT,
        pow2(k) < SEARCH_LIMIT ==> k < 63 && 2 * pow2(k) <= SEARCH_LIMIT,
{
    lemma2_to64();
    lemma2_to64_rest();
    if k < 63 {
        lemma_pow2_strictly_increases(k, 63);
        lemma_pow2_unfold(k + 1);
        if k + 1 < 63 {
            lemma_pow2_strictly_increases(k + 1, 63);
        }
    }
}

/// A state that first returns after `d` steps lies on the cycle, and `d` is
/// the least period.
proof fn lemma_first_return_is_period<S>(
    f: spec_fn(S) -> S,
    x: S,
    m: nat,
    l: nat,
    t: nat,
    d: nat,
)
    requires
        is_tail_length(f, x, m),
        is_least_period(f, x, m, l),
        d >= 1,
        iterate(f, x, t) == iterate(f, x, t + d),
        forall|j: nat| 0 < j < d ==> #[trigger] iterate(f, x, t + j) != iterate(f, x, t),
    ensures
        d == l,
{
    if t < m {
        assert(iterate(f, x, t) != iterate(f, x, t + d));
    }
    lemma_period_everywhere(f, x, m, l, t);
    if l < d {
        assert(iterate(f, x, t + l) != iterate(f, x, t));
    }
    if d < l {
        lemma_no_early_return(f, x, m, l, t, d);
    }
}

/// Finds the period of the orbit of `initial_element` first, comparing a
/// cursor against a marker that jumps ahead at every power of two, and then
/// the tail, with two cursors that period apart.
pub fn brent<S: Clone + Eq, F: Fn(S) -> S>(initial_element: S, next: F) -> (r: CycleInfo<S>)
    requires
        repeats_under(next, initial_element, SEARCH_LIMIT as nat),
        has_plain_equality::<S>(),
    ensures
        r.initial_element == initial_element,
        forall|f: spec_fn(S) -> S|
            #[trigger] computes(next, f) ==> r.describes_orbit(f) && r.is_cycle_of(f),
{
    let ghost x0 = initial_element;
    let ghost f = choose|f: spec_fn(S) -> S|
        computes(next, f) && repeats_within(f, x0, SEARCH_LIMIT as nat);
    let ghost mu = tail_length(f, x0);
    let ghost lam = cycle_period(f, x0);
    proof {
        lemma_orbit_shape(f, x0, SEARCH_LIMIT as nat);
        lemma_doubling_fits(0);
        lemma_iterate_succ(f, x0, 0);
    }

    let mut power: u64 = 1;
    let ghost mut k: nat = 0;
    let mut length: u64 = 1;
    let mut tortoise = duplicate(&initial_element);
    let mut hare = next(duplicate(&initial_element));
    while tortoise != hare
        invariant
            computes(next, f),
            has_plain_equality::<S>(),
            is_tail_length(f, x0, mu),
            is_least_period(f, x0, mu, lam),
            mu + lam <= SEARCH_LIMIT,
            power == pow2(k),
            k <= 63,
            pow2(63) == SEARCH_LIMIT,
            1 <= length <= power,
            power == SEARCH_LIMIT ==> length <= lam,
            tortoise == iterate(f, x0, (power - 1) as nat),
            hare == iterate(f, x0, (power - 1 + length) as nat),
            forall|j: nat|
                0 < j < length ==> #[trigger] iterate(f, x0, (power - 1 + j) as nat)
                    != iterate(f, x0, (power - 1) as nat),
        decreases SEARCH_LIMIT + lam - (power - 1 + length),
    {
        let ghost t = (power - 1) as nat;
        proof {
            if power == SEARCH_LIMIT {
                lemma_period_everywhere(f, x0, mu, lam, t);
            }
        }
        if power == length {
            proof {
                lemma_doubling_fits(k);
                lemma_pow2_unfold(k + 1);
                k = k + 1;
            }
            tortoise = duplicate(&hare);
            power = power * 2;
            length = 0;
        }
        let ghost h = (power - 1 + length) as nat;
        hare = next(hare);
        proof {
            lemma_iterate_succ(f, x0, h);
            assert((power - 1 + length + 1) as nat == h + 1);
        }
        length = length + 1;
        proof {
            lemma_doubling_fits(k);

        }
    }
    proof {
        lemma_first_return_is_period(f, x0, mu, lam, (power - 1) as nat, length as nat);
    }

    tortoise = duplicate(&initial_element);
    hare = duplicate(&initial_element);
    let mut i: u64 = 0;
    while i < length
        invariant
            computes(next, f),
            i <= length,
            hare == iterate(f, x0, i as nat),
            walked(next, f, x0, i as nat),
        decreases length - i,
    {
        hare = next(hare);
        proof {
            lemma_walk_step(next, f, x0, i as nat, hare);
        }
        i = i + 1;
    }

    let mut start: u64 = 0;
    while tortoise != hare
        invariant
            computes(next, f),
            has_plain_equality::<S>(),
            is_tail_length(f, x0, mu),
            start <= mu,
            length == lam,
            mu + lam <= SEARCH_LIMIT,
            tortoise == iterate(f, x0, start as nat),
            hare == iterate(f, x0, lam + start as nat),
            walked(next, f, x0, lam + start as nat),
            iterate(f, x0, mu) == iterate(f, x0, mu + lam),
        decreases mu - start,
    {
        tortoise = next(tortoise);
        hare = next(hare);
        proof {
            lemma_iterate_succ(f, x0, start as nat);
            lemma_walk_step(next, f, x0, lam + start as nat, hare);
        }
        start = start + 1;
    }
    proof {
        if start < mu {
            assert(iterate(f, x0, start as nat) != iterate(f, x0, lam + start as nat));
        }
    }

    let r = CycleInfo { start, length, initial_element, first_element_in_cycle: tortoise };
    proof {
        lemma_result_for_every_transition(next, f, r, lam + mu);
    }
    r
}

/// No state repeats among the first `tail + period` states of an orbit.
proof fn lemma_prefix_distinct<S>(f: spec_fn(S) -> S, x: S, i: nat, j: nat)
    requires
        is_tail_length(f, x, tail_length(f, x)),
        is_least_period(f, x, tail_length(f, x), cycle_period(f, x)),
        i < j < tail_length(f, x) + cycle_period(f, x),
    ensures
        iterate(f, x, i) != iterate(f, x, j),
{
    let mu = tail_length(f, x);
    if i >= mu {
        lemma_no_early_return(f, x, mu, cycle_period(f, x), i, (j - i) as nat);
        assert(i + (j - i) as nat == j);
    }
}

/// Finds the tail and period of the orbit of `initial_element` by recording
/// the index at which each state was first seen, until one is seen again.
pub fn hashmap<S: Clone + Eq + Hash, F: Fn(S) -> S>(initial_element: S, next: F) -> (r: CycleInfo<
    S,
>)
    requires
        repeats_under(next, initial_element, SEARCH_LIMIT as nat),
        has_plain_equality::<S>(),
        obeys_key_model::<S>(),
    ensures
        r.initial_element == initial_element,
        forall|f: spec_fn(S) -> S|
            #[trigger] computes(next, f) ==> r.describes_orbit(f) && r.is_cycle_of(f),
{
    let ghost x0 = initial_element;
    let ghost f = choose|f: spec_fn(S) -> S|
        computes(next, f) && repeats_within(f, x0, SEARCH_LIMIT as nat);
    let ghost mu = tail_length(f, x0);
    let ghost lam = cycle_period(f, x0);
    proof {
        lemma_orbit_shape(f, x0, SEARCH_LIMIT as nat);
        lemma_iterate_add(f, x0, mu, lam);
    }

    let mut seen_states: HashMap<S, u64> = HashMap::new();
    seen_states.insert(duplicate(&initial_element), 0);
    let mut curr = duplicate(&initial_element);
    let mut curr_cycles: u64 = 1;
    loop
        invariant
            computes(next, f),
            has_plain_equality::<S>(),
            obeys_key_model::<S>(),
            initial_element == x0,
            is_tail_length(f, x0, mu),
            is_least_period(f, x0, mu, lam),
            mu + lam <= SEARCH_LIMIT,
            1 <= curr_cycles <= mu + lam,
            curr == iterate(f, x0, (curr_cycles - 1) as nat),
            walked(next, f, x0, (curr_cycles - 1) as nat),
            forall|i: nat|
                i < curr_cycles ==> #[trigger] seen_states@.contains_key(iterate(f, x0, i))
                    && seen_states@[iterate(f, x0, i)] == i,
            forall|y: S|
                #[trigger] seen_states@.contains_key(y) ==> seen_states@[y] < curr_cycles
                    && iterate(f, x0, seen_states@[y] as nat) == y,
        decreases mu + lam - curr_cycles,
    {
        curr = next(curr);
        proof {
            lemma_walk_step(next, f, x0, (curr_cycles - 1) as nat, curr);
        }
        let ghost c = curr_cycles as nat;
        if let Some(prev_cycles) = seen_states.insert(duplicate(&curr), curr_cycles) {
            proof {
                let p = prev_cycles as nat;
                if c < mu + lam {
                    lemma_prefix_distinct(f, x0, p, c);
                }
                if p < mu {
                    assert(iterate(f, x0, p) != iterate(f, x0, c));
                } else if p > mu {
                    lemma_prefix_distinct(f, x0, mu, p);
                }
            }
            let r = CycleInfo {
                start: prev_cycles,
                length: curr_cycles - prev_cycles,
                initial_element,
                first_element_in_cycle: curr,
            };
            proof {
                lemma_result_for_every_transition(next, f, r, c);
            }
            return r;
        }
        proof {
            if c == mu + lam {
                assert(seen_states@.contains_key(iterate(f, x0, mu)));
            }
        }
        curr_cycles = curr_cycles + 1;
    }
}

/// Whichever detector produced them, two results that describe the orbit of
/// the same initial state under the same transition agree on the tail length,
/// the period and the first state on the cycle.
pub proof fn lemma_detectors_agree<S>(f: spec_fn(S) -> S, a: CycleInfo<S>, b: CycleInfo<S>)
    requires
        a.initial_element == b.initial_element,
        a.describes_orbit(f),
        b.describes_orbit(f),
    ensures
        a.start == b.start,
        a.length == b.length,
        a.first_element_in_cycle == b.first_element_in_cycle,
{
    lemma_tail_unique(f, a.initial_element, a.start as nat, b.start as nat);
    lemma_period_unique(
        f,
        a.initial_element,
        a.start as nat,
        a.length as nat,
        b.length as nat,
    );
}

/// Applying the transition `length` times to the first state on the cycle
/// gives that state back.
pub proof fn lemma_periodicity<S>(f: spec_fn(S) -> S, info: CycleInfo<S>)
    requires
        info.describes_orbit(f),
    ensures
        iterate(f, info.first_element_in_cycle, info.length as nat)
            == info.first_element_in_cycle,
{
    lemma_iterate_add(f, info.initial_element, info.start as nat, info.length as nat);
}

/// Applying the transition `start` times to the initial state gives the first
/// state on the cycle.
pub proof fn lemma_tail_correctness<S>(f: spec_fn(S) -> S, info: CycleInfo<S>)
    requires
        info.describes_orbit(f),
    ensures
        iterate(f, info.initial_element, info.start as nat) == info.first_element_in_cycle,
{
}

/// A result that describes the orbit can drive the skip-ahead evaluator.
pub proof fn lemma_describes_orbit_is_cycle<S>(f: spec_fn(S) -> S, info: CycleInfo<S>)
    requires
        info.describes_orbit(f),
    ensures
        info.is_cycle_of(f),
{
    lemma_periodicity(f, info);
}

/// A result proved for the transition `f` along which the detector walked past
/// the first return holds for every transition that `next` computes.
proof fn lemma_result_for_every_transition<S, F: Fn(S) -> S>(
    next: F,
    f: spec_fn(S) -> S,
    info: CycleInfo<S>,
    n: nat,
)
    requires
        computes(next, f),
        walked(next, f, info.initial_element, n),
        info.start + info.length <= n,
        info.describes_orbit(f),
    ensures
        forall|g: spec_fn(S) -> S|
            #[trigger] computes(next, g) ==> info.describes_orbit(g) && info.is_cycle_of(g),
{
    let x = info.initial_element;
    let m = info.start as nat;
    let l = info.length as nat;
    assert forall|g: spec_fn(S) -> S| #[trigger]
        computes(next, g) implies info.describes_orbit(g) && info.is_cycle_of(g) by {
        assert forall|i: nat| i < m + l implies g(#[trigger] iterate(f, x, i)) == f(
            iterate(f, x, i),
        ) by {
            lemma_iterate_succ(f, x, i);
            assert(next.ensures((iterate(f, x, i),), iterate(f, x, i + 1)));
        }
        assert forall|k: nat| #[trigger] iterate(g, x, k) == iterate(f, x, k) by {
            lemma_orbits_agree(f, g, x, m, l, k);
        }
        assert(is_tail_length(g, x, m)) by {
            let j = choose|j: nat| m < j && iterate(f, x, j) == iterate(f, x, m);
            assert(iterate(g, x, j) == iterate(g, x, m));
        }
        lemma_describes_orbit_is_cycle(g, info);
    }
}

/// Past the tail, the state the skip-ahead evaluator computes for `n`
/// iterations repeats every `length` iterations; and for `n == start` it is
/// the first state on the cycle itself.
pub proof fn lemma_skip_periodic_in_count<S>(f: spec_fn(S) -> S, info: CycleInfo<S>, n: nat)
    requires
        info.length >= 1,
        info.start <= n,
    ensures
        iterate(f, info.first_element_in_cycle, ((n + info.length - info.start) % (info.length as int)) as nat)
            == iterate(f, info.first_element_in_cycle, ((n - info.start) % (info.length as int)) as nat),
        iterate(f, info.first_element_in_cycle, ((info.start - info.start) % (info.length as int)) as nat)
            == info.first_element_in_cycle,
{
    let l = info.length as int;
    let d = n - info.start;
    assert((d + l) % l == d % l) by {
        vstd::arithmetic::div_mod::lemma_mod_add_multiples_vanish(d, l);
    }
    assert(n + info.length - info.start == d + l);
    assert(0int % l == 0) by (nonlinear_arith)
        requires
            l >= 1,
    ;
}

/// The state after `iterations` applications of `next` to
/// `cycle_info.initial_element`, computed in fewer than
/// `max(start, length)` applications.
pub fn apply_iterations_using_cycle_skip<S, F: Fn(S) -> S>(
    cycle_info: CycleInfo<S>,
    iterations: u64,
    next: F,
) -> (r: S)
    requires
        forall|x: S| #[trigger] next.requires((x,)),
        cycle_info.length >= 1,
    ensures
        forall|f: spec_fn(S) -> S|
            #[trigger] computes(next, f) ==> r == (if iterations < cycle_info.start {
                iterate(f, cycle_info.initial_element, iterations as nat)
            } else {
                iterate(
                    f,
                    cycle_info.first_element_in_cycle,
                    ((iterations - cycle_info.start) % (cycle_info.length as int)) as nat,
                )
            }),
        forall|f: spec_fn(S) -> S|
            #[trigger] computes(next, f) && cycle_info.is_cycle_of(f) ==> r == iterate(
                f,
                cycle_info.initial_element,
                iterations as nat,
            ),
{
    let ghost x0 = cycle_info.initial_element;
    let ghost start = cycle_info.start as nat;
    let ghost len = cycle_info.length as nat;
    let (mut curr, additional_iterations) = if iterations < cycle_info.start {
        (cycle_info.initial_element, iterations)
    } else {
        (cycle_info.first_element_in_cycle, (iterations - cycle_info.start) % cycle_info.length)
    };
    let ghost base = curr;
    let mut i: u64 = 0;
    while i < additional_iterations
        invariant
            forall|x: S| #[trigger] next.requires((x,)),
            i <= additional_iterations,
            forall|f: spec_fn(S) -> S| #[trigger]
                computes(next, f) ==> curr == iterate(f, base, i as nat),
        decreases additional_iterations - i,
    {
        curr = next(curr);
        proof {
            assert forall|f: spec_fn(S) -> S| #[trigger] computes(next, f) implies curr == iterate(
                f,
                base,
                (i + 1) as nat,
            ) by {
                lemma_iterate_succ(f, base, i as nat);
            }
        }
        i = i + 1;
    }
    proof {
        assert forall|f: spec_fn(S) -> S| #[trigger]
            computes(next, f) && cycle_info.is_cycle_of(f) implies curr == iterate(
            f,
            x0,
            iterations as nat,
        ) by {
            if iterations >= cycle_info.start {
                let d = (iterations - start) as nat;
                let first = cycle_info.first_element_in_cycle;
                assert(d == (d / len) * len + d % len) by (nonlinear_arith)
                    requires
                        len >= 1,
                ;
                lemma_periodic(f, first, len, d / len, d % len);
                lemma_iterate_add(f, x0, start, d);
            }
        }
    }
    curr
}

} // verus!
