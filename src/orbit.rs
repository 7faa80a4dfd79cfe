//! The mathematical model of an orbit: the states `x, f(x), f(f(x)), ...` of a
//! spec function `f` that an executable transition closure computes, and the
//! facts about tails and periods that the detectors rely on.

use vstd::prelude::*;
use vstd::std_specs::cmp::PartialEqSpec;

verus! {

/// `next` accepts every state, and every value it returns on a state `x` is
/// `f(x)`: the executable transition `next` computes the spec function `f`.
pub open spec fn computes<S, F: Fn(S) -> S>(next: F, f: spec_fn(S) -> S) -> bool {
    &&& forall|x: S| #[trigger] next.requires((x,))
    &&& forall|x: S, y: S| #[trigger] next.ensures((x,), y) ==> y == f(x)
}

/// `next` has been called on each of the first `n` states of the orbit of `x`
/// under `f` and returned the following one.
pub open spec fn walked<S, F: Fn(S) -> S>(next: F, f: spec_fn(S) -> S, x: S, n: nat) -> bool {
    forall|i: nat| i < n ==> #[trigger] next.ensures((iterate(f, x, i),), iterate(f, x, i + 1))
}

/// The state reached from `x` after `n` applications of `f`.
pub open spec fn iterate<S>(f: spec_fn(S) -> S, x: S, n: nat) -> S
    decreases n,
{
    if n == 0 {
        x
    } else {
        f(iterate(f, x, (n - 1) as nat))
    }
}

/// Some state among the first `n + 1` of the orbit of `x` occurs twice.
pub open spec fn repeats_within<S>(f: spec_fn(S) -> S, x: S, n: nat) -> bool {
    exists|i: nat, j: nat| i < j <= n && iterate(f, x, i) == iterate(f, x, j)
}

/// `next` computes some spec function whose orbit from `x` repeats within its
/// first `n + 1` states.
pub open spec fn repeats_under<S, F: Fn(S) -> S>(next: F, x: S, n: nat) -> bool {
    exists|f: spec_fn(S) -> S| computes(next, f) && repeats_within(f, x, n)
}

/// `m` is the tail length of the orbit of `x`: the state at index `m` occurs
/// again later, and no state before index `m` ever occurs twice.
pub open spec fn is_tail_length<S>(f: spec_fn(S) -> S, x: S, m: nat) -> bool {
    &&& exists|j: nat| m < j && iterate(f, x, j) == iterate(f, x, m)
    &&& forall|i: nat, j: nat|
        i < m && i < j ==> #[trigger] iterate(f, x, i) != #[trigger] iterate(f, x, j)
}

/// `l` is the least positive number of steps after which the state at index
/// `m` of the orbit of `x` returns.
pub open spec fn is_least_period<S>(f: spec_fn(S) -> S, x: S, m: nat, l: nat) -> bool {
    &&& l >= 1
    &&& iterate(f, x, m + l) == iterate(f, x, m)
    &&& forall|k: nat| 0 < k < l ==> #[trigger] iterate(f, x, m + k) != iterate(f, x, m)
}

/// Equality on `S` is identity, and cloning returns an identical value.
pub open spec fn has_plain_equality<S: PartialEq + Clone>() -> bool {
    &&& S::obeys_eq_spec()
    &&& forall|a: S, b: S| #[trigger] a.eq_spec(&b) <==> (a == b)
    &&& forall|a: S, b: S| #[trigger] cloned(a, b) ==> a == b
}

/// One more step: the successor of the state at index `n` is at index `n + 1`.
pub proof fn lemma_iterate_succ<S>(f: spec_fn(S) -> S, x: S, n: nat)
    ensures
        iterate(f, x, n + 1) == f(iterate(f, x, n)),
{
    assert((n + 1 - 1) as nat == n);
}

/// Walking `a` steps and then `b` steps is walking `a + b` steps.
pub proof fn lemma_iterate_add<S>(f: spec_fn(S) -> S, x: S, a: nat, b: nat)
    ensures
        iterate(f, iterate(f, x, a), b) == iterate(f, x, a + b),
    decreases b,
{
    if b > 0 {
        lemma_iterate_add(f, x, a, (b - 1) as nat);
        lemma_iterate_succ(f, x, (a + b - 1) as nat);
        assert((a + b - 1) as nat + 1 == a + b);
    }
}

/// Equal states stay equal when both are advanced by the same number of steps.
pub proof fn lemma_shift<S>(f: spec_fn(S) -> S, x: S, a: nat, b: nat, t: nat)
    requires
        iterate(f, x, a) == iterate(f, x, b),
    ensures
        iterate(f, x, a + t) == iterate(f, x, b + t),
{
    lemma_iterate_add(f, x, a, t);
    lemma_iterate_add(f, x, b, t);
}

/// A state that returns after `l` steps returns after any multiple of `l`,
/// whatever is walked afterwards.
pub proof fn lemma_periodic<S>(f: spec_fn(S) -> S, y: S, l: nat, k: nat, r: nat)
    requires
        iterate(f, y, l) == y,
    ensures
        iterate(f, y, k * l + r) == iterate(f, y, r),
    decreases k,
{
    if k > 0 {
        let k1 = (k - 1) as nat;
        let m: nat = k1 * l + r;
        lemma_periodic(f, y, l, k1, r);
        assert(k * l + r == l + m) by (nonlinear_arith)
            requires
                k1 == k - 1,
                m == k1 * l + r,
        ;
        lemma_iterate_add(f, y, l, m);
    } else {
        assert(k * l + r == r) by (nonlinear_arith)
            requires
                k == 0,
        ;
    }
}


/// Searches upward from `m` for the first index whose state occurs again.
proof fn lemma_tail_search<S>(f: spec_fn(S) -> S, x: S, m: nat, i: nat, j: nat) -> (r: nat)
    requires
        m <= i < j,
        iterate(f, x, i) == iterate(f, x, j),
        forall|a: nat, b: nat|
            a < m && a < b ==> #[trigger] iterate(f, x, a) != #[trigger] iterate(f, x, b),
    ensures
        is_tail_length(f, x, r),
        r <= i,
    decreases i - m,
{
    if exists|b: nat| m < b && iterate(f, x, b) == iterate(f, x, m) {
        m
    } else {
        if m == i {
            assert(m < j && iterate(f, x, j) == iterate(f, x, m));
        }
        assert forall|a: nat, b: nat| a < m + 1 && a < b implies #[trigger] iterate(f, x, a)
            != #[trigger] iterate(f, x, b) by {
            if a == m {
                assert(!(m < b && iterate(f, x, b) == iterate(f, x, m)));
            }
        }
        lemma_tail_search(f, x, m + 1, i, j)
    }
}

/// Searches upward from `l` for the least number of steps after which the
/// state at index `m` returns.
proof fn lemma_period_search<S>(f: spec_fn(S) -> S, x: S, m: nat, l: nat, d: nat) -> (r: nat)
    requires
        1 <= l <= d,
        iterate(f, x, m + d) == iterate(f, x, m),
        forall|k: nat| 0 < k < l ==> #[trigger] iterate(f, x, m + k) != iterate(f, x, m),
    ensures
        is_least_period(f, x, m, r),
        r <= d,
    decreases d - l,
{
    if iterate(f, x, m + l) == iterate(f, x, m) {
        l
    } else {
        assert forall|k: nat| 0 < k < l + 1 implies #[trigger] iterate(f, x, m + k) != iterate(
            f,
            x,
            m,
        ) by {
            if k == l {
            }
        }
        lemma_period_search(f, x, m, l + 1, d)
    }
}

/// From index `a` on the cycle some further walk leads back to index `m`.
proof fn lemma_reaches<S>(f: spec_fn(S) -> S, x: S, m: nat, l: nat, a: nat) -> (s: nat)
    requires
        l >= 1,
        iterate(f, x, m + l) == iterate(f, x, m),
        m <= a,
    ensures
        iterate(f, x, a + s) == iterate(f, x, m),
    decreases a - m,
{
    if a == m {
        0
    } else {
        let s1 = lemma_reaches(f, x, m, l, (a - 1) as nat);
        if s1 >= 1 {
            assert(a + (s1 - 1) as nat == (a - 1) as nat + s1);
            (s1 - 1) as nat
        } else {
            lemma_shift(f, x, (a - 1) as nat, m, l);
            assert(a + (l - 1) as nat == (a - 1) as nat + l);
            (l - 1) as nat
        }
    }
}

/// A return after `d` steps anywhere on the cycle is a return after `d`
/// steps from index `m`, the start of the cycle.
pub proof fn lemma_return_transfers<S>(
    f: spec_fn(S) -> S,
    x: S,
    m: nat,
    l: nat,
    a: nat,
    d: nat,
)
    requires
        l >= 1,
        iterate(f, x, m + l) == iterate(f, x, m),
        m <= a,
        iterate(f, x, a) == iterate(f, x, a + d),
    ensures
        iterate(f, x, m) == iterate(f, x, m + d),
{
    let s = lemma_reaches(f, x, m, l, a);
    lemma_shift(f, x, a, a + d, s);
    assert(a + d + s == a + s + d);
    lemma_shift(f, x, a + s, m, d);
}

/// A return after `d` steps somewhere on the cycle is a return after `d`
/// steps everywhere on the cycle.
pub proof fn lemma_return_everywhere<S>(
    f: spec_fn(S) -> S,
    x: S,
    m: nat,
    l: nat,
    a: nat,
    d: nat,
    b: nat,
)
    requires
        l >= 1,
        iterate(f, x, m + l) == iterate(f, x, m),
        m <= a,
        m <= b,
        iterate(f, x, a) == iterate(f, x, a + d),
    ensures
        iterate(f, x, b) == iterate(f, x, b + d),
{
    lemma_return_transfers(f, x, m, l, a, d);
    lemma_shift(f, x, m, m + d, (b - m) as nat);
    assert(m + (b - m) as nat == b);
    assert(m + d + (b - m) as nat == b + d);
}

/// No state on the cycle returns in fewer steps than the least period.
pub proof fn lemma_no_early_return<S>(
    f: spec_fn(S) -> S,
    x: S,
    m: nat,
    l: nat,
    a: nat,
    d: nat,
)
    requires
        is_least_period(f, x, m, l),
        m <= a,
        0 < d < l,
    ensures
        iterate(f, x, a) != iterate(f, x, a + d),
{
    if iterate(f, x, a) == iterate(f, x, a + d) {
        lemma_return_transfers(f, x, m, l, a, d);
        assert(iterate(f, x, m + d) != iterate(f, x, m));
    }
}

/// The state at index `a` of the cycle returns after `l` steps.
pub proof fn lemma_period_everywhere<S>(f: spec_fn(S) -> S, x: S, m: nat, l: nat, a: nat)
    requires
        l >= 1,
        iterate(f, x, m + l) == iterate(f, x, m),
        m <= a,
    ensures
        iterate(f, x, a) == iterate(f, x, a + l),
{
    lemma_return_everywhere(f, x, m, l, m, l, a);
}

/// The tail length of the orbit of `x`.
pub open spec fn tail_length<S>(f: spec_fn(S) -> S, x: S) -> nat {
    choose|m: nat| is_tail_length(f, x, m)
}

/// The least period of the cycle of the orbit of `x`.
pub open spec fn cycle_period<S>(f: spec_fn(S) -> S, x: S) -> nat {
    choose|l: nat| is_least_period(f, x, tail_length(f, x), l)
}

/// An orbit that repeats within its first `n + 1` states has a tail and a
/// least period, and together they take at most `n` steps.
pub proof fn lemma_orbit_shape<S>(f: spec_fn(S) -> S, x: S, n: nat)
    requires
        repeats_within(f, x, n),
    ensures
        is_tail_length(f, x, tail_length(f, x)),
        is_least_period(f, x, tail_length(f, x), cycle_period(f, x)),
        tail_length(f, x) + cycle_period(f, x) <= n,
{
    let (i, j) = choose|i: nat, j: nat|
        i < j <= n && iterate(f, x, i) == iterate(f, x, j);
    let m0 = lemma_tail_search(f, x, 0, i, j);
    let m = tail_length(f, x);
    lemma_tail_unique(f, x, m0, m);
    let j1 = choose|j1: nat| m < j1 && iterate(f, x, j1) == iterate(f, x, m);
    assert(m + (j1 - m) as nat == j1);
    let l0 = lemma_period_search(f, x, m, 1, (j1 - m) as nat);
    lemma_return_transfers(f, x, m, l0, i, (j - i) as nat);
    assert(i + (j - i) as nat == j);
    let l = cycle_period(f, x);
    lemma_period_unique(f, x, m, l0, l);
}

/// The tail length is unique.
pub proof fn lemma_tail_unique<S>(f: spec_fn(S) -> S, x: S, m1: nat, m2: nat)
    requires
        is_tail_length(f, x, m1),
        is_tail_length(f, x, m2),
    ensures
        m1 == m2,
{
    if m1 < m2 {
        let j = choose|j: nat| m1 < j && iterate(f, x, j) == iterate(f, x, m1);
        assert(iterate(f, x, m1) != iterate(f, x, j));
    } else if m2 < m1 {
        let j = choose|j: nat| m2 < j && iterate(f, x, j) == iterate(f, x, m2);
        assert(iterate(f, x, m2) != iterate(f, x, j));
    }
}

/// The least period is unique.
pub proof fn lemma_period_unique<S>(f: spec_fn(S) -> S, x: S, m: nat, l1: nat, l2: nat)
    requires
        is_least_period(f, x, m, l1),
        is_least_period(f, x, m, l2),
    ensures
        l1 == l2,
{
    if l1 < l2 {
        assert(iterate(f, x, m + l1) != iterate(f, x, m));
    } else if l2 < l1 {
        assert(iterate(f, x, m + l2) != iterate(f, x, m));
    }
}


/// A transition `g` that agrees with `f` on the states of the orbit of `x`
/// before its first return agrees with `f` on every state of that orbit.
proof fn lemma_agree_on_orbit<S>(
    f: spec_fn(S) -> S,
    g: spec_fn(S) -> S,
    x: S,
    m: nat,
    l: nat,
    q: nat,
)
    requires
        l >= 1,
        iterate(f, x, m + l) == iterate(f, x, m),
        forall|i: nat| i < m + l ==> g(#[trigger] iterate(f, x, i)) == f(iterate(f, x, i)),
    ensures
        g(iterate(f, x, q)) == f(iterate(f, x, q)),
    decreases q,
{
    if q >= m + l {
        let p = (q - l) as nat;
        lemma_period_everywhere(f, x, m, l, p);
        assert(p + l == q);
        lemma_agree_on_orbit(f, g, x, m, l, p);
    }
}

/// A transition `g` that agrees with `f` on the states of the orbit of `x`
/// before its first return has the same orbit from `x`.
pub proof fn lemma_orbits_agree<S>(
    f: spec_fn(S) -> S,
    g: spec_fn(S) -> S,
    x: S,
    m: nat,
    l: nat,
    n: nat,
)
    requires
        l >= 1,
        iterate(f, x, m + l) == iterate(f, x, m),
        forall|i: nat| i < m + l ==> g(#[trigger] iterate(f, x, i)) == f(iterate(f, x, i)),
    ensures
        iterate(g, x, n) == iterate(f, x, n),
    decreases n,
{
    if n > 0 {
        let p = (n - 1) as nat;
        lemma_orbits_agree(f, g, x, m, l, p);
        lemma_agree_on_orbit(f, g, x, m, l, p);
        lemma_iterate_succ(f, x, p);
        lemma_iterate_succ(g, x, p);
    }
}


/// A call of `next` on the state at index `n` returns the state at index
/// `n + 1`, and extends the walk by one state.
pub proof fn lemma_walk_step<S, F: Fn(S) -> S>(next: F, f: spec_fn(S) -> S, x: S, n: nat, y: S)
    requires
        computes(next, f),
        walked(next, f, x, n),
        next.ensures((iterate(f, x, n),), y),
    ensures
        y == iterate(f, x, n + 1),
        walked(next, f, x, n + 1),
{
    lemma_iterate_succ(f, x, n);
}

} // verus!
