//! Searches for the boundary of a monotone predicate over `u64`, without a
//! container to search in.

use vstd::prelude::*;

verus! {

/// `predicate` accepts every number, and every value it returns on `x` is `p(x)`.
pub open spec fn decides<P: Fn(u64) -> bool>(predicate: P, p: spec_fn(u64) -> bool) -> bool {
    &&& forall|x: u64| #[trigger] predicate.requires((x,))
    &&& forall|x: u64, b: bool| #[trigger] predicate.ensures((x,), b) ==> b == p(x)
}

/// On the numbers in `[lo, hi)`, `p` holds up to some point and fails after it.
pub open spec fn monotone_on(p: spec_fn(u64) -> bool, lo: int, hi: int) -> bool {
    forall|a: u64, b: u64| lo <= a <= b < hi && #[trigger] p(b) ==> #[trigger] p(a)
}

/// `r` is the first number in `[lo, hi)` on which `p` fails, or `hi` if
/// there is none.
pub open spec fn is_boundary(p: spec_fn(u64) -> bool, lo: int, hi: int, r: int) -> bool {
    &&& lo <= r <= hi
    &&& forall|x: u64| lo <= x < r ==> #[trigger] p(x)
    &&& forall|x: u64| r <= x < hi ==> !#[trigger] p(x)
}

/// The first number in `[start, end)` on which `predicate` returns false, or
/// `end` if there is none; `start` itself when the range is empty.
pub fn binary_search<P: Fn(u64) -> bool>(start: u64, end: u64, predicate: P) -> (r: u64)
    requires
        forall|x: u64| #[trigger] predicate.requires((x,)),
    ensures
        end <= start ==> r == start,
        start < end ==> start <= r <= end,
        forall|p: spec_fn(u64) -> bool| #[trigger]
            decides(predicate, p) ==> (start < r ==> p((r - 1) as u64)) && (r < end ==> !p(r)),
        start <= end ==> forall|p: spec_fn(u64) -> bool| #[trigger]
            decides(predicate, p) && monotone_on(p, start as int, end as int) ==> is_boundary(
                p,
                start as int,
                end as int,
                r as int,
            ),
{
    let mut lo = start;
    let mut hi = end;
    while hi > lo
        invariant
            forall|x: u64| #[trigger] predicate.requires((x,)),
            start <= lo,
            end <= start ==> lo == start && hi == end,
            start < end ==> lo <= hi <= end,
            forall|p: spec_fn(u64) -> bool| #[trigger]
                decides(predicate, p) ==> (start < lo ==> p((lo - 1) as u64)) && (hi < end
                    ==> !p(hi)),
        decreases hi - lo,
    {
        let mid = lo + (hi - lo) / 2;
        if predicate(mid) {
            lo = mid + 1;
        } else {
            hi = mid;
        }
    }
    proof {
        assert forall|p: spec_fn(u64) -> bool|
            start <= end && #[trigger] decides(predicate, p) && monotone_on(p, start as int, end as int) implies is_boundary(
            p,
            start as int,
            end as int,
            lo as int,
        ) by {
            if start < end {
                assert forall|x: u64| start <= x < lo implies #[trigger] p(x) by {
                    assert(p((lo - 1) as u64));
                }
                assert forall|x: u64| lo <= x < end implies !#[trigger] p(x) by {
                    assert(!p(lo));
                }
            }
        }
    }
    lo
}


/// `predicate` decides some spec function that is monotone from `start` on
/// and fails at a number `f > start` with `2 * f - start - 1` still a `u64`:
/// the doubling search then stops before its probes overflow.
pub open spec fn fails_within_reach<P: Fn(u64) -> bool>(predicate: P, start: u64) -> bool {
    exists|p: spec_fn(u64) -> bool, f: u64|
        decides(predicate, p) && monotone_on(p, start as int, u64::MAX + 1) && start < f && 2 * f
            - start - 1 <= u64::MAX && !#[trigger] p(f)
}

/// The first number from `start` on at which `predicate` returns false,
/// found by probing `start + 1, start + 2, start + 4, ...` until a probe
/// fails and then searching the last doubling.
pub fn exponential_search<P: Fn(u64) -> bool>(start: u64, predicate: P) -> (r: u64)
    requires
        fails_within_reach(predicate, start),
    ensures
        forall|p: spec_fn(u64) -> bool| #[trigger]
            decides(predicate, p) && monotone_on(p, start as int, u64::MAX + 1) ==> is_boundary(
                p,
                start as int,
                u64::MAX + 1,
                r as int,
            ),
{
    let ghost (p0, f0) = choose|p: spec_fn(u64) -> bool, f: u64|
        decides(predicate, p) && monotone_on(p, start as int, u64::MAX + 1) && start < f && 2 * f
            - start - 1 <= u64::MAX && !#[trigger] p(f);
    let mut step: u64 = 1;
    loop
        invariant
            decides(predicate, p0),
            monotone_on(p0, start as int, u64::MAX + 1),
            start < f0,
            2 * f0 - start - 1 <= u64::MAX,
            !p0(f0),
            1 <= step < 2 * (f0 - start),
            forall|p: spec_fn(u64) -> bool| #[trigger]
                decides(predicate, p) ==> step == 1 || p((start + step / 2) as u64),
        ensures
            1 <= step,
            start + step <= u64::MAX,
            forall|p: spec_fn(u64) -> bool| #[trigger]
                decides(predicate, p) ==> (step == 1 || p((start + step / 2) as u64)) && !p(
                    (start + step) as u64,
                ),
        decreases 2 * (f0 - start) - step,
    {
        if !predicate(start + step) {
            break;
        }
        proof {
            if start + step >= f0 {
                assert(p0((start + step) as u64));
            }
        }
        step = step * 2;
    }
    let r = binary_search(start + step / 2, start + step, predicate);
    proof {
        let lo = start + step / 2;
        let hi = start + step;
        assert forall|p: spec_fn(u64) -> bool| #[trigger]
            decides(predicate, p) && monotone_on(p, start as int, u64::MAX + 1) implies is_boundary(
            p,
            start as int,
            u64::MAX + 1,
            r as int,
        ) by {
            assert(monotone_on(p, lo, hi));
            assert(is_boundary(p, lo, hi, r as int));
            assert forall|x: u64| start <= x < r implies #[trigger] p(x) by {
                if x < lo {
                    assert(p(lo as u64));
                }
            }
            assert(!p(r));
        }
    }
    r
}
} // verus!
