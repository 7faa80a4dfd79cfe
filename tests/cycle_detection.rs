use utils::cycle_detection::{apply_iterations_using_cycle_skip, brent, floyd, hashmap, CycleInfo};

fn mod5(x: u64) -> u64 {
    (x + 1) % 5
}

fn tail_then_loop(x: u64) -> u64 {
    match x {
        0 => 1,
        1 => 2,
        2 => 3,
        _ => 1,
    }
}

fn quadratic(x: u64) -> u64 {
    (x * x + 1) % 255
}

fn brute_force(initial: u64, n: u64, next: impl Fn(u64) -> u64) -> u64 {
    let mut x = initial;
    for _ in 0..n {
        x = next(x);
    }
    x
}

fn apply_n<S: Clone>(initial: &S, n: u64, next: &impl Fn(S) -> S) -> S {
    let mut x = initial.clone();
    for _ in 0..n {
        x = next(x);
    }
    x
}

#[test]
fn pure_cycle_without_tail() {
    let expected = CycleInfo { start: 0, length: 5, initial_element: 0, first_element_in_cycle: 0 };
    assert_eq!(floyd(0u64, mod5), expected);
    assert_eq!(brent(0u64, mod5), expected);
    assert_eq!(hashmap(0u64, mod5), expected);
}

#[test]
fn tail_then_cycle() {
    let expected = CycleInfo { start: 1, length: 3, initial_element: 0, first_element_in_cycle: 1 };
    assert_eq!(floyd(0u64, tail_then_loop), expected);
    assert_eq!(brent(0u64, tail_then_loop), expected);
    assert_eq!(hashmap(0u64, tail_then_loop), expected);
}

#[test]
fn skip_ahead_one_million() {
    let info = brent(0u64, tail_then_loop);
    let skipped = apply_iterations_using_cycle_skip(info, 1_000_000, tail_then_loop);
    assert_eq!(skipped, brute_force(0, 1_000_000, tail_then_loop));
    assert_eq!(skipped, 1);
}

#[test]
fn skip_ahead_on_compound_state() {
    let next = |mut v: [i64; 5]| {
        v.rotate_left(1);
        v[4] = (v[3] * 3 + v[0]) % 7;
        v
    };
    let initial = [1i64, 2, 3, 4, 5];
    let info = floyd(initial, next);
    assert_eq!(info, brent(initial, next));
    assert_eq!(info, hashmap(initial, next));
    for n in 0..=10 {
        assert_eq!(apply_iterations_using_cycle_skip(info, n, next), apply_n(&initial, n, &next));
    }
    let far = apply_iterations_using_cycle_skip(info, 1_000_000_000, next);
    let reduced = (1_000_000_000 - info.start) % info.length + info.start;
    assert_eq!(far, apply_n(&initial, reduced, &next));
}

#[test]
fn detectors_agree_on_many_orbits() {
    for seed in 0..255u64 {
        let a = floyd(seed, quadratic);
        let b = brent(seed, quadratic);
        let c = hashmap(seed, quadratic);
        assert_eq!(a, b);
        assert_eq!(a, c);
    }
}

#[test]
fn periodicity_and_tail_hold() {
    for seed in 0..255u64 {
        let info = hashmap(seed, quadratic);
        assert!(info.length >= 1);
        assert_eq!(brute_force(seed, info.start, quadratic), info.first_element_in_cycle);
        assert_eq!(
            brute_force(info.first_element_in_cycle, info.length, quadratic),
            info.first_element_in_cycle
        );
        for k in 1..info.length {
            assert_ne!(brute_force(info.first_element_in_cycle, k, quadratic), info.first_element_in_cycle);
        }
    }
}

#[test]
fn skip_matches_brute_force_for_small_counts() {
    for seed in [0u64, 3, 17, 200] {
        let info = floyd(seed, quadratic);
        for n in 0..200 {
            assert_eq!(
                apply_iterations_using_cycle_skip(info, n, quadratic),
                brute_force(seed, n, quadratic)
            );
        }
    }
}

#[test]
fn skip_inside_the_tail() {
    let info = hashmap(0u64, tail_then_loop);
    assert_eq!(apply_iterations_using_cycle_skip(info, 0, tail_then_loop), 0);
    assert_eq!(apply_iterations_using_cycle_skip(info, 4, tail_then_loop), 1);
    assert_eq!(apply_iterations_using_cycle_skip(info, 6, tail_then_loop), 3);
}

#[test]
fn fixed_point_has_period_one() {
    let info = brent(7u64, |x| if x > 2 { x - 1 } else { x });
    assert_eq!(info.start, 5);
    assert_eq!(info.length, 1);
    assert_eq!(info.first_element_in_cycle, 2);
}

#[test]
fn skip_ahead_repeats_every_period() {
    let info = floyd(0u64, tail_then_loop);
    assert_eq!(apply_iterations_using_cycle_skip(info, info.start, tail_then_loop), info.first_element_in_cycle);
    for n in info.start..50 {
        assert_eq!(
            apply_iterations_using_cycle_skip(info, n, tail_then_loop),
            apply_iterations_using_cycle_skip(info, n + info.length, tail_then_loop)
        );
    }
}
