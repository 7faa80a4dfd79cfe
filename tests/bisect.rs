use utils::bisect::{binary_search, exponential_search};

#[test]
fn binary_search_finds_first_false() {
    assert_eq!(binary_search(0, 100, |x| x < 37), 37);
    assert_eq!(binary_search(0, 100, |x| x < 1000), 100);
    assert_eq!(binary_search(5, 100, |_| false), 5);
    assert_eq!(binary_search(10, 10, |_| true), 10);
    assert_eq!(binary_search(20, 10, |_| true), 20);
}

#[test]
fn exponential_search_finds_first_false() {
    assert_eq!(exponential_search(0, |x| x * x < 1000), 32);
    assert_eq!(exponential_search(0, |_| false), 0);
    assert_eq!(exponential_search(100, |x| x < 101), 101);
    assert_eq!(exponential_search(7, |x| x < 1_000_000), 1_000_000);
    assert_eq!(exponential_search(u64::MAX - 1, |_| false), u64::MAX - 1);
}
