use utils::nails::{median, minimum_strikes_part1, minimum_strikes_part3};

#[test]
fn strikes_down_to_lowest() {
    assert_eq!(minimum_strikes_part1(&[3, 4, 7, 8]), 10);
    assert_eq!(minimum_strikes_part1(&[]), 0);
    assert_eq!(minimum_strikes_part1(&[-5, 5]), 10);
}

#[test]
fn median_of_sorted_values() {
    assert_eq!(median(&[8, 2, 6, 4, 5]), 5);
    assert_eq!(median(&[4, 1, 3, 2]), 3);
    assert_eq!(median(&[7]), 7);
}

#[test]
fn strikes_to_median() {
    assert_eq!(minimum_strikes_part3(&[2, 4, 5, 6, 8]), 8);
    assert_eq!(minimum_strikes_part3(&[1, 1, 1]), 0);
}
