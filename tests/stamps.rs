use utils::stamps::{part1, part2, part3, ChangeMaker};

#[test]
fn change_maker_counts_fewest_coins() {
    let mut maker = ChangeMaker::new(&[1, 3, 5, 10]);
    assert_eq!(maker.calculate_memo(0), 0);
    assert_eq!(maker.calculate_memo(16), 3);
    assert_eq!(maker.calculate_memo(7), 3);
    assert_eq!(maker.calculate_memo(9), 3);
}

#[test]
fn stamp_totals() {
    assert_eq!(part1(&[2, 4, 7, 16]), 10);
    assert_eq!(part2(&[33, 41, 55, 99]), 10);
    assert_eq!(part3(&[156488, 352486, 546212]), 10449);
    assert_eq!(part3(&[1, 2, 3, 100, 250]), 8);
    assert_eq!(part3(&[0]), 0);
}
