use utils::potions::{part1, part2, part3, potions_needed};
use utils::text::trim_bounds;

#[test]
fn potions_per_monster() {
    assert_eq!(potions_needed(b'A'), Some(0));
    assert_eq!(potions_needed(b'B'), Some(1));
    assert_eq!(potions_needed(b'C'), Some(3));
    assert_eq!(potions_needed(b'D'), Some(5));
    assert_eq!(potions_needed(b'x'), None);
}

#[test]
fn potions_alone_pairs_and_threes() {
    assert_eq!(part1(b"ABBAC\n"), 5);
    assert_eq!(part2(b"AxBCDDCAxD"), 28);
    assert_eq!(part3(b"  xBxAAABCDxCC\r\n"), 30);
    assert_eq!(part2(b"DDD"), 12);
    assert_eq!(part1(b""), 0);
}

#[test]
fn trim_skips_ascii_whitespace() {
    assert_eq!(trim_bounds(b"  ab c\t\n"), (2, 6));
    assert_eq!(trim_bounds(b" \n "), (3, 3));
    assert_eq!(trim_bounds(b"xy"), (0, 2));
}
