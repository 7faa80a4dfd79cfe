use utils::digging::{dig_out, part1, part3};

const MAP: &[u8] = b"..........\n..###.##..\n...####...\n..######..\n..######..\n...####...\n..........";

#[test]
fn dig_with_four_neighbours() {
    assert_eq!(part1(MAP), 35);
    assert_eq!(part1(b"#"), 1);
    assert_eq!(part1(b"##\n##"), 4);
    assert_eq!(part1(b""), 0);
}

#[test]
fn dig_with_eight_neighbours() {
    assert_eq!(part3(MAP), 29);
}

#[test]
fn dig_with_only_northern_neighbour() {
    assert_eq!(dig_out(b"#\n#\n#", &[(0, -1)]), 6);
}

#[test]
fn dig_with_only_eastern_neighbour() {
    assert_eq!(dig_out(b"###\n###\n###", &[(1, 0)]), 18);
    assert_eq!(dig_out(b"###\n###\n###", &[(0, 0), (-1, 0)]), 18);
    assert_eq!(part1(b"###\n###\n###"), 10);
}
