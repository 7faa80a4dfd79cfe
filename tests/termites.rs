use utils::termites::{from_elems, parse_input, part1, part2, part3, simulate};

fn example_rules() -> Vec<Vec<usize>> {
    vec![vec![1, 2], vec![2, 0], vec![0]]
}

#[test]
fn counts_by_generation() {
    assert_eq!(from_elems(&[2, 0, 2, 2], 4), vec![1, 0, 3, 0]);
    assert_eq!(from_elems(&[], 2), vec![0, 0]);
}

#[test]
fn population_over_days() {
    assert_eq!(simulate(&example_rules(), &[0], 4), 8);
    assert_eq!(simulate(&example_rules(), &[0, 0, 2], 3), 13);
    assert_eq!(simulate(&example_rules(), &[1], 0), 1);
}

#[test]
fn rules_parse_into_indices() {
    let (names, rules) = parse_input(b"A:B,C\nB:C,A\nC:A\n");
    assert_eq!(names, vec![b"A".to_vec(), b"B".to_vec(), b"C".to_vec()]);
    assert_eq!(rules, example_rules());
}

#[test]
fn populations_from_named_generations() {
    assert_eq!(part1(b"A:B,C\nB:C,A\nC:A"), 8);
    assert_eq!(part2(b"Z:Z,Z\nQ:Z"), 1024);
    assert_eq!(part3(b"A:B,C\nB:C,A,A\nC:A"), 268815);
}
