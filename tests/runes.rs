use utils::runes::{part2, runic_word, runic_word_power, try_find_shared_symbol, Wall};

fn example_grid() -> Vec<Vec<char>> {
    let text = "**PCBS**\n**RLNW**\nBV....PT\nCR....HZ\nFL....JW\nSG....MN\n**FTZV**\n**GMJH**";
    text.lines().map(|line| line.chars().collect()).collect()
}

#[test]
fn shared_symbol_is_first_in_row_order() {
    assert_eq!(try_find_shared_symbol(&['A', 'B', 'C'], &['C', 'B']), Some('B'));
    assert_eq!(try_find_shared_symbol(&['?', 'X'], &['?', 'X']), Some('X'));
    assert_eq!(try_find_shared_symbol(&['?'], &['?']), None);
    assert_eq!(try_find_shared_symbol(&[], &['A']), None);
}

#[test]
fn word_of_example_grid() {
    assert_eq!(runic_word(&example_grid()), "PTBVRCZHFLJWGMNS");
}

#[test]
fn power_of_words() {
    let word: Vec<char> = "PTBVRCZHFLJWGMNS".chars().collect();
    assert_eq!(runic_word_power(&word), 1851);
    assert_eq!(runic_word_power(&['A', 'B']), 5);
    assert_eq!(runic_word_power(&[]), 0);
}

#[test]
fn powers_of_many_grids() {
    assert_eq!(part2(&[example_grid()]), 1851);
    assert_eq!(part2(&[example_grid(), example_grid()]), 3702);
    assert_eq!(part2(&[]), 0);
}

#[test]
fn wall_grids_overlap_by_two() {
    let rows: Vec<Vec<char>> = (0..14)
        .map(|y| (0..14).map(|x| char::from(b'A' + ((x + y) % 26) as u8)).collect())
        .collect();
    let wall = Wall { grid: rows.clone(), width_blocks: 2, height_blocks: 2 };
    let g = wall.get_grid_at(1, 1);
    assert_eq!(g.len(), 8);
    assert_eq!(g[0][0], rows[6][6]);
    assert_eq!(g[7][7], rows[13][13]);
    assert_eq!(wall.get_grid_at(0, 0)[2], rows[2][0..8].to_vec());
}
