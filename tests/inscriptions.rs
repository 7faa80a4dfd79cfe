use utils::grid::OrthoDir;
use utils::inscriptions::{matches_overlapping, part1, part2, part3, WordSearch};

fn words(list: &[&str]) -> Vec<Vec<u8>> {
    list.iter().map(|w| w.as_bytes().to_vec()).collect()
}

#[test]
fn overlapping_matches_are_all_found() {
    assert_eq!(matches_overlapping(b"AA", b"AAAA"), vec![0, 1, 2]);
    assert_eq!(matches_overlapping(b"THE", b"THE THEN"), vec![0, 4]);
    assert_eq!(matches_overlapping(b"LONGER", b"LONG"), Vec::<usize>::new());
}

#[test]
fn words_counted_in_inscriptions() {
    let ws = words(&["THE", "OWE", "MES", "ROD", "HER"]);
    assert_eq!(part1(&ws, b"AWAKEN THE POWER ADORNED WITH THE FLAMES BRIGHT IRE"), 4);
    assert_eq!(part1(&ws, b"THE FLAME SHIELDED THE HEART OF THE KINGS"), 3);
    assert_eq!(part1(&ws, b"POWE PO WER P OWE R"), 2);
    assert_eq!(part1(&ws, b"THERE IS THE END"), 3);
}

#[test]
fn symbols_covered_either_way() {
    let ws = words(&["THE", "OWE", "MES", "ROD", "RODEO"]);
    assert_eq!(part2(&ws, b"AWAKEN THE POWE ADORNED WITH THE FLAMES BRIGHT IRE"), 15);
    assert_eq!(part2(&ws, b"THE FLAME SHIELDED THE HEART OF THE KINGS"), 9);
    assert_eq!(part2(&ws, b"POWE PO WER P OWE R"), 6);
    assert_eq!(part2(&ws, b"THERE IS THE END"), 6);
    assert_eq!(part2(&ws, b""), 0);
}

const GRID: &[u8] = b"HELWORLT\nENIGWDXL\nTRODEOAL";

#[test]
fn word_search_wraps_rows() {
    let ws = WordSearch::new(GRID);
    assert_eq!(ws.wrap_coords((-1, 2)), (7, 2));
    assert_eq!(ws.wrap_coords((9, 0)), (1, 0));
    assert_eq!(ws.wrap_coords((-16, 1)), (0, 1));
    assert_eq!(ws.get((8, 0)), Some(b'H'));
    assert_eq!(ws.get((0, 3)), None);
    assert_eq!(ws.get((0, -1)), None);
}

#[test]
fn word_search_reads_words() {
    let ws = WordSearch::new(GRID);
    let (word, coords) = ws.get_word((6, 0), OrthoDir::East, 4);
    assert_eq!(word, b"LTHE".to_vec());
    assert_eq!(coords, vec![(6, 0), (7, 0), (0, 0), (1, 0)]);
    let (word, coords) = ws.get_word((0, 1), OrthoDir::North, 3);
    assert_eq!(word, b"EH".to_vec());
    assert_eq!(coords, vec![(0, 1), (0, 0)]);
    let all = ws.all_coords();
    assert_eq!(all.len(), 24);
    assert_eq!(all[9], (1, 1));
}

#[test]
fn symbols_spelled_in_grid() {
    let ws = words(&["THE", "OWE", "MES", "ROD", "RODEO"]);
    assert_eq!(part3(&ws, GRID), 10);
    assert_eq!(part3(&words(&[]), GRID), 0);
}
