use utils::dance::{dance_round, part1, read_column_front, read_columns, transpose};

fn example_columns() -> Vec<Vec<i64>> {
    let rows = vec![vec![2, 3, 4, 5], vec![3, 4, 5, 2], vec![4, 5, 2, 3], vec![5, 2, 3, 4]];
    transpose(&rows)
}

#[test]
fn transpose_turns_rows_into_columns() {
    let cols = transpose(&[vec![1, 2, 3], vec![4, 5, 6]]);
    assert_eq!(cols, vec![vec![1, 4], vec![2, 5], vec![3, 6]]);
}

#[test]
fn one_round_moves_the_clapper() {
    let mut cols = example_columns();
    dance_round(&mut cols, 0);
    assert_eq!(cols, vec![vec![3, 4, 5], vec![3, 2, 4, 5, 2], vec![4, 5, 2, 3], vec![5, 2, 3, 4]]);
}

#[test]
fn fronts_read_as_one_number() {
    assert_eq!(read_column_front(&[vec![12, 1], vec![0], vec![345]]), 120345);
    assert_eq!(read_column_front(&[vec![0], vec![7]]), 7);
}

#[test]
fn ten_rounds() {
    assert_eq!(part1(example_columns()), 2323);
}

#[test]
fn columns_read_from_text() {
    let cols = read_columns(b"2 3 4 5\n3 4 5 2\n4 5 2 3\n5 2 3 4\n");
    assert_eq!(cols, example_columns());
    assert_eq!(read_columns(b"  -1\t+2 \r\n 3   4"), vec![vec![-1, 3], vec![2, 4]]);
}
