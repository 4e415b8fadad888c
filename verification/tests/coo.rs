use gaussrdl::coo::{entry_positions_of, split_index_pairs};

#[test]
fn interleaved_pairs_split_into_rows_and_columns() {
    let (rows, cols) = split_index_pairs(&vec![1, 2, 3, 4, 5], true);
    assert_eq!(rows, vec![1, 3, 5]);
    assert_eq!(cols, vec![2, 4]);
    let (rows, cols) = split_index_pairs(&vec![1, 2], false);
    assert!(rows.is_empty() && cols.is_empty());
}

#[test]
fn entries_found_at_their_first_position() {
    let rows = vec![0, 1, 0];
    let cols = vec![1, 2, 1];
    assert_eq!(entry_positions_of(&rows, &cols, &vec![(0, 1), (2, 2), (1, 2)]), vec![0, 1]);
    assert!(entry_positions_of(&rows, &cols, &Vec::new()).is_empty());
}
