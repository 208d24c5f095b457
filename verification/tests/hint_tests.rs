use nonogram_core::hint_generator::{generate_hints, line_hint};

#[test]
fn test_line_hint_basic() {
    assert_eq!(line_hint(&vec![1, 1, 0, 1, 0, 1, 1, 1]), vec![2, 1, 3]);
}

#[test]
fn test_line_hint_empty() {
    assert_eq!(line_hint(&vec![0, 0, 0]), Vec::<u32>::new());
}

#[test]
fn test_line_hint_full() {
    assert_eq!(line_hint(&vec![1, 1, 1, 1, 1]), vec![5]);
}

#[test]
fn test_generate_hints_grid() {
    let grid = vec![
        vec![1, 0, 1],
        vec![1, 1, 1],
        vec![0, 1, 0],
    ];
    let (row_hints, col_hints) = generate_hints(&grid);
    assert_eq!(row_hints, vec![vec![1, 1], vec![3], vec![1]]);
    assert_eq!(col_hints, vec![vec![2], vec![2], vec![2]]);
}

#[test]
fn test_generate_hints_empty_grid() {
    let grid: Vec<Vec<u8>> = vec![];
    let (row_hints, col_hints) = generate_hints(&grid);
    assert!(row_hints.is_empty());
    assert!(col_hints.is_empty());
}
