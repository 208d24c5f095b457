use nonogram_core::line_solver::{normalize_hints, solve_line};
use nonogram_core::types::CellState;

#[test]
fn test_solve_line_full() {
    let line = vec![CellState::Unknown; 5];
    let result = solve_line(&line, &vec![5]).unwrap();
    assert!(result.iter().all(|c| *c == CellState::Filled));
}

#[test]
fn test_solve_line_empty() {
    let line = vec![CellState::Unknown; 5];
    let result = solve_line(&line, &vec![]).unwrap();
    assert!(result.iter().all(|c| *c == CellState::Empty));
}

#[test]
fn test_solve_line_zero_hint() {
    let line = vec![CellState::Unknown; 5];
    let result = solve_line(&line, &vec![0]).unwrap();
    assert!(result.iter().all(|c| *c == CellState::Empty));
}

#[test]
fn test_solve_line_partial() {
    // Width 10, hint [7] -> overlap of 4 in the middle
    let line = vec![CellState::Unknown; 10];
    let result = solve_line(&line, &vec![7]).unwrap();
    // Positions 3..7 should be filled (overlap region)
    for i in 3..7 {
        assert_eq!(result[i], CellState::Filled, "position {} should be filled", i);
    }
}

#[test]
fn test_solve_line_contradiction() {
    // Hint says fill all 5, but pos 2 is known empty
    let mut line = vec![CellState::Unknown; 5];
    line[2] = CellState::Empty;
    let result = solve_line(&line, &vec![5]);
    assert!(result.is_none());
}

#[test]
fn test_solve_line_idempotent() {
    // Deduction applied to its own output changes nothing further.
    let line = vec![CellState::Unknown; 10];
    let once = solve_line(&line, &vec![7]).unwrap();
    let twice = solve_line(&once, &vec![7]).unwrap();
    assert_eq!(once, twice);
}

#[test]
fn test_solve_line_keeps_known_cells() {
    let mut line = vec![CellState::Unknown; 5];
    line[0] = CellState::Filled;
    line[4] = CellState::Empty;
    let result = solve_line(&line, &vec![2, 1]).unwrap();
    assert_eq!(result[0], CellState::Filled);
    assert_eq!(result[4], CellState::Empty);
}

#[test]
fn test_normalize_hints_lone_zero() {
    assert_eq!(normalize_hints(&vec![0]), Vec::<u32>::new());
    assert_eq!(normalize_hints(&vec![2, 1]), vec![2, 1]);
    assert_eq!(normalize_hints(&vec![]), Vec::<u32>::new());
}
