use nonogram_core::backtrack::backtrack_solve;
use nonogram_core::hint_generator::generate_hints;
use nonogram_core::logical_solver::logical_solve;
use nonogram_core::solve::{classify_search, grid_to_u8, solve_puzzle};
use nonogram_core::types::{CellState, SolveResult};
use nonogram_core::validator::validate_puzzle;

#[test]
fn test_solve_puzzle_unique() {
    let row_hints = vec![vec![1], vec![1], vec![5], vec![1], vec![1]];
    let col_hints = vec![vec![1], vec![1], vec![5], vec![1], vec![1]];
    let result = solve_puzzle(row_hints, col_hints, None);
    match result {
        SolveResult::UniqueSolution { grid } => {
            let expected = vec![
                vec![0, 0, 1, 0, 0],
                vec![0, 0, 1, 0, 0],
                vec![1, 1, 1, 1, 1],
                vec![0, 0, 1, 0, 0],
                vec![0, 0, 1, 0, 0],
            ];
            assert_eq!(grid, expected);
        }
        _ => panic!("expected a unique solution"),
    }
}

#[test]
fn test_solve_puzzle_multiple() {
    let row_hints = vec![vec![1]; 2];
    let col_hints = vec![vec![1]; 2];
    let result = solve_puzzle(row_hints, col_hints, None);
    assert!(matches!(result, SolveResult::MultipleSolutions));
}

#[test]
fn test_solve_puzzle_no_solution() {
    let row_hints = vec![vec![5]; 5];
    let col_hints = vec![vec![1]; 5];
    let result = solve_puzzle(row_hints, col_hints, None);
    assert!(matches!(result, SolveResult::NoSolution));
}

#[test]
fn test_solve_puzzle_timeout_zero_seconds() {
    let row_hints = vec![vec![1], vec![1], vec![5], vec![1], vec![1]];
    let col_hints = vec![vec![1], vec![1], vec![5], vec![1], vec![1]];
    let result = solve_puzzle(row_hints, col_hints, Some(0));
    match result {
        SolveResult::Timeout { elapsed_seconds } => assert_eq!(elapsed_seconds, 0),
        _ => panic!("expected a timeout with a zero-second deadline"),
    }
}

#[test]
fn test_round_trip_hints() {
    // Solving and then regenerating hints reproduces the hint sets.
    let row_hints = vec![vec![1], vec![1], vec![5], vec![1], vec![1]];
    let col_hints = vec![vec![1], vec![1], vec![5], vec![1], vec![1]];
    let result = solve_puzzle(row_hints.clone(), col_hints.clone(), None);
    match result {
        SolveResult::UniqueSolution { grid } => {
            let (rh, ch) = generate_hints(&grid);
            assert_eq!(rh, row_hints);
            assert_eq!(ch, col_hints);
        }
        _ => panic!("expected a unique solution"),
    }
}

#[test]
fn test_search_order_filled_first() {
    // The Filled-first branch is explored first, so the diagonal with the
    // top-left cell Filled is found before the other one.
    let row_hints = vec![vec![1]; 2];
    let col_hints = vec![vec![1]; 2];
    let grid = vec![vec![CellState::Unknown; 2]; 2];
    let (solutions, _) = backtrack_solve(&grid, &row_hints, &col_hints, 2, None);
    assert_eq!(solutions.len(), 2);
    assert_eq!(
        solutions[0],
        vec![
            vec![CellState::Filled, CellState::Empty],
            vec![CellState::Empty, CellState::Filled],
        ]
    );
    assert_eq!(
        solutions[1],
        vec![
            vec![CellState::Empty, CellState::Filled],
            vec![CellState::Filled, CellState::Empty],
        ]
    );
}

#[test]
fn test_propagation_monotonic() {
    // Propagation only ever resolves cells; it never flips one back.
    let row_hints = vec![vec![1], vec![1], vec![5], vec![1], vec![1]];
    let col_hints = vec![vec![1], vec![1], vec![5], vec![1], vec![1]];
    let mut grid = vec![vec![CellState::Unknown; 5]; 5];
    grid[2][2] = CellState::Filled;
    let before = grid.clone();
    let result = logical_solve(&mut grid, &row_hints, &col_hints, None);
    assert_eq!(result, Ok(true));
    let mut unknowns_after = 0;
    for r in 0..5 {
        for c in 0..5 {
            if before[r][c] != CellState::Unknown {
                assert_eq!(grid[r][c], before[r][c]);
            }
            if grid[r][c] == CellState::Unknown {
                unknowns_after += 1;
            }
        }
    }
    assert!(unknowns_after <= 24);
}

#[test]
fn test_propagation_contradiction() {
    let row_hints = vec![vec![1]];
    let col_hints = vec![vec![1]];
    let mut grid = vec![vec![CellState::Empty]];
    let result = logical_solve(&mut grid, &row_hints, &col_hints, None);
    assert_eq!(result, Err(()));
}

#[test]
fn test_grid_to_u8_marks_filled_only() {
    let grid = vec![
        vec![CellState::Filled, CellState::Empty],
        vec![CellState::Unknown, CellState::Filled],
    ];
    assert_eq!(grid_to_u8(&grid), vec![vec![1, 0], vec![0, 1]]);
}

#[test]
fn test_validator_reports_every_violation() {
    // Width out of range, row count mismatch, embedded zero, unfit column
    // hints and a sum mismatch are all reported together.
    let row_hints = vec![vec![2, 0, 1]];
    let col_hints = vec![vec![9], vec![1]];
    let result = validate_puzzle(0, 5, &row_hints, &col_hints);
    assert!(!result.valid);
    // width bad; row count != 5; col count != 0; row hints don't fit a
    // width of 0; embedded zero; column hint 9 exceeds height 5; totals 3
    // and 10 differ.
    assert_eq!(result.errors.len(), 7);
}

#[test]
fn test_validator_dimension_errors() {
    let row_hints: Vec<Vec<u32>> = vec![];
    let col_hints: Vec<Vec<u32>> = vec![];
    let result = validate_puzzle(0, 101, &row_hints, &col_hints);
    assert!(!result.valid);
    // width 0, height 101, and the row-hint count (0) differs from height.
    assert_eq!(result.errors.len(), 3);
}

#[test]
fn test_validator_lone_zero_hint_is_valid() {
    // A lone [0] is shorthand for an empty line and is not an error.
    let row_hints = vec![vec![0], vec![1]];
    let col_hints = vec![vec![1], vec![]];
    let result = validate_puzzle(2, 2, &row_hints, &col_hints);
    assert!(result.valid, "Errors: {:?}", result.errors);
}

#[test]
fn test_validator_embedded_zero_rejected() {
    let row_hints = vec![vec![1, 0], vec![1]];
    let col_hints = vec![vec![1], vec![1]];
    let result = validate_puzzle(2, 2, &row_hints, &col_hints);
    assert!(!result.valid);
    assert!(result.errors.iter().any(|e| e.contains("0が含まれています")));
}

#[test]
fn test_solve_puzzle_empty_hint_sets() {
    let row_hints: Vec<Vec<u32>> = vec![];
    let col_hints: Vec<Vec<u32>> = vec![];
    let result = solve_puzzle(row_hints, col_hints, None);
    match result {
        SolveResult::UniqueSolution { grid } => assert!(grid.is_empty()),
        _ => panic!("an empty puzzle has exactly its trivial solution"),
    }
}

#[test]
fn test_classify_search_dispatch() {
    let solution = vec![vec![CellState::Filled, CellState::Empty]];
    let other = vec![vec![CellState::Empty, CellState::Filled]];

    // No solution found: the timeout flag decides the variant.
    let empty: Vec<Vec<Vec<CellState>>> = vec![];
    match classify_search(&empty, true, 42) {
        SolveResult::Timeout { elapsed_seconds } => assert_eq!(elapsed_seconds, 42),
        _ => panic!("zero solutions with the flag set must report a timeout"),
    }
    assert!(matches!(
        classify_search(&empty, false, 42),
        SolveResult::NoSolution
    ));

    // One solution found is that unique solution in 0/1 form, even when the
    // clock ran out: it is never discarded.
    match classify_search(&vec![solution.clone()], true, 42) {
        SolveResult::UniqueSolution { grid } => assert_eq!(grid, vec![vec![1, 0]]),
        _ => panic!("a found solution must be reported despite the timeout"),
    }
    match classify_search(&vec![solution.clone()], false, 42) {
        SolveResult::UniqueSolution { grid } => assert_eq!(grid, vec![vec![1, 0]]),
        _ => panic!("one solution must be reported as unique"),
    }

    // Two or more found are reported as multiple.
    assert!(matches!(
        classify_search(&vec![solution, other], false, 42),
        SolveResult::MultipleSolutions
    ));
}

#[test]
fn test_validator_message_order_and_texts() {
    // Each violated check contributes its own text, in emission order:
    // width range, row-hint count, column-hint count, row fit, embedded
    // zero, column fit, grand-total mismatch.
    let row_hints = vec![vec![2, 0, 1]];
    let col_hints = vec![vec![9], vec![1]];
    let result = validate_puzzle(0, 5, &row_hints, &col_hints);
    let expected = vec![
        "幅は1以上100以下である必要があります",
        "行ヒントの数が高さと一致しません",
        "列ヒントの数が幅と一致しません",
        "行のヒントは最低必要マス数が幅を超えています",
        "行のヒントに0が含まれています",
        "列のヒントは最低必要マス数が高さを超えています",
        "行ヒントの合計と列ヒントの合計が一致しません",
    ];
    assert_eq!(result.errors, expected);
}
