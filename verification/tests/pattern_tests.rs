use nonogram_core::pattern::{filter_patterns, generate_patterns};
use nonogram_core::types::CellState;

#[test]
fn test_empty_hints() {
    let patterns = generate_patterns(5, &vec![]);
    assert_eq!(patterns.len(), 1);
    assert!(patterns[0].iter().all(|c| *c == CellState::Empty));
}

#[test]
fn test_single_hint_full() {
    let patterns = generate_patterns(5, &vec![5]);
    assert_eq!(patterns.len(), 1);
    assert!(patterns[0].iter().all(|c| *c == CellState::Filled));
}

#[test]
fn test_two_hints() {
    let patterns = generate_patterns(5, &vec![2, 1]);
    assert_eq!(patterns.len(), 3);
}

#[test]
fn test_single_hint_various_positions() {
    let patterns = generate_patterns(5, &vec![1]);
    assert_eq!(patterns.len(), 5);
}

#[test]
fn test_filter_compatible() {
    let patterns = generate_patterns(5, &vec![2, 1]);
    let known = vec![
        CellState::Filled,
        CellState::Unknown,
        CellState::Unknown,
        CellState::Unknown,
        CellState::Unknown,
    ];
    let filtered = filter_patterns(&patterns, &known);
    // Only patterns where pos 0 is Filled
    assert!(filtered.iter().all(|p| p[0] == CellState::Filled));
}

#[test]
fn test_1x1_filled() {
    let patterns = generate_patterns(1, &vec![1]);
    assert_eq!(patterns.len(), 1);
    assert_eq!(patterns[0][0], CellState::Filled);
}

#[test]
fn test_1x1_empty() {
    let patterns = generate_patterns(1, &vec![]);
    assert_eq!(patterns.len(), 1);
    assert_eq!(patterns[0][0], CellState::Empty);
}

#[test]
fn test_pattern_blocks_and_gaps() {
    // Every pattern for [2, 1] on width 5 carries the blocks in order with a
    // gap between them.
    let patterns = generate_patterns(5, &vec![2, 1]);
    for p in &patterns {
        let bits: Vec<u8> = p
            .iter()
            .map(|c| if *c == CellState::Filled { 1 } else { 0 })
            .collect();
        let mut runs: Vec<u32> = Vec::new();
        let mut count = 0u32;
        for b in &bits {
            if *b == 1 {
                count += 1;
            } else if count > 0 {
                runs.push(count);
                count = 0;
            }
        }
        if count > 0 {
            runs.push(count);
        }
        assert_eq!(runs, vec![2, 1]);
    }
}

#[test]
fn test_pattern_infeasible_is_empty() {
    // [3, 3] needs at least 7 cells; none fit in 5.
    let patterns = generate_patterns(5, &vec![3, 3]);
    assert_eq!(patterns.len(), 0);
}

#[test]
fn test_filter_incompatible_all_dropped() {
    // Hint [5] has one pattern, all Filled; a known Empty cell rejects it.
    let patterns = generate_patterns(5, &vec![5]);
    let known = vec![
        CellState::Unknown,
        CellState::Unknown,
        CellState::Empty,
        CellState::Unknown,
        CellState::Unknown,
    ];
    let filtered = filter_patterns(&patterns, &known);
    assert_eq!(filtered.len(), 0);
}
