//! The persisted puzzle document: dimensions, hint sets, and optional
//! descriptive metadata.  Reading and writing files is a caller's concern;
//! the library only carries the values.

use vstd::prelude::*;

verus! {

/// Optional descriptive information attached to a puzzle.
#[derive(Debug, Clone)]
pub struct PuzzleMetadata {
    pub title: Option<String>,
    pub author: Option<String>,
    pub difficulty: Option<String>,
    pub created_at: Option<String>,
}

/// A stored puzzle: format version, dimensions, hints, and metadata.
#[derive(Debug, Clone)]
pub struct PuzzleData {
    pub version: String,
    pub width: usize,
    pub height: usize,
    pub row_hints: Vec<Vec<u32>>,
    pub col_hints: Vec<Vec<u32>>,
    pub metadata: Option<PuzzleMetadata>,
}

} // verus!
