//! The three-valued cell state, the grid container, and the result types.

use vstd::prelude::*;

verus! {

/// One cell of the grid.  `Unknown` is the only state that may still change
/// during a solve; `Filled` and `Empty` are terminal.
#[derive(Clone, Copy, PartialEq, Eq, Debug, Structural)]
pub enum CellState {
    Unknown,
    Filled,
    Empty,
}

/// A rectangular grid: `height` rows of `width` cells each.
pub type Grid = Vec<Vec<CellState>>;

/// Outcome of a whole-puzzle solve.
#[derive(Clone, Debug)]
pub enum SolveResult {
    UniqueSolution { grid: Vec<Vec<u8>> },
    MultipleSolutions,
    NoSolution,
    Timeout { elapsed_seconds: u64 },
}

/// Outcome of a static hint-set validation: `valid` holds exactly when
/// `errors` is empty.
#[derive(Clone, Debug)]
pub struct ValidationResult {
    pub valid: bool,
    pub errors: Vec<String>,
}

/// The mathematical value of a grid: a sequence of rows, each a sequence of
/// cells.
pub open spec fn grid_view(g: Grid) -> Seq<Seq<CellState>> {
    g@.map_values(|row: Vec<CellState>| row@)
}

/// The grid is `h` rows by `w` columns and not jagged.
pub open spec fn is_rect(g: Seq<Seq<CellState>>, h: int, w: int) -> bool {
    g.len() == h && forall|r: int| 0 <= r < h ==> (#[trigger] g[r]).len() == w
}

/// Column `c` of the grid, read top to bottom.
pub open spec fn column_of(g: Seq<Seq<CellState>>, c: int) -> Seq<CellState> {
    Seq::new(g.len(), |r: int| g[r][c])
}

/// Number of `Unknown` cells in one line.
pub open spec fn unknowns_in_line(line: Seq<CellState>) -> nat
    decreases line.len(),
{
    if line.len() == 0 {
        0
    } else {
        unknowns_in_line(line.drop_last()) + if line.last() == CellState::Unknown {
            1nat
        } else {
            0nat
        }
    }
}

/// Number of `Unknown` cells in the whole grid.
pub open spec fn unknowns_in_grid(g: Seq<Seq<CellState>>) -> nat
    decreases g.len(),
{
    if g.len() == 0 {
        0
    } else {
        unknowns_in_grid(g.drop_last()) + unknowns_in_line(g.last())
    }
}

/// `b` refines `a`: same length, and every already-determined cell of `a`
/// is kept as it is in `b`.
pub open spec fn line_refines(a: Seq<CellState>, b: Seq<CellState>) -> bool {
    b.len() == a.len() && forall|i: int|
        0 <= i < a.len() ==> ((#[trigger] a[i]) != CellState::Unknown ==> b[i] == a[i])
}

/// `b` refines `a` cell for cell: same shape, and every already-determined
/// cell of `a` is kept as it is in `b`.
pub open spec fn grid_refines(a: Seq<Seq<CellState>>, b: Seq<Seq<CellState>>) -> bool {
    b.len() == a.len() && forall|r: int| 0 <= r < a.len() ==> line_refines(#[trigger] a[r], b[r])
}

/// No cell of the line is still `Unknown`.
pub open spec fn line_all_known(line: Seq<CellState>) -> bool {
    forall|i: int| 0 <= i < line.len() ==> (#[trigger] line[i]) != CellState::Unknown
}

/// No cell of the grid is still `Unknown`.
pub open spec fn grid_all_known(g: Seq<Seq<CellState>>) -> bool {
    forall|r: int| 0 <= r < g.len() ==> line_all_known(#[trigger] g[r])
}

pub proof fn lemma_line_refines_le(a: Seq<CellState>, b: Seq<CellState>)
    requires
        line_refines(a, b),
    ensures
        unknowns_in_line(b) <= unknowns_in_line(a),
    decreases a.len(),
{
    if a.len() > 0 {
        assert(line_refines(a.drop_last(), b.drop_last()));
        lemma_line_refines_le(a.drop_last(), b.drop_last());
    }
}

pub proof fn lemma_line_refines_lt(a: Seq<CellState>, b: Seq<CellState>, i: int)
    requires
        line_refines(a, b),
        0 <= i < a.len(),
        a[i] == CellState::Unknown,
        b[i] != CellState::Unknown,
    ensures
        unknowns_in_line(b) < unknowns_in_line(a),
    decreases a.len(),
{
    if i == a.len() - 1 {
        assert(line_refines(a.drop_last(), b.drop_last()));
        lemma_line_refines_le(a.drop_last(), b.drop_last());
    } else {
        assert(line_refines(a.drop_last(), b.drop_last()));
        lemma_line_refines_lt(a.drop_last(), b.drop_last(), i);
    }
}

pub proof fn lemma_grid_refines_le(a: Seq<Seq<CellState>>, b: Seq<Seq<CellState>>)
    requires
        grid_refines(a, b),
    ensures
        unknowns_in_grid(b) <= unknowns_in_grid(a),
    decreases a.len(),
{
    if a.len() > 0 {
        assert(grid_refines(a.drop_last(), b.drop_last()));
        lemma_grid_refines_le(a.drop_last(), b.drop_last());
        lemma_line_refines_le(a.last(), b.last());
    }
}

pub proof fn lemma_grid_refines_lt(a: Seq<Seq<CellState>>, b: Seq<Seq<CellState>>, r: int, i: int)
    requires
        grid_refines(a, b),
        0 <= r < a.len(),
        0 <= i < a[r].len(),
        a[r][i] == CellState::Unknown,
        b[r][i] != CellState::Unknown,
    ensures
        unknowns_in_grid(b) < unknowns_in_grid(a),
    decreases a.len(),
{
    if r == a.len() - 1 {
        assert(grid_refines(a.drop_last(), b.drop_last()));
        lemma_grid_refines_le(a.drop_last(), b.drop_last());
        lemma_line_refines_lt(a.last(), b.last(), i);
    } else {
        assert(grid_refines(a.drop_last(), b.drop_last()));
        lemma_grid_refines_lt(a.drop_last(), b.drop_last(), r, i);
        lemma_line_refines_le(a.last(), b.last());
    }
}

pub proof fn lemma_grid_refines_trans(
    a: Seq<Seq<CellState>>,
    b: Seq<Seq<CellState>>,
    c: Seq<Seq<CellState>>,
)
    requires
        grid_refines(a, b),
        grid_refines(b, c),
    ensures
        grid_refines(a, c),
{
    assert forall|r: int| 0 <= r < a.len() implies line_refines(#[trigger] a[r], c[r]) by {
        assert(line_refines(a[r], b[r]));
        assert(line_refines(b[r], c[r]));
    }
}

pub proof fn lemma_line_known_iff_no_unknowns(line: Seq<CellState>)
    ensures
        line_all_known(line) <==> unknowns_in_line(line) == 0,
    decreases line.len(),
{
    if line.len() > 0 {
        lemma_line_known_iff_no_unknowns(line.drop_last());
        assert(line_all_known(line) ==> line_all_known(line.drop_last()));
        if line_all_known(line.drop_last()) && line.last() != CellState::Unknown {
            assert forall|i: int| 0 <= i < line.len() implies (#[trigger] line[i])
                != CellState::Unknown by {
                if i < line.len() - 1 {
                    assert(line.drop_last()[i] != CellState::Unknown);
                }
            }
        }
    }
}

pub proof fn lemma_grid_known_iff_no_unknowns(g: Seq<Seq<CellState>>)
    ensures
        grid_all_known(g) <==> unknowns_in_grid(g) == 0,
    decreases g.len(),
{
    if g.len() > 0 {
        lemma_grid_known_iff_no_unknowns(g.drop_last());
        lemma_line_known_iff_no_unknowns(g.last());
        assert(grid_all_known(g) ==> grid_all_known(g.drop_last()) && line_all_known(g.last()));
        if grid_all_known(g.drop_last()) && line_all_known(g.last()) {
            assert forall|r: int| 0 <= r < g.len() implies line_all_known(#[trigger] g[r]) by {
                if r < g.len() - 1 {
                    assert(line_all_known(g.drop_last()[r]));
                }
            }
        }
    }
}

} // verus!
