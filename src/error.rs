use vstd::prelude::*;

verus! {

/// Why a board could not be built or solved.
#[derive(Debug, Clone, Copy, PartialEq, Eq, Structural)]
pub enum SolveError {
    /// A value was committed twice to one unit, or into a cell already filled.
    Contradiction { value: u8 },
    /// The cell at (`row`, `col`) has no value left that leads to a solution.
    DeadEnd { row: usize, col: usize },
    /// The puzzle text is not 81 digits; `index` counts the digits read
    /// before the fault.
    BadInput { index: usize },
}

} // verus!
