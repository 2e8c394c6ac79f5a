use vstd::prelude::*;

verus! {

/// Faults that mean the input maze was never well formed.
#[derive(Clone, Copy, Debug, PartialEq, Eq, Structural)]
pub enum MazeError {
    /// No cell holds the start symbol `S`.
    NoStart,
    /// No cell holds the goal symbol `G`.
    NoGoal,
    /// A cell holds a symbol outside `S`, `G`, `.` and `#`.
    UnknownSymbol(char),
    /// The row at this index is not as long as the first row.
    RaggedRow(usize),
}

} // verus!
