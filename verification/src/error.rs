use vstd::prelude::*;

verus! {

/// The failure conditions that the solving engine can report.
#[derive(Clone, Copy, Debug, PartialEq, Eq, Structural)]
pub enum PicrossError {
    /// A run list, a rule string or a rules file was malformed.
    ParseError,
    /// The total of the row runs differs from the total of the column runs,
    /// or a board's dimensions do not fit the puzzle or operation.
    DimensionMismatch,
    /// Two sources demand that the same cell be both filled and empty.
    Contradiction,
    /// Line propagation reached a fixed point with undetermined cells left.
    Incomplete,
    /// The backtracking search exhausted every placement without success.
    NoSolution,
    /// A cell coordinate lies outside the board.
    OutOfBounds,
    /// Runs cannot be extracted from a line with undetermined cells.
    UndeterminedLine,
}

impl PicrossError {
    /// A short human-readable description of the error.
    pub fn describe(&self) -> (r: &'static str)
        ensures
            r@.len() > 0,
    {
        let r = match self {
            PicrossError::ParseError => "failed to parse",
            PicrossError::DimensionMismatch => "sum of row rules must equal sum of column rules",
            PicrossError::Contradiction => "no valid configurations",
            PicrossError::Incomplete => "could not fully determine the board",
            PicrossError::NoSolution => "no solution",
            PicrossError::OutOfBounds => "tile position out of bounds",
            PicrossError::UndeterminedLine => "cannot process undetermined tiles",
        };
        proof {
            reveal_strlit("failed to parse");
            reveal_strlit("sum of row rules must equal sum of column rules");
            reveal_strlit("no valid configurations");
            reveal_strlit("could not fully determine the board");
            reveal_strlit("no solution");
            reveal_strlit("tile position out of bounds");
            reveal_strlit("cannot process undetermined tiles");
        }
        r
    }
}

} // verus!
