use vstd::prelude::*;

verus! {

/// Failures of the textual block profile format.
#[derive(Debug, Clone, PartialEq, Eq)]
pub enum GoCoverageError {
    /// The first line is not `mode: <name>` ended by a newline.
    InvalidMode,
    /// The first line names a mode other than `set`, `count` or `atomic`.
    InvalidModeName(String),
    /// A block line that does not follow the block grammar (without its
    /// trailing whitespace).
    InvalidLine(String),
    /// Two blocks with one identity but different statement counts.
    InconsistentNumStmt { from: u32, to: u32 },
}

/// The value of a [`GoCoverageError`], with strings as character sequences.
pub enum GoErrorModel {
    InvalidMode,
    InvalidModeName(Seq<char>),
    InvalidLine(Seq<char>),
    InconsistentNumStmt { from: u32, to: u32 },
}

impl View for GoCoverageError {
    type V = GoErrorModel;

    open spec fn view(&self) -> GoErrorModel {
        match self {
            GoCoverageError::InvalidMode => GoErrorModel::InvalidMode,
            GoCoverageError::InvalidModeName(s) => GoErrorModel::InvalidModeName(s@),
            GoCoverageError::InvalidLine(s) => GoErrorModel::InvalidLine(s@),
            GoCoverageError::InconsistentNumStmt { from, to } => GoErrorModel::InconsistentNumStmt {
                from: *from,
                to: *to,
            },
        }
    }
}

} // verus!
