use vstd::prelude::*;

verus! {

/// The failure taxonomy of the library. Every operation returns one of
/// these as a typed value; nothing is retried or substituted silently.
#[derive(Debug)]
pub enum ExplorerError {
    /// A referenced column name is absent from the table.
    ColumnNotFound(String),
    /// Two columns of a freshly built table carry the same name.
    DuplicateColumnName(String),
    /// The columns of a freshly built table differ in length.
    LengthMismatch,
    /// An index series for row selection holds a value that is not a
    /// non-negative integer within bounds: the dedicated validation
    /// failure of row selection by series.
    InvalidIndices,
    /// A row position points past the end of the rows it selects from.
    IndexOutOfBounds,
    /// A row mask holds a value that is not a boolean.
    NotABooleanMask,
    /// Per-group results cannot be combined: their schemas differ.
    SchemaMismatch,
    /// More rows were requested than exist, without replacement.
    SampleTooLarge,
    /// A distribution parameter lies outside its valid domain.
    InvalidParameters,
    /// A pivot key of this type cannot be rendered as a column name.
    UnsupportedPivotKey,
}

} // verus!
