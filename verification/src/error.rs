//! Errors of the scan-configuration layer: planning errors raised while
//! regrouping files by statistics, and data errors raised while
//! materializing partition columns into a batch.

use vstd::prelude::*;

verus! {

/// What went wrong in a planning or batch-materialization step.
///
/// Strings inside variants name the offending column, so a caller can report
/// the responsible stage and column.
#[derive(Debug, PartialEq, Eq)]
pub enum ScanError {
    /// A sort key addresses a column position outside the table schema.
    UnknownSortColumn { index: usize },
    /// A sort key addresses a nullable column, which admits no total order.
    NullableSortColumn { column: String },
    /// A file carries no usable min/max bounds for a required sort column.
    MissingStatistics { column: String },
    /// A decoded batch brought a different number of columns than the
    /// projected schema expects once partition columns are set aside.
    UnexpectedBatchColumns { expected: usize, actual: usize },
    /// Fewer partition values were supplied than the projector needs.
    MissingPartitionValue { index: usize },
}

impl Clone for ScanError {
    fn clone(&self) -> (res: Self)
        ensures
            res == *self,
    {
        match self {
            ScanError::UnknownSortColumn { index } => ScanError::UnknownSortColumn {
                index: *index,
            },
            ScanError::NullableSortColumn { column } => ScanError::NullableSortColumn {
                column: column.clone(),
            },
            ScanError::MissingStatistics { column } => ScanError::MissingStatistics {
                column: column.clone(),
            },
            ScanError::UnexpectedBatchColumns { expected, actual } => {
                ScanError::UnexpectedBatchColumns { expected: *expected, actual: *actual }
            },
            ScanError::MissingPartitionValue { index } => ScanError::MissingPartitionValue {
                index: *index,
            },
        }
    }
}

} // verus!
