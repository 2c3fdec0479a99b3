//! The errors the library reports.
use vstd::prelude::*;
use crate::key::Key;

verus! {

/// Everything that can go wrong while preparing a panel or planning a computation.
#[derive(Debug)]
#[allow(inconsistent_fields)]
pub enum QFactorsError {
    MissingColumn(String),
    DTypeMismatch { column: String, expected: &'static str, actual: String },
    NullNotAllowed { column: String },
    DuplicateSymbolTime { symbol_col: String, time_col: String },
    SymbolNull(String),
    TimeNull(String),
    GroupNull(String),
    DuplicateGroupTime { group_col: String, time_col: String },
    SortOrder { group_col: String, time_col: String },
    InternalColumnConflict(&'static str),
    UnsupportedNullPolicy(String),
    FloatNullToNanTypeMismatch { column: String, dtype: String },
    ObservationTimeNull,
    ObservationTimeNan,
    ObservationTimesEmpty,
    DuplicateObservationTime(Key),
    MissingWindowRange(usize),
    UnknownFactor(String),
    InvalidWindow { factor_name: &'static str, window: usize },
    OutputColumnConflict(String),
    FactorOutputCount { factor_name: &'static str, expected: usize, actual: usize },
    FactorOutputLength {
        factor_name: &'static str,
        column: String,
        expected: usize,
        actual: usize,
    },
    FactorOutputName { factor_name: &'static str, expected: String, actual: String },
    DuplicateFactorName(String),
    UnsupportedOutputPath,
    ColumnLengthMismatch { column: String, expected: usize, actual: usize },
    /// A table to be stacked does not have the first table's schema.
    SchemaMismatch { frame: usize },
    NonComparableColumn { column: String },
    /// The symbol-by-time grid has more cells than an index can address.
    GridTooLarge { n_symbols: usize, n_times: usize },
}

} // verus!
