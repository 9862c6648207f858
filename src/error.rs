use vstd::prelude::*;

verus! {

/// The ways in which building a specification or an aggregation can fail.
#[derive(Debug, Clone, Copy, PartialEq, Eq, Structural)]
pub enum HtsError {
    /// The hierarchy and group columns overlap, or both are empty.
    InvalidSpecification,
    /// A hierarchy, group, time or value column is absent from the table.
    MissingColumn,
    /// A column holds data of the wrong kind: keys must be text, the time and
    /// value columns integers.
    UnsupportedColumnType,
    /// A value of a lower hierarchy column occurs under two different values of
    /// the column directly above it.
    InconsistentNesting,
    /// The same bottom key and period occur on two rows.
    DuplicateObservation,
    /// Some bottom series has no observation in some period, and the
    /// aggregation was asked to fail on such gaps.
    IncompleteSeries,
}

} // verus!
