use vstd::prelude::*;

verus! {

/// Failures of the precedence normalizer: matrix/tall conversion and the
/// triangular completeness check. Each variant carries the offending values
/// so a caller can build a precise diagnostic.
#[derive(Debug, Clone, Copy, PartialEq, Eq, Structural)]
pub enum PrecedenceError {
    /// A rank below 1 was encountered, in either conversion direction.
    InvalidRank { rank: i32 },
    /// A match-type flag outside {0, 1} was encountered for the given
    /// attribute at the given rank.
    InvalidMatchType { rank: i32, attr_id: i32, match_type: u8 },
    /// The same `(rank, attribute)` pair appeared a second time within one
    /// conversion call.
    DuplicateKey { rank: i32, attr_id: i32 },
    /// A conversion would have produced zero rows.
    EmptyResult,
    /// The completeness check was handed zero rows.
    EmptyInput,
    /// The completeness check found a distinct-rank count different from the
    /// triangular number expected for the attribute count.
    WrongRankCount { found: usize, expected: usize },
    /// The distinct ranks are not contiguous from 1: the first offending rank
    /// is reported together with the value expected in its place.
    RankGap { found: i32, expected: i32 },
}

/// Failures of the typed value parser. Each variant carries the parameter key
/// it concerns.
#[derive(Debug, Clone, PartialEq, Eq)]
pub enum ValueError {
    /// The parameter key is absent from the attribute schema lookup.
    UnknownAttribute { key: String },
    /// The attribute exists but its role is not "param".
    WrongRole { key: String, role: String },
    /// The raw string does not parse under the declared data type's grammar.
    TypeParseError { key: String, data_type: String, value: String },
    /// The declared data type is outside the closed set
    /// {int, dec, str, bool, dt}.
    UnsupportedDataType { key: String, data_type: String },
}

} // verus!
