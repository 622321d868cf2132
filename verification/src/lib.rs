pub mod attrs;
pub mod errors;
pub mod laws;
pub mod ranks;
pub mod round_trip;
pub mod to_matrix;
pub mod to_tall;
pub mod types;
pub mod values;

use vstd::prelude::*;

verus! {

/// A tall (normalized) precedence rule: one row per `(rank, attr_id)` pair.
///
/// Invariant of a valid rule set: the pair `(rank, attr_id)` is unique across
/// the set, `rank >= 1`, and `match_type` is 0 or 1.
#[derive(Debug, Clone, PartialEq, Eq, Structural)]
pub struct ConfigPrecedenceRule {
    pub config_version_id: i32,
    pub rank: i32,
    pub attr_id: i32,
    pub match_type: u8,
}

} // verus!
