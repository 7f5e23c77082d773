//! A collaborative-filtering recommendation engine over sparse
//! user-item interaction data.
//!
//! The engine builds a sparse interaction matrix, computes bounded
//! top-K neighbor lists between rows (users) or columns (items) under a
//! fixed-point similarity metric, answers recommendation and score
//! prediction queries, applies incremental interaction batches, and
//! persists trained state as a self-describing byte layout.
//!
//! All weights and scores are unsigned integers: interaction weights
//! are 16-bit counts, and similarity scores are fixed-point values with
//! scale `SCALE` (so `SCALE` stands for a similarity of exactly 1).

use vstd::prelude::*;

pub mod sparse;
pub mod engine;
pub mod model;
pub mod incremental;
pub mod serial;
pub mod laws;

verus! {

/// Fixed-point scale for similarity scores: a score of `SCALE` means 1.0.
pub const SCALE: u64 = 1_000_000;

/// The kinds of failure the engine reports.
///
/// A known entity with no qualifying data is *not* an error: queries on
/// such an entity return an empty result, which callers can tell apart
/// from `UnknownEntity` (an id that was never seen by fit or update).
#[derive(Clone, Copy, Debug, PartialEq, Eq, Structural)]
pub enum RecError {
    /// An id not present in the id-to-index mapping.
    UnknownEntity,
    /// An unsupported metric, merge policy or axis code, a zero
    /// neighbor cap or worker count, a zero interaction weight, or an
    /// index-space overflow.
    InvalidConfiguration,
    /// A serialized payload that fails version or structural validation.
    FormatError,
}

/// Which axis neighbor lists are computed over.
#[derive(Clone, Copy, Debug, PartialEq, Eq, Structural)]
pub enum Axis {
    /// Neighbors are users: similarity between matrix rows.
    User,
    /// Neighbors are items: similarity between matrix columns.
    Item,
}

/// The similarity metric used between two sparse vectors.
#[derive(Clone, Copy, Debug, PartialEq, Eq, Structural)]
pub enum Metric {
    /// Dot product over weights divided by the product of the L2
    /// norms, in fixed point: each norm is taken at `SCALE` precision
    /// (floored), so scores track real cosine to within a few parts in
    /// `SCALE` and are clamped at `SCALE`.
    Cosine,
    /// Intersection size over union size of the nonzero index sets,
    /// ignoring weights, in fixed point.
    Jaccard,
}

/// How a new weight combines with an existing one for the same
/// (user, item) pair.
#[derive(Clone, Copy, Debug, PartialEq, Eq, Structural)]
pub enum MergePolicy {
    /// Replace the prior weight.
    Overwrite,
    /// Add the weights, saturating at the weight type's maximum.
    Sum,
    /// Keep the larger weight.
    Max,
}

/// Numeric code of an axis, as used in the serialized layout.
pub open spec fn axis_code(a: Axis) -> u64 {
    match a {
        Axis::User => 0,
        Axis::Item => 1,
    }
}

/// Numeric code of a metric, as used in the serialized layout.
pub open spec fn metric_code(m: Metric) -> u64 {
    match m {
        Metric::Cosine => 0,
        Metric::Jaccard => 1,
    }
}

/// Numeric code of a merge policy, as used in the serialized layout.
pub open spec fn policy_code(p: MergePolicy) -> u64 {
    match p {
        MergePolicy::Overwrite => 0,
        MergePolicy::Sum => 1,
        MergePolicy::Max => 2,
    }
}

/// Axis for a numeric code; codes outside the supported set are rejected.
pub fn axis_from_code(c: u64) -> (r: Result<Axis, RecError>)
    ensures
        c == 0 ==> r == Result::<Axis, RecError>::Ok(Axis::User),
        c == 1 ==> r == Result::<Axis, RecError>::Ok(Axis::Item),
        c > 1 ==> r == Result::<Axis, RecError>::Err(RecError::InvalidConfiguration),
{
    if c == 0 {
        Ok(Axis::User)
    } else if c == 1 {
        Ok(Axis::Item)
    } else {
        Err(RecError::InvalidConfiguration)
    }
}

/// Metric for a numeric code; codes outside the supported set are rejected.
pub fn metric_from_code(c: u64) -> (r: Result<Metric, RecError>)
    ensures
        c == 0 ==> r == Result::<Metric, RecError>::Ok(Metric::Cosine),
        c == 1 ==> r == Result::<Metric, RecError>::Ok(Metric::Jaccard),
        c > 1 ==> r == Result::<Metric, RecError>::Err(RecError::InvalidConfiguration),
{
    if c == 0 {
        Ok(Metric::Cosine)
    } else if c == 1 {
        Ok(Metric::Jaccard)
    } else {
        Err(RecError::InvalidConfiguration)
    }
}

/// Merge policy for a numeric code; unknown codes are rejected.
pub fn policy_from_code(c: u64) -> (r: Result<MergePolicy, RecError>)
    ensures
        c == 0 ==> r == Result::<MergePolicy, RecError>::Ok(MergePolicy::Overwrite),
        c == 1 ==> r == Result::<MergePolicy, RecError>::Ok(MergePolicy::Sum),
        c == 2 ==> r == Result::<MergePolicy, RecError>::Ok(MergePolicy::Max),
        c > 2 ==> r == Result::<MergePolicy, RecError>::Err(RecError::InvalidConfiguration),
{
    if c == 0 {
        Ok(MergePolicy::Overwrite)
    } else if c == 1 {
        Ok(MergePolicy::Sum)
    } else if c == 2 {
        Ok(MergePolicy::Max)
    } else {
        Err(RecError::InvalidConfiguration)
    }
}

/// A version string identifying the engine's build.
pub fn engine_version() -> &'static str {
    "1.0.0"
}

} // verus!
