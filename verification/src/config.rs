//! Engine configuration.

use vstd::prelude::*;

verus! {

/// The fixed-point value that stands for a similarity of exactly one.
pub const SCORE_ONE: u64 = 100_000;

/// How the similarity of two users is measured.
#[derive(Clone, Copy, Debug, PartialEq, Eq, Structural)]
pub enum Metric {
    /// Cosine of the angle between the two weight vectors: the dot product
    /// over the items both users have, divided by the norms of the two
    /// full vectors.
    Cosine,
    /// Shared items divided by items of either user; weights are ignored.
    Jaccard,
}

/// What a repeated (user, item) interaction does to the stored weight.
#[derive(Clone, Copy, Debug, PartialEq, Eq, Structural)]
pub enum DuplicatePolicy {
    /// The most recent weight replaces the stored one.
    Overwrite,
    /// The new weight is added to the stored one; the sum stops at the
    /// largest weight.
    Accumulate,
}

/// The tunable parameters of a model.
#[derive(Clone, Copy, Debug, PartialEq, Eq, Structural)]
pub struct Config {
    /// Largest number of neighbours kept per user.
    pub k: usize,
    /// Smallest similarity, in units of `1 / SCORE_ONE`, a neighbour may have.
    pub min_similarity: u64,
    /// The similarity measure.
    pub metric: Metric,
    /// The treatment of repeated interactions.
    pub duplicate_policy: DuplicatePolicy,
}

impl Config {
    /// A configuration with the given neighbourhood size and the customary
    /// remaining settings: no similarity floor, cosine, overwrite.
    pub fn with_k(k: usize) -> (c: Config)
        ensures
            c == (Config {
                k,
                min_similarity: 0,
                metric: Metric::Cosine,
                duplicate_policy: DuplicatePolicy::Overwrite,
            }),
    {
        Config {
            k,
            min_similarity: 0,
            metric: Metric::Cosine,
            duplicate_policy: DuplicatePolicy::Overwrite,
        }
    }
}

impl Default for Config {
    fn default() -> (c: Config)
        ensures
            c == (Config {
                k: 20,
                min_similarity: 0,
                metric: Metric::Cosine,
                duplicate_policy: DuplicatePolicy::Overwrite,
            }),
    {
        Config::with_k(20)
    }
}

} // verus!
