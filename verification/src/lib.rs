//! A user-based collaborative-filtering engine.
//!
//! The engine keeps a sparse user-item interaction matrix in both
//! orientations, derives for every user a bounded list of the most similar
//! other users, and predicts and ranks items from those lists. New
//! interactions can be absorbed into a fitted model; only the lists they can
//! affect are recomputed.
//!
//! All quantities are integers. A weight is a whole number from zero to
//! [`sparse::MAX_WEIGHT`]; the caller chooses what one unit means. A
//! similarity is a whole number of units of `1 / SCORE_ONE`, rounded down,
//! from zero to [`config::SCORE_ONE`]. A predicted weight is in the unit of
//! the weights, rounded down. Users and items are given by 64-bit
//! identifiers and are numbered internally in order of first appearance;
//! ties between equal scores go to the lower internal index.
//!
//! Modules, leaf first: [`sparse`] (sparse vectors), [`ids`] (identifier
//! tables), [`store`] (the interaction store), [`similarity`] (cosine and
//! Jaccard), [`ranking`] and [`heap`] (best-`k` selection), [`neighbors`]
//! (neighbour lists), [`predict`] and [`recommend`] (queries),
//! [`incremental`] (batches and stale lists), [`user_cf`] (the model) and
//! [`laws`] (what holds of the engine as a whole).

pub mod config;
pub mod error;
pub mod heap;
pub mod ids;
pub mod incremental;
pub mod laws;
pub mod neighbors;
pub mod predict;
pub mod ranking;
pub mod recommend;
pub mod similarity;
pub mod sparse;
pub mod store;
pub mod user_cf;
