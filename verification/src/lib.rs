//! TACHIOM: late-interaction multivector retrieval over an inverted file of coarse centroids.
//!
//! A collection is a list of documents, each a sequence of token vectors. The index groups the
//! tokens under coarse centroids and lists for every centroid the documents that it touches. A
//! search probes some centroids per query token, collects the documents they list, and reranks
//! the most promising ones with full scores.
//!
//! What is here decides, orders, groups, draws and lays out; every item is verified. Arithmetic
//! on vectors and scores, the proximity graph, k-means and quantisation belong to the caller,
//! who hands in their results as plain values: vectors as half-precision bit patterns, scores as
//! single-precision ones.
//!
//! * Building: [`npy`], [`dataset`], [`auto`], [`tac`], [`pgc`], [`sample`], [`encode`],
//!   [`assembly`], [`tachiom`].
//! * Searching: [`query`], [`search`], [`coarse`], [`candidates`], [`rerank`].
//! * Shared: [`score`], [`order`], [`rows`], [`groups`], [`text`].
//! * Measuring: [`profile`], [`stage_shim`].

pub mod assembly;
pub mod auto;
pub mod candidates;
pub mod coarse;
pub mod dataset;
pub mod encode;
mod fx;
pub mod groups;
pub mod npy;
pub mod order;
pub mod pgc;
pub mod profile;
pub mod query;
mod random;
pub mod rerank;
pub mod rows;
pub mod sample;
pub mod score;
pub mod search;
pub mod stage_shim;
pub mod tac;
pub mod tachiom;
pub mod text;
