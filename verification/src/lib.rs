//! An incremental, memoized query engine.
//!
//! The engine stores mutable input cells, canonicalizes values through an
//! interner, and caches the results of derived queries together with the
//! dependencies each result was computed from, so that after an input write
//! it can decide — without recomputing — whether a cached result is still
//! valid. Cached results are bounded per query by least-recently-used
//! eviction; an evicted result is always reproducible by recomputation.

pub mod value;
pub mod interner;
pub mod memo;
pub mod step;
pub mod db;
pub mod queries;
