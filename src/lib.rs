//! Online log-template mining: a bounded-depth prefix tree over token
//! sequences, a similarity matcher, and a recency-bounded cluster store.

pub mod clean;
pub mod cluster;
pub mod drain;
pub mod laws;
pub mod matcher;
pub mod store;
pub mod text;
pub mod tree;
pub mod ui;
