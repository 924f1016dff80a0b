//! Shapley values of cooperative games, computed exactly from a partially
//! or fully specified table of coalition worths.

pub mod coalition;
pub mod efficiency;
pub mod shapley;
pub mod sums;
