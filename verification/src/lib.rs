//! Deterministic fixed-length ("four-symbol") code assignment for a vocabulary
//! of words, plus frequency-weighted scoring of the resulting assignment.
//!
//! The codec derives, from a mutable element-to-key mapping, a canonical full
//! code for every word and a shorter abbreviated code under strict,
//! position-dependent collision-avoidance rules, with support for incremental
//! re-encoding when only some mapping entries changed. The scorer turns the
//! per-word codes into frequency-weighted keystroke and abbreviation tallies
//! that a search driver combines into a scalar loss.

pub mod codec;
pub mod data;
pub mod scorer;
