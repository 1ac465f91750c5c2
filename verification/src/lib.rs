//! Leaderboard engine for climbing competition rounds.
//!
//! The crate ingests raw, loosely typed result records for one round of a
//! climbing competition, converts them into per-discipline typed ascents and
//! scores (Boulder, Lead, Speed), and assigns every athlete a dense 1-based
//! rank without disturbing the caller's ordering. It also carries the text
//! repair step that strips diagnostic lines an upstream scoring service mixes
//! into its JSON payloads, and the season/event browsing model.

pub mod api;
pub mod discipline;
pub mod leaderboard;
pub mod ranking;
pub mod seasons;
