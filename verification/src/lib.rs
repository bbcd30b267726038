//! League standings from match results.
//!
//! A line of text is parsed into a match record (`parse`, `record`), match
//! records are folded into per-club statistics (`club_stats`, `standings`),
//! the clubs are ranked by points, goal differential and goals scored
//! (`rank`), and the ranking is written as the lines of a table (`render`).
//! `league` runs the whole computation from lines to lines.

pub mod club_stats;
pub mod record;
pub mod parse;
pub mod standings;
pub mod rank;
pub mod league;
pub mod render;
