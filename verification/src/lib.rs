//! Commit-graph layout, diff parsing and repository-status logic of a
//! compact git commit graph viewer.
pub mod cli;
pub mod commands;
pub mod commit;
pub mod config;
pub mod diff;
pub mod lanes;
pub mod search;
pub mod status;
pub mod text;
pub mod watch;
