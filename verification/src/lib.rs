//! Verified core of aur-guard: feed parsing and matching, package gate
//! decisions, host-audit findings, and the paru/shell hook editors.
pub mod config;
pub mod feeds;
pub mod text;
pub mod pattern;
pub mod gate;
pub mod paru;
pub mod shell;
pub mod audit;
pub mod cli;
pub mod daemon;
