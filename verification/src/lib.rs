//! Verified core of a utility that keeps local Codex CLI sessions usable after
//! switching API providers: reading session logs, summarising configuration,
//! diagnosing resume risks and rewriting provider metadata.
pub mod text;
pub mod json;
pub mod redact;
pub mod session;
pub mod catalog;
pub mod config;
pub mod sync;
pub mod render;
pub mod ui;
