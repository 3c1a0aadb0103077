//! Verified store for named remote-mount configurations.
//!
//! The core is a lenient parser and writer for an INI-like configuration
//! text: section headers `[name]`, `key = value` lines, `#`/`;` comments,
//! and multiline PEM-style values. Around it sit schema-driven field
//! validation, schedule-text editing, and a merged registry view.

pub mod config;
pub mod config_laws;
pub mod registry;
pub mod schedule;
pub mod schema;
pub mod text;
