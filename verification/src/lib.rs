//! Verified core of a tool that fetches spreadsheets as CSV, checks each row
//! against a small field DSL and tracks which records changed between runs.

pub mod text;
pub mod strmap;
pub mod error;
pub mod dsl;
pub mod value;
pub mod pipeline;
pub mod table;
pub mod export;
pub mod config;
pub mod media;
pub mod cli;
