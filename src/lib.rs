//! Tracks references from Markdown documentation to source-code declarations
//! and decides whether each one is fresh, stale or broken.

mod text;
pub mod commands;
pub mod config;
pub mod diagnostics;
pub mod error;
pub mod freshness;
pub mod hasher;
pub mod lockfile;
pub mod resolver;
pub mod scanner;
pub mod syntax;
pub mod types;
