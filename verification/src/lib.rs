//! recall: find the aliases and functions of shell configuration files,
//! merge them with a configuration of overrides and static commands, and
//! browse them by category or by fuzzy search.
//!
//! - `discovery`: parsing shell configuration text into commands.
//! - `config`: overrides, static commands, category order, sorting.
//! - `search`: fuzzy matching and scoring.
//! - `app`: the interface state and what each key press does to it.
//! - `cli`: command-line arguments and which files to scan.
//! - `clipboard`: choosing the clipboard tool.
//! - `sorting`: a stable sort stated as insertion sort, with its laws.
//! - `text`: character-level helpers (whitespace, trimming, searching, lines).

pub mod app;
pub mod cli;
pub mod clipboard;
pub mod config;
pub mod discovery;
pub mod search;
pub mod sorting;
pub mod text;
