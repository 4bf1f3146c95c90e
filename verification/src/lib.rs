//! Logic of `duscan`, a disk-usage scanner: configuration, scan planning, the
//! walk's decisions, the report pipeline, history, export and the TUI's state.
//!
//! Everything here is pure: reading and writing files, databases and terminals
//! is done by the program around the library.

pub mod arrival;
pub mod cli;
pub mod config;
pub mod db;
pub mod detail;
pub mod display;
pub mod events;
pub mod exporter;
pub mod history;
pub mod holdings;
pub mod ingest;
pub mod interner;
pub mod listing;
pub mod monitor;
pub mod mounts;
pub mod orchestrator;
pub mod order;
pub mod path_tree;
pub mod paths;
pub mod permissions;
pub mod pyo3;
pub mod report;
pub mod scan_view;
pub mod scheduler;
pub mod schema;
pub mod scope;
pub mod screen;
pub mod screen_rows;
pub mod snapshots;
pub mod spill;
pub mod stored;
pub mod tables;
pub mod tally;
pub mod text;
pub mod tracking;
pub mod tree_sums;
pub mod treemap;
pub mod tui;
pub mod tui_nav;
pub mod users;
pub mod walk;
pub mod worker;
