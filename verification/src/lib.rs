//! The data model and the reconciliation logic of a study-material organiser:
//! subjects are folders under a home directory, entries are the files inside
//! them, and a small SQLite catalogue remembers both between runs.

pub mod ids;
pub mod paths;
pub mod model;
pub mod scan;
pub mod data_handler;
pub mod config;
pub mod state;
pub mod library;
pub mod laws;
