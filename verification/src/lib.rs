//! Verified core of a local cache of Python scripts: parsing script
//! metadata, building search text, tokenising queries, planning merges,
//! cleanups and command runs.

pub mod text;
pub mod models;
pub mod parser;
pub mod search;
pub mod cli;
pub mod hash;
pub mod calendar;
pub mod paths;
pub mod register;
pub mod migrate;
pub mod cleanup;
pub mod runner;
pub mod resolve;
pub mod listing;
