//! A backup library: archive path encoding, file lists, backup selection,
//! configuration rules, restoring and merging plans, all verified.
pub mod text;
pub mod sort;
pub mod datetime;
pub mod errors;
pub mod files;
pub mod lists;
pub mod backup;
pub mod utils;
pub mod paginated;
pub mod compression;
pub mod paths;
pub mod config;
pub mod merge;
pub mod filters;
pub mod restore;
pub mod args;
pub mod components;
pub mod crawler;
pub mod editing;
