//! Verified core of a clipboard history manager.

pub mod capture_laws;
pub mod clock;
pub mod commands;
pub mod config;
pub mod copy_laws;
pub mod db;
pub mod digits;
pub mod exchange;
pub mod folders;
pub mod format_laws;
pub mod fts;
pub mod history_laws;
pub mod laws;
pub mod migrate;
pub mod models;
pub mod monitor;
pub mod move_laws;
pub mod outside;
pub mod path_laws;
pub mod patterns;
pub mod picture;
pub mod records;
pub mod search_laws;
pub mod store;
pub mod sweep;
pub mod table;
pub mod text;
pub mod upkeep;
pub mod upkeep_laws;
pub mod winpath;
