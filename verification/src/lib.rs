//! Verified core of the Gera notes / tasks / events vault.

pub mod chars;
pub mod event_file;
pub mod events;
pub mod gcal;
pub mod index;
pub mod json;
pub mod laws;
pub mod models;
pub mod numbers;
pub mod outcomes;
pub mod paths;
pub mod queries;
pub mod renderer;
pub mod repository;
pub mod storage;
pub mod tasks;
pub mod text;
pub mod time;
pub mod watcher;
pub mod yaml;
