//! Core of a local prompt-library server.
//!
//! The crate discovers named libraries of parametrized text templates,
//! keeps a concurrently readable metadata cache with on-demand content
//! loading, validates caller-supplied arguments, and expands templates.
//! All file and transport plumbing lives outside this crate; every
//! function here works on plain values and carries a verified contract.

pub mod config;
pub mod library;
pub mod parser;
pub mod prompt;
pub mod registry;
pub mod renderer;
pub mod service;
pub mod text;
pub mod types;
pub mod value;
