//! Skill Shelf: a local skill repository with group routing, keyword search
//! and a single background daemon shared by every MCP client.
//!
//! This crate holds the verified core: text normalisation and ranking,
//! frontmatter handling, the in-memory registry index, governance
//! decisions, the daemon's lifecycle watchers and its planning helpers.

pub mod catalog;
pub mod config;
pub mod daemon;
pub mod governance;
pub mod install;
pub mod ipc;
pub mod lifecycle;
pub mod lock;
pub mod mcp_shim;
pub mod model;
pub mod parser;
pub mod persist;
pub mod registry;
pub mod search;
pub mod text;
pub mod workspace;
