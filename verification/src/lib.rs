//! The vault model behind a local-first markdown knowledge base: frontmatter,
//! wikilinks, backlinks, tags and search over a folder of notes, and the
//! decisions of the desktop app and the agent server built on it.

pub mod text;
pub mod sorting;
pub mod numbers;
pub mod paths;
pub mod yaml;
pub mod frontmatter;
pub mod fences;
pub mod links;
pub mod note;
pub mod index;
pub mod search;
pub mod graph;
pub mod error;
pub mod vault;
pub mod edit;
pub mod tools;
pub mod workspace;
pub mod cli;
pub mod app_state;
pub mod git_sync;
pub mod menu;
