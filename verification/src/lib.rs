//! A local, single-user knowledge-graph engine: Markdown notes are parsed
//! into typed nodes and edges, held in an in-memory triple store, and
//! snapshotted together with the file tree at each commit.

pub mod clock;
pub mod crypto;
pub mod edge;
pub mod errors;
pub mod events;
pub mod frontmatter;
pub mod graph;
pub mod history;
pub mod indexer;
pub mod iri;
pub mod node;
pub mod nquads;
pub mod parser;
pub mod repository;
pub mod storage;
pub mod rollback;
pub mod store;
pub mod strength;
pub mod text;
pub mod watch_config;
pub mod vcs;
pub mod wiki_link;

