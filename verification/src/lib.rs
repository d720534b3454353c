//! An incremental, configuration-driven synchronization engine.
//!
//! The library walks a snapshot of a local source tree, diffs it against a
//! previously recorded state, and produces an ordered reconciliation plan
//! (delete files, delete directories, create directories, upload files) that
//! a thin driver executes through user-configured external commands.

pub mod bytestr;
pub mod bytemap;
pub mod state;
pub mod filter;
pub mod diff;
pub mod plan;
pub mod laws;
pub mod vars;
pub mod pipeline;
pub mod hash_cache;
pub mod app;
