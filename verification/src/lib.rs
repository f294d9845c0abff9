//! A catalog of model files that lie under several root directories.
//!
//! The catalog is kept in step with what a walk over the roots finds
//! (`sync`), items carry tags (`tag`), and what a registry reports of a
//! file is turned into a metadata sidecar, tags and a preview (`civitai`,
//! `thumbnail`). The library reads no file and opens no connection: callers
//! hand it what they have read and carry out what it decides.

pub mod api;
pub mod catalog;
pub mod civitai;
pub mod config;
pub mod identity;
pub mod json;
pub mod paths;
pub mod query;
pub mod seqs;
pub mod sync;
pub mod sync_entry;
pub mod sync_first;
pub mod sync_present;
pub mod sync_proofs;
pub mod sync_steps;
pub mod sync_twice;
pub mod tag;
pub mod text;
pub mod thumbnail;
