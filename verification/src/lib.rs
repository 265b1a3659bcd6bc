//! In-memory model of a personal-site content tree, kept in sync with a
//! directory structure on disk.
//!
//! The core is the reconciler: it merges a previous entry collection with a
//! fresh one-level directory scan, preserving in-memory edits of entries whose
//! backing path survives, dropping entries whose path vanished, and assigning
//! dense scan-order identity to the result. Around it stand the session-cache
//! codec (a binary record of the whole application state), the metadata
//! document codec, and the export planner that turns the model into the file
//! writes a save pass must perform. All file and directory access happens
//! outside this crate; every function here works on plain values.

pub mod cache;
pub mod entries;
pub mod export;
pub mod meta_doc;
pub mod reconcile;
pub mod site;
pub mod text;
