//! Version control by transactions: atomic edits that depend only on the
//! versions they replace, the views that sets of them amount to, and the
//! content that they refer to.
//!
//! The library decides; programs around it read and write files, databases
//! and the network.

pub mod text;
pub mod collections;
pub mod encoding;
pub mod error;
pub mod paths;
pub mod portable;
pub mod json;
pub mod objects;
pub mod transactions;
pub mod views;
pub mod graphs;
pub mod laws;
pub mod delta;
pub mod codec;
pub mod transfer;
pub mod storage;
pub mod packing;
pub mod catalog;
pub mod content;
pub mod selection;
pub mod index;
pub mod merge;
pub mod workspace;
pub mod history;
pub mod checkout;
pub mod recovery;
pub mod pins;
pub mod git;
pub mod remote;
pub mod sync;
pub mod publication;
pub mod replication;
pub mod server;
pub mod commands;
pub mod guarantees;

pub use error::{Error, Problem};
pub use objects::{
    object_id, validate_hash, validate_name, validate_path, ApiError, ChangeInfo, EntryKind, FileEntry, ProjectInfo,
    Publication, PublicationReceipt, Revision, Snapshot, MAX_BLOB_BYTES, MAX_METADATA_BYTES, OBJECT_FORMAT, PROTOCOL,
};
