//! Core engine of a blob-storage service: capability tokens, access
//! records, the chunked-upload assembly protocol, a virtual-directory
//! resolver over flat keys, and the metadata/blob consistency rules
//! around them.  All state-changing logic works over explicit in-memory
//! models of the metadata table, the blob area and the upload staging
//! area; the surrounding process wires those to a database and a disk.

pub mod access;
pub mod error;
pub mod hashing;
pub mod meta;
pub mod models;
pub mod random;
pub mod resolve;
pub mod service;
pub mod storage;
pub mod token;
