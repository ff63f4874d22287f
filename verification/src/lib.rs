//! The decisions of a blob-storage coordinator.
//!
//! A coordinator answers an S3-flavoured HTTP interface, keeps the
//! authoritative key-to-placement index and redirects clients to the volume
//! servers that hold an object's bytes. This crate holds what the coordinator
//! decides and computes: where a key is placed, how an index row is laid out,
//! when a replicated write is committed or rolled back, how a request is
//! routed and how a listing is paged. Everything that touches a socket, a disk
//! or a clock stays with the caller.

pub mod bytes;
pub mod encoding;
pub mod trusted;
pub mod record;
pub mod placement;
pub mod http;
pub mod config;
pub mod volume;
pub mod replication;
pub mod router;
pub mod listing;
pub mod multipart;
pub mod object;
pub mod laws;
