//! A verified core for a distributed block-based file store.
//!
//! A single coordinator (the name service) owns the file-system namespace and
//! tracks which storage servers hold which fixed-size content blocks; clients
//! stream block payloads directly to and from the storage servers under the
//! coordinator's direction.  This crate holds the coordination logic itself:
//! the namespace tree, the block-to-replica registry, the in-flight write
//! tracker, the edit log, the liveness bookkeeping, and the framed streaming
//! codec.  Network and disk plumbing live outside the crate.

pub mod block;
pub mod datanode_info;
pub mod datanode_registry;
pub mod editlog;
pub mod outside_world;
pub mod maps;
pub mod errors;
pub mod framing;
pub mod namespace;
pub mod chunk;
pub mod config;
pub mod metadata;
pub mod paths;
pub mod pipeline;
pub mod progress;
pub mod registry;
pub mod services;
pub mod hex;
pub mod strutil;

use vstd::prelude::*;

verus! {

/// Maximum payload bytes per streamed packet.
pub const DEFAULT_PACKET_SIZE: u64 = 65536;

/// Maximum payload bytes per block.
pub const DEFAULT_BLOCK_SIZE: u64 = 67108864;

/// Replica count required before a block counts as durable.
pub const DEFAULT_REPLICATION_FACTOR: u64 = 3;

} // verus!
