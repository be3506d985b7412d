//! A Btrfs driver: what the bytes on disk mean, how a file is reached through
//! them, and what has to be written, in which order, to change them.
//!
//! The library reads through a function it is given and never touches a
//! device itself. What it would write it returns, as a list of
//! [`device_write::Action`]s to be performed in order.
//!
//! # Byte order
//!
//! Btrfs is **little-endian on disk** on every host, checksums included.
//!
//! # Reading order
//!
//! Btrfs addresses everything (tree roots, node children, file extents) in a
//! single flat logical address space, and the table that translates it lives
//! inside the filesystem it describes. Mounting therefore runs in a fixed
//! order:
//!
//! 1. Read the superblock from a fixed physical offset
//!    ([`superblock::SUPER_OFFSETS`]) and verify its checksum.
//! 2. Build the bootstrap address map from the superblock's embedded
//!    `sys_chunk_array` ([`chunk::ChunkMap::bootstrap`]).
//! 3. Use that map to reach the chunk tree, and extend the map with every
//!    chunk item it holds.
//! 4. Only then is `root`, and through it the rest of the volume, readable.
//!
//! # Contracts
//!
//! A contract speaks of the *image*: the bytes a faithful device holds. Where
//! the reader answers as an image says, every operation's result, errors and
//! their wording among it, is the one a specification function computes from
//! that image. Where the reader is not faithful, no operation panics, what a
//! tree is read from has still been verified block by block
//! ([`btree::block_read`]), and what the checksum tree names has still been
//! compared ([`fs::sums`]).
//!
//! # Modules
//!
//! - reading: [`superblock`], [`chunk`], [`btree`], [`inode`], [`dir`],
//!   [`xattr`], [`compression`], [`zstd`], [`csum`], [`subvol`], and [`fs`]
//!   over all of them
//! - space: [`block_group`], [`extent_write`]
//! - writing: [`tree_write`], [`leaf_edit`], [`super_write`],
//!   [`transaction`], [`commit`], [`write`](mod@write), [`device_write`]
//! - support: [`error`], [`text`], [`bytes`], [`hashes`], [`strings`],
//!   [`item_map`], [`address_set`], [`device`], [`volume`], [`block_input`]
//! - [`capi`]: the values a C caller is handed

pub mod address_set;
pub mod block_group;
pub mod block_input;
pub mod btree;
pub mod bytes;
pub mod capi;
pub mod chunk;
pub mod commit;
pub mod compression;
pub mod csum;
pub mod device;
pub mod device_write;
pub mod dir;
pub mod error;
pub mod extent_write;
pub mod fs;
pub mod hashes;
pub mod inode;
pub mod item_map;
pub mod leaf_edit;
pub mod strings;
pub mod subvol;
pub mod super_write;
pub mod superblock;
pub mod text;
pub mod transaction;
pub mod tree_write;
pub mod volume;
pub mod write;
pub mod xattr;
pub mod zstd;

pub use chunk::{Chunk, ChunkMap, ChunkProfile, Mapping};
pub use error::{Error, Result};
pub use fs::Filesystem;
pub use superblock::{ChecksumType, Superblock};
pub use xattr::XattrEntry;
