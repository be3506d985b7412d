//! Where a new block can go: block groups, and what is free inside them.
//!
//! Btrfs records allocation twice, from opposite directions: the **extent
//! tree** records what is *taken*, one item per allocated run, and the
//! **free-space tree** records what is *free*, the complement, maintained as a
//! cache. The extent tree is the authority.
//!
//! Under `SKINNY_METADATA` a tree block is recorded as a
//! [`key_type::METADATA_ITEM`] whose key `offset` is the block's **level**;
//! its length is `nodesize`. An [`key_type::EXTENT_ITEM`]'s `offset` really is
//! a length.

use vstd::prelude::*;

use crate::chunk::block_group as flags;

pub mod cache_laws;
pub mod key_laws;
pub mod laws;
pub mod runs;
pub mod space;

verus! {

/// One allocation region.
#[derive(Debug, Clone, Copy, PartialEq, Eq, Structural)]
pub struct BlockGroup {
    /// First byte of the region, in logical address space.
    pub start: u64,
    /// Its length in bytes.
    pub length: u64,
    /// Bytes allocated within it.
    pub used: u64,
    /// What it may hold, and how it is replicated.
    pub flags: u64,
}

impl BlockGroup {
    /// Whether the region covers `address`.
    pub open spec fn covers(self, address: u64) -> bool {
        self.start <= address < self.start + self.length
    }

    /// Bytes not allocated.
    pub open spec fn unused(self) -> u64 {
        if self.used > self.length {
            0
        } else {
            (self.length - self.used) as u64
        }
    }

    /// One past the last byte.
    pub fn end(&self) -> (end: u64)
        requires
            self.start + self.length <= u64::MAX,
        ensures
            end == self.start + self.length,
    {
        self.start + self.length
    }

    /// Whether the region covers `address`.
    pub fn contains(&self, address: u64) -> (yes: bool)
        ensures
            yes == self.covers(address),
    {
        address >= self.start && address - self.start < self.length
    }

    /// Whether this group may hold tree blocks. True for a mixed group as
    /// well: this is a test of the bit.
    pub fn holds_metadata(&self) -> (yes: bool)
        ensures
            yes == (self.flags & flags::METADATA != 0),
    {
        self.flags & flags::METADATA != 0
    }

    /// Whether the group holds file data.
    pub fn holds_data(&self) -> (yes: bool)
        ensures
            yes == (self.flags & flags::DATA != 0),
    {
        self.flags & flags::DATA != 0
    }

    /// Bytes not allocated.
    pub fn free(&self) -> (n: u64)
        ensures
            n == self.unused(),
    {
        self.length.saturating_sub(self.used)
    }
}

/// A run of free bytes.
#[derive(Debug, Clone, Copy, PartialEq, Eq, PartialOrd, Ord, Structural)]
pub struct FreeExtent {
    pub start: u64,
    pub len: u64,
}

impl FreeExtent {
    /// One past the last byte.
    pub fn end(&self) -> (end: u64)
        requires
            self.start + self.len <= u64::MAX,
        ensures
            end == self.start + self.len,
    {
        self.start + self.len
    }
}

} // verus!
