//! On-disk inode (`struct btrfs_inode_item`) parsing.
//!
//! Btrfs has no inode table. An inode is an *item* in a subvolume's file tree,
//! filed under the key `(ino, INODE_ITEM_KEY, 0)`, and its number is the key's
//! objectid rather than anything stored in the item.

use vstd::prelude::*;

use crate::bytes;
use crate::bytes::{le32, le64};
use crate::error::{Error, ErrorView, Result};
use crate::text;
use crate::text::cat5;
use crate::text::Part::{Dec, Lit};

pub mod layout_laws;
pub mod offsets;

verus! {

/// `BTRFS_INODE_ITEM_KEY`: the key type an inode item is filed under.
pub const INODE_ITEM_KEY: u8 = 1;

/// `BTRFS_INODE_REF_KEY`: a name-and-parent back-reference for an inode.
pub const INODE_REF_KEY: u8 = 12;

/// Size of an on-disk `struct btrfs_inode_item`.
pub const INODE_ITEM_SIZE: usize = 160;

/// Size of an on-disk `struct btrfs_timespec`: a `u64` of seconds and a `u32`
/// of nanoseconds, packed.
pub const TIMESPEC_SIZE: usize = 12;

/// `BTRFS_FIRST_FREE_OBJECTID`: the objectid of a subvolume's root directory,
/// and the lowest number an ordinary inode can have.
pub const FIRST_FREE_OBJECTID: u64 = 256;

/// `BTRFS_INODE_NODATASUM`: the file's data carries no checksums.
pub const INODE_NODATASUM: u64 = 0x1;

/// `BTRFS_INODE_NODATACOW`: the file's data is overwritten where it lies.
pub const INODE_NODATACOW: u64 = 0x2;

/// Nanoseconds in a second.
pub const NSEC_PER_SEC: u32 = 1_000_000_000;

/// Mask selecting the file-type bits of `mode` (`S_IFMT`).
pub const S_IFMT: u32 = 0xF000;

/// Mask selecting the permission and set-id bits of `mode`.
pub const S_IPERM: u32 = 0xFFF;

/// File type, decoded from the mode's format bits.
#[derive(Debug, Clone, Copy, PartialEq, Eq, Structural)]
pub enum FileType {
    /// Regular file.
    Regular,
    /// Directory.
    Directory,
    /// Symbolic link.
    Symlink,
    /// Character device.
    CharDevice,
    /// Block device.
    BlockDevice,
    /// FIFO.
    Fifo,
    /// Unix domain socket.
    Socket,
}

/// The type the `S_IFMT` bits of a mode word name.
pub open spec fn type_of_mode(mode: u32) -> Option<FileType> {
    let bits: u32 = mode & S_IFMT;
    if bits == 0x8000 {
        Some(FileType::Regular)
    } else if bits == 0x4000 {
        Some(FileType::Directory)
    } else if bits == 0xA000 {
        Some(FileType::Symlink)
    } else if bits == 0x2000 {
        Some(FileType::CharDevice)
    } else if bits == 0x6000 {
        Some(FileType::BlockDevice)
    } else if bits == 0x1000 {
        Some(FileType::Fifo)
    } else if bits == 0xC000 {
        Some(FileType::Socket)
    } else {
        None
    }
}

impl FileType {
    /// Decode a type from the `S_IFMT` bits of a mode word. `None` for a value
    /// that is not one of the seven POSIX types.
    pub fn from_mode(mode: u32) -> (r: Option<Self>)
        ensures
            r == type_of_mode(mode),
    {
        match mode & S_IFMT {
            0x8000 => Some(FileType::Regular),
            0x4000 => Some(FileType::Directory),
            0xA000 => Some(FileType::Symlink),
            0x2000 => Some(FileType::CharDevice),
            0x6000 => Some(FileType::BlockDevice),
            0x1000 => Some(FileType::Fifo),
            0xC000 => Some(FileType::Socket),
            _ => None,
        }
    }
}

/// One `struct btrfs_timespec`.
#[derive(Debug, Clone, Copy, PartialEq, Eq, Default, Structural)]
pub struct Timestamp {
    /// Seconds since the Unix epoch. Stored unsigned on disk but kept signed
    /// here: a pre-1970 timestamp appears as a very large unsigned value.
    pub sec: i64,
    /// Nanoseconds within the second, always below one second.
    pub nsec: u32,
}

/// The timestamp at position `at`.
pub open spec fn timestamp_at(b: Seq<u8>, at: int) -> Timestamp {
    Timestamp { sec: bytes::u64_at(b, at) as i64, nsec: bytes::u32_at(b, at + 8) }
}

/// The complaint about a timestamp whose nanoseconds make a second or more.
pub open spec fn timestamp_error(b: Seq<u8>, at: int, what: Seq<char>) -> Option<ErrorView> {
    let nsec: u32 = bytes::u32_at(b, at + 8);
    if nsec >= NSEC_PER_SEC {
        Some(
            ErrorView::BadSuperblock(
                "inode "@ + what + " has "@ + text::dec(nsec as nat)
                    + " nanoseconds, which is a second or more — the timestamp offsets are wrong"@,
            ),
        )
    } else {
        None
    }
}

impl Timestamp {
    /// Decode a timestamp from `buf` at `off`. An out-of-range nanosecond
    /// count means that these twelve bytes are not a timestamp at all.
    fn parse(buf: &[u8], off: usize, what: &str) -> (r: Result<Self>)
        requires
            off + TIMESPEC_SIZE <= buf@.len(),
        ensures
            crate::error::seen(r) == match timestamp_error(buf@, off as int, what@) {
                Some(e) => Err(e),
                None => Ok(timestamp_at(buf@, off as int)),
            },
    {
        assert(off + TIMESPEC_SIZE <= buf.len());
        let nsec: u32 = le32(buf, off + 8);
        if nsec >= NSEC_PER_SEC {
            return Err(
                Error::BadSuperblock(
                    cat5(
                        Lit("inode "),
                        Lit(what),
                        Lit(" has "),
                        Dec(nsec as u64),
                        Lit(
                            " nanoseconds, which is a second or more — the timestamp offsets are wrong",
                        ),
                    ),
                ),
            );
        }
        Ok(Timestamp { sec: le64(buf, off) as i64, nsec })
    }
}

/// A parsed `struct btrfs_inode_item`.
#[derive(Debug, Clone, Copy, PartialEq, Eq, Structural)]
pub struct Inode {
    /// Inode number, taken from the key the item was filed under.
    pub ino: u64,
    /// Transaction that created this inode.
    pub generation: u64,
    /// Transaction that last modified it.
    pub transid: u64,
    /// File length in bytes.
    pub size: u64,
    /// Bytes allocated on disk. Zero for a file small enough to live inside its
    /// own extent item.
    pub nbytes: u64,
    /// Block group hint.
    pub block_group: u64,
    /// Hard link count.
    pub nlink: u32,
    /// Owning user id.
    pub uid: u32,
    /// Owning group id.
    pub gid: u32,
    /// Raw mode, including both the type and the permission bits.
    pub mode: u32,
    /// Device number, meaningful only for a character or block device.
    pub rdev: u64,
    /// `BTRFS_INODE_*` flag bits, exactly as stored.
    pub flags: u64,
    /// Modification sequence number, for NFS.
    pub sequence: u64,
    /// Last access time.
    pub atime: Timestamp,
    /// Last inode-change time.
    pub ctime: Timestamp,
    /// Last data-modification time.
    pub mtime: Timestamp,
    /// Creation time.
    pub otime: Timestamp,
}

/// Every field of an inode item, read and not checked.
pub open spec fn inode_fields(b: Seq<u8>, ino: u64) -> Inode {
    Inode {
        ino,
        generation: bytes::u64_at(b, offsets::GENERATION as int),
        transid: bytes::u64_at(b, offsets::TRANSID as int),
        size: bytes::u64_at(b, offsets::SIZE as int),
        nbytes: bytes::u64_at(b, offsets::NBYTES as int),
        block_group: bytes::u64_at(b, offsets::BLOCK_GROUP as int),
        nlink: bytes::u32_at(b, offsets::NLINK as int),
        uid: bytes::u32_at(b, offsets::UID as int),
        gid: bytes::u32_at(b, offsets::GID as int),
        mode: bytes::u32_at(b, offsets::MODE as int),
        rdev: bytes::u64_at(b, offsets::RDEV as int),
        flags: bytes::u64_at(b, offsets::FLAGS as int),
        sequence: bytes::u64_at(b, offsets::SEQUENCE as int),
        atime: timestamp_at(b, offsets::ATIME as int),
        ctime: timestamp_at(b, offsets::CTIME as int),
        mtime: timestamp_at(b, offsets::MTIME as int),
        otime: timestamp_at(b, offsets::OTIME as int),
    }
}

/// What parsing the inode item `data`, filed under `ino`, gives.
pub open spec fn inode_outcome(data: Seq<u8>, ino: u64) -> std::result::Result<Inode, ErrorView> {
    if data.len() < INODE_ITEM_SIZE {
        Err(
            ErrorView::BadSuperblock(
                "inode "@ + text::dec(ino as nat) + ": item is "@ + text::dec(data.len())
                    + " bytes, too short for the 160-byte inode item"@,
            ),
        )
    } else if timestamp_error(data, offsets::ATIME as int, "atime"@) is Some {
        Err(timestamp_error(data, offsets::ATIME as int, "atime"@)->Some_0)
    } else if timestamp_error(data, offsets::CTIME as int, "ctime"@) is Some {
        Err(timestamp_error(data, offsets::CTIME as int, "ctime"@)->Some_0)
    } else if timestamp_error(data, offsets::MTIME as int, "mtime"@) is Some {
        Err(timestamp_error(data, offsets::MTIME as int, "mtime"@)->Some_0)
    } else if timestamp_error(data, offsets::OTIME as int, "otime"@) is Some {
        Err(timestamp_error(data, offsets::OTIME as int, "otime"@)->Some_0)
    } else {
        Ok(inode_fields(data, ino))
    }
}

impl Inode {
    /// Parse the inode item filed under objectid `ino`.
    ///
    /// `data` must be at least [`INODE_ITEM_SIZE`] bytes; anything past that
    /// is ignored.
    pub fn parse(data: &[u8], ino: u64) -> (r: Result<Self>)
        ensures
            crate::error::seen(r) == inode_outcome(data@, ino),
    {
        if data.len() < INODE_ITEM_SIZE {
            return Err(
                Error::BadSuperblock(
                    cat5(
                        Lit("inode "),
                        Dec(ino),
                        Lit(": item is "),
                        Dec(data.len() as u64),
                        Lit(" bytes, too short for the 160-byte inode item"),
                    ),
                ),
            );
        }
        let atime = match Timestamp::parse(data, offsets::ATIME, "atime") {
            Ok(t) => t,
            Err(e) => return Err(e),
        };
        let ctime = match Timestamp::parse(data, offsets::CTIME, "ctime") {
            Ok(t) => t,
            Err(e) => return Err(e),
        };
        let mtime = match Timestamp::parse(data, offsets::MTIME, "mtime") {
            Ok(t) => t,
            Err(e) => return Err(e),
        };
        let otime = match Timestamp::parse(data, offsets::OTIME, "otime") {
            Ok(t) => t,
            Err(e) => return Err(e),
        };
        Ok(Inode {
            ino,
            generation: le64(data, offsets::GENERATION),
            transid: le64(data, offsets::TRANSID),
            size: le64(data, offsets::SIZE),
            nbytes: le64(data, offsets::NBYTES),
            block_group: le64(data, offsets::BLOCK_GROUP),
            nlink: le32(data, offsets::NLINK),
            uid: le32(data, offsets::UID),
            gid: le32(data, offsets::GID),
            mode: le32(data, offsets::MODE),
            rdev: le64(data, offsets::RDEV),
            flags: le64(data, offsets::FLAGS),
            sequence: le64(data, offsets::SEQUENCE),
            atime,
            ctime,
            mtime,
            otime,
        })
    }

    /// Decode the file type from the mode's format bits. `None` means the
    /// bits name no POSIX type.
    pub fn file_type(&self) -> (r: Option<FileType>)
        ensures
            r == type_of_mode(self.mode),
    {
        FileType::from_mode(self.mode)
    }

    /// Permission and set-id bits only.
    pub fn permissions(&self) -> (bits: u32)
        ensures
            bits == self.mode & S_IPERM,
    {
        self.mode & S_IPERM
    }

    /// Whether this inode is a directory.
    pub fn is_dir(&self) -> (yes: bool)
        ensures
            yes == (type_of_mode(self.mode) == Some(FileType::Directory)),
    {
        match self.file_type() {
            Some(FileType::Directory) => true,
            _ => false,
        }
    }

    /// Whether this inode is a regular file.
    pub fn is_regular_file(&self) -> (yes: bool)
        ensures
            yes == (type_of_mode(self.mode) == Some(FileType::Regular)),
    {
        match self.file_type() {
            Some(FileType::Regular) => true,
            _ => false,
        }
    }

    /// Whether this inode is a symbolic link. A symlink stores its target the
    /// same way a small file stores its contents.
    pub fn is_symlink(&self) -> (yes: bool)
        ensures
            yes == (type_of_mode(self.mode) == Some(FileType::Symlink)),
    {
        match self.file_type() {
            Some(FileType::Symlink) => true,
            _ => false,
        }
    }
}

/// A timestamp of an inode that parses is normalised.
pub proof fn law_parsed_timestamps_are_normalised(data: Seq<u8>, ino: u64)
    ensures
        inode_outcome(data, ino) matches Ok(inode) ==> {
            &&& inode.ino == ino
            &&& inode.atime.nsec < NSEC_PER_SEC
            &&& inode.ctime.nsec < NSEC_PER_SEC
            &&& inode.mtime.nsec < NSEC_PER_SEC
            &&& inode.otime.nsec < NSEC_PER_SEC
        },
{
}

} // verus!
