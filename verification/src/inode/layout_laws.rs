//! Where an inode item keeps what it says.

use vstd::prelude::*;

use crate::bytes;
use crate::inode;
use crate::inode::{FileType, Timestamp};

verus! {

/// Whether `t` is the timestamp at `at`: seconds, then nanoseconds.
pub open spec fn stamped(t: Timestamp, b: Seq<u8>, at: int) -> bool {
    &&& t.sec == bytes::u64_at(b, at) as i64
    &&& t.nsec == bytes::u32_at(b, at + 8)
    &&& t.nsec < 1_000_000_000
}

/// An inode item of at least 160 bytes whose timestamps are timestamps is read
/// field by field; any other is refused.
pub proof fn law_an_inode_is_read_from_its_item(b: Seq<u8>, ino: u64)
    ensures
        inode::inode_outcome(b, ino) is Ok <==> b.len() >= 160 && bytes::u32_at(b, 120)
            < 1_000_000_000 && bytes::u32_at(b, 132) < 1_000_000_000 && bytes::u32_at(b, 144)
            < 1_000_000_000 && bytes::u32_at(b, 156) < 1_000_000_000,
        inode::inode_outcome(b, ino) matches Ok(i) ==> {
            &&& i.ino == ino
            &&& i.generation == bytes::u64_at(b, 0)
            &&& i.transid == bytes::u64_at(b, 8)
            &&& i.size == bytes::u64_at(b, 16)
            &&& i.nbytes == bytes::u64_at(b, 24)
            &&& i.block_group == bytes::u64_at(b, 32)
            &&& i.nlink == bytes::u32_at(b, 40)
            &&& i.uid == bytes::u32_at(b, 44)
            &&& i.gid == bytes::u32_at(b, 48)
            &&& i.mode == bytes::u32_at(b, 52)
            &&& i.rdev == bytes::u64_at(b, 56)
            &&& i.flags == bytes::u64_at(b, 64)
            &&& i.sequence == bytes::u64_at(b, 72)
            &&& stamped(i.atime, b, 112)
            &&& stamped(i.ctime, b, 124)
            &&& stamped(i.mtime, b, 136)
            &&& stamped(i.otime, b, 148)
        },
{
}

/// The top four bits of a mode name the type, and the lower twelve are the
/// permissions.
pub proof fn law_a_mode_names_its_type(mode: u32, kind: FileType)
    ensures
        inode::type_of_mode(mode) == Some(kind) <==> mode / 0x1000 % 16 == (match kind {
            FileType::Fifo => 1int,
            FileType::CharDevice => 2int,
            FileType::Directory => 4int,
            FileType::BlockDevice => 6int,
            FileType::Regular => 8int,
            FileType::Symlink => 10int,
            FileType::Socket => 12int,
        }),
        mode & inode::S_IPERM == mode % 0x1000,
{
    assert(mode & 0xF000 == (mode / 0x1000 % 16) * 0x1000) by (bit_vector);
    assert(mode & 0xFFF == mode % 0x1000) by (bit_vector);
}

} // verus!
