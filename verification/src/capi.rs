//! What the C interface reports: numbers for errors and file types, and the
//! records it fills in.
//!
//! A client distinguishes "this file is not here" from "this volume is
//! damaged" only by an errno, so the mapping is part of what the driver says.
//! Names and labels go into fields of fixed size that stay NUL-terminated.

use vstd::prelude::*;

use crate::bytes;
use crate::bytes::{put_bytes, zeroed};
use crate::dir::DirEntry;
use crate::error::{Error, ErrorView};
use crate::inode;
use crate::inode::{FileType, Inode, INODE_ITEM_KEY};
use crate::superblock::Superblock;
use crate::text;
use crate::text::cat5;
use crate::text::Part::{Dec, Lit};

pub mod number_laws;

verus! {

/// No such file.
pub const ENOENT: i32 = 2;

/// The volume cannot be trusted.
pub const EIO: i32 = 5;

/// Not a directory.
pub const ENOTDIR: i32 = 20;

/// Not a file.
pub const EISDIR: i32 = 21;

/// The volume is mounted read-only.
pub const EROFS_ERRNO: i32 = 30;

/// A result did not fit the caller's buffer.
pub const ERANGE: i32 = 34;

/// The size of the fields names and labels go into.
pub const NAME_FIELD: usize = 256;

/// The errno for an error, where `enotsup` is the platform's `ENOTSUP`.
pub open spec fn errno_of(e: ErrorView, enotsup: i32) -> i32 {
    match e {
        ErrorView::NotFound => ENOENT,
        ErrorView::NotADirectory => ENOTDIR,
        ErrorView::NotAFile => EISDIR,
        ErrorView::ReadOnly => EROFS_ERRNO,
        ErrorView::UnsupportedFeature(_) => enotsup,
        ErrorView::UnsupportedProfile(_) => enotsup,
        ErrorView::UnsupportedChecksum(_) => enotsup,
        _ => EIO,
    }
}

/// Map a driver error onto the errno a filesystem client expects.
///
/// `enotsup` is the platform's `ENOTSUP`: the request is valid and this
/// driver cannot serve it. Everything that is neither that nor about the
/// request means the volume cannot be trusted.
pub fn errno_for(e: &Error, enotsup: i32) -> (errno: i32)
    ensures
        errno == errno_of(e@, enotsup),
{
    match e {
        Error::NotFound => ENOENT,
        Error::NotADirectory => ENOTDIR,
        Error::NotAFile => EISDIR,
        Error::ReadOnly => EROFS_ERRNO,
        Error::UnsupportedFeature(_) => enotsup,
        Error::UnsupportedProfile(_) => enotsup,
        Error::UnsupportedChecksum(_) => enotsup,
        Error::NotBtrfs { .. } => EIO,
        Error::BadSuperblock(_) => EIO,
        Error::BadChunkItem(_) => EIO,
        Error::ChecksumMismatch { .. } => EIO,
        Error::BlockIdentityMismatch { .. } => EIO,
        Error::UnmappedLogical(_) => EIO,
        Error::DirtyLog => EIO,
        Error::Io(_) => EIO,
    }
}

/// The number of a file type; zero for none.
pub open spec fn code_of(t: Option<FileType>) -> u32 {
    match t {
        Some(FileType::Regular) => 1,
        Some(FileType::Directory) => 2,
        Some(FileType::CharDevice) => 3,
        Some(FileType::BlockDevice) => 4,
        Some(FileType::Fifo) => 5,
        Some(FileType::Socket) => 6,
        Some(FileType::Symlink) => 7,
        None => 0,
    }
}

/// Numeric file type, the same for every driver of the family.
pub fn file_type_code(t: Option<FileType>) -> (code: u32)
    ensures
        code == code_of(t),
        code <= 7,
{
    match t {
        Some(FileType::Regular) => 1,
        Some(FileType::Directory) => 2,
        Some(FileType::CharDevice) => 3,
        Some(FileType::BlockDevice) => 4,
        Some(FileType::Fifo) => 5,
        Some(FileType::Socket) => 6,
        Some(FileType::Symlink) => 7,
        None => 0,
    }
}

/// No two file types share a number, and none has the number of no type.
pub proof fn law_file_type_codes_differ(a: Option<FileType>, b: Option<FileType>)
    ensures
        code_of(a) == code_of(b) ==> a == b,
{
}

/// Attributes of one filesystem object.
#[allow(non_camel_case_types)]
#[derive(Debug, Clone, Copy, PartialEq, Eq, Structural)]
pub struct fs_btrfs_attr_t {
    pub inode: u64,
    pub mode: u32,
    pub uid: u32,
    pub gid: u32,
    pub size: u64,
    pub nbytes: u64,
    pub atime: i64,
    pub mtime: i64,
    pub ctime: i64,
    pub otime: i64,
    pub link_count: u32,
    pub file_type: u32,
}

/// The attributes of an inode.
pub fn fill_attr(inode: &Inode) -> (out: fs_btrfs_attr_t)
    ensures
        out == (fs_btrfs_attr_t {
            inode: inode.ino,
            mode: inode.mode,
            uid: inode.uid,
            gid: inode.gid,
            size: inode.size,
            nbytes: inode.nbytes,
            atime: inode.atime.sec,
            mtime: inode.mtime.sec,
            ctime: inode.ctime.sec,
            otime: inode.otime.sec,
            link_count: inode.nlink,
            file_type: code_of(inode::type_of_mode(inode.mode)),
        }),
{
    fs_btrfs_attr_t {
        inode: inode.ino,
        mode: inode.mode,
        uid: inode.uid,
        gid: inode.gid,
        size: inode.size,
        nbytes: inode.nbytes,
        atime: inode.atime.sec,
        mtime: inode.mtime.sec,
        ctime: inode.ctime.sec,
        otime: inode.otime.sec,
        link_count: inode.nlink,
        file_type: file_type_code(inode.file_type()),
    }
}

/// How much of a name goes into a field that keeps its terminator.
pub open spec fn kept_len(name: Seq<u8>) -> nat {
    if name.len() < 255 {
        name.len()
    } else {
        255
    }
}

/// A name in a field of fixed size: what fits, and zeros behind it.
pub open spec fn in_field(name: Seq<u8>) -> Seq<u8> {
    name.take(kept_len(name) as int) + bytes::zeros((NAME_FIELD - kept_len(name)) as nat)
}

/// A name in a field of 256 bytes, and how much of it went in. The field
/// stays NUL-terminated, so a longer name is cut rather than overrunning.
pub fn name_field(name: &[u8]) -> (r: (Vec<u8>, u8))
    ensures
        r.0@ == in_field(name@),
        r.0@.len() == NAME_FIELD,
        r.0@.last() == 0,
        r.1 == kept_len(name@),
{
    let n: usize = if name.len() < 255 {
        name.len()
    } else {
        255
    };
    let mut field = zeroed(NAME_FIELD);
    let kept = vstd::slice::slice_subrange(name, 0, n);
    put_bytes(field.as_mut_slice(), 0, kept);
    assert(field@ =~= in_field(name@));
    (field, n as u8)
}

/// One directory entry.
#[allow(non_camel_case_types)]
#[derive(Debug, Clone)]
pub struct fs_btrfs_dirent_t {
    pub inode: u64,
    pub file_type: u8,
    pub name_len: u8,
    /// Non-zero when the entry names a subvolume rather than an inode.
    pub is_subvolume: u8,
    /// The name, in 256 bytes, NUL-terminated.
    pub name: Vec<u8>,
}

/// The record of a directory entry.
pub fn fill_dirent(e: &DirEntry) -> (out: fs_btrfs_dirent_t)
    ensures
        out.inode == e@.ino,
        out.file_type == code_of(e@.ftype),
        out.name_len == kept_len(e@.name),
        out.is_subvolume == (if e@.location_type == INODE_ITEM_KEY {
            0u8
        } else {
            1u8
        }),
        out.name@ == in_field(e@.name),
        out.name@.len() == NAME_FIELD,
{
    let (name, name_len) = name_field(e.name.as_slice());
    fs_btrfs_dirent_t {
        inode: e.ino,
        file_type: file_type_code(e.ftype) as u8,
        name_len,
        is_subvolume: if e.is_inode() {
            0
        } else {
            1
        },
        name,
    }
}

/// Volume-wide information.
#[allow(non_camel_case_types)]
#[derive(Debug, Clone)]
pub struct fs_btrfs_volume_info_t {
    pub sector_size: u32,
    pub node_size: u32,
    pub total_bytes: u64,
    pub bytes_used: u64,
    pub num_devices: u64,
    /// Checksum algorithm: 0 crc32c, 1 xxhash64, 2 sha256, 3 blake2b.
    pub csum_type: u16,
    /// The label, in 256 bytes, NUL-terminated.
    pub label: Vec<u8>,
    pub fsid: [u8; 16],
    pub metadata_uuid: [u8; 16],
    pub feature_compat: u64,
    pub feature_compat_ro: u64,
    pub feature_incompat: u64,
}

/// The record of a volume.
pub fn volume_info(sb: &Superblock) -> (out: fs_btrfs_volume_info_t)
    ensures
        out.sector_size == sb@.sectorsize,
        out.node_size == sb@.nodesize,
        out.total_bytes == sb@.total_bytes,
        out.bytes_used == sb@.bytes_used,
        out.num_devices == sb@.num_devices,
        out.csum_type == sb@.csum_type.raw(),
        out.label@ == in_field(vstd::utf8::encode_utf8(sb@.label)),
        out.label@.len() == NAME_FIELD,
        out.fsid@ == sb@.fsid,
        out.metadata_uuid@ == sb@.metadata_uuid,
        out.feature_compat == sb@.compat_flags,
        out.feature_compat_ro == sb@.compat_ro_flags,
        out.feature_incompat == sb@.incompat_flags,
{
    let (label, _) = name_field(sb.label.as_str().as_bytes());
    fs_btrfs_volume_info_t {
        sector_size: sb.sectorsize,
        node_size: sb.nodesize,
        total_bytes: sb.total_bytes,
        bytes_used: sb.bytes_used,
        num_devices: sb.num_devices,
        csum_type: sb.csum_type.to_raw(),
        label,
        fsid: sb.fsid,
        metadata_uuid: sb.metadata_uuid,
        feature_compat: sb.compat_flags,
        feature_compat_ro: sb.compat_ro_flags,
        feature_incompat: sb.incompat_flags,
    }
}

/// What a caller with a buffer of `bufsize` bytes is handed of a symbolic
/// link's target: the target and its terminator, or the complaint that they
/// do not fit.
///
/// A cut target is a path to somewhere else, so a buffer that cannot hold the
/// whole of it is refused.
pub fn link_reply(target: &[u8], bufsize: usize) -> (r: std::result::Result<Vec<u8>, String>)
    requires
        target@.len() < usize::MAX,
    ensures
        match r {
            Ok(out) => target@.len() + 1 <= bufsize && out@ == target@.push(0),
            Err(e) => target@.len() + 1 > bufsize && e@ == "readlink buffer holds "@ + text::dec(
                bufsize as nat,
            ) + " bytes, need "@ + text::dec((target@.len() + 1) as nat)
                + " for the target and its terminator"@,
        },
{
    let need: usize = target.len() + 1;
    if need > bufsize {
        return Err(
            cat5(
                Lit("readlink buffer holds "),
                Dec(bufsize as u64),
                Lit(" bytes, need "),
                Dec(need as u64),
                Lit(" for the target and its terminator"),
            ),
        );
    }
    let mut out = vstd::slice::slice_to_vec(target);
    out.push(0);
    Ok(out)
}

} // verus!
