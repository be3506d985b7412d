//! What can go wrong reading or writing a Btrfs volume.

use vstd::prelude::*;

use crate::text;
use crate::text::{cat2, cat3, cat4, hex_list_text, Part};

verus! {

/// Everything that can go wrong reading or writing a Btrfs volume.
#[derive(Debug, Clone, PartialEq, Eq)]
pub enum Error {
    /// The underlying block device failed a read or write.
    Io(String),
    /// The eight bytes at superblock offset `0x40` are not `_BHRfS_M`: this
    /// is not a Btrfs volume. The bytes actually seen are carried along.
    NotBtrfs {
        /// The eight bytes read from the magic field.
        magic: [u8; 8],
    },
    /// The volume is Btrfs, but a structural field is out of range or
    /// internally inconsistent.
    BadSuperblock(String),
    /// A metadata block, or a sector of data that the checksum tree names,
    /// failed the checksum its volume protects it with.
    ChecksumMismatch {
        /// What kind of structure was being read.
        what: &'static str,
        /// Byte offset the structure was read from: a mirror offset for a
        /// superblock, the logical address for a tree node or a sector.
        offset: u64,
    },
    /// `csum_type` names a hash algorithm this driver does not implement.
    UnsupportedChecksum(u16),
    /// A self-describing structure disagrees with where it was read from.
    BlockIdentityMismatch {
        /// What kind of structure was being read.
        what: &'static str,
        /// Address it was read from.
        expected: u64,
        /// Address the structure claims for itself.
        found: u64,
    },
    /// The volume asks for something this driver does not implement.
    UnsupportedFeature(String),
    /// A chunk item is malformed.
    BadChunkItem(String),
    /// No chunk covers this logical address.
    UnmappedLogical(u64),
    /// A chunk uses a RAID profile this driver cannot translate.
    UnsupportedProfile(String),
    /// The log tree is non-empty: it holds changes that have not been folded
    /// into the main trees.
    DirtyLog,
    /// A path component was not found.
    NotFound,
    /// A path component exists but is not a directory.
    NotADirectory,
    /// The operation requires a regular file.
    NotAFile,
    /// The requested operation would write, but the volume is mounted
    /// read-only.
    ReadOnly,
}

/// An [`Error`] with its text taken as a sequence of characters.
pub enum ErrorView {
    Io(Seq<char>),
    NotBtrfs(Seq<u8>),
    BadSuperblock(Seq<char>),
    ChecksumMismatch { what: Seq<char>, offset: u64 },
    UnsupportedChecksum(u16),
    BlockIdentityMismatch { what: Seq<char>, expected: u64, found: u64 },
    UnsupportedFeature(Seq<char>),
    BadChunkItem(Seq<char>),
    UnmappedLogical(u64),
    UnsupportedProfile(Seq<char>),
    DirtyLog,
    NotFound,
    NotADirectory,
    NotAFile,
    ReadOnly,
}

impl View for Error {
    type V = ErrorView;

    open spec fn view(&self) -> ErrorView {
        match self {
            Error::Io(m) => ErrorView::Io(m@),
            Error::NotBtrfs { magic } => ErrorView::NotBtrfs(magic@),
            Error::BadSuperblock(m) => ErrorView::BadSuperblock(m@),
            Error::ChecksumMismatch { what, offset } => ErrorView::ChecksumMismatch {
                what: what@,
                offset: *offset,
            },
            Error::UnsupportedChecksum(t) => ErrorView::UnsupportedChecksum(*t),
            Error::BlockIdentityMismatch { what, expected, found } => {
                ErrorView::BlockIdentityMismatch {
                    what: what@,
                    expected: *expected,
                    found: *found,
                }
            },
            Error::UnsupportedFeature(m) => ErrorView::UnsupportedFeature(m@),
            Error::BadChunkItem(m) => ErrorView::BadChunkItem(m@),
            Error::UnmappedLogical(a) => ErrorView::UnmappedLogical(*a),
            Error::UnsupportedProfile(m) => ErrorView::UnsupportedProfile(m@),
            Error::DirtyLog => ErrorView::DirtyLog,
            Error::NotFound => ErrorView::NotFound,
            Error::NotADirectory => ErrorView::NotADirectory,
            Error::NotAFile => ErrorView::NotAFile,
            Error::ReadOnly => ErrorView::ReadOnly,
        }
    }
}

/// Result alias used throughout the crate.
pub type Result<T> = std::result::Result<T, Error>;

/// A result whose error is taken by its view.
pub open spec fn seen<T>(r: Result<T>) -> std::result::Result<T, ErrorView> {
    match r {
        Ok(v) => Ok(v),
        Err(e) => Err(e@),
    }
}

/// A result both halves of which are taken by their views.
pub open spec fn viewed<T: View>(r: Result<T>) -> std::result::Result<T::V, ErrorView> {
    match r {
        Ok(v) => Ok(v@),
        Err(e) => Err(e@),
    }
}

impl ErrorView {
    /// The sentence an error is reported with.
    pub open spec fn text(self) -> Seq<char> {
        match self {
            ErrorView::Io(m) => "device I/O failed: "@ + m,
            ErrorView::NotBtrfs(magic) => {
                "not a Btrfs volume (magic bytes ["@ + text::hex_list(magic) + "])"@
            },
            ErrorView::BadSuperblock(m) => "malformed Btrfs superblock: "@ + m,
            ErrorView::ChecksumMismatch { what, offset } => {
                what + " at offset "@ + text::dec(offset as nat) + " failed its checksum"@
            },
            ErrorView::UnsupportedChecksum(t) => {
                "unsupported Btrfs checksum type "@ + text::dec(t as nat)
            },
            ErrorView::BlockIdentityMismatch { what, expected, found } => {
                what + " read from "@ + text::dec(expected as nat) + " claims to live at "@ + text::dec(
                    found as nat,
                )
            },
            ErrorView::UnsupportedFeature(m) => "unsupported Btrfs feature: "@ + m,
            ErrorView::BadChunkItem(m) => "malformed Btrfs chunk item: "@ + m,
            ErrorView::UnmappedLogical(a) => {
                "logical address "@ + text::hex(a as nat) + " is not covered by any chunk"@
            },
            ErrorView::UnsupportedProfile(m) => "unsupported Btrfs chunk profile: "@ + m,
            ErrorView::DirtyLog => "Btrfs log tree is non-empty and needs replay"@,
            ErrorView::NotFound => "no such file or directory"@,
            ErrorView::NotADirectory => "not a directory"@,
            ErrorView::NotAFile => "not a regular file"@,
            ErrorView::ReadOnly => "filesystem is read-only"@,
        }
    }
}

impl Error {
    /// The sentence this error is reported with.
    pub fn to_string(&self) -> (out: String)
        ensures
            out@ == self@.text(),
    {
        match self {
            Error::Io(m) => cat2(Part::Lit("device I/O failed: "), Part::Lit(m.as_str())),
            Error::NotBtrfs { magic } => {
                let list = hex_list_text(magic.as_slice());
                cat3(
                    Part::Lit("not a Btrfs volume (magic bytes ["),
                    Part::Lit(list.as_str()),
                    Part::Lit("])"),
                )
            },
            Error::BadSuperblock(m) => cat2(
                Part::Lit("malformed Btrfs superblock: "),
                Part::Lit(m.as_str()),
            ),
            Error::ChecksumMismatch { what, offset } => cat4(
                Part::Lit(*what),
                Part::Lit(" at offset "),
                Part::Dec(*offset),
                Part::Lit(" failed its checksum"),
            ),
            Error::UnsupportedChecksum(t) => cat2(
                Part::Lit("unsupported Btrfs checksum type "),
                Part::Dec(*t as u64),
            ),
            Error::BlockIdentityMismatch { what, expected, found } => {
                let read_from = cat3(Part::Lit(*what), Part::Lit(" read from "), Part::Dec(*expected));
                cat3(
                    Part::Lit(read_from.as_str()),
                    Part::Lit(" claims to live at "),
                    Part::Dec(*found),
                )
            },
            Error::UnsupportedFeature(m) => cat2(
                Part::Lit("unsupported Btrfs feature: "),
                Part::Lit(m.as_str()),
            ),
            Error::BadChunkItem(m) => cat2(
                Part::Lit("malformed Btrfs chunk item: "),
                Part::Lit(m.as_str()),
            ),
            Error::UnmappedLogical(a) => cat3(
                Part::Lit("logical address "),
                Part::Hex(*a),
                Part::Lit(" is not covered by any chunk"),
            ),
            Error::UnsupportedProfile(m) => cat2(
                Part::Lit("unsupported Btrfs chunk profile: "),
                Part::Lit(m.as_str()),
            ),
            Error::DirtyLog => "Btrfs log tree is non-empty and needs replay".to_owned(),
            Error::NotFound => "no such file or directory".to_owned(),
            Error::NotADirectory => "not a directory".to_owned(),
            Error::NotAFile => "not a regular file".to_owned(),
            Error::ReadOnly => "filesystem is read-only".to_owned(),
        }
    }
}

} // verus!
