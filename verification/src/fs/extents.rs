//! The extents of a file.

use vstd::prelude::*;

use crate::btree;
use crate::btree::ItemModel;
use crate::bytes;
use crate::bytes::{copy_range, le16, le64};
use crate::compression;
use crate::compression::{decompress, Compression};
use crate::error::{Error, ErrorView, Result};
use crate::fs::{file_extent, Filesystem, EXTENT_DATA_KEY};
use crate::item_map;
use crate::text;
use crate::text::Part::{Dec, Lit};
use crate::text::{cat4, cat5, cat7, cat9};

verus! {

/// Extent storage kinds.
pub const EXTENT_INLINE: u8 = 0;

pub const EXTENT_REGULAR: u8 = 1;

pub const EXTENT_PREALLOC: u8 = 2;

/// One resolved piece of a file's contents.
#[derive(Debug)]
pub enum Piece {
    /// Data stored inside the item itself, already decoded.
    Inline(Vec<u8>),
    /// Data on disk: logical address, and the length to read.
    Regular { logical: u64, len: u64 },
    /// A compressed run on disk that must be decoded whole, then sliced. The
    /// compressed unit is the entire extent, so the reference's `offset`
    /// indexes the decoded bytes and cannot be folded into the address.
    Compressed {
        /// Start of the compressed run.
        logical: u64,
        /// Its length on disk.
        disk_len: u64,
        /// What the whole run decodes to.
        ram_len: u64,
        /// Where this reference starts within the decoded bytes.
        offset: u64,
        /// How much of the decoded bytes this reference covers.
        len: u64,
        algo: Compression,
    },
    /// A hole or an unwritten preallocated extent.
    Zeros,
}

/// What a [`Piece`] holds.
pub enum PieceModel {
    Inline(Seq<u8>),
    Regular { logical: u64, len: u64 },
    Compressed { logical: u64, disk_len: u64, ram_len: u64, offset: u64, len: u64, algo: Compression },
    Zeros,
}

impl View for Piece {
    type V = PieceModel;

    open spec fn view(&self) -> PieceModel {
        match self {
            Piece::Inline(b) => PieceModel::Inline(b@),
            Piece::Regular { logical, len } => PieceModel::Regular {
                logical: *logical,
                len: *len,
            },
            Piece::Compressed { logical, disk_len, ram_len, offset, len, algo } => {
                PieceModel::Compressed {
                    logical: *logical,
                    disk_len: *disk_len,
                    ram_len: *ram_len,
                    offset: *offset,
                    len: *len,
                    algo: *algo,
                }
            },
            Piece::Zeros => PieceModel::Zeros,
        }
    }
}

/// One extent of a file, located both in the file and on the volume.
#[derive(Debug, Clone, Copy, PartialEq, Eq, Structural)]
pub struct FileExtent {
    /// Offset within the file where this extent begins.
    pub start: u64,
    /// How much of the file it covers.
    pub len: u64,
    /// Where its bytes are, when they can be written in place at all.
    pub logical: Option<u64>,
    /// Start of the whole extent run, which is what the extent tree keys its
    /// reference count by.
    pub extent_start: u64,
    /// Whether the bytes on disk are compressed.
    pub compressed: bool,
}

/// The start of a complaint about an inode.
pub open spec fn of_inode(ino: u64) -> Seq<char> {
    "inode "@ + text::dec(ino as nat)
}

pub open spec fn too_large(ino: u64, ram_bytes: u64) -> ErrorView {
    ErrorView::BadSuperblock(
        of_inode(ino) + ": a compressed extent decodes to "@ + text::dec(ram_bytes as nat)
            + " bytes, more than can be held in memory"@,
    )
}

pub(crate) fn oversized(ino: u64, ram_bytes: u64) -> (e: Error)
    ensures
        e@ == too_large(ino, ram_bytes),
{
    Error::BadSuperblock(
        cat5(
            Lit("inode "),
            Dec(ino),
            Lit(": a compressed extent decodes to "),
            Dec(ram_bytes),
            Lit(" bytes, more than can be held in memory"),
        ),
    )
}

/// What the data of an inline extent is.
pub open spec fn inline_piece(
    data: Seq<u8>,
    ino: u64,
    sectorsize: u32,
    ram_bytes: u64,
    algo: Compression,
) -> std::result::Result<PieceModel, ErrorView> {
    let raw = data.skip(file_extent::INLINE_DATA as int);
    if algo == Compression::Stored {
        Ok(PieceModel::Inline(raw))
    } else if ram_bytes > isize::MAX {
        Err(too_large(ino, ram_bytes))
    } else {
        match compression::decompressed(algo, raw, ram_bytes as usize, sectorsize as usize) {
            Ok(out) => Ok(PieceModel::Inline(out)),
            Err(e) => Err(e),
        }
    }
}

/// What a reference to an extent on disk describes.
pub open spec fn stored_piece(data: Seq<u8>, ino: u64, kind: u8, ram_bytes: u64, algo: Compression) -> std::result::Result<
    PieceModel,
    ErrorView,
> {
    let disk_bytenr = bytes::u64_at(data, file_extent::DISK_BYTENR as int);
    let disk_len = bytes::u64_at(data, file_extent::DISK_NUM_BYTES as int);
    let offset = bytes::u64_at(data, file_extent::OFFSET as int);
    let num_bytes = bytes::u64_at(data, file_extent::NUM_BYTES as int);
    if data.len() < file_extent::REGULAR_SIZE {
        Err(
            ErrorView::BadSuperblock(
                of_inode(ino) + ": non-inline extent item is "@ + text::dec(data.len())
                    + " bytes, need 53"@,
            ),
        )
    } else if disk_bytenr == 0 || kind == EXTENT_PREALLOC {
        Ok(PieceModel::Zeros)
    } else if algo != Compression::Stored {
        if disk_len > compression::MAX_COMPRESSED {
            Err(
                ErrorView::BadSuperblock(
                    of_inode(ino) + ": compressed extent occupies "@ + text::dec(disk_len as nat)
                        + " bytes on disk, more than the 131072 a compressed extent can"@,
                ),
            )
        } else {
            Ok(
                PieceModel::Compressed {
                    logical: disk_bytenr,
                    disk_len,
                    ram_len: ram_bytes,
                    offset,
                    len: num_bytes,
                    algo,
                },
            )
        }
    } else if offset + num_bytes > ram_bytes {
        Err(
            ErrorView::BadSuperblock(
                of_inode(ino) + ": an extent item covers ["@ + text::dec(offset as nat) + ", +"@
                    + text::dec(num_bytes as nat) + ") of an extent that is "@ + text::dec(
                    ram_bytes as nat,
                ) + " bytes long"@,
            ),
        )
    } else if disk_bytenr + offset > u64::MAX {
        Err(
            ErrorView::BadSuperblock(
                of_inode(ino) + ": extent at "@ + text::dec(disk_bytenr as nat) + " plus offset "@
                    + text::dec(offset as nat) + " leaves the address space"@,
            ),
        )
    } else {
        Ok(PieceModel::Regular { logical: (disk_bytenr + offset) as u64, len: num_bytes })
    }
}

/// The piece of a file an `EXTENT_DATA` item describes.
#[verifier::opaque]
pub open spec fn piece_outcome(data: Seq<u8>, ino: u64, sectorsize: u32) -> std::result::Result<
    PieceModel,
    ErrorView,
> {
    let ram_bytes = bytes::u64_at(data, file_extent::RAM_BYTES as int);
    let encryption = data[file_extent::ENCRYPTION as int];
    let other = bytes::u16_at(data, file_extent::OTHER_ENCODING as int);
    let kind = data[file_extent::TYPE as int];
    if data.len() < file_extent::TYPE + 1 {
        Err(
            ErrorView::BadSuperblock(
                of_inode(ino) + ": extent item is "@ + text::dec(data.len())
                    + " bytes, too short to hold a type"@,
            ),
        )
    } else {
        match compression::algorithm(data[file_extent::COMPRESSION as int]) {
            Err(e) => Err(ErrorView::UnsupportedFeature(of_inode(ino) + ": "@ + e.text())),
            Ok(algo) => if encryption != 0 || other != 0 {
                Err(
                    ErrorView::UnsupportedFeature(
                        of_inode(ino) + ": extent is encoded (encryption "@ + text::dec(
                            encryption as nat,
                        ) + ", other "@ + text::dec(other as nat) + ")"@,
                    ),
                )
            } else if kind == EXTENT_INLINE {
                inline_piece(data, ino, sectorsize, ram_bytes, algo)
            } else if kind == EXTENT_REGULAR || kind == EXTENT_PREALLOC {
                stored_piece(data, ino, kind, ram_bytes, algo)
            } else {
                Err(
                    ErrorView::BadSuperblock(
                        of_inode(ino) + ": extent type "@ + text::dec(kind as nat)
                            + " is not a defined value (ram_bytes "@ + text::dec(ram_bytes as nat)
                            + ")"@,
                    ),
                )
            },
        }
    }
}

/// How an extent looks to a writer: where in the file it lies, and where on
/// the volume if it may be overwritten there. A hole is not listed.
pub open spec fn file_extent_of(item: ItemModel, piece: PieceModel) -> Option<FileExtent> {
    let start = item.key.offset;
    let extent_start = bytes::u64_at(item.data, file_extent::DISK_BYTENR as int);
    match piece {
        PieceModel::Inline(b) => Some(
            FileExtent {
                start,
                len: b.len() as u64,
                logical: None,
                extent_start: 0,
                compressed: false,
            },
        ),
        PieceModel::Zeros => None,
        PieceModel::Regular { logical, len } => Some(
            FileExtent { start, len, logical: Some(logical), extent_start, compressed: false },
        ),
        PieceModel::Compressed { len, .. } => Some(
            FileExtent { start, len, logical: None, extent_start, compressed: true },
        ),
    }
}

/// The extents the items `from ..` describe, behind those in `before`.
pub open spec fn extents_from(
    items: Seq<ItemModel>,
    ino: u64,
    sectorsize: u32,
    from: int,
    before: Seq<FileExtent>,
) -> std::result::Result<Seq<FileExtent>, ErrorView>
    decreases items.len() - from,
{
    if from < 0 || from >= items.len() {
        Ok(before)
    } else {
        match piece_outcome(items[from].data, ino, sectorsize) {
            Err(e) => Err(e),
            Ok(piece) => extents_from(
                items,
                ino,
                sectorsize,
                from + 1,
                match file_extent_of(items[from], piece) {
                    Some(e) => before.push(e),
                    None => before,
                },
            ),
        }
    }
}

/// The extents of inode `ino`, among the items of its tree.
pub open spec fn extents_of(items: Seq<ItemModel>, ino: u64, sectorsize: u32) -> std::result::Result<
    Seq<FileExtent>,
    ErrorView,
> {
    extents_from(item_map::of_kind(items, ino, EXTENT_DATA_KEY), ino, sectorsize, 0, Seq::empty())
}

/// Decode one `EXTENT_DATA` item into the piece of file it describes.
pub fn decode_extent(data: &[u8], ino: u64, sectorsize: u32) -> (r: Result<Piece>)
    ensures
        crate::error::viewed(r) == piece_outcome(data@, ino, sectorsize),
        r matches Ok(Piece::Regular { .. }) ==> data@.len() >= file_extent::REGULAR_SIZE,
        r matches Ok(Piece::Compressed { disk_len, .. }) ==> data@.len()
            >= file_extent::REGULAR_SIZE && disk_len <= compression::MAX_COMPRESSED,
{
    reveal(piece_outcome);
    if data.len() < file_extent::TYPE + 1 {
        return Err(
            Error::BadSuperblock(
                cat5(
                    Lit("inode "),
                    Dec(ino),
                    Lit(": extent item is "),
                    Dec(data.len() as u64),
                    Lit(" bytes, too short to hold a type"),
                ),
            ),
        );
    }
    let ram_bytes: u64 = le64(data, file_extent::RAM_BYTES);
    let encryption: u8 = data[file_extent::ENCRYPTION];
    let other: u16 = le16(data, file_extent::OTHER_ENCODING);
    let kind: u8 = data[file_extent::TYPE];
    let algo = match Compression::from_byte(data[file_extent::COMPRESSION]) {
        Ok(algo) => algo,
        Err(e) => {
            let text = e.to_string();
            return Err(
                Error::UnsupportedFeature(
                    cat4(Lit("inode "), Dec(ino), Lit(": "), Lit(text.as_str())),
                ),
            );
        },
    };
    if encryption != 0 || other != 0 {
        return Err(
            Error::UnsupportedFeature(
                cat7(
                    Lit("inode "),
                    Dec(ino),
                    Lit(": extent is encoded (encryption "),
                    Dec(encryption as u64),
                    Lit(", other "),
                    Dec(other as u64),
                    Lit(")"),
                ),
            ),
        );
    }
    if kind == EXTENT_INLINE {
        return decode_inline(data, ino, sectorsize, ram_bytes, algo);
    }
    if kind == EXTENT_REGULAR || kind == EXTENT_PREALLOC {
        return decode_stored(data, ino, kind, ram_bytes, algo);
    }
    Err(
        Error::BadSuperblock(
            cat7(
                Lit("inode "),
                Dec(ino),
                Lit(": extent type "),
                Dec(kind as u64),
                Lit(" is not a defined value (ram_bytes "),
                Dec(ram_bytes),
                Lit(")"),
            ),
        ),
    )
}

/// Decode the data of an inline extent. It may be compressed too, and there
/// is no offset to apply: the item holds the whole thing.
fn decode_inline(data: &[u8], ino: u64, sectorsize: u32, ram_bytes: u64, algo: Compression) -> (r:
    Result<Piece>)
    requires
        data@.len() >= file_extent::INLINE_DATA,
    ensures
        crate::error::viewed(r) == inline_piece(data@, ino, sectorsize, ram_bytes, algo),
{
    let raw = copy_range(data, file_extent::INLINE_DATA, data.len());
    assert(raw@ =~= data@.skip(file_extent::INLINE_DATA as int));
    if !algo.is_compressed() {
        return Ok(Piece::Inline(raw));
    }
    if ram_bytes > isize::MAX as u64 {
        return Err(oversized(ino, ram_bytes));
    }
    match decompress(algo, raw.as_slice(), ram_bytes as usize, sectorsize as usize) {
        Ok(out) => Ok(Piece::Inline(out)),
        Err(e) => Err(e),
    }
}

/// Decode a reference to an extent on disk.
fn decode_stored(data: &[u8], ino: u64, kind: u8, ram_bytes: u64, algo: Compression) -> (r: Result<
    Piece,
>)
    ensures
        crate::error::viewed(r) == stored_piece(data@, ino, kind, ram_bytes, algo),
{
    if data.len() < file_extent::REGULAR_SIZE {
        return Err(
            Error::BadSuperblock(
                cat5(
                    Lit("inode "),
                    Dec(ino),
                    Lit(": non-inline extent item is "),
                    Dec(data.len() as u64),
                    Lit(" bytes, need 53"),
                ),
            ),
        );
    }
    let disk_bytenr: u64 = le64(data, file_extent::DISK_BYTENR);
    let offset: u64 = le64(data, file_extent::OFFSET);
    let num_bytes: u64 = le64(data, file_extent::NUM_BYTES);
    // A preallocated extent has blocks reserved but never written, and
    // returning them would disclose whatever previously occupied the space.
    if disk_bytenr == 0 || kind == EXTENT_PREALLOC {
        return Ok(Piece::Zeros);
    }
    if algo.is_compressed() {
        let disk_len: u64 = le64(data, file_extent::DISK_NUM_BYTES);
        if disk_len > compression::MAX_COMPRESSED {
            return Err(
                Error::BadSuperblock(
                    cat5(
                        Lit("inode "),
                        Dec(ino),
                        Lit(": compressed extent occupies "),
                        Dec(disk_len),
                        Lit(" bytes on disk, more than the 131072 a compressed extent can"),
                    ),
                ),
            );
        }
        return Ok(
            Piece::Compressed {
                logical: disk_bytenr,
                disk_len,
                ram_len: ram_bytes,
                offset,
                len: num_bytes,
                algo,
            },
        );
    }
    // The item's window is inside the extent it names.
    if num_bytes > ram_bytes || offset > ram_bytes - num_bytes {
        return Err(
            Error::BadSuperblock(
                cat9(
                    Lit("inode "),
                    Dec(ino),
                    Lit(": an extent item covers ["),
                    Dec(offset),
                    Lit(", +"),
                    Dec(num_bytes),
                    Lit(") of an extent that is "),
                    Dec(ram_bytes),
                    Lit(" bytes long"),
                ),
            ),
        );
    }
    match disk_bytenr.checked_add(offset) {
        Some(logical) => Ok(Piece::Regular { logical, len: num_bytes }),
        None => Err(
            Error::BadSuperblock(
                cat7(
                    Lit("inode "),
                    Dec(ino),
                    Lit(": extent at "),
                    Dec(disk_bytenr),
                    Lit(" plus offset "),
                    Dec(offset),
                    Lit(" leaves the address space"),
                ),
            ),
        ),
    }
}

impl<R: Fn(usize, u64, usize) -> Result<Vec<u8>>> Filesystem<R> {
    /// The extents of a file, as the write planner needs to see them: it has
    /// to decide whether a range may be written at all before touching any of
    /// it.
    pub fn file_extents(&self, ino: u64) -> (r: Result<Vec<FileExtent>>)
        requires
            self.ready(),
        ensures
            crate::error::viewed(r) == extents_of(self@.items, ino, self@.volume.sb.sectorsize),
    {
        let items = self.items.range(ino, EXTENT_DATA_KEY);
        let ghost all = btree::models(items@);
        let sectorsize: u32 = self.volume.sb.sectorsize;
        let mut out: Vec<FileExtent> = Vec::new();
        assert(out@ =~= Seq::<FileExtent>::empty());
        let mut i: usize = 0;
        while i < items.len()
            invariant
                i <= items@.len(),
                all == btree::models(items@),
                extents_from(all, ino, sectorsize, 0, Seq::empty()) == extents_from(
                    all,
                    ino,
                    sectorsize,
                    i as int,
                    out@,
                ),
                extents_of(self@.items, ino, self@.volume.sb.sectorsize) == extents_from(
                    all,
                    ino,
                    sectorsize,
                    0,
                    Seq::empty(),
                ),
            decreases items@.len() - i,
        {
            let item = &items[i];
            assert(all[i as int] == item@);
            let data = item.data.as_slice();
            let start: u64 = item.key.offset;
            match decode_extent(data, ino, sectorsize) {
                Err(e) => return Err(e),
                // Inline data lives in the item, so there is no block to
                // overwrite.
                Ok(Piece::Inline(b)) => out.push(
                    FileExtent {
                        start,
                        len: b.len() as u64,
                        logical: None,
                        extent_start: 0,
                        compressed: false,
                    },
                ),
                Ok(Piece::Zeros) => {},
                Ok(Piece::Regular { logical, len }) => {
                    out.push(
                        FileExtent {
                            start,
                            len,
                            logical: Some(logical),
                            extent_start: le64(data, file_extent::DISK_BYTENR),
                            compressed: false,
                        },
                    )
                },
                Ok(Piece::Compressed { len, .. }) => {
                    out.push(
                        FileExtent {
                            start,
                            len,
                            logical: None,
                            extent_start: le64(data, file_extent::DISK_BYTENR),
                            compressed: true,
                        },
                    )
                },
            }
            i = i + 1;
        }
        Ok(out)
    }
}

} // verus!
