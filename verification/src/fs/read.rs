//! Reading file contents.

use vstd::prelude::*;

use crate::btree;
use crate::btree::ItemModel;
use crate::bytes;
use crate::bytes::{copy_range, put_bytes, zeroed};
use crate::compression;
use crate::compression::decompress;
use crate::error::{Error, ErrorView, Result};
use crate::fs::extents;
use crate::fs::extents::{decode_extent, oversized, Piece, PieceModel};
use crate::fs::namespace;
use crate::fs::sums;
use crate::fs::{Filesystem, FilesystemModel, EXTENT_DATA_KEY, MAX_SYMLINK_TARGET};
use crate::inode;
use crate::inode::{FileType, Inode};
use crate::item_map;
use crate::text;
use crate::text::Part::{Dec, Lit};
use crate::text::{cat5, cat7};
use crate::volume::VolumeModel;

verus! {

/// How much of the file a piece covers; a hole covers nothing.
pub open spec fn piece_len(piece: PieceModel) -> Option<nat> {
    match piece {
        PieceModel::Inline(b) => Some(b.len()),
        PieceModel::Zeros => None,
        PieceModel::Regular { len, .. } => Some(len as nat),
        PieceModel::Compressed { len, .. } => Some(len as nat),
    }
}

/// An extent that does not hold the bytes it claims to cover.
pub open spec fn too_short(ino: u64, kind: Seq<char>) -> ErrorView {
    ErrorView::BadSuperblock(
        extents::of_inode(ino) + ": a "@ + kind + " extent is shorter than the range it covers"@,
    )
}

fn short_extent(ino: u64, kind: &str) -> (e: Error)
    ensures
        e@ == too_short(ino, kind@),
{
    Error::BadSuperblock(
        cat5(
            Lit("inode "),
            Dec(ino),
            Lit(": a "),
            Lit(kind),
            Lit(" extent is shorter than the range it covers"),
        ),
    )
}

/// The bytes `skip .. skip + take` of what a piece covers.
///
/// What lies on disk is held to the digests the checksum tree has for the
/// piece; of a compressed piece that is what lies there packed.
#[verifier::opaque]
pub open spec fn fetched(
    volume: VolumeModel,
    piece: PieceModel,
    ino: u64,
    skip: int,
    take: nat,
) -> std::result::Result<Seq<u8>, ErrorView> {
    match piece {
        PieceModel::Inline(b) => Ok(b.subrange(skip, skip + take)),
        PieceModel::Zeros => Ok(bytes::zeros(take)),
        PieceModel::Regular { logical, len } => if logical + skip > u64::MAX {
            Err(too_short(ino, "regular"@))
        } else {
            match sums::named(volume, logical, len as nat) {
                Err(e) => Err(e),
                Ok(m) => sums::checked_bytes(volume, m, ino, (logical + skip) as u64, take),
            }
        },
        PieceModel::Compressed { logical, disk_len, ram_len, offset, algo, .. } => {
            match packed_bytes(volume, ino, logical, disk_len) {
                Err(e) => Err(e),
                Ok(packed) => if ram_len > isize::MAX {
                    Err(extents::too_large(ino, ram_len))
                } else {
                    match compression::decompressed(
                        algo,
                        packed,
                        ram_len as usize,
                        volume.sb.sectorsize as usize,
                    ) {
                        Err(e) => Err(e),
                        Ok(decoded) => if offset + skip + take > decoded.len() {
                            Err(too_short(ino, "compressed"@))
                        } else {
                            Ok(decoded.subrange(offset + skip, offset + skip + take))
                        },
                    }
                },
            }
        },
    }
}

/// The bytes a compressed extent occupies, held to the checksum tree.
pub open spec fn packed_bytes(
    volume: VolumeModel,
    ino: u64,
    logical: u64,
    disk_len: u64,
) -> std::result::Result<Seq<u8>, ErrorView> {
    match sums::named(volume, logical, disk_len as nat) {
        Err(e) => Err(e),
        Ok(m) => sums::checked_bytes(volume, m, ino, logical, disk_len as nat),
    }
}

/// Where the overlap of a piece at file offset `at` with a window that starts
/// at `from` begins.
pub open spec fn overlap_start(at: u64, from: u64) -> int {
    if at < from {
        from as int
    } else {
        at as int
    }
}

/// Where the overlap of a piece at file offset `at` with a window that ends
/// at `end` ends.
pub open spec fn overlap_end(at: u64, len: nat, end: u64) -> int {
    if at + len < end {
        at + len
    } else {
        end as int
    }
}

/// `buf`, which holds the file from offset `from` on, with the pieces the
/// items `k ..` describe laid over it, up to offset `end`.
pub open spec fn painted(
    volume: VolumeModel,
    ino: u64,
    from: u64,
    end: u64,
    items: Seq<ItemModel>,
    k: int,
    buf: Seq<u8>,
) -> std::result::Result<Seq<u8>, ErrorView>
    decreases items.len() - k,
{
    if k < 0 || k >= items.len() || items[k].key.offset >= end {
        Ok(buf)
    } else {
        let at = items[k].key.offset;
        match extents::piece_outcome(items[k].data, ino, volume.sb.sectorsize) {
            Err(e) => Err(e),
            Ok(piece) => {
                let stop = match piece_len(piece) {
                    Some(len) => overlap_end(at, len, end),
                    None => 0,
                };
                let start = overlap_start(at, from);
                if stop <= start {
                    painted(volume, ino, from, end, items, k + 1, buf)
                } else {
                    match fetched(volume, piece, ino, start - at, (stop - start) as nat) {
                        Err(e) => Err(e),
                        Ok(src) => painted(
                            volume,
                            ino,
                            from,
                            end,
                            items,
                            k + 1,
                            bytes::splice(buf, start - from, src),
                        ),
                    }
                }
            },
        }
    }
}

/// Where a window of `len` bytes from `from` on ends in a file of `size`
/// bytes.
pub open spec fn window_end(from: u64, len: nat, size: u64) -> u64 {
    if from + len < size {
        (from + len) as u64
    } else {
        size
    }
}

/// The `len` bytes of a file from offset `from` on: zeros, with the file's
/// pieces laid over them.
pub open spec fn range_outcome(fs: FilesystemModel, inode: Inode, from: u64, len: nat) -> std::result::Result<
    Seq<u8>,
    ErrorView,
> {
    if len == 0 {
        Ok(Seq::empty())
    } else {
        painted(
            fs.volume,
            inode.ino,
            from,
            window_end(from, len, inode.size),
            item_map::of_kind(fs.items, inode.ino, EXTENT_DATA_KEY),
            0,
            bytes::zeros(len),
        )
    }
}

/// Whether an inode's contents can be read as a file's.
pub open spec fn holds_bytes(inode: Inode) -> bool {
    inode::type_of_mode(inode.mode) == Some(FileType::Regular) || inode::type_of_mode(inode.mode)
        == Some(FileType::Symlink)
}

/// What reading the whole of a file gives.
pub open spec fn file_outcome(fs: FilesystemModel, ino: u64) -> std::result::Result<
    Seq<u8>,
    ErrorView,
> {
    match namespace::inode_of(fs.items, ino) {
        Err(e) => Err(e),
        Ok(inode) => if !holds_bytes(inode) {
            Err(ErrorView::NotAFile)
        } else if inode.size > fs.volume.sb.total_bytes {
            Err(
                ErrorView::BadSuperblock(
                    extents::of_inode(ino) + " says it is "@ + text::dec(inode.size as nat)
                        + " bytes, more than the "@ + text::dec(fs.volume.sb.total_bytes as nat)
                        + " the filesystem holds"@,
                ),
            )
        } else if inode.size > isize::MAX {
            Err(
                ErrorView::BadSuperblock(
                    extents::of_inode(ino) + " says it is "@ + text::dec(inode.size as nat)
                        + " bytes, more than can be held in memory"@,
                ),
            )
        } else {
            range_outcome(fs, inode, 0, inode.size as nat)
        },
    }
}

/// What reading `len` bytes of a file from `offset` on gives, short only at
/// the end of the file.
pub open spec fn part_outcome(fs: FilesystemModel, ino: u64, offset: u64, len: nat) -> std::result::Result<
    Seq<u8>,
    ErrorView,
> {
    match namespace::inode_of(fs.items, ino) {
        Err(e) => Err(e),
        Ok(inode) => if !holds_bytes(inode) {
            Err(ErrorView::NotAFile)
        } else if offset >= inode.size {
            Ok(Seq::empty())
        } else {
            range_outcome(
                fs,
                inode,
                offset,
                (window_end(offset, len, inode.size) - offset) as nat,
            )
        },
    }
}

/// What resolving a symbolic link gives.
pub open spec fn link_outcome(fs: FilesystemModel, ino: u64) -> std::result::Result<
    Seq<u8>,
    ErrorView,
> {
    match namespace::inode_of(fs.items, ino) {
        Err(e) => Err(e),
        Ok(inode) => if inode::type_of_mode(inode.mode) != Some(FileType::Symlink) {
            Err(ErrorView::NotAFile)
        } else if inode.size > MAX_SYMLINK_TARGET {
            Err(
                ErrorView::BadSuperblock(
                    extents::of_inode(ino) + ": symlink target of "@ + text::dec(inode.size as nat)
                        + " bytes is longer than any path"@,
                ),
            )
        } else {
            file_outcome(fs, ino)
        },
    }
}

impl<R: Fn(usize, u64, usize) -> Result<Vec<u8>>> Filesystem<R> {
    /// The bytes `skip .. skip + take` of what a piece covers.
    fn fetch(&self, piece: Piece, ino: u64, skip: u64, take: usize) -> (r: Result<Vec<u8>>)
        requires
            self.ready(),
            piece@ matches PieceModel::Inline(b) ==> skip + take <= b.len(),
            piece@ matches PieceModel::Compressed { disk_len, .. } ==> disk_len
                <= compression::MAX_COMPRESSED,
        ensures
            self.faithful() ==> crate::error::viewed(r) == fetched(
                self@.volume,
                piece@,
                ino,
                skip as int,
                take as nat,
            ),
            r matches Ok(b) ==> b@.len() == take,
    {
        reveal(fetched);
        match piece {
            Piece::Inline(b) => {
                assert(skip + take <= b.len());
                Ok(copy_range(b.as_slice(), skip as usize, skip as usize + take))
            },
            Piece::Zeros => Ok(zeroed(take)),
            Piece::Regular { logical, len } => match logical.checked_add(skip) {
                Some(at) => match self.volume.named_digests(logical, len) {
                    Ok(sums) => self.volume.read_checked(&sums, ino, at, take),
                    Err(e) => Err(e),
                },
                None => Err(short_extent(ino, "regular")),
            },
            Piece::Compressed { logical, disk_len, ram_len, offset, algo, .. } => {
                let sums = match self.volume.named_digests(logical, disk_len) {
                    Ok(sums) => sums,
                    Err(e) => return Err(e),
                };
                let packed = match self.volume.read_checked(&sums, ino, logical, disk_len as usize) {
                    Ok(packed) => packed,
                    Err(e) => return Err(e),
                };
                if ram_len > isize::MAX as u64 {
                    return Err(oversized(ino, ram_len));
                }
                let decoded = match decompress(
                    algo,
                    packed.as_slice(),
                    ram_len as usize,
                    self.volume.sb.sectorsize as usize,
                ) {
                    Ok(decoded) => decoded,
                    Err(e) => return Err(e),
                };
                // The reference's offset indexes the decoded bytes.
                let held: u64 = decoded.len() as u64;
                if take as u64 > held || skip > held - take as u64 || offset > held - take as u64
                    - skip {
                    return Err(short_extent(ino, "compressed"));
                }
                let at: usize = offset as usize + skip as usize;
                Ok(copy_range(decoded.as_slice(), at, at + take))
            },
        }
    }

    /// The `len` bytes of a file from `from` on.
    ///
    /// They start out as zeros, so a hole and a preallocated extent need no
    /// special case: they are the absence of a copy. Only the extents that
    /// overlap the window are read.
    fn read_range(&self, inode: &Inode, from: u64, len: usize) -> (r: Result<Vec<u8>>)
        requires
            self.ready(),
        ensures
            self.faithful() ==> crate::error::viewed(r) == range_outcome(
                self@,
                *inode,
                from,
                len as nat,
            ),
            r matches Ok(b) ==> b@.len() == len,
    {
        let mut buf: Vec<u8> = zeroed(len);
        if len == 0 {
            assert(buf@ =~= Seq::<u8>::empty());
            return Ok(buf);
        }
        let ino: u64 = inode.ino;
        let sectorsize: u32 = self.volume.sb.sectorsize;
        let room: u64 = u64::MAX - from;
        let end: u64 = if len as u64 <= room && from + (len as u64) < inode.size {
            from + len as u64
        } else {
            inode.size
        };
        let items = self.items.range(ino, EXTENT_DATA_KEY);
        let ghost all = btree::models(items@);
        let mut i: usize = 0;
        while i < items.len() && items[i].key.offset < end
            invariant
                self.ready(),
                i <= items@.len(),
                all == btree::models(items@),
                all == item_map::of_kind(self@.items, ino, EXTENT_DATA_KEY),
                sectorsize == self@.volume.sb.sectorsize,
                ino == inode.ino,
                len > 0,
                end == window_end(from, len as nat, inode.size),
                buf@.len() == len,
                self.faithful() ==> range_outcome(self@, *inode, from, len as nat) == painted(
                    self@.volume,
                    ino,
                    from,
                    end,
                    all,
                    i as int,
                    buf@,
                ),
            decreases items@.len() - i,
        {
            let item = &items[i];
            assert(all[i as int] == item@);
            let at: u64 = item.key.offset;
            let piece = match decode_extent(item.data.as_slice(), ino, sectorsize) {
                Ok(piece) => piece,
                Err(e) => return Err(e),
            };
            let covers: Option<u64> = match &piece {
                Piece::Inline(b) => Some(b.len() as u64),
                Piece::Zeros => None,
                Piece::Regular { len: n, .. } => Some(*n),
                Piece::Compressed { len: n, .. } => Some(*n),
            };
            i = i + 1;
            if let Some(n) = covers {
                // Where this extent and the window overlap, in file offsets.
                let start: u64 = if at < from {
                    from
                } else {
                    at
                };
                let stop: u64 = if n < end - at {
                    at + n
                } else {
                    end
                };
                if stop > start {
                    let take: usize = (stop - start) as usize;
                    let src = match self.fetch(piece, ino, start - at, take) {
                        Ok(src) => src,
                        Err(e) => return Err(e),
                    };
                    put_bytes(buf.as_mut_slice(), (start - from) as usize, src.as_slice());
                }
            }
        }
        proof {
            if i < items@.len() {
                assert(all[i as int] == items@[i as int]@);
            }
        }
        Ok(buf)
    }

    /// Read a whole file.
    ///
    /// Materialises the file in memory, so it is bounded by the size of the
    /// filesystem. Reading part of a larger file is what
    /// [`Filesystem::read_at`] is for.
    pub fn read_file(&self, ino: u64) -> (r: Result<Vec<u8>>)
        requires
            self.ready(),
        ensures
            self.faithful() ==> crate::error::viewed(r) == file_outcome(self@, ino),
    {
        let inode = match self.read_inode(ino) {
            Ok(inode) => inode,
            Err(e) => return Err(e),
        };
        if !inode.is_regular_file() && !inode.is_symlink() {
            return Err(Error::NotAFile);
        }
        if inode.size > self.volume.sb.total_bytes {
            return Err(
                Error::BadSuperblock(
                    cat7(
                        Lit("inode "),
                        Dec(ino),
                        Lit(" says it is "),
                        Dec(inode.size),
                        Lit(" bytes, more than the "),
                        Dec(self.volume.sb.total_bytes),
                        Lit(" the filesystem holds"),
                    ),
                ),
            );
        }
        if inode.size > isize::MAX as u64 {
            return Err(
                Error::BadSuperblock(
                    cat5(
                        Lit("inode "),
                        Dec(ino),
                        Lit(" says it is "),
                        Dec(inode.size),
                        Lit(" bytes, more than can be held in memory"),
                    ),
                ),
            );
        }
        self.read_range(&inode, 0, inode.size as usize)
    }

    /// Read part of a file into `buf`.
    ///
    /// Returns the number of bytes read, short only at end of file. What lies
    /// behind them in `buf` is left as it was, and so is all of `buf` where
    /// the read fails.
    pub fn read_at(&self, ino: u64, offset: u64, buf: &mut [u8]) -> (r: Result<usize>)
        requires
            self.ready(),
        ensures
            self.faithful() ==> match (r, part_outcome(self@, ino, offset, old(buf)@.len())) {
                (Ok(n), Ok(b)) => n == b.len() && final(buf)@ == bytes::splice(old(buf)@, 0, b),
                (Err(e), Err(f)) => e@ == f && final(buf)@ == old(buf)@,
                _ => false,
            },
            final(buf)@.len() == old(buf)@.len(),
    {
        let inode = match self.read_inode(ino) {
            Ok(inode) => inode,
            Err(e) => return Err(e),
        };
        if !inode.is_regular_file() && !inode.is_symlink() {
            return Err(Error::NotAFile);
        }
        if offset >= inode.size {
            assert(bytes::splice(buf@, 0, Seq::empty()) =~= buf@);
            return Ok(0);
        }
        let left: u64 = inode.size - offset;
        let n: usize = if (buf.len() as u64) < left {
            buf.len()
        } else {
            left as usize
        };
        let part = match self.read_range(&inode, offset, n) {
            Ok(part) => part,
            Err(e) => return Err(e),
        };
        put_bytes(buf, 0, part.as_slice());
        Ok(n)
    }

    /// Resolve a symbolic link's target.
    pub fn read_link(&self, ino: u64) -> (r: Result<Vec<u8>>)
        requires
            self.ready(),
        ensures
            self.faithful() ==> crate::error::viewed(r) == link_outcome(self@, ino),
    {
        let inode = match self.read_inode(ino) {
            Ok(inode) => inode,
            Err(e) => return Err(e),
        };
        if !inode.is_symlink() {
            return Err(Error::NotAFile);
        }
        // A link's target is a path, and no path is longer than PATH_MAX.
        if inode.size > MAX_SYMLINK_TARGET {
            return Err(
                Error::BadSuperblock(
                    cat5(
                        Lit("inode "),
                        Dec(ino),
                        Lit(": symlink target of "),
                        Dec(inode.size),
                        Lit(" bytes is longer than any path"),
                    ),
                ),
            );
        }
        self.read_file(ino)
    }
}

} // verus!
