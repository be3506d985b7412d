//! Directory entries (`struct btrfs_dir_item`).
//!
//! Btrfs files every directory entry twice: `DIR_ITEM` under the
//! [`name_hash`] of the entry's name, and `DIR_INDEX` under the order the
//! entry was created in. Names that hash alike share a key, and their records
//! are simply concatenated inside that one item, so the unit of parsing is a
//! *sequence*.
//!
//! ```text
//!    0  location   btrfs_disk_key  (17 bytes, packed)
//!   17  transid    u64
//!   25  data_len   u16
//!   27  name_len   u16
//!   29  type       u8
//!   30  name       name_len bytes
//!       data       data_len bytes
//! ```

use vstd::prelude::*;

use crate::bytes;
use crate::bytes::{copy_range, le16, le64};
use crate::chunk;
use crate::chunk::DiskKey;
use crate::error::{Error, ErrorView, Result};
use crate::hashes;
use crate::inode::{FileType, INODE_ITEM_KEY};
use crate::text;
use crate::text::Part::{Dec, Lit};
use crate::text::{cat3, cat4, cat6, cat8};

pub mod ftype;
pub mod offsets;
pub mod record_laws;

verus! {

/// `BTRFS_DIR_ITEM_KEY`: the name-hash index over a directory.
pub const DIR_ITEM_KEY: u8 = 84;

/// `BTRFS_DIR_INDEX_KEY`: the creation-order index over a directory.
pub const DIR_INDEX_KEY: u8 = 96;

/// `BTRFS_XATTR_ITEM_KEY`: extended attributes, which reuse this struct.
pub const XATTR_ITEM_KEY: u8 = 24;

/// Size of the fixed part of a `struct btrfs_dir_item`, before its name.
pub const DIR_ITEM_HEADER_SIZE: usize = 30;

/// `BTRFS_NAME_LEN`: the longest name a directory entry may hold.
pub const MAX_NAME_LEN: usize = 255;

/// The type a raw `type` byte names, if it names one.
pub open spec fn type_of_raw(raw: u8) -> std::result::Result<Option<FileType>, ErrorView> {
    if raw == ftype::UNKNOWN || raw == ftype::XATTR {
        Ok(None)
    } else if raw == ftype::REG_FILE {
        Ok(Some(FileType::Regular))
    } else if raw == ftype::DIR {
        Ok(Some(FileType::Directory))
    } else if raw == ftype::CHRDEV {
        Ok(Some(FileType::CharDevice))
    } else if raw == ftype::BLKDEV {
        Ok(Some(FileType::BlockDevice))
    } else if raw == ftype::FIFO {
        Ok(Some(FileType::Fifo))
    } else if raw == ftype::SOCK {
        Ok(Some(FileType::Socket))
    } else if raw == ftype::SYMLINK {
        Ok(Some(FileType::Symlink))
    } else {
        Err(
            ErrorView::BadSuperblock(
                "directory entry type "@ + text::dec(raw as nat) + " is not a defined value"@,
            ),
        )
    }
}

/// Decode a raw `type` byte.
///
/// `Ok(None)` covers [`ftype::UNKNOWN`] and [`ftype::XATTR`]. An undefined
/// value is an error rather than a silent `None`.
pub fn ftype_from_raw(raw: u8) -> (r: Result<Option<FileType>>)
    ensures
        crate::error::seen(r) == type_of_raw(raw),
{
    if raw == ftype::UNKNOWN || raw == ftype::XATTR {
        Ok(None)
    } else if raw == ftype::REG_FILE {
        Ok(Some(FileType::Regular))
    } else if raw == ftype::DIR {
        Ok(Some(FileType::Directory))
    } else if raw == ftype::CHRDEV {
        Ok(Some(FileType::CharDevice))
    } else if raw == ftype::BLKDEV {
        Ok(Some(FileType::BlockDevice))
    } else if raw == ftype::FIFO {
        Ok(Some(FileType::Fifo))
    } else if raw == ftype::SOCK {
        Ok(Some(FileType::Socket))
    } else if raw == ftype::SYMLINK {
        Ok(Some(FileType::Symlink))
    } else {
        Err(
            Error::BadSuperblock(
                cat3(
                    Lit("directory entry type "),
                    Dec(raw as u64),
                    Lit(" is not a defined value"),
                ),
            ),
        )
    }
}

/// The complement of the seed Btrfs hashes a name with: a name's check value
/// is continued from `~1` without the complements a CRC32C is usually wrapped
/// in.
pub const NAME_HASH_START: u32 = 1;

/// The hash of a name whose CRC32C, continued from [`NAME_HASH_START`], is
/// `crc`: its complement.
pub open spec fn hash_of_check(crc: u32) -> u64 {
    (0xffff_ffff - crc) as u64
}

/// The hash of a name whose CRC32C, continued from [`NAME_HASH_START`], is
/// `crc`.
pub fn hash_from_check(crc: u32) -> (hash: u64)
    ensures
        hash == hash_of_check(crc),
{
    assert(!crc == 0xffff_ffffu32 - crc) by (bit_vector);
    (!crc) as u64
}

/// The hash of a name.
pub open spec fn hash_of(name: Seq<u8>) -> u64 {
    hash_of_check(hashes::crc32c_from(NAME_HASH_START, name))
}

/// The `DIR_ITEM` key offset a name is filed under.
pub fn name_hash(name: &[u8]) -> (hash: u64)
    ensures
        hash == hash_of(name@),
{
    hash_from_check(hashes::crc32c_append(NAME_HASH_START, name))
}

/// One directory entry.
#[derive(Debug, Clone, PartialEq, Eq)]
pub struct DirEntry {
    /// The name, exactly as stored.
    pub name: Vec<u8>,
    /// Objectid the name resolves to: an inode number when `location_type` is
    /// [`INODE_ITEM_KEY`], a subvolume's tree id otherwise.
    pub ino: u64,
    /// File type, when the entry records one. `None` means the caller must
    /// read the inode.
    pub ftype: Option<FileType>,
    /// The `location` key's type: `INODE_ITEM_KEY` for an ordinary entry,
    /// `ROOT_ITEM_KEY` for a subvolume mount point.
    pub location_type: u8,
    /// Transaction that created the entry.
    pub transid: u64,
}

/// What a [`DirEntry`] holds.
#[verifier::ext_equal]
pub struct DirEntryModel {
    pub name: Seq<u8>,
    pub ino: u64,
    pub ftype: Option<FileType>,
    pub location_type: u8,
    pub transid: u64,
}

impl View for DirEntry {
    type V = DirEntryModel;

    open spec fn view(&self) -> DirEntryModel {
        DirEntryModel {
            name: self.name@,
            ino: self.ino,
            ftype: self.ftype,
            location_type: self.location_type,
            transid: self.transid,
        }
    }
}

/// What a list of entries holds.
pub open spec fn entry_models(entries: Seq<DirEntry>) -> Seq<DirEntryModel> {
    Seq::new(entries.len(), |i: int| entries[i]@)
}

impl DirEntry {
    /// Whether this name resolves to an inode in the same file tree, rather
    /// than to another subvolume's root.
    pub fn is_inode(&self) -> (yes: bool)
        ensures
            yes == (self.location_type == INODE_ITEM_KEY),
    {
        self.location_type == INODE_ITEM_KEY
    }

    /// An entry that holds the same.
    pub(crate) fn duplicate(&self) -> (copy: Self)
        ensures
            copy@ == self@,
    {
        let name = copy_range(self.name.as_slice(), 0, self.name.len());
        assert(name@ =~= self.name@);
        DirEntry {
            name,
            ino: self.ino,
            ftype: self.ftype,
            location_type: self.location_type,
            transid: self.transid,
        }
    }
}

/// The length of the name of the record at position `pos`.
pub open spec fn name_len(data: Seq<u8>, pos: int) -> int {
    bytes::u16_at(data, pos + offsets::NAME_LEN) as int
}

/// The length of the value of the record at position `pos`.
pub open spec fn value_len(data: Seq<u8>, pos: int) -> int {
    bytes::u16_at(data, pos + offsets::DATA_LEN) as int
}

/// Where the record behind the one at position `pos` begins.
pub open spec fn record_end(data: Seq<u8>, pos: int) -> int {
    pos + offsets::NAME + name_len(data, pos) + value_len(data, pos)
}

/// The name of the record at position `pos`.
pub open spec fn record_name(data: Seq<u8>, pos: int) -> Seq<u8> {
    data.subrange(pos + offsets::NAME, pos + offsets::NAME + name_len(data, pos))
}

/// The value of the record at position `pos`.
pub open spec fn record_value(data: Seq<u8>, pos: int) -> Seq<u8> {
    data.subrange(pos + offsets::NAME + name_len(data, pos), record_end(data, pos))
}

/// The first check the record at position `pos` fails, `index` records coming
/// before it and `what` saying what kind of record it is.
pub open spec fn record_error(data: Seq<u8>, pos: int, index: nat, what: Seq<char>) -> Option<
    ErrorView,
> {
    let left: int = data.len() - pos;
    let head = what + " "@ + text::dec(index);
    if left < DIR_ITEM_HEADER_SIZE {
        Some(
            ErrorView::BadSuperblock(
                head + " is truncated: "@ + text::dec(left as nat)
                    + " bytes left, need 30 for a header"@,
            ),
        )
    } else if name_len(data, pos) == 0 {
        Some(ErrorView::BadSuperblock(head + " has an empty name"@))
    } else if name_len(data, pos) > MAX_NAME_LEN {
        Some(
            ErrorView::BadSuperblock(
                head + " has a "@ + text::dec(name_len(data, pos) as nat)
                    + "-byte name, past the 255-byte limit"@,
            ),
        )
    } else if record_end(data, pos) > data.len() {
        Some(
            ErrorView::BadSuperblock(
                head + " needs "@ + text::dec((record_end(data, pos) - pos) as nat)
                    + " bytes but only "@ + text::dec(left as nat) + " remain"@,
            ),
        )
    } else {
        None
    }
}

/// The directory entry the record at position `pos` describes.
pub open spec fn entry_at(data: Seq<u8>, pos: int, ftype: Option<FileType>) -> DirEntryModel {
    DirEntryModel {
        name: record_name(data, pos),
        ino: chunk::key_at(data, pos).objectid,
        ftype,
        location_type: chunk::key_at(data, pos).key_type,
        transid: bytes::u64_at(data, pos + offsets::TRANSID),
    }
}

/// The entries packed into `data` from position `pos` on, behind `before`.
pub open spec fn entries_from(data: Seq<u8>, pos: int, before: Seq<DirEntryModel>) -> std::result::Result<
    Seq<DirEntryModel>,
    ErrorView,
>
    decreases data.len() - pos,
{
    if pos < 0 || pos >= data.len() {
        Ok(before)
    } else {
        match record_error(data, pos, before.len(), "directory item"@) {
            Some(e) => Err(e),
            None => match type_of_raw(data[pos + offsets::TYPE]) {
                Err(e) => Err(e),
                Ok(ftype) => entries_from(
                    data,
                    record_end(data, pos),
                    before.push(entry_at(data, pos, ftype)),
                ),
            },
        }
    }
}

/// Check the record at position `pos` and find where its name and its value
/// end.
pub(crate) fn check_record(data: &[u8], pos: usize, index: usize, what: &str) -> (r: Result<
    (usize, usize),
>)
    requires
        pos < data@.len(),
    ensures
        match r {
            Ok((name_end, end)) => {
                &&& record_error(data@, pos as int, index as nat, what@) is None
                &&& name_end == pos + offsets::NAME + name_len(data@, pos as int)
                &&& end == record_end(data@, pos as int)
            },
            Err(e) => record_error(data@, pos as int, index as nat, what@) == Some(e@),
        },
{
    let left: usize = data.len() - pos;
    if left < DIR_ITEM_HEADER_SIZE {
        return Err(
            Error::BadSuperblock(
                cat6(
                    Lit(what),
                    Lit(" "),
                    Dec(index as u64),
                    Lit(" is truncated: "),
                    Dec(left as u64),
                    Lit(" bytes left, need 30 for a header"),
                ),
            ),
        );
    }
    let value: u64 = le16(data, pos + offsets::DATA_LEN) as u64;
    let name: u64 = le16(data, pos + offsets::NAME_LEN) as u64;
    if name == 0 {
        return Err(
            Error::BadSuperblock(
                cat4(Lit(what), Lit(" "), Dec(index as u64), Lit(" has an empty name")),
            ),
        );
    }
    if name > MAX_NAME_LEN as u64 {
        return Err(
            Error::BadSuperblock(
                cat6(
                    Lit(what),
                    Lit(" "),
                    Dec(index as u64),
                    Lit(" has a "),
                    Dec(name),
                    Lit("-byte name, past the 255-byte limit"),
                ),
            ),
        );
    }
    let needed: u64 = offsets::NAME as u64 + name + value;
    if needed > left as u64 {
        return Err(
            Error::BadSuperblock(
                cat8(
                    Lit(what),
                    Lit(" "),
                    Dec(index as u64),
                    Lit(" needs "),
                    Dec(needed),
                    Lit(" bytes but only "),
                    Dec(left as u64),
                    Lit(" remain"),
                ),
            ),
        );
    }
    Ok((pos + offsets::NAME + name as usize, pos + needed as usize))
}

/// Parse the sequence of dir items packed into one item's data. The entries
/// must consume the item exactly.
pub fn parse_dir_items(data: &[u8]) -> (r: Result<Vec<DirEntry>>)
    ensures
        match r {
            Ok(entries) => entries_from(data@, 0, Seq::empty()) == Ok::<
                Seq<DirEntryModel>,
                ErrorView,
            >(entry_models(entries@)),
            Err(e) => entries_from(data@, 0, Seq::empty()) == Err::<
                Seq<DirEntryModel>,
                ErrorView,
            >(e@),
        },
{
    let mut out: Vec<DirEntry> = Vec::new();
    let mut pos: usize = 0;
    assert(entry_models(out@) =~= Seq::<DirEntryModel>::empty());
    while pos < data.len()
        invariant
            pos <= data@.len(),
            entries_from(data@, 0, Seq::empty()) == entries_from(
                data@,
                pos as int,
                entry_models(out@),
            ),
        decreases data@.len() - pos,
    {
        let (name_end, end) = match check_record(data, pos, out.len(), "directory item") {
            Ok(ends) => ends,
            Err(e) => return Err(e),
        };
        let location = DiskKey::read(data, pos);
        let ftype = match ftype_from_raw(data[pos + offsets::TYPE]) {
            Ok(t) => t,
            Err(e) => return Err(e),
        };
        let ghost so_far = out@;
        out.push(
            DirEntry {
                name: copy_range(data, pos + offsets::NAME, name_end),
                ino: location.objectid,
                ftype,
                location_type: location.key_type,
                transid: le64(data, pos + offsets::TRANSID),
            },
        );
        assert(entry_models(out@) =~= entry_models(so_far).push(
            entry_at(data@, pos as int, ftype),
        ));
        pos = end;
    }
    Ok(out)
}

/// Entries that parse have names, none of them longer than the format allows.
pub proof fn law_parsed_entries_have_names(data: Seq<u8>, pos: int, before: Seq<DirEntryModel>)
    requires
        forall|i: int| 0 <= i < before.len() ==> 0 < (#[trigger] before[i]).name.len() <= MAX_NAME_LEN,
    ensures
        entries_from(data, pos, before) matches Ok(all) ==> forall|i: int|
            0 <= i < all.len() ==> 0 < (#[trigger] all[i]).name.len() <= MAX_NAME_LEN,
    decreases data.len() - pos,
{
    if 0 <= pos < data.len() && record_error(data, pos, before.len(), "directory item"@) is None {
        if let Ok(ftype) = type_of_raw(data[pos + offsets::TYPE]) {
            law_parsed_entries_have_names(
                data,
                record_end(data, pos),
                before.push(entry_at(data, pos, ftype)),
            );
        }
    }
}

} // verus!
