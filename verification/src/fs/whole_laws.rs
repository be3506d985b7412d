//! When a file is read, and when it is refused.

use vstd::prelude::*;

use crate::btree::ItemModel;
use crate::bytes;
use crate::error::ErrorView;
use crate::fs::content_laws;
use crate::fs::extents;
use crate::fs::extents::PieceModel;
use crate::fs::laws;
use crate::fs::namespace;
use crate::fs::read;
use crate::fs::{FilesystemModel, EXTENT_DATA_KEY};
use crate::inode::layout_laws as inode_laws;
use crate::inode::{FileType, Inode};
use crate::item_map;
use crate::volume::VolumeModel;

verus! {

/// Only a regular file or a symbolic link is read, in whole or in part, and
/// only a symbolic link is resolved. What is of another type is refused as
/// not a file; what is not there is refused as the lookup of it is.
pub proof fn law_only_files_and_links_are_read(fs: FilesystemModel, ino: u64, offset: u64, len: nat)
    ensures
        match namespace::inode_of(fs.items, ino) {
            Err(e) => {
                &&& read::file_outcome(fs, ino) == Err::<Seq<u8>, ErrorView>(e)
                &&& read::part_outcome(fs, ino, offset, len) == Err::<Seq<u8>, ErrorView>(e)
                &&& read::link_outcome(fs, ino) == Err::<Seq<u8>, ErrorView>(e)
            },
            Ok(inode) => {
                let kind = inode.mode / 0x1000 % 16;
                &&& kind != 8 && kind != 10 ==> {
                    &&& read::file_outcome(fs, ino) == Err::<Seq<u8>, ErrorView>(
                        ErrorView::NotAFile,
                    )
                    &&& read::part_outcome(fs, ino, offset, len) == Err::<Seq<u8>, ErrorView>(
                        ErrorView::NotAFile,
                    )
                }
                &&& kind != 10 ==> read::link_outcome(fs, ino) == Err::<Seq<u8>, ErrorView>(
                    ErrorView::NotAFile,
                )
            },
        },
{
    if let Ok(inode) = namespace::inode_of(fs.items, ino) {
        inode_laws::law_a_mode_names_its_type(inode.mode, FileType::Regular);
        inode_laws::law_a_mode_names_its_type(inode.mode, FileType::Symlink);
    }
}

/// A symbolic link of at most 4096 bytes resolves to what reading it as a
/// file gives; a longer one does not resolve.
pub proof fn law_a_link_resolves_to_its_contents(fs: FilesystemModel, ino: u64, inode: Inode)
    requires
        namespace::inode_of(fs.items, ino) == Ok::<Inode, ErrorView>(inode),
        inode.mode / 0x1000 % 16 == 10,
    ensures
        inode.size <= 4096 ==> read::link_outcome(fs, ino) == read::file_outcome(fs, ino),
        inode.size > 4096 ==> read::link_outcome(fs, ino) is Err,
{
    inode_laws::law_a_mode_names_its_type(inode.mode, FileType::Symlink);
}

/// Whether the data of an extent item can be had: the item says where it is,
/// and every part of it can be fetched from there.
pub open spec fn readable(volume: VolumeModel, ino: u64, x: ItemModel) -> bool {
    extents::piece_outcome(x.data, ino, volume.sb.sectorsize) matches Ok(piece) && (
    read::piece_len(piece) matches Some(n) ==> forall|skip: int, take: nat|
        0 <= skip && skip + take <= n ==> (#[trigger] read::fetched(
            volume,
            piece,
            ino,
            skip,
            take,
        )) is Ok)
}

/// Data kept in its item, a hole and a range that is set aside but not written
/// can be had whatever the volume holds, as long as nothing in the item says
/// that it is packed or encoded.
pub proof fn law_what_needs_no_volume_is_readable(volume: VolumeModel, ino: u64, x: ItemModel)
    requires
        x.data.len() >= 21,
        x.data[16] == 0,
        x.data[17] == 0,
        bytes::u16_at(x.data, 18) == 0,
        x.data[20] == 0 || (x.data.len() >= 53 && x.data[20] == 2) || (x.data.len() >= 53
            && x.data[20] == 1 && bytes::u64_at(x.data, 21) == 0),
    ensures
        readable(volume, ino, x),
{
    reveal(extents::piece_outcome);
    reveal(read::fetched);
}

/// An extent item that is whole, names a place on the volume and is not
/// encoded is accepted: as stored there where it is not packed and what it
/// covers lies inside the extent, and as packed there where it is and takes
/// no more than 128 KiB.
pub proof fn law_a_sound_extent_item_is_accepted(data: Seq<u8>, ino: u64, sectorsize: u32)
    requires
        data.len() >= 53,
        data[17] == 0,
        bytes::u16_at(data, 18) == 0,
        data[20] == 1,
        bytes::u64_at(data, 21) > 0,
    ensures
        data[16] == 0 && bytes::u64_at(data, 37) + bytes::u64_at(data, 45) <= bytes::u64_at(data, 8)
            && bytes::u64_at(data, 21) + bytes::u64_at(data, 37) <= u64::MAX
            ==> extents::piece_outcome(data, ino, sectorsize) == Ok::<PieceModel, ErrorView>(
            PieceModel::Regular {
                logical: (bytes::u64_at(data, 21) + bytes::u64_at(data, 37)) as u64,
                len: bytes::u64_at(data, 45),
            },
        ),
        0 < data[16] <= 3 && bytes::u64_at(data, 29) <= 131072 ==> (extents::piece_outcome(
            data,
            ino,
            sectorsize,
        ) matches Ok(PieceModel::Compressed { logical, disk_len, ram_len, offset, len, .. })
            && logical == bytes::u64_at(data, 21) && disk_len == bytes::u64_at(data, 29) && ram_len
            == bytes::u64_at(data, 8) && offset == bytes::u64_at(data, 37) && len == bytes::u64_at(
            data,
            45,
        )),
{
    reveal(extents::piece_outcome);
}

proof fn lemma_painted_ok(
    volume: VolumeModel,
    ino: u64,
    from: u64,
    end: u64,
    items: Seq<ItemModel>,
    k: int,
    buf: Seq<u8>,
)
    requires
        0 <= k,
        forall|i: int|
            0 <= i < items.len() && (#[trigger] items[i]).key.offset < end ==> readable(
                volume,
                ino,
                items[i],
            ),
    ensures
        read::painted(volume, ino, from, end, items, k, buf) is Ok,
    decreases items.len() - k,
{
    if k < items.len() && items[k].key.offset < end {
        let at = items[k].key.offset;
        assert(readable(volume, ino, items[k]));
        let piece = extents::piece_outcome(items[k].data, ino, volume.sb.sectorsize)->Ok_0;
        let stop = match read::piece_len(piece) {
            Some(len) => read::overlap_end(at, len, end),
            None => 0,
        };
        let start = read::overlap_start(at, from);
        if stop <= start {
            lemma_painted_ok(volume, ino, from, end, items, k + 1, buf);
        } else {
            let src = read::fetched(volume, piece, ino, start - at, (stop - start) as nat);
            assert(src is Ok);
            lemma_painted_ok(
                volume,
                ino,
                from,
                end,
                items,
                k + 1,
                bytes::splice(buf, start - from, src->Ok_0),
            );
        }
    }
}

/// A file is read whenever the data of its extents can be had: no more of it
/// is asked for than the filesystem and memory can hold, and as many bytes
/// come back as its inode says.
pub proof fn law_a_file_whose_extents_are_readable_is_read(
    fs: FilesystemModel,
    ino: u64,
    inode: Inode,
)
    requires
        content_laws::sound(fs),
        namespace::inode_of(fs.items, ino) == Ok::<Inode, ErrorView>(inode),
        inode.ino == ino,
        inode.mode / 0x1000 % 16 == 8 || inode.mode / 0x1000 % 16 == 10,
        inode.size <= fs.volume.sb.total_bytes,
        inode.size <= isize::MAX,
        forall|x: ItemModel|
            #[trigger] fs.items.contains(x) && content_laws::extent_of(x, ino) && x.key.offset
                < inode.size ==> readable(fs.volume, ino, x),
    ensures
        read::file_outcome(fs, ino) matches Ok(out) && out.len() == inode.size,
{
    inode_laws::law_a_mode_names_its_type(inode.mode, FileType::Regular);
    inode_laws::law_a_mode_names_its_type(inode.mode, FileType::Symlink);
    lemma_range_ok(fs, inode, 0, inode.size as nat);
}

proof fn lemma_range_ok(fs: FilesystemModel, inode: Inode, from: u64, len: nat)
    requires
        content_laws::sound(fs),
        from + len <= inode.size,
        len <= isize::MAX,
        forall|x: ItemModel|
            #[trigger] fs.items.contains(x) && content_laws::extent_of(x, inode.ino)
                && x.key.offset < inode.size ==> readable(fs.volume, inode.ino, x),
    ensures
        read::range_outcome(fs, inode, from, len) matches Ok(out) && out.len() == len,
{
    let items = item_map::of_kind(fs.items, inode.ino, EXTENT_DATA_KEY);
    let end = read::window_end(from, len, inode.size);
    laws::lemma_filter_keeps_order(fs.items, inode.ino, EXTENT_DATA_KEY);
    assert forall|i: int| 0 <= i < items.len() && (#[trigger] items[i]).key.offset
        < end implies readable(fs.volume, inode.ino, items[i]) by {
        let x = items[i];
        assert(fs.items.contains(x) && item_map::is_kind(inode.ino, EXTENT_DATA_KEY)(x));
        assert(content_laws::extent_of(x, inode.ino));
    }
    lemma_painted_ok(fs.volume, inode.ino, from, end, items, 0, bytes::zeros(len));
    laws::lemma_painted(fs.volume, inode.ino, from, end, items, 0, bytes::zeros(len));
}

/// Part of a file is read whenever the data of its extents can be had. As
/// much comes back as was asked for, less only where the file ends first.
pub proof fn law_part_of_a_readable_file_is_read(
    fs: FilesystemModel,
    ino: u64,
    inode: Inode,
    offset: u64,
    len: nat,
)
    requires
        content_laws::sound(fs),
        namespace::inode_of(fs.items, ino) == Ok::<Inode, ErrorView>(inode),
        inode.ino == ino,
        inode.mode / 0x1000 % 16 == 8 || inode.mode / 0x1000 % 16 == 10,
        len <= isize::MAX,
        forall|x: ItemModel|
            #[trigger] fs.items.contains(x) && content_laws::extent_of(x, ino) && x.key.offset
                < inode.size ==> readable(fs.volume, ino, x),
    ensures
        read::part_outcome(fs, ino, offset, len) matches Ok(out) && out.len() == (if offset
            >= inode.size {
            0
        } else if offset + len <= inode.size {
            len as int
        } else {
            inode.size - offset
        }),
{
    inode_laws::law_a_mode_names_its_type(inode.mode, FileType::Regular);
    inode_laws::law_a_mode_names_its_type(inode.mode, FileType::Symlink);
    if offset < inode.size {
        lemma_range_ok(
            fs,
            inode,
            offset,
            (read::window_end(offset, len, inode.size) - offset) as nat,
        );
    }
}

} // verus!
