//! File data and the digests on record for it.

use vstd::prelude::*;

use crate::btree;
use crate::btree::laws as walks;
use crate::btree::ItemModel;
use crate::chunk;
use crate::chunk::DiskKey;
use crate::csum;
use crate::csum::item_laws as digests;
use crate::error::ErrorView;
use crate::fs::extents::PieceModel;
use crate::fs::laws;
use crate::fs::mount_laws;
use crate::fs::read;
use crate::fs::sums;
use crate::superblock::layout_laws as super_laws;
use crate::volume::VolumeModel;

verus! {

/// Whether the checksum tree of a volume is rooted at `root`, is sound, and
/// has one item that says the sector at `k` has the digest `d` and none that
/// says otherwise; `leaf` is where a search for the sector at `lo` ends.
pub open spec fn on_record(
    volume: VolumeModel,
    root: u64,
    leaf: Seq<u8>,
    lo: u64,
    k: u64,
    d: Seq<u8>,
) -> bool {
    let w = super_laws::digest_size(volume.sb.csum_type);
    let ss = volume.sb.sectorsize as int;
    let items = volume.walk(root).items;
    &&& volume.root_if_any(7) == Ok::<Option<u64>, ErrorView>(Some(root))
    &&& walks::divided(volume.image(), volume.geometry(), root, None, None, 0)
    &&& volume.walk(root).fault is None
    &&& btree::leaf_for(
        volume.image(),
        volume.geometry(),
        root,
        root,
        None,
        (DiskKey { objectid: 0xFFFF_FFFF_FFFF_FFF6, key_type: 128, offset: lo }),
        8,
    ) == Ok::<Seq<u8>, ErrorView>(leaf)
    &&& exists|x: ItemModel, i: int| #[trigger]
        items.contains(x) && #[trigger] digests::says(x, w, ss, k, i, d) && (lo <= x.key.offset
            || x.key == csum::covering_key(btree::leaf_items(leaf), lo))
    &&& forall|other: Seq<u8>| #[trigger] digests::told(items, w, ss, k, other) ==> other == d
}

/// Whether the sector at `k` of a volume hashes to `d`, and `out`, which is
/// what was read from `at` on, has of it what the volume has.
pub open spec fn as_recorded(volume: VolumeModel, k: u64, d: Seq<u8>, at: u64, out: Seq<u8>) -> bool {
    exists|sector: Seq<u8>|
        {
            &&& sector.len() == volume.sb.sectorsize
            &&& d == #[trigger] volume.sb.csum_type.hash(sector)
            &&& forall|j: int|
                0 <= j < sector.len() ==> k + j <= u64::MAX && volume.bytes_at((k + j) as u64, 1)
                    == Ok::<Seq<u8>, ErrorView>(seq![#[trigger] sector[j]])
            &&& forall|j: int|
                0 <= j < sector.len() && at <= k + j < at + out.len() ==> out[k + j - at]
                    == #[trigger] sector[j]
        }
}

/// Whether a volume gives the same bytes however it is asked.
pub open spec fn sound(volume: VolumeModel) -> bool {
    &&& laws::steady(volume.disk)
    &&& volume.sb.sectorsize > 0
    &&& volume.ids.len() <= usize::MAX
    &&& chunk::ordered(volume.map)
    &&& chunk::divisible(volume.map)
}

proof fn lemma_touched(at: u64, take: nat, s: u32, k: u64)
    requires
        s > 0,
        k % (s as u64) == 0,
        at < k + s,
        k < at + take,
        at + take + s <= u64::MAX,
    ensures
        sums::is_sector(sums::sector_of(at, s), sums::sectors_end(at, take, s), s, k),
{
    let lo = sums::sector_of(at, s);
    let hi = sums::sectors_end(at, take, s);
    let n = s as int;
    let end: int = at + take;
    sums::lemma_sector_of(at, s);
    sums::lemma_sectors_end(at, take, s);
    if k < lo {
        sums::lemma_multiples_apart(k as int, lo as int, n);
    }
    vstd::arithmetic::div_mod::lemma_fundamental_div_mod(end, n);
    let q: int = if end % n == 0 {
        end / n
    } else {
        end / n + 1
    };
    assert(hi == n * q + 0) by (nonlinear_arith)
        requires
            end == n * (end / n) + end % n,
            end % n == 0 ==> hi == end && q == end / n,
            end % n != 0 ==> hi == end - end % n + n && q == end / n + 1,
    ;
    vstd::arithmetic::div_mod::lemma_mod_multiples_vanish(q, 0, n);
    assert(0int % n == 0);
    sums::lemma_multiples_apart(k as int, hi as int, n);
}

#[verifier::spinoff_prover]
#[verifier::rlimit(40)]
proof fn lemma_named(
    volume: VolumeModel,
    root: u64,
    leaf: Seq<u8>,
    logical: u64,
    len: nat,
    k: u64,
    d: Seq<u8>,
)
    requires
        volume.sb.sectorsize > 0,
        on_record(volume, root, leaf, sums::sector_of(logical, volume.sb.sectorsize), k, d),
        sums::sector_of(logical, volume.sb.sectorsize) <= k < sums::sectors_end(
            logical,
            len,
            volume.sb.sectorsize,
        ),
        sums::named(volume, logical, len) is Ok,
    ensures
        sums::named(volume, logical, len)->Ok_0.contains_key(k),
        sums::named(volume, logical, len)->Ok_0[k] == d,
{
    let s = volume.sb.sectorsize;
    let m = sums::named(volume, logical, len)->Ok_0;
    let lo = sums::sector_of(logical, s);
    let hi = sums::sectors_end(logical, len, s);
    let w = volume.sb.csum_type.width() as usize;
    digests::law_digests_come_from_their_items(
        volume.image(),
        volume.geometry(),
        root,
        w,
        s as u64,
        lo,
        (hi - lo) as u64,
        leaf,
        k,
    );
    assert(sums::named(volume, logical, len) == csum::digests_outcome(
        volume.image(),
        volume.geometry(),
        root,
        w,
        s as u64,
        lo,
        (hi - lo) as u64,
    )) by {
        reveal(sums::named);
    }
    let (x, i) = choose|x: ItemModel, i: int| #[trigger]
        volume.walk(root).items.contains(x) && #[trigger] digests::says(x, w as int, s as int, k, i, d)
            && (lo <= x.key.offset || x.key == csum::covering_key(btree::leaf_items(leaf), lo));
    assert(digests::says(x, w as int, s as int, k, i, d));
    assert(m.contains_key(k));
    assert(digests::told(volume.walk(root).items, w as int, s as int, k, m[k]));
}

proof fn lemma_hashes(
    volume: VolumeModel,
    m: Map<u64, Seq<u8>>,
    ino: u64,
    at: u64,
    take: nat,
    k: u64,
)
    requires
        sound(volume),
        at + take + volume.sb.sectorsize <= u64::MAX,
        k % (volume.sb.sectorsize as u64) == 0,
        at < k + volume.sb.sectorsize,
        k < at + take,
        m.contains_key(k),
        sums::checked_bytes(volume, m, ino, at, take) is Ok,
    ensures
        as_recorded(
            volume,
            k,
            m[k],
            at,
            sums::checked_bytes(volume, m, ino, at, take)->Ok_0,
        ),
{
    let s = volume.sb.sectorsize;
    let from = sums::sector_of(at, s);
    let to = sums::sectors_end(at, take, s);
    lemma_touched(at, take, s, k);
    assert(!sums::silent(m, from, to, s));
    sums::law_named_sectors_are_held_to_their_digests(volume, m, ino, at, take);
    let out = sums::checked_bytes(volume, m, ino, at, take)->Ok_0;
    let n = (to - from) as nat;
    let wide = volume.bytes_at(from, n)->Ok_0;
    let sector = wide.subrange(k - from, k - from + s);
    assert(n <= usize::MAX) by {
        reveal(sums::checked_bytes);
    }
    laws::lemma_gathered_len(volume.disk, volume.ids, volume.map, from, n);
    assert forall|j: int| 0 <= j < sector.len() implies k + j <= u64::MAX && volume.bytes_at(
        (k + j) as u64,
        1,
    ) == Ok::<Seq<u8>, ErrorView>(seq![#[trigger] sector[j]]) by {
        mount_laws::law_a_range_is_its_bytes(volume, from, n, (k - from + j) as nat);
        assert(from + (k - from + j) == k + j);
    }
    assert(m[k] == volume.sb.csum_type.hash(sector));
}

proof fn lemma_held_to_record(
    volume: VolumeModel,
    root: u64,
    leaf: Seq<u8>,
    ino: u64,
    logical: u64,
    len: nat,
    at: u64,
    take: nat,
    k: u64,
    d: Seq<u8>,
)
    requires
        sound(volume),
        on_record(volume, root, leaf, sums::sector_of(logical, volume.sb.sectorsize), k, d),
        logical <= at,
        at + take <= logical + len,
        logical + len + volume.sb.sectorsize <= u64::MAX,
        k % (volume.sb.sectorsize as u64) == 0,
        at < k + volume.sb.sectorsize,
        k < at + take,
        sums::named(volume, logical, len) is Ok,
        sums::checked_bytes(volume, sums::named(volume, logical, len)->Ok_0, ino, at, take) is Ok,
    ensures
        as_recorded(
            volume,
            k,
            d,
            at,
            sums::checked_bytes(
                volume,
                sums::named(volume, logical, len)->Ok_0,
                ino,
                at,
                take,
            )->Ok_0,
        ),
{
    let s = volume.sb.sectorsize;
    sums::lemma_sectors_nest(logical, len, at, take, s);
    lemma_touched(at, take, s, k);
    lemma_named(volume, root, leaf, logical, len, k, d);
    lemma_hashes(volume, sums::named(volume, logical, len)->Ok_0, ino, at, take, k);
}

/// What is read of an extent that is not packed has, of every sector that the
/// checksum tree has a digest for, bytes of a sector with that digest.
pub proof fn law_a_sector_read_has_the_digest_on_record(
    volume: VolumeModel,
    root: u64,
    leaf: Seq<u8>,
    ino: u64,
    logical: u64,
    len: u64,
    skip: int,
    take: nat,
    k: u64,
    d: Seq<u8>,
)
    requires
        sound(volume),
        on_record(
            volume,
            root,
            leaf,
            (logical - logical % (volume.sb.sectorsize as u64)) as u64,
            k,
            d,
        ),
        0 <= skip,
        skip + take <= len,
        logical + len + volume.sb.sectorsize <= u64::MAX,
        k % (volume.sb.sectorsize as u64) == 0,
        logical + skip < k + volume.sb.sectorsize,
        k < logical + skip + take,
        read::fetched(volume, (PieceModel::Regular { logical, len }), ino, skip, take) is Ok,
    ensures
        as_recorded(
            volume,
            k,
            d,
            (logical + skip) as u64,
            read::fetched(volume, (PieceModel::Regular { logical, len }), ino, skip, take)->Ok_0,
        ),
{
    reveal(read::fetched);
    lemma_held_to_record(
        volume,
        root,
        leaf,
        ino,
        logical,
        len as nat,
        (logical + skip) as u64,
        take,
        k,
        d,
    );
}

/// What is unpacked of a packed extent has, of every sector that the checksum
/// tree has a digest for, bytes of a sector with that digest.
pub proof fn law_a_packed_sector_has_the_digest_on_record(
    volume: VolumeModel,
    root: u64,
    leaf: Seq<u8>,
    ino: u64,
    logical: u64,
    len: u64,
    k: u64,
    d: Seq<u8>,
)
    requires
        sound(volume),
        on_record(
            volume,
            root,
            leaf,
            (logical - logical % (volume.sb.sectorsize as u64)) as u64,
            k,
            d,
        ),
        logical + len + volume.sb.sectorsize <= u64::MAX,
        k % (volume.sb.sectorsize as u64) == 0,
        logical < k + volume.sb.sectorsize,
        k < logical + len,
        read::packed_bytes(volume, ino, logical, len) is Ok,
    ensures
        as_recorded(volume, k, d, logical, read::packed_bytes(volume, ino, logical, len)->Ok_0),
{
    lemma_held_to_record(
        volume,
        root,
        leaf,
        ino,
        logical,
        len as nat,
        logical,
        len as nat,
        k,
        d,
    );
}

} // verus!
