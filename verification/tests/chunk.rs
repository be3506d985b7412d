//! Chunk items and the address map.

use fs_btrfs::chunk::{
    block_group, key_type, objectid, Chunk, ChunkMap, ChunkProfile, DiskKey, Mapping,
    CHUNK_HEADER_SIZE, DISK_KEY_SIZE, STRIPE_SIZE,
};
use fs_btrfs::error::Error;
use fs_btrfs::superblock::UUID_SIZE;

const DEV_A: u64 = 1;
const DEV_B: u64 = 2;
const K64: u64 = 64 * 1024;

fn chunk_bytes(
    length: u64,
    stripe_len: u64,
    chunk_type: u64,
    sub_stripes: u16,
    stripes: &[(u64, u64)],
) -> Vec<u8> {
    let mut b = vec![0u8; CHUNK_HEADER_SIZE + stripes.len() * STRIPE_SIZE];
    b[0x00..0x08].copy_from_slice(&length.to_le_bytes());
    b[0x08..0x10].copy_from_slice(&objectid::EXTENT_TREE.to_le_bytes());
    b[0x10..0x18].copy_from_slice(&stripe_len.to_le_bytes());
    b[0x18..0x20].copy_from_slice(&chunk_type.to_le_bytes());
    b[0x20..0x24].copy_from_slice(&4096u32.to_le_bytes());
    b[0x24..0x28].copy_from_slice(&4096u32.to_le_bytes());
    b[0x28..0x2c].copy_from_slice(&4096u32.to_le_bytes());
    b[0x2c..0x2e].copy_from_slice(&(stripes.len() as u16).to_le_bytes());
    b[0x2e..0x30].copy_from_slice(&sub_stripes.to_le_bytes());
    for (i, &(devid, offset)) in stripes.iter().enumerate() {
        let at = CHUNK_HEADER_SIZE + i * STRIPE_SIZE;
        b[at..at + 8].copy_from_slice(&devid.to_le_bytes());
        b[at + 8..at + 16].copy_from_slice(&offset.to_le_bytes());
        b[at + 16..at + 32].copy_from_slice(&[(0xD0 + i as u8); UUID_SIZE]);
    }
    b
}

fn sys_entry(logical: u64, chunk: &[u8]) -> Vec<u8> {
    let mut b = Vec::with_capacity(DISK_KEY_SIZE + chunk.len());
    b.extend_from_slice(&objectid::FIRST_CHUNK_TREE.to_le_bytes());
    b.push(key_type::CHUNK_ITEM);
    b.extend_from_slice(&logical.to_le_bytes());
    b.extend_from_slice(chunk);
    b
}

fn single_chunk(logical: u64, length: u64, physical: u64) -> Chunk {
    Chunk::parse(
        logical,
        &chunk_bytes(length, K64, block_group::SYSTEM, 0, &[(DEV_A, physical)]),
    )
    .unwrap()
}

#[test]
fn chunk_struct_sizes_match_the_on_disk_layout() {
    assert_eq!(DISK_KEY_SIZE, 8 + 1 + 8);
    assert_eq!(CHUNK_HEADER_SIZE, 4 * 8 + 3 * 4 + 2 * 2);
    assert_eq!(STRIPE_SIZE, 8 + 8 + UUID_SIZE);
}

#[test]
fn parses_a_disk_key_with_its_unaligned_offset_field() {
    let mut b = vec![0u8; DISK_KEY_SIZE];
    b[0..8].copy_from_slice(&256u64.to_le_bytes());
    b[8] = key_type::CHUNK_ITEM;
    b[9..17].copy_from_slice(&0xDEAD_BEEF_u64.to_le_bytes());
    let k = DiskKey::parse(&b).unwrap();
    assert_eq!(k.objectid, 256);
    assert_eq!(k.key_type, key_type::CHUNK_ITEM);
    assert_eq!(k.offset, 0xDEAD_BEEF);
}

#[test]
fn rejects_a_truncated_disk_key() {
    assert!(matches!(
        DiskKey::parse(&[0u8; 16]),
        Err(Error::BadChunkItem(_))
    ));
}

#[test]
fn parses_a_single_chunk() {
    let c = single_chunk(0x100_0000, 8 * 1024 * 1024, 0x40_0000);
    assert_eq!(c.logical, 0x100_0000);
    assert_eq!(c.length, 8 * 1024 * 1024);
    assert_eq!(c.stripe_len, K64);
    assert_eq!(c.num_stripes, 1);
    assert_eq!(c.profile().unwrap(), ChunkProfile::Single);
    assert!(c.is_system());
    assert!(!c.is_data());
    assert_eq!(c.encoded_len(), CHUNK_HEADER_SIZE + STRIPE_SIZE);
    assert_eq!(c.num_mirrors(), 1);
    assert_eq!(c.stripes[0].devid, DEV_A);
    assert_eq!(c.stripes[0].dev_uuid, [0xD0; UUID_SIZE]);
}

#[test]
fn maps_a_single_chunk() {
    let c = single_chunk(0x100_0000, 8 * 1024 * 1024, 0x40_0000);
    let m = c.map(0x100_0000).unwrap();
    assert_eq!(m.devid, DEV_A);
    assert_eq!(m.physical, 0x40_0000);
    assert_eq!(m.len, 8 * 1024 * 1024);

    let m = c.map(0x100_0000 + 0x1234).unwrap();
    assert_eq!(m.physical, 0x40_0000 + 0x1234);
    assert_eq!(m.len, 8 * 1024 * 1024 - 0x1234);
}

#[test]
fn rejects_addresses_outside_the_chunk() {
    let c = single_chunk(0x100_0000, 0x10_0000, 0x40_0000);
    assert!(matches!(
        c.map(0x100_0000 - 1),
        Err(Error::UnmappedLogical(_))
    ));
    assert!(c.map(0x100_0000 + 0x10_0000 - 1).is_ok());
    assert!(matches!(
        c.map(0x100_0000 + 0x10_0000),
        Err(Error::UnmappedLogical(_))
    ));
}

#[test]
fn maps_both_copies_of_a_dup_chunk() {
    let c = Chunk::parse(
        0,
        &chunk_bytes(
            8 * K64,
            K64,
            block_group::METADATA | block_group::DUP,
            0,
            &[(DEV_A, 0x10_0000), (DEV_A, 0x90_0000)],
        ),
    )
    .unwrap();
    assert_eq!(c.profile().unwrap(), ChunkProfile::Dup);
    assert_eq!(c.num_mirrors(), 2);

    let a = c.map_mirror(0x1000, 0).unwrap();
    let b = c.map_mirror(0x1000, 1).unwrap();
    assert_eq!((a.devid, a.physical), (DEV_A, 0x10_0000 + 0x1000));
    assert_eq!((b.devid, b.physical), (DEV_A, 0x90_0000 + 0x1000));
    assert_eq!(a.len, 8 * K64 - 0x1000);
}

#[test]
fn maps_both_copies_of_a_raid1_chunk() {
    let c = Chunk::parse(
        0,
        &chunk_bytes(
            8 * K64,
            K64,
            block_group::DATA | block_group::RAID1,
            0,
            &[(DEV_A, 0x10_0000), (DEV_B, 0x20_0000)],
        ),
    )
    .unwrap();
    assert_eq!(c.profile().unwrap(), ChunkProfile::Raid1);
    assert_eq!(c.num_mirrors(), 2);
    assert_eq!(c.map_mirror(K64, 0).unwrap().devid, DEV_A);
    assert_eq!(c.map_mirror(K64, 1).unwrap().devid, DEV_B);
    assert_eq!(c.map_mirror(K64, 0).unwrap().physical, 0x10_0000 + K64);
    assert_eq!(c.map_mirror(K64, 1).unwrap().physical, 0x20_0000 + K64);
    assert!(matches!(c.map_mirror(K64, 2), Err(Error::BadChunkItem(_))));
}

#[test]
fn maps_three_and_four_way_mirrors() {
    for (bits, want, count) in [
        (block_group::RAID1C3, ChunkProfile::Raid1c3, 3usize),
        (block_group::RAID1C4, ChunkProfile::Raid1c4, 4),
    ] {
        let stripes: Vec<(u64, u64)> = (0..count as u64)
            .map(|i| (i + 1, 0x10_0000 * (i + 1)))
            .collect();
        let c = Chunk::parse(
            0,
            &chunk_bytes(8 * K64, K64, block_group::METADATA | bits, 0, &stripes),
        )
        .unwrap();
        assert_eq!(c.profile().unwrap(), want);
        assert_eq!(c.num_mirrors(), count);
        for i in 0..count {
            let m = c.map_mirror(0x800, i).unwrap();
            assert_eq!(m.devid, i as u64 + 1);
            assert_eq!(m.physical, 0x10_0000 * (i as u64 + 1) + 0x800);
        }
        assert!(matches!(
            c.map_mirror(0x800, count),
            Err(Error::BadChunkItem(_))
        ));
    }
}

#[test]
fn maps_a_raid0_chunk_round_robin() {
    let c = Chunk::parse(
        0,
        &chunk_bytes(
            4 * K64,
            K64,
            block_group::DATA | block_group::RAID0,
            0,
            &[(DEV_A, 0x10_0000), (DEV_B, 0x20_0000)],
        ),
    )
    .unwrap();
    assert_eq!(c.profile().unwrap(), ChunkProfile::Raid0);
    assert_eq!(c.num_mirrors(), 1);

    let cases = [
        (0, DEV_A, 0x10_0000),
        (K64, DEV_B, 0x20_0000),
        (2 * K64, DEV_A, 0x10_0000 + K64),
        (3 * K64, DEV_B, 0x20_0000 + K64),
    ];
    for (logical, devid, physical) in cases {
        let m = c.map(logical).unwrap();
        assert_eq!(
            (m.devid, m.physical),
            (devid, physical),
            "logical {logical:#x}"
        );
        assert_eq!(m.len, K64, "a whole stripe should be contiguous");
    }
}

#[test]
fn raid0_mapping_length_stops_at_the_stripe_boundary() {
    let c = Chunk::parse(
        0,
        &chunk_bytes(
            4 * K64,
            K64,
            block_group::DATA | block_group::RAID0,
            0,
            &[(DEV_A, 0x10_0000), (DEV_B, 0x20_0000)],
        ),
    )
    .unwrap();
    let m = c.map(2 * K64 + 0x100).unwrap();
    assert_eq!(m.devid, DEV_A);
    assert_eq!(m.physical, 0x10_0000 + K64 + 0x100);
    assert_eq!(m.len, K64 - 0x100);
}

#[test]
fn striped_mapping_length_is_also_clipped_by_the_chunk_end() {
    let c = Chunk::parse(
        0,
        &chunk_bytes(
            2 * K64 + 0x1000,
            K64,
            block_group::DATA | block_group::RAID0,
            0,
            &[(DEV_A, 0x10_0000), (DEV_B, 0x20_0000)],
        ),
    )
    .unwrap();
    let m = c.map(2 * K64).unwrap();
    assert_eq!(m.devid, DEV_A);
    assert_eq!(m.physical, 0x10_0000 + K64);
    assert_eq!(m.len, 0x1000);
}

#[test]
fn maps_a_raid10_chunk() {
    let c = Chunk::parse(
        0,
        &chunk_bytes(
            4 * K64,
            K64,
            block_group::DATA | block_group::RAID10,
            2,
            &[
                (1, 0x10_0000),
                (2, 0x20_0000),
                (3, 0x30_0000),
                (4, 0x40_0000),
            ],
        ),
    )
    .unwrap();
    assert_eq!(c.profile().unwrap(), ChunkProfile::Raid10);
    assert_eq!(c.num_mirrors(), 2);

    assert_eq!(
        c.map_mirror(0, 0).unwrap(),
        Mapping {
            devid: 1,
            physical: 0x10_0000,
            len: K64
        }
    );
    assert_eq!(
        c.map_mirror(0, 1).unwrap(),
        Mapping {
            devid: 2,
            physical: 0x20_0000,
            len: K64
        }
    );
    assert_eq!(
        c.map_mirror(K64, 0).unwrap(),
        Mapping {
            devid: 3,
            physical: 0x30_0000,
            len: K64
        }
    );
    assert_eq!(
        c.map_mirror(K64, 1).unwrap(),
        Mapping {
            devid: 4,
            physical: 0x40_0000,
            len: K64
        }
    );
    assert_eq!(
        c.map_mirror(2 * K64, 0).unwrap(),
        Mapping {
            devid: 1,
            physical: 0x10_0000 + K64,
            len: K64
        }
    );
    assert!(matches!(c.map_mirror(0, 2), Err(Error::BadChunkItem(_))));
}

#[test]
fn refuses_to_map_raid5_and_raid6() {
    for (bits, stripes) in [(block_group::RAID5, 3usize), (block_group::RAID6, 4)] {
        let s: Vec<(u64, u64)> = (0..stripes as u64)
            .map(|i| (i + 1, 0x10_0000 * (i + 1)))
            .collect();
        let c = Chunk::parse(
            0,
            &chunk_bytes(4 * K64, K64, block_group::DATA | bits, 0, &s),
        )
        .unwrap();
        assert!(
            matches!(c.map(0), Err(Error::UnsupportedProfile(_))),
            "profile {:?} should be refused",
            c.profile()
        );
    }
}

#[test]
fn rejects_zero_stripes() {
    let mut b = chunk_bytes(K64, K64, block_group::SYSTEM, 0, &[(DEV_A, 0)]);
    b[0x2c..0x2e].copy_from_slice(&0u16.to_le_bytes());
    assert!(matches!(Chunk::parse(0, &b), Err(Error::BadChunkItem(_))));
}

#[test]
fn rejects_a_truncated_stripe_array() {
    let b = chunk_bytes(K64, K64, block_group::SYSTEM, 0, &[(DEV_A, 0)]);
    assert!(matches!(
        Chunk::parse(0, &b[..b.len() - 1]),
        Err(Error::BadChunkItem(_))
    ));
    assert!(matches!(
        Chunk::parse(0, &b[..CHUNK_HEADER_SIZE - 1]),
        Err(Error::BadChunkItem(_))
    ));
}

#[test]
fn rejects_two_profile_bits_at_once() {
    let b = chunk_bytes(
        8 * K64,
        K64,
        block_group::DATA | block_group::RAID1 | block_group::RAID0,
        0,
        &[(DEV_A, 0), (DEV_B, 0)],
    );
    assert!(matches!(Chunk::parse(0, &b), Err(Error::BadChunkItem(_))));
}

#[test]
fn rejects_a_chunk_that_says_nothing_about_what_it_holds() {
    let b = chunk_bytes(8 * K64, K64, 0, 0, &[(DEV_A, 0)]);
    assert!(matches!(Chunk::parse(0, &b), Err(Error::BadChunkItem(_))));
}

#[test]
fn rejects_stripe_counts_that_disagree_with_the_profile() {
    let b = chunk_bytes(
        8 * K64,
        K64,
        block_group::DATA | block_group::RAID1,
        0,
        &[(1, 0), (2, 0), (3, 0)],
    );
    assert!(matches!(Chunk::parse(0, &b), Err(Error::BadChunkItem(_))));

    let b = chunk_bytes(8 * K64, K64, block_group::DATA, 0, &[(1, 0), (2, 0)]);
    assert!(matches!(Chunk::parse(0, &b), Err(Error::BadChunkItem(_))));

    let b = chunk_bytes(
        8 * K64,
        K64,
        block_group::DATA | block_group::RAID0,
        0,
        &[(1, 0)],
    );
    assert!(matches!(Chunk::parse(0, &b), Err(Error::BadChunkItem(_))));
}

#[test]
fn rejects_raid10_with_a_bad_sub_stripe_count() {
    let b = chunk_bytes(
        8 * K64,
        K64,
        block_group::DATA | block_group::RAID10,
        0,
        &[(1, 0), (2, 0), (3, 0), (4, 0)],
    );
    assert!(matches!(Chunk::parse(0, &b), Err(Error::BadChunkItem(_))));

    let b = chunk_bytes(
        8 * K64,
        K64,
        block_group::DATA | block_group::RAID10,
        2,
        &[(1, 0), (2, 0), (3, 0)],
    );
    assert!(matches!(Chunk::parse(0, &b), Err(Error::BadChunkItem(_))));
}

#[test]
fn rejects_degenerate_geometry() {
    let b = chunk_bytes(0, K64, block_group::SYSTEM, 0, &[(DEV_A, 0)]);
    assert!(matches!(Chunk::parse(0, &b), Err(Error::BadChunkItem(_))));

    for bad in [0u64, 3 * 1024] {
        let b = chunk_bytes(K64, bad, block_group::SYSTEM, 0, &[(DEV_A, 0)]);
        assert!(
            matches!(Chunk::parse(0, &b), Err(Error::BadChunkItem(_))),
            "stripe_len {bad} should have been refused"
        );
    }
}

#[test]
fn rejects_a_logical_range_that_overflows() {
    let b = chunk_bytes(K64, K64, block_group::SYSTEM, 0, &[(DEV_A, 0)]);
    assert!(matches!(
        Chunk::parse(u64::MAX - 1024, &b),
        Err(Error::BadChunkItem(_))
    ));
}

#[test]
fn geometry_validation_catches_misalignment() {
    let c = single_chunk(0x100_0000, 0x10_0000, 0x40_0000);
    assert!(c.validate_geometry(4096).is_ok());

    let c = single_chunk(0x100_0000 + 512, 0x10_0000, 0x40_0000);
    assert!(matches!(
        c.validate_geometry(4096),
        Err(Error::BadChunkItem(_))
    ));

    let c = single_chunk(0x100_0000, 0x10_0000 + 512, 0x40_0000);
    assert!(matches!(
        c.validate_geometry(4096),
        Err(Error::BadChunkItem(_))
    ));

    let c = single_chunk(0x100_0000, 0x10_0000, 0x40_0000 + 512);
    assert!(matches!(
        c.validate_geometry(4096),
        Err(Error::BadChunkItem(_))
    ));
}

#[test]
fn bootstraps_a_map_from_a_sys_chunk_array() {
    let mut array = Vec::new();
    array.extend_from_slice(&sys_entry(
        0x100_0000,
        &chunk_bytes(
            0x40_0000,
            K64,
            block_group::SYSTEM,
            0,
            &[(DEV_A, 0x100_0000)],
        ),
    ));
    array.extend_from_slice(&sys_entry(
        0x200_0000,
        &chunk_bytes(
            0x40_0000,
            K64,
            block_group::SYSTEM | block_group::DUP,
            0,
            &[(DEV_A, 0x300_0000), (DEV_A, 0x400_0000)],
        ),
    ));

    let map = ChunkMap::from_sys_chunk_array(&array, 4096).unwrap();
    assert_eq!(map.len(), 2);
    assert!(!map.is_empty());
    assert_eq!(map.chunks()[0].logical, 0x100_0000);
    assert_eq!(map.chunks()[1].profile().unwrap(), ChunkProfile::Dup);

    assert_eq!(map.map(0x100_1000).unwrap().physical, 0x100_1000);
    assert_eq!(map.map(0x200_1000).unwrap().physical, 0x300_1000);
    assert_eq!(map.map_mirror(0x200_1000, 1).unwrap().physical, 0x400_1000);
    assert!(map.covers(0x100_0000));
    assert!(!map.covers(0x180_0000));
    assert!(matches!(
        map.map(0x180_0000),
        Err(Error::UnmappedLogical(_))
    ));
}

#[test]
fn an_empty_sys_chunk_array_yields_an_empty_map() {
    let map = ChunkMap::from_sys_chunk_array(&[], 4096).unwrap();
    assert!(map.is_empty());
    assert!(matches!(map.map(0), Err(Error::UnmappedLogical(0))));
}

#[test]
fn rejects_a_sys_chunk_array_entry_that_is_not_a_chunk_item() {
    let chunk = chunk_bytes(K64, K64, block_group::SYSTEM, 0, &[(DEV_A, 0)]);
    let mut array = sys_entry(0, &chunk);
    array[8] = key_type::DEV_ITEM;
    assert!(matches!(
        ChunkMap::from_sys_chunk_array(&array, 4096),
        Err(Error::BadChunkItem(_))
    ));
}

#[test]
fn rejects_a_sys_chunk_array_entry_filed_under_the_wrong_objectid() {
    let chunk = chunk_bytes(K64, K64, block_group::SYSTEM, 0, &[(DEV_A, 0)]);
    let mut array = sys_entry(0, &chunk);
    array[0..8].copy_from_slice(&7u64.to_le_bytes());
    assert!(matches!(
        ChunkMap::from_sys_chunk_array(&array, 4096),
        Err(Error::BadChunkItem(_))
    ));
}

#[test]
fn rejects_a_truncated_sys_chunk_array() {
    let chunk = chunk_bytes(K64, K64, block_group::SYSTEM, 0, &[(DEV_A, 0)]);
    let array = sys_entry(0, &chunk);
    for cut in [
        1usize,
        DISK_KEY_SIZE - 1,
        DISK_KEY_SIZE + 4,
        array.len() - 1,
    ] {
        assert!(
            matches!(
                ChunkMap::from_sys_chunk_array(&array[..cut], 4096),
                Err(Error::BadChunkItem(_))
            ),
            "array truncated to {cut} bytes should have been refused"
        );
    }
}

#[test]
fn rejects_overlapping_chunks() {
    let mut map = ChunkMap::new();
    map.insert(single_chunk(0x100_0000, 0x10_0000, 0)).unwrap();
    assert!(matches!(
        map.insert(single_chunk(0x100_8000, 0x10_0000, 0)),
        Err(Error::BadChunkItem(_))
    ));
    assert!(matches!(
        map.insert(single_chunk(0x0F0_0000, 0x20_0000, 0)),
        Err(Error::BadChunkItem(_))
    ));
    map.insert(single_chunk(0x110_0000, 0x10_0000, 0)).unwrap();
    map.insert(single_chunk(0x0F0_0000, 0x10_0000, 0)).unwrap();
    assert_eq!(map.len(), 3);
}

#[test]
fn keeps_chunks_ordered_however_they_arrive() {
    let mut map = ChunkMap::new();
    for logical in [0x300_0000, 0x100_0000, 0x200_0000] {
        map.insert(single_chunk(logical, 0x10_0000, logical))
            .unwrap();
    }
    let order: Vec<u64> = map.chunks().iter().map(|c| c.logical).collect();
    assert_eq!(order, vec![0x100_0000, 0x200_0000, 0x300_0000]);
    assert_eq!(map.map(0x200_0000).unwrap().physical, 0x200_0000);
}

#[test]
fn the_order_of_inserts_does_not_matter() {
    let at = [0x100_0000u64, 0x200_0000, 0x210_0000];
    let built = |order: [usize; 3]| {
        let mut map = ChunkMap::new();
        for i in order {
            map.insert(single_chunk(at[i], 0x10_0000, at[i])).unwrap();
        }
        map.chunks().to_vec()
    };
    let first = built([0, 1, 2]);
    assert_eq!(first.len(), 3);
    for order in [[0, 2, 1], [1, 0, 2], [1, 2, 0], [2, 0, 1], [2, 1, 0]] {
        assert_eq!(built(order), first);
    }
}

#[test]
fn an_accepted_array_is_its_entries_end_to_end() {
    let one = chunk_bytes(K64, K64, block_group::SYSTEM, 0, &[(DEV_A, 0)]);
    let two = chunk_bytes(
        K64,
        K64,
        block_group::SYSTEM | block_group::DUP,
        0,
        &[(DEV_A, K64), (DEV_A, 2 * K64)],
    );
    let first = sys_entry(4 * K64, &one);
    let array = [first.clone(), sys_entry(K64, &two)].concat();
    let map = ChunkMap::from_sys_chunk_array(&array, 4096).unwrap();
    let taken: usize = map.chunks().iter().map(|c| DISK_KEY_SIZE + c.encoded_len()).sum();
    assert_eq!(taken, array.len());
    for cut in 1..array.len() {
        let r = ChunkMap::from_sys_chunk_array(&array[..cut], 4096);
        if cut == first.len() {
            assert_eq!(r.unwrap().len(), 1);
        } else {
            assert!(matches!(r, Err(Error::BadChunkItem(_))), "cut at {cut}");
        }
    }
}

#[test]
fn chunk_lookup_handles_the_boundaries() {
    let mut map = ChunkMap::new();
    map.insert(single_chunk(0x100_0000, 0x10_0000, 0)).unwrap();
    map.insert(single_chunk(0x200_0000, 0x10_0000, 0)).unwrap();
    assert!(map.chunk_for(0x0FF_FFFF).is_none());
    assert!(map.chunk_for(0x100_0000).is_some());
    assert!(map.chunk_for(0x10F_FFFF).is_some());
    assert!(map.chunk_for(0x110_0000).is_none());
    assert!(map.chunk_for(0x200_0000).is_some());
    assert!(map.chunk_for(u64::MAX).is_none());
}

#[test]
fn profile_names_and_predicates() {
    assert_eq!(ChunkProfile::Raid1c3.name(), "raid1c3");
    assert!(ChunkProfile::Dup.is_mirrored());
    assert!(ChunkProfile::Raid1c4.is_mirrored());
    assert!(!ChunkProfile::Raid0.is_mirrored());
    assert!(ChunkProfile::Raid10.is_striped());
    assert!(!ChunkProfile::Single.is_striped());
}

#[test]
fn profile_derivation_covers_every_defined_bit() {
    let cases = [
        (0, ChunkProfile::Single),
        (block_group::DUP, ChunkProfile::Dup),
        (block_group::RAID0, ChunkProfile::Raid0),
        (block_group::RAID1, ChunkProfile::Raid1),
        (block_group::RAID1C3, ChunkProfile::Raid1c3),
        (block_group::RAID1C4, ChunkProfile::Raid1c4),
        (block_group::RAID10, ChunkProfile::Raid10),
        (block_group::RAID5, ChunkProfile::Raid5),
        (block_group::RAID6, ChunkProfile::Raid6),
    ];
    for (bits, want) in cases {
        assert_eq!(
            ChunkProfile::from_type(block_group::DATA | bits).unwrap(),
            want
        );
    }
}
