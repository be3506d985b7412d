//! Block groups and the runs of free bytes in them.

use fs_btrfs::block_group::runs::{merge_adjacent, place_in_run, usable_in};
use fs_btrfs::block_group::{BlockGroup, FreeExtent};
use fs_btrfs::chunk::block_group as flags;

fn run(start: u64, len: u64) -> FreeExtent {
    FreeExtent { start, len }
}

#[test]
fn adjacent_runs_merge_and_separated_ones_do_not() {
    assert_eq!(
        merge_adjacent(vec![run(0, 10), run(10, 5), run(20, 5)]),
        vec![run(0, 15), run(20, 5)]
    );
    assert_eq!(merge_adjacent(vec![]), vec![]);
    assert_eq!(merge_adjacent(vec![run(4096, 8192)]), vec![run(4096, 8192)]);
}

#[test]
fn a_group_reports_its_end_and_what_is_free() {
    let g = BlockGroup {
        start: 22_020_096,
        length: 8_388_608,
        used: 1_048_576,
        flags: flags::METADATA | flags::DUP,
    };
    assert_eq!(g.end(), 22_020_096 + 8_388_608);
    assert_eq!(g.free(), 8_388_608 - 1_048_576);
    assert!(g.holds_metadata());
    assert!(!g.holds_data());
}

#[test]
fn a_mixed_group_holds_data_and_metadata() {
    let g = BlockGroup {
        start: 0,
        length: 1024,
        used: 0,
        flags: flags::DATA | flags::METADATA,
    };
    assert!(g.holds_metadata());
    assert!(g.holds_data());
}

#[test]
fn a_misaligned_run_places_the_block_at_the_next_boundary() {
    assert_eq!(place_in_run(run(1000, 4096 + 3096), 4096), Some(4096));
    assert_eq!(place_in_run(run(0, 4096), 4096), Some(0));
    assert_eq!(place_in_run(run(8192, 40960), 4096), Some(8192));
}

#[test]
fn a_run_that_only_fits_before_alignment_is_refused() {
    assert_eq!(place_in_run(run(1000, 4096), 4096), None);
    assert_eq!(usable_in(run(1000, 4096), 4096), 1000);
    assert_eq!(place_in_run(run(0, 4095), 4096), None);
    assert_eq!(place_in_run(run(0, 0), 4096), None);
}

#[test]
fn usable_length_pays_for_alignment_first() {
    assert_eq!(usable_in(run(0, 8192), 4096), 8192);
    assert_eq!(usable_in(run(4095, 8193), 4096), 8192, "loses one byte");
    assert_eq!(usable_in(run(1, 10), 4096), 0, "nowhere near a boundary");
}

#[test]
fn free_space_saturates_rather_than_wrapping() {
    let g = BlockGroup {
        start: 0,
        length: 1024,
        used: 4096,
        flags: flags::METADATA,
    };
    assert_eq!(g.free(), 0);
}
