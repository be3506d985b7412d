//! Which device is asked.

use vstd::prelude::*;

use crate::chunk;
use crate::chunk::{ChunkModel, Mapping};
use crate::device;
use crate::device::Disk;
use crate::error::ErrorView;

verus! {

/// Where one device was given, and its id is known, what lies on another is
/// refused rather than read from it, and what lies on it is read from it.
pub proof fn law_what_lies_on_another_device_is_not_read(
    disk: Disk,
    map: Seq<ChunkModel>,
    devid: u64,
    at: u64,
    len: nat,
    m: Mapping,
)
    requires
        len > 0,
        devid < 0xFFFF_FFFF_FFFF_FFFF,
        chunk::mapped_by(map, at, 0) == Ok::<Mapping, ErrorView>(m),
        m.len > 0,
    ensures
        m.devid != devid ==> (device::gathered(disk, Seq::empty(), devid, map, at, len) matches Err(
            e,
        ) && e is UnsupportedFeature),
        m.devid == devid ==> device::gathered(disk, Seq::empty(), devid, map, at, 1) == disk(
            0,
            m.physical,
            1,
        ),
{
    if m.devid == devid {
        assert(device::gathered(
            disk,
            Seq::empty(),
            devid,
            map,
            (at + 1) as u64,
            0,
        ) == Ok::<Seq<u8>, ErrorView>(Seq::empty()));
        if let Ok(head) = disk(0, m.physical, 1) {
            assert(head + Seq::<u8>::empty() =~= head);
        }
    }
}

} // verus!
