//! Reading the devices of a volume by logical address.
//!
//! A volume lives on one device or on several. What reaches them is a reader:
//! given the position of a device among those the volume was opened with, a
//! byte offset on it and a length, it returns that many bytes.
//!
//! A mapping names the device its physical offset is on. With several devices
//! open every mapping is answered by the device its `devid` names, which is
//! the whole difference between reading a pool and reading one disk of it.

use vstd::prelude::*;

use crate::btree::Image;
use crate::chunk;
use crate::chunk::{ChunkMap, ChunkModel, Mapping};
use crate::error::{Error, ErrorView, Result};
use crate::text;
use crate::text::Part::{Dec, Lit};
use crate::text::{cat5, cat7};

pub mod reach_laws;

verus! {

/// What each device holds: the bytes at an offset, or the reason they cannot
/// be had.
pub type Disk = spec_fn(usize, u64, usize) -> std::result::Result<Seq<u8>, ErrorView>;

/// "Do not check which device a mapping names."
pub const ANY_DEVICE: u64 = u64::MAX;

/// Whether every answer `read` may give is the one `disk` gives.
pub open spec fn tells<R: Fn(usize, u64, usize) -> Result<Vec<u8>>>(read: &R, disk: Disk) -> bool {
    forall|device: usize, at: u64, len: usize, r: Result<Vec<u8>>| #[trigger]
        call_ensures(read, (device, at, len), r) ==> crate::error::viewed(r) == disk(
            device,
            at,
            len,
        )
}

/// Whether `read` may be asked for anything, and answers with as many bytes
/// as it was asked for or not at all.
pub open spec fn reads<R: Fn(usize, u64, usize) -> Result<Vec<u8>>>(read: &R) -> bool {
    &&& forall|device: usize, at: u64, len: usize| #[trigger]
        call_requires(read, (device, at, len))
    &&& forall|device: usize, at: u64, len: usize, r: Result<Vec<u8>>| #[trigger]
        call_ensures(read, (device, at, len), r) ==> (r matches Ok(b) ==> b@.len() == len)
}

/// Where `id` first stands in `ids`, looked for from position `from` on.
pub open spec fn index_from(ids: Seq<u64>, id: u64, from: int) -> Option<int>
    decreases ids.len() - from,
{
    if from < 0 || from >= ids.len() {
        None
    } else if ids[from] == id {
        Some(from)
    } else {
        index_from(ids, id, from + 1)
    }
}

/// Which device answers for the mapping `m` of `logical`.
///
/// `ids` are the device ids of a pool, empty for a volume on one device.
/// `devid` is the one device a single-device read may touch, or
/// [`ANY_DEVICE`].
pub open spec fn answering(ids: Seq<u64>, devid: u64, logical: u64, m: Mapping) -> std::result::Result<
    int,
    ErrorView,
> {
    if ids.len() > 0 {
        match index_from(ids, m.devid, 0) {
            Some(i) => Ok(i),
            None => Err(
                ErrorView::UnsupportedFeature(
                    "the range at "@ + text::dec(logical as nat) + " lives on device "@ + text::dec(
                        m.devid as nat,
                    ) + ", which was not given"@,
                ),
            ),
        }
    } else if devid != ANY_DEVICE && m.devid != devid {
        Err(
            ErrorView::UnsupportedFeature(
                "the range at "@ + text::dec(logical as nat) + " lives on device "@ + text::dec(
                    m.devid as nat,
                ) + " and this filesystem was opened with device "@ + text::dec(devid as nat)
                    + " alone; reading it from the wrong device would return the wrong data rather than fail"@,
            ),
        )
    } else {
        Ok(0)
    }
}

/// The `len` bytes at the logical address `logical`, gathered from wherever
/// the first copy of each part lies.
pub open spec fn gathered(
    disk: Disk,
    ids: Seq<u64>,
    devid: u64,
    map: Seq<ChunkModel>,
    logical: u64,
    len: nat,
) -> std::result::Result<Seq<u8>, ErrorView>
    decreases len,
{
    if len == 0 {
        Ok(Seq::empty())
    } else {
        match chunk::mapped_by(map, logical, 0) {
            Err(e) => Err(e),
            Ok(m) => if m.len == 0 {
                Err(ErrorView::UnmappedLogical(logical))
            } else {
                match answering(ids, devid, logical, m) {
                    Err(e) => Err(e),
                    Ok(device) => {
                        let n: nat = if m.len < len {
                            m.len as nat
                        } else {
                            len
                        };
                        match disk(device as usize, m.physical, n as usize) {
                            Err(e) => Err(e),
                            Ok(head) => match gathered(
                                disk,
                                ids,
                                devid,
                                map,
                                (logical + n) as u64,
                                (len - n) as nat,
                            ) {
                                Err(e) => Err(e),
                                Ok(tail) => Ok(head + tail),
                            },
                        }
                    },
                }
            },
        }
    }
}

/// The bytes a pool holds at a logical address.
pub open spec fn pooled(
    disk: Disk,
    ids: Seq<u64>,
    map: Seq<ChunkModel>,
    logical: u64,
    len: nat,
) -> std::result::Result<Seq<u8>, ErrorView> {
    gathered(disk, ids, ANY_DEVICE, map, logical, len)
}

/// What a pool holds at each logical address, in blocks of `nodesize` bytes.
pub open spec fn pool_image(disk: Disk, ids: Seq<u64>, map: Seq<ChunkModel>, nodesize: u32) -> Image {
    |logical: u64| pooled(disk, ids, map, logical, nodesize as nat)
}

/// Where `id` first stands in `ids`.
pub fn index_of(ids: &[u64], id: u64) -> (r: Option<usize>)
    ensures
        match r {
            Some(i) => index_from(ids@, id, 0) == Some(i as int) && i < ids@.len(),
            None => index_from(ids@, id, 0) is None,
        },
{
    let mut i: usize = 0;
    while i < ids.len()
        invariant
            i <= ids@.len(),
            index_from(ids@, id, 0) == index_from(ids@, id, i as int),
        decreases ids@.len() - i,
    {
        if ids[i] == id {
            return Some(i);
        }
        i = i + 1;
    }
    None
}

/// Which device answers for the mapping `m` of `logical`.
fn answering_device(ids: &[u64], devid: u64, logical: u64, m: &Mapping) -> (r: Result<usize>)
    ensures
        match r {
            Ok(i) => answering(ids@, devid, logical, *m) == Ok::<int, ErrorView>(i as int),
            Err(e) => answering(ids@, devid, logical, *m) == Err::<int, ErrorView>(e@),
        },
{
    if ids.len() > 0 {
        match index_of(ids, m.devid) {
            Some(i) => Ok(i),
            None => Err(
                Error::UnsupportedFeature(
                    cat5(
                        Lit("the range at "),
                        Dec(logical),
                        Lit(" lives on device "),
                        Dec(m.devid),
                        Lit(", which was not given"),
                    ),
                ),
            ),
        }
    } else if devid != ANY_DEVICE && m.devid != devid {
        Err(
            Error::UnsupportedFeature(
                cat7(
                    Lit("the range at "),
                    Dec(logical),
                    Lit(" lives on device "),
                    Dec(m.devid),
                    Lit(" and this filesystem was opened with device "),
                    Dec(devid),
                    Lit(
                        " alone; reading it from the wrong device would return the wrong data rather than fail",
                    ),
                ),
            ),
        )
    } else {
        Ok(0)
    }
}

/// Read `len` bytes at a logical address, each part from the device that
/// answers for it.
fn gather<R: Fn(usize, u64, usize) -> Result<Vec<u8>>>(
    read: &R,
    ids: &[u64],
    devid: u64,
    map: &ChunkMap,
    logical: u64,
    len: usize,
    Ghost(disk): Ghost<Disk>,
) -> (r: Result<Vec<u8>>)
    requires
        reads(read),
        chunk::divisible(map@),
    ensures
        tells(read, disk) ==> crate::error::viewed(r) == gathered(
            disk,
            ids@,
            devid,
            map@,
            logical,
            len as nat,
        ),
        r matches Ok(b) ==> b@.len() == len,
{
    let mut out: Vec<u8> = Vec::new();
    let mut at: u64 = logical;
    while out.len() < len
        invariant
            reads(read),
            chunk::divisible(map@),
            out@.len() <= len,
            tells(read, disk) ==> gathered(disk, ids@, devid, map@, logical, len as nat) == (
            match gathered(disk, ids@, devid, map@, at, (len - out@.len()) as nat) {
                Err(e) => Err(e),
                Ok(tail) => Ok(out@ + tail),
            }),
        decreases len - out@.len(),
    {
        let left: usize = len - out.len();
        let m = match map.map(at) {
            Ok(m) => m,
            Err(e) => return Err(e),
        };
        proof {
            chunk::lemma_mapping_fits(map@, at, 0);
        }
        let device: usize = match answering_device(ids, devid, at, &m) {
            Ok(i) => i,
            Err(e) => return Err(e),
        };
        // A read may span two chunks, so never take more than the mapping
        // says is contiguous.
        let n: usize = if m.len < left as u64 {
            m.len as usize
        } else {
            left
        };
        let part = match read(device, m.physical, n) {
            Ok(part) => part,
            Err(e) => return Err(e),
        };
        let ghost before = out@;
        let mut part = part;
        let ghost head = part@;
        out.append(&mut part);
        at = at + n as u64;
        proof {
            if tells(read, disk) {
                if let Ok(tail) = gathered(disk, ids@, devid, map@, at, (left - n) as nat) {
                    assert(before + (head + tail) =~= out@ + tail);
                }
            }
        }
    }
    assert(out@ + Seq::<u8>::empty() =~= out@);
    Ok(out)
}

/// Read `len` bytes at a logical address through `map`.
pub(crate) fn read_logical<R: Fn(usize, u64, usize) -> Result<Vec<u8>>>(
    read: &R,
    map: &ChunkMap,
    logical: u64,
    len: usize,
    Ghost(disk): Ghost<Disk>,
) -> (r: Result<Vec<u8>>)
    requires
        reads(read),
        chunk::divisible(map@),
    ensures
        tells(read, disk) ==> crate::error::viewed(r) == gathered(
            disk,
            Seq::empty(),
            ANY_DEVICE,
            map@,
            logical,
            len as nat,
        ),
        r matches Ok(b) ==> b@.len() == len,
{
    read_logical_on(read, map, ANY_DEVICE, logical, len, Ghost(disk))
}

/// Read a logical range from whichever device of a pool holds it.
///
/// `ids` is empty for a volume on one device, and then this is
/// [`read_logical`].
pub(crate) fn read_logical_pool<R: Fn(usize, u64, usize) -> Result<Vec<u8>>>(
    read: &R,
    ids: &[u64],
    map: &ChunkMap,
    logical: u64,
    len: usize,
    Ghost(disk): Ghost<Disk>,
) -> (r: Result<Vec<u8>>)
    requires
        reads(read),
        chunk::divisible(map@),
    ensures
        tells(read, disk) ==> crate::error::viewed(r) == pooled(
            disk,
            ids@,
            map@,
            logical,
            len as nat,
        ),
        r matches Ok(b) ==> b@.len() == len,
{
    if ids.len() == 0 {
        assert(ids@ =~= Seq::<u64>::empty());
        return read_logical(read, map, logical, len, Ghost(disk));
    }
    gather(read, ids, ANY_DEVICE, map, logical, len, Ghost(disk))
}

/// Read a logical range, refusing anything that lives on a device other than
/// `devid`. [`ANY_DEVICE`] refuses nothing.
pub(crate) fn read_logical_on<R: Fn(usize, u64, usize) -> Result<Vec<u8>>>(
    read: &R,
    map: &ChunkMap,
    devid: u64,
    logical: u64,
    len: usize,
    Ghost(disk): Ghost<Disk>,
) -> (r: Result<Vec<u8>>)
    requires
        reads(read),
        chunk::divisible(map@),
    ensures
        tells(read, disk) ==> crate::error::viewed(r) == gathered(
            disk,
            Seq::empty(),
            devid,
            map@,
            logical,
            len as nat,
        ),
        r matches Ok(b) ==> b@.len() == len,
{
    let none: Vec<u64> = Vec::new();
    assert(none@ =~= Seq::<u64>::empty());
    gather(read, none.as_slice(), devid, map, logical, len, Ghost(disk))
}

} // verus!
