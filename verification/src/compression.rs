//! Decoding compressed extents.
//!
//! The unit of compression is the whole extent, not the part of it a given
//! reference covers: `disk_bytenr` and `disk_num_bytes` name the compressed
//! run, `ram_bytes` is what that run decodes to, and a reference's `offset`
//! and `num_bytes` index into the **decoded** bytes.
//!
//! A zlib or zstd extent is one ordinary stream of that format. LZO1X has no
//! container, so Btrfs supplies its own framing:
//!
//! ```text
//! [ u32 total ][ u32 len ][ segment ][ u32 len ][ segment ] ... padding ...
//! |<--------------- sector ------------------>|<----- next sector ----->|
//! ```
//!
//! The extent opens with its total compressed length, counting those four
//! bytes. Each segment is its own compressed length, then that many bytes. A
//! segment's length never straddles a sector boundary: where what remains of
//! a sector cannot hold one, the next segment begins at the following
//! boundary.

use vstd::prelude::*;
use vstd::slice::{slice_subrange, slice_to_vec};

use crate::bytes;
use crate::bytes::le32;
use crate::error::{Error, ErrorView, Result};
use crate::text;
use crate::text::Part::{Dec, Lit};
use crate::text::{cat2, cat3, cat4, cat5, cat6, cat7};
use crate::zstd;
use crate::zstd::is_bounded;

pub mod frame_laws;

verus! {

/// The most bytes a compressed extent can take on disk: the unit Btrfs
/// compresses in.
pub const MAX_COMPRESSED: u64 = 131072;

/// Length prefix width in the LZO framing.
pub const LZO_LEN: usize = 4;

/// Compression type as stored in `btrfs_file_extent_item.compression`.
#[derive(Debug, Clone, Copy, PartialEq, Eq, Structural)]
pub enum Compression {
    /// Stored as written.
    Stored,
    /// zlib, i.e. DEFLATE inside a zlib wrapper.
    Zlib,
    /// LZO1X, in a segmented framing.
    Lzo,
    /// zstd.
    Zstd,
}

/// The algorithm the byte in a file-extent item names.
pub open spec fn algorithm(v: u8) -> std::result::Result<Compression, ErrorView> {
    if v == 0 {
        Ok(Compression::Stored)
    } else if v == 1 {
        Ok(Compression::Zlib)
    } else if v == 2 {
        Ok(Compression::Lzo)
    } else if v == 3 {
        Ok(Compression::Zstd)
    } else {
        Err(
            ErrorView::UnsupportedFeature(
                "extent uses compression type "@ + text::dec(v as nat)
                    + ", which is not one of zlib (1), LZO (2) or zstd (3)"@,
            ),
        )
    }
}

impl Compression {
    /// The algorithm's name in a message.
    pub open spec fn label(self) -> Seq<char> {
        match self {
            Compression::Stored => "None"@,
            Compression::Zlib => "Zlib"@,
            Compression::Lzo => "Lzo"@,
            Compression::Zstd => "Zstd"@,
        }
    }

    fn name(self) -> (out: &'static str)
        ensures
            out@ == self.label(),
    {
        match self {
            Compression::Stored => "None",
            Compression::Zlib => "Zlib",
            Compression::Lzo => "Lzo",
            Compression::Zstd => "Zstd",
        }
    }

    /// Interpret the byte in a file-extent item. An unrecognised value is
    /// refused rather than treated as "none".
    pub fn from_byte(v: u8) -> (r: Result<Self>)
        ensures
            crate::error::seen(r) == algorithm(v),
    {
        match v {
            0 => Ok(Compression::Stored),
            1 => Ok(Compression::Zlib),
            2 => Ok(Compression::Lzo),
            3 => Ok(Compression::Zstd),
            other => Err(
                Error::UnsupportedFeature(
                    cat3(
                        Lit("extent uses compression type "),
                        Dec(other as u64),
                        Lit(", which is not one of zlib (1), LZO (2) or zstd (3)"),
                    ),
                ),
            ),
        }
    }

    /// Whether data stored under this type needs decoding.
    pub fn is_compressed(self) -> (yes: bool)
        ensures
            yes == (self != Compression::Stored),
    {
        self != Compression::Stored
    }
}

/// What inflating a zlib stream into at most `limit` bytes gives: the bytes,
/// or the status it stopped with and how many bytes it had room for by then.
pub uninterp spec fn inflated(input: Seq<u8>, limit: usize) -> std::result::Result<
    Seq<u8>,
    (Seq<char>, usize),
>;

/// `miniz_oxide::inflate::decompress_to_vec_zlib_with_limit`. Claimed: the
/// answer is a function of the input and the limit, and decoded data is never
/// longer than the limit. The limit is held to what a vector can be long.
#[verifier::external_body]
fn inflate(input: &[u8], limit: usize) -> (r: std::result::Result<Vec<u8>, (String, usize)>)
    requires
        limit <= isize::MAX,
    ensures
        match r {
            Ok(out) => inflated(input@, limit) == Ok::<Seq<u8>, (Seq<char>, usize)>(out@)
                && out@.len() <= limit,
            Err((status, n)) => inflated(input@, limit) == Err::<Seq<u8>, (Seq<char>, usize)>(
                (status@, n),
            ),
        },
{
    match miniz_oxide::inflate::decompress_to_vec_zlib_with_limit(input, limit) {
        Ok(out) => Ok(out),
        Err(e) => Err((format!("{:?}", e.status), e.output.len())),
    }
}

/// What decoding the first zstd frame of `input`, stopping at `limit` bytes,
/// gives: the bytes, or whether the frame could be opened and the complaint.
pub uninterp spec fn unzstd(input: Seq<u8>, limit: usize) -> std::result::Result<
    Seq<u8>,
    (bool, Seq<char>),
>;

/// `ruzstd::decoding::StreamingDecoder`, made over `input` and read to its
/// end through `std::io::Read::take`. Claimed: the answer is a function of the
/// input and the limit, and decoded data is never longer than the limit.
///
/// The decoder adds up in a `u32` what the sequences of a block copy and the
/// literals it holds, and panics where the sum does not fit; and it keeps what
/// it decodes in a buffer that cannot be laid out past half the address space.
/// A frame that could come to either is left out.
#[verifier::external_body]
fn zstd_decode(input: &[u8], limit: usize) -> (r: std::result::Result<Vec<u8>, (bool, String)>)
    requires
        limit <= isize::MAX,
        zstd::bounded(input@),
    ensures
        match r {
            Ok(out) => unzstd(input@, limit) == Ok::<Seq<u8>, (bool, Seq<char>)>(out@)
                && out@.len() <= limit,
            Err((opened, e)) => unzstd(input@, limit) == Err::<Seq<u8>, (bool, Seq<char>)>(
                (opened, e@),
            ),
        },
{
    let mut out = Vec::new();
    match ruzstd::decoding::StreamingDecoder::new(input) {
        Err(e) => Err((false, format!("{e}"))),
        Ok(decoder) => {
            let mut limited = std::io::Read::take(decoder, limit as u64);
            match std::io::Read::read_to_end(&mut limited, &mut out) {
                Ok(_) => Ok(out),
                Err(e) => Err((true, format!("{e}"))),
            }
        }
    }
}

/// What decoding an LZO1X stream into exactly `want` bytes gives.
pub uninterp spec fn unlzo(input: Seq<u8>, want: usize) -> std::result::Result<
    Seq<u8>,
    Seq<char>,
>;

/// `lzo1x::decompress`, which fills the buffer it is given or refuses.
/// Claimed: the answer is a function of the input and the length asked for,
/// and decoded data has exactly that length.
#[verifier::external_body]
fn lzo_decode(input: &[u8], want: usize) -> (r: std::result::Result<Vec<u8>, String>)
    requires
        want <= isize::MAX,
    ensures
        match r {
            Ok(out) => unlzo(input@, want) == Ok::<Seq<u8>, Seq<char>>(out@) && out@.len() == want,
            Err(e) => unlzo(input@, want) == Err::<Seq<u8>, Seq<char>>(e@),
        },
{
    let mut out = vec![0u8; want];
    match lzo1x::decompress(input, &mut out) {
        Ok(()) => Ok(out),
        Err(e) => Err(format!("{e}")),
    }
}

pub open spec fn bad_extent(message: Seq<char>) -> std::result::Result<Seq<u8>, ErrorView> {
    Err(ErrorView::BadSuperblock(message))
}

/// What a zlib extent decodes to, given what inflating it gave.
pub open spec fn zlib_outcome(inflated: std::result::Result<Seq<u8>, (Seq<char>, usize)>) -> std::result::Result<
    Seq<u8>,
    ErrorView,
> {
    match inflated {
        Ok(out) => Ok(out),
        Err((status, n)) => bad_extent(
            "zlib extent failed to decode ("@ + status + ") after "@ + text::dec(n as nat)
                + " bytes"@,
        ),
    }
}

/// What a zstd extent decodes to, given what decoding its frame gave.
pub open spec fn zstd_outcome(decoded: std::result::Result<Seq<u8>, (bool, Seq<char>)>) -> std::result::Result<
    Seq<u8>,
    ErrorView,
> {
    match decoded {
        Ok(out) => Ok(out),
        Err((opened, e)) => if opened {
            bad_extent("zstd extent failed to decode: "@ + e)
        } else {
            bad_extent("zstd extent has no readable frame: "@ + e)
        },
    }
}

/// What a zstd extent decodes to. A frame that could outgrow its decoder is
/// refused unread. Only what a block says of itself is looked at, so one of
/// at least 32,768 sequences written in 65,535 bytes or more is refused even
/// where its sequences copy little.
pub open spec fn zstd_extent(input: Seq<u8>, ram_bytes: usize) -> std::result::Result<
    Seq<u8>,
    ErrorView,
> {
    if zstd::bounded(input) {
        zstd_outcome(unzstd(input, ram_bytes))
    } else {
        bad_extent("zstd extent failed to decode: a block of it could outgrow the decoder"@)
    }
}

/// What an LZO segment at `from` decodes to, given what decoding it gave.
pub open spec fn lzo_segment(from: nat, decoded: std::result::Result<Seq<u8>, Seq<char>>) -> std::result::Result<
    Seq<u8>,
    ErrorView,
> {
    match decoded {
        Ok(out) => Ok(out),
        Err(e) => bad_extent("LZO segment at "@ + text::dec(from) + " failed to decode: "@ + e),
    }
}

/// How much of an extent lies past position `at`.
pub open spec fn left_of(total: int, at: int) -> int {
    if at < total {
        total - at
    } else {
        0
    }
}

/// What the segments of an LZO extent from position `at` on add to `out`.
pub open spec fn segments_from(
    input: Seq<u8>,
    total: int,
    ram_bytes: usize,
    sectorsize: usize,
    at: int,
    out: Seq<u8>,
) -> std::result::Result<Seq<u8>, ErrorView>
    decreases left_of(total, at),
{
    if at < 0 || at >= total || out.len() >= ram_bytes || sectorsize < LZO_LEN {
        Ok(out)
    } else {
        let room: int = sectorsize - at % (sectorsize as int);
        if room < LZO_LEN {
            if room <= 0 {
                Ok(out)
            } else {
                segments_from(input, total, ram_bytes, sectorsize, at + room, out)
            }
        } else if at + LZO_LEN > input.len() {
            bad_extent(
                "LZO extent ended at "@ + text::dec(input.len())
                    + " with a length prefix expected at "@ + text::dec(at as nat),
            )
        } else {
            let seg_len: int = bytes::u32_at(input, at) as int;
            let from: int = at + LZO_LEN;
            let left: int = ram_bytes - out.len();
            let want: usize = if sectorsize < left {
                sectorsize
            } else {
                left as usize
            };
            if seg_len == 0 {
                bad_extent("LZO extent contains a zero-length segment"@)
            } else if from + seg_len > input.len() {
                bad_extent(
                    "LZO segment at "@ + text::dec(from as nat) + " runs "@ + text::dec(
                        seg_len as nat,
                    ) + " bytes past the end of a "@ + text::dec(input.len()) + "-byte extent"@,
                )
            } else {
                match lzo_segment(from as nat, unlzo(input.subrange(from, from + seg_len), want)) {
                    Err(e) => Err(e),
                    Ok(chunk) => segments_from(
                        input,
                        total,
                        ram_bytes,
                        sectorsize,
                        from + seg_len,
                        out + chunk,
                    ),
                }
            }
        }
    }
}

/// What an LZO extent decodes to.
pub open spec fn lzo_outcome(input: Seq<u8>, ram_bytes: usize, sectorsize: usize) -> std::result::Result<
    Seq<u8>,
    ErrorView,
> {
    if sectorsize < LZO_LEN {
        bad_extent(
            "sector size "@ + text::dec(sectorsize as nat)
                + " is too small to hold an LZO segment header"@,
        )
    } else if input.len() < LZO_LEN {
        bad_extent(
            "LZO extent is "@ + text::dec(input.len())
                + " bytes, too short to hold its length header"@,
        )
    } else if bytes::u32_at(input, 0) > input.len() {
        bad_extent(
            "LZO extent declares "@ + text::dec(bytes::u32_at(input, 0) as nat)
                + " compressed bytes but only "@ + text::dec(input.len()) + " are present"@,
        )
    } else {
        segments_from(
            input,
            bytes::u32_at(input, 0) as int,
            ram_bytes,
            sectorsize,
            LZO_LEN as int,
            Seq::empty(),
        )
    }
}

/// What an extent decodes to, before its length is seen to.
pub open spec fn decoded(algo: Compression, input: Seq<u8>, ram_bytes: usize, sectorsize: usize) -> std::result::Result<
    Seq<u8>,
    ErrorView,
> {
    match algo {
        Compression::Stored => Ok(input),
        Compression::Zlib => zlib_outcome(inflated(input, ram_bytes)),
        Compression::Lzo => lzo_outcome(input, ram_bytes, sectorsize),
        Compression::Zstd => zstd_extent(input, ram_bytes),
    }
}

/// Decoded bytes brought to the length the item records: zeros are added, and
/// more than that length is refused.
pub open spec fn fitted(algo: Compression, out: Seq<u8>, ram_bytes: usize) -> std::result::Result<
    Seq<u8>,
    ErrorView,
> {
    if out.len() > ram_bytes {
        bad_extent(
            algo.label() + " extent decoded to "@ + text::dec(out.len()) + " bytes, more than the "@
                + text::dec(ram_bytes as nat) + " it records"@,
        )
    } else {
        Ok(out + bytes::zeros((ram_bytes - out.len()) as nat))
    }
}

/// What decoding an extent gives.
pub open spec fn decompressed(
    algo: Compression,
    input: Seq<u8>,
    ram_bytes: usize,
    sectorsize: usize,
) -> std::result::Result<Seq<u8>, ErrorView> {
    match decoded(algo, input, ram_bytes, sectorsize) {
        Err(e) => Err(e),
        Ok(out) => fitted(algo, out, ram_bytes),
    }
}

/// Decode `input` into exactly `ram_bytes` bytes.
///
/// `sectorsize` is the filesystem's sector size, which the LZO framing is laid
/// out against and the other two ignore. The decoded length is checked rather
/// than trusted; a decoder that stops early is padded with zeros.
pub fn decompress(algo: Compression, input: &[u8], ram_bytes: usize, sectorsize: usize) -> (r: Result<
    Vec<u8>,
>)
    requires
        ram_bytes <= isize::MAX,
    ensures
        crate::error::viewed(r) == decompressed(algo, input@, ram_bytes, sectorsize),
        r matches Ok(out) ==> out@.len() == ram_bytes,
{
    let out = match algo {
        Compression::Stored => slice_to_vec(input),
        Compression::Zlib => match decompress_zlib(input, ram_bytes) {
            Ok(out) => out,
            Err(e) => return Err(e),
        },
        Compression::Lzo => match decompress_lzo(input, ram_bytes, sectorsize) {
            Ok(out) => out,
            Err(e) => return Err(e),
        },
        Compression::Zstd => match decompress_zstd(input, ram_bytes) {
            Ok(out) => out,
            Err(e) => return Err(e),
        },
    };
    fit(algo, out, ram_bytes)
}

/// Bring decoded bytes to the length the item records.
pub fn fit(algo: Compression, out: Vec<u8>, ram_bytes: usize) -> (r: Result<Vec<u8>>)
    ensures
        crate::error::viewed(r) == fitted(algo, out@, ram_bytes),
        r matches Ok(padded) ==> padded@.len() == ram_bytes,
{
    if out.len() > ram_bytes {
        return Err(
            Error::BadSuperblock(
                cat6(
                    Lit(algo.name()),
                    Lit(" extent decoded to "),
                    Dec(out.len() as u64),
                    Lit(" bytes, more than the "),
                    Dec(ram_bytes as u64),
                    Lit(" it records"),
                ),
            ),
        );
    }
    let ghost before = out@;
    let mut out = out;
    out.resize(ram_bytes, 0u8);
    proof {
        let padded = before + bytes::zeros((ram_bytes - before.len()) as nat);
        assert forall|i: int| 0 <= i < ram_bytes implies out@[i] == padded[i] by {
            if i < before.len() {
                assert(out@.subrange(0, before.len() as int)[i] == before[i]);
            }
        }
        assert(out@ =~= padded);
    }
    Ok(out)
}

fn decompress_zlib(input: &[u8], ram_bytes: usize) -> (r: Result<Vec<u8>>)
    requires
        ram_bytes <= isize::MAX,
    ensures
        crate::error::viewed(r) == zlib_outcome(inflated(input@, ram_bytes)),
{
    zlib_result(inflate(input, ram_bytes))
}

/// What a zlib extent decodes to, given what inflating it gave.
pub fn zlib_result(inflated: std::result::Result<Vec<u8>, (String, usize)>) -> (r: Result<Vec<u8>>)
    ensures
        match inflated {
            Ok(out) => r matches Ok(v) && v@ == out@,
            Err((status, n)) => r matches Err(e) && Err::<Seq<u8>, ErrorView>(e@) == zlib_outcome(
                Err((status@, n)),
            ),
        },
{
    match inflated {
        Ok(out) => Ok(out),
        Err((status, n)) => Err(
            Error::BadSuperblock(
                cat5(
                    Lit("zlib extent failed to decode ("),
                    Lit(status.as_str()),
                    Lit(") after "),
                    Dec(n as u64),
                    Lit(" bytes"),
                ),
            ),
        ),
    }
}

fn decompress_zstd(input: &[u8], ram_bytes: usize) -> (r: Result<Vec<u8>>)
    requires
        ram_bytes <= isize::MAX,
    ensures
        crate::error::viewed(r) == zstd_extent(input@, ram_bytes),
{
    if !is_bounded(input) {
        return Err(
            Error::BadSuperblock(
                "zstd extent failed to decode: a block of it could outgrow the decoder".to_owned(),
            ),
        );
    }
    zstd_result(zstd_decode(input, ram_bytes))
}

/// What a zstd extent decodes to, given what decoding its frame gave.
pub fn zstd_result(decoded: std::result::Result<Vec<u8>, (bool, String)>) -> (r: Result<Vec<u8>>)
    ensures
        match decoded {
            Ok(out) => r matches Ok(v) && v@ == out@,
            Err((opened, e)) => r matches Err(f) && Err::<Seq<u8>, ErrorView>(f@) == zstd_outcome(
                Err((opened, e@)),
            ),
        },
{
    match decoded {
        Ok(out) => Ok(out),
        Err((opened, e)) => if opened {
            Err(
                Error::BadSuperblock(
                    cat2(Lit("zstd extent failed to decode: "), Lit(e.as_str())),
                ),
            )
        } else {
            Err(
                Error::BadSuperblock(
                    cat2(Lit("zstd extent has no readable frame: "), Lit(e.as_str())),
                ),
            )
        },
    }
}

/// What an LZO segment at `from` decodes to, given what decoding it gave.
pub fn lzo_result(from: usize, decoded: std::result::Result<Vec<u8>, String>) -> (r: Result<Vec<u8>>)
    ensures
        match decoded {
            Ok(out) => r matches Ok(v) && v@ == out@,
            Err(e) => r matches Err(f) && Err::<Seq<u8>, ErrorView>(f@) == lzo_segment(
                from as nat,
                Err(e@),
            ),
        },
{
    match decoded {
        Ok(out) => Ok(out),
        Err(e) => Err(
            Error::BadSuperblock(
                cat4(
                    Lit("LZO segment at "),
                    Dec(from as u64),
                    Lit(" failed to decode: "),
                    Lit(e.as_str()),
                ),
            ),
        ),
    }
}

/// Decode the segmented LZO framing.
fn decompress_lzo(input: &[u8], ram_bytes: usize, sectorsize: usize) -> (r: Result<Vec<u8>>)
    requires
        ram_bytes <= isize::MAX,
    ensures
        crate::error::viewed(r) == lzo_outcome(input@, ram_bytes, sectorsize),
{
    if sectorsize < LZO_LEN {
        return Err(
            Error::BadSuperblock(
                cat3(
                    Lit("sector size "),
                    Dec(sectorsize as u64),
                    Lit(" is too small to hold an LZO segment header"),
                ),
            ),
        );
    }
    if input.len() < LZO_LEN {
        return Err(
            Error::BadSuperblock(
                cat3(
                    Lit("LZO extent is "),
                    Dec(input.len() as u64),
                    Lit(" bytes, too short to hold its length header"),
                ),
            ),
        );
    }
    let total: usize = le32(input, 0) as usize;
    if total > input.len() {
        return Err(
            Error::BadSuperblock(
                cat5(
                    Lit("LZO extent declares "),
                    Dec(total as u64),
                    Lit(" compressed bytes but only "),
                    Dec(input.len() as u64),
                    Lit(" are present"),
                ),
            ),
        );
    }
    let mut out: Vec<u8> = Vec::new();
    let mut at: usize = LZO_LEN;
    while at < total && out.len() < ram_bytes
        invariant
            ram_bytes <= isize::MAX,
            sectorsize >= LZO_LEN,
            total <= input@.len(),
            lzo_outcome(input@, ram_bytes, sectorsize) == segments_from(
                input@,
                total as int,
                ram_bytes,
                sectorsize,
                at as int,
                out@,
            ),
        decreases left_of(total as int, at as int),
    {
        // A header that will not fit in what is left of this sector means the
        // encoder moved on to the next one.
        let room: usize = sectorsize - at % sectorsize;
        assert(0 < room) by (nonlinear_arith)
            requires
                sectorsize > 0,
                room == sectorsize - at % sectorsize,
        ;
        if room < LZO_LEN {
            if total - at <= room {
                // The rest of the extent is padding.
                assert(segments_from(
                    input@,
                    total as int,
                    ram_bytes,
                    sectorsize,
                    at + room,
                    out@,
                ) == Ok::<Seq<u8>, ErrorView>(out@));
                at = total;
            } else {
                at = at + room;
            }
            continue;
        }
        let seg_len: usize = match read_u32(input, at) {
            Ok(n) => n as usize,
            Err(e) => return Err(e),
        };
        if seg_len == 0 {
            return Err(
                Error::BadSuperblock("LZO extent contains a zero-length segment".to_owned()),
            );
        }
        assert(at + LZO_LEN <= input.len());
        let from: usize = at + LZO_LEN;
        if seg_len > input.len() - from {
            return Err(
                Error::BadSuperblock(
                    cat7(
                        Lit("LZO segment at "),
                        Dec(from as u64),
                        Lit(" runs "),
                        Dec(seg_len as u64),
                        Lit(" bytes past the end of a "),
                        Dec(input.len() as u64),
                        Lit("-byte extent"),
                    ),
                ),
            );
        }
        // Each segment decodes to one sector, or to what is left to produce.
        let left: usize = ram_bytes - out.len();
        let want: usize = if sectorsize < left {
            sectorsize
        } else {
            left
        };
        let decoded = lzo_decode(slice_subrange(input, from, from + seg_len), want);
        let mut chunk = match lzo_result(from, decoded) {
            Ok(chunk) => chunk,
            Err(e) => return Err(e),
        };
        out.append(&mut chunk);
        at = from + seg_len;
    }
    Ok(out)
}

/// The length prefix at position `at` of an LZO extent.
pub fn read_u32(b: &[u8], at: usize) -> (r: Result<u32>)
    ensures
        crate::error::seen(r) == (if at + 4 > b@.len() {
            Err(
                ErrorView::BadSuperblock(
                    "LZO extent ended at "@ + text::dec(b@.len())
                        + " with a length prefix expected at "@ + text::dec(at as nat),
                ),
            )
        } else {
            Ok(bytes::u32_at(b@, at as int))
        }),
{
    if b.len() < 4 || at > b.len() - 4 {
        return Err(
            Error::BadSuperblock(
                cat4(
                    Lit("LZO extent ended at "),
                    Dec(b.len() as u64),
                    Lit(" with a length prefix expected at "),
                    Dec(at as u64),
                ),
            ),
        );
    }
    Ok(le32(b, at))
}

/// An extent that decodes gives exactly as many bytes as its item records,
/// whatever the algorithm.
pub proof fn law_decoded_length_is_recorded(
    algo: Compression,
    input: Seq<u8>,
    ram_bytes: usize,
    sectorsize: usize,
)
    ensures
        decompressed(algo, input, ram_bytes, sectorsize) matches Ok(out) ==> out.len()
            == ram_bytes,
{
}

} // verus!
