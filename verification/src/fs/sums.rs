//! Holding file data to the checksum tree.
//!
//! The tree is authoritative about the sectors it names and silent about the
//! rest: a sector it names is compared before any byte of it is handed out,
//! and a sector it does not name is handed out as it was read. A digest covers
//! a whole sector, so a window that starts or ends inside one is widened to
//! sector boundaries before it is read.

use vstd::arithmetic::div_mod::{lemma_fundamental_div_mod, lemma_mod_multiples_vanish};
use vstd::prelude::*;
use vstd::slice::slice_subrange;

use crate::bytes::copy_range;
use crate::csum;
use crate::csum::SectorDigests;
use crate::error::{Error, ErrorView, Result};
use crate::fs::extents;
use crate::superblock::{field_opens, ChecksumType};
use crate::text;
use crate::text::cat5;
use crate::text::Part::{Dec, Lit};
use crate::volume::{Volume, VolumeModel};

verus! {

/// Where the sector that holds `at` starts.
pub open spec fn sector_of(at: u64, sectorsize: u32) -> u64 {
    (at - at % (sectorsize as u64)) as u64
}

/// Where the last sector that `at .. at + len` touches ends, held to the end
/// of the address space.
pub open spec fn sectors_end(at: u64, len: nat, sectorsize: u32) -> u64 {
    let s: int = sectorsize as int;
    let end: int = at + len;
    let up: int = if end % s == 0 {
        end
    } else {
        end - end % s + s
    };
    if up > u64::MAX {
        u64::MAX
    } else {
        up as u64
    }
}

/// Every digest the checksum tree holds for the sectors that
/// `logical .. logical + len` touches.
#[verifier::opaque]
pub open spec fn named(volume: VolumeModel, logical: u64, len: nat) -> std::result::Result<
    Map<u64, Seq<u8>>,
    ErrorView,
> {
    let s = volume.sb.sectorsize;
    volume.digests(
        sector_of(logical, s),
        (sectors_end(logical, len, s) - sector_of(logical, s)) as u64,
    )
}

/// Whether `k` is where a whole sector of `lo .. hi` starts.
pub open spec fn is_sector(lo: u64, hi: u64, sectorsize: u32, k: u64) -> bool {
    lo <= k && k + sectorsize <= hi && k % (sectorsize as u64) == 0
}

/// Whether `sums` name no whole sector of `lo .. hi`.
pub open spec fn silent(sums: Map<u64, Seq<u8>>, lo: u64, hi: u64, sectorsize: u32) -> bool {
    forall|k: u64| is_sector(lo, hi, sectorsize, k) ==> !(#[trigger] sums.contains_key(k))
}

/// Whether `sums` name the sector at `k` and its bytes, in `wide` which was
/// read from `lo` on, hash to something else.
pub open spec fn rotten(
    kind: ChecksumType,
    sums: Map<u64, Seq<u8>>,
    sectorsize: u32,
    lo: u64,
    wide: Seq<u8>,
    k: u64,
) -> bool {
    sums.contains_key(k) && sums[k] != kind.hash(wide.subrange(k - lo, k - lo + sectorsize))
}

/// The first sector from `k` on whose bytes do not hash to what `sums` say.
pub open spec fn first_rotten(
    kind: ChecksumType,
    sums: Map<u64, Seq<u8>>,
    sectorsize: u32,
    lo: u64,
    hi: u64,
    wide: Seq<u8>,
    k: int,
) -> Option<u64>
    decreases hi - k,
{
    if sectorsize == 0 || k + sectorsize > hi {
        None
    } else if rotten(kind, sums, sectorsize, lo, wide, k as u64) {
        Some(k as u64)
    } else {
        first_rotten(kind, sums, sectorsize, lo, hi, wide, k + sectorsize)
    }
}

/// A sector of data whose bytes do not hash to what the checksum tree says.
pub open spec fn rot(k: u64) -> ErrorView {
    ErrorView::ChecksumMismatch { what: "data sector"@, offset: k }
}

pub open spec fn too_wide(ino: u64, len: u64) -> ErrorView {
    ErrorView::BadSuperblock(
        extents::of_inode(ino) + ": checking "@ + text::dec(len as nat)
            + " bytes takes more than can be held in memory"@,
    )
}

/// The `take` bytes at `at`, held to `sums`: as they are where `sums` name no
/// sector they touch, and otherwise only where every such sector hashes to
/// what `sums` say.
#[verifier::opaque]
pub open spec fn checked_bytes(
    volume: VolumeModel,
    sums: Map<u64, Seq<u8>>,
    ino: u64,
    at: u64,
    take: nat,
) -> std::result::Result<Seq<u8>, ErrorView> {
    let s = volume.sb.sectorsize;
    let lo = sector_of(at, s);
    let hi = sectors_end(at, take, s);
    if at + take > u64::MAX || silent(sums, lo, hi, s) {
        volume.bytes_at(at, take)
    } else if hi - lo > isize::MAX {
        Err(too_wide(ino, (hi - lo) as u64))
    } else {
        match volume.bytes_at(lo, (hi - lo) as nat) {
            Err(e) => Err(e),
            Ok(wide) => match first_rotten(
                volume.sb.csum_type,
                sums,
                s,
                lo,
                hi,
                wide,
                lo as int,
            ) {
                Some(k) => Err(rot(k)),
                None => Ok(wide.subrange(at - lo, at - lo + take)),
            },
        }
    }
}

/// Whether the checksum tree names no sector that `logical .. logical + len`
/// touches.
pub open spec fn unnamed(volume: VolumeModel, logical: u64, len: nat) -> bool {
    let s = volume.sb.sectorsize;
    named(volume, logical, len) matches Ok(m) && silent(
        m,
        sector_of(logical, s),
        sectors_end(logical, len, s),
        s,
    )
}

/// The start of a sector is a multiple of its size, at or before every byte of
/// it and less than its size away.
pub(crate) proof fn lemma_sector_of(at: u64, sectorsize: u32)
    requires
        sectorsize > 0,
    ensures
        sector_of(at, sectorsize) <= at < sector_of(at, sectorsize) + sectorsize,
        sector_of(at, sectorsize) % (sectorsize as u64) == 0,
{
    let s: int = sectorsize as int;
    lemma_fundamental_div_mod(at as int, s);
    lemma_mod_multiples_vanish(at as int / s, 0, s);
    assert(s * (at as int / s) + 0 == at - at as int % s);
    assert(0int % s == 0);
}

/// The end of the last sector of a range lies at or behind the range's end,
/// unless the address space ends first.
pub(crate) proof fn lemma_sectors_end(at: u64, len: nat, sectorsize: u32)
    requires
        sectorsize > 0,
    ensures
        at + len <= u64::MAX ==> at + len <= sectors_end(at, len, sectorsize),
        sectors_end(at, len, sectorsize) < at + len + sectorsize,
        sectors_end(at, len, sectorsize) >= sector_of(at, sectorsize),
{
    lemma_sector_of(at, sectorsize);
    let s: int = sectorsize as int;
    let end: int = at + len;
    assert(0 <= end % s < s) by (nonlinear_arith)
        requires
            s > 0,
    ;
}

/// Two multiples of a size are equal or a size apart.
pub(crate) proof fn lemma_multiples_apart(a: int, b: int, s: int)
    requires
        s > 0,
        a % s == 0,
        b % s == 0,
        a < b,
    ensures
        a + s <= b,
{
    lemma_fundamental_div_mod(a, s);
    lemma_fundamental_div_mod(b, s);
    let x: int = a / s;
    let y: int = b / s;
    assert(x < y) by (nonlinear_arith)
        requires
            s > 0,
            a == s * x,
            b == s * y,
            a < b,
    ;
    assert(s * x + s <= s * y) by (nonlinear_arith)
        requires
            s > 0,
            x + 1 <= y,
    ;
}

proof fn lemma_next_multiple(a: int, s: int)
    requires
        s > 0,
        a % s == 0,
    ensures
        (a + s) % s == 0,
{
    lemma_fundamental_div_mod(a, s);
    let x: int = a / s;
    lemma_mod_multiples_vanish(x + 1, 0, s);
    assert(s * (x + 1) + 0 == a + s) by (nonlinear_arith)
        requires
            a == s * x,
    ;
    assert(0int % s == 0);
}

/// The sectors of a range lie among those of a range around it.
pub(crate) proof fn lemma_sectors_nest(
    at: u64,
    len: nat,
    inner: u64,
    inner_len: nat,
    sectorsize: u32,
)
    requires
        sectorsize > 0,
        at <= inner,
        inner + inner_len <= at + len,
    ensures
        sector_of(at, sectorsize) <= sector_of(inner, sectorsize),
        sectors_end(inner, inner_len, sectorsize) <= sectors_end(at, len, sectorsize),
{
    let s: int = sectorsize as int;
    lemma_sector_of(at, sectorsize);
    lemma_sector_of(inner, sectorsize);
    let a = sector_of(at, sectorsize);
    let b = sector_of(inner, sectorsize);
    if b < a {
        lemma_multiples_apart(b as int, a as int, s);
    }
    lemma_round_up_grows(inner + inner_len, at + len, s);
}

proof fn lemma_round_up_grows(x: int, y: int, s: int)
    requires
        s > 0,
        x <= y,
    ensures
        (if x % s == 0 {
            x
        } else {
            x - x % s + s
        }) <= (if y % s == 0 {
            y
        } else {
            y - y % s + s
        }),
{
    lemma_fundamental_div_mod(x, s);
    lemma_fundamental_div_mod(y, s);
    let a: int = x / s;
    let b: int = y / s;
    assert(0 <= x % s < s && 0 <= y % s < s) by (nonlinear_arith)
        requires
            s > 0,
    ;
    assert(a <= b) by (nonlinear_arith)
        requires
            s > 0,
            x <= y,
            x == s * a + x % s,
            y == s * b + y % s,
            0 <= x % s < s,
            0 <= y % s < s,
    ;
    assert(s * a <= s * b) by (nonlinear_arith)
        requires
            s > 0,
            a <= b,
    ;
    if a < b {
        assert(s * a + s <= s * b) by (nonlinear_arith)
            requires
                s > 0,
                a + 1 <= b,
        ;
    }
}

/// The first rotten sector is one, and where there is none no sector is.
pub(crate) proof fn lemma_first_rotten(
    kind: ChecksumType,
    sums: Map<u64, Seq<u8>>,
    sectorsize: u32,
    lo: u64,
    hi: u64,
    wide: Seq<u8>,
    k: int,
)
    requires
        sectorsize > 0,
        lo <= k,
        k % (sectorsize as int) == 0,
    ensures
        match first_rotten(kind, sums, sectorsize, lo, hi, wide, k) {
            Some(at) => k <= at && is_sector(lo, hi, sectorsize, at) && rotten(
                kind,
                sums,
                sectorsize,
                lo,
                wide,
                at,
            ),
            None => forall|at: u64|
                k <= at && is_sector(lo, hi, sectorsize, at) ==> !(#[trigger] rotten(
                    kind,
                    sums,
                    sectorsize,
                    lo,
                    wide,
                    at,
                )),
        },
    decreases hi - k,
{
    if k + sectorsize <= hi && !rotten(kind, sums, sectorsize, lo, wide, k as u64) {
        lemma_next_multiple(k, sectorsize as int);
        lemma_first_rotten(kind, sums, sectorsize, lo, hi, wide, k + sectorsize);
        if first_rotten(kind, sums, sectorsize, lo, hi, wide, k) is None {
            assert forall|at: u64|
                k <= at && is_sector(lo, hi, sectorsize, at) implies !(#[trigger] rotten(
                kind,
                sums,
                sectorsize,
                lo,
                wide,
                at,
            )) by {
                if at > k {
                    lemma_multiples_apart(k, at as int, sectorsize as int);
                }
            }
        }
    }
}

/// No byte of a sector that the checksum tree names is handed out unless the
/// sector, as it was read, hashes to what the tree says; and a complaint about
/// a sector is made only where one the tree names does not.
pub proof fn law_named_sectors_are_held_to_their_digests(
    volume: VolumeModel,
    sums: Map<u64, Seq<u8>>,
    ino: u64,
    at: u64,
    take: nat,
)
    requires
        volume.sb.sectorsize > 0,
        at + take <= u64::MAX,
    ensures
        ({
            let s = volume.sb.sectorsize;
            let lo = sector_of(at, s);
            let hi = sectors_end(at, take, s);
            let wide = volume.bytes_at(lo, (hi - lo) as nat);
            let kind = volume.sb.csum_type;
            &&& lo <= at && at + take <= hi
            &&& silent(sums, lo, hi, s) ==> checked_bytes(volume, sums, ino, at, take)
                == volume.bytes_at(at, take)
            &&& !silent(sums, lo, hi, s) && checked_bytes(volume, sums, ino, at, take) is Ok ==> {
                &&& wide is Ok
                &&& forall|k: u64|
                    is_sector(lo, hi, s, k) && #[trigger] sums.contains_key(k) ==> sums[k]
                        == kind.hash(wide->Ok_0.subrange(k - lo, k - lo + s))
                &&& checked_bytes(volume, sums, ino, at, take) == Ok::<Seq<u8>, ErrorView>(
                    wide->Ok_0.subrange(at - lo, at - lo + take),
                )
            }
            &&& hi - lo <= isize::MAX && wide is Ok && (exists|k: u64|
                is_sector(lo, hi, s, k) && #[trigger] rotten(kind, sums, s, lo, wide->Ok_0, k))
                ==> exists|k: u64|
                is_sector(lo, hi, s, k) && #[trigger] rotten(kind, sums, s, lo, wide->Ok_0, k)
                    && checked_bytes(volume, sums, ino, at, take) == Err::<Seq<u8>, ErrorView>(
                    rot(k),
                )
        }),
{
    let s = volume.sb.sectorsize;
    let lo = sector_of(at, s);
    let hi = sectors_end(at, take, s);
    let kind = volume.sb.csum_type;
    reveal(checked_bytes);
    lemma_sector_of(at, s);
    lemma_sectors_end(at, take, s);
    if let Ok(wide) = volume.bytes_at(lo, (hi - lo) as nat) {
        lemma_first_rotten(kind, sums, s, lo, hi, wide, lo as int);
        if first_rotten(kind, sums, s, lo, hi, wide, lo as int) is None {
            assert forall|k: u64| is_sector(lo, hi, s, k) && #[trigger] sums.contains_key(
                k,
            ) implies sums[k] == kind.hash(wide.subrange(k - lo, k - lo + s)) by {
                assert(!rotten(kind, sums, s, lo, wide, k));
            }
        }
    }
}

impl<R: Fn(usize, u64, usize) -> Result<Vec<u8>>> Volume<R> {
    /// Every digest the checksum tree holds for the sectors that
    /// `logical .. logical + len` touches.
    pub fn named_digests(&self, logical: u64, len: u64) -> (r: Result<SectorDigests>)
        requires
            self.ready(),
        ensures
            self.faithful() ==> match r {
                Ok(m) => named(self@, logical, len as nat) == Ok::<Map<u64, Seq<u8>>, ErrorView>(
                    csum::digest_models(m@),
                ),
                Err(e) => named(self@, logical, len as nat) == Err::<
                    Map<u64, Seq<u8>>,
                    ErrorView,
                >(e@),
            },
    {
        proof {
            reveal(named);
            lemma_sectors_end(logical, len as nat, self.sb.sectorsize);
        }
        let lo: u64 = sector_start(logical, self.sb.sectorsize);
        let hi: u64 = sector_stop(logical, len, self.sb.sectorsize);
        self.digests(lo, hi - lo)
    }

    /// The `take` bytes at `at`, held to `sums`. Whatever the reader answers,
    /// bytes of sectors that `sums` name come out of sectors that match.
    pub fn read_checked(&self, sums: &SectorDigests, ino: u64, at: u64, take: usize) -> (r: Result<
        Vec<u8>,
    >)
        requires
            self.ready(),
        ensures
            self.faithful() ==> crate::error::viewed(r) == checked_bytes(
                self@,
                csum::digest_models(sums@),
                ino,
                at,
                take as nat,
            ),
            r matches Ok(b) ==> b@.len() == take,
            ({
                let s = self.sb.sectorsize;
                let lo = sector_of(at, s);
                let hi = sectors_end(at, take as nat, s);
                let m = csum::digest_models(sums@);
                at + take <= u64::MAX && !silent(m, lo, hi, s) ==> (r matches Ok(b)
                    ==> exists|wide: Seq<u8>|
                    wide.len() == hi - lo && #[trigger] first_rotten(
                        self.sb.csum_type,
                        m,
                        s,
                        lo,
                        hi,
                        wide,
                        lo as int,
                    ) is None && b@ == wide.subrange(at - lo, at - lo + take))
            }),
    {
        let s: u32 = self.sb.sectorsize;
        let lo: u64 = sector_start(at, s);
        let hi: u64 = sector_stop(at, take as u64, s);
        proof {
            reveal(checked_bytes);
            lemma_sector_of(at, s);
            lemma_sectors_end(at, take as nat, s);
        }
        if take as u64 > u64::MAX - at || !names_any(sums, lo, hi, s) {
            return self.read_bytes(at, take);
        }
        if hi - lo > isize::MAX as u64 {
            return Err(
                Error::BadSuperblock(
                    cat5(
                        Lit("inode "),
                        Dec(ino),
                        Lit(": checking "),
                        Dec(hi - lo),
                        Lit(" bytes takes more than can be held in memory"),
                    ),
                ),
            );
        }
        let wide = match self.read_bytes(lo, (hi - lo) as usize) {
            Ok(wide) => wide,
            Err(e) => return Err(e),
        };
        match find_rotten(self.sb.csum_type, sums, s, lo, hi, wide.as_slice()) {
            Some(k) => Err(Error::ChecksumMismatch { what: "data sector", offset: k }),
            None => {
                let from: usize = (at - lo) as usize;
                assert(first_rotten(
                    self.sb.csum_type,
                    csum::digest_models(sums@),
                    s,
                    lo,
                    hi,
                    wide@,
                    lo as int,
                ) is None);
                Ok(copy_range(wide.as_slice(), from, from + take))
            },
        }
    }
}

fn sector_start(at: u64, sectorsize: u32) -> (lo: u64)
    requires
        sectorsize > 0,
    ensures
        lo == sector_of(at, sectorsize),
{
    let over: u64 = at % (sectorsize as u64);
    assert(over <= at) by (nonlinear_arith)
        requires
            over == at % (sectorsize as u64),
            sectorsize > 0,
    ;
    at - over
}

fn sector_stop(at: u64, len: u64, sectorsize: u32) -> (hi: u64)
    requires
        sectorsize > 0,
    ensures
        hi == sectors_end(at, len as nat, sectorsize),
{
    let s: u128 = sectorsize as u128;
    let end: u128 = at as u128 + len as u128;
    let over: u128 = end % s;
    assert(over <= end) by (nonlinear_arith)
        requires
            over == end % s,
            s > 0,
    ;
    let up: u128 = if over == 0 {
        end
    } else {
        end - over + s
    };
    if up > u64::MAX as u128 {
        u64::MAX
    } else {
        up as u64
    }
}

/// Whether `sums` name a whole sector of `lo .. hi`.
fn names_any(sums: &SectorDigests, lo: u64, hi: u64, sectorsize: u32) -> (yes: bool)
    requires
        sectorsize > 0,
        lo <= hi,
        lo % (sectorsize as u64) == 0,
    ensures
        yes == !silent(csum::digest_models(sums@), lo, hi, sectorsize),
{
    let s: u64 = sectorsize as u64;
    let ghost m = csum::digest_models(sums@);
    let mut k: u64 = lo;
    while hi - k >= s
        invariant
            s == sectorsize,
            s > 0,
            lo <= k <= hi,
            k % s == 0,
            m == csum::digest_models(sums@),
            forall|x: u64|
                is_sector(lo, hi, sectorsize, x) && x < k ==> !(#[trigger] m.contains_key(x)),
        decreases hi - k,
    {
        assert(m.contains_key(k) == sums@.contains_key(k));
        if sums.contains_key(&k) {
            assert(is_sector(lo, hi, sectorsize, k));
            return true;
        }
        proof {
            lemma_next_multiple(k as int, s as int);
            assert forall|x: u64|
                is_sector(lo, hi, sectorsize, x) && x < k + s implies !(#[trigger] m.contains_key(
                x,
            )) by {
                if x > k {
                    lemma_multiples_apart(k as int, x as int, s as int);
                }
            }
        }
        k = k + s;
    }
    false
}

/// The first sector of `wide`, which holds `lo .. hi`, whose bytes do not hash
/// to what `sums` say.
fn find_rotten(
    kind: ChecksumType,
    sums: &SectorDigests,
    sectorsize: u32,
    lo: u64,
    hi: u64,
    wide: &[u8],
) -> (r: Option<u64>)
    requires
        sectorsize > 0,
        lo <= hi,
        wide@.len() == hi - lo,
    ensures
        r == first_rotten(
            kind,
            csum::digest_models(sums@),
            sectorsize,
            lo,
            hi,
            wide@,
            lo as int,
        ),
{
    let s: u64 = sectorsize as u64;
    let ghost m = csum::digest_models(sums@);
    let mut k: u64 = lo;
    while hi - k >= s
        invariant
            s == sectorsize,
            s > 0,
            lo <= k <= hi,
            wide@.len() == hi - lo,
            m == csum::digest_models(sums@),
            first_rotten(kind, m, sectorsize, lo, hi, wide@, lo as int) == first_rotten(
                kind,
                m,
                sectorsize,
                lo,
                hi,
                wide@,
                k as int,
            ),
        decreases hi - k,
    {
        assert(m.contains_key(k) == sums@.contains_key(k));
        if let Some(want) = sums.get(&k) {
            assert(m[k] == want@);
            assert(wide@.len() == wide.len());
            let from: usize = (k - lo) as usize;
            let sector = slice_subrange(wide, from, from + s as usize);
            assert(sector@ =~= wide@.subrange(k - lo, k - lo + s));
            if !hashes_to(kind, sector, want.as_slice()) {
                return Some(k);
            }
        }
        k = k + s;
    }
    None
}

/// Whether `data` hashes to exactly `want`.
fn hashes_to(kind: ChecksumType, data: &[u8], want: &[u8]) -> (yes: bool)
    ensures
        yes == (want@ == kind.hash(data@)),
{
    let n: usize = kind.digest_len();
    let field = kind.digest(data);
    let ghost hash = kind.hash(data@);
    assert(field@.take(n as int) =~= hash);
    if want.len() != n {
        return false;
    }
    assert(want@.take(n as int) =~= want@);
    field_opens(field.as_slice(), want, n)
}

} // verus!
