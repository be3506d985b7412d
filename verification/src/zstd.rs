//! How far a zstd frame can grow when it is decoded.
//!
//! A frame is a header and a run of blocks. A compressed block holds literals
//! and sequences; each sequence copies a stretch of what was decoded before.
//! Nothing in a block's header says how large it becomes, so this reads what
//! bounds it: how many literals it holds, how many sequences, and how many
//! bytes those are written in.
//!
//! A sequence copies 3 to 34 bytes, or more at the price of extra bits: the
//! most it can copy is 131,074 bytes, for 16 of them, and no other number of
//! extra bits buys more bytes each.

use vstd::prelude::*;

use crate::bytes;
use crate::bytes::{le16, le32};

pub mod small_laws;

verus! {

/// What a frame opens with.
pub const MAGIC: u32 = 0xFD2F_B528;

/// The most a block's header may say that it holds.
pub const MAX_BLOCK: u32 = 131072;

/// The most bytes one sequence can copy.
pub const LONGEST_MATCH: u64 = 131074;

/// The most bytes one sequence can copy without extra bits.
pub const LONGEST_PLAIN_MATCH: u64 = 34;

/// The most bytes a byte's worth of extra bits can add to what is copied.
pub const BYTES_PER_BYTE: u64 = 65520;

/// How many bytes a dictionary id takes in the header `d` describes.
pub open spec fn dictionary_len(d: u8) -> int {
    if d % 4 == 3 {
        4
    } else {
        (d % 4) as int
    }
}

/// Whether the header `d` describes is that of a frame in one segment.
pub open spec fn one_segment(d: u8) -> bool {
    (d / 32) % 2 == 1
}

/// How many bytes the content size takes in the header `d` describes.
pub open spec fn content_size_len(d: u8) -> int {
    if d / 64 == 0 {
        if one_segment(d) {
            1
        } else {
            0
        }
    } else if d / 64 == 1 {
        2
    } else if d / 64 == 2 {
        4
    } else {
        8
    }
}

/// Where the blocks of a frame start, in the header `d` describes.
pub open spec fn header_len(d: u8) -> int {
    5 + (if one_segment(d) {
        0int
    } else {
        1
    }) + dictionary_len(d) + content_size_len(d)
}

/// The section of literals a compressed block opens with: how many there are,
/// and how many bytes the section takes. None where it is cut short.
pub open spec fn literals(b: Seq<u8>) -> Option<(int, int)> {
    let kind: int = (b[0] % 4) as int;
    let form: int = ((b[0] / 4) % 4) as int;
    if b.len() == 0 {
        None
    } else if kind < 2 {
        let (n, head): (int, int) = if form % 2 == 0 {
            ((b[0] / 8) as int, 1)
        } else if form == 1 {
            (b[0] / 16 + b[1] * 16, 2)
        } else {
            (b[0] / 16 + b[1] * 16 + b[2] * 4096, 3)
        };
        let body: int = if kind == 0 {
            n
        } else {
            1
        };
        if head + body > b.len() {
            None
        } else {
            Some((n, head + body))
        }
    } else {
        let head: int = if form < 2 {
            3
        } else {
            form + 2
        };
        let (n, packed): (int, int) = if form < 2 {
            (b[0] / 16 + (b[1] % 64) * 16, b[1] / 64 + b[2] * 4)
        } else if form == 2 {
            (b[0] / 16 + b[1] * 16 + (b[2] % 4) * 4096, b[2] / 4 + b[3] * 64)
        } else {
            (
                b[0] / 16 + b[1] * 16 + (b[2] % 64) * 4096,
                b[2] / 64 + b[3] * 4 + b[4] * 1024,
            )
        };
        if head > b.len() || head + packed > b.len() {
            None
        } else {
            Some((n, head + packed))
        }
    }
}

/// How many sequences a compressed block holds, whose sequences section is
/// `b`, and how many bytes they are written in. None where the section is cut
/// short.
pub open spec fn sequences(b: Seq<u8>) -> Option<(int, int)> {
    if b.len() == 0 {
        None
    } else if b[0] == 0 {
        Some((0, b.len() - 1))
    } else if b[0] < 128 {
        if b.len() < 2 {
            None
        } else {
            Some((b[0] as int, b.len() - 2))
        }
    } else if b[0] < 255 {
        if b.len() < 2 {
            None
        } else if (b[0] - 128) * 256 + b[1] == 0 {
            Some((0, b.len() - 2))
        } else if b.len() < 3 {
            None
        } else {
            Some(((b[0] - 128) * 256 + b[1], b.len() - 3))
        }
    } else if b.len() < 4 {
        None
    } else {
        Some((b[1] + b[2] * 256 + 0x7F00, b.len() - 4))
    }
}

/// The most bytes `n` sequences written in `written` bytes can copy.
pub open spec fn copied(n: int, written: int) -> int {
    if n * LONGEST_MATCH < n * LONGEST_PLAIN_MATCH + written * BYTES_PER_BYTE {
        n * LONGEST_MATCH
    } else {
        n * LONGEST_PLAIN_MATCH + written * BYTES_PER_BYTE
    }
}

/// The most bytes the compressed block `b` can become. One whose sections are
/// cut short becomes nothing.
pub open spec fn grown(b: Seq<u8>) -> int {
    match literals(b) {
        None => 0,
        Some((n, len)) => match sequences(b.skip(len)) {
            None => 0,
            Some((count, written)) => n + copied(count, written),
        },
    }
}

/// Whether no block from `pos` on becomes more than a `u32` can count, and all
/// of them together, `total` bytes being there already, fit in a buffer. What
/// follows a block that is cut short or not a block at all is not looked at.
pub open spec fn blocks_bounded(b: Seq<u8>, pos: int, total: int) -> bool
    decreases b.len() - pos,
{
    if pos < 0 || pos + 3 > b.len() {
        true
    } else {
        let head: int = bytes::u16_at(b, pos) + b[pos + 2] * 0x10000;
        let kind: int = (head / 2) % 4;
        let size: int = head / 8;
        let body: int = if kind == 1 {
            1
        } else {
            size
        };
        if kind == 3 || size > MAX_BLOCK || pos + 3 + body > b.len() {
            true
        } else {
            let more: int = if kind == 2 {
                grown(b.subrange(pos + 3, pos + 3 + body))
            } else {
                size
            };
            &&& more <= u32::MAX
            &&& total + more <= isize::MAX / 4
            &&& head % 2 == 1 || blocks_bounded(b, pos + 3 + body, total + more)
        }
    }
}

/// Whether the first frame of `b` can be decoded without a block outgrowing
/// what its decoder counts with. What is no frame is never decoded.
pub open spec fn bounded(b: Seq<u8>) -> bool {
    b.len() >= 5 && bytes::u32_at(b, 0) == MAGIC ==> blocks_bounded(b, header_len(b[4]), 0)
}

/// How many literals a compressed block holds, and how many bytes their
/// section takes.
fn read_literals(b: &[u8]) -> (r: Option<(u64, usize)>)
    ensures
        match r {
            Some((n, len)) => literals(b@) == Some((n as int, len as int)) && len <= b@.len() && n
                < 0x100000,
            None => literals(b@) is None,
        },
{
    if b.len() == 0 {
        return None;
    }
    let b0: u64 = b[0] as u64;
    let kind: u64 = b0 % 4;
    let form: u64 = (b0 / 4) % 4;
    let head: usize = if kind < 2 {
        if form % 2 == 0 {
            1
        } else if form == 1 {
            2
        } else {
            3
        }
    } else if form < 2 {
        3
    } else {
        form as usize + 2
    };
    if head > b.len() {
        return None;
    }
    let (n, body): (u64, u64) = if kind < 2 {
        let n: u64 = if form % 2 == 0 {
            b0 / 8
        } else if form == 1 {
            b0 / 16 + b[1] as u64 * 16
        } else {
            b0 / 16 + b[1] as u64 * 16 + b[2] as u64 * 4096
        };
        (n, if kind == 0 { n } else { 1 })
    } else if form < 2 {
        (b0 / 16 + (b[1] as u64 % 64) * 16, b[1] as u64 / 64 + b[2] as u64 * 4)
    } else if form == 2 {
        (
            b0 / 16 + b[1] as u64 * 16 + (b[2] as u64 % 4) * 4096,
            b[2] as u64 / 4 + b[3] as u64 * 64,
        )
    } else {
        (
            b0 / 16 + b[1] as u64 * 16 + (b[2] as u64 % 64) * 4096,
            b[2] as u64 / 64 + b[3] as u64 * 4 + b[4] as u64 * 1024,
        )
    };
    if body > (b.len() - head) as u64 {
        return None;
    }
    Some((n, head + body as usize))
}

/// How many sequences a compressed block holds, and how many bytes they are
/// written in.
fn read_sequences(b: &[u8]) -> (r: Option<(u64, usize)>)
    ensures
        match r {
            Some((n, written)) => sequences(b@) == Some((n as int, written as int)) && written
                <= b@.len() && n < 0x20000,
            None => sequences(b@) is None,
        },
{
    if b.len() == 0 {
        return None;
    }
    let b0: u64 = b[0] as u64;
    if b0 == 0 {
        return Some((0, b.len() - 1));
    }
    if b.len() < 2 {
        return None;
    }
    if b0 < 128 {
        return Some((b0, b.len() - 2));
    }
    if b0 < 255 {
        let n: u64 = (b0 - 128) * 256 + b[1] as u64;
        if n == 0 {
            return Some((0, b.len() - 2));
        }
        if b.len() < 3 {
            return None;
        }
        return Some((n, b.len() - 3));
    }
    if b.len() < 4 {
        return None;
    }
    Some((b[1] as u64 + b[2] as u64 * 256 + 0x7F00, b.len() - 4))
}

/// The most bytes a compressed block can become.
fn growth(b: &[u8]) -> (n: u64)
    requires
        b@.len() <= MAX_BLOCK,
    ensures
        n == grown(b@),
{
    let (held, len) = match read_literals(b) {
        None => return 0,
        Some(found) => found,
    };
    let rest = vstd::slice::slice_subrange(b, len, b.len());
    assert(rest@ =~= b@.skip(len as int));
    let (count, written) = match read_sequences(rest) {
        None => return 0,
        Some(found) => found,
    };
    let most: u64 = count * LONGEST_MATCH;
    let by_bits: u64 = count * LONGEST_PLAIN_MATCH + written as u64 * BYTES_PER_BYTE;
    held + if most < by_bits {
        most
    } else {
        by_bits
    }
}

/// Whether the first frame of `b` can be decoded without a block outgrowing
/// what its decoder counts with.
pub fn is_bounded(b: &[u8]) -> (yes: bool)
    ensures
        yes == bounded(b@),
{
    if b.len() < 5 || le32(b, 0) != MAGIC {
        return true;
    }
    let d: u8 = b[4];
    let single: bool = (d / 32) % 2 == 1;
    let size_len: usize = match d / 64 {
        0 => if single {
            1
        } else {
            0
        },
        1 => 2,
        2 => 4,
        _ => 8,
    };
    let dictionary: usize = if d % 4 == 3 {
        4
    } else {
        (d % 4) as usize
    };
    let window: usize = if single {
        0
    } else {
        1
    };
    let mut pos: usize = 5 + window + dictionary + size_len;
    let mut total: u64 = 0;
    let room: u64 = isize::MAX as u64 / 4;
    while pos <= b.len() && b.len() - pos >= 3
        invariant
            room == isize::MAX / 4,
            total <= room,
            bounded(b@) == blocks_bounded(b@, pos as int, total as int),
        decreases b@.len() - pos,
    {
        let head: u64 = le16(b, pos) as u64 + b[pos + 2] as u64 * 0x10000;
        let kind: u64 = (head / 2) % 4;
        let size: u64 = head / 8;
        let body: u64 = if kind == 1 {
            1
        } else {
            size
        };
        if kind == 3 || size > MAX_BLOCK as u64 || body > (b.len() - pos - 3) as u64 {
            return true;
        }
        let from: usize = pos + 3;
        let to: usize = from + body as usize;
        let more: u64 = if kind == 2 {
            growth(vstd::slice::slice_subrange(b, from, to))
        } else {
            size
        };
        if more > u32::MAX as u64 || more > room - total {
            return false;
        }
        if head % 2 == 1 {
            return true;
        }
        total = total + more;
        pos = to;
    }
    true
}

} // verus!
