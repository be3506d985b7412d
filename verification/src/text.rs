//! Composing the text of an error message.
//!
//! Every refusal this crate makes carries a sentence naming the value that
//! was refused. The sentences are put together here, out of literals and
//! numbers, so that a contract can state the whole sentence and not only
//! which kind of error it belongs to.

use vstd::prelude::*;

verus! {

/// One hexadecimal digit, lower case.
pub open spec fn digit(d: nat) -> Seq<char> {
    if d == 0 {
        "0"@
    } else if d == 1 {
        "1"@
    } else if d == 2 {
        "2"@
    } else if d == 3 {
        "3"@
    } else if d == 4 {
        "4"@
    } else if d == 5 {
        "5"@
    } else if d == 6 {
        "6"@
    } else if d == 7 {
        "7"@
    } else if d == 8 {
        "8"@
    } else if d == 9 {
        "9"@
    } else if d == 10 {
        "a"@
    } else if d == 11 {
        "b"@
    } else if d == 12 {
        "c"@
    } else if d == 13 {
        "d"@
    } else if d == 14 {
        "e"@
    } else {
        "f"@
    }
}

/// `n` in decimal, without leading zeros.
pub open spec fn dec(n: nat) -> Seq<char>
    decreases n,
{
    if n < 10 {
        digit(n)
    } else {
        dec(n / 10) + digit(n % 10)
    }
}

/// `n` in hexadecimal, without a prefix and without leading zeros.
pub open spec fn bare_hex(n: nat) -> Seq<char>
    decreases n,
{
    if n < 16 {
        digit(n)
    } else {
        bare_hex(n / 16) + digit(n % 16)
    }
}

/// `n` in hexadecimal behind `0x`.
pub open spec fn hex(n: nat) -> Seq<char> {
    "0x"@ + bare_hex(n)
}

/// The low `width` hexadecimal digits of `n`, leading zeros kept.
pub open spec fn padded_hex(n: nat, width: nat) -> Seq<char>
    decreases width,
{
    if width == 0 {
        Seq::empty()
    } else {
        padded_hex(n / 16, (width - 1) as nat) + digit(n % 16)
    }
}

/// The bytes of `b` as two hexadecimal digits each, nothing between them.
pub open spec fn hex_bytes(b: Seq<u8>) -> Seq<char>
    decreases b.len(),
{
    if b.len() == 0 {
        Seq::empty()
    } else {
        hex_bytes(b.drop_last()) + padded_hex(b.last() as nat, 2)
    }
}

/// The bytes of `b` as two hexadecimal digits each, a comma and a space
/// between them.
pub open spec fn hex_list(b: Seq<u8>) -> Seq<char>
    decreases b.len(),
{
    if b.len() == 0 {
        Seq::empty()
    } else if b.len() == 1 {
        padded_hex(b.last() as nat, 2)
    } else {
        hex_list(b.drop_last()) + ", "@ + padded_hex(b.last() as nat, 2)
    }
}

fn digit_text(d: u64) -> (out: &'static str)
    requires
        d < 16,
    ensures
        out@ == digit(d as nat),
{
    if d == 0 {
        "0"
    } else if d == 1 {
        "1"
    } else if d == 2 {
        "2"
    } else if d == 3 {
        "3"
    } else if d == 4 {
        "4"
    } else if d == 5 {
        "5"
    } else if d == 6 {
        "6"
    } else if d == 7 {
        "7"
    } else if d == 8 {
        "8"
    } else if d == 9 {
        "9"
    } else if d == 10 {
        "a"
    } else if d == 11 {
        "b"
    } else if d == 12 {
        "c"
    } else if d == 13 {
        "d"
    } else if d == 14 {
        "e"
    } else {
        "f"
    }
}

fn push_dec(out: &mut String, n: u64)
    ensures
        final(out)@ == old(out)@ + dec(n as nat),
    decreases n,
{
    if n < 10 {
        out.append(digit_text(n));
    } else {
        push_dec(out, n / 10);
        out.append(digit_text(n % 10));
    }
}

fn push_bare_hex(out: &mut String, n: u64)
    ensures
        final(out)@ == old(out)@ + bare_hex(n as nat),
    decreases n,
{
    if n < 16 {
        out.append(digit_text(n));
    } else {
        push_bare_hex(out, n / 16);
        out.append(digit_text(n % 16));
    }
}

fn push_padded_hex(out: &mut String, n: u64, width: u64)
    ensures
        final(out)@ == old(out)@ + padded_hex(n as nat, width as nat),
    decreases width,
{
    if width > 0 {
        push_padded_hex(out, n / 16, width - 1);
        out.append(digit_text(n % 16));
    }
}

/// Two hexadecimal digits for each byte, nothing between them.
pub fn hex_bytes_text(b: &[u8]) -> (out: String)
    ensures
        out@ == hex_bytes(b@),
{
    let mut out = String::new();
    let mut i: usize = 0;
    while i < b.len()
        invariant
            i <= b@.len(),
            out@ == hex_bytes(b@.take(i as int)),
        decreases b@.len() - i,
    {
        push_padded_hex(&mut out, b[i] as u64, 2);
        i = i + 1;
        assert(b@.take(i as int).drop_last() =~= b@.take(i - 1));
    }
    assert(b@.take(i as int) =~= b@);
    out
}

/// Two hexadecimal digits for each byte, a comma and a space between them.
pub fn hex_list_text(b: &[u8]) -> (out: String)
    ensures
        out@ == hex_list(b@),
{
    let mut out = String::new();
    let mut i: usize = 0;
    while i < b.len()
        invariant
            i <= b@.len(),
            out@ == hex_list(b@.take(i as int)),
        decreases b@.len() - i,
    {
        if i > 0 {
            out.append(", ");
        }
        push_padded_hex(&mut out, b[i] as u64, 2);
        i = i + 1;
        assert(b@.take(i as int).drop_last() =~= b@.take(i - 1));
    }
    assert(b@.take(i as int) =~= b@);
    out
}

/// One piece of a sentence.
pub enum Part<'a> {
    /// Text as it stands.
    Lit(&'a str),
    /// A number in decimal.
    Dec(u64),
    /// A number in hexadecimal, behind `0x`.
    Hex(u64),
    /// A number as sixteen hexadecimal digits, behind `0x`.
    Mask(u64),
}

impl<'a> Part<'a> {
    /// What the piece adds to the sentence.
    pub open spec fn text(self) -> Seq<char> {
        match self {
            Part::Lit(s) => s@,
            Part::Dec(n) => dec(n as nat),
            Part::Hex(n) => hex(n as nat),
            Part::Mask(n) => "0x"@ + padded_hex(n as nat, 16),
        }
    }

    fn push_to(self, out: &mut String)
        ensures
            final(out)@ == old(out)@ + self.text(),
    {
        match self {
            Part::Lit(s) => out.append(s),
            Part::Dec(n) => push_dec(out, n),
            Part::Hex(n) => {
                out.append("0x");
                push_bare_hex(out, n);
            },
            Part::Mask(n) => {
                out.append("0x");
                push_padded_hex(out, n, 16);
            },
        }
    }
}

/// Two parts, one after the other.
pub fn cat2(a: Part<'_>, b: Part<'_>) -> (out: String)
    ensures
        out@ == a.text() + b.text(),
{
    let mut out = String::new();
    a.push_to(&mut out);
    b.push_to(&mut out);
    out
}

/// Three parts, one after the other.
pub fn cat3(a: Part<'_>, b: Part<'_>, c: Part<'_>) -> (out: String)
    ensures
        out@ == a.text() + b.text() + c.text(),
{
    let mut out = String::new();
    a.push_to(&mut out);
    b.push_to(&mut out);
    c.push_to(&mut out);
    out
}

/// Four parts, one after the other.
pub fn cat4(a: Part<'_>, b: Part<'_>, c: Part<'_>, d: Part<'_>) -> (out: String)
    ensures
        out@ == a.text() + b.text() + c.text() + d.text(),
{
    let mut out = String::new();
    a.push_to(&mut out);
    b.push_to(&mut out);
    c.push_to(&mut out);
    d.push_to(&mut out);
    out
}

/// Five parts, one after the other.
pub fn cat5(a: Part<'_>, b: Part<'_>, c: Part<'_>, d: Part<'_>, e: Part<'_>) -> (out: String)
    ensures
        out@ == a.text() + b.text() + c.text() + d.text() + e.text(),
{
    let mut out = String::new();
    a.push_to(&mut out);
    b.push_to(&mut out);
    c.push_to(&mut out);
    d.push_to(&mut out);
    e.push_to(&mut out);
    out
}

/// Six parts, one after the other.
pub fn cat6(a: Part<'_>, b: Part<'_>, c: Part<'_>, d: Part<'_>, e: Part<'_>, f: Part<'_>) -> (out: String)
    ensures
        out@ == a.text() + b.text() + c.text() + d.text() + e.text() + f.text(),
{
    let mut out = String::new();
    a.push_to(&mut out);
    b.push_to(&mut out);
    c.push_to(&mut out);
    d.push_to(&mut out);
    e.push_to(&mut out);
    f.push_to(&mut out);
    out
}

/// Seven parts, one after the other.
pub fn cat7(a: Part<'_>, b: Part<'_>, c: Part<'_>, d: Part<'_>, e: Part<'_>, f: Part<'_>, g: Part<'_>) -> (out: String)
    ensures
        out@ == a.text() + b.text() + c.text() + d.text() + e.text() + f.text() + g.text(),
{
    let mut out = String::new();
    a.push_to(&mut out);
    b.push_to(&mut out);
    c.push_to(&mut out);
    d.push_to(&mut out);
    e.push_to(&mut out);
    f.push_to(&mut out);
    g.push_to(&mut out);
    out
}

/// Eight parts, one after the other.
pub fn cat8(a: Part<'_>, b: Part<'_>, c: Part<'_>, d: Part<'_>, e: Part<'_>, f: Part<'_>, g: Part<'_>, h: Part<'_>) -> (out: String)
    ensures
        out@ == a.text() + b.text() + c.text() + d.text() + e.text() + f.text() + g.text() + h.text(),
{
    let mut out = String::new();
    a.push_to(&mut out);
    b.push_to(&mut out);
    c.push_to(&mut out);
    d.push_to(&mut out);
    e.push_to(&mut out);
    f.push_to(&mut out);
    g.push_to(&mut out);
    h.push_to(&mut out);
    out
}

/// Nine parts, one after the other.
pub fn cat9(a: Part<'_>, b: Part<'_>, c: Part<'_>, d: Part<'_>, e: Part<'_>, f: Part<'_>, g: Part<'_>, h: Part<'_>, i: Part<'_>) -> (out: String)
    ensures
        out@ == a.text() + b.text() + c.text() + d.text() + e.text() + f.text() + g.text() + h.text() + i.text(),
{
    let mut out = String::new();
    a.push_to(&mut out);
    b.push_to(&mut out);
    c.push_to(&mut out);
    d.push_to(&mut out);
    e.push_to(&mut out);
    f.push_to(&mut out);
    g.push_to(&mut out);
    h.push_to(&mut out);
    i.push_to(&mut out);
    out
}

/// Twelve parts, one after the other.
pub fn cat12(a: Part<'_>, b: Part<'_>, c: Part<'_>, d: Part<'_>, e: Part<'_>, f: Part<'_>, g: Part<'_>, h: Part<'_>, i: Part<'_>, j: Part<'_>, k: Part<'_>, l: Part<'_>) -> (out: String)
    ensures
        out@ == a.text() + b.text() + c.text() + d.text() + e.text() + f.text() + g.text() + h.text() + i.text() + j.text() + k.text() + l.text(),
{
    let mut out = String::new();
    a.push_to(&mut out);
    b.push_to(&mut out);
    c.push_to(&mut out);
    d.push_to(&mut out);
    e.push_to(&mut out);
    f.push_to(&mut out);
    g.push_to(&mut out);
    h.push_to(&mut out);
    i.push_to(&mut out);
    j.push_to(&mut out);
    k.push_to(&mut out);
    l.push_to(&mut out);
    out
}

} // verus!
