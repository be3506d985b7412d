//! Extended attributes (`XATTR_ITEM`).
//!
//! An attribute is filed under the key `(ino, 24, hash)`, where `hash` is
//! [`crate::dir::name_hash`] of the *fully-qualified* name. Names on one inode
//! can share a key, and then their records are concatenated inside that one
//! item, exactly as colliding directory entries are. The record is the one
//! directory entries use; for an attribute the interesting fields are the name
//! and the value that follows it.

use vstd::prelude::*;
use vstd::slice::slice_subrange;

use crate::bytes::copy_range;
use crate::dir;
use crate::dir::{check_record, ftype, offsets};
use crate::error::{Error, ErrorView, Result};
use crate::strings;
use crate::text;
use crate::text::cat5;
use crate::text::Part::{Dec, Lit};

verus! {

/// One extended attribute.
#[derive(Debug, Clone, PartialEq, Eq)]
pub struct XattrEntry {
    /// The fully-qualified name, exactly as stored.
    pub name: Vec<u8>,
    /// The raw value. May be empty, which is not the same as the attribute
    /// being absent.
    pub value: Vec<u8>,
}

/// What an [`XattrEntry`] holds.
#[verifier::ext_equal]
pub struct XattrModel {
    pub name: Seq<u8>,
    pub value: Seq<u8>,
}

impl View for XattrEntry {
    type V = XattrModel;

    open spec fn view(&self) -> XattrModel {
        XattrModel { name: self.name@, value: self.value@ }
    }
}

/// What a list of attributes holds.
pub open spec fn xattr_models(entries: Seq<XattrEntry>) -> Seq<XattrModel> {
    Seq::new(entries.len(), |i: int| entries[i]@)
}

/// Where the records packed into `data` begin, from position `pos` on and
/// behind `before`.
pub open spec fn records_from(data: Seq<u8>, pos: int, before: Seq<int>) -> std::result::Result<
    Seq<int>,
    ErrorView,
>
    decreases data.len() - pos,
{
    if pos < 0 || pos >= data.len() {
        Ok(before)
    } else {
        match dir::record_error(data, pos, before.len(), "extended attribute item"@) {
            Some(e) => Err(e),
            None => records_from(data, dir::record_end(data, pos), before.push(pos)),
        }
    }
}

/// The attributes the records at `starts`, from the one in place `i` on,
/// describe, behind `before`.
pub open spec fn xattrs_from(
    data: Seq<u8>,
    starts: Seq<int>,
    i: int,
    before: Seq<XattrModel>,
) -> std::result::Result<Seq<XattrModel>, ErrorView>
    decreases starts.len() - i,
{
    if i < 0 || i >= starts.len() {
        Ok(before)
    } else if data[starts[i] + offsets::TYPE] != ftype::XATTR {
        Err(
            ErrorView::BadSuperblock(
                "extended attribute "@ + strings::quoted(
                    strings::lossy(dir::record_name(data, starts[i])),
                ) + " carries file type "@ + text::dec(data[starts[i] + offsets::TYPE] as nat)
                    + " rather than 8 — this is not an XATTR_ITEM"@,
            ),
        )
    } else {
        xattrs_from(
            data,
            starts,
            i + 1,
            before.push(
                XattrModel {
                    name: dir::record_name(data, starts[i]),
                    value: dir::record_value(data, starts[i]),
                },
            ),
        )
    }
}

/// What parsing the attribute records packed into `data` gives.
pub open spec fn xattrs_outcome(data: Seq<u8>) -> std::result::Result<Seq<XattrModel>, ErrorView> {
    match records_from(data, 0, Seq::empty()) {
        Err(e) => Err(e),
        Ok(starts) => xattrs_from(data, starts, 0, Seq::empty()),
    }
}

/// The span of one record: where it begins, where its name ends and where its
/// value ends.
struct Span {
    start: usize,
    name_end: usize,
    end: usize,
}

spec fn starts_of(spans: Seq<Span>) -> Seq<int> {
    Seq::new(spans.len(), |i: int| spans[i].start as int)
}

spec fn spans_fit(data: Seq<u8>, spans: Seq<Span>) -> bool {
    forall|i: int|
        0 <= i < spans.len() ==> {
            let s = #[trigger] spans[i];
            &&& s.start + offsets::NAME <= s.name_end <= s.end <= data.len()
            &&& s.name_end == s.start + offsets::NAME + dir::name_len(data, s.start as int)
            &&& s.end == dir::record_end(data, s.start as int)
        }
}

/// Find every record packed into `data`.
fn find_records(data: &[u8]) -> (r: Result<Vec<Span>>)
    ensures
        match r {
            Ok(spans) => records_from(data@, 0, Seq::empty()) == Ok::<Seq<int>, ErrorView>(
                starts_of(spans@),
            ) && spans_fit(data@, spans@),
            Err(e) => records_from(data@, 0, Seq::empty()) == Err::<Seq<int>, ErrorView>(e@),
        },
{
    let mut out: Vec<Span> = Vec::new();
    let mut pos: usize = 0;
    assert(starts_of(out@) =~= Seq::<int>::empty());
    while pos < data.len()
        invariant
            pos <= data@.len(),
            spans_fit(data@, out@),
            records_from(data@, 0, Seq::empty()) == records_from(
                data@,
                pos as int,
                starts_of(out@),
            ),
        decreases data@.len() - pos,
    {
        let (name_end, end) = match check_record(data, pos, out.len(), "extended attribute item") {
            Ok(ends) => ends,
            Err(e) => return Err(e),
        };
        let ghost so_far = out@;
        out.push(Span { start: pos, name_end, end });
        assert(starts_of(out@) =~= starts_of(so_far).push(pos as int));
        pos = end;
    }
    Ok(out)
}

/// Parse the sequence of attribute records packed into one item's data. Every
/// record must be marked as an attribute.
pub fn parse_xattr_items(data: &[u8]) -> (r: Result<Vec<XattrEntry>>)
    ensures
        match r {
            Ok(entries) => xattrs_outcome(data@) == Ok::<Seq<XattrModel>, ErrorView>(
                xattr_models(entries@),
            ),
            Err(e) => xattrs_outcome(data@) == Err::<Seq<XattrModel>, ErrorView>(e@),
        },
{
    let spans = match find_records(data) {
        Ok(spans) => spans,
        Err(e) => return Err(e),
    };
    let ghost starts = starts_of(spans@);
    let mut out: Vec<XattrEntry> = Vec::new();
    let mut i: usize = 0;
    assert(xattr_models(out@) =~= Seq::<XattrModel>::empty());
    while i < spans.len()
        invariant
            i <= spans@.len(),
            starts == starts_of(spans@),
            spans_fit(data@, spans@),
            xattrs_outcome(data@) == xattrs_from(data@, starts, i as int, xattr_models(out@)),
        decreases spans@.len() - i,
    {
        let span = &spans[i];
        assert(starts[i as int] == span.start);
        assert(data@.len() == data.len());
        let kind: u8 = data[span.start + offsets::TYPE];
        let name = slice_subrange(data, span.start + offsets::NAME, span.name_end);
        if kind != ftype::XATTR {
            let shown = strings::lossy_text(name);
            let shown = strings::quoted_text(shown.as_str());
            return Err(
                Error::BadSuperblock(
                    cat5(
                        Lit("extended attribute "),
                        Lit(shown.as_str()),
                        Lit(" carries file type "),
                        Dec(kind as u64),
                        Lit(" rather than 8 — this is not an XATTR_ITEM"),
                    ),
                ),
            );
        }
        let ghost so_far = out@;
        out.push(
            XattrEntry {
                name: copy_range(data, span.start + offsets::NAME, span.name_end),
                value: copy_range(data, span.name_end, span.end),
            },
        );
        i = i + 1;
        assert(xattr_models(out@) =~= xattr_models(so_far).push(
            XattrModel {
                name: dir::record_name(data@, starts[i - 1]),
                value: dir::record_value(data@, starts[i - 1]),
            },
        ));
    }
    Ok(out)
}

} // verus!
