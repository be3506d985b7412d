//! How the records packed into an item are told apart and read.
//!
//! A record is a header of 30 bytes, its name and its value: the key of what
//! it names at its front, a transaction id at 17, the length of its value at
//! 25 and of its name at 27, and its type at 29.

use vstd::prelude::*;

use crate::bytes;
use crate::dir;
use crate::dir::DirEntryModel;
use crate::inode::FileType;
use crate::xattr;
use crate::xattr::XattrModel;

verus! {

/// Where the record behind the one at `p` begins.
pub open spec fn behind(data: Seq<u8>, p: int) -> int {
    p + 30 + bytes::u16_at(data, p + 27) + bytes::u16_at(data, p + 25)
}

/// Where the records packed into `data` begin, from `p` on.
pub open spec fn starts(data: Seq<u8>, p: int) -> Seq<int>
    decreases
            if p < data.len() {
                data.len() - p
            } else {
                0
            },
{
    if p < 0 || p >= data.len() {
        Seq::empty()
    } else {
        seq![p] + starts(data, behind(data, p))
    }
}

/// Whether the record at `p` has a name that is not too long, and lies whole
/// inside `data`.
pub open spec fn whole(data: Seq<u8>, p: int) -> bool {
    &&& p + 30 <= data.len()
    &&& 0 < bytes::u16_at(data, p + 27) <= 255
    &&& behind(data, p) <= data.len()
}

/// The name of the record at `p`.
pub open spec fn name(data: Seq<u8>, p: int) -> Seq<u8> {
    data.subrange(p + 30, p + 30 + bytes::u16_at(data, p + 27))
}

/// The value of the record at `p`.
pub open spec fn value(data: Seq<u8>, p: int) -> Seq<u8> {
    data.subrange(p + 30 + bytes::u16_at(data, p + 27), behind(data, p))
}

/// The type that a record's type byte names.
pub open spec fn kind(byte: u8) -> Option<FileType> {
    if byte == 1 {
        Some(FileType::Regular)
    } else if byte == 2 {
        Some(FileType::Directory)
    } else if byte == 3 {
        Some(FileType::CharDevice)
    } else if byte == 4 {
        Some(FileType::BlockDevice)
    } else if byte == 5 {
        Some(FileType::Fifo)
    } else if byte == 6 {
        Some(FileType::Socket)
    } else if byte == 7 {
        Some(FileType::Symlink)
    } else {
        None
    }
}

/// Whether `e` is the directory entry the record at `p` describes.
pub open spec fn describes(data: Seq<u8>, p: int, e: DirEntryModel) -> bool {
    &&& e.name == name(data, p)
    &&& e.ino == bytes::u64_at(data, p)
    &&& e.location_type == data[p + 8]
    &&& e.transid == bytes::u64_at(data, p + 17)
    &&& e.ftype == kind(data[p + 29])
}

/// Whether every record of `data` is a whole one of a known type.
pub open spec fn readable(data: Seq<u8>) -> bool {
    forall|i: int|
        0 <= i < starts(data, 0).len() ==> whole(data, #[trigger] starts(data, 0)[i]) && data[starts(
            data,
            0,
        )[i] + 29] <= 8
}

proof fn lemma_entries(data: Seq<u8>, p: int, before: Seq<DirEntryModel>)
    requires
        0 <= p,
    ensures
        match dir::entries_from(data, p, before) {
            Ok(all) => {
                let s = starts(data, p);
                &&& all.len() == before.len() + s.len()
                &&& forall|i: int| 0 <= i < before.len() ==> #[trigger] all[i] == before[i]
                &&& forall|i: int|
                    0 <= i < s.len() ==> describes(
                        data,
                        #[trigger] s[i],
                        all[before.len() + i],
                    ) && whole(data, s[i]) && data[s[i] + 29] <= 8
            },
            Err(_) => exists|i: int|
                0 <= i < starts(data, p).len() && !(whole(data, #[trigger] starts(data, p)[i])
                    && data[starts(data, p)[i] + 29] <= 8),
        },
    decreases data.len() - p,
{
    let s = starts(data, p);
    if p < data.len() {
        assert(s[0] == p);
        let rest = starts(data, behind(data, p));
        if whole(data, p) && data[p + 29] <= 8 {
            let ftype = dir::type_of_raw(data[p + 29])->Ok_0;
            let next = before.push(dir::entry_at(data, p, ftype));
            lemma_entries(data, behind(data, p), next);
            if let Ok(all) = dir::entries_from(data, p, before) {
                assert forall|i: int| 0 <= i < before.len() implies #[trigger] all[i]
                    == before[i] by {
                    assert(all[i] == next[i]);
                }
                assert forall|i: int| 0 <= i < s.len() implies describes(
                    data,
                    #[trigger] s[i],
                    all[before.len() + i],
                ) && whole(data, s[i]) && data[s[i] + 29] <= 8 by {
                    if i == 0 {
                        assert(all[before.len() as int] == next[before.len() as int]);
                    } else {
                        assert(s[i] == rest[i - 1]);
                    }
                }
            } else {
                let i = choose|i: int|
                    0 <= i < rest.len() && !(whole(data, #[trigger] rest[i]) && data[rest[i] + 29]
                        <= 8);
                assert(s[i + 1] == rest[i]);
            }
        }
    }
}

/// A directory item is read as its records, in their order, and refused where
/// one of them is not whole or of no known type.
pub proof fn law_entries_are_the_records(data: Seq<u8>)
    ensures
        dir::entries_from(data, 0, Seq::empty()) is Ok <==> readable(data),
        dir::entries_from(data, 0, Seq::empty()) matches Ok(all) ==> {
            &&& all.len() == starts(data, 0).len()
            &&& forall|i: int|
                0 <= i < all.len() ==> describes(data, starts(data, 0)[i], #[trigger] all[i])
        },
{
    lemma_entries(data, 0, Seq::empty());
    let s = starts(data, 0);
    if let Ok(all) = dir::entries_from(data, 0, Seq::empty()) {
        assert forall|i: int| 0 <= i < all.len() implies describes(
            data,
            starts(data, 0)[i],
            #[trigger] all[i],
        ) by {
            assert(describes(data, s[i], all[0 + i]));
        }
    }
}

proof fn lemma_found(data: Seq<u8>, p: int, before: Seq<int>)
    requires
        0 <= p,
    ensures
        match xattr::records_from(data, p, before) {
            Ok(all) => all == before + starts(data, p) && forall|i: int|
                0 <= i < starts(data, p).len() ==> whole(data, #[trigger] starts(data, p)[i]),
            Err(_) => exists|i: int|
                0 <= i < starts(data, p).len() && !whole(data, #[trigger] starts(data, p)[i]),
        },
    decreases data.len() - p,
{
    let s = starts(data, p);
    if p < data.len() {
        assert(s[0] == p);
        let rest = starts(data, behind(data, p));
        if whole(data, p) {
            lemma_found(data, behind(data, p), before.push(p));
            if let Ok(all) = xattr::records_from(data, p, before) {
                assert(before.push(p) + rest =~= before + s);
                assert forall|i: int| 0 <= i < s.len() implies whole(data, #[trigger] s[i]) by {
                    if i > 0 {
                        assert(s[i] == rest[i - 1]);
                    }
                }
            } else {
                let i = choose|i: int| 0 <= i < rest.len() && !whole(data, #[trigger] rest[i]);
                assert(s[i + 1] == rest[i]);
            }
        }
    } else {
        assert(before + s =~= before);
    }
}

proof fn lemma_attributes(data: Seq<u8>, s: Seq<int>, i: int, before: Seq<XattrModel>)
    requires
        0 <= i <= s.len(),
        before.len() == i,
        forall|k: int| 0 <= k < s.len() ==> whole(data, #[trigger] s[k]),
        forall|k: int|
            0 <= k < i ==> data[#[trigger] s[k] + 29] == 8 && before[k] == (XattrModel {
                name: name(data, s[k]),
                value: value(data, s[k]),
            }),
    ensures
        match xattr::xattrs_from(data, s, i, before) {
            Ok(all) => all.len() == s.len() && forall|k: int|
                0 <= k < s.len() ==> data[#[trigger] s[k] + 29] == 8 && all[k] == (XattrModel {
                    name: name(data, s[k]),
                    value: value(data, s[k]),
                }),
            Err(_) => exists|k: int| 0 <= k < s.len() && data[#[trigger] s[k] + 29] != 8,
        },
    decreases s.len() - i,
{
    if i < s.len() {
        if data[s[i] + 29] == 8 {
            let next = before.push(
                XattrModel { name: name(data, s[i]), value: value(data, s[i]) },
            );
            assert forall|k: int| 0 <= k < i + 1 implies data[#[trigger] s[k] + 29] == 8 && next[k]
                == (XattrModel { name: name(data, s[k]), value: value(data, s[k]) }) by {
                if k < i {
                    assert(next[k] == before[k]);
                }
            }
            lemma_attributes(data, s, i + 1, next);
        }
    }
}

/// An attribute item is read as its records, in their order: the name of each,
/// with the value behind it. It is refused where one is not whole or is no
/// attribute.
pub proof fn law_attributes_are_the_records(data: Seq<u8>)
    ensures
        xattr::xattrs_outcome(data) is Ok <==> forall|i: int|
            0 <= i < starts(data, 0).len() ==> whole(data, #[trigger] starts(data, 0)[i])
                && data[starts(data, 0)[i] + 29] == 8,
        xattr::xattrs_outcome(data) matches Ok(all) ==> {
            &&& all.len() == starts(data, 0).len()
            &&& forall|i: int|
                0 <= i < all.len() ==> (#[trigger] all[i]).name == name(data, starts(data, 0)[i])
                    && all[i].value == value(data, starts(data, 0)[i])
        },
{
    let s = starts(data, 0);
    lemma_found(data, 0, Seq::empty());
    assert(Seq::<int>::empty() + s =~= s);
    if xattr::records_from(data, 0, Seq::empty()) is Ok {
        lemma_attributes(data, s, 0, Seq::empty());
        if let Ok(all) = xattr::xattrs_outcome(data) {
            assert forall|i: int| 0 <= i < all.len() implies (#[trigger] all[i]).name == name(
                data,
                starts(data, 0)[i],
            ) && all[i].value == value(data, starts(data, 0)[i]) by {
                assert(data[s[i] + 29] == 8);
            }
        }
    }
}

} // verus!
