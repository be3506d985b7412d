//! What a path means.

use vstd::prelude::*;

use crate::btree::ItemModel;
use crate::error::ErrorView;
use crate::fs::namespace;
use crate::inode::Inode;

verus! {

/// Whether `c` is the name of something in a directory: not empty, without a
/// slash, and neither `.` nor `..`.
pub open spec fn plain(c: Seq<u8>) -> bool {
    &&& c.len() > 0
    &&& forall|i: int| 0 <= i < c.len() ==> #[trigger] c[i] != 0x2F
    &&& c != seq![0x2Eu8]
    &&& c != seq![0x2Eu8, 0x2Eu8]
}

/// `p`, a slash, and `c`.
pub open spec fn joined(p: Seq<u8>, c: Seq<u8>) -> Seq<u8> {
    p + seq![0x2Fu8] + c
}

proof fn lemma_slash_in_front(p: Seq<u8>, c: Seq<u8>, at: int)
    requires
        0 <= at <= p.len(),
    ensures
        namespace::slash_from(joined(p, c), at) == namespace::slash_from(p, at),
    decreases p.len() - at,
{
    let q = joined(p, c);
    if at < p.len() {
        assert(q[at] == p[at]);
        if p[at] != 0x2F {
            lemma_slash_in_front(p, c, at + 1);
        }
    } else {
        assert(q[at] == 0x2F);
    }
}

proof fn lemma_no_slash(q: Seq<u8>, at: int)
    requires
        0 <= at <= q.len(),
        forall|i: int| at <= i < q.len() ==> #[trigger] q[i] != 0x2F,
    ensures
        namespace::slash_from(q, at) == q.len(),
    decreases q.len() - at,
{
    if at < q.len() {
        lemma_no_slash(q, at + 1);
    }
}

/// The part behind the last slash, where it has no slash itself.
proof fn lemma_tail(p: Seq<u8>, c: Seq<u8>)
    requires
        forall|i: int| 0 <= i < c.len() ==> #[trigger] c[i] != 0x2F,
    ensures
        namespace::components(joined(p, c), p.len() as int + 1) == (if c.len() == 0 || c == seq![0x2Eu8] {
            Seq::<Seq<u8>>::empty()
        } else {
            seq![c]
        }),
{
    let q = joined(p, c);
    let at: int = p.len() as int + 1;
    assert forall|i: int| at <= i < q.len() implies #[trigger] q[i] != 0x2F by {
        assert(q[i] == c[i - at]);
    }
    lemma_no_slash(q, at);
    if c.len() > 0 {
        assert(q.subrange(at, q.len() as int) =~= c);
        assert(namespace::components(q, q.len() as int + 1) =~= Seq::<Seq<u8>>::empty());
        assert(seq![c] + Seq::<Seq<u8>>::empty() =~= seq![c]);
    }
}

proof fn lemma_components(p: Seq<u8>, c: Seq<u8>, at: int)
    requires
        0 <= at <= p.len(),
    ensures
        namespace::components(joined(p, c), at) == namespace::components(p, at)
            + namespace::components(joined(p, c), p.len() as int + 1),
    decreases p.len() - at,
{
    let q = joined(p, c);
    let rest = namespace::components(q, p.len() as int + 1);
    namespace::lemma_slash(q, at);
    namespace::lemma_slash(p, at);
    lemma_slash_in_front(p, c, at);
    let end = namespace::slash_from(p, at);
    if at == p.len() {
        assert(q.subrange(at, at).len() == 0);
        assert(namespace::components(q, at) == rest);
        assert(namespace::components(p, at) + rest =~= rest);
    } else {
        let part = p.subrange(at, end);
        assert(q.subrange(at, end) =~= part);
        if end < p.len() {
            lemma_components(p, c, end + 1);
        } else {
            assert(namespace::components(p, end + 1) =~= Seq::<Seq<u8>>::empty());
            assert(Seq::<Seq<u8>>::empty() + rest =~= rest);
        }
        let later = namespace::components(p, end + 1);
        assert(namespace::components(q, end + 1) == later + rest);
        assert(seq![part] + (later + rest) =~= (seq![part] + later) + rest);
    }
}

/// An inode that a path leads to is the one of its number.
proof fn lemma_resolved_is_filed(items: Seq<ItemModel>, inode: Inode, parts: Seq<Seq<u8>>)
    requires
        namespace::inode_of(items, inode.ino) == Ok::<Inode, ErrorView>(inode),
    ensures
        namespace::resolved(items, inode, parts) matches Ok(d) ==> namespace::inode_of(items, d.ino)
            == Ok::<Inode, ErrorView>(d),
    decreases parts.len(),
{
    if parts.len() > 0 {
        if let Ok(next) = namespace::lookup_outcome(items, inode.ino, parts[0]) {
            lemma_resolved_is_filed(items, next, parts.drop_first());
        }
    }
}

proof fn lemma_resolved_on(
    items: Seq<ItemModel>,
    inode: Inode,
    parts: Seq<Seq<u8>>,
    more: Seq<Seq<u8>>,
)
    ensures
        namespace::resolved(items, inode, parts + more) == (match namespace::resolved(
            items,
            inode,
            parts,
        ) {
            Err(e) => Err(e),
            Ok(d) => namespace::resolved(items, d, more),
        }),
    decreases parts.len(),
{
    if parts.len() == 0 {
        assert(parts + more =~= more);
    } else {
        let all = parts + more;
        assert(all[0] == parts[0]);
        assert(all.drop_first() =~= parts.drop_first() + more);
        if let Ok(next) = namespace::lookup_outcome(items, inode.ino, parts[0]) {
            lemma_resolved_on(items, next, parts.drop_first(), more);
        }
    }
}

proof fn lemma_one_step(items: Seq<ItemModel>, d: Inode, c: Seq<u8>)
    requires
        plain(c),
        namespace::inode_of(items, d.ino) == Ok::<Inode, ErrorView>(d),
    ensures
        namespace::resolved(items, d, seq![c]) == namespace::lookup_outcome(items, d.ino, c),
{
    let one = seq![c];
    assert(one[0] == c);
    assert(one.drop_first() =~= Seq::<Seq<u8>>::empty());
    if let Ok(next) = namespace::lookup_outcome(items, d.ino, c) {
        assert(namespace::resolved(items, next, one.drop_first()) == Ok::<Inode, ErrorView>(next));
    }
}

/// The empty path, and one of slashes alone, is the root directory.
pub proof fn law_the_empty_path_is_the_root(items: Seq<ItemModel>)
    ensures
        namespace::path_outcome(items, Seq::empty()) == namespace::inode_of(items, 256),
        namespace::path_outcome(items, seq![0x2Fu8]) == namespace::inode_of(items, 256),
{
    let slash = seq![0x2Fu8];
    assert(namespace::components(Seq::<u8>::empty(), 0) =~= Seq::<Seq<u8>>::empty());
    assert(slash.subrange(0, 0).len() == 0);
    assert(namespace::components(slash, 1) =~= Seq::<Seq<u8>>::empty());
    assert(namespace::components(slash, 0) =~= Seq::<Seq<u8>>::empty());
}

/// A path goes on from where its front leads: `p/c` is what looking `c` up in
/// what `p` is gives, and nothing where `p` is nothing.
pub proof fn law_a_path_is_looked_up_step_by_step(items: Seq<ItemModel>, p: Seq<u8>, c: Seq<u8>)
    requires
        plain(c),
    ensures
        namespace::path_outcome(items, joined(p, c)) == (match namespace::path_outcome(items, p) {
            Err(e) => Err(e),
            Ok(d) => namespace::lookup_outcome(items, d.ino, c),
        }),
{
    lemma_components(p, c, 0);
    lemma_tail(p, c);
    if let Ok(root) = namespace::inode_of(items, 256) {
        let parts = namespace::components(p, 0);
        lemma_resolved_on(items, root, parts, seq![c]);
        lemma_resolved_is_filed(items, root, parts);
        if let Ok(d) = namespace::resolved(items, root, parts) {
            lemma_one_step(items, d, c);
        }
    }
}

/// A first component is looked up in the root directory.
pub proof fn law_a_path_starts_at_the_root(items: Seq<ItemModel>, c: Seq<u8>)
    requires
        plain(c),
    ensures
        namespace::path_outcome(items, joined(Seq::empty(), c)) == (match namespace::inode_of(
            items,
            256,
        ) {
            Err(e) => Err(e),
            Ok(d) => namespace::lookup_outcome(items, 256, c),
        }),
        namespace::path_outcome(items, c) == namespace::path_outcome(
            items,
            joined(Seq::empty(), c),
        ),
{
    law_a_path_is_looked_up_step_by_step(items, Seq::empty(), c);
    law_the_empty_path_is_the_root(items);
    lemma_components(Seq::empty(), c, 0);
    lemma_tail(Seq::empty(), c);
    lemma_no_slash(c, 0);
    assert(c.subrange(0, c.len() as int) =~= c);
    assert(namespace::components(c, c.len() as int + 1) =~= Seq::<Seq<u8>>::empty());
    assert(seq![c] + Seq::<Seq<u8>>::empty() =~= seq![c]);
    assert(namespace::components(Seq::<u8>::empty(), 0) =~= Seq::<Seq<u8>>::empty());
    assert(Seq::<Seq<u8>>::empty() + seq![c] =~= seq![c]);
}

/// A slash or a `.` behind a path changes nothing.
pub proof fn law_a_trailing_slash_or_dot_changes_nothing(items: Seq<ItemModel>, p: Seq<u8>)
    ensures
        namespace::path_outcome(items, joined(p, Seq::empty())) == namespace::path_outcome(
            items,
            p,
        ),
        namespace::path_outcome(items, joined(p, seq![0x2Eu8])) == namespace::path_outcome(
            items,
            p,
        ),
{
    let none = Seq::<Seq<u8>>::empty();
    lemma_components(p, Seq::empty(), 0);
    lemma_tail(p, Seq::empty());
    lemma_components(p, seq![0x2Eu8], 0);
    lemma_tail(p, seq![0x2Eu8]);
    assert(namespace::components(p, 0) + none =~= namespace::components(p, 0));
}

/// A path through `..` leads nowhere: where its front is something it is
/// refused.
pub proof fn law_a_step_up_is_refused(items: Seq<ItemModel>, p: Seq<u8>)
    ensures
        namespace::path_outcome(items, joined(p, seq![0x2Eu8, 0x2Eu8])) matches Err(e) && (
        namespace::path_outcome(items, p) is Ok ==> e is UnsupportedFeature),
{
    let up = seq![0x2Eu8, 0x2Eu8];
    lemma_components(p, up, 0);
    assert(up.len() != seq![0x2Eu8].len());
    lemma_tail(p, up);
    if let Ok(root) = namespace::inode_of(items, 256) {
        let parts = namespace::components(p, 0);
        lemma_resolved_on(items, root, parts, seq![up]);
        assert(seq![up][0] == up);
    }
}

} // verus!
