//! Sets of addresses.

use vstd::prelude::*;

verus! {

/// Addresses in ascending order, none of them twice.
#[derive(Debug)]
pub struct AddressSet {
    list: Vec<u64>,
}

impl View for AddressSet {
    type V = Seq<u64>;

    closed spec fn view(&self) -> Seq<u64> {
        self.list@
    }
}

/// Whether addresses strictly ascend.
pub open spec fn ascending(s: Seq<u64>) -> bool {
    forall|i: int, j: int| 0 <= i < j < s.len() ==> #[trigger] s[i] < #[trigger] s[j]
}

/// How many of the addresses from the front are smaller than `a`, where they
/// ascend.
pub open spec fn spot(s: Seq<u64>, a: u64) -> int
    decreases s.len(),
{
    if s.len() == 0 || s.last() < a {
        s.len() as int
    } else {
        spot(s.drop_last(), a)
    }
}

/// `s` with `a` put in its place, if it is not there.
pub open spec fn added(s: Seq<u64>, a: u64) -> Seq<u64> {
    if s.contains(a) {
        s
    } else {
        s.insert(spot(s, a), a)
    }
}

/// `s` with the addresses `from ..` of `more` added.
pub open spec fn all_added(s: Seq<u64>, more: Seq<u64>, from: int) -> Seq<u64>
    decreases more.len() - from,
{
    if from < 0 || from >= more.len() {
        s
    } else {
        all_added(added(s, more[from]), more, from + 1)
    }
}

pub proof fn lemma_spot(s: Seq<u64>, a: u64)
    ensures
        0 <= spot(s, a) <= s.len(),
        spot(s, a) > 0 ==> s[spot(s, a) - 1] < a,
        forall|i: int| spot(s, a) <= i < s.len() ==> #[trigger] s[i] >= a,
    decreases s.len(),
{
    if s.len() > 0 && s.last() >= a {
        let front = s.drop_last();
        lemma_spot(front, a);
        assert forall|i: int| spot(s, a) <= i < s.len() implies #[trigger] s[i] >= a by {
            if i < front.len() {
                assert(front[i] == s[i]);
            }
        }
    }
}

/// What is in a list after an address is added: what was in it, and the
/// address.
#[verifier::rlimit(40)]
pub proof fn lemma_added_set(s: Seq<u64>, a: u64)
    ensures
        added(s, a).to_set() == s.to_set().insert(a),
{
    lemma_spot(s, a);
    let at = spot(s, a);
    let t = added(s, a);
    if !s.contains(a) {
        assert(t[at] == a);
        assert forall|x: u64| t.contains(x) == (s.contains(x) || x == a) by {
            if s.contains(x) {
                let k = choose|k: int| 0 <= k < s.len() && s[k] == x;
                if k < at {
                    assert(t[k] == x);
                } else {
                    assert(t[k + 1] == x);
                }
            }
            if t.contains(x) {
                let k = choose|k: int| 0 <= k < t.len() && t[k] == x;
                if k < at {
                    assert(s[k] == x);
                } else if k > at {
                    assert(s[k - 1] == x);
                }
            }
        }
    }
    assert(t.to_set() =~= s.to_set().insert(a));
}

/// Adding an address keeps the order, holds the address, and loses none.
pub proof fn lemma_added(s: Seq<u64>, a: u64)
    requires
        ascending(s),
    ensures
        ascending(added(s, a)),
        added(s, a).contains(a),
        forall|x: u64| #[trigger] added(s, a).contains(x) == (s.contains(x) || x == a),
        added(s, a).len() == s.len() + (if s.contains(a) {
            0int
        } else {
            1
        }),
{
    lemma_spot(s, a);
    let at = spot(s, a);
    let t = added(s, a);
    if !s.contains(a) {
        assert forall|i: int, j: int| 0 <= i < j < t.len() implies #[trigger] t[i]
            < #[trigger] t[j] by {
            if i < at && j == at {
                if i < at - 1 {
                    assert(s[i] < s[at - 1]);
                }
            } else if i == at {
                assert(s[j - 1] >= a);
                assert(s.contains(s[j - 1]));
            } else if i < at && j > at {
                assert(s[i] < s[j - 1]);
            }
        }
        assert(t[at] == a);
        assert forall|x: u64| #[trigger] t.contains(x) == (s.contains(x) || x == a) by {
            if s.contains(x) {
                let k = choose|k: int| 0 <= k < s.len() && s[k] == x;
                if k < at {
                    assert(t[k] == x);
                } else {
                    assert(t[k + 1] == x);
                }
            }
            if t.contains(x) {
                let k = choose|k: int| 0 <= k < t.len() && t[k] == x;
                if k < at {
                    assert(s[k] == x);
                } else if k > at {
                    assert(s[k - 1] == x);
                }
            }
        }
    }
}

/// Adding addresses keeps the order and loses none; what was there and what
/// is added is all there is.
pub proof fn lemma_all_added(s: Seq<u64>, more: Seq<u64>, from: int)
    requires
        ascending(s),
        0 <= from,
    ensures
        ascending(all_added(s, more, from)),
        all_added(s, more, from).len() >= s.len(),
        forall|x: u64| s.contains(x) ==> #[trigger] all_added(s, more, from).contains(x),
        forall|i: int|
            from <= i < more.len() ==> all_added(s, more, from).contains(#[trigger] more[i]),
        all_added(s, more, from).len() == s.len() ==> all_added(s, more, from) == s,
    decreases more.len() - from,
{
    if from < more.len() {
        lemma_added(s, more[from]);
        let next = added(s, more[from]);
        lemma_all_added(next, more, from + 1);
        let all = all_added(s, more, from);
        assert forall|x: u64| s.contains(x) implies #[trigger] all.contains(x) by {
            assert(next.contains(x));
        }
        assert(next.contains(more[from]));
    }
}

impl AddressSet {
    /// Whether the addresses are in order.
    pub open spec fn ordered(&self) -> bool {
        ascending(self@)
    }

    /// A set that holds nothing.
    pub fn new() -> (set: Self)
        ensures
            set@ == Seq::<u64>::empty(),
            set.ordered(),
    {
        AddressSet { list: Vec::new() }
    }

    /// Whether `a` is in the set.
    pub fn contains(&self, a: u64) -> (yes: bool)
        requires
            self.ordered(),
        ensures
            yes == self@.contains(a),
    {
        let at: usize = self.position(a);
        let yes = at < self.list.len() && self.list[at] == a;
        proof {
            if !yes && self@.contains(a) {
                let k = choose|k: int| 0 <= k < self@.len() && self@[k] == a;
                if k > at {
                    assert(self@[at as int] < self@[k]);
                }
            }
        }
        yes
    }

    /// How many addresses are smaller than `a`.
    fn position(&self, a: u64) -> (at: usize)
        requires
            self.ordered(),
        ensures
            at == spot(self@, a),
            at <= self@.len(),
            forall|i: int| 0 <= i < at ==> #[trigger] self@[i] < a,
            forall|i: int| at <= i < self@.len() ==> #[trigger] self@[i] >= a,
    {
        let mut lo: usize = 0;
        let mut hi: usize = self.list.len();
        while lo < hi
            invariant
                self.ordered(),
                lo <= hi <= self@.len(),
                forall|i: int| 0 <= i < lo ==> #[trigger] self@[i] < a,
                forall|i: int| hi <= i < self@.len() ==> #[trigger] self@[i] >= a,
            decreases hi - lo,
        {
            let mid: usize = lo + (hi - lo) / 2;
            let here: u64 = self.list[mid];
            assert(self@[mid as int] == here);
            if here < a {
                assert forall|i: int| 0 <= i < mid + 1 implies #[trigger] self@[i] < a by {
                    if i < mid {
                        assert(self@[i] < self@[mid as int]);
                    }
                }
                lo = mid + 1;
            } else {
                assert forall|i: int| mid <= i < self@.len() implies #[trigger] self@[i] >= a by {
                    if i > mid {
                        assert(self@[mid as int] < self@[i]);
                    }
                }
                hi = mid;
            }
        }
        proof {
            lemma_spot(self@, a);
            let r = spot(self@, a);
            if r > lo {
                assert(self@[r - 1] >= a);
            }
            if r < lo {
                assert(self@[r] < a);
            }
        }
        lo
    }

    /// Put `a` in the set. Returns whether it was not there before.
    pub fn insert(&mut self, a: u64) -> (fresh: bool)
        requires
            old(self).ordered(),
        ensures
            final(self)@ == added(old(self)@, a),
            final(self).ordered(),
            fresh == !old(self)@.contains(a),
    {
        proof {
            lemma_added(self@, a);
        }
        if self.contains(a) {
            return false;
        }
        let at: usize = self.position(a);
        self.list.insert(at, a);
        true
    }

    /// Put all of `more` in the set.
    pub fn extend(&mut self, more: &[u64])
        requires
            old(self).ordered(),
        ensures
            final(self)@ == all_added(old(self)@, more@, 0),
            final(self).ordered(),
    {
        let mut i: usize = 0;
        while i < more.len()
            invariant
                i <= more@.len(),
                self.ordered(),
                all_added(old(self)@, more@, 0) == all_added(self@, more@, i as int),
            decreases more@.len() - i,
        {
            self.insert(more[i]);
            i = i + 1;
        }
    }

    /// How many addresses the set holds.
    pub fn len(&self) -> (n: usize)
        ensures
            n == self@.len(),
    {
        self.list.len()
    }

    /// The addresses, in ascending order.
    pub fn as_slice(&self) -> (out: &[u64])
        ensures
            out@ == self@,
    {
        self.list.as_slice()
    }
}

proof fn lemma_all_addresses()
    ensures
        Set::<u64>::full().finite(),
{
    let ints = vstd::set_lib::set_int_range(0, u64::MAX + 1);
    vstd::set_lib::lemma_int_range(0, u64::MAX + 1);
    let f = |i: int| i as u64;
    ints.lemma_map_finite(f);
    assert forall|a: u64| Set::<u64>::full().contains(a) implies #[trigger] ints.map(f).contains(
        a,
    ) by {
        assert(ints.contains(a as int) && f(a as int) == a);
    }
    assert(Set::<u64>::full().subset_of(ints.map(f)));
    vstd::set_lib::lemma_set_subset_finite(ints.map(f), Set::<u64>::full());
}

/// There are only so many addresses: each one more in a set leaves one less
/// outside it.
pub proof fn lemma_one_less_outside(seen: Set<u64>, a: u64)
    ensures
        seen.complement().finite(),
        !seen.contains(a) ==> seen.insert(a).complement().len() < seen.complement().len(),
{
    lemma_all_addresses();
    vstd::set_lib::lemma_set_subset_finite(Set::<u64>::full(), seen.complement());
    if !seen.contains(a) {
        assert(seen.insert(a).complement() =~= seen.complement().remove(a));
        assert(seen.complement().contains(a));
    }
}

/// A larger set leaves less outside it.
pub proof fn lemma_less_outside(a: Set<u64>, b: Set<u64>)
    requires
        a.subset_of(b),
    ensures
        b.complement().len() <= a.complement().len(),
        b.complement().len() == a.complement().len() ==> a == b,
{
    lemma_all_addresses();
    vstd::set_lib::lemma_set_subset_finite(Set::<u64>::full(), a.complement());
    vstd::set_lib::lemma_set_subset_finite(Set::<u64>::full(), b.complement());
    assert(b.complement().subset_of(a.complement()));
    vstd::set_lib::lemma_len_subset(b.complement(), a.complement());
    if b.complement().len() == a.complement().len() {
        vstd::set_lib::lemma_subset_equality(b.complement(), a.complement());
        assert forall|x: u64| a.contains(x) == b.contains(x) by {
            assert(a.complement().contains(x) == b.complement().contains(x));
        }
        assert(a =~= b);
    }
}

} // verus!
