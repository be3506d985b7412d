//! Which of several items under one key is held.

use vstd::prelude::*;

use crate::btree;
use crate::btree::ItemModel;
use crate::chunk::DiskKey;
use crate::item_map;
use crate::leaf_edit;

verus! {

proof fn lemma_found(s: Seq<ItemModel>, i: int)
    requires
        leaf_edit::sorted(s),
        0 <= i < s.len(),
    ensures
        item_map::data_under(s, s[i].key) == Some(s[i].data),
{
    let key = s[i].key;
    leaf_edit::law_present_means_held(s, key);
    leaf_edit::lemma_position(s, key);
    let at = leaf_edit::position(s, key);
    assert(leaf_edit::present(s, key));
    if at < i {
        assert(btree::key_less(s[at].key, s[i].key));
    } else if i < at {
        assert(btree::key_less(s[i].key, key));
    }
}

/// What is held under a key is the data of the one item there is under it in
/// key order, and nothing where there is none.
pub proof fn law_an_item_is_found_by_its_key(s: Seq<ItemModel>, key: DiskKey)
    requires
        leaf_edit::sorted(s),
    ensures
        forall|i: int|
            0 <= i < s.len() && (#[trigger] s[i]).key == key ==> item_map::data_under(s, key)
                == Some(s[i].data),
        (forall|i: int| 0 <= i < s.len() ==> (#[trigger] s[i]).key != key) ==> item_map::data_under(
            s,
            key,
        ) is None,
{
    assert forall|i: int| 0 <= i < s.len() && (#[trigger] s[i]).key == key implies
        item_map::data_under(s, key) == Some(s[i].data) by {
        lemma_found(s, i);
    }
    leaf_edit::law_present_means_held(s, key);
}

/// Filing an item changes what is held under its own key, to its data, and
/// under no other.
pub proof fn law_filing_changes_one_key(s: Seq<ItemModel>, item: ItemModel, key: DiskKey)
    requires
        leaf_edit::sorted(s),
    ensures
        item_map::data_under(item_map::filed(s, item), key) == (if key == item.key {
            Some(item.data)
        } else {
            item_map::data_under(s, key)
        }),
{
    item_map::law_filing_keeps_order(s, item);
    let t = item_map::filed(s, item);
    let at = leaf_edit::position(s, item.key);
    leaf_edit::lemma_position(s, item.key);
    if key != item.key {
        law_an_item_is_found_by_its_key(s, key);
        law_an_item_is_found_by_its_key(t, key);
        if exists|i: int| 0 <= i < s.len() && (#[trigger] s[i]).key == key {
            let i = choose|i: int| 0 <= i < s.len() && (#[trigger] s[i]).key == key;
            let j: int = if leaf_edit::present(s, item.key) || i < at {
                i
            } else {
                i + 1
            };
            assert(t[j] == s[i]);
        } else {
            assert forall|j: int| 0 <= j < t.len() implies (#[trigger] t[j]).key != key by {
                if leaf_edit::present(s, item.key) || j < at {
                    if j != at {
                        assert(t[j] == s[j]);
                    }
                } else if j > at {
                    assert(t[j] == s[j - 1]);
                }
            }
        }
    }
}

/// Of the items loaded under one key the last is held, nothing is held under
/// a key that none has, and what is held stands in key order.
pub proof fn law_the_last_item_under_a_key_is_held(s: Seq<ItemModel>, key: DiskKey)
    ensures
        leaf_edit::sorted(item_map::loaded(s)),
        forall|i: int|
            0 <= i < s.len() && (#[trigger] s[i]).key == key && (forall|j: int|
                i < j < s.len() ==> (#[trigger] s[j]).key != key) ==> item_map::data_under(
                item_map::loaded(s),
                key,
            ) == Some(s[i].data),
        (forall|i: int| 0 <= i < s.len() ==> (#[trigger] s[i]).key != key) ==> item_map::data_under(
            item_map::loaded(s),
            key,
        ) is None,
    decreases s.len(),
{
    if s.len() > 0 {
        let front = s.drop_last();
        let n: int = s.len() - 1;
        law_the_last_item_under_a_key_is_held(front, key);
        item_map::law_filing_keeps_order(item_map::loaded(front), s.last());
        law_filing_changes_one_key(item_map::loaded(front), s.last(), key);
        assert(s[n] == s.last());
        assert forall|i: int|
            0 <= i < s.len() && (#[trigger] s[i]).key == key && (forall|j: int|
                i < j < s.len() ==> (#[trigger] s[j]).key != key) implies item_map::data_under(
            item_map::loaded(s),
            key,
        ) == Some(s[i].data) by {
            if i < n {
                assert(s[n].key != key);
                assert(front[i] == s[i]);
                assert forall|j: int| i < j < front.len() implies (#[trigger] front[j]).key
                    != key by {
                    assert(front[j] == s[j]);
                }
            }
        }
        if forall|i: int| 0 <= i < s.len() ==> (#[trigger] s[i]).key != key {
            assert forall|i: int| 0 <= i < front.len() implies (#[trigger] front[i]).key != key by {
                assert(front[i] == s[i]);
            }
        }
    } else {
        law_an_item_is_found_by_its_key(s, key);
    }
}

} // verus!
