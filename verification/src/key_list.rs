//! Ordered lists of node keys, backed by `smallvec`.
use smallvec::SmallVec;
use vstd::prelude::*;

use crate::access_key::AccessKey;

verus! {

/// An ordered list of node keys with room for four keys inline.
#[verifier::external_body]
pub struct KeyList {
    items: SmallVec<[AccessKey; 4]>,
}

/// The keys that a list holds, in order.
pub uninterp spec fn key_list_items(list: KeyList) -> Seq<AccessKey>;

/// The longest list that `key_list_push` accepts: `SmallVec::push` panics when
/// the grown capacity overflows, which this bound rules out.
pub open spec fn key_list_len_limit() -> int {
    usize::MAX as int / 32
}

/// `SmallVec::new`: an empty list.
#[verifier::external_body]
pub(crate) fn key_list_new() -> (list: KeyList)
    ensures
        key_list_items(list) == Seq::<AccessKey>::empty(),
{
    KeyList { items: SmallVec::new() }
}

/// `SmallVec::len`: the number of keys in the list.
#[verifier::external_body]
pub(crate) fn key_list_len(list: &KeyList) -> (len: usize)
    ensures
        len == key_list_items(*list).len(),
{
    list.items.len()
}

/// Indexing a `SmallVec`: the key at position `index`.
#[verifier::external_body]
pub(crate) fn key_list_get(list: &KeyList, index: usize) -> (key: AccessKey)
    requires
        index < key_list_items(*list).len(),
    ensures
        key == key_list_items(*list)[index as int],
{
    list.items[index]
}

/// `SmallVec::push`: appends a key at the end of the list.
#[verifier::external_body]
pub(crate) fn key_list_push(list: &mut KeyList, key: AccessKey)
    requires
        key_list_items(*old(list)).len() < key_list_len_limit(),
    ensures
        key_list_items(*final(list)) == key_list_items(*old(list)).push(key),
{
    list.items.push(key);
}

/// `SmallVec::clone`: a list holding the same keys in the same order.
#[verifier::external_body]
pub(crate) fn key_list_clone(list: &KeyList) -> (copy: KeyList)
    ensures
        key_list_items(copy) == key_list_items(*list),
{
    KeyList { items: list.items.clone() }
}

} // verus!
