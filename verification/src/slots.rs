//! Key allocation for accessibility nodes, backed by `slotmap`.
//!
//! A `SlotMap<DefaultKey, ()>` hands out the versioned keys that identify the
//! nodes of a tree; the library stores each key as the 64-bit pattern that
//! `KeyData::as_ffi` gives for it. The slot map is held in a struct whose
//! contents Verus sees only through `slot_keys`.
use slotmap::{DefaultKey, Key, KeyData, SlotMap};
use vstd::prelude::*;

verus! {

/// The slot map that allocates node keys.
#[verifier::external_body]
pub struct KeySlots {
    slots: SlotMap<DefaultKey, ()>,
}

/// The keys that the slot map currently holds, each as its `as_ffi` bit pattern.
pub uninterp spec fn slot_keys(slots: KeySlots) -> Set<u64>;

/// `SlotMap::new`: a new slot map holds no key.
#[verifier::external_body]
pub(crate) fn slots_new() -> (slots: KeySlots)
    ensures
        slot_keys(slots) == Set::<u64>::empty(),
{
    KeySlots { slots: SlotMap::new() }
}

/// `SlotMap::insert`, then `KeyData::as_ffi` on the key it returns.
///
/// The slot map panics when it already holds `u32::MAX - 1` keys, so fewer are
/// required. The key it returns is one that the map did not hold, and the map
/// holds it afterwards: a vacant slot is reused with a new version, or a new
/// slot is appended, and live keys occupy distinct slots.
#[verifier::external_body]
pub(crate) fn slots_insert(slots: &mut KeySlots) -> (key: u64)
    requires
        slot_keys(*old(slots)).finite(),
        slot_keys(*old(slots)).len() < 0xffff_fffe,
    ensures
        !slot_keys(*old(slots)).contains(key),
        slot_keys(*final(slots)) == slot_keys(*old(slots)).insert(key),
{
    slots.slots.insert(()).data().as_ffi()
}

/// `KeyData::from_ffi`, then `SlotMap::remove` on that key.
///
/// `from_ffi` gives back the key whose `as_ffi` pattern it is given; the key
/// is required to be held, so the map removes exactly that key.
#[verifier::external_body]
pub(crate) fn slots_remove(slots: &mut KeySlots, key: u64)
    requires
        slot_keys(*old(slots)).contains(key),
    ensures
        slot_keys(*final(slots)) == slot_keys(*old(slots)).remove(key),
{
    let removed: DefaultKey = KeyData::from_ffi(key).into();
    slots.slots.remove(removed);
}

} // verus!
