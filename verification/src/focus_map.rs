//! The per-root focus table, backed by `hashbrown`.
use vstd::prelude::*;

verus! {

/// A table from a root's key bits to the key bits of the node focused within it.
#[verifier::external_body]
pub struct FocusMap {
    map: hashbrown::HashMap<u64, u64>,
}

/// The entries of a focus table.
pub uninterp spec fn focus_entries(table: FocusMap) -> Map<u64, u64>;

/// Whether the entry `root -> focus` stays in the table when the node `removed`
/// leaves the tree: it goes when either end is that node.
pub open spec fn spec_focus_entry_survives(removed: u64, root: u64, focus: u64) -> bool {
    root != removed && focus != removed
}

/// Decides whether the entry `root -> focus` survives the removal of `removed`.
pub(crate) fn focus_entry_survives(removed: u64, root: u64, focus: u64) -> (keep: bool)
    ensures
        keep == spec_focus_entry_survives(removed, root, focus),
{
    root != removed && focus != removed
}

/// A table with no entry.
pub open spec fn empty_focus_entries() -> Map<u64, u64> {
    Map::empty()
}

/// `hashbrown::HashMap::new`: an empty table.
#[verifier::external_body]
pub(crate) fn focus_map_new() -> (fresh: FocusMap)
    ensures
        focus_entries(fresh) == empty_focus_entries(),
{
    FocusMap { map: hashbrown::HashMap::new() }
}

/// `hashbrown::HashMap::get`: the focus recorded for `root`.
#[verifier::external_body]
pub(crate) fn focus_map_get(table: &FocusMap, root: u64) -> (focus: Option<u64>)
    ensures
        focus == (if focus_entries(*table).contains_key(root) {
            Some(focus_entries(*table)[root])
        } else {
            None
        }),
{
    table.map.get(&root).copied()
}

/// `hashbrown::HashMap::insert`: records `focus` for `root`, replacing any earlier entry.
#[verifier::external_body]
pub(crate) fn focus_map_insert(table: &mut FocusMap, root: u64, focus: u64)
    ensures
        focus_entries(*final(table)) == focus_entries(*old(table)).insert(root, focus),
{
    table.map.insert(root, focus);
}

/// `hashbrown::HashMap::remove`: drops the entry of `root`, if any.
#[verifier::external_body]
pub(crate) fn focus_map_remove(table: &mut FocusMap, root: u64)
    ensures
        focus_entries(*final(table)) == focus_entries(*old(table)).remove(root),
{
    table.map.remove(&root);
}

/// `hashbrown::HashMap::retain` with `focus_entry_survives`: drops every entry
/// whose root or focus is `removed`, and keeps the others unchanged.
#[verifier::external_body]
pub(crate) fn focus_map_forget(table: &mut FocusMap, removed: u64)
    ensures
        focus_entries(*final(table)) == focus_entries(*old(table)).restrict(
            focus_entries(*old(table)).dom().filter(
                |root: u64| spec_focus_entry_survives(removed, root, focus_entries(*old(table))[root]),
            ),
        ),
{
    table.map.retain(|root, focus| focus_entry_survives(removed, *root, *focus));
}

} // verus!
