//! The accessibility tree: a forest of nodes keyed by slot-map keys, with one
//! optional window per root and one optional focused node per root.
use std::collections::HashMap;
use vstd::prelude::*;
use vstd::std_specs::hash::group_hash_axioms;

use crate::access_key::AccessKey;
use crate::access_node::{AccessNode, NodeView};
use crate::access_property::{AccessProperty, ChangeView, PropertyChange, PropertyValue, ValueView};
use crate::access_rect::AccessRect;
use crate::access_window::AccessNodeContext;
use crate::focus_map::{focus_entries, focus_map_forget, focus_map_get, focus_map_insert, focus_map_new, focus_map_remove, FocusMap};
use crate::key_list::{key_list_clone, key_list_get, key_list_items, key_list_len, key_list_len_limit, key_list_new, key_list_push, KeyList};
use crate::shape::{
    lemma_ancestor_depth, lemma_ancestor_step, lemma_child_in_subtree, lemma_child_subtree_inside,
    lemma_depth_bound, lemma_filter_absent, lemma_filter_contains_iff, lemma_filter_index, lemma_moved,
    lemma_sibling_subtrees_disjoint, lemma_subtree_split, other_than, Shape, lemma_root_of,
    lemma_root_of_agree, lemma_subtree_root, lemma_moved_root_of, lemma_path_through_child,
    lemma_filter_not_in_empty, lemma_filter_not_in_push, lemma_restricted_ancestry, lemma_take_one_more, not_in,
};
use crate::slots::{slot_keys, slots_insert, slots_new, slots_remove, KeySlots};
use crate::text_store::{smol_as_str, smol_new};

verus! {

broadcast use group_hash_axioms;

/// `HashMap::get_mut`: mutable access to the node stored under `key`, if any;
/// the map afterwards holds whatever the node was left as.
#[verifier::external_body]
fn node_entry_mut<U: AccessNodeContext>(nodes: &mut HashMap<u64, AccessNode<U>>, key: u64) -> (entry:
    Option<&mut AccessNode<U>>)
    ensures
        match entry {
            Some(node) => {
                &&& old(nodes)@.contains_key(key)
                &&& *node == old(nodes)@[key]
                &&& final(nodes)@ == old(nodes)@.insert(key, *final(node))
            },
            None => {
                &&& !old(nodes)@.contains_key(key)
                &&& final(nodes)@ == old(nodes)@
            },
        },
{
    nodes.get_mut(&key)
}

/// The node map after `c` is appended to the children of `p`.
pub open spec fn with_child_appended<U>(nodes: Map<u64, NodeView<U>>, p: AccessKey, c: AccessKey) -> Map<
    u64,
    NodeView<U>,
> {
    nodes.insert(p.bits, NodeView { children: nodes[p.bits].children.push(c), ..nodes[p.bits] })
}

/// A collection of accessibility nodes exposed to the native platform.
///
/// A tree can contain multiple roots, with each root representing a window.
pub struct AccessTree<T, U: AccessNodeContext> {
    slots: KeySlots,
    nodes: HashMap<u64, AccessNode<U>>,
    roots: HashMap<u64, Option<T>>,
    focused_nodes: FocusMap,
    framework_name: String,
    depth: Ghost<Map<u64, nat>>,
}

impl<T, U: AccessNodeContext> AccessTree<T, U> {
    /// The nodes of the tree, keyed by their key bits.
    pub closed spec fn nodes(&self) -> Map<u64, NodeView<U>> {
        self.nodes@.map_values(|n: AccessNode<U>| n@)
    }

    /// The roots of the tree, each with the window associated with it, if any.
    pub closed spec fn roots(&self) -> Map<u64, Option<T>> {
        self.roots@
    }

    /// The focused node of each root that has one.
    pub closed spec fn focus(&self) -> Map<u64, u64> {
        focus_entries(self.focused_nodes)
    }

    /// The name of the UI framework that owns the tree.
    pub closed spec fn framework(&self) -> Seq<char> {
        self.framework_name@
    }

    /// The parent/child structure of the tree.
    pub closed spec fn shape(&self) -> Shape {
        Shape {
            parent: self.nodes().map_values(|n: NodeView<U>| n.parent),
            children: self.nodes().map_values(|n: NodeView<U>| n.children),
            depth: self.depth@,
        }
    }

    /// Whether `k` is a node of this tree.
    pub open spec fn contains(&self, k: AccessKey) -> bool {
        self.nodes().contains_key(k.bits)
    }

    /// The tree's invariant: its links are consistent (`links_ok`) and each
    /// focus entry names a node within the tree of the root it belongs to.
    pub closed spec fn wf(&self) -> bool {
        &&& self.links_ok()
        &&& self.focus_rooted()
    }

    /// The slot map holds exactly the tree's keys; parent and child links
    /// agree and form a forest; the roots are exactly the nodes without a
    /// parent; each focus entry belongs to a root and names a node; and every
    /// child list stays short enough to grow.
    closed spec fn links_ok(&self) -> bool {
        &&& slot_keys(self.slots) == self.nodes@.dom()
        &&& self.shape().wf()
        &&& forall|b: u64| #[trigger]
            self.roots@.contains_key(b) <==> (self.nodes@.contains_key(b) && self.nodes@[b]@.parent is None)
        &&& forall|b: u64| #[trigger]
            self.focus().contains_key(b) ==> self.roots@.contains_key(b) && self.nodes@.contains_key(
                self.focus()[b],
            )
        &&& forall|b: u64| #[trigger]
            self.nodes@.contains_key(b) ==> self.nodes@[b]@.children.len() <= key_list_len_limit()
    }

    /// Each focused node lies in the tree of the root whose focus it is.
    closed spec fn focus_rooted(&self) -> bool {
        forall|b: u64| #[trigger]
            self.focus().contains_key(b) ==> self.shape().root_of(AccessKey { bits: self.focus()[b] }).bits == b
    }

    /// A tree whose nodes all appear in `old_tree` with the same parents and
    /// depths, and whose focus entries are entries of `old_tree`, keeps every
    /// focused node within its root.
    proof fn lemma_focus_rooted_kept(old_tree: &Self, new_tree: &Self)
        requires
            old_tree.wf(),
            new_tree.links_ok(),
            forall|x: AccessKey| #[trigger]
                new_tree.shape().has(x) ==> old_tree.shape().has(x) && old_tree.shape().par(x)
                    == new_tree.shape().par(x) && old_tree.shape().dep(x) == new_tree.shape().dep(x),
            forall|b: u64| #[trigger]
                new_tree.focus().contains_key(b) ==> old_tree.focus().contains_key(b) && new_tree.focus()[b]
                    == old_tree.focus()[b],
        ensures
            new_tree.wf(),
    {
        assert forall|b: u64| #[trigger]
            new_tree.focus().contains_key(b) implies new_tree.shape().root_of(
            AccessKey { bits: new_tree.focus()[b] },
        ).bits == b by {
            let f = AccessKey { bits: new_tree.focus()[b] };
            assert(old_tree.focus().contains_key(b));
            assert(new_tree.shape().has(f));
            lemma_root_of_agree(new_tree.shape(), old_tree.shape(), f);
        }
    }

    /// A tree that holds every node of `old_tree` with the same parents and
    /// depths, and the same focus entries, keeps every focused node within
    /// its root.
    proof fn lemma_focus_rooted_grown(old_tree: &Self, new_tree: &Self)
        requires
            old_tree.wf(),
            new_tree.links_ok(),
            forall|x: AccessKey| #[trigger]
                old_tree.shape().has(x) ==> new_tree.shape().has(x) && new_tree.shape().par(x)
                    == old_tree.shape().par(x) && new_tree.shape().dep(x) == old_tree.shape().dep(x),
            new_tree.focus() == old_tree.focus(),
        ensures
            new_tree.wf(),
    {
        assert forall|b: u64| #[trigger]
            new_tree.focus().contains_key(b) implies new_tree.shape().root_of(
            AccessKey { bits: new_tree.focus()[b] },
        ).bits == b by {
            let f = AccessKey { bits: old_tree.focus()[b] };
            assert(old_tree.focus().contains_key(b));
            assert(old_tree.shape().has(f));
            lemma_root_of_agree(old_tree.shape(), new_tree.shape(), f);
        }
    }

    /// Creates an empty accessibility tree.
    pub fn new() -> (tree: Self)
        ensures
            tree.wf(),
            tree.nodes() == Map::<u64, NodeView<U>>::empty(),
            tree.roots() == Map::<u64, Option<T>>::empty(),
            tree.focus() == Map::<u64, u64>::empty(),
            tree.framework() == Seq::<char>::empty(),
    {
        let tree = AccessTree {
            slots: slots_new(),
            nodes: HashMap::new(),
            roots: HashMap::new(),
            focused_nodes: focus_map_new(),
            framework_name: String::new(),
            depth: Ghost(Map::empty()),
        };
        proof {
            assert(tree.nodes@.dom() =~= Set::<u64>::empty());
            assert(tree.nodes() =~= Map::<u64, NodeView<U>>::empty());
            assert(tree.shape().parent.dom() =~= Set::<u64>::empty());
            assert(tree.shape().children.dom() =~= Set::<u64>::empty());
        }
        tree
    }

    /// Returns `true` if `node` belongs to this tree.
    pub fn contains_node(&self, node: AccessKey) -> (r: bool)
        requires
            self.wf(),
        ensures
            r == self.contains(node),
    {
        self.nodes.contains_key(&node.bits)
    }

    /// Returns the number of nodes in the tree.
    pub fn node_count(&self) -> (n: usize)
        ensures
            n == self.nodes().len(),
    {
        proof {
            assert(self.nodes().dom() =~= self.nodes@.dom());
        }
        self.nodes.len()
    }

    /// Returns the number of children of `node`, or `None` if `node` is not in the tree.
    pub fn child_count(&self, node: AccessKey) -> (r: Option<usize>)
        ensures
            match r {
                Some(n) => self.contains(node) && n == self.nodes()[node.bits].children.len(),
                None => !self.contains(node),
            },
    {
        match self.nodes.get(&node.bits) {
            Some(n) => Some(key_list_len(n.child_list())),
            None => None,
        }
    }

    /// Returns a shared reference to `node`, or `None` if it does not belong to this tree.
    pub fn get_node(&self, node: AccessKey) -> (r: Option<&AccessNode<U>>)
        requires
            self.wf(),
        ensures
            match r {
                Some(n) => self.contains(node) && n@ == self.nodes()[node.bits],
                None => !self.contains(node),
            },
    {
        self.nodes.get(&node.bits)
    }

    /// Returns the parent of `node`, or `None` if it is a root or does not belong to this tree.
    pub fn get_parent(&self, node: AccessKey) -> (r: Option<AccessKey>)
        requires
            self.wf(),
        ensures
            r == (if self.contains(node) {
                self.nodes()[node.bits].parent
            } else {
                None
            }),
    {
        match self.nodes.get(&node.bits) {
            Some(n) => n.parent_key(),
            None => None,
        }
    }

    /// Adds a node to the tree and returns its key.
    ///
    /// If `parent` is provided, the new node is appended to the parent's list
    /// of children. Otherwise, the node becomes a new root.
    pub fn insert_node(&mut self, node: AccessNode<U>, parent: Option<AccessKey>) -> (key: AccessKey)
        requires
            old(self).wf(),
            node@.children.len() == 0,
            old(self).nodes().len() < 0xffff_fffe,
            parent is Some ==> old(self).contains(parent->0) && old(self).nodes()[parent->0.bits].children.len()
                < key_list_len_limit(),
        ensures
            final(self).wf(),
            !old(self).contains(key),
            final(self).nodes() == (match parent {
                Some(p) => with_child_appended(old(self).nodes(), p, key),
                None => old(self).nodes(),
            }).insert(key.bits, NodeView { parent, ..node@ }),
            final(self).roots() == (if parent is None {
                old(self).roots().insert(key.bits, None)
            } else {
                old(self).roots()
            }),
            final(self).focus() == old(self).focus(),
            final(self).framework() == old(self).framework(),
    {
        let ghost old_nodes = self.nodes();
        let ghost old_shape = self.shape();
        let ghost old_self = *self;
        let mut node = node;
        node.set_parent(parent);
        proof {
            assert(self.nodes@.dom() =~= old_nodes.dom());
        }
        let bits = slots_insert(&mut self.slots);
        let key = AccessKey { bits };
        self.nodes.insert(bits, node);
        match parent {
            Some(p) => {
                match node_entry_mut(&mut self.nodes, p.bits) {
                    Some(parent_node) => {
                        parent_node.push_child(key);
                    },
                    None => {},
                }
            },
            None => {
                self.roots.insert(bits, None);
            },
        }
        let ghost new_depth: nat = match parent {
            Some(p) => old_shape.dep(p) + 1,
            None => 0,
        };
        self.depth = Ghost(self.depth@.insert(bits, new_depth));
        proof {
            let expected = (match parent {
                Some(p) => with_child_appended(old_nodes, p, key),
                None => old_nodes,
            }).insert(key.bits, NodeView { parent, ..node@ });
            assert(self.nodes() =~= expected);
            let s = self.shape();
            assert(s.parent.dom() =~= old_shape.parent.dom().insert(bits));
            assert(s.children.dom() =~= old_shape.parent.dom().insert(bits));
            assert(s.depth.dom() =~= old_shape.parent.dom().insert(bits));
            assert forall|k: AccessKey| #[trigger] s.has(k) implies match s.par(k) {
                Some(p) => {
                    &&& s.has(p)
                    &&& s.kids(p).contains(k)
                    &&& s.dep(k) == s.dep(p) + 1
                },
                None => s.dep(k) == 0,
            } by {
                if k.bits == bits {
                    assert(k == key);
                    match parent {
                        Some(p) => {
                            assert(s.kids(p) == old_shape.kids(p).push(key));
                            assert(s.kids(p)[old_shape.kids(p).len() as int] == key);
                        },
                        None => {},
                    }
                } else {
                    assert(old_shape.has(k));
                    match old_shape.par(k) {
                        Some(q) => {
                            assert(s.kids(q) =~= old_shape.kids(q) || s.kids(q) =~= old_shape.kids(q).push(key));
                            let i = choose|i: int| 0 <= i < old_shape.kids(q).len() && old_shape.kids(q)[i] == k;
                            assert(s.kids(q)[i] == k);
                        },
                        None => {},
                    }
                }
            }
            assert forall|p: AccessKey, i: int|
                s.has(p) && 0 <= i < s.kids(p).len() implies s.has(#[trigger] s.kids(p)[i]) && s.par(
                    s.kids(p)[i],
                ) == Some(p) by {
                if p.bits == bits {
                    assert(s.kids(p).len() == 0);
                } else if parent == Some(p) && i == old_shape.kids(p).len() {
                    assert(s.kids(p)[i] == key);
                } else {
                    assert(s.kids(p)[i] == old_shape.kids(p)[i]);
                    assert(old_shape.has(old_shape.kids(p)[i]));
                }
            }
            assert(slot_keys(self.slots) == self.nodes@.dom());
            assert(s.domains_ok());
            assert(s.upward_ok());
            assert(s.downward_ok());
            assert(s.wf());
            assert forall|b: u64| #[trigger]
                self.roots@.contains_key(b) <==> (self.nodes@.contains_key(b) && self.nodes@[b]@.parent is None) by {
                if self.nodes@.contains_key(b) {
                    assert(self.nodes@[b]@ == self.nodes()[b]);
                    if b != bits {
                        assert(old_nodes.contains_key(b));
                        assert(self.nodes()[b].parent == old_nodes[b].parent);
                        assert(old_self.nodes@[b]@ == old_nodes[b]);
                    }
                }
            }
            assert forall|b: u64| #[trigger]
                self.focus().contains_key(b) implies self.roots@.contains_key(b) && self.nodes@.contains_key(
                    self.focus()[b],
                ) by {
                assert(old_self.focus().contains_key(b));
            }
            assert(self.links_ok());
            assert forall|x: AccessKey| #[trigger]
                old_shape.has(x) implies s.has(x) && s.par(x) == old_shape.par(x) && s.dep(x) == old_shape.dep(x) by {
                assert(old_nodes.contains_key(x.bits));
                assert(x.bits != bits);
            }
            Self::lemma_focus_rooted_grown(&old_self, self);
        }
        key
    }

    /// Returns a root whose window `matches` accepts, or `None` if the window
    /// of no root is accepted. Roots are tried in the order in which the
    /// root map hands them out, which is left open: when several windows are
    /// accepted, any of their roots may come back.
    pub fn find_window_root<F: Fn(&T) -> bool>(&self, matches: F) -> (r: Option<AccessKey>)
        requires
            self.wf(),
            forall|w: &T| matches.requires((w,)),
        ensures
            match r {
                Some(k) => {
                    &&& self.roots().contains_key(k.bits)
                    &&& self.roots()[k.bits] is Some
                    &&& matches.ensures((&self.roots()[k.bits]->0,), true)
                },
                None => forall|b: u64| #[trigger]
                    self.roots().contains_key(b) && self.roots()[b] is Some ==> matches.ensures(
                        (&self.roots()[b]->0,),
                        false,
                    ),
            },
    {
        for entry in it: self.roots.iter()
            invariant
                forall|w: &T| matches.requires((w,)),
                forall|j: int|
                    0 <= j < it.index() ==> (#[trigger] it.seq()[j]).1 is None || matches.ensures(
                        (&it.seq()[j].1->0,),
                        false,
                    ),
        {
            let (k, w) = entry;
            match w {
                Some(win) => {
                    if matches(win) {
                        return Some(AccessKey { bits: *k });
                    }
                },
                None => {},
            }
        }
        None
    }

    /// Returns whether `node` lies in the subtree rooted at `top`, which
    /// includes `top` itself.
    pub fn is_in_subtree(&self, top: AccessKey, node: AccessKey) -> (r: bool)
        requires
            self.wf(),
        ensures
            r == self.shape().in_subtree(top, node),
    {
        if !self.nodes.contains_key(&node.bits) {
            return false;
        }
        let ghost s = self.shape();
        let mut current = node;
        loop
            invariant
                self.wf(),
                s == self.shape(),
                self.contains(current),
                s.in_subtree(top, node) == s.in_subtree(top, current),
            decreases s.dep(current),
        {
            proof {
                assert(s.has(current));
            }
            if current.bits == top.bits {
                proof {
                    assert(current == top);
                }
                return true;
            }
            let parent = match self.nodes.get(&current.bits) {
                Some(n) => n.parent_key(),
                None => None,
            };
            match parent {
                Some(p) => {
                    proof {
                        assert(s.has(p));
                        lemma_ancestor_step(s, top, current);
                    }
                    current = p;
                },
                None => {
                    return false;
                },
            }
        }
    }

    /// Returns whether `set_children(parent, children)` may run: `parent` and
    /// every listed node belong to the tree, no listed node is `parent` or one
    /// of its ancestors, and the lists stay within the length that a child
    /// list can reach.
    pub fn can_set_children(&self, parent: AccessKey, children: &[AccessKey]) -> (r: bool)
        requires
            self.wf(),
        ensures
            r == (self.contains(parent) && (forall|i: int|
                0 <= i < children@.len() ==> {
                    &&& self.contains(#[trigger] children@[i])
                    &&& !self.shape().in_subtree(children@[i], parent)
                }) && self.nodes()[parent.bits].children.len() + children@.len() <= key_list_len_limit()),
    {
        let ghost kids = children@;
        let pn = match self.nodes.get(&parent.bits) {
            Some(n) => n,
            None => {
                return false;
            },
        };
        let olen = key_list_len(pn.child_list());
        let limit: usize = usize::MAX / 32;
        if children.len() > limit || olen > limit - children.len() {
            return false;
        }
        let mut i: usize = 0;
        while i < children.len()
            invariant
                self.wf(),
                self.contains(parent),
                kids == children@,
                i <= kids.len(),
                forall|i2: int|
                    0 <= i2 < i ==> {
                        &&& self.contains(#[trigger] kids[i2])
                        &&& !self.shape().in_subtree(kids[i2], parent)
                    },
            decreases kids.len() - i,
        {
            let c = children[i];
            if !self.nodes.contains_key(&c.bits) {
                return false;
            }
            if self.is_in_subtree(c, parent) {
                return false;
            }
            i = i + 1;
        }
        true
    }

    /// Returns the root that contains `node`, or `None` if `node` is not in the tree.
    pub fn get_node_root(&self, node: AccessKey) -> (r: Option<AccessKey>)
        requires
            self.wf(),
        ensures
            r == (if self.contains(node) {
                Some(self.shape().root_of(node))
            } else {
                None
            }),
    {
        if !self.nodes.contains_key(&node.bits) {
            return None;
        }
        Some(self.root_key(node))
    }

    /// The root of the tree that holds `node`, found by following parents.
    fn root_key(&self, node: AccessKey) -> (r: AccessKey)
        requires
            self.links_ok(),
            self.contains(node),
        ensures
            r == self.shape().root_of(node),
    {
        let ghost s = self.shape();
        let mut current = node;
        loop
            invariant
                self.links_ok(),
                s == self.shape(),
                self.contains(current),
                s.root_of(current) == s.root_of(node),
            decreases s.dep(current),
        {
            let parent = match self.nodes.get(&current.bits) {
                Some(n) => n.parent_key(),
                None => None,
            };
            proof {
                assert(s.has(current));
            }
            match parent {
                Some(p) => {
                    current = p;
                },
                None => {
                    return current;
                },
            }
        }
    }

    /// Returns the focused node within `root`, if any.
    pub fn get_focus(&self, root: AccessKey) -> (r: Option<AccessKey>)
        requires
            self.wf(),
        ensures
            r == (if self.focus().contains_key(root.bits) {
                Some(AccessKey { bits: self.focus()[root.bits] })
            } else {
                None
            }),
    {
        match focus_map_get(&self.focused_nodes, root.bits) {
            Some(bits) => Some(AccessKey { bits }),
            None => None,
        }
    }

    /// Whether `node` is the focused node within its root.
    pub open spec fn spec_is_focused(&self, node: AccessKey) -> bool {
        &&& self.contains(node)
        &&& self.focus().contains_key(self.shape().root_of(node).bits)
        &&& self.focus()[self.shape().root_of(node).bits] == node.bits
    }

    /// Returns `true` if `node` is the focused node within its root, and
    /// `false` if it is not or is not in the tree.
    pub fn is_focused(&self, node: AccessKey) -> (r: bool)
        requires
            self.wf(),
        ensures
            r == self.spec_is_focused(node),
    {
        match self.get_node_root(node) {
            Some(root) => match focus_map_get(&self.focused_nodes, root.bits) {
                Some(bits) => bits == node.bits,
                None => false,
            },
            None => false,
        }
    }

    /// Returns the first child of `node`, if it has one, or `None` if `node` is not in the tree.
    pub fn get_first_child(&self, node: AccessKey) -> (r: Option<AccessKey>)
        requires
            self.wf(),
        ensures
            r == (if self.contains(node) && self.nodes()[node.bits].children.len() > 0 {
                Some(self.nodes()[node.bits].children[0])
            } else {
                None
            }),
    {
        match self.nodes.get(&node.bits) {
            Some(n) => {
                let kids = n.child_list();
                if key_list_len(kids) > 0 {
                    Some(key_list_get(kids, 0))
                } else {
                    None
                }
            },
            None => None,
        }
    }

    /// Returns the last child of `node`, if it has one, or `None` if `node` is not in the tree.
    pub fn get_last_child(&self, node: AccessKey) -> (r: Option<AccessKey>)
        requires
            self.wf(),
        ensures
            r == (if self.contains(node) && self.nodes()[node.bits].children.len() > 0 {
                Some(self.nodes()[node.bits].children.last())
            } else {
                None
            }),
    {
        match self.nodes.get(&node.bits) {
            Some(n) => {
                let kids = n.child_list();
                let len = key_list_len(kids);
                if len > 0 {
                    Some(key_list_get(kids, len - 1))
                } else {
                    None
                }
            },
            None => None,
        }
    }

    /// The sibling immediately after (`next`) or before `node` among its
    /// parent's children, counted from the first place where `node` is listed.
    pub open spec fn sibling_of(&self, node: AccessKey, next: bool) -> Option<AccessKey> {
        if self.contains(node) {
            match self.nodes()[node.bits].parent {
                Some(p) => if self.contains(p) && self.nodes()[p.bits].children.contains(node) {
                    let kids = self.nodes()[p.bits].children;
                    let j = if next {
                        first_index(kids, node) + 1
                    } else {
                        first_index(kids, node) - 1
                    };
                    if 0 <= j < kids.len() {
                        Some(kids[j])
                    } else {
                        None
                    }
                } else {
                    None
                },
                None => None,
            }
        } else {
            None
        }
    }

    fn get_sibling(&self, node: AccessKey, next: bool) -> (r: Option<AccessKey>)
        requires
            self.wf(),
        ensures
            r == self.sibling_of(node, next),
    {
        let parent = match self.nodes.get(&node.bits) {
            Some(n) => n.parent_key(),
            None => {
                return None;
            },
        };
        let p = match parent {
            Some(p) => p,
            None => {
                return None;
            },
        };
        let parent_node = match self.nodes.get(&p.bits) {
            Some(pn) => pn,
            None => {
                return None;
            },
        };
        let kids = parent_node.child_list();
        let len = key_list_len(kids);
        let ghost seq = key_list_items(*kids);
        let mut i: usize = 0;
        while i < len
            invariant
                self.wf(),
                self.contains(node),
                self.nodes()[node.bits].parent == Some(p),
                self.contains(p),
                seq == self.nodes()[p.bits].children,
                seq == key_list_items(*kids),
                len == seq.len(),
                i <= len,
                forall|j: int| 0 <= j < i ==> seq[j] != node,
            decreases len - i,
        {
            let candidate = key_list_get(kids, i);
            if candidate == node {
                proof {
                    assert(is_first_index(seq, node, i as int));
                    assert(seq.contains(node));
                    lemma_first_index(seq, node, i as int);
                }
                if next {
                    if i + 1 < len {
                        return Some(key_list_get(kids, i + 1));
                    } else {
                        return None;
                    }
                } else {
                    if i >= 1 {
                        return Some(key_list_get(kids, i - 1));
                    } else {
                        return None;
                    }
                }
            }
            i = i + 1;
        }
        proof {
            assert(!seq.contains(node));
        }
        None
    }

    /// Returns the sibling immediately after `node`, if there is one, or
    /// `None` if `node` is a root or is not in the tree.
    pub fn get_next_sibling(&self, node: AccessKey) -> (r: Option<AccessKey>)
        requires
            self.wf(),
        ensures
            r == self.sibling_of(node, true),
    {
        self.get_sibling(node, true)
    }

    /// Returns the sibling immediately before `node`, if there is one, or
    /// `None` if `node` is a root or is not in the tree.
    pub fn get_previous_sibling(&self, node: AccessKey) -> (r: Option<AccessKey>)
        requires
            self.wf(),
        ensures
            r == self.sibling_of(node, false),
    {
        self.get_sibling(node, false)
    }

    /// The accessible name of `node`: its own name if it has one, otherwise
    /// the first non-empty name found among its descendants in tree order,
    /// otherwise the empty string.
    pub open spec fn name_in(&self, node: AccessKey) -> Seq<char>
        decreases self.nodes().len() - self.shape().dep(node), 1int, 0int,
    {
        if self.contains(node) && self.shape().dep(node) < self.nodes().len() {
            let name = self.nodes()[node.bits].name;
            if name.len() > 0 {
                name
            } else {
                self.name_among(node, 0)
            }
        } else {
            Seq::empty()
        }
    }

    /// The first non-empty accessible name among the children of `node` from position `i` on.
    pub open spec fn name_among(&self, node: AccessKey, i: int) -> Seq<char>
        decreases self.nodes().len() - self.shape().dep(node), 0int, self.nodes()[node.bits].children.len()
            - i,
    {
        let kids = self.nodes()[node.bits].children;
        if 0 <= i < kids.len() {
            let c = kids[i];
            if self.shape().dep(node) < self.shape().dep(c) < self.nodes().len() {
                let name = self.name_in(c);
                if name.len() > 0 {
                    name
                } else {
                    self.name_among(node, i + 1)
                }
            } else {
                self.name_among(node, i + 1)
            }
        } else {
            Seq::empty()
        }
    }

    proof fn lemma_child_depth(&self, node: AccessKey, i: int)
        requires
            self.wf(),
            self.contains(node),
            0 <= i < self.nodes()[node.bits].children.len(),
        ensures
            self.contains(self.nodes()[node.bits].children[i]),
            self.shape().dep(node) < self.shape().dep(self.nodes()[node.bits].children[i]) < self.nodes().len(),
    {
        let s = self.shape();
        let c = s.kids(node)[i];
        assert(s.has(node));
        assert(s.has(c) && s.par(c) == Some(node));
        assert(s.has(c));
        lemma_depth_bound(s, c);
        assert(s.parent.dom() =~= self.nodes().dom());
    }

    fn accessible_name_of(&self, node: AccessKey) -> (name: String)
        requires
            self.wf(),
            self.contains(node),
        ensures
            name@ == self.name_in(node),
        decreases self.nodes().len() - self.shape().dep(node),
    {
        proof {
            assert(self.shape().has(node));
            lemma_depth_bound(self.shape(), node);
            assert(self.shape().parent.dom() =~= self.nodes().dom());
        }
        let n = match self.nodes.get(&node.bits) {
            Some(n) => n,
            None => {
                return String::new();
            },
        };
        let own = n.name();
        if !own.is_empty() {
            return own.to_owned();
        }
        let kids = n.child_list();
        let len = key_list_len(kids);
        let mut i: usize = 0;
        while i < len
            invariant
                self.wf(),
                self.contains(node),
                self.shape().dep(node) < self.nodes().len(),
                self.nodes()[node.bits].name.len() == 0,
                key_list_items(*kids) == self.nodes()[node.bits].children,
                len == key_list_items(*kids).len(),
                i <= len,
                self.name_in(node) == self.name_among(node, i as int),
            decreases len - i,
        {
            let c = key_list_get(kids, i);
            proof {
                self.lemma_child_depth(node, i as int);
            }
            let name = self.accessible_name_of(c);
            if !name.as_str().is_empty() {
                return name;
            }
            i = i + 1;
        }
        String::new()
    }

    /// Returns the accessible name for `node`.
    ///
    /// If the node has no name of its own, its descendants are searched in
    /// tree order for the first non-empty name. Returns an empty string if no
    /// name is found, or `None` if `node` does not belong to this tree.
    pub fn accessible_name(&self, node: AccessKey) -> (r: Option<String>)
        requires
            self.wf(),
        ensures
            match r {
                Some(name) => self.contains(node) && name@ == self.name_in(node),
                None => !self.contains(node),
            },
    {
        if self.nodes.contains_key(&node.bits) {
            Some(self.accessible_name_of(node))
        } else {
            None
        }
    }

    /// The deepest node at or below `node` whose rectangle `hit` accepts,
    /// following only nodes whose rectangles it accepts and preferring later
    /// children, which are drawn on top of earlier siblings.
    pub open spec fn hit_in(&self, node: AccessKey, hit: spec_fn(AccessRect) -> bool) -> Option<AccessKey>
        decreases self.nodes().len() - self.shape().dep(node), 1int, 0int,
    {
        if self.contains(node) && self.shape().dep(node) < self.nodes().len() {
            if hit(self.nodes()[node.bits].bounding_rect) {
                match self.hit_among(node, hit, self.nodes()[node.bits].children.len() as int) {
                    Some(found) => Some(found),
                    None => Some(node),
                }
            } else {
                None
            }
        } else {
            None
        }
    }

    /// The first hit among the children of `node` before position `end`,
    /// searched from the last of them to the first.
    pub open spec fn hit_among(&self, node: AccessKey, hit: spec_fn(AccessRect) -> bool, end: int) -> Option<
        AccessKey,
    >
        decreases self.nodes().len() - self.shape().dep(node), 0int, end,
    {
        let kids = self.nodes()[node.bits].children;
        if 0 < end <= kids.len() {
            let c = kids[end - 1];
            if self.shape().dep(node) < self.shape().dep(c) < self.nodes().len() {
                match self.hit_in(c, hit) {
                    Some(found) => Some(found),
                    None => self.hit_among(node, hit, end - 1),
                }
            } else {
                self.hit_among(node, hit, end - 1)
            }
        } else {
            None
        }
    }

    fn element_at<F: Fn(AccessRect) -> bool>(&self, node: AccessKey, contains: &F) -> (r: Option<AccessKey>)
        requires
            self.wf(),
            self.contains(node),
            forall|rect: AccessRect| contains.requires((rect,)),
            forall|rect: AccessRect, a: bool, b: bool|
                contains.ensures((rect,), a) && contains.ensures((rect,), b) ==> a == b,
        ensures
            r == self.hit_in(node, rect_hit(*contains)),
        decreases self.nodes().len() - self.shape().dep(node),
    {
        proof {
            assert(self.shape().has(node));
            lemma_depth_bound(self.shape(), node);
            assert(self.shape().parent.dom() =~= self.nodes().dom());
        }
        let n = match self.nodes.get(&node.bits) {
            Some(n) => n,
            None => {
                return None;
            },
        };
        let inside = contains(n.bounding_rect());
        if !inside {
            return None;
        }
        let kids = n.child_list();
        let mut end = key_list_len(kids);
        while end > 0
            invariant
                self.wf(),
                self.contains(node),
                self.shape().dep(node) < self.nodes().len(),
                rect_hit(*contains)(self.nodes()[node.bits].bounding_rect),
                key_list_items(*kids) == self.nodes()[node.bits].children,
                end <= key_list_items(*kids).len(),
                forall|rect: AccessRect| contains.requires((rect,)),
                forall|rect: AccessRect, a: bool, b: bool|
                    contains.ensures((rect,), a) && contains.ensures((rect,), b) ==> a == b,
                self.hit_among(node, rect_hit(*contains), key_list_items(*kids).len() as int)
                    == self.hit_among(node, rect_hit(*contains), end as int),
            decreases end,
        {
            let c = key_list_get(kids, end - 1);
            proof {
                self.lemma_child_depth(node, end - 1);
            }
            match self.element_at(c, contains) {
                Some(found) => {
                    return Some(found);
                },
                None => {},
            }
            end = end - 1;
        }
        Some(node)
    }

    /// Finds the deepest node beneath `root` whose bounding rectangle
    /// `contains` accepts; `contains` tests whether the point being looked up
    /// lies in a rectangle. Later children are treated as appearing on top of
    /// earlier siblings. Returns `None` if `root` does not belong to this tree
    /// or the point lies outside its bounds.
    pub fn element_from_point<F: Fn(AccessRect) -> bool>(&self, root: AccessKey, contains: F) -> (r: Option<AccessKey>)
        requires
            self.wf(),
            forall|rect: AccessRect| contains.requires((rect,)),
            forall|rect: AccessRect, a: bool, b: bool|
                contains.ensures((rect,), a) && contains.ensures((rect,), b) ==> a == b,
        ensures
            r == self.hit_in(root, rect_hit(contains)),
    {
        if self.nodes.contains_key(&root.bits) {
            self.element_at(root, &contains)
        } else {
            None
        }
    }

    /// Changing one node in place, without touching its parent or children,
    /// keeps the invariant.
    proof fn lemma_links_kept(old_tree: &Self, new_tree: &Self, b: u64)
        requires
            old_tree.wf(),
            old_tree.nodes@.contains_key(b),
            new_tree.nodes@ == old_tree.nodes@.insert(b, new_tree.nodes@[b]),
            new_tree.nodes@[b]@.parent == old_tree.nodes@[b]@.parent,
            new_tree.nodes@[b]@.children == old_tree.nodes@[b]@.children,
            new_tree.slots == old_tree.slots,
            new_tree.roots == old_tree.roots,
            new_tree.focused_nodes == old_tree.focused_nodes,
            new_tree.depth == old_tree.depth,
        ensures
            new_tree.wf(),
            new_tree.nodes() == old_tree.nodes().insert(b, new_tree.nodes@[b]@),
    {
        assert(new_tree.nodes@.dom() =~= old_tree.nodes@.dom());
        assert(new_tree.nodes() =~= old_tree.nodes().insert(b, new_tree.nodes@[b]@));
        let s0 = old_tree.shape();
        let s1 = new_tree.shape();
        assert(s1.parent =~= s0.parent);
        assert(s1.children =~= s0.children);
        assert forall|x: u64| #[trigger]
            new_tree.roots@.contains_key(x) <==> (new_tree.nodes@.contains_key(x) && new_tree.nodes@[x]@.parent is None) by {
            assert(old_tree.roots@.contains_key(x) <==> (old_tree.nodes@.contains_key(x) && old_tree.nodes@[x]@.parent is None));
        }
        assert forall|x: u64| #[trigger]
            new_tree.focus().contains_key(x) implies new_tree.roots@.contains_key(x) && new_tree.nodes@.contains_key(
                new_tree.focus()[x],
            ) by {
            assert(old_tree.focus().contains_key(x));
        }
        assert forall|x: u64| #[trigger]
            new_tree.nodes@.contains_key(x) implies new_tree.nodes@[x]@.children.len() <= key_list_len_limit() by {
            assert(old_tree.nodes@.contains_key(x));
        }
        assert(s1 == s0);
        assert(new_tree.focus() == old_tree.focus());
        assert(new_tree.links_ok());
    }

    /// A tree whose fields hold what those of a well-formed tree hold is well formed.
    proof fn lemma_nodes_unchanged(old_tree: &Self, new_tree: &Self)
        requires
            old_tree.wf(),
            new_tree.nodes@ == old_tree.nodes@,
            new_tree.slots == old_tree.slots,
            new_tree.roots == old_tree.roots,
            new_tree.focused_nodes == old_tree.focused_nodes,
            new_tree.depth == old_tree.depth,
        ensures
            new_tree.wf(),
    {
        assert(new_tree.nodes() == old_tree.nodes());
        assert(new_tree.shape() == old_tree.shape());
        assert(new_tree.focus() == old_tree.focus());
    }

    /// Updates a node's name and reports the change for the native
    /// accessibility platform. Nothing is reported if the name is unchanged.
    pub fn set_name(&mut self, node: AccessKey, name: &str) -> (change: Option<PropertyChange>)
        requires
            old(self).wf(),
            old(self).contains(node),
        ensures
            final(self).wf(),
            final(self).nodes() == old(self).nodes().insert(
                node.bits,
                NodeView { name: name@, ..old(self).nodes()[node.bits] },
            ),
            final(self).roots() == old(self).roots(),
            final(self).focus() == old(self).focus(),
            final(self).framework() == old(self).framework(),
            match change {
                Some(c) => {
                    &&& old(self).nodes()[node.bits].name != name@
                    &&& c@ == (ChangeView {
                        node,
                        property: AccessProperty::Name,
                        old_value: ValueView::Text(old(self).nodes()[node.bits].name),
                        new_value: ValueView::Text(name@),
                    })
                },
                None => old(self).nodes()[node.bits].name == name@,
            },
    {
        let ghost old_tree = *self;
        match node_entry_mut(&mut self.nodes, node.bits) {
            Some(n) => {
                if text_eq(n.name(), name) {
                    proof {
                        assert(self.nodes@ =~= old_tree.nodes@.insert(node.bits, self.nodes@[node.bits]));
                        Self::lemma_links_kept(&old_tree, self, node.bits);
                        assert(self.nodes() =~= old_tree.nodes().insert(
                            node.bits,
                            NodeView { name: name@, ..old_tree.nodes()[node.bits] },
                        ));
                    }
                    return None;
                }
                let previous = n.replace_name(smol_new(name));
                let change = PropertyChange {
                    node,
                    property: AccessProperty::Name,
                    old_value: PropertyValue::Text(smol_as_str(&previous).to_owned()),
                    new_value: PropertyValue::Text(name.to_owned()),
                };
                proof {
                    Self::lemma_links_kept(&old_tree, self, node.bits);
                }
                Some(change)
            },
            None => None,
        }
    }

    /// Updates a node's value and reports the change for the native
    /// accessibility platform. Nothing is reported if the value is unchanged.
    pub fn set_value(&mut self, node: AccessKey, value: &str) -> (change: Option<PropertyChange>)
        requires
            old(self).wf(),
            old(self).contains(node),
        ensures
            final(self).wf(),
            final(self).nodes() == old(self).nodes().insert(
                node.bits,
                NodeView { value: value@, ..old(self).nodes()[node.bits] },
            ),
            final(self).roots() == old(self).roots(),
            final(self).focus() == old(self).focus(),
            final(self).framework() == old(self).framework(),
            match change {
                Some(c) => {
                    &&& old(self).nodes()[node.bits].value != value@
                    &&& c@ == (ChangeView {
                        node,
                        property: AccessProperty::Value,
                        old_value: ValueView::Text(old(self).nodes()[node.bits].value),
                        new_value: ValueView::Text(value@),
                    })
                },
                None => old(self).nodes()[node.bits].value == value@,
            },
    {
        let ghost old_tree = *self;
        match node_entry_mut(&mut self.nodes, node.bits) {
            Some(n) => {
                if text_eq(n.value(), value) {
                    proof {
                        assert(self.nodes@ =~= old_tree.nodes@.insert(node.bits, self.nodes@[node.bits]));
                        Self::lemma_links_kept(&old_tree, self, node.bits);
                        assert(self.nodes() =~= old_tree.nodes().insert(
                            node.bits,
                            NodeView { value: value@, ..old_tree.nodes()[node.bits] },
                        ));
                    }
                    return None;
                }
                let previous = n.replace_value(value.to_owned());
                let change = PropertyChange {
                    node,
                    property: AccessProperty::Value,
                    old_value: PropertyValue::Text(previous),
                    new_value: PropertyValue::Text(value.to_owned()),
                };
                proof {
                    Self::lemma_links_kept(&old_tree, self, node.bits);
                }
                Some(change)
            },
            None => None,
        }
    }

    /// Updates a node's checked state and reports the change for the native
    /// accessibility platform. Nothing is reported if the state is unchanged.
    pub fn set_checked(&mut self, node: AccessKey, checked: bool) -> (change: Option<PropertyChange>)
        requires
            old(self).wf(),
            old(self).contains(node),
        ensures
            final(self).wf(),
            final(self).nodes() == old(self).nodes().insert(
                node.bits,
                NodeView { checked, ..old(self).nodes()[node.bits] },
            ),
            final(self).roots() == old(self).roots(),
            final(self).focus() == old(self).focus(),
            final(self).framework() == old(self).framework(),
            match change {
                Some(c) => {
                    &&& old(self).nodes()[node.bits].checked != checked
                    &&& c@ == (ChangeView {
                        node,
                        property: AccessProperty::Checked,
                        old_value: ValueView::Bool(old(self).nodes()[node.bits].checked),
                        new_value: ValueView::Bool(checked),
                    })
                },
                None => old(self).nodes()[node.bits].checked == checked,
            },
    {
        let ghost old_tree = *self;
        match node_entry_mut(&mut self.nodes, node.bits) {
            Some(n) => {
                if n.checked() == checked {
                    proof {
                        assert(self.nodes@ =~= old_tree.nodes@.insert(node.bits, self.nodes@[node.bits]));
                        Self::lemma_links_kept(&old_tree, self, node.bits);
                        assert(self.nodes() =~= old_tree.nodes().insert(
                            node.bits,
                            NodeView { checked, ..old_tree.nodes()[node.bits] },
                        ));
                    }
                    return None;
                }
                let previous = n.checked();
                n.set_checked(checked);
                proof {
                    Self::lemma_links_kept(&old_tree, self, node.bits);
                }
                Some(
                    PropertyChange {
                        node,
                        property: AccessProperty::Checked,
                        old_value: PropertyValue::Bool(previous),
                        new_value: PropertyValue::Bool(checked),
                    },
                )
            },
            None => None,
        }
    }

    /// Replaces a node without changing its identity or position in the tree.
    ///
    /// The replacement inherits the existing node's id, parent, and children.
    /// The changes to its checked state, name and value are reported for the
    /// native accessibility platform, in that order.
    pub fn update_node(&mut self, node: AccessKey, replacement: AccessNode<U>) -> (changes: Vec<PropertyChange>)
        requires
            old(self).wf(),
            old(self).contains(node),
        ensures
            final(self).wf(),
            final(self).nodes() == old(self).nodes().insert(
                node.bits,
                NodeView {
                    parent: old(self).nodes()[node.bits].parent,
                    children: old(self).nodes()[node.bits].children,
                    id: old(self).nodes()[node.bits].id,
                    ..replacement@
                },
            ),
            final(self).roots() == old(self).roots(),
            final(self).focus() == old(self).focus(),
            final(self).framework() == old(self).framework(),
            changes@.map_values(|c: PropertyChange| c@) == update_changes(
                node,
                old(self).nodes()[node.bits],
                replacement@,
            ),
    {
        let ghost old_tree = *self;
        let mut replacement = replacement;
        let mut changes: Vec<PropertyChange> = Vec::new();
        match node_entry_mut(&mut self.nodes, node.bits) {
            Some(current) => {
                let ghost before = current@;
                replacement.set_parent(current.parent_key());
                let kids = current.replace_children(key_list_new());
                let _ = replacement.replace_children(kids);
                replacement.set_id(current.id());
                if current.checked() != replacement.checked() {
                    changes.push(
                        PropertyChange {
                            node,
                            property: AccessProperty::Checked,
                            old_value: PropertyValue::Bool(current.checked()),
                            new_value: PropertyValue::Bool(replacement.checked()),
                        },
                    );
                }
                if !text_eq(current.name(), replacement.name()) {
                    changes.push(
                        PropertyChange {
                            node,
                            property: AccessProperty::Name,
                            old_value: PropertyValue::Text(current.name().to_owned()),
                            new_value: PropertyValue::Text(replacement.name().to_owned()),
                        },
                    );
                }
                if !text_eq(current.value(), replacement.value()) {
                    changes.push(
                        PropertyChange {
                            node,
                            property: AccessProperty::Value,
                            old_value: PropertyValue::Text(current.value().to_owned()),
                            new_value: PropertyValue::Text(replacement.value().to_owned()),
                        },
                    );
                }
                *current = replacement;
                proof {
                    Self::lemma_links_kept(&old_tree, self, node.bits);
                    assert(changes@.map_values(|c: PropertyChange| c@) =~= update_changes(
                        node,
                        before,
                        replacement@,
                    ));
                }
            },
            None => {},
        }
        changes
    }

    /// The node focused within `root`, if any.
    pub open spec fn focus_entry(&self, root: AccessKey) -> Option<AccessKey> {
        if self.focus().contains_key(root.bits) {
            Some(AccessKey { bits: self.focus()[root.bits] })
        } else {
            None
        }
    }

    /// Sets the focused node within `root`.
    ///
    /// Returns the node to report to the native platform as newly focused:
    /// none if the focus has not changed, and none when `focus` is `None`,
    /// which clears the focus. `root` must be a root of the tree, and a focus
    /// must lie in `root`'s tree.
    pub fn set_focus(&mut self, root: AccessKey, focus: Option<AccessKey>) -> (announce: Option<AccessKey>)
        requires
            old(self).wf(),
            old(self).roots().contains_key(root.bits),
            focus is Some ==> old(self).contains(focus->0) && old(self).shape().root_of(focus->0) == root,
        ensures
            final(self).wf(),
            final(self).nodes() == old(self).nodes(),
            final(self).roots() == old(self).roots(),
            final(self).framework() == old(self).framework(),
            final(self).focus() == (if old(self).focus_entry(root) == focus {
                old(self).focus()
            } else {
                match focus {
                    Some(f) => old(self).focus().insert(root.bits, f.bits),
                    None => old(self).focus().remove(root.bits),
                }
            }),
            announce == (if old(self).focus_entry(root) == focus {
                None
            } else {
                focus
            }),
    {
        let ghost old_tree = *self;
        let current = self.get_focus(root);
        if same_key(current, focus) {
            return None;
        }
        match focus {
            Some(f) => {
                focus_map_insert(&mut self.focused_nodes, root.bits, f.bits);
            },
            None => {
                focus_map_remove(&mut self.focused_nodes, root.bits);
            },
        }
        proof {
            assert forall|x: u64| #[trigger]
                self.focus().contains_key(x) implies self.roots@.contains_key(x) && self.nodes@.contains_key(
                    self.focus()[x],
                ) by {
                if x != root.bits {
                    assert(old_tree.focus().contains_key(x));
                }
            }
            assert(self.links_ok());
            assert forall|x: u64| #[trigger]
                self.focus().contains_key(x) implies self.shape().root_of(AccessKey { bits: self.focus()[x] }).bits
                == x by {
                if x != root.bits {
                    assert(old_tree.focus().contains_key(x));
                }
            }
        }
        focus
    }

    /// Associates a root node with a window.
    pub fn set_root_window(&mut self, root: AccessKey, window: T)
        requires
            old(self).wf(),
            old(self).roots().contains_key(root.bits),
        ensures
            final(self).wf(),
            final(self).roots() == old(self).roots().insert(root.bits, Some(window)),
            final(self).nodes() == old(self).nodes(),
            final(self).focus() == old(self).focus(),
            final(self).framework() == old(self).framework(),
    {
        let ghost old_tree = *self;
        self.roots.insert(root.bits, Some(window));
        proof {
            assert forall|x: u64| #[trigger]
                self.roots@.contains_key(x) <==> (self.nodes@.contains_key(x) && self.nodes@[x]@.parent is None) by {
                assert(old_tree.roots@.contains_key(x) <==> (old_tree.nodes@.contains_key(x)
                    && old_tree.nodes@[x]@.parent is None));
            }
            assert forall|x: u64| #[trigger]
                self.focus().contains_key(x) implies self.roots@.contains_key(x) && self.nodes@.contains_key(
                    self.focus()[x],
                ) by {
                assert(old_tree.focus().contains_key(x));
            }
            assert(self.links_ok());
            assert(self.shape() == old_tree.shape());
            assert forall|x: u64| #[trigger]
                self.focus().contains_key(x) implies self.shape().root_of(AccessKey { bits: self.focus()[x] }).bits
                == x by {
                assert(old_tree.focus().contains_key(x));
            }
        }
    }

    /// Returns a clone of the window associated with a root node, or `None`
    /// if no window has been associated with the root.
    pub fn get_root_window(&self, root: AccessKey) -> (window: Option<T>)
        where
            T: Clone,
        requires
            self.wf(),
            self.roots().contains_key(root.bits),
        ensures
            match (window, self.roots()[root.bits]) {
                (Some(copy), Some(source)) => cloned(source, copy),
                (None, None) => true,
                _ => false,
            },
    {
        match self.roots.get(&root.bits) {
            Some(Some(window)) => Some(window.clone()),
            _ => None,
        }
    }

    /// Sets the name of the UI framework that owns this tree.
    pub fn set_framework_name(&mut self, framework_name: &str)
        requires
            old(self).wf(),
        ensures
            final(self).wf(),
            final(self).framework() == framework_name@,
            final(self).nodes() == old(self).nodes(),
            final(self).roots() == old(self).roots(),
            final(self).focus() == old(self).focus(),
    {
        let ghost old_tree = *self;
        self.framework_name = framework_name.to_owned();
        proof {
            assert forall|x: u64| #[trigger]
                self.roots@.contains_key(x) <==> (self.nodes@.contains_key(x) && self.nodes@[x]@.parent is None) by {
                assert(old_tree.roots@.contains_key(x) <==> (old_tree.nodes@.contains_key(x)
                    && old_tree.nodes@[x]@.parent is None));
            }
            assert forall|x: u64| #[trigger]
                self.focus().contains_key(x) implies self.roots@.contains_key(x) && self.nodes@.contains_key(
                    self.focus()[x],
                ) by {
                assert(old_tree.focus().contains_key(x));
            }
            assert forall|x: u64| #[trigger]
                self.nodes@.contains_key(x) implies self.nodes@[x]@.children.len() <= key_list_len_limit() by {
                assert(old_tree.nodes@.contains_key(x));
            }
            assert(self.shape() == old_tree.shape());
            assert forall|x: u64| #[trigger]
                self.focus().contains_key(x) implies self.shape().root_of(AccessKey { bits: self.focus()[x] }).bits
                == x by {
                assert(old_tree.focus().contains_key(x));
            }
        }
    }

    /// Returns the name of the UI framework that owns this tree.
    pub fn framework_name(&self) -> (name: String)
        ensures
            name@ == self.framework(),
    {
        self.framework_name.clone()
    }

    /// Returns mutable access to `node`, or `None` if it does not belong to
    /// this tree. Changes made through it are not reported to the native
    /// accessibility platform; the tree stays well formed as long as they
    /// leave the node's parent and children alone, as all of the node's
    /// public setters do.
    pub fn get_node_mut(&mut self, node: AccessKey) -> (r: Option<&mut AccessNode<U>>)
        requires
            old(self).wf(),
        ensures
            final(self).roots() == old(self).roots(),
            final(self).focus() == old(self).focus(),
            final(self).framework() == old(self).framework(),
            match r {
                Some(n) => {
                    &&& old(self).contains(node)
                    &&& n@ == old(self).nodes()[node.bits]
                    &&& final(self).nodes() == old(self).nodes().insert(node.bits, final(n)@)
                    &&& keeps_links(n@, final(n)@) ==> final(self).wf()
                },
                None => {
                    &&& !old(self).contains(node)
                    &&& final(self).nodes() == old(self).nodes()
                    &&& final(self).wf()
                },
            },
    {
        let ghost old_tree = *self;
        let r = node_entry_mut(&mut self.nodes, node.bits);
        proof {
            if r is Some {
                if keeps_links(r->0@, final(r->0)@) {
                    Self::lemma_links_kept(&old_tree, &after_borrow(*self), node.bits);
                }
                assert(after_borrow(*self).nodes() =~= old_tree.nodes().insert(node.bits, final(r->0)@));
            } else {
                assert(after_borrow(*self).nodes() =~= old_tree.nodes());
                Self::lemma_nodes_unchanged(&old_tree, &after_borrow(*self));
            }
        }
        r
    }

    /// Replaces the child list of `p` with the same list without `c`.
    fn unlink_child(&mut self, p: AccessKey, c: AccessKey)
        requires
            old(self).nodes@.contains_key(p.bits),
            old(self).nodes@[p.bits]@.children.len() <= key_list_len_limit(),
        ensures
            final(self).nodes@.dom() == old(self).nodes@.dom(),
            final(self).nodes() == old(self).nodes().insert(
                p.bits,
                NodeView {
                    children: old(self).nodes()[p.bits].children.filter(other_than(c)),
                    ..old(self).nodes()[p.bits]
                },
            ),
            final(self).slots == old(self).slots,
            final(self).roots == old(self).roots,
            final(self).focused_nodes == old(self).focused_nodes,
            final(self).framework_name == old(self).framework_name,
            final(self).depth == old(self).depth,
    {
        let ghost old_tree = *self;
        let filtered = match self.nodes.get(&p.bits) {
            Some(n) => filter_keys(n.child_list(), c),
            None => key_list_new(),
        };
        match node_entry_mut(&mut self.nodes, p.bits) {
            Some(n) => {
                let _ = n.replace_children(filtered);
            },
            None => {},
        }
        proof {
            assert(self.nodes@.dom() =~= old_tree.nodes@.dom());
            assert(self.nodes() =~= old_tree.nodes().insert(
                p.bits,
                NodeView {
                    children: old_tree.nodes()[p.bits].children.filter(other_than(c)),
                    ..old_tree.nodes()[p.bits]
                },
            ));
        }
    }

    /// A listed child's parent is the node that lists it.
    proof fn lemma_listed_child(&self, b: u64, c: AccessKey)
        requires
            self.wf(),
            self.nodes().contains_key(b),
            self.nodes()[b].children.contains(c),
        ensures
            self.contains(c),
            self.nodes()[c.bits].parent == Some(AccessKey { bits: b }),
    {
        let s = self.shape();
        let p = AccessKey { bits: b };
        let i = choose|i: int| 0 <= i < s.kids(p).len() && s.kids(p)[i] == c;
        assert(s.has(p));
        assert(s.kids(p)[i] == c);
    }

    /// Moves `c` with its subtree: unlinks it from its parent and either
    /// appends it to the children of `new_parent` or makes it a root.
    #[verifier::spinoff_prover]
    #[verifier::rlimit(60)]
    fn move_node(&mut self, c: AccessKey, new_parent: Option<AccessKey>)
        requires
            old(self).wf(),
            old(self).contains(c),
            new_parent is Some ==> {
                &&& old(self).contains(new_parent->0)
                &&& !old(self).shape().in_subtree(c, new_parent->0)
                &&& old(self).nodes()[new_parent->0.bits].children.len() < key_list_len_limit()
            },
        ensures
            final(self).wf(),
            final(self).nodes() == moved_nodes(old(self).nodes(), c, new_parent),
            final(self).shape() == old(self).shape().moved(c, new_parent),
            final(self).roots() == (if new_parent is Some {
                old(self).roots().remove(c.bits)
            } else {
                old(self).roots().insert(c.bits, None)
            }),
            final(self).focus() == (if new_parent is Some {
                kept_in_roots(old(self).focus().remove(c.bits), final(self).shape())
            } else {
                detached_focus(old(self).focus(), old(self).shape(), c)
            }),
            final(self).framework() == old(self).framework(),
    {
        let ghost old_tree = *self;
        let ghost s = self.shape();
        let ghost old_nodes = self.nodes();
        let old_root = self.root_key(c);
        let old_parent = match self.nodes.get(&c.bits) {
            Some(n) => n.parent_key(),
            None => None,
        };
        proof {
            assert(s.has(c));
        }
        match old_parent {
            Some(op) => {
                self.unlink_child(op, c);
            },
            None => {},
        }
        let ghost after_unlink = self.nodes();
        match node_entry_mut(&mut self.nodes, c.bits) {
            Some(n) => {
                n.set_parent(new_parent);
            },
            None => {},
        }
        let ghost after_parent = self.nodes();
        proof {
            assert(after_parent =~= after_unlink.insert(
                c.bits,
                NodeView { parent: new_parent, ..after_unlink[c.bits] },
            ));
        }
        match new_parent {
            Some(p) => {
                proof {
                    s.kids(p).lemma_filter_len(other_than(c));
                    assert(self.nodes@[p.bits]@ == after_parent[p.bits]);
                    assert(s.has(p));
                    assert(after_parent[p.bits].children == s.kids(p) || after_parent[p.bits].children
                        == s.kids(p).filter(other_than(c)));
                }
                match node_entry_mut(&mut self.nodes, p.bits) {
                    Some(pn) => {
                        pn.push_child(c);
                    },
                    None => {},
                }
                self.roots.remove(&c.bits);
                focus_map_remove(&mut self.focused_nodes, c.bits);
            },
            None => {
                self.roots.insert(c.bits, None);
            },
        }
        self.depth = Ghost(s.moved(c, new_parent).depth);
        proof {
            assert(self.nodes() =~= (match new_parent {
                Some(p) => after_parent.insert(
                    p.bits,
                    NodeView { children: after_parent[p.bits].children.push(c), ..after_parent[p.bits] },
                ),
                None => after_parent,
            }));
            old_tree.lemma_move_steps(c, new_parent, old_parent, after_unlink, after_parent, self.nodes());
            assert(self.nodes@.dom() =~= old_tree.nodes@.dom());
            assert(self.roots@ == (if new_parent is Some {
                old_tree.roots@.remove(c.bits)
            } else {
                old_tree.roots@.insert(c.bits, None)
            }));
            assert(focus_entries(self.focused_nodes) == (if new_parent is Some {
                focus_entries(old_tree.focused_nodes).remove(c.bits)
            } else {
                focus_entries(old_tree.focused_nodes)
            }));
            Self::lemma_move_wf(&old_tree, self, c, new_parent);
        }
        let ghost moved_tree = *self;
        match focus_map_get(&self.focused_nodes, old_root.bits) {
            Some(focus) => {
                proof {
                    assert(self.focus().contains_key(old_root.bits));
                    assert(self.nodes@.contains_key(focus));
                }
                let focus_root = self.root_key(AccessKey { bits: focus });
                let leaves = match new_parent {
                    Some(_) => focus_root.bits != old_root.bits,
                    None => focus_root.bits == c.bits,
                };
                if leaves {
                    focus_map_remove(&mut self.focused_nodes, old_root.bits);
                    proof {
                        assert forall|x: u64| #[trigger]
                            self.focus().contains_key(x) implies self.roots@.contains_key(x)
                            && self.nodes@.contains_key(self.focus()[x]) by {
                            assert(moved_tree.focus().contains_key(x));
                        }
                        assert(self.links_ok());
                    }
                }
            },
            None => {},
        }
        proof {
            if new_parent is Some {
                Self::lemma_move_focus(&old_tree, &moved_tree, self, c, new_parent, old_root);
            } else {
                Self::lemma_detach_focus(&old_tree, &moved_tree, self, c, old_root);
            }
        }
    }

    /// After a node is detached, the focus entry of its old root goes exactly
    /// when the focused node lies in the detached subtree; every other entry
    /// stays and keeps its root.
    proof fn lemma_detach_focus(old_tree: &Self, moved_tree: &Self, new_tree: &Self, c: AccessKey, old_root: AccessKey)
        requires
            old_tree.wf(),
            old_tree.contains(c),
            old_root == old_tree.shape().root_of(c),
            moved_tree.links_ok(),
            moved_tree.shape() == old_tree.shape().moved(c, None),
            moved_tree.focus() == old_tree.focus(),
            new_tree.links_ok(),
            new_tree.shape() == moved_tree.shape(),
            new_tree.focus() == (if moved_tree.focus().contains_key(old_root.bits) && moved_tree.shape().root_of(
                AccessKey { bits: moved_tree.focus()[old_root.bits] },
            ).bits == c.bits {
                moved_tree.focus().remove(old_root.bits)
            } else {
                moved_tree.focus()
            }),
        ensures
            new_tree.wf(),
            new_tree.focus() == detached_focus(old_tree.focus(), old_tree.shape(), c),
    {
        let s = old_tree.shape();
        let m = new_tree.shape();
        let f0 = old_tree.focus();
        assert(s.has(c));
        lemma_root_of(s, c);
        assert(old_root == AccessKey { bits: old_root.bits });
        assert(c == AccessKey { bits: c.bits });
        assert forall|r: u64| #[trigger] f0.contains_key(r) implies {
            &&& m.root_of(AccessKey { bits: f0[r] }).bits == c.bits <==> s.in_subtree(c, AccessKey { bits: f0[r] })
            &&& !s.in_subtree(c, AccessKey { bits: f0[r] }) ==> m.root_of(AccessKey { bits: f0[r] }).bits == r
            &&& s.in_subtree(c, AccessKey { bits: f0[r] }) ==> r == old_root.bits
        } by {
            let f = AccessKey { bits: f0[r] };
            assert(s.has(f));
            assert(s.root_of(f).bits == r);
            lemma_moved_root_of(s, c, None, f);
            lemma_root_of(s, f);
            if s.in_subtree(c, f) {
                lemma_subtree_root(s, c, f);
            } else if s.root_of(f) == c {
                assert(s.in_subtree(c, f));
            }
        }
        assert(new_tree.focus() =~= detached_focus(f0, s, c));
    }

    /// After a move, the focus entry of the moved node's old root goes when
    /// its node has left that root's tree; every other entry keeps its root.
    proof fn lemma_move_focus(
        old_tree: &Self,
        moved_tree: &Self,
        new_tree: &Self,
        c: AccessKey,
        np: Option<AccessKey>,
        old_root: AccessKey,
    )
        requires
            old_tree.wf(),
            old_tree.contains(c),
            np is Some,
            old_tree.contains(np->0) && !old_tree.shape().in_subtree(c, np->0),
            old_root == old_tree.shape().root_of(c),
            moved_tree.links_ok(),
            moved_tree.shape() == old_tree.shape().moved(c, np),
            moved_tree.focus() == old_tree.focus().remove(c.bits),
            new_tree.links_ok(),
            new_tree.shape() == moved_tree.shape(),
            new_tree.focus() == (if moved_tree.focus().contains_key(old_root.bits) && moved_tree.shape().root_of(
                AccessKey { bits: moved_tree.focus()[old_root.bits] },
            ) != old_root {
                moved_tree.focus().remove(old_root.bits)
            } else {
                moved_tree.focus()
            }),
        ensures
            new_tree.wf(),
            new_tree.focus() == kept_in_roots(moved_tree.focus(), new_tree.shape()),
    {
        let s = old_tree.shape();
        let m = new_tree.shape();
        let f1 = moved_tree.focus();
        assert(s.has(c));
        assert forall|r: u64| #[trigger] f1.contains_key(r) implies m.has(AccessKey { bits: f1[r] }) && (m.root_of(
            AccessKey { bits: f1[r] },
        ).bits == r <==> (r != old_root.bits || m.root_of(AccessKey { bits: f1[r] }) == old_root)) by {
            let f = AccessKey { bits: f1[r] };
            assert(old_tree.focus().contains_key(r));
            assert(s.has(f));
            assert(s.root_of(f).bits == r);
            lemma_moved_root_of(s, c, np, f);
            if s.in_subtree(c, f) {
                lemma_subtree_root(s, c, f);
            }
            assert(old_root == AccessKey { bits: old_root.bits });
        }
        assert(new_tree.focus() =~= kept_in_roots(f1, m));
    }

    /// The three steps of `move_node` give `moved_nodes`.
    #[verifier::spinoff_prover]
    #[verifier::rlimit(100)]
    proof fn lemma_move_steps(
        &self,
        c: AccessKey,
        np: Option<AccessKey>,
        op: Option<AccessKey>,
        a1: Map<u64, NodeView<U>>,
        a2: Map<u64, NodeView<U>>,
        a3: Map<u64, NodeView<U>>,
    )
        requires
            self.wf(),
            self.contains(c),
            np is Some ==> self.contains(np->0) && !self.shape().in_subtree(c, np->0),
            op == self.nodes()[c.bits].parent,
            a1 == (match op {
                Some(q) => self.nodes().insert(
                    q.bits,
                    NodeView { children: self.nodes()[q.bits].children.filter(other_than(c)), ..self.nodes()[q.bits] },
                ),
                None => self.nodes(),
            }),
            a2 == a1.insert(c.bits, NodeView { parent: np, ..a1[c.bits] }),
            a3 == (match np {
                Some(p) => a2.insert(p.bits, NodeView { children: a2[p.bits].children.push(c), ..a2[p.bits] }),
                None => a2,
            }),
        ensures
            a3 == moved_nodes(self.nodes(), c, np),
    {
        let expected = moved_nodes(self.nodes(), c, np);
        let s = self.shape();
        assert(s.has(c));
        if op is Some {
            assert(s.has(op->0));
        }
        assert(a1.dom() =~= self.nodes().dom());
        assert(a2.dom() =~= self.nodes().dom());
        assert(a3.dom() =~= self.nodes().dom());
        assert forall|b: u64| #[trigger] a3.contains_key(b) <==> expected.contains_key(b) by {}
        assert forall|b: u64| #[trigger] a3.contains_key(b) implies a3[b] == expected[b] by {
            self.lemma_move_step_at(c, np, op, a1, a2, a3, b);
        }
        assert(a3 =~= expected);
    }

    #[verifier::spinoff_prover]
    #[verifier::rlimit(100)]
    proof fn lemma_move_step_at(
        &self,
        c: AccessKey,
        np: Option<AccessKey>,
        op: Option<AccessKey>,
        a1: Map<u64, NodeView<U>>,
        a2: Map<u64, NodeView<U>>,
        a3: Map<u64, NodeView<U>>,
        b: u64,
    )
        requires
            self.wf(),
            self.contains(c),
            np is Some ==> self.contains(np->0) && !self.shape().in_subtree(c, np->0),
            op == self.nodes()[c.bits].parent,
            a1 == (match op {
                Some(q) => self.nodes().insert(
                    q.bits,
                    NodeView { children: self.nodes()[q.bits].children.filter(other_than(c)), ..self.nodes()[q.bits] },
                ),
                None => self.nodes(),
            }),
            a2 == a1.insert(c.bits, NodeView { parent: np, ..a1[c.bits] }),
            a3 == (match np {
                Some(p) => a2.insert(p.bits, NodeView { children: a2[p.bits].children.push(c), ..a2[p.bits] }),
                None => a2,
            }),
            self.nodes().contains_key(b),
        ensures
            a3[b] == moved_nodes(self.nodes(), c, np)[b],
    {
        let s = self.shape();
        let k = AccessKey { bits: b };
        let v = self.nodes()[b];
        let kept = v.children.filter(other_than(c));
        assert(s.has(c));
        if v.children.contains(c) {
            self.lemma_listed_child(b, c);
            assert(op == Some(k));
        } else {
            lemma_filter_absent(v.children, c);
        }
        if b == c.bits {
            assert(k == c);
            if v.children.contains(c) {
                assert(s.dep(c) == s.dep(k) + 1);
            }
        }
        assert(a1[b] == NodeView { children: kept, ..v });
        let p2 = if b == c.bits { np } else { v.parent };
        assert(a2[b] == NodeView { parent: p2, children: kept, ..v });
        let kids3 = if np == Some(k) { kept.push(c) } else { kept };
        assert(a3[b] == NodeView { parent: p2, children: kids3, ..v });
    }

    /// The state that `move_node` leaves keeps the invariant.
    proof fn lemma_move_wf(old_tree: &Self, new_tree: &Self, c: AccessKey, np: Option<AccessKey>)
        requires
            old_tree.wf(),
            old_tree.contains(c),
            np is Some ==> {
                &&& old_tree.contains(np->0)
                &&& !old_tree.shape().in_subtree(c, np->0)
                &&& old_tree.nodes()[np->0.bits].children.len() < key_list_len_limit()
            },
            new_tree.nodes() == moved_nodes(old_tree.nodes(), c, np),
            new_tree.nodes@.dom() == old_tree.nodes@.dom(),
            new_tree.depth@ == old_tree.shape().moved(c, np).depth,
            new_tree.slots == old_tree.slots,
            new_tree.roots@ == (if np is Some {
                old_tree.roots@.remove(c.bits)
            } else {
                old_tree.roots@.insert(c.bits, None)
            }),
            focus_entries(new_tree.focused_nodes) == (if np is Some {
                focus_entries(old_tree.focused_nodes).remove(c.bits)
            } else {
                focus_entries(old_tree.focused_nodes)
            }),
        ensures
            new_tree.links_ok(),
            new_tree.shape() == old_tree.shape().moved(c, np),
    {
        let s = old_tree.shape();
        lemma_moved(s, c, np);
        assert(new_tree.shape().parent =~= s.moved(c, np).parent);
        assert(new_tree.shape().children =~= s.moved(c, np).children);
        assert(new_tree.shape() == s.moved(c, np));
        assert forall|b: u64| #[trigger]
            new_tree.roots@.contains_key(b) <==> (new_tree.nodes@.contains_key(b) && new_tree.nodes@[b]@.parent is None) by {
            assert(old_tree.roots@.contains_key(b) <==> (old_tree.nodes@.contains_key(b)
                && old_tree.nodes@[b]@.parent is None));
            if new_tree.nodes@.contains_key(b) {
                assert(new_tree.nodes@[b]@ == new_tree.nodes()[b]);
                assert(old_tree.nodes@[b]@ == old_tree.nodes()[b]);
            }
        }
        assert forall|b: u64| #[trigger]
            new_tree.focus().contains_key(b) implies new_tree.roots@.contains_key(b) && new_tree.nodes@.contains_key(
                new_tree.focus()[b],
            ) by {
            assert(old_tree.focus().contains_key(b));
        }
        assert forall|b: u64| #[trigger]
            new_tree.nodes@.contains_key(b) implies new_tree.nodes@[b]@.children.len() <= key_list_len_limit() by {
            assert(old_tree.nodes@.contains_key(b));
            assert(new_tree.nodes@[b]@ == new_tree.nodes()[b]);
            assert(old_tree.nodes@[b]@ == old_tree.nodes()[b]);
            old_tree.nodes()[b].children.lemma_filter_len(other_than(c));
        }
    }

    /// Moves `child` to the end of `parent`'s children.
    ///
    /// The child's descendants are preserved. If it already has a parent, it
    /// is first removed from that parent's child list. `parent` must not lie
    /// in `child`'s subtree, which rules out a node parenting itself and any
    /// cycle. A root that the child leaves loses its focus entry, and so does
    /// the child's former root when its focused node moves with the child
    /// into another root's tree.
    pub fn append_child(&mut self, parent: AccessKey, child: AccessKey)
        requires
            old(self).wf(),
            old(self).contains(parent),
            old(self).contains(child),
            !old(self).shape().in_subtree(child, parent),
            old(self).nodes()[parent.bits].children.len() < key_list_len_limit(),
        ensures
            final(self).wf(),
            final(self).nodes() == moved_nodes(old(self).nodes(), child, Some(parent)),
            final(self).shape() == old(self).shape().moved(child, Some(parent)),
            final(self).roots() == old(self).roots().remove(child.bits),
            final(self).focus() == kept_in_roots(old(self).focus().remove(child.bits), final(self).shape()),
            final(self).framework() == old(self).framework(),
    {
        self.move_node(child, Some(parent));
    }

    /// Detaches a node from its parent while preserving its descendants.
    ///
    /// The node becomes a root, but is not associated with a window. If the
    /// focused node of its old root now lies in the detached subtree, that
    /// focus is cleared.
    pub fn detach_node(&mut self, node: AccessKey)
        requires
            old(self).wf(),
            old(self).contains(node),
        ensures
            final(self).wf(),
            final(self).nodes() == moved_nodes(old(self).nodes(), node, None),
            final(self).shape() == old(self).shape().moved(node, None),
            final(self).roots() == old(self).roots().insert(node.bits, None),
            final(self).focus() == detached_focus(old(self).focus(), old(self).shape(), node),
            final(self).framework() == old(self).framework(),
    {
        self.move_node(node, None);
    }

    /// The key bits of the nodes in the subtree rooted at `top`.
    pub open spec fn subtree_bits(&self, top: AccessKey) -> Set<u64> {
        self.nodes().dom().filter(|b: u64| self.shape().in_subtree(top, AccessKey { bits: b }))
    }

    /// The tree is the snapshot `m`, `r0`, `f0` with some nodes removed
    /// together with their roots and focus entries.
    spec fn removal_state(&self, m: Map<u64, AccessNode<U>>, r0: Map<u64, Option<T>>, f0: Map<u64, u64>) -> bool {
        let gone = m.dom().difference(self.nodes@.dom());
        &&& self.nodes@.dom().subset_of(m.dom())
        &&& forall|b: u64| #[trigger] self.nodes@.contains_key(b) ==> self.nodes@[b] == m[b]
        &&& slot_keys(self.slots) == self.nodes@.dom()
        &&& self.roots@ == r0.remove_keys(gone)
        &&& self.focus() == focus_without(f0, gone)
    }

    /// Removes one node of a removal in progress, without its descendants.
    fn remove_one(
        &mut self,
        k: AccessKey,
        Ghost(m): Ghost<Map<u64, AccessNode<U>>>,
        Ghost(r0): Ghost<Map<u64, Option<T>>>,
        Ghost(f0): Ghost<Map<u64, u64>>,
    ) -> (removed: Option<AccessNode<U>>)
        requires
            old(self).removal_state(m, r0, f0),
        ensures
            final(self).removal_state(m, r0, f0),
            final(self).nodes@ == old(self).nodes@.remove(k.bits),
            final(self).framework_name == old(self).framework_name,
            final(self).depth == old(self).depth,
            match removed {
                Some(n) => old(self).nodes@.contains_key(k.bits) && n == old(self).nodes@[k.bits],
                None => !old(self).nodes@.contains_key(k.bits),
            },
    {
        let ghost old_tree = *self;
        let removed = self.nodes.remove(&k.bits);
        match removed {
            Some(n) => {
                slots_remove(&mut self.slots, k.bits);
                self.roots.remove(&k.bits);
                focus_map_forget(&mut self.focused_nodes, k.bits);
                proof {
                    assert(self.nodes@.dom() =~= old_tree.nodes@.dom().remove(k.bits));
                    assert(slot_keys(self.slots) == self.nodes@.dom());
                    assert forall|b: u64| #[trigger] self.nodes@.contains_key(b) implies self.nodes@[b] == m[b] by {
                        assert(old_tree.nodes@.contains_key(b));
                    }
                    let gone0 = m.dom().difference(old_tree.nodes@.dom());
                    let gone1 = m.dom().difference(self.nodes@.dom());
                    assert(gone1 =~= gone0.insert(k.bits));
                    assert(self.roots@ =~= r0.remove_keys(gone1));
                    let fo = focus_entries(old_tree.focused_nodes);
                    assert(fo == focus_without(f0, gone0));
                    assert(self.focus() =~= focus_without(f0, gone1));
                }
                Some(n)
            },
            None => {
                proof {
                    assert(self.nodes@ =~= old_tree.nodes@.remove(k.bits));
                    assert(self.nodes@ =~= old_tree.nodes@);
                }
                None
            },
        }
    }

    /// Removes the subtree of `k` as it stands in `s` from a removal in progress.
    fn remove_rec(
        &mut self,
        k: AccessKey,
        Ghost(s): Ghost<Shape>,
        Ghost(m): Ghost<Map<u64, AccessNode<U>>>,
        Ghost(r0): Ghost<Map<u64, Option<T>>>,
        Ghost(f0): Ghost<Map<u64, u64>>,
    )
        requires
            old(self).removal_state(m, r0, f0),
            s.wf(),
            s.parent.dom() == m.dom(),
            forall|x: AccessKey| #[trigger] s.in_subtree(k, x) ==> m[x.bits]@.children == s.kids(x),
            (forall|x: AccessKey| #[trigger] s.in_subtree(k, x) ==> old(self).nodes@.contains_key(x.bits))
                || (forall|x: AccessKey| #[trigger] s.in_subtree(k, x) ==> !old(self).nodes@.contains_key(x.bits)),
        ensures
            final(self).removal_state(m, r0, f0),
            forall|b: u64| #[trigger]
                final(self).nodes@.contains_key(b) <==> (old(self).nodes@.contains_key(b) && !s.in_subtree(
                    k,
                    AccessKey { bits: b },
                )),
            final(self).framework_name == old(self).framework_name,
            final(self).depth == old(self).depth,
        decreases old(self).nodes@.len(),
    {
        let ghost entry = self.nodes@.dom();
        let removed = self.remove_one(k, Ghost(m), Ghost(r0), Ghost(f0));
        let n = match removed {
            Some(n) => n,
            None => {
                proof {
                    assert forall|b: u64| #[trigger]
                        self.nodes@.contains_key(b) <==> (entry.contains(b) && !s.in_subtree(
                            k,
                            AccessKey { bits: b },
                        )) by {
                        if entry.contains(b) && s.in_subtree(k, AccessKey { bits: b }) {
                            if (AccessKey { bits: b }) != k {
                                lemma_ancestor_depth(s, k, AccessKey { bits: b });
                            }
                            assert(s.has(k));
                            assert(s.in_subtree(k, k));
                            assert(!entry.contains(k.bits));
                        }
                    }
                }
                return;
            },
        };
        proof {
            assert(s.in_subtree(k, k)) by {
                assert(m.dom().contains(k.bits));
            }
            assert(n@.children == s.kids(k));
            assert(forall|x: AccessKey| #[trigger] s.in_subtree(k, x) ==> entry.contains(x.bits));
        }
        let kids = n.child_list();
        let len = key_list_len(kids);
        let mut i: usize = 0;
        while i < len
            invariant
                self.removal_state(m, r0, f0),
                s.wf(),
                s.parent.dom() == m.dom(),
                s.has(k),
                forall|x: AccessKey| #[trigger] s.in_subtree(k, x) ==> m[x.bits]@.children == s.kids(x),
                forall|x: AccessKey| #[trigger] s.in_subtree(k, x) ==> entry.contains(x.bits),
                key_list_items(*kids) == s.kids(k),
                len == s.kids(k).len(),
                i <= len,
                entry.finite(),
                entry == old(self).nodes@.dom(),
                entry.contains(k.bits),
                self.nodes@.dom().subset_of(entry.remove(k.bits)),
                forall|b: u64| #[trigger]
                    self.nodes@.contains_key(b) <==> (entry.contains(b) && b != k.bits && !(exists|j: int|
                        0 <= j < i && #[trigger] s.in_subtree(s.kids(k)[j], AccessKey { bits: b }))),
                self.framework_name == old(self).framework_name,
                self.depth == old(self).depth,
            decreases len - i,
        {
            let c = key_list_get(kids, i);
            proof {
                vstd::set_lib::lemma_len_subset(self.nodes@.dom(), entry.remove(k.bits));
                assert(self.nodes@.len() < old(self).nodes@.len());
                self.lemma_child_removal_ready(k, c, i as int, s, m, entry);
            }
            self.remove_rec(c, Ghost(s), Ghost(m), Ghost(r0), Ghost(f0));
            proof {
                assert forall|b: u64| #[trigger]
                    self.nodes@.contains_key(b) <==> (entry.contains(b) && b != k.bits && !(exists|j: int|
                        0 <= j < i + 1 && #[trigger] s.in_subtree(s.kids(k)[j], AccessKey { bits: b }))) by {
                    if s.in_subtree(s.kids(k)[i as int], AccessKey { bits: b }) {
                        assert(0 <= i < i + 1);
                    }
                }
            }
            i = i + 1;
        }
        proof {
            assert forall|b: u64| #[trigger]
                self.nodes@.contains_key(b) <==> (entry.contains(b) && !s.in_subtree(k, AccessKey { bits: b })) by {
                let x = AccessKey { bits: b };
                if entry.contains(b) && s.in_subtree(k, x) && b != k.bits {
                    lemma_subtree_split(s, k, x);
                }
                if exists|j: int| 0 <= j < len && #[trigger] s.in_subtree(s.kids(k)[j], x) {
                    let j = choose|j: int| 0 <= j < len && #[trigger] s.in_subtree(s.kids(k)[j], x);
                    lemma_child_subtree_inside(s, k, j, x);
                }
            }
        }
    }

    /// Before the removal of the `i`-th child `c` of `k`: the subtree of `c`
    /// is either still whole or already gone.
    proof fn lemma_child_removal_ready(
        &self,
        k: AccessKey,
        c: AccessKey,
        i: int,
        s: Shape,
        m: Map<u64, AccessNode<U>>,
        entry: Set<u64>,
    )
        requires
            s.wf(),
            s.has(k),
            0 <= i < s.kids(k).len(),
            c == s.kids(k)[i],
            forall|x: AccessKey| #[trigger] s.in_subtree(k, x) ==> m[x.bits]@.children == s.kids(x),
            forall|x: AccessKey| #[trigger] s.in_subtree(k, x) ==> entry.contains(x.bits),
            forall|b: u64| #[trigger]
                self.nodes@.contains_key(b) <==> (entry.contains(b) && b != k.bits && !(exists|j: int|
                    0 <= j < i && #[trigger] s.in_subtree(s.kids(k)[j], AccessKey { bits: b }))),
        ensures
            forall|x: AccessKey| #[trigger] s.in_subtree(c, x) ==> m[x.bits]@.children == s.kids(x),
            (forall|x: AccessKey| #[trigger] s.in_subtree(c, x) ==> self.nodes@.contains_key(x.bits))
                || (forall|x: AccessKey| #[trigger] s.in_subtree(c, x) ==> !self.nodes@.contains_key(x.bits)),
    {
        assert forall|x: AccessKey| #[trigger] s.in_subtree(c, x) implies s.in_subtree(k, x) by {
            lemma_child_subtree_inside(s, k, i, x);
        }
        assert(s.has(c) && s.par(c) == Some(k));
        if exists|j: int| 0 <= j < i && s.kids(k)[j] == c {
            let j = choose|j: int| 0 <= j < i && s.kids(k)[j] == c;
            assert forall|x: AccessKey| #[trigger] s.in_subtree(c, x) implies !self.nodes@.contains_key(x.bits) by {
                assert(s.in_subtree(s.kids(k)[j], AccessKey { bits: x.bits }));
            }
        } else {
            assert forall|x: AccessKey| #[trigger] s.in_subtree(c, x) implies self.nodes@.contains_key(x.bits) by {
                assert(s.in_subtree(k, x));
                assert(x == AccessKey { bits: x.bits });
                if x == k {
                    lemma_ancestor_depth(s, c, k);
                }
                assert forall|j: int| 0 <= j < i implies !#[trigger] s.in_subtree(s.kids(k)[j], AccessKey { bits: x.bits }) by {
                    let d = s.kids(k)[j];
                    assert(s.has(d) && s.par(d) == Some(k));
                    lemma_sibling_subtrees_disjoint(s, c, d, x);
                }
            }
        }
    }

    /// Removes a node and all of its descendants.
    ///
    /// Does nothing if `node` is not in this tree. The removed nodes leave the
    /// roots and take with them every focus entry that names them, as a root
    /// or as the focused node.
    pub fn remove_node(&mut self, node: AccessKey)
        requires
            old(self).wf(),
        ensures
            final(self).wf(),
            final(self).framework() == old(self).framework(),
            forall|k: AccessKey| #[trigger]
                final(self).contains(k) ==> final(self).shape().dep(k) == old(self).shape().dep(k),
            old(self).contains(node) ==> {
                &&& final(self).nodes() == unlinked(old(self).nodes(), node).remove_keys(
                    old(self).subtree_bits(node),
                )
                &&& final(self).roots() == old(self).roots().remove_keys(old(self).subtree_bits(node))
                &&& final(self).focus() == focus_without(old(self).focus(), old(self).subtree_bits(node))
            },
            !old(self).contains(node) ==> {
                &&& final(self).nodes() == old(self).nodes()
                &&& final(self).roots() == old(self).roots()
                &&& final(self).focus() == old(self).focus()
            },
    {
        if !self.nodes.contains_key(&node.bits) {
            return;
        }
        let ghost old_tree = *self;
        let ghost s = self.shape();
        let ghost r0 = self.roots@;
        let ghost f0 = self.focus();
        let parent = self.get_parent(node);
        proof {
            assert(s.has(node));
        }
        match parent {
            Some(p) => {
                self.unlink_child(p, node);
            },
            None => {},
        }
        let ghost m = self.nodes@;
        proof {
            old_tree.lemma_removal_start(self, node, s, m, r0, f0);
        }
        self.remove_rec(node, Ghost(s), Ghost(m), Ghost(r0), Ghost(f0));
        self.depth = Ghost(self.depth@.restrict(self.nodes@.dom()));
        proof {
            Self::lemma_removal_done(&old_tree, self, node, s, m, r0, f0);
            let ns = self.shape();
            assert forall|x: AccessKey| #[trigger] ns.has(x) implies s.has(x) && s.par(x) == ns.par(x) && s.dep(x)
                == ns.dep(x) by {
                assert(self.contains(x));
            }
            Self::lemma_focus_rooted_kept(&old_tree, self);
        }
    }

    /// Right after `node` is unlinked from its parent, the removal can start.
    proof fn lemma_removal_start(
        &self,
        now: &Self,
        node: AccessKey,
        s: Shape,
        m: Map<u64, AccessNode<U>>,
        r0: Map<u64, Option<T>>,
        f0: Map<u64, u64>,
    )
        requires
            self.wf(),
            self.contains(node),
            s == self.shape(),
            r0 == self.roots@,
            f0 == self.focus(),
            m == now.nodes@,
            now.nodes@.dom() == self.nodes@.dom(),
            now.nodes() == unlinked(self.nodes(), node),
            now.slots == self.slots,
            now.roots == self.roots,
            now.focused_nodes == self.focused_nodes,
        ensures
            now.removal_state(m, r0, f0),
            s.wf(),
            s.parent.dom() == m.dom(),
            forall|x: AccessKey| #[trigger] s.in_subtree(node, x) ==> m[x.bits]@.children == s.kids(x),
            forall|x: AccessKey| #[trigger] s.in_subtree(node, x) ==> now.nodes@.contains_key(x.bits),
    {
        assert(m.dom().difference(now.nodes@.dom()) =~= Set::<u64>::empty());
        assert(r0.remove_keys(Set::<u64>::empty()) =~= r0);
        assert(focus_without(f0, Set::<u64>::empty()) =~= f0);
        assert(s.parent.dom() =~= m.dom());
        assert(s.has(node));
        assert forall|x: AccessKey| #[trigger] s.in_subtree(node, x) implies m[x.bits]@.children == s.kids(x) by {
            assert(m[x.bits]@ == now.nodes()[x.bits]);
            match s.par(node) {
                Some(p) => {
                    if x.bits == p.bits {
                        assert(x == p);
                        if x != node {
                            lemma_ancestor_depth(s, node, x);
                        }
                    }
                },
                None => {},
            }
        }
    }

    /// Once the subtree is gone and the depths are trimmed, the tree is well
    /// formed again and matches the contract of `remove_node`.
    #[verifier::rlimit(60)]
    proof fn lemma_removal_done(
        old_tree: &Self,
        new_tree: &Self,
        node: AccessKey,
        s: Shape,
        m: Map<u64, AccessNode<U>>,
        r0: Map<u64, Option<T>>,
        f0: Map<u64, u64>,
    )
        requires
            old_tree.wf(),
            old_tree.contains(node),
            s == old_tree.shape(),
            r0 == old_tree.roots@,
            f0 == old_tree.focus(),
            m.dom() == old_tree.nodes@.dom(),
            m.map_values(|n: AccessNode<U>| n@) == unlinked(old_tree.nodes(), node),
            new_tree.removal_state(m, r0, f0),
            forall|b: u64| #[trigger]
                new_tree.nodes@.contains_key(b) <==> (m.contains_key(b) && !s.in_subtree(
                    node,
                    AccessKey { bits: b },
                )),
            new_tree.depth@ == s.depth.restrict(new_tree.nodes@.dom()),
        ensures
            new_tree.links_ok(),
            forall|k: AccessKey| #[trigger]
                new_tree.contains(k) ==> new_tree.shape().dep(k) == old_tree.shape().dep(k),
            new_tree.nodes() == unlinked(old_tree.nodes(), node).remove_keys(old_tree.subtree_bits(node)),
            new_tree.roots() == old_tree.roots().remove_keys(old_tree.subtree_bits(node)),
            new_tree.focus() == focus_without(old_tree.focus(), old_tree.subtree_bits(node)),
    {
        let gone = old_tree.subtree_bits(node);
        let dom = new_tree.nodes@.dom();
        let u = unlinked(old_tree.nodes(), node);
        assert(m.dom().difference(dom) =~= gone);
        assert(s.has(node));
        assert forall|b: u64| #[trigger] new_tree.nodes@.contains_key(b) implies new_tree.nodes@[b]@ == u[b] by {
            assert(new_tree.nodes@[b] == m[b]);
            assert(m.map_values(|n: AccessNode<U>| n@)[b] == m[b]@);
        }
        assert(new_tree.nodes() =~= u.remove_keys(gone));
        let t = new_tree.shape();
        assert(t.parent.dom() =~= dom);
        assert(t.children.dom() =~= dom);
        assert(t.depth.dom() =~= dom);
        assert forall|k: AccessKey| #[trigger] t.has(k) implies match t.par(k) {
            Some(p) => {
                &&& t.has(p)
                &&& t.kids(p).contains(k)
                &&& t.dep(k) == t.dep(p) + 1
            },
            None => t.dep(k) == 0,
        } by {
            assert(s.has(k));
            assert(t.par(k) == s.par(k));
            match s.par(k) {
                Some(q) => {
                    if s.in_subtree(node, q) {
                        lemma_child_in_subtree(s, node, k);
                    }
                    assert(q == AccessKey { bits: q.bits });
                    if s.par(node) == Some(q) {
                        lemma_filter_contains_iff(s.kids(q), other_than(node), k);
                    }
                },
                None => {},
            }
        }
        assert forall|p: AccessKey, i: int|
            t.has(p) && 0 <= i < t.kids(p).len() implies t.has(#[trigger] t.kids(p)[i]) && t.par(t.kids(p)[i])
            == Some(p) by {
            assert(s.has(p));
            assert(p == AccessKey { bits: p.bits });
            let y = t.kids(p)[i];
            if s.par(node) == Some(p) {
                lemma_filter_index(s.kids(p), other_than(node), i);
                let j = choose|j: int| 0 <= j < s.kids(p).len() && s.kids(p)[j] == y;
                assert(s.kids(p)[j] == y);
            } else {
                assert(s.kids(p)[i] == y);
            }
            assert(s.has(y) && s.par(y) == Some(p));
            if s.in_subtree(node, y) {
                if y != node {
                    lemma_ancestor_step(s, node, y);
                }
            }
        }
        assert forall|b: u64| #[trigger]
            new_tree.roots@.contains_key(b) <==> (new_tree.nodes@.contains_key(b) && new_tree.nodes@[b]@.parent is None) by {
            assert(old_tree.roots@.contains_key(b) <==> (old_tree.nodes@.contains_key(b)
                && old_tree.nodes@[b]@.parent is None));
            if new_tree.nodes@.contains_key(b) {
                assert(old_tree.nodes@[b]@ == old_tree.nodes()[b]);
            }
        }
        assert forall|b: u64| #[trigger]
            new_tree.focus().contains_key(b) implies new_tree.roots@.contains_key(b) && new_tree.nodes@.contains_key(
                new_tree.focus()[b],
            ) by {
            assert(f0.contains_key(b));
        }
        assert forall|b: u64| #[trigger]
            new_tree.nodes@.contains_key(b) implies new_tree.nodes@[b]@.children.len() <= key_list_len_limit() by {
            assert(old_tree.nodes@.contains_key(b));
            assert(old_tree.nodes@[b]@ == old_tree.nodes()[b]);
            old_tree.nodes()[b].children.lemma_filter_len(other_than(node));
        }
    }

    /// The key bits of the nodes in the subtrees of those of the first `count`
    /// children of `parent` that `kept` does not list.
    pub open spec fn dropped_bits(&self, parent: AccessKey, kept: Seq<AccessKey>, count: int) -> Set<u64> {
        let listed = self.nodes()[parent.bits].children;
        self.nodes().dom().filter(
            |b: u64|
                exists|j: int|
                    0 <= j < count && !kept.contains(listed[j]) && #[trigger] self.shape().in_subtree(
                        listed[j],
                        AccessKey { bits: b },
                    ),
        )
    }

    /// The key bits of the nodes in the subtrees of the children of `parent`
    /// that `kept` does not list.
    pub open spec fn omitted_bits(&self, parent: AccessKey, kept: Seq<AccessKey>) -> Set<u64> {
        self.dropped_bits(parent, kept, self.nodes()[parent.bits].children.len() as int)
    }

    /// The key bits of the nodes in the subtrees of the nodes that `kept` lists.
    pub open spec fn covered_bits(&self, kept: Seq<AccessKey>) -> Set<u64> {
        self.nodes().dom().filter(
            |b: u64|
                exists|i: int|
                    0 <= i < kept.len() && #[trigger] self.shape().in_subtree(kept[i], AccessKey { bits: b }),
        )
    }

    /// The key bits of the nodes that `set_children` removes: the subtrees of
    /// the children of `parent` that `kept` does not list, less the subtrees
    /// of the listed nodes, which move under `parent` first.
    pub open spec fn replaced_bits(&self, parent: AccessKey, kept: Seq<AccessKey>) -> Set<u64> {
        self.omitted_bits(parent, kept).difference(self.covered_bits(kept))
    }

    /// Taking one more child of `parent` into account adds its subtree when
    /// `kept` does not list it.
    proof fn lemma_dropped_step(&self, parent: AccessKey, kept: Seq<AccessKey>, i: int)
        requires
            0 <= i < self.nodes()[parent.bits].children.len(),
        ensures
            self.dropped_bits(parent, kept, i + 1) == (if kept.contains(self.nodes()[parent.bits].children[i]) {
                self.dropped_bits(parent, kept, i)
            } else {
                self.dropped_bits(parent, kept, i) + self.subtree_bits(self.nodes()[parent.bits].children[i])
            }),
    {
        let listed = self.nodes()[parent.bits].children;
        let x = listed[i];
        let s = self.shape();
        let d0 = self.dropped_bits(parent, kept, i);
        let d1 = self.dropped_bits(parent, kept, i + 1);
        let target = if kept.contains(x) {
            d0
        } else {
            d0 + self.subtree_bits(x)
        };
        assert forall|b: u64| d1.contains(b) implies target.contains(b) by {
            let j = choose|j: int|
                0 <= j < i + 1 && !kept.contains(listed[j]) && #[trigger] s.in_subtree(
                    listed[j],
                    AccessKey { bits: b },
                );
            if j < i {
                assert(d0.contains(b));
            } else {
                assert(self.subtree_bits(x).contains(b));
            }
        }
        assert forall|b: u64| target.contains(b) implies d1.contains(b) by {
            if d0.contains(b) {
                let j = choose|j: int|
                    0 <= j < i && !kept.contains(listed[j]) && #[trigger] s.in_subtree(
                        listed[j],
                        AccessKey { bits: b },
                    );
                assert(s.in_subtree(listed[j], AccessKey { bits: b }));
            } else {
                assert(s.in_subtree(listed[i], AccessKey { bits: b }));
            }
        }
        assert(d1 =~= target);
    }

    /// While the omitted children of `parent` are removed one by one, the next
    /// child either still has its whole subtree or has already left with it.
    proof fn lemma_drop_live(t0: &Self, cur: &Self, parent: AccessKey, kept: Seq<AccessKey>, i: int)
        requires
            t0.wf(),
            t0.contains(parent),
            0 <= i < t0.nodes()[parent.bits].children.len(),
            forall|b: u64| #[trigger]
                cur.nodes().contains_key(b) <==> (t0.nodes().contains_key(b) && !t0.dropped_bits(
                    parent,
                    kept,
                    i,
                ).contains(b)),
            forall|b: u64| #[trigger]
                cur.nodes().contains_key(b) ==> cur.nodes()[b].parent == t0.nodes()[b].parent,
            forall|k: AccessKey| #[trigger] cur.contains(k) ==> cur.shape().dep(k) == t0.shape().dep(k),
        ensures
            ({
                let x = t0.nodes()[parent.bits].children[i];
                &&& t0.contains(x)
                &&& x != parent
                &&& t0.nodes()[x.bits].parent == Some(parent)
                &&& !t0.subtree_bits(x).contains(parent.bits)
                &&& cur.contains(x) ==> cur.subtree_bits(x) == t0.subtree_bits(x)
                &&& !cur.contains(x) ==> t0.subtree_bits(x).subset_of(t0.dropped_bits(parent, kept, i))
            }),
    {
        let s = t0.shape();
        let c = cur.shape();
        let listed = t0.nodes()[parent.bits].children;
        let x = listed[i];
        let d0 = t0.dropped_bits(parent, kept, i);
        assert(s.has(parent));
        assert(s.kids(parent)[i] == x);
        assert(s.has(x) && s.par(x) == Some(parent));
        assert(s.dep(x) == s.dep(parent) + 1);
        if s.in_subtree(x, parent) {
            lemma_ancestor_depth(s, x, parent);
        }
        assert forall|k: AccessKey| #[trigger] c.has(k) implies c.par(k) == s.par(k) && c.dep(k) == s.dep(k) by {
            assert(cur.contains(k));
        }
        assert(c.parent.dom().subset_of(s.parent.dom()));
        assert(s.in_subtree(x, x));
        assert(x == AccessKey { bits: x.bits });
        if cur.contains(x) {
            assert forall|y: AccessKey| #[trigger] s.in_subtree(x, y) implies c.has(y) by {
                assert(y == AccessKey { bits: y.bits });
                if d0.contains(y.bits) {
                    let j = choose|j: int|
                        0 <= j < i && !kept.contains(listed[j]) && #[trigger] s.in_subtree(
                            listed[j],
                            AccessKey { bits: y.bits },
                        );
                    if listed[j] == x {
                        assert(s.in_subtree(listed[j], AccessKey { bits: x.bits }));
                        assert(d0.contains(x.bits));
                    } else {
                        assert(s.kids(parent)[j] == listed[j]);
                        lemma_sibling_subtrees_disjoint(s, listed[j], x, y);
                    }
                }
            }
            assert forall|b: u64| cur.subtree_bits(x).contains(b) <==> t0.subtree_bits(x).contains(b) by {
                let k = AccessKey { bits: b };
                lemma_restricted_ancestry(s, c, x, k);
                if s.in_subtree(x, k) {
                    assert(c.has(k));
                }
            }
            assert(cur.subtree_bits(x) =~= t0.subtree_bits(x));
        } else {
            assert(d0.contains(x.bits));
            let j = choose|j: int|
                0 <= j < i && !kept.contains(listed[j]) && #[trigger] s.in_subtree(
                    listed[j],
                    AccessKey { bits: x.bits },
                );
            if listed[j] != x {
                assert(s.kids(parent)[j] == listed[j]);
                lemma_sibling_subtrees_disjoint(s, listed[j], x, x);
            }
            assert forall|b: u64| t0.subtree_bits(x).contains(b) implies d0.contains(b) by {
                assert(s.in_subtree(listed[j], AccessKey { bits: b }));
            }
        }
    }

    /// Removes, with their subtrees, the children of `parent` that `kept`
    /// does not list.
    fn drop_omitted(&mut self, parent: AccessKey, kept: &[AccessKey])
        requires
            old(self).wf(),
            old(self).contains(parent),
        ensures
            final(self).wf(),
            final(self).contains(parent),
            forall|b: u64| #[trigger]
                final(self).nodes().contains_key(b) <==> (old(self).nodes().contains_key(b)
                    && !old(self).omitted_bits(parent, kept@).contains(b)),
            forall|b: u64| #[trigger]
                final(self).nodes().contains_key(b) && b != parent.bits ==> final(self).nodes()[b] == old(
                    self,
                ).nodes()[b],
            final(self).nodes()[parent.bits] == (NodeView {
                children: final(self).nodes()[parent.bits].children,
                ..old(self).nodes()[parent.bits]
            }),
            final(self).nodes()[parent.bits].children.len() <= old(self).nodes()[parent.bits].children.len(),
            forall|k: AccessKey| #[trigger]
                final(self).contains(k) ==> final(self).shape().dep(k) == old(self).shape().dep(k),
            final(self).roots() == old(self).roots().remove_keys(old(self).omitted_bits(parent, kept@)),
            final(self).focus() == focus_without(old(self).focus(), old(self).omitted_bits(parent, kept@)),
            final(self).framework() == old(self).framework(),
    {
        let ghost t0 = *self;
        let old_children = match self.nodes.get(&parent.bits) {
            Some(n) => key_list_clone(n.child_list()),
            None => key_list_new(),
        };
        let len = key_list_len(&old_children);
        let mut i: usize = 0;
        proof {
            assert(t0.dropped_bits(parent, kept@, 0) =~= Set::<u64>::empty());
            assert(self.roots() =~= t0.roots().remove_keys(Set::<u64>::empty()));
            assert(self.focus() =~= focus_without(t0.focus(), Set::<u64>::empty()));
        }
        while i < len
            invariant
                t0.wf(),
                t0.contains(parent),
                key_list_items(old_children) == t0.nodes()[parent.bits].children,
                len == key_list_items(old_children).len(),
                i <= len,
                self.wf(),
                self.contains(parent),
                forall|b: u64| #[trigger]
                    self.nodes().contains_key(b) <==> (t0.nodes().contains_key(b) && !t0.dropped_bits(
                        parent,
                        kept@,
                        i as int,
                    ).contains(b)),
                forall|b: u64| #[trigger]
                    self.nodes().contains_key(b) && b != parent.bits ==> self.nodes()[b] == t0.nodes()[b],
                self.nodes()[parent.bits] == (NodeView {
                    children: self.nodes()[parent.bits].children,
                    ..t0.nodes()[parent.bits]
                }),
                self.nodes()[parent.bits].children.len() <= len,
                forall|k: AccessKey| #[trigger] self.contains(k) ==> self.shape().dep(k) == t0.shape().dep(k),
                self.roots() == t0.roots().remove_keys(t0.dropped_bits(parent, kept@, i as int)),
                self.focus() == focus_without(t0.focus(), t0.dropped_bits(parent, kept@, i as int)),
                self.framework() == t0.framework(),
            decreases len - i,
        {
            let x = key_list_get(&old_children, i);
            proof {
                t0.lemma_dropped_step(parent, kept@, i as int);
                assert forall|b: u64| #[trigger]
                    self.nodes().contains_key(b) implies self.nodes()[b].parent == t0.nodes()[b].parent by {
                    if b == parent.bits {
                        assert(self.nodes()[parent.bits].parent == t0.nodes()[parent.bits].parent);
                    }
                }
                Self::lemma_drop_live(&t0, self, parent, kept@, i as int);
            }
            if !list_holds(kept, x) {
                let ghost before = *self;
                let ghost d0 = t0.dropped_bits(parent, kept@, i as int);
                let ghost sub = t0.subtree_bits(x);
                self.remove_node(x);
                proof {
                    if before.contains(x) {
                        assert(before.nodes()[x.bits].parent == Some(parent));
                        before.nodes()[parent.bits].children.lemma_filter_len(other_than(x));
                        assert(self.roots() =~= t0.roots().remove_keys(d0 + sub));
                        lemma_focus_without_twice(t0.focus(), d0, sub);
                    } else {
                        assert(d0 + sub =~= d0);
                    }
                    assert forall|b: u64| #[trigger]
                        self.nodes().contains_key(b) <==> (t0.nodes().contains_key(b) && !(d0 + sub).contains(b)) by {
                        if before.contains(x) {
                            assert(before.subtree_bits(x) == sub);
                        }
                    }
                    assert forall|k: AccessKey| #[trigger]
                        self.contains(k) implies self.shape().dep(k) == t0.shape().dep(k) by {
                        assert(before.contains(k));
                    }
                }
            }
            i = i + 1;
        }
    }

    /// After the listed nodes have moved under `parent`, the subtrees of the
    /// children of `parent` that the list omits hold exactly the nodes that
    /// `set_children` removes, as `t0` gives them.
    #[verifier::spinoff_prover]
    #[verifier::rlimit(40)]
    proof fn lemma_omitted_after_moves(t0: &Self, m: &Self, parent: AccessKey, kids: Seq<AccessKey>)
        requires
            t0.wf(),
            t0.contains(parent),
            m.wf(),
            forall|b: u64| #[trigger] m.nodes().contains_key(b) <==> t0.nodes().contains_key(b),
            forall|b: u64| #[trigger]
                m.nodes().contains_key(b) && b != parent.bits ==> m.nodes()[b] == regrouped_nodes(
                    t0.nodes(),
                    parent,
                    kids,
                    Set::<u64>::empty(),
                )[b],
            m.nodes()[parent.bits].parent == t0.nodes()[parent.bits].parent,
            forall|i: int|
                0 <= i < kids.len() ==> t0.contains(#[trigger] kids[i]) && !t0.shape().in_subtree(kids[i], parent),
            forall|a: AccessKey| #[trigger] m.shape().is_ancestor(a, parent) ==> t0.shape().is_ancestor(a, parent),
        ensures
            m.omitted_bits(parent, kids) == t0.replaced_bits(parent, kids),
    {
        let s = t0.shape();
        let ms = m.shape();
        let listed = t0.nodes()[parent.bits].children;
        let mlisted = m.nodes()[parent.bits].children;
        assert(s.has(parent));
        assert(s.in_subtree(parent, parent));
        assert forall|y: AccessKey| #[trigger] ms.has(y) <==> s.has(y) by {}
        assert forall|y: AccessKey| #[trigger]
            s.has(y) implies ms.par(y) == (if kids.contains(y) {
                Some(parent)
            } else {
                s.par(y)
            }) by {
            assert(y == AccessKey { bits: y.bits });
            if y.bits == parent.bits {
                assert(y == parent);
                if kids.contains(y) {
                    let i = choose|i: int| 0 <= i < kids.len() && kids[i] == y;
                    assert(t0.contains(kids[i]));
                }
            }
        }
        assert forall|i: int| 0 <= i < kids.len() implies s.has(#[trigger] kids[i]) && !s.in_subtree(kids[i], parent) by {
            assert(t0.contains(kids[i]));
        }
        assert forall|b: u64| m.omitted_bits(parent, kids).contains(b) <==> t0.replaced_bits(parent, kids).contains(b) by {
            let k = AccessKey { bits: b };
            if m.omitted_bits(parent, kids).contains(b) {
                let j = choose|j: int|
                    0 <= j < mlisted.len() && !kids.contains(mlisted[j]) && #[trigger] ms.in_subtree(
                        mlisted[j],
                        AccessKey { bits: b },
                    );
                let x = mlisted[j];
                assert(ms.has(parent));
                assert(ms.kids(parent)[j] == x);
                assert(ms.par(x) == Some(parent));
                assert(s.par(x) == Some(parent));
                assert(s.kids(parent).contains(x));
                let jj = choose|jj: int| 0 <= jj < listed.len() && listed[jj] == x;
                lemma_regrouped_subtree(s, ms, parent, kids, x, k);
                assert(s.in_subtree(listed[jj], AccessKey { bits: b }));
                if exists|i: int| 0 <= i < kids.len() && #[trigger] s.in_subtree(kids[i], AccessKey { bits: b }) {
                    let i = choose|i: int| 0 <= i < kids.len() && #[trigger] s.in_subtree(kids[i], AccessKey { bits: b });
                    assert(s.in_subtree(kids[i], k));
                }
            }
            if t0.replaced_bits(parent, kids).contains(b) {
                let jj = choose|jj: int|
                    0 <= jj < listed.len() && !kids.contains(listed[jj]) && #[trigger] s.in_subtree(
                        listed[jj],
                        AccessKey { bits: b },
                    );
                let x = listed[jj];
                assert(s.kids(parent)[jj] == x);
                assert(s.has(x) && s.par(x) == Some(parent));
                assert(ms.par(x) == Some(parent));
                assert(ms.has(x));
                assert(ms.kids(parent).contains(x));
                let j = choose|j: int| 0 <= j < mlisted.len() && mlisted[j] == x;
                lemma_regrouped_subtree(s, ms, parent, kids, x, k);
                if exists|i: int| 0 <= i < kids.len() && #[trigger] s.in_subtree(kids[i], k) {
                    let i = choose|i: int| 0 <= i < kids.len() && #[trigger] s.in_subtree(kids[i], k);
                    assert(t0.covered_bits(kids).contains(b));
                }
                assert(ms.in_subtree(mlisted[j], AccessKey { bits: b }));
            }
        }
        assert(m.omitted_bits(parent, kids) =~= t0.replaced_bits(parent, kids));
    }

    /// One step of moving the listed children under `parent`: the nodes
    /// other than `parent` match the regrouping by one more listed child.
    proof fn lemma_adopt_step(
        t0: &Self,
        before: &Self,
        after: &Self,
        parent: AccessKey,
        kids: Seq<AccessKey>,
        gone: Set<u64>,
        k: int,
    )
        requires
            0 <= k < kids.len(),
            kids[k] != parent,
            forall|b: u64| #[trigger]
                before.nodes().contains_key(b) <==> (t0.nodes().contains_key(b) && !gone.contains(b)),
            forall|b: u64| #[trigger]
                before.nodes().contains_key(b) && b != parent.bits ==> before.nodes()[b] == regrouped_nodes(
                    t0.nodes(),
                    parent,
                    kids.take(k),
                    gone,
                )[b],
            before.nodes().contains_key(parent.bits),
            before.nodes()[parent.bits] == (NodeView {
                children: before.nodes()[parent.bits].children,
                ..t0.nodes()[parent.bits]
            }),
            after.nodes() == moved_nodes(before.nodes(), kids[k], Some(parent)),
        ensures
            forall|b: u64| #[trigger] after.nodes().contains_key(b) <==> before.nodes().contains_key(b),
            forall|b: u64| #[trigger]
                after.nodes().contains_key(b) && b != parent.bits ==> after.nodes()[b] == regrouped_nodes(
                    t0.nodes(),
                    parent,
                    kids.take(k + 1),
                    gone,
                )[b],
            after.nodes()[parent.bits] == (NodeView {
                children: after.nodes()[parent.bits].children,
                ..t0.nodes()[parent.bits]
            }),
            after.nodes()[parent.bits].children.len() <= before.nodes()[parent.bits].children.len() + 1,
    {
        let c = kids[k];
        let t = kids.take(k);
        let t1 = kids.take(k + 1);
        before.nodes()[parent.bits].children.lemma_filter_len(other_than(c));
        assert forall|b: u64| #[trigger]
            after.nodes().contains_key(b) && b != parent.bits implies after.nodes()[b] == regrouped_nodes(
                t0.nodes(),
                parent,
                t1,
                gone,
            )[b] by {
            let key = AccessKey { bits: b };
            lemma_take_one_more(kids, k, key);
            lemma_filter_not_in_push(t0.nodes()[b].children, t, c);
            assert(key != parent);
            assert(c == AccessKey { bits: c.bits });
        }
    }

    /// Once every listed child hangs under `parent`, giving `parent` exactly
    /// the listed children yields the regrouped tree, which is well formed.
    #[verifier::rlimit(40)]
    proof fn lemma_regroup_done(
        t0: &Self,
        before: &Self,
        after: &Self,
        parent: AccessKey,
        kids: Seq<AccessKey>,
        gone: Set<u64>,
    )
        requires
            t0.wf(),
            t0.contains(parent),
            gone == t0.replaced_bits(parent, kids),
            forall|i: int|
                0 <= i < kids.len() ==> {
                    &&& t0.contains(#[trigger] kids[i])
                    &&& !t0.shape().in_subtree(kids[i], parent)
                    &&& !gone.contains(kids[i].bits)
                },
            kids.len() <= key_list_len_limit(),
            before.wf(),
            forall|b: u64| #[trigger]
                before.nodes().contains_key(b) <==> (t0.nodes().contains_key(b) && !gone.contains(b)),
            forall|b: u64| #[trigger]
                before.nodes().contains_key(b) && b != parent.bits ==> before.nodes()[b] == regrouped_nodes(
                    t0.nodes(),
                    parent,
                    kids,
                    gone,
                )[b],
            before.nodes()[parent.bits] == (NodeView {
                children: before.nodes()[parent.bits].children,
                ..t0.nodes()[parent.bits]
            }),
            after.nodes@.dom() == before.nodes@.dom(),
            after.nodes() == before.nodes().insert(
                parent.bits,
                NodeView { children: kids, ..before.nodes()[parent.bits] },
            ),
            after.slots == before.slots,
            after.roots == before.roots,
            after.focused_nodes == before.focused_nodes,
            after.depth == before.depth,
        ensures
            after.wf(),
            after.nodes() == regrouped_nodes(t0.nodes(), parent, kids, gone),
            after.focus() == before.focus(),
            forall|x: AccessKey| #[trigger]
                after.shape().has(x) ==> before.shape().has(x) && after.shape().root_of(x) == before.shape().root_of(
                    x,
                ),
            forall|x: AccessKey| #[trigger] before.shape().has(x) ==> after.shape().has(x),
    {
        let s0 = t0.shape();
        let sb = before.shape();
        let sa = after.shape();
        let listed = t0.nodes()[parent.bits].children;
        assert(sa.parent =~= sb.parent);
        assert(sa.children.dom() =~= sb.children.dom());
        assert(sb.has(parent));
        assert forall|k: AccessKey| #[trigger] sa.has(k) implies match sa.par(k) {
            Some(p) => {
                &&& sa.has(p)
                &&& sa.kids(p).contains(k)
                &&& sa.dep(k) == sa.dep(p) + 1
            },
            None => sa.dep(k) == 0,
        } by {
            assert(sb.has(k));
            match sb.par(k) {
                Some(p) => {
                    if p.bits == parent.bits {
                        assert(p == parent);
                        if k.bits == parent.bits {
                            assert(k == parent);
                        }
                        assert(k.bits != parent.bits);
                        if !kids.contains(k) {
                            assert(k == AccessKey { bits: k.bits });
                            assert(t0.nodes()[k.bits].parent == Some(parent));
                            assert(s0.has(k));
                            assert(s0.kids(parent).contains(k));
                            let j = choose|j: int| 0 <= j < listed.len() && listed[j] == k;
                            assert(s0.in_subtree(listed[j], AccessKey { bits: k.bits }));
                            assert forall|i: int|
                                0 <= i < kids.len() implies !#[trigger] s0.in_subtree(
                                kids[i],
                                AccessKey { bits: k.bits },
                            ) by {
                                if s0.in_subtree(kids[i], k) {
                                    assert(kids[i] != k);
                                    lemma_ancestor_step(s0, kids[i], k);
                                    assert(s0.in_subtree(kids[i], parent));
                                }
                            }
                            assert(!t0.covered_bits(kids).contains(k.bits));
                            assert(gone.contains(k.bits));
                        }
                    } else {
                        assert(sa.kids(p) == sb.kids(p));
                    }
                },
                None => {},
            }
        }
        assert forall|p: AccessKey, i: int|
            sa.has(p) && 0 <= i < sa.kids(p).len() implies sa.has(#[trigger] sa.kids(p)[i]) && sa.par(sa.kids(p)[i])
            == Some(p) by {
            if p.bits == parent.bits {
                assert(p == parent);
                let c = kids[i];
                assert(sa.kids(p)[i] == c);
                assert(s0.has(c));
                assert(s0.in_subtree(c, c));
                assert(c.bits != parent.bits);
                assert(kids.contains(c));
                assert(before.nodes().contains_key(c.bits));
            } else {
                assert(sa.kids(p) == sb.kids(p));
                assert(sb.kids(p)[i] == sa.kids(p)[i]);
            }
        }
        assert forall|b: u64| #[trigger]
            after.roots@.contains_key(b) <==> (after.nodes@.contains_key(b) && after.nodes@[b]@.parent is None) by {
            if after.nodes@.contains_key(b) {
                assert(after.nodes@[b]@ == after.nodes()[b]);
                assert(before.nodes@[b]@ == before.nodes()[b]);
            }
        }
        assert forall|b: u64| #[trigger]
            after.nodes@.contains_key(b) implies after.nodes@[b]@.children.len() <= key_list_len_limit() by {
            assert(after.nodes@[b]@ == after.nodes()[b]);
            assert(before.nodes@[b]@ == before.nodes()[b]);
        }
        assert(after.nodes() =~= regrouped_nodes(t0.nodes(), parent, kids, gone));
        assert(slot_keys(after.slots) == after.nodes@.dom());
        assert(sa.domains_ok());
        assert(sa.upward_ok());
        assert(sa.downward_ok());
        assert forall|b: u64| #[trigger]
            after.focus().contains_key(b) implies after.roots@.contains_key(b) && after.nodes@.contains_key(
                after.focus()[b],
            ) by {
            assert(before.focus().contains_key(b));
        }
        assert(after.links_ok());
        assert(sa.depth == sb.depth);
        Self::lemma_focus_rooted_kept(before, after);
        assert forall|x: AccessKey| #[trigger]
            sa.has(x) implies sb.has(x) && sa.root_of(x) == sb.root_of(x) by {
            lemma_root_of_agree(sa, sb, x);
        }
    }

    /// Replaces the ordered list of children belonging to `parent`.
    ///
    /// Nodes that already belong to the tree are first moved under `parent`
    /// without changing their identity: each leaves the child list of its
    /// former parent and the roots, together with the focus entry it held as a
    /// root, and a root whose focused node moves into another root's tree
    /// loses that focus. Existing children omitted from the new list are then
    /// removed along with their remaining descendants. The new list must not
    /// name `parent` or one of its ancestors, which would close a cycle.
    pub fn set_children(&mut self, parent: AccessKey, children: &[AccessKey])
        requires
            old(self).wf(),
            old(self).contains(parent),
            forall|i: int|
                0 <= i < children@.len() ==> {
                    &&& old(self).contains(#[trigger] children@[i])
                    &&& !old(self).shape().in_subtree(children@[i], parent)
                },
            old(self).nodes()[parent.bits].children.len() + children@.len() <= key_list_len_limit(),
        ensures
            final(self).wf(),
            final(self).nodes() == regrouped_nodes(
                old(self).nodes(),
                parent,
                children@,
                old(self).replaced_bits(parent, children@),
            ),
            final(self).roots() == old(self).roots().remove_keys(
                old(self).replaced_bits(parent, children@),
            ).remove_keys(key_bits(children@)),
            final(self).focus() == kept_in_roots(
                focus_without(old(self).focus(), old(self).replaced_bits(parent, children@)).remove_keys(
                    key_bits(children@),
                ),
                final(self).shape(),
            ),
            final(self).framework() == old(self).framework(),
    {
        let ghost t0 = *self;
        let ghost kids = children@;
        let ghost gone = t0.replaced_bits(parent, kids);
        let ghost none = Set::<u64>::empty();
        let ghost olen = t0.nodes()[parent.bits].children.len();
        proof {
            let s0 = t0.shape();
            assert(s0.has(parent));
            assert forall|b: u64| #[trigger]
                self.nodes().contains_key(b) && b != parent.bits implies self.nodes()[b] == regrouped_nodes(
                t0.nodes(),
                parent,
                kids.take(0),
                none,
            )[b] by {
                assert(kids.take(0) =~= Seq::<AccessKey>::empty());
                lemma_filter_not_in_empty(t0.nodes()[b].children);
            }
            assert(key_bits(kids.take(0)) =~= Set::<u64>::empty());
            assert(self.roots() =~= t0.roots().remove_keys(key_bits(kids.take(0))));
            let f0 = t0.focus().remove_keys(key_bits(kids.take(0)));
            assert(f0 =~= self.focus());
            assert forall|r: u64| #[trigger] f0.contains_key(r) implies s0.has(AccessKey { bits: f0[r] })
                && s0.root_of(AccessKey { bits: f0[r] }).bits == r by {
                assert(self.focus().contains_key(r));
            }
            assert(self.focus() =~= kept_in_roots(f0, s0));
        }
        let n = children.len();
        let mut k: usize = 0;
        while k < n
            invariant
                t0.wf(),
                t0.contains(parent),
                kids == children@,
                n == kids.len(),
                k <= n,
                none == Set::<u64>::empty(),
                olen == t0.nodes()[parent.bits].children.len(),
                olen + n <= key_list_len_limit(),
                forall|i: int|
                    0 <= i < kids.len() ==> {
                        &&& t0.contains(#[trigger] kids[i])
                        &&& !t0.shape().in_subtree(kids[i], parent)
                    },
                self.wf(),
                self.contains(parent),
                forall|b: u64| #[trigger] self.nodes().contains_key(b) <==> t0.nodes().contains_key(b),
                forall|b: u64| #[trigger]
                    self.nodes().contains_key(b) && b != parent.bits ==> self.nodes()[b] == regrouped_nodes(
                        t0.nodes(),
                        parent,
                        kids.take(k as int),
                        none,
                    )[b],
                self.nodes()[parent.bits] == (NodeView {
                    children: self.nodes()[parent.bits].children,
                    ..t0.nodes()[parent.bits]
                }),
                self.nodes()[parent.bits].children.len() <= olen + k,
                forall|a: AccessKey| #[trigger]
                    self.shape().is_ancestor(a, parent) ==> t0.shape().is_ancestor(a, parent),
                self.roots() == t0.roots().remove_keys(key_bits(kids.take(k as int))),
                self.focus() == kept_in_roots(t0.focus().remove_keys(key_bits(kids.take(k as int))), self.shape()),
                focus_escapes_to(t0.focus().remove_keys(key_bits(kids.take(k as int))), self.shape(), parent),
                self.framework() == t0.framework(),
            decreases n - k,
        {
            let c = children[k];
            let ghost before = *self;
            proof {
                assert(kids[k as int] == c);
                assert(t0.shape().in_subtree(c, c));
                assert(c != parent);
                assert(!self.shape().is_ancestor(c, parent));
                assert(self.contains(c));
            }
            self.move_node(c, Some(parent));
            proof {
                Self::lemma_adopt_step(&t0, &before, self, parent, kids, none, k as int);
                lemma_moved(before.shape(), c, Some(parent));
                assert(before.shape().has(parent));
                assert forall|x: u64| #![trigger key_bits(kids.take(k + 1)).contains(x)]
                    key_bits(kids.take(k + 1)).contains(x) <==> key_bits(kids.take(k as int)).insert(c.bits).contains(x) by {
                    lemma_take_one_more(kids, k as int, AccessKey { bits: x });
                    assert(c == AccessKey { bits: c.bits });
                }
                assert(key_bits(kids.take(k + 1)) =~= key_bits(kids.take(k as int)).insert(c.bits));
                assert(self.roots() =~= t0.roots().remove_keys(key_bits(kids.take(k + 1))));
                let fk = t0.focus().remove_keys(key_bits(kids.take(k as int)));
                assert(fk.remove(c.bits) =~= t0.focus().remove_keys(key_bits(kids.take(k + 1))));
                lemma_adopt_focus(before.shape(), c, parent, fk);
            }
            k = k + 1;
        }
        let ghost moved = *self;
        proof {
            assert(kids.take(n as int) =~= kids);
            Self::lemma_omitted_after_moves(&t0, self, parent, kids);
        }
        self.drop_omitted(parent, children);
        let mut list = key_list_new();
        let mut j: usize = 0;
        while j < n
            invariant
                n == children@.len(),
                n <= key_list_len_limit(),
                j <= n,
                key_list_items(list) == children@.take(j as int),
            decreases n - j,
        {
            key_list_push(&mut list, children[j]);
            proof {
                assert(children@.take(j + 1) =~= children@.take(j as int).push(children@[j as int]));
            }
            j = j + 1;
        }
        let ghost before = *self;
        match node_entry_mut(&mut self.nodes, parent.bits) {
            Some(node) => {
                let _ = node.replace_children(list);
            },
            None => {},
        }
        proof {
            assert(self.nodes@.dom() =~= before.nodes@.dom());
            assert(self.nodes() =~= before.nodes().insert(
                parent.bits,
                NodeView { children: kids, ..before.nodes()[parent.bits] },
            ));
            assert forall|i: int| 0 <= i < kids.len() implies !gone.contains(#[trigger] kids[i].bits) by {
                assert(t0.contains(kids[i]));
                assert(kids[i] == AccessKey { bits: kids[i].bits });
                assert(t0.shape().in_subtree(kids[i], AccessKey { bits: kids[i].bits }));
                assert(t0.covered_bits(kids).contains(kids[i].bits));
            }
            assert forall|b: u64| #[trigger]
                before.nodes().contains_key(b) && b != parent.bits implies before.nodes()[b] == regrouped_nodes(
                t0.nodes(),
                parent,
                kids,
                gone,
            )[b] by {
                assert(moved.nodes().contains_key(b));
            }
            Self::lemma_regroup_done(&t0, &before, self, parent, kids, gone);
            let bs = before.shape();
            let ms = moved.shape();
            assert forall|x: AccessKey| #[trigger] bs.has(x) implies ms.has(x) && ms.par(x) == bs.par(x) && ms.dep(
                x,
            ) == bs.dep(x) by {
                assert(before.contains(x));
            }
            Self::lemma_regroup_focus(&t0, &moved, &before, self, parent, kids, gone);
            assert(self.roots() =~= t0.roots().remove_keys(gone).remove_keys(key_bits(kids)));
        }
    }

    /// The focus entries that `set_children` leaves: those of the roots that
    /// stay roots, whose node remains and lies within the root's tree.
    proof fn lemma_regroup_focus(
        t0: &Self,
        moved: &Self,
        before: &Self,
        after: &Self,
        parent: AccessKey,
        kids: Seq<AccessKey>,
        gone: Set<u64>,
    )
        requires
            t0.wf(),
            t0.contains(parent),
            gone == t0.replaced_bits(parent, kids),
            moved.wf(),
            moved.focus() == kept_in_roots(t0.focus().remove_keys(key_bits(kids)), moved.shape()),
            forall|b: u64| #[trigger] moved.nodes().contains_key(b) <==> t0.nodes().contains_key(b),
            before.focus() == focus_without(moved.focus(), gone),
            forall|b: u64| #[trigger]
                before.nodes().contains_key(b) <==> (t0.nodes().contains_key(b) && !gone.contains(b)),
            forall|x: AccessKey| #[trigger]
                before.shape().has(x) ==> moved.shape().has(x) && moved.shape().par(x) == before.shape().par(x)
                    && moved.shape().dep(x) == before.shape().dep(x),
            before.wf(),
            after.focus() == before.focus(),
            forall|x: AccessKey| #[trigger]
                after.shape().has(x) ==> before.shape().has(x) && after.shape().root_of(x) == before.shape().root_of(
                    x,
                ),
            forall|x: AccessKey| #[trigger] before.shape().has(x) ==> after.shape().has(x),
        ensures
            after.focus() == kept_in_roots(
                focus_without(t0.focus(), gone).remove_keys(key_bits(kids)),
                after.shape(),
            ),
    {
        let s0 = t0.shape();
        let f0 = t0.focus();
        let target = kept_in_roots(focus_without(f0, gone).remove_keys(key_bits(kids)), after.shape());
        assert forall|r: u64| #[trigger] f0.contains_key(r) implies !gone.contains(r) by {
            assert(t0.roots@.contains_key(r));
            assert(t0.nodes@[r]@ == t0.nodes()[r]);
            let rk = AccessKey { bits: r };
            if gone.contains(r) {
                let listed = t0.nodes()[parent.bits].children;
                let j = choose|j: int|
                    0 <= j < listed.len() && !kids.contains(listed[j]) && #[trigger] s0.in_subtree(
                        listed[j],
                        AccessKey { bits: r },
                    );
                assert(s0.has(parent));
                assert(s0.kids(parent)[j] == listed[j]);
                if rk != listed[j] {
                    lemma_ancestor_step(s0, listed[j], rk);
                }
            }
        }
        assert forall|r: u64| after.focus().contains_key(r) <==> target.contains_key(r) by {
            if f0.contains_key(r) {
                let x = AccessKey { bits: f0[r] };
                assert(t0.nodes().contains_key(x.bits));
                assert(moved.shape().has(x));
                if !gone.contains(x.bits) {
                    assert(before.shape().has(x));
                    lemma_root_of_agree(before.shape(), moved.shape(), x);
                }
            }
        }
        assert(after.focus() =~= target);
    }

    /// A node lists a child exactly when that child names the node as its
    /// parent: each child has one parent and sits in that parent's list.
    pub proof fn law_parent_and_children_agree(&self, p: AccessKey, c: AccessKey)
        requires
            self.wf(),
            self.contains(p),
        ensures
            self.nodes()[p.bits].children.contains(c) <==> (self.contains(c) && self.nodes()[c.bits].parent
                == Some(p)),
    {
        let s = self.shape();
        if self.nodes()[p.bits].children.contains(c) {
            self.lemma_listed_child(p.bits, c);
            assert(p == AccessKey { bits: p.bits });
        }
        if self.contains(c) && self.nodes()[c.bits].parent == Some(p) {
            assert(s.has(c));
        }
    }

    /// Sibling links agree in both directions: when `a`'s parent lists no
    /// child twice, `b` follows `a` exactly when `a` precedes `b`.
    pub proof fn law_siblings_agree(&self, a: AccessKey, b: AccessKey, p: AccessKey)
        requires
            self.wf(),
            self.contains(a),
            self.nodes()[a.bits].parent == Some(p),
            self.nodes()[p.bits].children.no_duplicates(),
        ensures
            self.sibling_of(a, true) == Some(b) <==> (self.contains(b) && self.sibling_of(b, false) == Some(a)),
    {
        let s = self.shape();
        let kids = self.nodes()[p.bits].children;
        assert(s.has(a));
        assert(s.has(p) && s.kids(p).contains(a));
        let i = choose|i: int| 0 <= i < kids.len() && kids[i] == a;
        lemma_first_index(kids, a, i);
        if self.sibling_of(a, true) == Some(b) {
            assert(kids[i + 1] == b);
            assert(s.kids(p)[i + 1] == b);
            assert(kids.contains(b));
            lemma_first_index(kids, b, i + 1);
        }
        if self.contains(b) && self.sibling_of(b, false) == Some(a) {
            let q = self.nodes()[b.bits].parent->0;
            let qk = self.nodes()[q.bits].children;
            let m = first_index(qk, b);
            assert(qk[m - 1] == a);
            assert(s.has(b) && s.has(q));
            assert(s.kids(q)[m - 1] == a);
            assert(q == p);
            let j = choose|j: int| 0 <= j < qk.len() && qk[j] == b;
            lemma_first_index(kids, b, j);
            lemma_first_index(kids, a, m - 1);
        }
    }

    /// The first child of a node has no previous sibling.
    pub proof fn law_first_child_has_no_previous_sibling(&self, p: AccessKey)
        requires
            self.wf(),
            self.contains(p),
            self.nodes()[p.bits].children.len() > 0,
        ensures
            self.sibling_of(self.nodes()[p.bits].children[0], false) is None,
    {
        let s = self.shape();
        let kids = self.nodes()[p.bits].children;
        let c = kids[0];
        assert(s.kids(p)[0] == c);
        assert(kids.contains(c));
        lemma_first_index(kids, c, 0);
    }

    /// The last child of a node that lists no child twice has no next sibling.
    pub proof fn law_last_child_has_no_next_sibling(&self, p: AccessKey)
        requires
            self.wf(),
            self.contains(p),
            self.nodes()[p.bits].children.len() > 0,
            self.nodes()[p.bits].children.no_duplicates(),
        ensures
            self.sibling_of(self.nodes()[p.bits].children.last(), true) is None,
    {
        let s = self.shape();
        let kids = self.nodes()[p.bits].children;
        let n = kids.len() - 1;
        let c = kids[n];
        assert(s.kids(p)[n] == c);
        assert(kids.contains(c));
        lemma_first_index(kids, c, n);
    }

    /// The root of a node's tree is a root of the tree, without a parent,
    /// and the node lies in its subtree.
    pub proof fn law_root_is_a_root(&self, node: AccessKey)
        requires
            self.wf(),
            self.contains(node),
        ensures
            self.contains(self.shape().root_of(node)),
            self.nodes()[self.shape().root_of(node).bits].parent is None,
            self.roots().contains_key(self.shape().root_of(node).bits),
            self.shape().in_subtree(self.shape().root_of(node), node),
    {
        let s = self.shape();
        assert(s.has(node));
        lemma_root_of(s, node);
        let r = s.root_of(node);
        assert(self.nodes@.contains_key(r.bits));
        assert(self.nodes@[r.bits]@ == self.nodes()[r.bits]);
    }

    /// Focus is kept per root: after the focus of `root` is set to `focus`,
    /// `root` reports that focus and every other root reports the focus it
    /// had before.
    pub proof fn law_focus_is_kept_per_root(
        before: &Self,
        after: &Self,
        root: AccessKey,
        focus: Option<AccessKey>,
        other: AccessKey,
    )
        requires
            after.focus() == (if before.focus_entry(root) == focus {
                before.focus()
            } else {
                match focus {
                    Some(f) => before.focus().insert(root.bits, f.bits),
                    None => before.focus().remove(root.bits),
                }
            }),
        ensures
            after.focus_entry(root) == focus,
            other != root ==> after.focus_entry(other) == before.focus_entry(other),
    {
        assert(other != root ==> other.bits != root.bits);
        match focus {
            Some(f) => {
                assert(f == AccessKey { bits: f.bits });
            },
            None => {},
        }
    }

    /// A name that was just set reads back, so setting the same name again
    /// reports no change.
    pub proof fn law_name_reads_back(before: &Self, after: &Self, node: AccessKey, name: Seq<char>)
        requires
            before.contains(node),
            after.nodes() == before.nodes().insert(node.bits, NodeView { name, ..before.nodes()[node.bits] }),
        ensures
            after.contains(node),
            after.nodes()[node.bits].name == name,
    {
    }

    /// A value that was just set reads back, so setting the same value again
    /// reports no change.
    pub proof fn law_value_reads_back(before: &Self, after: &Self, node: AccessKey, value: Seq<char>)
        requires
            before.contains(node),
            after.nodes() == before.nodes().insert(node.bits, NodeView { value, ..before.nodes()[node.bits] }),
        ensures
            after.contains(node),
            after.nodes()[node.bits].value == value,
    {
    }

    /// A checked state that was just set reads back, so setting the same
    /// state again reports no change.
    pub proof fn law_checked_reads_back(before: &Self, after: &Self, node: AccessKey, checked: bool)
        requires
            before.contains(node),
            after.nodes() == before.nodes().insert(node.bits, NodeView { checked, ..before.nodes()[node.bits] }),
        ensures
            after.contains(node),
            after.nodes()[node.bits].checked == checked,
    {
    }

    /// After `set_children`, `parent` lists exactly the given children in the
    /// given order, each of them names `parent` as its parent, and every former
    /// child that the list omits is gone.
    pub proof fn law_set_children_reads_back(before: &Self, after: &Self, parent: AccessKey, kids: Seq<AccessKey>)
        requires
            before.wf(),
            before.contains(parent),
            forall|i: int|
                0 <= i < kids.len() ==> {
                    &&& before.contains(#[trigger] kids[i])
                    &&& !before.shape().in_subtree(kids[i], parent)
                },
            after.nodes() == regrouped_nodes(before.nodes(), parent, kids, before.replaced_bits(parent, kids)),
        ensures
            after.contains(parent),
            after.nodes()[parent.bits].children == kids,
            forall|i: int|
                0 <= i < kids.len() ==> after.contains(#[trigger] kids[i]) && after.nodes()[kids[i].bits].parent
                    == Some(parent),
            forall|x: AccessKey|
                #[trigger] before.nodes()[parent.bits].children.contains(x) && !kids.contains(x) ==> !after.contains(x),
    {
        let s = before.shape();
        let listed = before.nodes()[parent.bits].children;
        let gone = before.replaced_bits(parent, kids);
        assert(s.has(parent));
        if gone.contains(parent.bits) {
            let j = choose|j: int|
                0 <= j < listed.len() && !kids.contains(listed[j]) && #[trigger] s.in_subtree(
                    listed[j],
                    AccessKey { bits: parent.bits },
                );
            let x = listed[j];
            assert(s.kids(parent)[j] == x);
            assert(s.par(x) == Some(parent));
            assert(parent == AccessKey { bits: parent.bits });
            lemma_ancestor_depth(s, x, parent);
        }
        assert forall|i: int| 0 <= i < kids.len() implies after.contains(#[trigger] kids[i]) && after.nodes()[kids[i].bits].parent
            == Some(parent) by {
            let k = kids[i];
            assert(k == AccessKey { bits: k.bits });
            assert(kids.contains(k));
            assert(s.in_subtree(kids[i], AccessKey { bits: k.bits }));
            assert(before.covered_bits(kids).contains(k.bits));
        }
        assert forall|x: AccessKey|
            #[trigger] listed.contains(x) && !kids.contains(x) implies !after.contains(x) by {
            let j = choose|j: int| 0 <= j < listed.len() && listed[j] == x;
            assert(s.kids(parent)[j] == x);
            assert(s.in_subtree(listed[j], AccessKey { bits: x.bits }));
            assert forall|i: int|
                0 <= i < kids.len() implies !#[trigger] s.in_subtree(kids[i], AccessKey { bits: x.bits }) by {
                assert(x == AccessKey { bits: x.bits });
                if s.in_subtree(kids[i], x) {
                    assert(kids[i] != x);
                    lemma_ancestor_step(s, kids[i], x);
                    assert(s.in_subtree(kids[i], parent));
                }
            }
            assert(gone.contains(x.bits));
        }
    }

    /// A detached node becomes a root without a window and keeps its children.
    pub proof fn law_detached_node_is_a_root(before: &Self, after: &Self, node: AccessKey)
        requires
            before.wf(),
            before.contains(node),
            after.nodes() == moved_nodes(before.nodes(), node, None),
            after.roots() == before.roots().insert(node.bits, None),
        ensures
            after.contains(node),
            after.nodes()[node.bits].parent is None,
            after.roots().contains_key(node.bits),
            after.roots()[node.bits] is None,
            after.nodes()[node.bits].children == before.nodes()[node.bits].children,
            after.nodes()[node.bits].id == before.nodes()[node.bits].id,
    {
        before.lemma_not_own_child(node);
        lemma_filter_absent(before.nodes()[node.bits].children, node);
    }

    /// An appended child ends up last among the children of its new parent,
    /// names that parent, and keeps its identity and its own children.
    pub proof fn law_appended_child_is_last(before: &Self, after: &Self, parent: AccessKey, child: AccessKey)
        requires
            before.wf(),
            before.contains(parent),
            before.contains(child),
            !before.shape().in_subtree(child, parent),
            after.nodes() == moved_nodes(before.nodes(), child, Some(parent)),
        ensures
            after.nodes()[parent.bits].children.len() > 0,
            after.nodes()[parent.bits].children.last() == child,
            after.nodes()[child.bits].parent == Some(parent),
            after.nodes()[child.bits].children == before.nodes()[child.bits].children,
            after.nodes()[child.bits].id == before.nodes()[child.bits].id,
    {
        assert(before.shape().in_subtree(child, child));
        assert(child.bits != parent.bits);
        before.lemma_not_own_child(child);
        lemma_filter_absent(before.nodes()[child.bits].children, child);
    }

    /// A node inserted under a parent is that parent's last child and names it.
    pub proof fn law_inserted_node_is_last_child(
        before: &Self,
        after: &Self,
        key: AccessKey,
        node: NodeView<U>,
        parent: AccessKey,
    )
        requires
            before.contains(parent),
            !before.contains(key),
            after.nodes() == with_child_appended(before.nodes(), parent, key).insert(
                key.bits,
                NodeView { parent: Some(parent), ..node },
            ),
        ensures
            after.nodes()[parent.bits].children.last() == key,
            after.nodes()[key.bits].parent == Some(parent),
    {
        assert(key.bits != parent.bits);
    }

    /// No node lists itself among its children.
    proof fn lemma_not_own_child(&self, node: AccessKey)
        requires
            self.wf(),
            self.contains(node),
        ensures
            !self.nodes()[node.bits].children.contains(node),
    {
        let s = self.shape();
        if self.nodes()[node.bits].children.contains(node) {
            self.lemma_listed_child(node.bits, node);
            assert(node == AccessKey { bits: node.bits });
            assert(s.has(node));
        }
    }

    /// Every focused node lies in the tree of the root whose focus it is.
    pub proof fn law_focus_is_within_its_root(&self, root: AccessKey)
        requires
            self.wf(),
            self.focus().contains_key(root.bits),
        ensures
            self.roots().contains_key(root.bits),
            self.contains(AccessKey { bits: self.focus()[root.bits] }),
            self.shape().root_of(AccessKey { bits: self.focus()[root.bits] }) == root,
    {
        let r = self.shape().root_of(AccessKey { bits: self.focus()[root.bits] });
        assert(r.bits == root.bits);
        assert(r == AccessKey { bits: r.bits });
    }

    /// A node without a parent is a root of the tree, and its own root.
    pub proof fn law_parentless_node_is_its_own_root(&self, node: AccessKey)
        requires
            self.wf(),
            self.contains(node),
            self.nodes()[node.bits].parent is None,
        ensures
            self.roots().contains_key(node.bits),
            self.shape().root_of(node) == node,
    {
        assert(self.nodes@[node.bits]@ == self.nodes()[node.bits]);
        assert(self.shape().has(node));
    }

    /// The parent of a node belongs to the tree, and both share one root.
    pub proof fn law_parent_shares_the_root(&self, node: AccessKey)
        requires
            self.wf(),
            self.contains(node),
            self.nodes()[node.bits].parent is Some,
        ensures
            self.contains(self.nodes()[node.bits].parent->0),
            self.shape().root_of(node) == self.shape().root_of(self.nodes()[node.bits].parent->0),
            self.shape().in_subtree(self.nodes()[node.bits].parent->0, node),
    {
        let s = self.shape();
        assert(s.has(node));
        let p = s.par(node)->0;
        assert(s.has(p));
        lemma_ancestor_step(s, p, node);
    }

    /// Nodes under different roots lie outside each other's subtrees.
    pub proof fn law_other_trees_are_apart(&self, top: AccessKey, node: AccessKey)
        requires
            self.wf(),
            self.contains(top),
            self.contains(node),
            self.shape().root_of(top) != self.shape().root_of(node),
        ensures
            !self.shape().in_subtree(top, node),
    {
        if self.shape().in_subtree(top, node) {
            lemma_subtree_root(self.shape(), top, node);
        }
    }

    /// A root, and a key that is not in the tree, has no sibling and is no
    /// node's sibling.
    pub proof fn law_roots_have_no_siblings(&self, a: AccessKey, b: AccessKey, next: bool)
        requires
            self.wf(),
            !self.contains(a) || self.nodes()[a.bits].parent is None,
        ensures
            self.sibling_of(a, next) is None,
            self.sibling_of(b, next) != Some(a),
    {
        let s = self.shape();
        if self.sibling_of(b, next) == Some(a) {
            let p = self.nodes()[b.bits].parent->0;
            let kids = self.nodes()[p.bits].children;
            let j = if next {
                first_index(kids, b) + 1
            } else {
                first_index(kids, b) - 1
            };
            assert(kids[j] == a);
            assert(s.has(p));
            assert(s.kids(p)[j] == a);
        }
    }

    /// In a tree where no node lists a child twice, `b` follows `a` exactly
    /// when `a` precedes `b`, whatever `a` and `b` are.
    pub proof fn law_siblings_agree_everywhere(&self, a: AccessKey, b: AccessKey)
        requires
            self.wf(),
            forall|p: AccessKey| #[trigger] self.contains(p) ==> self.nodes()[p.bits].children.no_duplicates(),
        ensures
            self.sibling_of(a, true) == Some(b) <==> self.sibling_of(b, false) == Some(a),
    {
        if self.contains(a) && self.nodes()[a.bits].parent is Some {
            let p = self.nodes()[a.bits].parent->0;
            self.law_parent_shares_the_root(a);
            self.law_siblings_agree(a, b, p);
            if self.sibling_of(b, false) == Some(a) {
                assert(self.contains(b));
            }
        } else {
            self.law_roots_have_no_siblings(a, b, false);
        }
    }

    /// A window that was just associated with a root is the root's window.
    pub proof fn law_root_window_reads_back(before: &Self, after: &Self, root: AccessKey, window: T)
        requires
            after.roots() == before.roots().insert(root.bits, Some(window)),
        ensures
            after.roots().contains_key(root.bits),
            after.roots()[root.bits] == Some(window),
    {
    }

    /// The structure of a tree is a forest whose nodes are the tree's nodes,
    /// each with the parent and the children that the node holds.
    pub proof fn law_shape_is_the_tree(&self)
        requires
            self.wf(),
        ensures
            self.shape().wf(),
            forall|k: AccessKey| #[trigger] self.shape().has(k) <==> self.contains(k),
            forall|k: AccessKey| #[trigger]
                self.contains(k) ==> self.shape().par(k) == self.nodes()[k.bits].parent && self.shape().kids(k)
                    == self.nodes()[k.bits].children,
    {
    }

    /// A root keeps its window through every step that leaves it a root and
    /// neither associates it anew nor makes it a root afresh: steps that
    /// change the entry of another key, or that drop other roots.
    pub proof fn law_root_window_persists(before: &Self, after: &Self, root: AccessKey)
        requires
            before.roots().contains_key(root.bits),
            after.roots().contains_key(root.bits),
            window_untouched(before.roots(), after.roots(), root.bits),
        ensures
            after.roots()[root.bits] == before.roots()[root.bits],
    {
        let b = before.roots();
        let a = after.roots();
        if exists|k: u64, v: Option<T>| k != root.bits && a == #[trigger] b.insert(k, v) {
            let (k, v) = choose|k: u64, v: Option<T>| k != root.bits && a == #[trigger] b.insert(k, v);
            assert(a[root.bits] == b[root.bits]);
        } else if exists|g: Set<u64>| a == #[trigger] b.remove_keys(g) {
            let g = choose|g: Set<u64>| a == #[trigger] b.remove_keys(g);
            assert(a[root.bits] == b[root.bits]);
        } else {
            let (g1, g2) = choose|g1: Set<u64>, g2: Set<u64>| a == #[trigger] b.remove_keys(g1).remove_keys(g2);
            assert(a[root.bits] == b[root.bits]);
        }
    }

    /// The nodes of `top`'s subtree on the way down to `k`, `top` and `k`
    /// included, all have rectangles that `hit` accepts, and no child of `k`
    /// has one.
    pub open spec fn hit_path(&self, top: AccessKey, k: AccessKey, hit: spec_fn(AccessRect) -> bool) -> bool {
        &&& self.contains(k)
        &&& self.shape().in_subtree(top, k)
        &&& forall|a: AccessKey|
            self.shape().in_subtree(top, a) && #[trigger] self.shape().in_subtree(a, k) ==> hit(
                self.nodes()[a.bits].bounding_rect,
            )
        &&& forall|i: int|
            0 <= i < self.nodes()[k.bits].children.len() ==> !hit(
                self.nodes()[#[trigger] self.nodes()[k.bits].children[i].bits].bounding_rect,
            )
    }

    proof fn lemma_hit_in(&self, node: AccessKey, hit: spec_fn(AccessRect) -> bool)
        requires
            self.wf(),
        ensures
            self.hit_in(node, hit) is Some <==> (self.contains(node) && hit(self.nodes()[node.bits].bounding_rect)),
            self.hit_in(node, hit) is Some ==> self.hit_path(node, self.hit_in(node, hit)->0, hit),
        decreases self.nodes().len() - self.shape().dep(node), 1int, 0int,
    {
        let s = self.shape();
        if self.contains(node) {
            assert(s.has(node));
            lemma_depth_bound(s, node);
            assert(s.parent.dom() =~= self.nodes().dom());
            if hit(self.nodes()[node.bits].bounding_rect) {
                let len = self.nodes()[node.bits].children.len() as int;
                self.lemma_hit_among(node, hit, len);
                match self.hit_among(node, hit, len) {
                    Some(found) => {
                        let i = choose|i: int| 0 <= i < len && self.hit_path(self.nodes()[node.bits].children[i], found, hit);
                        let c = self.nodes()[node.bits].children[i];
                        assert(s.kids(node)[i] == c);
                        lemma_child_subtree_inside(s, node, i, found);
                        assert forall|a: AccessKey|
                            s.in_subtree(node, a) && #[trigger] s.in_subtree(a, found) implies hit(
                            self.nodes()[a.bits].bounding_rect,
                        ) by {
                            if a != node {
                                lemma_path_through_child(s, node, i, a, found);
                            }
                        }
                    },
                    None => {
                        assert(s.in_subtree(node, node));
                        assert forall|a: AccessKey|
                            s.in_subtree(node, a) && #[trigger] s.in_subtree(a, node) implies a == node by {
                            if a != node {
                                lemma_ancestor_depth(s, node, a);
                                lemma_ancestor_depth(s, a, node);
                            }
                        }
                    },
                }
            }
        }
    }

    proof fn lemma_hit_among(&self, node: AccessKey, hit: spec_fn(AccessRect) -> bool, end: int)
        requires
            self.wf(),
            self.contains(node),
            0 <= end <= self.nodes()[node.bits].children.len(),
        ensures
            self.hit_among(node, hit, end) is None ==> forall|i: int|
                0 <= i < end ==> !hit(
                    self.nodes()[#[trigger] self.nodes()[node.bits].children[i].bits].bounding_rect,
                ),
            self.hit_among(node, hit, end) is Some ==> exists|i: int|
                0 <= i < end && self.hit_path(
                    #[trigger] self.nodes()[node.bits].children[i],
                    self.hit_among(node, hit, end)->0,
                    hit,
                ),
        decreases self.nodes().len() - self.shape().dep(node), 0int, end,
    {
        if end > 0 {
            let c = self.nodes()[node.bits].children[end - 1];
            self.lemma_child_depth(node, end - 1);
            self.lemma_hit_in(c, hit);
            self.lemma_hit_among(node, hit, end - 1);
            if self.hit_in(c, hit) is Some {
                assert(self.hit_path(self.nodes()[node.bits].children[end - 1], self.hit_among(node, hit, end)->0, hit));
            }
        }
    }

    /// A point lookup finds nothing under a node whose rectangle misses the
    /// point, and something otherwise. What it finds lies in the node's
    /// subtree, every node on the way down to it contains the point, and none
    /// of its children does.
    pub proof fn law_point_lookup_stays_inside(&self, root: AccessKey, hit: spec_fn(AccessRect) -> bool)
        requires
            self.wf(),
        ensures
            self.hit_in(root, hit) is Some <==> (self.contains(root) && hit(self.nodes()[root.bits].bounding_rect)),
            match self.hit_in(root, hit) {
                Some(k) => {
                    &&& self.contains(k)
                    &&& self.shape().in_subtree(root, k)
                    &&& forall|a: AccessKey|
                        self.shape().in_subtree(root, a) && #[trigger] self.shape().in_subtree(a, k) ==> hit(
                            self.nodes()[a.bits].bounding_rect,
                        )
                    &&& forall|i: int|
                        0 <= i < self.nodes()[k.bits].children.len() ==> !hit(
                            self.nodes()[#[trigger] self.nodes()[k.bits].children[i].bits].bounding_rect,
                        )
                },
                None => true,
            },
    {
        self.lemma_hit_in(root, hit);
    }

    proof fn lemma_name_among(&self, node: AccessKey, i: int)
        requires
            self.wf(),
            self.contains(node),
            0 <= i <= self.nodes()[node.bits].children.len(),
        ensures
            forall|m: int|
                i <= m < self.nodes()[node.bits].children.len() && self.name_in(
                    #[trigger] self.nodes()[node.bits].children[m],
                ).len() > 0 && (forall|j: int|
                    i <= j < m ==> self.name_in(self.nodes()[node.bits].children[j]).len() == 0) ==> self.name_among(
                    node,
                    i,
                ) == self.name_in(self.nodes()[node.bits].children[m]),
            (forall|j: int|
                i <= j < self.nodes()[node.bits].children.len() ==> self.name_in(
                    #[trigger] self.nodes()[node.bits].children[j],
                ).len() == 0) ==> self.name_among(node, i).len() == 0,
        decreases self.nodes()[node.bits].children.len() - i,
    {
        let kids = self.nodes()[node.bits].children;
        if i < kids.len() {
            self.lemma_child_depth(node, i);
            self.lemma_name_among(node, i + 1);
            assert forall|m: int|
                i <= m < kids.len() && self.name_in(#[trigger] kids[m]).len() > 0 && (forall|j: int|
                    i <= j < m ==> self.name_in(kids[j]).len() == 0) implies self.name_among(node, i) == self.name_in(
                kids[m],
            ) by {
                if m > i {
                    assert(self.name_in(kids[i]).len() == 0);
                    assert forall|j: int| i + 1 <= j < m implies self.name_in(kids[j]).len() == 0 by {}
                }
            }
            if forall|j: int| i <= j < kids.len() ==> self.name_in(#[trigger] kids[j]).len() == 0 {
                assert(self.name_in(kids[i]).len() == 0);
            }
        }
    }

    /// A node's accessible name is its own name when that is not empty;
    /// otherwise it is the accessible name of the first child that has a
    /// non-empty one, whichever position that child holds, and empty when no
    /// child has one.
    pub proof fn law_accessible_name_is_first_named(&self, node: AccessKey)
        requires
            self.wf(),
            self.contains(node),
        ensures
            self.nodes()[node.bits].name.len() > 0 ==> self.name_in(node) == self.nodes()[node.bits].name,
            self.nodes()[node.bits].name.len() == 0 ==> forall|i: int|
                0 <= i < self.nodes()[node.bits].children.len() && self.name_in(
                    #[trigger] self.nodes()[node.bits].children[i],
                ).len() > 0 && (forall|j: int|
                    0 <= j < i ==> self.name_in(self.nodes()[node.bits].children[j]).len() == 0) ==> self.name_in(
                    node,
                ) == self.name_in(self.nodes()[node.bits].children[i]),
            self.nodes()[node.bits].name.len() == 0 && (forall|j: int|
                0 <= j < self.nodes()[node.bits].children.len() ==> self.name_in(
                    #[trigger] self.nodes()[node.bits].children[j],
                ).len() == 0) ==> self.name_in(node).len() == 0,
    {
        let s = self.shape();
        assert(s.has(node));
        lemma_depth_bound(s, node);
        assert(s.parent.dom() =~= self.nodes().dom());
        self.lemma_name_among(node, 0);
    }

    /// Exactly one node of a root's tree reads as focused when the root has a
    /// focus, and it is the node that the root's focus names; none does when
    /// the root has none.
    pub proof fn law_one_focused_node_per_root(&self, a: AccessKey, b: AccessKey)
        requires
            self.wf(),
        ensures
            self.spec_is_focused(a) ==> self.contains(a) && self.focus_entry(self.shape().root_of(a)) == Some(a),
            self.contains(a) && self.focus_entry(self.shape().root_of(a)) == Some(a) ==> self.spec_is_focused(a),
            self.spec_is_focused(a) && self.spec_is_focused(b) && self.shape().root_of(a) == self.shape().root_of(b)
                ==> a == b,
    {
        assert(a == AccessKey { bits: a.bits });
        assert(b == AccessKey { bits: b.bits });
    }

    /// The siblings of a node are the children just after and just before
    /// the first place where its parent lists it, whatever that place is.
    pub proof fn law_sibling_positions(&self, a: AccessKey, p: AccessKey, i: int)
        requires
            self.wf(),
            self.contains(a),
            self.nodes()[a.bits].parent == Some(p),
            0 <= i < self.nodes()[p.bits].children.len(),
            self.nodes()[p.bits].children[i] == a,
            forall|j: int| 0 <= j < i ==> self.nodes()[p.bits].children[j] != a,
        ensures
            self.sibling_of(a, true) == (if i + 1 < self.nodes()[p.bits].children.len() {
                Some(self.nodes()[p.bits].children[i + 1])
            } else {
                None
            }),
            self.sibling_of(a, false) == (if i >= 1 {
                Some(self.nodes()[p.bits].children[i - 1])
            } else {
                None
            }),
    {
        self.law_parent_shares_the_root(a);
        let kids = self.nodes()[p.bits].children;
        assert(kids.contains(a));
        lemma_first_index(kids, a, i);
    }
}

/// The focus entries that remain once the nodes in `gone` are removed:
/// those whose root and whose focused node both remain.
pub open spec fn focus_without(f: Map<u64, u64>, gone: Set<u64>) -> Map<u64, u64> {
    f.restrict(f.dom().filter(|r: u64| !gone.contains(r) && !gone.contains(f[r])))
}

/// The node map after `c` is unlinked from its parent's list of children.
pub open spec fn unlinked<U>(nodes: Map<u64, NodeView<U>>, c: AccessKey) -> Map<u64, NodeView<U>> {
    match nodes[c.bits].parent {
        Some(p) => nodes.insert(
            p.bits,
            NodeView { children: nodes[p.bits].children.filter(other_than(c)), ..nodes[p.bits] },
        ),
        None => nodes,
    }
}

/// The node map after `c` is unlinked from its parent's children and, when
/// `new_parent` is given, appended to the children of `new_parent`.
pub open spec fn moved_nodes<U>(nodes: Map<u64, NodeView<U>>, c: AccessKey, new_parent: Option<AccessKey>) -> Map<
    u64,
    NodeView<U>,
> {
    Map::new(
        |b: u64| nodes.contains_key(b),
        |b: u64|
            {
                let v = nodes[b];
                let kept = v.children.filter(other_than(c));
                NodeView {
                    parent: if b == c.bits {
                        new_parent
                    } else {
                        v.parent
                    },
                    children: if new_parent == Some(AccessKey { bits: b }) {
                        kept.push(c)
                    } else {
                        kept
                    },
                    ..v
                }
            },
    )
}

/// The list `list` without any occurrence of `c`, in the same order.
fn filter_keys(list: &KeyList, c: AccessKey) -> (kept: KeyList)
    requires
        key_list_items(*list).len() <= key_list_len_limit(),
    ensures
        key_list_items(kept) == key_list_items(*list).filter(other_than(c)),
{
    let ghost items = key_list_items(*list);
    let len = key_list_len(list);
    let mut kept = key_list_new();
    let mut i: usize = 0;
    while i < len
        invariant
            items == key_list_items(*list),
            len == items.len(),
            len <= key_list_len_limit(),
            i <= len,
            key_list_items(kept) == items.take(i as int).filter(other_than(c)),
        decreases len - i,
    {
        let x = key_list_get(list, i);
        proof {
            assert(items.take(i + 1).drop_last() =~= items.take(i as int));
            assert(items.take(i + 1).last() == x);
            items.take(i as int).lemma_filter_len(other_than(c));
        }
        if x.bits != c.bits {
            key_list_push(&mut kept, x);
            proof {
                assert(other_than(c)(x));
            }
        } else {
            proof {
                assert(x == c);
                assert(!other_than(c)(x));
            }
        }
        proof {
            assert(items.take(i + 1) =~= items.take(i as int).push(x));
            items.take(i as int).lemma_filter_push(x, other_than(c));
            assert(items.take(i + 1).filter(other_than(c)) == (if other_than(c)(x) {
                items.take(i as int).filter(other_than(c)).push(x)
            } else {
                items.take(i as int).filter(other_than(c))
            }));
        }
        i = i + 1;
    }
    proof {
        assert(items.take(len as int) =~= items);
    }
    kept
}

/// Whether two optional keys are the same.
fn same_key(a: Option<AccessKey>, b: Option<AccessKey>) -> (r: bool)
    ensures
        r == (a == b),
{
    match (a, b) {
        (Some(x), Some(y)) => x.bits == y.bits,
        (None, None) => true,
        _ => false,
    }
}

/// Whether a change to a node keeps its place in the tree.
pub open spec fn keeps_links<U>(before: NodeView<U>, after: NodeView<U>) -> bool {
    &&& after.parent == before.parent
    &&& after.children == before.children
}

/// The changes that `update_node` reports when `before` is replaced by `after`.
pub open spec fn update_changes<U>(node: AccessKey, before: NodeView<U>, after: NodeView<U>) -> Seq<ChangeView> {
    let checked = if before.checked != after.checked {
        seq![ChangeView {
            node,
            property: AccessProperty::Checked,
            old_value: ValueView::Bool(before.checked),
            new_value: ValueView::Bool(after.checked),
        }]
    } else {
        Seq::empty()
    };
    let name = if before.name != after.name {
        seq![ChangeView {
            node,
            property: AccessProperty::Name,
            old_value: ValueView::Text(before.name),
            new_value: ValueView::Text(after.name),
        }]
    } else {
        Seq::empty()
    };
    let value = if before.value != after.value {
        seq![ChangeView {
            node,
            property: AccessProperty::Value,
            old_value: ValueView::Text(before.value),
            new_value: ValueView::Text(after.value),
        }]
    } else {
        Seq::empty()
    };
    checked + name + value
}

/// Compares two texts.
fn text_eq(a: &str, b: &str) -> (r: bool)
    ensures
        r == (a@ == b@),
{
    a.to_owned() == b.to_owned()
}

/// Whether the point-in-rectangle test `contains` accepts a rectangle.
pub open spec fn rect_hit<F: Fn(AccessRect) -> bool>(contains: F) -> spec_fn(AccessRect) -> bool {
    |rect: AccessRect| contains.ensures((rect,), true)
}

/// Whether `i` is the first position of `x` in `s`.
pub open spec fn is_first_index(s: Seq<AccessKey>, x: AccessKey, i: int) -> bool {
    &&& 0 <= i < s.len()
    &&& s[i] == x
    &&& forall|j: int| 0 <= j < i ==> s[j] != x
}

/// The first position of `x` in `s`, when `s` holds `x`.
pub open spec fn first_index(s: Seq<AccessKey>, x: AccessKey) -> int {
    choose|i: int| is_first_index(s, x, i)
}

/// A sequence that holds `x` has a first position of it, and it is unique.
pub proof fn lemma_first_index(s: Seq<AccessKey>, x: AccessKey, i: int)
    requires
        is_first_index(s, x, i),
    ensures
        first_index(s, x) == i,
{
    let k = first_index(s, x);
    assert(is_first_index(s, x, k));
    if k < i {
        assert(s[k] != x);
    }
    if i < k {
        assert(s[i] != x);
    }
}

/// Removing two sets of nodes one after the other leaves the focus entries
/// that removing both at once leaves.
proof fn lemma_focus_without_twice(f: Map<u64, u64>, g1: Set<u64>, g2: Set<u64>)
    ensures
        focus_without(focus_without(f, g1), g2) == focus_without(f, g1 + g2),
{
    assert(focus_without(focus_without(f, g1), g2) =~= focus_without(f, g1 + g2));
}

/// The key bits of the keys that `list` holds.
pub open spec fn key_bits(list: Seq<AccessKey>) -> Set<u64> {
    Set::new(|b: u64| list.contains(AccessKey { bits: b }))
}

/// The node map after `set_children` gives `parent` the children `kids`:
/// the nodes in `gone` are removed, each listed child hangs under `parent`
/// and has left the child list of its former parent.
pub open spec fn regrouped_nodes<U>(
    nodes: Map<u64, NodeView<U>>,
    parent: AccessKey,
    kids: Seq<AccessKey>,
    gone: Set<u64>,
) -> Map<u64, NodeView<U>> {
    Map::new(
        |b: u64| nodes.contains_key(b) && !gone.contains(b),
        |b: u64|
            {
                let v = nodes[b];
                NodeView {
                    parent: if kids.contains(AccessKey { bits: b }) {
                        Some(parent)
                    } else {
                        v.parent
                    },
                    children: if b == parent.bits {
                        kids
                    } else {
                        v.children.filter(not_in(kids))
                    },
                    ..v
                }
            },
    )
}

/// Whether `list` holds `key`.
fn list_holds(list: &[AccessKey], key: AccessKey) -> (r: bool)
    ensures
        r == list@.contains(key),
{
    let mut i: usize = 0;
    while i < list.len()
        invariant
            i <= list@.len(),
            forall|j: int| 0 <= j < i ==> list@[j] != key,
        decreases list.len() - i,
    {
        if list[i].bits == key.bits {
            proof {
                assert(list@[i as int] == key);
            }
            return true;
        }
        i = i + 1;
    }
    false
}

/// The focus entries of `f` whose node lies, in `s`, within the tree of the
/// root that the entry belongs to.
pub open spec fn kept_in_roots(f: Map<u64, u64>, s: Shape) -> Map<u64, u64> {
    f.restrict(
        f.dom().filter(
            |r: u64| s.has(AccessKey { bits: f[r] }) && s.root_of(AccessKey { bits: f[r] }).bits == r,
        ),
    )
}

/// Every entry of the focus table `f` names a node of `s` that lies in the
/// tree of the entry's root, or that has moved into the tree of `parent`,
/// whose root is then another one.
pub open spec fn focus_escapes_to(f: Map<u64, u64>, s: Shape, parent: AccessKey) -> bool {
    forall|r: u64| #[trigger]
        f.contains_key(r) ==> {
            &&& s.has(AccessKey { bits: f[r] })
            &&& (s.root_of(AccessKey { bits: f[r] }).bits == r || (s.root_of(AccessKey { bits: f[r] })
                == s.root_of(parent) && s.root_of(parent).bits != r))
        }
}

/// Moving `c` under `parent` keeps every focused node either within its root
/// or within the tree of `parent`; the entries kept after the move are those
/// whose node lies within its root.
proof fn lemma_adopt_focus(s: Shape, c: AccessKey, parent: AccessKey, f: Map<u64, u64>)
    requires
        s.wf(),
        s.has(c),
        s.has(parent),
        !s.in_subtree(c, parent),
        focus_escapes_to(f, s, parent),
    ensures
        focus_escapes_to(f.remove(c.bits), s.moved(c, Some(parent)), parent),
        kept_in_roots(kept_in_roots(f, s).remove(c.bits), s.moved(c, Some(parent))) == kept_in_roots(
            f.remove(c.bits),
            s.moved(c, Some(parent)),
        ),
{
    let m = s.moved(c, Some(parent));
    lemma_moved(s, c, Some(parent));
    lemma_moved_root_of(s, c, Some(parent), parent);
    assert forall|r: u64| #[trigger] f.contains_key(r) implies {
        &&& m.has(AccessKey { bits: f[r] })
        &&& (m.root_of(AccessKey { bits: f[r] }).bits == r <==> (s.root_of(AccessKey { bits: f[r] }).bits == r
            && m.root_of(AccessKey { bits: f[r] }).bits == r))
        &&& (m.root_of(AccessKey { bits: f[r] }).bits == r || (m.root_of(AccessKey { bits: f[r] }) == m.root_of(
            parent,
        ) && m.root_of(parent).bits != r))
    } by {
        let x = AccessKey { bits: f[r] };
        lemma_moved_root_of(s, c, Some(parent), x);
        if s.in_subtree(c, x) {
            lemma_subtree_root(s, c, x);
        }
    }
    assert(kept_in_roots(kept_in_roots(f, s).remove(c.bits), m) =~= kept_in_roots(f.remove(c.bits), m));
}

/// Once the listed nodes `kids` hang under `parent` (and nothing else has
/// moved), a child `x` of `parent` that the list omits holds exactly the
/// nodes of its former subtree that lie in no listed node's former subtree.
proof fn lemma_regrouped_subtree(
    s: Shape,
    m: Shape,
    parent: AccessKey,
    kids: Seq<AccessKey>,
    x: AccessKey,
    b: AccessKey,
)
    requires
        s.wf(),
        m.wf(),
        s.has(parent),
        forall|y: AccessKey| #[trigger] m.has(y) <==> s.has(y),
        forall|y: AccessKey| #[trigger]
            s.has(y) ==> m.par(y) == (if kids.contains(y) {
                Some(parent)
            } else {
                s.par(y)
            }),
        forall|i: int| 0 <= i < kids.len() ==> s.has(#[trigger] kids[i]) && !s.in_subtree(kids[i], parent),
        forall|a: AccessKey| #[trigger] m.is_ancestor(a, parent) ==> s.is_ancestor(a, parent),
        s.has(x),
        s.par(x) == Some(parent),
        !kids.contains(x),
        s.has(b),
    ensures
        m.in_subtree(x, b) <==> (s.in_subtree(x, b) && !(exists|i: int|
            0 <= i < kids.len() && #[trigger] s.in_subtree(kids[i], b))),
    decreases s.dep(b),
{
    assert(s.dep(x) == s.dep(parent) + 1);
    if b == x {
        assert forall|i: int| 0 <= i < kids.len() implies !#[trigger] s.in_subtree(kids[i], b) by {
            if s.in_subtree(kids[i], b) {
                assert(kids[i] != x);
                lemma_ancestor_step(s, kids[i], x);
            }
        }
        assert(m.has(x));
    } else if kids.contains(b) {
        let i = choose|i: int| 0 <= i < kids.len() && kids[i] == b;
        assert(s.in_subtree(kids[i], b));
        assert(m.has(b));
        lemma_ancestor_step(m, x, b);
        if m.is_ancestor(x, parent) {
            assert(s.is_ancestor(x, parent));
            lemma_ancestor_depth(s, x, parent);
        }
    } else {
        assert(m.has(b));
        lemma_ancestor_step(m, x, b);
        lemma_ancestor_step(s, x, b);
        match s.par(b) {
            Some(q) => {
                assert(s.has(q));
                lemma_regrouped_subtree(s, m, parent, kids, x, q);
                assert forall|i: int| 0 <= i < kids.len() implies #[trigger] s.in_subtree(kids[i], b)
                    == s.in_subtree(kids[i], q) by {
                    assert(kids[i] != b);
                    lemma_ancestor_step(s, kids[i], b);
                }
                if exists|i: int| 0 <= i < kids.len() && #[trigger] s.in_subtree(kids[i], q) {
                    let i = choose|i: int| 0 <= i < kids.len() && #[trigger] s.in_subtree(kids[i], q);
                    assert(s.in_subtree(kids[i], b));
                }
                if exists|i: int| 0 <= i < kids.len() && #[trigger] s.in_subtree(kids[i], b) {
                    let i = choose|i: int| 0 <= i < kids.len() && #[trigger] s.in_subtree(kids[i], b);
                    assert(s.in_subtree(kids[i], q));
                }
            },
            None => {},
        }
    }
}

/// The focus entries left when `node` is detached from the structure `s`:
/// the focus of `node`'s old root goes when the focused node lies in the
/// subtree of `node`, which is also the case when `node` is itself that root.
pub open spec fn detached_focus(f: Map<u64, u64>, s: Shape, node: AccessKey) -> Map<u64, u64> {
    let root = s.root_of(node);
    if f.contains_key(root.bits) && s.in_subtree(node, AccessKey { bits: f[root.bits] }) {
        f.remove(root.bits)
    } else {
        f
    }
}

/// Whether the roots map `after` leaves the entry of `root` as `before` has
/// it by construction: it sets the entry of another key, or drops keys, once
/// or twice.
pub open spec fn window_untouched<T>(before: Map<u64, Option<T>>, after: Map<u64, Option<T>>, root: u64) -> bool {
    ||| exists|k: u64, v: Option<T>| k != root && after == #[trigger] before.insert(k, v)
    ||| exists|g: Set<u64>| after == #[trigger] before.remove_keys(g)
    ||| exists|g1: Set<u64>, g2: Set<u64>| after == #[trigger] before.remove_keys(g1).remove_keys(g2)
}

/// The order in which property changes are reported: checked state, name, value.
pub open spec fn property_rank(property: AccessProperty) -> int {
    match property {
        AccessProperty::Checked => 0,
        AccessProperty::Name => 1,
        AccessProperty::Value => 2,
    }
}

/// The changes reported for replacing `before` by `after` name the node,
/// hold one change for each of the checked state, name and value that differs
/// and none for one that does not, carry the old and the new value, and come
/// in the order checked state, name, value.
pub proof fn law_update_reports_exactly_the_changes<U>(node: AccessKey, before: NodeView<U>, after: NodeView<U>)
    ensures
        forall|i: int|
            0 <= i < update_changes(node, before, after).len() ==> (#[trigger] update_changes(node, before, after)[i]).node
                == node,
        (exists|i: int|
            0 <= i < update_changes(node, before, after).len() && (#[trigger] update_changes(node, before, after)[i]).property
                == AccessProperty::Checked) <==> before.checked != after.checked,
        (exists|i: int|
            0 <= i < update_changes(node, before, after).len() && (#[trigger] update_changes(node, before, after)[i]).property
                == AccessProperty::Name) <==> before.name != after.name,
        (exists|i: int|
            0 <= i < update_changes(node, before, after).len() && (#[trigger] update_changes(node, before, after)[i]).property
                == AccessProperty::Value) <==> before.value != after.value,
        forall|i: int|
            0 <= i < update_changes(node, before, after).len() ==> match (#[trigger] update_changes(
                node,
                before,
                after,
            )[i]).property {
                AccessProperty::Checked => update_changes(node, before, after)[i].old_value == ValueView::Bool(
                    before.checked,
                ) && update_changes(node, before, after)[i].new_value == ValueView::Bool(after.checked),
                AccessProperty::Name => update_changes(node, before, after)[i].old_value == ValueView::Text(before.name)
                    && update_changes(node, before, after)[i].new_value == ValueView::Text(after.name),
                AccessProperty::Value => update_changes(node, before, after)[i].old_value == ValueView::Text(
                    before.value,
                ) && update_changes(node, before, after)[i].new_value == ValueView::Text(after.value),
            },
        forall|i: int, j: int|
            0 <= i < j < update_changes(node, before, after).len() ==> property_rank(
                (#[trigger] update_changes(node, before, after)[i]).property,
            ) < property_rank((#[trigger] update_changes(node, before, after)[j]).property),
{
    let ch = update_changes(node, before, after);
    let checked = if before.checked != after.checked {
        seq![ChangeView {
            node,
            property: AccessProperty::Checked,
            old_value: ValueView::Bool(before.checked),
            new_value: ValueView::Bool(after.checked),
        }]
    } else {
        Seq::empty()
    };
    let name = if before.name != after.name {
        seq![ChangeView {
            node,
            property: AccessProperty::Name,
            old_value: ValueView::Text(before.name),
            new_value: ValueView::Text(after.name),
        }]
    } else {
        Seq::empty()
    };
    let value = if before.value != after.value {
        seq![ChangeView {
            node,
            property: AccessProperty::Value,
            old_value: ValueView::Text(before.value),
            new_value: ValueView::Text(after.value),
        }]
    } else {
        Seq::empty()
    };
    assert(ch =~= checked + name + value);
    if before.checked != after.checked {
        assert(ch[0].property == AccessProperty::Checked);
    }
    if before.name != after.name {
        assert(ch[checked.len() as int].property == AccessProperty::Name);
    }
    if before.value != after.value {
        assert(ch[(checked.len() + name.len()) as int].property == AccessProperty::Value);
    }
}

} // verus!
