//! The parent/child structure of an accessibility tree as a mathematical
//! object, and the facts about it that the tree's operations rely on.
use vstd::prelude::*;

use crate::access_key::AccessKey;

verus! {

/// The structure of a tree: each node's parent link, ordered child list and
/// depth, keyed by the node's key bits.
pub struct Shape {
    pub parent: Map<u64, Option<AccessKey>>,
    pub children: Map<u64, Seq<AccessKey>>,
    pub depth: Map<u64, nat>,
}

impl Shape {
    pub open spec fn has(self, k: AccessKey) -> bool {
        self.parent.contains_key(k.bits)
    }

    pub open spec fn par(self, k: AccessKey) -> Option<AccessKey> {
        self.parent[k.bits]
    }

    pub open spec fn kids(self, k: AccessKey) -> Seq<AccessKey> {
        self.children[k.bits]
    }

    pub open spec fn dep(self, k: AccessKey) -> nat {
        self.depth[k.bits]
    }

    /// The three maps cover the same finite set of nodes.
    pub open spec fn domains_ok(self) -> bool {
        &&& self.children.dom() == self.parent.dom()
        &&& self.depth.dom() == self.parent.dom()
        &&& self.parent.dom().finite()
    }

    /// Every node that has a parent is listed among its parent's children
    /// and lies one level below it; a node without a parent lies at depth 0.
    pub open spec fn upward_ok(self) -> bool {
        forall|k: AccessKey| #[trigger]
            self.has(k) ==> match self.par(k) {
                Some(p) => {
                    &&& self.has(p)
                    &&& self.kids(p).contains(k)
                    &&& self.dep(k) == self.dep(p) + 1
                },
                None => self.dep(k) == 0,
            }
    }

    /// Every child listed by a node is a node whose parent is that node.
    pub open spec fn downward_ok(self) -> bool {
        forall|p: AccessKey, i: int|
            #![trigger self.kids(p)[i]]
            self.has(p) && 0 <= i < self.kids(p).len() ==> {
                &&& self.has(self.kids(p)[i])
                &&& self.par(self.kids(p)[i]) == Some(p)
            }
    }

    /// The structure is a forest: parent and child links agree, and depths
    /// strictly grow from parent to child, so following parents always ends.
    pub open spec fn wf(self) -> bool {
        &&& self.domains_ok()
        &&& self.upward_ok()
        &&& self.downward_ok()
    }

    /// Whether `a` is a proper ancestor of `k`.
    pub open spec fn is_ancestor(self, a: AccessKey, k: AccessKey) -> bool
        decreases self.dep(k),
    {
        if self.has(k) {
            match self.par(k) {
                Some(p) => if self.has(p) && self.dep(p) < self.dep(k) {
                    p == a || self.is_ancestor(a, p)
                } else {
                    false
                },
                None => false,
            }
        } else {
            false
        }
    }

    /// Whether `k` lies in the subtree rooted at `top` (which includes `top`).
    pub open spec fn in_subtree(self, top: AccessKey, k: AccessKey) -> bool {
        self.has(k) && (k == top || self.is_ancestor(top, k))
    }

    /// The root of the tree that holds `k`: `k` itself if it has no parent.
    pub open spec fn root_of(self, k: AccessKey) -> AccessKey
        decreases self.dep(k),
    {
        if self.has(k) {
            match self.par(k) {
                Some(p) => if self.has(p) && self.dep(p) < self.dep(k) {
                    self.root_of(p)
                } else {
                    k
                },
                None => k,
            }
        } else {
            k
        }
    }

    /// The ancestors of `k` and `k` itself.
    pub open spec fn lineage(self, k: AccessKey) -> Set<AccessKey>
        decreases self.dep(k),
    {
        if self.has(k) {
            match self.par(k) {
                Some(p) => if self.has(p) && self.dep(p) < self.dep(k) {
                    self.lineage(p).insert(k)
                } else {
                    set![k]
                },
                None => set![k],
            }
        } else {
            set![k]
        }
    }
}

/// A proper ancestor is a node and lies strictly above.
pub proof fn lemma_ancestor_depth(s: Shape, a: AccessKey, k: AccessKey)
    requires
        s.wf(),
        s.is_ancestor(a, k),
    ensures
        s.has(a),
        s.dep(a) < s.dep(k),
    decreases s.dep(k),
{
    let p = s.par(k)->0;
    if p != a {
        lemma_ancestor_depth(s, a, p);
    }
}

/// Stepping from a node to its parent.
pub proof fn lemma_ancestor_step(s: Shape, a: AccessKey, k: AccessKey)
    requires
        s.wf(),
        s.has(k),
    ensures
        s.is_ancestor(a, k) <==> (match s.par(k) {
            Some(p) => p == a || s.is_ancestor(a, p),
            None => false,
        }),
{
}

/// A node whose parent lies in a subtree lies in it too.
pub proof fn lemma_child_in_subtree(s: Shape, top: AccessKey, k: AccessKey)
    requires
        s.wf(),
        s.has(k),
        s.par(k) is Some,
        s.in_subtree(top, s.par(k)->0),
    ensures
        s.in_subtree(top, k),
{
}

/// The ancestor relation is transitive.
pub proof fn lemma_ancestor_trans(s: Shape, a: AccessKey, b: AccessKey, c: AccessKey)
    requires
        s.wf(),
        s.is_ancestor(a, b),
        s.is_ancestor(b, c),
    ensures
        s.is_ancestor(a, c),
    decreases s.dep(c),
{
    let p = s.par(c)->0;
    if p != b {
        lemma_ancestor_trans(s, a, b, p);
    }
}

/// Subtrees nest: a subtree of a node inside `top`'s subtree lies inside it.
pub proof fn lemma_subtree_nested(s: Shape, top: AccessKey, mid: AccessKey, k: AccessKey)
    requires
        s.wf(),
        s.in_subtree(top, mid),
        s.in_subtree(mid, k),
    ensures
        s.in_subtree(top, k),
{
    if mid != top && k != mid {
        lemma_ancestor_trans(s, top, mid, k);
    }
}

/// Two ancestors-or-self of a node at the same depth are the same node.
pub proof fn lemma_unique_at_depth(s: Shape, a: AccessKey, b: AccessKey, k: AccessKey)
    requires
        s.wf(),
        s.in_subtree(a, k),
        s.in_subtree(b, k),
        s.dep(a) == s.dep(b),
    ensures
        a == b,
    decreases s.dep(k),
{
    if a == k {
        if b != k {
            lemma_ancestor_depth(s, b, k);
        }
    } else if b == k {
        lemma_ancestor_depth(s, a, k);
    } else {
        let p = s.par(k)->0;
        lemma_unique_at_depth(s, a, b, p);
    }
}

/// Subtrees of two different children of a node do not meet.
pub proof fn lemma_sibling_subtrees_disjoint(s: Shape, c1: AccessKey, c2: AccessKey, k: AccessKey)
    requires
        s.wf(),
        s.has(c1),
        s.has(c2),
        s.par(c1) is Some,
        s.par(c1) == s.par(c2),
        c1 != c2,
    ensures
        !(s.in_subtree(c1, k) && s.in_subtree(c2, k)),
{
    if s.in_subtree(c1, k) && s.in_subtree(c2, k) {
        lemma_unique_at_depth(s, c1, c2, k);
    }
}

/// A node other than `top` in `top`'s subtree lies in the subtree of one of
/// `top`'s children, and the subtree of each child lies in `top`'s subtree.
pub proof fn lemma_subtree_split(s: Shape, top: AccessKey, k: AccessKey)
    requires
        s.wf(),
        s.in_subtree(top, k),
        k != top,
    ensures
        exists|i: int| 0 <= i < s.kids(top).len() && #[trigger] s.in_subtree(s.kids(top)[i], k),
    decreases s.dep(k),
{
    let p = s.par(k)->0;
    if p == top {
        let i = choose|i: int| 0 <= i < s.kids(top).len() && s.kids(top)[i] == k;
        assert(s.in_subtree(s.kids(top)[i], k));
    } else {
        lemma_subtree_split(s, top, p);
        let i = choose|i: int| 0 <= i < s.kids(top).len() && #[trigger] s.in_subtree(s.kids(top)[i], p);
        lemma_child_in_subtree(s, s.kids(top)[i], k);
    }
}

/// The subtree of a listed child lies in its parent's subtree.
pub proof fn lemma_child_subtree_inside(s: Shape, top: AccessKey, i: int, k: AccessKey)
    requires
        s.wf(),
        s.has(top),
        0 <= i < s.kids(top).len(),
        s.in_subtree(s.kids(top)[i], k),
    ensures
        s.in_subtree(top, k),
{
    let c = s.kids(top)[i];
    assert(s.in_subtree(top, c));
    lemma_subtree_nested(s, top, c, k);
}

/// The root of a node's tree is a node without a parent, and the node lies in its subtree.
pub proof fn lemma_root_of(s: Shape, k: AccessKey)
    requires
        s.wf(),
        s.has(k),
    ensures
        s.has(s.root_of(k)),
        s.par(s.root_of(k)) is None,
        s.in_subtree(s.root_of(k), k),
    decreases s.dep(k),
{
    match s.par(k) {
        Some(p) => {
            lemma_root_of(s, p);
            let r = s.root_of(p);
            if r != p {
                lemma_ancestor_trans(s, r, p, k);
            }
        },
        None => {},
    }
}

/// A node's lineage holds exactly `depth + 1` nodes of the tree.
pub proof fn lemma_lineage(s: Shape, k: AccessKey)
    requires
        s.wf(),
        s.has(k),
    ensures
        s.lineage(k).finite(),
        s.lineage(k).len() == s.dep(k) + 1,
        forall|x: AccessKey| #[trigger] s.lineage(k).contains(x) ==> s.has(x) && s.dep(x) <= s.dep(k),
    decreases s.dep(k),
{
    match s.par(k) {
        Some(p) => {
            lemma_lineage(s, p);
        },
        None => {},
    }
}

/// Depths stay below the number of nodes.
pub proof fn lemma_depth_bound(s: Shape, k: AccessKey)
    requires
        s.wf(),
        s.has(k),
    ensures
        s.dep(k) < s.parent.dom().len(),
{
    lemma_lineage(s, k);
    let bits = s.lineage(k).map(|x: AccessKey| x.bits);
    assert forall|b: u64| bits.contains(b) implies s.parent.dom().contains(b) by {
        let x = choose|x: AccessKey| s.lineage(k).contains(x) && x.bits == b;
    }
    assert forall|x: AccessKey, y: AccessKey|
        s.lineage(k).contains(x) && s.lineage(k).contains(y) && x.bits == y.bits implies x == y by {
    }
    vstd::set_lib::lemma_map_size(s.lineage(k), bits, |x: AccessKey| x.bits);
    vstd::set_lib::lemma_len_subset(bits, s.parent.dom());
}


/// An element survives a filter exactly when it was there and passes it.
pub proof fn lemma_filter_contains_iff<A>(s: Seq<A>, pred: spec_fn(A) -> bool, x: A)
    ensures
        s.filter(pred).contains(x) <==> (s.contains(x) && pred(x)),
{
    if s.filter(pred).contains(x) {
        s.lemma_filter_contains_rev(pred, x);
        let i = choose|i: int| 0 <= i < s.filter(pred).len() && s.filter(pred)[i] == x;
        s.lemma_filter_pred(pred, i);
    }
    if s.contains(x) && pred(x) {
        let i = choose|i: int| 0 <= i < s.len() && s[i] == x;
        s.lemma_filter_contains(pred, i);
    }
}

/// Every element of a filtered sequence was in the sequence and passes the filter.
pub proof fn lemma_filter_index<A>(s: Seq<A>, pred: spec_fn(A) -> bool, i: int)
    requires
        0 <= i < s.filter(pred).len(),
    ensures
        s.contains(s.filter(pred)[i]),
        pred(s.filter(pred)[i]),
{
    s.lemma_filter_pred(pred, i);
    lemma_filter_contains_iff(s, pred, s.filter(pred)[i]);
}

/// The filter that drops `c` from a list of keys.
pub open spec fn other_than(c: AccessKey) -> spec_fn(AccessKey) -> bool {
    |x: AccessKey| x != c
}

impl Shape {
    /// The structure after `c` is unlinked from its parent and, when `new_parent`
    /// is given, appended as the last child of `new_parent`; the depths of
    /// `c`'s subtree shift with it.
    pub open spec fn moved(self, c: AccessKey, new_parent: Option<AccessKey>) -> Shape {
        let top_depth: int = match new_parent {
            Some(p) => self.dep(p) + 1int,
            None => 0,
        };
        Shape {
            parent: self.parent.insert(c.bits, new_parent),
            children: Map::new(
                |b: u64| self.children.contains_key(b),
                |b: u64|
                    {
                        let kept = self.children[b].filter(other_than(c));
                        if new_parent == Some(AccessKey { bits: b }) {
                            kept.push(c)
                        } else {
                            kept
                        }
                    },
            ),
            depth: Map::new(
                |b: u64| self.depth.contains_key(b),
                |b: u64|
                    if self.in_subtree(c, AccessKey { bits: b }) {
                        (self.depth[b] - self.dep(c) + top_depth) as nat
                    } else {
                        self.depth[b]
                    },
            ),
        }
    }
}

/// Outside the moved subtree, ancestry is unchanged by a move.
proof fn lemma_moved_outside(s: Shape, c: AccessKey, np: Option<AccessKey>, a: AccessKey, y: AccessKey)
    requires
        s.wf(),
        s.has(c),
        s.moved(c, np).wf(),
        np is Some ==> s.has(np->0) && !s.in_subtree(c, np->0),
        s.has(y),
        !s.in_subtree(c, y),
    ensures
        s.moved(c, np).is_ancestor(a, y) <==> s.is_ancestor(a, y),
    decreases s.dep(y),
{
    let m = s.moved(c, np);
    assert(m.has(y));
    assert(m.par(y) == s.par(y));
    match s.par(y) {
        Some(q) => {
            if s.in_subtree(c, q) {
                lemma_child_in_subtree(s, c, y);
            }
            lemma_moved_outside(s, c, np, a, q);
            lemma_ancestor_step(m, a, y);
            lemma_ancestor_step(s, a, y);
        },
        None => {
            lemma_ancestor_step(m, a, y);
        },
    }
}

/// Inside the moved subtree, ancestry among its nodes is unchanged by a move.
proof fn lemma_moved_inside(s: Shape, c: AccessKey, np: Option<AccessKey>, a: AccessKey, y: AccessKey)
    requires
        s.wf(),
        s.has(c),
        s.moved(c, np).wf(),
        np is Some ==> s.has(np->0) && !s.in_subtree(c, np->0),
        s.in_subtree(c, y),
        s.in_subtree(c, a),
    ensures
        s.moved(c, np).is_ancestor(a, y) <==> s.is_ancestor(a, y),
    decreases s.dep(y),
{
    let m = s.moved(c, np);
    if y == c {
        if s.is_ancestor(a, c) {
            lemma_ancestor_depth(s, a, c);
            if a != c {
                lemma_ancestor_depth(s, c, a);
            }
        }
        if m.is_ancestor(a, c) {
            lemma_ancestor_depth(m, a, c);
            if a != c {
                assert(m.dep(a) >= m.dep(c)) by {
                    lemma_ancestor_depth(s, c, a);
                }
            }
        }
    } else {
        let q = s.par(y)->0;
        assert(m.par(y) == s.par(y));
        assert(s.in_subtree(c, q));
        lemma_moved_inside(s, c, np, a, q);
        lemma_ancestor_step(m, a, y);
        lemma_ancestor_step(s, a, y);
    }
}

/// Moving a node under a parent outside its subtree, or making it a root,
/// keeps the structure a forest, keeps ancestry outside the moved subtree,
/// and keeps the moved subtree itself.
pub proof fn lemma_moved(s: Shape, c: AccessKey, np: Option<AccessKey>)
    requires
        s.wf(),
        s.has(c),
        np is Some ==> s.has(np->0) && !s.in_subtree(c, np->0),
    ensures
        s.moved(c, np).wf(),
        s.moved(c, np).parent.dom() == s.parent.dom(),
        forall|a: AccessKey, y: AccessKey|
            s.has(y) && !s.in_subtree(c, y) ==> (#[trigger] s.moved(c, np).is_ancestor(a, y)
                <==> s.is_ancestor(a, y)),
        forall|y: AccessKey| #[trigger] s.moved(c, np).in_subtree(c, y) <==> s.in_subtree(c, y),
{
    let m = s.moved(c, np);
    let top_depth: int = match np {
        Some(p) => s.dep(p) + 1int,
        None => 0,
    };
    assert(m.children.dom() =~= s.children.dom());
    assert(m.depth.dom() =~= s.depth.dom());
    assert(m.parent.dom() =~= s.parent.dom());
    assert forall|x: AccessKey| s.in_subtree(c, x) implies s.dep(x) >= s.dep(c) by {
        if x != c {
            lemma_ancestor_depth(s, c, x);
        }
    }
    assert(m.domains_ok());
    assert forall|p: AccessKey, i: int|
        m.has(p) && 0 <= i < m.kids(p).len() implies m.has(#[trigger] m.kids(p)[i]) && m.par(
            m.kids(p)[i],
        ) == Some(p) by {
        let kept = s.kids(p).filter(other_than(c));
        assert(p == AccessKey { bits: p.bits });
        if np == Some(p) && i == kept.len() {
            assert(m.kids(p)[i] == c);
        } else {
            assert(m.kids(p)[i] == kept[i]);
            lemma_filter_index(s.kids(p), other_than(c), i);
            let j = choose|j: int| 0 <= j < s.kids(p).len() && s.kids(p)[j] == kept[i];
            assert(s.kids(p)[j] == kept[i]);
        }
    }
    assert(m.downward_ok());
    assert forall|y: AccessKey| #[trigger] m.has(y) implies match m.par(y) {
        Some(p) => {
            &&& m.has(p)
            &&& m.kids(p).contains(y)
            &&& m.dep(y) == m.dep(p) + 1
        },
        None => m.dep(y) == 0,
    } by {
        assert(y == AccessKey { bits: y.bits });
        if y == c {
            match np {
                Some(p) => {
                    assert(p == AccessKey { bits: p.bits });
                    let kept = s.kids(p).filter(other_than(c));
                    assert(m.kids(p) == kept.push(c));
                    assert(m.kids(p)[kept.len() as int] == c);
                    assert(!s.in_subtree(c, p));
                },
                None => {},
            }
        } else {
            assert(s.has(y));
            assert(m.par(y) == s.par(y));
            match s.par(y) {
                Some(p) => {
                    assert(p == AccessKey { bits: p.bits });
                    let kept = s.kids(p).filter(other_than(c));
                    lemma_filter_contains_iff(s.kids(p), other_than(c), y);
                    if np == Some(p) {
                        assert(m.kids(p) == kept.push(c));
                        let i = choose|i: int| 0 <= i < kept.len() && kept[i] == y;
                        assert(m.kids(p)[i] == y);
                    } else {
                        assert(m.kids(p) == kept);
                    }
                    if s.in_subtree(c, y) {
                        assert(s.in_subtree(c, p));
                    } else if s.in_subtree(c, p) {
                        lemma_child_in_subtree(s, c, y);
                    }
                },
                None => {
                    if s.in_subtree(c, y) {
                        assert(false);
                    }
                },
            }
        }
    }
    assert(m.upward_ok());
    assert forall|a: AccessKey, y: AccessKey|
        s.has(y) && !s.in_subtree(c, y) implies (#[trigger] m.is_ancestor(a, y) <==> s.is_ancestor(a, y)) by {
        lemma_moved_outside(s, c, np, a, y);
    }
    assert forall|y: AccessKey| #[trigger] m.in_subtree(c, y) <==> s.in_subtree(c, y) by {
        if s.has(y) {
            if s.in_subtree(c, y) {
                lemma_moved_inside(s, c, np, c, y);
            } else {
                lemma_moved_outside(s, c, np, c, y);
            }
        }
    }
}

/// Ancestry survives the removal of nodes outside the ancestor's subtree: a
/// structure that keeps some of the nodes with their parents and depths has
/// no ancestry that the larger one lacks, and all of it inside subtrees that
/// it keeps whole.
pub proof fn lemma_restricted_ancestry(big: Shape, small: Shape, a: AccessKey, k: AccessKey)
    requires
        small.parent.dom().subset_of(big.parent.dom()),
        forall|x: AccessKey| #[trigger]
            small.has(x) ==> small.par(x) == big.par(x) && small.dep(x) == big.dep(x),
    ensures
        small.is_ancestor(a, k) ==> big.is_ancestor(a, k),
        (forall|x: AccessKey| #[trigger] big.in_subtree(a, x) ==> small.has(x)) ==> (
        big.is_ancestor(a, k) && small.has(k) ==> small.is_ancestor(a, k)),
    decreases big.dep(k),
{
    if small.has(k) {
        match big.par(k) {
            Some(p) => {
                assert(small.par(k) == Some(p));
                if big.has(p) && big.dep(p) < big.dep(k) {
                    lemma_restricted_ancestry(big, small, a, p);
                    if big.is_ancestor(a, p) {
                        assert(big.in_subtree(a, p));
                    }
                    if p == a {
                        assert(big.in_subtree(a, a));
                    }
                }
            },
            None => {},
        }
    }
}

/// Filtering out a key that a list does not hold changes nothing.
pub proof fn lemma_filter_absent(s: Seq<AccessKey>, c: AccessKey)
    requires
        !s.contains(c),
    ensures
        s.filter(other_than(c)) == s,
    decreases s.len(),
{
    if s.len() > 0 {
        assert(!s.drop_last().contains(c)) by {
            if s.drop_last().contains(c) {
                let i = choose|i: int| 0 <= i < s.drop_last().len() && s.drop_last()[i] == c;
                assert(s[i] == c);
            }
        }
        lemma_filter_absent(s.drop_last(), c);
        assert(s.last() != c);
        assert(other_than(c)(s.last()));
        assert(s.drop_last().push(s.last()) =~= s);
        s.drop_last().lemma_filter_push(s.last(), other_than(c));
    }
}

/// Filters that agree on every element give the same result.
pub proof fn lemma_filter_ext<A>(s: Seq<A>, p: spec_fn(A) -> bool, q: spec_fn(A) -> bool)
    requires
        forall|x: A| #[trigger] p(x) == q(x),
    ensures
        s.filter(p) == s.filter(q),
    decreases s.len(),
{
    if s.len() > 0 {
        lemma_filter_ext(s.drop_last(), p, q);
        assert(s.drop_last().push(s.last()) =~= s);
        s.drop_last().lemma_filter_push(s.last(), p);
        s.drop_last().lemma_filter_push(s.last(), q);
    } else {
        reveal(Seq::filter);
    }
}

/// Filtering twice is filtering once by both filters.
pub proof fn lemma_filter_twice<A>(s: Seq<A>, p: spec_fn(A) -> bool, q: spec_fn(A) -> bool)
    ensures
        s.filter(p).filter(q) == s.filter(|x: A| p(x) && q(x)),
    decreases s.len(),
{
    let both = |x: A| p(x) && q(x);
    if s.len() > 0 {
        let init = s.drop_last();
        let x = s.last();
        lemma_filter_twice(init, p, q);
        assert(init.push(x) =~= s);
        init.lemma_filter_push(x, p);
        init.lemma_filter_push(x, both);
        if p(x) {
            init.filter(p).lemma_filter_push(x, q);
        }
    } else {
        reveal(Seq::filter);
    }
}

/// The filter that keeps the keys that `list` does not hold.
pub open spec fn not_in(list: Seq<AccessKey>) -> spec_fn(AccessKey) -> bool {
    |x: AccessKey| !list.contains(x)
}

/// Filtering out the keys of a list and then one more key is filtering out
/// the keys of the list extended by that key.
pub proof fn lemma_filter_not_in_push(s: Seq<AccessKey>, list: Seq<AccessKey>, c: AccessKey)
    ensures
        s.filter(not_in(list)).filter(other_than(c)) == s.filter(not_in(list.push(c))),
{
    lemma_filter_twice(s, not_in(list), other_than(c));
    assert forall|x: AccessKey| #![trigger list.push(c).contains(x)] (not_in(list)(x) && other_than(c)(x)) == not_in(list.push(c))(x) by {
        if list.push(c).contains(x) && x != c {
            let i = choose|i: int| 0 <= i < list.push(c).len() && list.push(c)[i] == x;
            assert(list[i] == x);
        }
        if list.contains(x) {
            let i = choose|i: int| 0 <= i < list.len() && list[i] == x;
            assert(list.push(c)[i] == x);
        }
        if x == c {
            assert(list.push(c)[list.len() as int] == c);
        }
    }
    lemma_filter_ext(s, |x: AccessKey| not_in(list)(x) && other_than(c)(x), not_in(list.push(c)));
}

/// Filtering out the keys of an empty list keeps every key.
pub proof fn lemma_filter_not_in_empty(s: Seq<AccessKey>)
    ensures
        s.filter(not_in(Seq::<AccessKey>::empty())) == s,
    decreases s.len(),
{
    if s.len() > 0 {
        lemma_filter_not_in_empty(s.drop_last());
        assert(s.drop_last().push(s.last()) =~= s);
        s.drop_last().lemma_filter_push(s.last(), not_in(Seq::<AccessKey>::empty()));
    } else {
        reveal(Seq::filter);
        assert(s.filter(not_in(Seq::<AccessKey>::empty())) =~= s);
    }
}

/// A prefix one longer holds what the shorter prefix holds and the next key.
pub proof fn lemma_take_one_more(list: Seq<AccessKey>, k: int, x: AccessKey)
    requires
        0 <= k < list.len(),
    ensures
        list.take(k + 1).contains(x) <==> (list.take(k).contains(x) || x == list[k]),
        list.take(k + 1) == list.take(k).push(list[k]),
{
    let short = list.take(k);
    let long = list.take(k + 1);
    assert(long =~= short.push(list[k]));
    if long.contains(x) && x != list[k] {
        let i = choose|i: int| 0 <= i < long.len() && #[trigger] long[i] == x;
        assert(short[i] == x);
    }
    if short.contains(x) {
        let i = choose|i: int| 0 <= i < short.len() && #[trigger] short[i] == x;
        assert(long[i] == x);
    }
    if x == list[k] {
        assert(long[k] == x);
    }
}

/// The root of a node depends only on parent links and depths: a structure
/// whose nodes all appear in a larger one with the same parents and depths
/// gives every one of its nodes the same root as the larger one does.
pub proof fn lemma_root_of_agree(small: Shape, big: Shape, y: AccessKey)
    requires
        small.wf(),
        small.has(y),
        forall|x: AccessKey| #[trigger]
            small.has(x) ==> big.has(x) && big.par(x) == small.par(x) && big.dep(x) == small.dep(x),
    ensures
        big.root_of(y) == small.root_of(y),
    decreases small.dep(y),
{
    assert(big.has(y));
    match small.par(y) {
        Some(p) => {
            assert(small.has(p));
            lemma_root_of_agree(small, big, p);
        },
        None => {},
    }
}

/// Every node of a subtree has the root of the subtree's top.
pub proof fn lemma_subtree_root(s: Shape, top: AccessKey, y: AccessKey)
    requires
        s.wf(),
        s.in_subtree(top, y),
    ensures
        s.root_of(y) == s.root_of(top),
    decreases s.dep(y),
{
    if y != top {
        let p = s.par(y)->0;
        lemma_ancestor_step(s, top, y);
        assert(s.has(p));
        lemma_subtree_root(s, top, p);
    }
}

/// Outside the moved subtree, a move keeps every node's root.
#[verifier::spinoff_prover]
proof fn lemma_moved_root_outside(s: Shape, c: AccessKey, np: Option<AccessKey>, y: AccessKey)
    requires
        s.wf(),
        s.has(c),
        s.moved(c, np).wf(),
        np is Some ==> s.has(np->0) && !s.in_subtree(c, np->0),
        s.has(y),
        !s.in_subtree(c, y),
    ensures
        s.moved(c, np).root_of(y) == s.root_of(y),
    decreases s.dep(y),
{
    let m = s.moved(c, np);
    assert(m.has(y));
    assert(m.par(y) == s.par(y));
    assert(m.dep(y) == s.dep(y));
    match s.par(y) {
        Some(p) => {
            if s.in_subtree(c, p) {
                lemma_child_in_subtree(s, c, y);
            }
            assert(m.dep(p) == s.dep(p));
            lemma_moved_root_outside(s, c, np, p);
        },
        None => {},
    }
}

/// A move keeps the root of every node outside the moved subtree, and gives
/// the moved subtree the root of its new parent, or makes its top a root.
#[verifier::spinoff_prover]
pub proof fn lemma_moved_root_of(s: Shape, c: AccessKey, np: Option<AccessKey>, y: AccessKey)
    requires
        s.wf(),
        s.has(c),
        np is Some ==> s.has(np->0) && !s.in_subtree(c, np->0),
        s.has(y),
    ensures
        !s.in_subtree(c, y) ==> s.moved(c, np).root_of(y) == s.root_of(y),
        s.in_subtree(c, y) ==> s.moved(c, np).root_of(y) == (match np {
            Some(p) => s.root_of(p),
            None => c,
        }),
{
    let m = s.moved(c, np);
    lemma_moved(s, c, np);
    if !s.in_subtree(c, y) {
        lemma_moved_root_outside(s, c, np, y);
    } else {
        assert(m.in_subtree(c, y));
        lemma_subtree_root(m, c, y);
        assert(m.has(c));
        assert(m.par(c) == np);
        match np {
            Some(p) => {
                assert(m.has(p));
                lemma_moved_root_outside(s, c, np, p);
            },
            None => {},
        }
    }
}

/// A node on the way from `top` down to a node in the subtree of one of
/// `top`'s children lies, unless it is `top`, in that child's subtree.
pub proof fn lemma_path_through_child(s: Shape, top: AccessKey, i: int, a: AccessKey, k: AccessKey)
    requires
        s.wf(),
        s.has(top),
        0 <= i < s.kids(top).len(),
        s.in_subtree(s.kids(top)[i], k),
        s.in_subtree(top, a),
        a != top,
        s.in_subtree(a, k),
    ensures
        s.in_subtree(s.kids(top)[i], a),
{
    let c = s.kids(top)[i];
    lemma_subtree_split(s, top, a);
    let j = choose|j: int| 0 <= j < s.kids(top).len() && #[trigger] s.in_subtree(s.kids(top)[j], a);
    let d = s.kids(top)[j];
    lemma_subtree_nested(s, d, a, k);
    if d != c {
        assert(s.has(c) && s.has(d));
        lemma_sibling_subtrees_disjoint(s, c, d, k);
    }
}

} // verus!
