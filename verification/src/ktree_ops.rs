//! How the changes that the tree makes to its arena show in its view.
use vstd::prelude::*;

use crate::arena::{Node, NodeKind};
use crate::ktree::{
    lemma_finite, lemma_parent, lemma_parent_indep, lemma_replace_sets, lemma_subtree,
    lemma_subtree_self, lemma_view_wins, KTree,
};
use crate::protocol::{Direction, WindowId};

verus! {

/// The window of a leaf belongs to every subtree that holds the leaf.
pub proof fn lemma_leaf_window(t: KTree, x: u64)
    requires
        t.wf(),
        t.keys().contains(x),
        t.subtree(x) is Leaf,
    ensures
        t.wins().contains(t.subtree(x)->window@),
{
    lemma_subtree(t, x);
}

/// A window has one leaf.
pub proof fn lemma_leaf_unique(t: KTree, x: u64, y: u64)
    requires
        t.wf(),
        t.keys().contains(x),
        t.keys().contains(y),
        t.subtree(x) is Leaf,
        t.subtree(y) is Leaf,
        t.subtree(x)->window@ == t.subtree(y)->window@,
    ensures
        x == y,
    decreases t,
{
    lemma_subtree(t, x);
    lemma_subtree(t, y);
    if let KTree::Split { key, first, second, .. } = t {
        if first.keys().contains(x) {
            lemma_leaf_window(*first, x);
            if first.keys().contains(y) {
                lemma_leaf_unique(*first, x, y);
            } else {
                lemma_leaf_window(*second, y);
            }
        } else {
            lemma_leaf_window(*second, x);
            if first.keys().contains(y) {
                lemma_leaf_window(*first, y);
            } else {
                lemma_leaf_unique(*second, x, y);
            }
        }
    }
}

/// Replacing the leaf of `x` by `u` puts `u` in its place in the view.
pub proof fn lemma_view_put(t: KTree, l: u64, u: KTree)
    requires
        t.wf(),
        t.keys().contains(l),
        t.subtree(l) is Leaf,
    ensures
        t.replace(l, u).view() == t.view().put_at(t.subtree(l)->window@, u.view()),
    decreases t,
{
    lemma_subtree(t, l);
    if let KTree::Split { key, first, second, .. } = t {
        lemma_view_wins(*first);
        lemma_view_wins(*second);
        if first.keys().contains(l) {
            lemma_leaf_window(*first, l);
            lemma_view_put(*first, l, u);
        } else {
            lemma_leaf_window(*second, l);
            lemma_view_put(*second, l, u);
        }
    }
}

/// The sibling of the node `l` under its parent.
pub open spec fn sibling_of(t: KTree, l: u64) -> KTree {
    let sp = t.subtree(t.parent_in(l, None)->0);
    if sp->first.key() == l {
        *sp->second
    } else {
        *sp->first
    }
}

/// Removing a leaf below the root: its parent gives way to its sibling.
pub proof fn lemma_view_remove(t: KTree, l: u64)
    requires
        t.wf(),
        t.keys().contains(l),
        t.subtree(l) is Leaf,
        l != t.key(),
    ensures
        t.view().remove(t.subtree(l)->window@) == Some(
            t.replace(t.parent_in(l, None)->0, sibling_of(t, l)).view(),
        ),
    decreases t,
{
    lemma_subtree(t, l);
    lemma_finite(t);
    if let KTree::Split { key, first, second, .. } = t {
        lemma_view_wins(*first);
        lemma_view_wins(*second);
        lemma_finite(*first);
        lemma_finite(*second);
        lemma_subtree_self(*first);
        lemma_subtree_self(*second);
        if first.keys().contains(l) {
            lemma_leaf_window(*first, l);
            if first.key() != l {
                lemma_view_remove(*first, l);
                lemma_parent_indep(*first, Some(key), l);
                lemma_parent(*first, None, l);
            }
        } else {
            lemma_leaf_window(*second, l);
            if second.key() != l {
                lemma_view_remove(*second, l);
                lemma_parent_indep(*second, Some(key), l);
                lemma_parent(*second, None, l);
            }
        }
    }
}

/// Resizing at a node changes the whole tree as it changes that subtree.
pub proof fn lemma_view_resize_lift(
    t: KTree,
    x: u64,
    u: KTree,
    w: Seq<char>,
    d: Direction,
    step: i32,
)
    requires
        t.wf(),
        t.keys().contains(x),
        t.subtree(x).wins().contains(w),
        t.subtree(x).view().resize(w, d, step) == (u.view(), true),
    ensures
        t.view().resize(w, d, step) == (t.replace(x, u).view(), true),
    decreases t,
{
    lemma_subtree(t, x);
    if let KTree::Split { key, first, second, .. } = t {
        lemma_view_wins(*first);
        lemma_view_wins(*second);
        if key != x {
            if first.keys().contains(x) {
                lemma_subtree(*first, x);
                lemma_view_resize_lift(*first, x, u, w, d, step);
            } else {
                lemma_subtree(*second, x);
                lemma_view_resize_lift(*second, x, u, w, d, step);
            }
        }
    }
}

/// A leaf away from the replaced subtree is still there.
pub proof fn lemma_replace_keeps_leaf(t: KTree, k: u64, u: KTree, x: u64)
    requires
        t.wf(),
        t.keys().contains(k),
        t.keys().contains(x),
        !t.subtree(k).keys().contains(x),
        t.subtree(x) is Leaf,
        u.keys().disjoint(t.keys().difference(t.subtree(k).keys())),
    ensures
        t.replace(k, u).subtree(x) == t.subtree(x),
    decreases t,
{
    lemma_finite(t);
    lemma_subtree(t, k);
    if let KTree::Split { key, first, second, .. } = t {
        lemma_finite(*first);
        lemma_finite(*second);
        lemma_subtree_self(t);
        if key != k {
            if first.keys().contains(k) {
                lemma_subtree(*first, k);
                lemma_replace_sets(*first, k, u);
                if first.keys().contains(x) {
                    lemma_replace_keeps_leaf(*first, k, u, x);
                }
            } else {
                lemma_subtree(*second, k);
                lemma_replace_sets(*second, k, u);
                if second.keys().contains(x) {
                    lemma_replace_keeps_leaf(*second, k, u, x);
                }
            }
        }
    }
}

/// Nodes of the new subtree are found where they are in it.
pub proof fn lemma_replace_finds_new(t: KTree, k: u64, u: KTree, x: u64)
    requires
        t.wf(),
        t.keys().contains(k),
        u.keys().contains(x),
        u.keys().disjoint(t.keys().difference(t.subtree(k).keys())),
    ensures
        t.replace(k, u).subtree(x) == u.subtree(x),
    decreases t,
{
    lemma_finite(t);
    lemma_subtree(t, k);
    if let KTree::Split { key, first, second, .. } = t {
        lemma_finite(*first);
        lemma_finite(*second);
        if key != k {
            if first.keys().contains(k) {
                lemma_replace_sets(*first, k, u);
                lemma_subtree(*first, k);
                lemma_replace_finds_new(*first, k, u, x);
            } else {
                lemma_replace_sets(*second, k, u);
                lemma_subtree(*second, k);
                lemma_replace_finds_new(*second, k, u, x);
            }
        }
    }
}

/// The subtrees of a relabelled tree are the relabelled subtrees.
pub proof fn lemma_relabel_subtree(t: KTree, k1: u64, w1: WindowId, k2: u64, w2: WindowId, x: u64)
    requires
        t.keys().contains(x),
    ensures
        t.relabel(k1, w1, k2, w2).subtree(x) == t.subtree(x).relabel(k1, w1, k2, w2),
    decreases t,
{
    if let KTree::Split { key, first, second, .. } = t {
        lemma_relabel_keys(*first, k1, w1, k2, w2);
        if key != x {
            if first.keys().contains(x) {
                lemma_relabel_subtree(*first, k1, w1, k2, w2, x);
            } else {
                lemma_relabel_subtree(*second, k1, w1, k2, w2, x);
            }
        }
    }
}

pub proof fn lemma_relabel_keys(t: KTree, k1: u64, w1: WindowId, k2: u64, w2: WindowId)
    ensures
        t.relabel(k1, w1, k2, w2).keys() == t.keys(),
        t.relabel(k1, w1, k2, w2).key() == t.key(),
    decreases t,
{
    if let KTree::Split { key, first, second, .. } = t {
        lemma_relabel_keys(*first, k1, w1, k2, w2);
        lemma_relabel_keys(*second, k1, w1, k2, w2);
    }
}

/// The window that `z` becomes when `a` and `b` change places.
pub open spec fn swapped(a: Seq<char>, b: Seq<char>, z: Seq<char>) -> Seq<char> {
    if z == a {
        b
    } else if z == b {
        a
    } else {
        z
    }
}

/// Swapping the windows of two leaves in the arena swaps them in the tree.
pub proof fn lemma_relabel(
    t: KTree,
    m: Map<u64, Node>,
    parent: Option<u64>,
    k1: u64,
    w1: WindowId,
    k2: u64,
    w2: WindowId,
)
    requires
        t.wf(),
        t.repr(m, parent),
        k1 != k2,
        w1@ != w2@,
        t.keys().contains(k1) ==> t.subtree(k1) == (KTree::Leaf { key: k1, window: w1 }),
        t.keys().contains(k2) ==> t.subtree(k2) == (KTree::Leaf { key: k2, window: w2 }),
        t.wins().contains(w1@) ==> t.keys().contains(k1),
        t.wins().contains(w2@) ==> t.keys().contains(k2),
    ensures
        t.relabel(k1, w1, k2, w2).repr(
            m.insert(k1, Node { parent: m[k1].parent, kind: NodeKind::Leaf { window: w2 } }).insert(
                k2,
                Node { parent: m[k2].parent, kind: NodeKind::Leaf { window: w1 } },
            ),
            parent,
        ),
        t.relabel(k1, w1, k2, w2).view() == t.view().swap(w1@, w2@),
        t.relabel(k1, w1, k2, w2).keys() == t.keys(),
        t.relabel(k1, w1, k2, w2).key() == t.key(),
        forall|z: Seq<char>| #[trigger]
            t.relabel(k1, w1, k2, w2).wins().contains(z) == t.wins().contains(
                swapped(w1@, w2@, z),
            ),
        t.relabel(k1, w1, k2, w2).wf(),
    decreases t,
{
    lemma_finite(t);
    lemma_subtree_self(t);
    match t {
        KTree::Leaf { key, window } => {
            assert(t.wins() =~= set![window@]);
        },
        KTree::Split { key, orientation, ratio, first, second } => {
            lemma_finite(*first);
            lemma_finite(*second);
            assert(first.keys().contains(k1) ==> first.subtree(k1) == t.subtree(k1));
            assert(second.keys().contains(k1) ==> second.subtree(k1) == t.subtree(k1));
            assert(first.keys().contains(k2) ==> first.subtree(k2) == t.subtree(k2));
            assert(second.keys().contains(k2) ==> second.subtree(k2) == t.subtree(k2));
            if first.keys().contains(k1) {
                lemma_leaf_window(*first, k1);
            }
            if second.keys().contains(k1) {
                lemma_leaf_window(*second, k1);
            }
            if first.keys().contains(k2) {
                lemma_leaf_window(*first, k2);
            }
            if second.keys().contains(k2) {
                lemma_leaf_window(*second, k2);
            }
            lemma_relabel(*first, m, Some(key), k1, w1, k2, w2);
            lemma_relabel(*second, m, Some(key), k1, w1, k2, w2);
            let r1 = first.relabel(k1, w1, k2, w2);
            let r2 = second.relabel(k1, w1, k2, w2);
            assert forall|z: Seq<char>| !(r1.wins().contains(z) && r2.wins().contains(z)) by {
                assert(r1.wins().contains(z) == first.wins().contains(swapped(w1@, w2@, z)));
                assert(r2.wins().contains(z) == second.wins().contains(swapped(w1@, w2@, z)));
            }
            assert(r1.wins().disjoint(r2.wins()));
        },
    }
}

} // verus!
