//! The shape of a layout tree, as a recursive value, and how an arena of
//! nodes stands for it.
use vstd::prelude::*;

use crate::arena::{Node, NodeKind};
use crate::geometry::{clamp_int, spec_split, Orientation, Rect};
use crate::protocol::{Direction, WindowId};
use crate::tree::{MAX_RATIO, MIN_RATIO};

verus! {

/// A layout tree as its users see it: leaves hold windows (by their text),
/// splits divide their area between two subtrees.
pub enum TreeView {
    Leaf(Seq<char>),
    Split(Orientation, u32, Box<TreeView>, Box<TreeView>),
}

/// A layout tree together with the arena handle of each of its nodes.
pub enum KTree {
    Leaf { key: u64, window: WindowId },
    Split { key: u64, orientation: Orientation, ratio: u32, first: Box<KTree>, second: Box<KTree> },
}

impl TreeView {
    /// The windows of the tree.
    pub open spec fn wins(self) -> Set<Seq<char>>
        decreases self,
    {
        match self {
            TreeView::Leaf(w) => set![w],
            TreeView::Split(_, _, a, b) => a.wins() + b.wins(),
        }
    }

    /// The windows of the tree from first to last (left to right, top to bottom).
    pub open spec fn order(self) -> Seq<Seq<char>>
        decreases self,
    {
        match self {
            TreeView::Leaf(w) => seq![w],
            TreeView::Split(_, _, a, b) => a.order() + b.order(),
        }
    }

    /// Every window occurs once, and every split ratio lies within the safe bounds.
    pub open spec fn wf(self) -> bool
        decreases self,
    {
        match self {
            TreeView::Leaf(_) => true,
            TreeView::Split(_, r, a, b) => {
                &&& MIN_RATIO <= r <= MAX_RATIO
                &&& a.wins().disjoint(b.wins())
                &&& a.wf()
                &&& b.wf()
            },
        }
    }
}

/// Whether moving toward `d` resizes a split of orientation `o`.
pub open spec fn same_axis(d: Direction, o: Orientation) -> bool {
    match o {
        Orientation::Horizontal => d == Direction::Left || d == Direction::Right,
        Orientation::Vertical => d == Direction::Up || d == Direction::Down,
    }
}

/// The ratio of a split after its child on the `from_first` side grows toward
/// `d` by `step` (or the other child shrinks), kept within the safe bounds.
pub open spec fn resized_ratio(ratio: u32, d: Direction, from_first: bool, step: i32) -> u32 {
    let grow = d == Direction::Right || d == Direction::Down;
    let v: int = if grow == from_first {
        ratio + step
    } else {
        ratio - step
    };
    clamp_int(v, MIN_RATIO as int, MAX_RATIO as int) as u32
}

pub open spec fn other(o: Orientation) -> Orientation {
    match o {
        Orientation::Horizontal => Orientation::Vertical,
        Orientation::Vertical => Orientation::Horizontal,
    }
}

impl TreeView {
    /// The tree with the leaf holding `target` replaced by `u`.
    pub open spec fn put_at(self, target: Seq<char>, u: TreeView) -> TreeView
        decreases self,
    {
        match self {
            TreeView::Leaf(w) => if w == target {
                u
            } else {
                self
            },
            TreeView::Split(o, r, a, b) => if a.wins().contains(target) {
                TreeView::Split(o, r, Box::new(a.put_at(target, u)), b)
            } else {
                TreeView::Split(o, r, a, Box::new(b.put_at(target, u)))
            },
        }
    }

    /// The tree without the window `w`: the split above its leaf gives way to
    /// the leaf's sibling. `None` when the tree was that leaf alone.
    pub open spec fn remove(self, w: Seq<char>) -> Option<TreeView>
        decreases self,
    {
        match self {
            TreeView::Leaf(x) => if x == w {
                None
            } else {
                Some(self)
            },
            TreeView::Split(o, r, a, b) => if a.wins().contains(w) {
                match a.remove(w) {
                    None => Some(*b),
                    Some(a2) => Some(TreeView::Split(o, r, Box::new(a2), b)),
                }
            } else {
                match b.remove(w) {
                    None => Some(*a),
                    Some(b2) => Some(TreeView::Split(o, r, a, Box::new(b2))),
                }
            },
        }
    }

    /// The tree with the windows `a` and `b` in each other's place.
    pub open spec fn swap(self, a: Seq<char>, b: Seq<char>) -> TreeView
        decreases self,
    {
        match self {
            TreeView::Leaf(x) => TreeView::Leaf(
                if x == a {
                    b
                } else if x == b {
                    a
                } else {
                    x
                },
            ),
            TreeView::Split(o, r, x, y) => TreeView::Split(
                o,
                r,
                Box::new(x.swap(a, b)),
                Box::new(y.swap(a, b)),
            ),
        }
    }

    /// Resizing the window `w` toward `d`: the nearest split above its leaf
    /// whose axis is that of `d` changes its ratio by `step`. The flag tells
    /// whether such a split exists.
    pub open spec fn resize(self, w: Seq<char>, d: Direction, step: i32) -> (TreeView, bool)
        decreases self,
    {
        match self {
            TreeView::Leaf(_) => (self, false),
            TreeView::Split(o, r, a, b) => if a.wins().contains(w) {
                let (a2, changed) = a.resize(w, d, step);
                if changed {
                    (TreeView::Split(o, r, Box::new(a2), b), true)
                } else if same_axis(d, o) {
                    (TreeView::Split(o, resized_ratio(r, d, true, step), a, b), true)
                } else {
                    (self, false)
                }
            } else {
                let (b2, changed) = b.resize(w, d, step);
                if changed {
                    (TreeView::Split(o, r, a, Box::new(b2)), true)
                } else if same_axis(d, o) {
                    (TreeView::Split(o, resized_ratio(r, d, false, step), a, b), true)
                } else {
                    (self, false)
                }
            },
        }
    }

    /// Where each window goes when the tree fills `rect` with `gap` pixels
    /// between the two sides of each split, windows in tree order.
    pub open spec fn layout(self, rect: Rect, gap: i32) -> Seq<(Seq<char>, Rect)>
        decreases self,
    {
        match self {
            TreeView::Leaf(w) => seq![(w, rect)],
            TreeView::Split(o, r, a, b) => {
                let parts = spec_split(rect, o, r, gap);
                a.layout(parts.0, gap) + b.layout(parts.1, gap)
            },
        }
    }
}

impl KTree {
    /// The tree whose leaves `k1` and `k2` hold `w2` and `w1`.
    pub open spec fn relabel(self, k1: u64, w1: WindowId, k2: u64, w2: WindowId) -> KTree
        decreases self,
    {
        match self {
            KTree::Leaf { key, window } => KTree::Leaf {
                key,
                window: if key == k1 {
                    w2
                } else if key == k2 {
                    w1
                } else {
                    window
                },
            },
            KTree::Split { key, orientation, ratio, first, second } => KTree::Split {
                key,
                orientation,
                ratio,
                first: Box::new(first.relabel(k1, w1, k2, w2)),
                second: Box::new(second.relabel(k1, w1, k2, w2)),
            },
        }
    }

    pub open spec fn key(self) -> u64 {
        match self {
            KTree::Leaf { key, .. } => key,
            KTree::Split { key, .. } => key,
        }
    }

    pub open spec fn keys(self) -> Set<u64>
        decreases self,
    {
        match self {
            KTree::Leaf { key, .. } => set![key],
            KTree::Split { key, first, second, .. } => first.keys().union(second.keys()).insert(
                key,
            ),
        }
    }

    pub open spec fn wins(self) -> Set<Seq<char>>
        decreases self,
    {
        match self {
            KTree::Leaf { window, .. } => set![window@],
            KTree::Split { first, second, .. } => first.wins() + second.wins(),
        }
    }

    /// Handles occur once, windows occur once, ratios are within bounds.
    pub open spec fn wf(self) -> bool
        decreases self,
    {
        match self {
            KTree::Leaf { .. } => true,
            KTree::Split { key, ratio, first, second, .. } => {
                &&& MIN_RATIO <= ratio <= MAX_RATIO
                &&& first.keys().disjoint(second.keys())
                &&& !first.keys().contains(key)
                &&& !second.keys().contains(key)
                &&& first.wins().disjoint(second.wins())
                &&& first.wf()
                &&& second.wf()
            },
        }
    }

    pub open spec fn view(self) -> TreeView
        decreases self,
    {
        match self {
            KTree::Leaf { window, .. } => TreeView::Leaf(window@),
            KTree::Split { orientation, ratio, first, second, .. } => TreeView::Split(
                orientation,
                ratio,
                Box::new(first.view()),
                Box::new(second.view()),
            ),
        }
    }

    /// The arena node that stands for the root of this tree under `parent`.
    pub open spec fn node(self, parent: Option<u64>) -> Node {
        match self {
            KTree::Leaf { window, .. } => Node { parent, kind: NodeKind::Leaf { window } },
            KTree::Split { orientation, ratio, first, second, .. } => Node {
                parent,
                kind: NodeKind::Split { orientation, ratio, first: first.key(), second: second.key() },
            },
        }
    }

    /// The arena `m` holds, under each handle of this tree, the node for it.
    pub open spec fn repr(self, m: Map<u64, Node>, parent: Option<u64>) -> bool
        decreases self,
    {
        &&& m.contains_key(self.key())
        &&& m[self.key()] == self.node(parent)
        &&& match self {
            KTree::Leaf { .. } => true,
            KTree::Split { key, first, second, .. } => {
                &&& first.repr(m, Some(key))
                &&& second.repr(m, Some(key))
            },
        }
    }

    /// The subtree whose root has handle `k`.
    pub open spec fn subtree(self, k: u64) -> KTree
        decreases self,
    {
        match self {
            KTree::Leaf { .. } => self,
            KTree::Split { key, first, second, .. } => {
                if key == k {
                    self
                } else if first.keys().contains(k) {
                    first.subtree(k)
                } else {
                    second.subtree(k)
                }
            },
        }
    }

    /// The parent handle of the node `k`, the tree itself hanging under `parent`.
    pub open spec fn parent_in(self, k: u64, parent: Option<u64>) -> Option<u64>
        decreases self,
    {
        match self {
            KTree::Leaf { .. } => parent,
            KTree::Split { key, first, second, .. } => {
                if key == k {
                    parent
                } else if first.keys().contains(k) {
                    first.parent_in(k, Some(key))
                } else {
                    second.parent_in(k, Some(key))
                }
            },
        }
    }

    /// This tree with the subtree at handle `k` replaced by `u`.
    pub open spec fn replace(self, k: u64, u: KTree) -> KTree
        decreases self,
    {
        if self.key() == k {
            u
        } else {
            match self {
                KTree::Leaf { .. } => self,
                KTree::Split { key, orientation, ratio, first, second } => {
                    if first.keys().contains(k) {
                        KTree::Split {
                            key,
                            orientation,
                            ratio,
                            first: Box::new(first.replace(k, u)),
                            second,
                        }
                    } else {
                        KTree::Split {
                            key,
                            orientation,
                            ratio,
                            first,
                            second: Box::new(second.replace(k, u)),
                        }
                    }
                },
            }
        }
    }

    /// The handle of the leaf that holds the window `w`.
    pub open spec fn leaf_of(self, w: Seq<char>) -> u64
        decreases self,
    {
        match self {
            KTree::Leaf { key, .. } => key,
            KTree::Split { first, second, .. } => {
                if first.wins().contains(w) {
                    first.leaf_of(w)
                } else {
                    second.leaf_of(w)
                }
            },
        }
    }
}

impl KTree {
    pub open spec fn size(self) -> nat
        decreases self,
    {
        match self {
            KTree::Leaf { .. } => 1,
            KTree::Split { first, second, .. } => 1 + first.size() + second.size(),
        }
    }
}

/// Subtrees of a subtree are subtrees of the whole, with the same parents.
pub proof fn lemma_subtree_nested(t: KTree, parent: Option<u64>, k: u64, x: u64)
    requires
        t.wf(),
        t.keys().contains(k),
        t.subtree(k).keys().contains(x),
    ensures
        t.subtree(x) == t.subtree(k).subtree(x),
        x != k ==> t.parent_in(x, parent) == t.subtree(k).parent_in(x, None),
        t.subtree(x).size() <= t.subtree(k).size() <= t.size(),
    decreases t,
{
    lemma_finite(t);
    if let KTree::Split { key, first, second, .. } = t {
        lemma_finite(*first);
        lemma_finite(*second);
        if key == k {
            lemma_size_subtree(t, x);
        } else if first.keys().contains(k) {
            lemma_subtree(*first, k);
            lemma_subtree_nested(*first, Some(key), k, x);
        } else {
            lemma_subtree(*second, k);
            lemma_subtree_nested(*second, Some(key), k, x);
        }
    } else {
        lemma_size_subtree(t, x);
    }
}

pub proof fn lemma_size_subtree(t: KTree, x: u64)
    ensures
        t.subtree(x).size() <= t.size(),
    decreases t,
{
    if let KTree::Split { key, first, second, .. } = t {
        if key != x {
            if first.keys().contains(x) {
                lemma_size_subtree(*first, x);
            } else {
                lemma_size_subtree(*second, x);
            }
        }
    }
}

pub proof fn lemma_subtree_self(t: KTree)
    ensures
        t.subtree(t.key()) == t,
        forall|parent: Option<u64>| #[trigger] t.parent_in(t.key(), parent) == parent,
{
}

/// Below the root, parents do not depend on where the tree hangs.
pub proof fn lemma_parent_indep(t: KTree, parent: Option<u64>, x: u64)
    requires
        t.keys().contains(x),
        x != t.key(),
    ensures
        t.parent_in(x, parent) == t.parent_in(x, None),
    decreases t,
{
    if let KTree::Split { key, first, second, .. } = t {
        if first.keys().contains(x) {
            if first.key() != x {
                lemma_parent_indep(*first, Some(key), x);
            }
        } else {
            if second.key() != x {
                lemma_parent_indep(*second, Some(key), x);
            }
        }
    }
}

/// The children of a split node are the subtrees under their handles, and
/// their parent is that node.
pub proof fn lemma_subtree_child(t: KTree, parent: Option<u64>, p: u64)
    requires
        t.wf(),
        t.keys().contains(p),
        t.subtree(p) is Split,
    ensures
        ({
            let sp = t.subtree(p);
            &&& t.keys().contains(sp->first.key())
            &&& t.keys().contains(sp->second.key())
            &&& t.subtree(sp->first.key()) == *sp->first
            &&& t.subtree(sp->second.key()) == *sp->second
            &&& t.parent_in(sp->first.key(), parent) == Some(p)
            &&& t.parent_in(sp->second.key(), parent) == Some(p)
            &&& sp->first.size() < sp.size()
            &&& sp->second.size() < sp.size()
            &&& sp->first.key() != sp->second.key()
        }),
{
    lemma_subtree(t, p);
    let sp = t.subtree(p);
    if let KTree::Split { key, first, second, .. } = sp {
        lemma_finite(*first);
        lemma_finite(*second);
        assert(sp.keys().contains(first.key()));
        assert(sp.keys().contains(second.key()));
        lemma_subtree_nested(t, parent, p, first.key());
        lemma_subtree_nested(t, parent, p, second.key());
        assert(key == p);
        assert(first.key() != p);
        lemma_subtree_self(*first);
        lemma_subtree_self(*second);
        assert(sp.subtree(first.key()) == *first);
        assert(sp.subtree(second.key()) == *second);
        assert(t.subtree(first.key()) == *first);
        assert(first.parent_in(first.key(), Some(p)) == Some(p));
        assert(second.parent_in(second.key(), Some(p)) == Some(p));
        assert(sp.parent_in(first.key(), None) == Some(p));
        assert(sp.parent_in(second.key(), None) == Some(p));
        assert(t.parent_in(first.key(), parent) == Some(p));
        assert(t.parent_in(second.key(), parent) == Some(p));
    }
}

/// The windows of a layout come in tree order, each once.
pub proof fn lemma_layout_windows(v: TreeView, rect: Rect, gap: i32)
    ensures
        v.layout(rect, gap).map_values(|p: (Seq<char>, Rect)| p.0) == v.order(),
        v.order().to_set() == v.wins(),
        v.wf() ==> v.order().no_duplicates(),
        v.layout(rect, gap).len() >= 1,
    decreases v,
{
    match v {
        TreeView::Leaf(w) => {
            assert(v.layout(rect, gap).map_values(|p: (Seq<char>, Rect)| p.0) =~= v.order());
            assert(v.order()[0] == w);
            assert(v.order().to_set() =~= v.wins());
        },
        TreeView::Split(o, r, a, b) => {
            let parts = spec_split(rect, o, r, gap);
            lemma_layout_windows(*a, parts.0, gap);
            lemma_layout_windows(*b, parts.1, gap);
            assert(v.layout(rect, gap).map_values(|p: (Seq<char>, Rect)| p.0) =~= a.layout(
                parts.0,
                gap,
            ).map_values(|p: (Seq<char>, Rect)| p.0) + b.layout(parts.1, gap).map_values(
                |p: (Seq<char>, Rect)| p.0,
            ));
            assert(v.order().to_set() =~= v.wins()) by {
                vstd::seq_lib::seq_to_set_distributes_over_add(a.order(), b.order());
            }
            if v.wf() {
                assert(v.order().no_duplicates()) by {
                    let s = v.order();
                    assert forall|i: int, j: int|
                        0 <= i < s.len() && 0 <= j < s.len() && i != j implies s[i] != s[j] by {
                        let n = a.order().len();
                        if i < n && j >= n {
                            assert(a.order().to_set().contains(s[i]));
                            assert(b.order().to_set().contains(s[j]));
                        } else if i >= n && j < n {
                            assert(b.order().to_set().contains(s[i]));
                            assert(a.order().to_set().contains(s[j]));
                        }
                    }
                }
            }
        },
    }
}

/// A tree of `n` windows has `2n - 1` nodes.
pub proof fn lemma_key_count(t: KTree)
    requires
        t.wf(),
    ensures
        t.keys().len() + 1 == 2 * t.wins().len(),
    decreases t,
{
    lemma_finite(t);
    match t {
        KTree::Leaf { key, window } => {
            assert(t.keys() =~= set![key]);
            assert(t.wins() =~= set![window@]);
        },
        KTree::Split { key, first, second, .. } => {
            lemma_finite(*first);
            lemma_finite(*second);
            lemma_key_count(*first);
            lemma_key_count(*second);
            vstd::set_lib::lemma_set_disjoint_lens(first.keys(), second.keys());
            vstd::set_lib::lemma_set_disjoint_lens(first.wins(), second.wins());
        },
    }
}

/// A node whose child reference `old` now reads `new`.
pub open spec fn relink(n: Node, old: u64, new: u64) -> Node {
    match n.kind {
        NodeKind::Split { orientation, ratio, first, second } => Node {
            parent: n.parent,
            kind: NodeKind::Split {
                orientation,
                ratio,
                first: if first == old { new } else { first },
                second: if second == old { new } else { second },
            },
        },
        NodeKind::Leaf { .. } => n,
    }
}

pub proof fn lemma_finite(t: KTree)
    ensures
        t.keys().finite(),
        t.wins().finite(),
        t.keys().contains(t.key()),
    decreases t,
{
    if let KTree::Split { first, second, .. } = t {
        lemma_finite(*first);
        lemma_finite(*second);
    }
}

pub proof fn lemma_view_wins(t: KTree)
    ensures
        t.view().wins() == t.wins(),
        t.wf() ==> t.view().wf(),
    decreases t,
{
    if let KTree::Split { first, second, .. } = t {
        lemma_view_wins(*first);
        lemma_view_wins(*second);
    }
}

pub proof fn lemma_subtree(t: KTree, k: u64)
    requires
        t.wf(),
        t.keys().contains(k),
    ensures
        t.subtree(k).key() == k,
        t.subtree(k).keys().subset_of(t.keys()),
        t.subtree(k).wins().subset_of(t.wins()),
        t.subtree(k).wf(),
    decreases t,
{
    if let KTree::Split { key, first, second, .. } = t {
        if key != k {
            if first.keys().contains(k) {
                lemma_subtree(*first, k);
            } else {
                lemma_subtree(*second, k);
            }
        }
    }
}

pub proof fn lemma_lookup(t: KTree, m: Map<u64, Node>, parent: Option<u64>, k: u64)
    requires
        t.repr(m, parent),
        t.keys().contains(k),
    ensures
        m.contains_key(k),
        m[k] == t.subtree(k).node(t.parent_in(k, parent)),
    decreases t,
{
    if let KTree::Split { key, first, second, .. } = t {
        if key != k {
            if first.keys().contains(k) {
                lemma_lookup(*first, m, Some(key), k);
            } else {
                lemma_lookup(*second, m, Some(key), k);
            }
        }
    }
}

/// The parent of a node other than the root is a split with that node as a child.
pub proof fn lemma_parent(t: KTree, parent: Option<u64>, k: u64)
    requires
        t.wf(),
        t.keys().contains(k),
        k != t.key(),
    ensures
        t.parent_in(k, parent) is Some,
        t.keys().contains(t.parent_in(k, parent)->0),
        t.subtree(t.parent_in(k, parent)->0) is Split,
        ({
            let p = t.subtree(t.parent_in(k, parent)->0);
            ||| p->first.key() == k
            ||| p->second.key() == k
        }),
        !t.subtree(k).keys().contains(t.parent_in(k, parent)->0),
    decreases t,
{
    if let KTree::Split { key, first, second, .. } = t {
        lemma_finite(*first);
        lemma_finite(*second);
        if first.keys().contains(k) {
            if first.key() != k {
                lemma_parent(*first, Some(key), k);
                lemma_subtree(*first, first.parent_in(k, Some(key))->0);
            } else {
                lemma_subtree(*first, k);
            }
        } else {
            if second.key() != k {
                lemma_parent(*second, Some(key), k);
                lemma_subtree(*second, second.parent_in(k, Some(key))->0);
            } else {
                lemma_subtree(*second, k);
            }
        }
    }
}

/// Every subtree stands for itself in the arena, under its parent.
pub proof fn lemma_repr_subtree(t: KTree, m: Map<u64, Node>, parent: Option<u64>, k: u64)
    requires
        t.repr(m, parent),
        t.keys().contains(k),
    ensures
        t.subtree(k).repr(m, t.parent_in(k, parent)),
    decreases t,
{
    if let KTree::Split { key, first, second, .. } = t {
        if key != k {
            if first.keys().contains(k) {
                lemma_repr_subtree(*first, m, Some(key), k);
            } else {
                lemma_repr_subtree(*second, m, Some(key), k);
            }
        }
    }
}

/// Nodes of the arena outside the tree do not matter to it.
pub proof fn lemma_frame(t: KTree, m: Map<u64, Node>, m2: Map<u64, Node>, parent: Option<u64>)
    requires
        t.repr(m, parent),
        forall|x: u64| #[trigger] t.keys().contains(x) ==> m2.contains_key(x) && m2[x] == m[x],
    ensures
        t.repr(m2, parent),
    decreases t,
{
    lemma_finite(t);
    if let KTree::Split { key, first, second, .. } = t {
        assert forall|x: u64| #[trigger] first.keys().contains(x) implies m2.contains_key(x) && m2[x]
            == m[x] by {
            assert(t.keys().contains(x));
        }
        assert forall|x: u64| #[trigger] second.keys().contains(x) implies m2.contains_key(x) && m2[x]
            == m[x] by {
            assert(t.keys().contains(x));
        }
        lemma_frame(*first, m, m2, Some(key));
        lemma_frame(*second, m, m2, Some(key));
    }
}

pub proof fn lemma_replace_key(t: KTree, k: u64, u: KTree)
    ensures
        t.replace(k, u).key() == if t.key() == k { u.key() } else { t.key() },
{
}

pub proof fn lemma_replace_sets(t: KTree, k: u64, u: KTree)
    requires
        t.wf(),
        t.keys().contains(k),
    ensures
        t.replace(k, u).keys() == t.keys().difference(t.subtree(k).keys()).union(u.keys()),
        t.replace(k, u).wins() == t.wins().difference(t.subtree(k).wins()).union(u.wins()),
    decreases t,
{
    lemma_finite(t);
    if t.key() != k {
        if let KTree::Split { key, first, second, .. } = t {
            lemma_finite(*first);
            lemma_finite(*second);
            if first.keys().contains(k) {
                lemma_replace_sets(*first, k, u);
                lemma_subtree(*first, k);
                assert(t.replace(k, u).keys() =~= t.keys().difference(t.subtree(k).keys()).union(
                    u.keys(),
                ));
                assert(t.replace(k, u).wins() =~= t.wins().difference(t.subtree(k).wins()).union(
                    u.wins(),
                ));
            } else {
                lemma_replace_sets(*second, k, u);
                lemma_subtree(*second, k);
                assert(t.replace(k, u).keys() =~= t.keys().difference(t.subtree(k).keys()).union(
                    u.keys(),
                ));
                assert(t.replace(k, u).wins() =~= t.wins().difference(t.subtree(k).wins()).union(
                    u.wins(),
                ));
            }
        }
    } else {
        assert(t.keys().difference(t.subtree(k).keys()) =~= Set::empty());
        assert(t.wins().difference(t.subtree(k).wins()) =~= Set::empty());
        assert(t.keys().difference(t.subtree(k).keys()).union(u.keys()) =~= u.keys());
        assert(t.wins().difference(t.subtree(k).wins()).union(u.wins()) =~= u.wins());
    }
}

/// Replacing a subtree by one whose handles and windows are new to the rest
/// of the tree keeps the tree well formed.
pub proof fn lemma_replace_wf(t: KTree, k: u64, u: KTree)
    requires
        t.wf(),
        u.wf(),
        t.keys().contains(k),
        u.keys().disjoint(t.keys().difference(t.subtree(k).keys())),
        u.wins().disjoint(t.wins().difference(t.subtree(k).wins())),
    ensures
        t.replace(k, u).wf(),
    decreases t,
{
    lemma_finite(t);
    if t.key() != k {
        if let KTree::Split { key, first, second, .. } = t {
            if first.keys().contains(k) {
                lemma_subtree(*first, k);
                lemma_replace_sets(*first, k, u);
                lemma_replace_wf(*first, k, u);
            } else {
                lemma_subtree(*second, k);
                lemma_replace_sets(*second, k, u);
                lemma_replace_wf(*second, k, u);
            }
        }
    }
}

/// The arena after replacing the subtree at `k`: it stands for the new tree when
/// it stands for `u` under the old parent of `k`, keeps every other node of the
/// old tree, and relinks that parent to the root of `u`.
pub proof fn lemma_replace_repr(
    t: KTree,
    m: Map<u64, Node>,
    m2: Map<u64, Node>,
    parent: Option<u64>,
    k: u64,
    u: KTree,
)
    requires
        t.wf(),
        t.repr(m, parent),
        t.keys().contains(k),
        parent is Some ==> !t.keys().contains(parent->0),
        u.repr(m2, t.parent_in(k, parent)),
        forall|x: u64|
            #[trigger] t.keys().contains(x) && !t.subtree(k).keys().contains(x) && Some(x) != t.parent_in(
                k,
                parent,
            ) ==> m2.contains_key(x) && m2[x] == m[x],
        t.parent_in(k, parent) is Some && t.keys().contains(t.parent_in(k, parent)->0) ==> {
            let pk = t.parent_in(k, parent)->0;
            m2.contains_key(pk) && m2[pk] == relink(m[pk], k, u.key())
        },
    ensures
        t.replace(k, u).repr(m2, parent),
    decreases t,
{
    lemma_finite(t);
    if t.key() != k {
        if let KTree::Split { key, orientation, ratio, first, second } = t {
            lemma_finite(*first);
            lemma_finite(*second);
            assert(first.keys().subset_of(t.keys()));
            assert(second.keys().subset_of(t.keys()));
            if first.keys().contains(k) {
                lemma_subtree(*first, k);
                assert forall|x: u64|
                    #[trigger] first.keys().contains(x) && !first.subtree(k).keys().contains(x) && Some(x)
                        != first.parent_in(k, Some(key)) implies m2.contains_key(x) && m2[x]
                    == m[x] by {
                    assert(t.keys().contains(x));
                }
                lemma_replace_repr(*first, m, m2, Some(key), k, u);
                assert forall|x: u64| second.keys().contains(x) implies m2.contains_key(x)
                    && m2[x] == m[x] by {
                    if first.key() != k {
                        lemma_parent(*first, Some(key), k);
                    }
                }
                lemma_frame(*second, m, m2, Some(key));
                if first.key() != k {
                    lemma_parent(*first, Some(key), k);
                }
                lemma_replace_key(*first, k, u);
            } else {
                lemma_subtree(*second, k);
                assert forall|x: u64|
                    #[trigger] second.keys().contains(x) && !second.subtree(k).keys().contains(x) && Some(x)
                        != second.parent_in(k, Some(key)) implies m2.contains_key(x) && m2[x]
                    == m[x] by {
                    assert(t.keys().contains(x));
                }
                lemma_replace_repr(*second, m, m2, Some(key), k, u);
                assert forall|x: u64| #[trigger] first.keys().contains(x) implies m2.contains_key(x) && m2[x]
                    == m[x] by {
                    if second.key() != k {
                        lemma_parent(*second, Some(key), k);
                    }
                }
                lemma_frame(*first, m, m2, Some(key));
                if second.key() != k {
                    lemma_parent(*second, Some(key), k);
                }
                lemma_replace_key(*second, k, u);
            }
        }
    }
}

} // verus!
