use vstd::prelude::*;
use vstd::string::*;

use crate::arena::{
    arena_insert, arena_len, arena_new, arena_node, arena_node_mut, arena_nodes, arena_remove,
    Node, NodeArena, NodeKind,
};
pub use crate::geometry::Orientation;
use crate::geometry::{spec_area, spec_inset, Rect};
use crate::ktree::{
    lemma_finite, lemma_lookup, lemma_subtree, other, resized_ratio, same_axis, KTree, TreeView,
};
use crate::protocol::{Config, Direction, Placement, WindowId};

verus! {

/// Smallest and largest split ratio a tree keeps, scaled by `RATIO_ONE`.
pub const MIN_RATIO: u32 = 100_000;
pub const MAX_RATIO: u32 = 900_000;

/// The most windows one tree takes: beyond it the node arena could fill up.
pub const MAX_WINDOWS: usize = 0x7fff_0000;

#[derive(Debug, PartialEq, Eq)]
pub enum TreeError {
    DuplicateWindow(WindowId),
    UnknownWindow(WindowId),
    CannotSplit { width: i32, height: i32 },
}

/// A binary split tree of tiled windows: every leaf holds one window, every
/// inner node divides its area between exactly two children.
pub struct LayoutTree {
    pub(crate) root: Option<u64>,
    pub(crate) nodes: NodeArena,
    pub(crate) windows: Vec<(WindowId, u64)>,
    pub(crate) last_focused: Option<WindowId>,
    pub(crate) shape: Ghost<Option<KTree>>,
}

/// The lookup table names each window of `t` once, with the handle of its leaf.
pub open spec fn table_ok(tab: Seq<(WindowId, u64)>, t: KTree) -> bool {
    &&& forall|i: int, j: int|
        0 <= i < tab.len() && 0 <= j < tab.len() && i != j ==> #[trigger] tab[i].0@ != #[trigger] tab[j].0@
    &&& forall|i: int|
        0 <= i < tab.len() ==> {
            &&& t.keys().contains(#[trigger] tab[i].1)
            &&& t.subtree(tab[i].1) is Leaf
            &&& t.subtree(tab[i].1)->window@ == tab[i].0@
        }
    &&& forall|w: Seq<char>| #[trigger]
        t.wins().contains(w) ==> exists|i: int| 0 <= i < tab.len() && tab[i].0@ == w
}

/// The windows and rectangles of a list of placements.
pub open spec fn placement_views(s: Seq<Placement>) -> Seq<(Seq<char>, Rect)> {
    s.map_values(|p: Placement| (p.window_id@, p.rect))
}

/// The windows and rectangles of a list of pairs.
pub open spec fn rect_views(s: Seq<(WindowId, Rect)>) -> Seq<(Seq<char>, Rect)> {
    s.map_values(|p: (WindowId, Rect)| (p.0@, p.1))
}

/// Where each window of `v` goes in `work_area`, `outer_gap` pixels inside
/// its edges and `inner_gap` pixels between windows.
pub open spec fn spec_layout(
    v: Option<TreeView>,
    work_area: Rect,
    outer_gap: i32,
    inner_gap: i32,
) -> Seq<(Seq<char>, Rect)> {
    match v {
        None => Seq::empty(),
        Some(t) => t.layout(spec_inset(work_area, outer_gap), inner_gap),
    }
}

pub open spec fn view_wins(v: Option<TreeView>) -> Set<Seq<char>> {
    match v {
        None => Set::empty(),
        Some(t) => t.wins(),
    }
}

impl View for LayoutTree {
    type V = Option<TreeView>;

    closed spec fn view(&self) -> Option<TreeView> {
        match self.shape@ {
            None => None,
            Some(t) => Some(t.view()),
        }
    }
}

impl LayoutTree {
    /// The window that the next insertion splits when no focused window is given.
    pub closed spec fn focus_hint(&self) -> Option<Seq<char>> {
        match self.last_focused {
            None => None,
            Some(w) => Some(w@),
        }
    }

    pub closed spec fn wf(&self) -> bool {
        match (self.root, self.shape@) {
            (None, None) => {
                &&& arena_nodes(self.nodes).dom() == Set::<u64>::empty()
                &&& self.windows@.len() == 0
            },
            (Some(r), Some(t)) => {
                &&& t.key() == r
                &&& t.wf()
                &&& t.repr(arena_nodes(self.nodes), None)
                &&& arena_nodes(self.nodes).dom() == t.keys()
                &&& table_ok(self.windows@, t)
            },
            _ => false,
        }
    }

    /// How many windows the tree holds.
    pub closed spec fn spec_len(&self) -> nat {
        self.windows@.len()
    }

    /// The ghost shape of a non-empty tree.
    pub(crate) closed spec fn ktree(&self) -> KTree {
        self.shape@->0
    }

    pub fn new() -> (r: LayoutTree)
        ensures
            r.wf(),
            r@ == None::<TreeView>,
            r.focus_hint() == None::<Seq<char>>,
    {
        LayoutTree {
            root: None,
            nodes: arena_new(),
            windows: Vec::new(),
            last_focused: None,
            shape: Ghost(None),
        }
    }

    pub(crate) proof fn lemma_len(&self)
        requires
            self.wf(),
        ensures
            self.spec_len() == view_wins(self@).len(),
            view_wins(self@).finite(),
    {
        match self.shape@ {
            None => {},
            Some(t) => {
                crate::ktree::lemma_view_wins(t);
                lemma_finite(t);
                let tab = self.windows@;
                let views = tab.map_values(|e: (WindowId, u64)| e.0@);
                assert(views.no_duplicates()) by {
                    assert forall|i: int, j: int|
                        0 <= i < views.len() && 0 <= j < views.len() && i != j implies views[i]
                        != views[j] by {
                        assert(tab[i].0@ != tab[j].0@);
                    }
                }
                assert(views.to_set() =~= t.wins()) by {
                    assert forall|w: Seq<char>| views.to_set().contains(w) implies t.wins().contains(w) by {
                        let i = choose|i: int| 0 <= i < views.len() && views[i] == w;
                        assert(tab[i].0@ == w);
                        crate::ktree_ops::lemma_leaf_window(t, tab[i].1);
                    }
                    assert forall|w: Seq<char>| t.wins().contains(w) implies views.to_set().contains(w) by {
                        let i = choose|i: int| 0 <= i < tab.len() && tab[i].0@ == w;
                        assert(views[i] == w);
                    }
                }
                views.unique_seq_to_set();
            },
        }
    }

    /// A well-formed tree holds finitely many windows, each once, and keeps
    /// its split ratios within bounds.
    pub proof fn lemma_view(&self)
        requires
            self.wf(),
        ensures
            view_wins(self@).finite(),
            self.spec_len() == view_wins(self@).len(),
            self@ is Some ==> self@->0.wf(),
    {
        self.lemma_len();
        if let Some(t) = self.shape@ {
            crate::ktree::lemma_view_wins(t);
        }
    }

    /// How many windows the tree holds.
    pub fn len(&self) -> (r: usize)
        requires
            self.wf(),
        ensures
            r == view_wins(self@).len(),
    {
        proof { self.lemma_len() }
        self.windows.len()
    }

    /// Whether the tree holds no window.
    pub fn is_empty(&self) -> (r: bool)
        requires
            self.wf(),
        ensures
            r == (self@ is None),
            r == (view_wins(self@).len() == 0),
    {
        proof {
            self.lemma_len();
            if let Some(t) = self.shape@ {
                crate::ktree::lemma_view_wins(t);
                lemma_wins_nonempty(t);
            }
        }
        self.windows.len() == 0
    }

    /// The position in the lookup table of the window `w`, if the tree holds it.
    pub(crate) fn find(&self, w: &WindowId) -> (r: Option<usize>)
        requires
            self.wf(),
        ensures
            match r {
                None => !view_wins(self@).contains(w@),
                Some(i) => i < self.windows@.len() && self.windows@[i as int].0@ == w@,
            },
            r is Some <==> view_wins(self@).contains(w@),
    {
        let mut i: usize = 0;
        while i < self.windows.len()
            invariant
                self.wf(),
                i <= self.windows@.len(),
                forall|j: int| 0 <= j < i ==> self.windows@[j].0@ != w@,
            decreases self.windows@.len() - i,
        {
            if self.windows[i].0.same(w) {
                proof {
                    let t = self.shape@->0;
                    crate::ktree::lemma_view_wins(t);
                    crate::ktree_ops::lemma_leaf_window(t, self.windows@[i as int].1);
                }
                return Some(i);
            }
            i = i + 1;
        }
        proof {
            match self.shape@ {
                None => {},
                Some(t) => {
                    crate::ktree::lemma_view_wins(t);
                    if t.wins().contains(w@) {
                        let j = choose|j: int| 0 <= j < self.windows@.len() && self.windows@[j].0@ == w@;
                        assert(self.windows@[j].0@ != w@);
                    }
                },
            }
        }
        None
    }

    /// The windows of the tree, each once, with the handles of their leaves.
    pub(crate) fn window_table(&self) -> (r: &Vec<(WindowId, u64)>)
        requires
            self.wf(),
        ensures
            forall|i: int| 0 <= i < r@.len() ==> view_wins(self@).contains(#[trigger] r@[i].0@),
            forall|w: Seq<char>| #[trigger]
                view_wins(self@).contains(w) ==> exists|i: int| 0 <= i < r@.len() && r@[i].0@ == w,
    {
        proof {
            if let Some(t) = self.shape@ {
                crate::ktree::lemma_view_wins(t);
                assert forall|i: int| 0 <= i < self.windows@.len() implies view_wins(self@).contains(
                    #[trigger] self.windows@[i].0@,
                ) by {
                    crate::ktree_ops::lemma_leaf_window(t, self.windows@[i].1);
                }
            }
        }
        &self.windows
    }

    pub fn contains(&self, window: &WindowId) -> (r: bool)
        requires
            self.wf(),
        ensures
            r == view_wins(self@).contains(window@),
    {
        self.find(window).is_some()
    }

    /// Remembers `window` as the one to split next, when the tree holds it.
    pub fn set_focused(&mut self, window: &WindowId)
        requires
            old(self).wf(),
        ensures
            final(self).wf(),
            final(self)@ == old(self)@,
            final(self).focus_hint() == if view_wins(old(self)@).contains(window@) {
                Some(window@)
            } else {
                old(self).focus_hint()
            },
    {
        if self.find(window).is_some() {
            self.last_focused = Some(window.duplicate());
        }
    }
}

impl LayoutTree {
    fn layout_node(
        &self,
        key: u64,
        rect: Rect,
        inner_gap: i32,
        output: &mut Vec<Placement>,
        Ghost(t): Ghost<KTree>,
        Ghost(parent): Ghost<Option<u64>>,
    )
        requires
            t.repr(arena_nodes(self.nodes), parent),
            t.key() == key,
        ensures
            placement_views(final(output)@) == placement_views(old(output)@) + t.view().layout(
                rect,
                inner_gap,
            ),
        decreases t,
    {
        let node = arena_node(&self.nodes, key);
        match &node.kind {
            NodeKind::Leaf { window } => {
                let ghost before = output@;
                output.push(Placement { window_id: window.duplicate(), rect });
                proof {
                    assert(placement_views(output@) =~= placement_views(before) + t.view().layout(
                        rect,
                        inner_gap,
                    ));
                }
            },
            NodeKind::Split { orientation, ratio, first, second } => {
                let parts = rect.split(*orientation, *ratio, inner_gap);
                let ghost before = output@;
                self.layout_node(*first, parts.0, inner_gap, output, Ghost(*t->first), Ghost(Some(key)));
                self.layout_node(*second, parts.1, inner_gap, output, Ghost(*t->second), Ghost(Some(key)));
                proof {
                    assert(placement_views(output@) =~= placement_views(before) + t.view().layout(
                        rect,
                        inner_gap,
                    ));
                }
            },
        }
    }

    /// Where every window of the tree goes in `work_area`: `outer_gap` pixels
    /// inside its edges, `inner_gap` pixels between windows, in tree order.
    pub fn placements(&self, work_area: Rect, outer_gap: i32, inner_gap: i32) -> (r: Vec<Placement>)
        requires
            self.wf(),
        ensures
            placement_views(r@) == spec_layout(self@, work_area, outer_gap, inner_gap),
    {
        let mut out: Vec<Placement> = Vec::new();
        match self.root {
            None => {
                assert(placement_views(out@) =~= Seq::empty());
            },
            Some(root) => {
                let ghost t = self.shape@->0;
                self.layout_node(root, work_area.inset(outer_gap), inner_gap, &mut out, Ghost(t), Ghost(None));
                assert(placement_views(Seq::<Placement>::empty()) =~= Seq::empty());
            },
        }
        out
    }

    /// The rectangle of every window, as `placements` gives them.
    pub fn rectangles(&self, work_area: Rect, outer_gap: i32, inner_gap: i32) -> (r: Vec<(WindowId, Rect)>)
        requires
            self.wf(),
        ensures
            rect_views(r@) == spec_layout(self@, work_area, outer_gap, inner_gap),
    {
        let ps = self.placements(work_area, outer_gap, inner_gap);
        let mut out: Vec<(WindowId, Rect)> = Vec::new();
        let mut i: usize = 0;
        while i < ps.len()
            invariant
                i <= ps@.len(),
                rect_views(out@) == placement_views(ps@).take(i as int),
            decreases ps@.len() - i,
        {
            let ghost old_out = out@;
            out.push((ps[i].window_id.duplicate(), ps[i].rect));
            assert(rect_views(out@) =~= rect_views(old_out).push((ps@[i as int].window_id@, ps@[i as int].rect)));
            assert(placement_views(ps@).take(i + 1) =~= placement_views(ps@).take(i as int).push(placement_views(ps@)[i as int]));
            i = i + 1;
        }
        assert(placement_views(ps@).take(i as int) =~= placement_views(ps@));
        out
    }
}

/// A layout tree spelled out: leaves with the text of their window, splits
/// with their orientation, ratio and two sides.
#[derive(Debug, PartialEq, Eq)]
pub enum Shape {
    Leaf(String),
    Split(Orientation, u32, Box<Shape>, Box<Shape>),
}

/// The tree that a shape spells out.
pub open spec fn shape_view(s: Shape) -> TreeView
    decreases s,
{
    match s {
        Shape::Leaf(w) => TreeView::Leaf(w@),
        Shape::Split(o, r, a, b) => TreeView::Split(o, r, Box::new(shape_view(*a)), Box::new(shape_view(*b))),
    }
}

impl LayoutTree {
    fn shape_node(&self, key: u64, Ghost(t): Ghost<KTree>, Ghost(parent): Ghost<Option<u64>>) -> (r: Shape)
        requires
            t.repr(arena_nodes(self.nodes), parent),
            t.key() == key,
        ensures
            shape_view(r) == t.view(),
        decreases t,
    {
        let node = arena_node(&self.nodes, key);
        match &node.kind {
            NodeKind::Leaf { window } => Shape::Leaf(window.0.clone()),
            NodeKind::Split { orientation, ratio, first, second } => {
                let a = self.shape_node(*first, Ghost(*t->first), Ghost(Some(key)));
                let b = self.shape_node(*second, Ghost(*t->second), Ghost(Some(key)));
                Shape::Split(*orientation, *ratio, Box::new(a), Box::new(b))
            },
        }
    }

    /// The tree spelled out, if it holds any window.
    pub fn shape(&self) -> (r: Option<Shape>)
        requires
            self.wf(),
        ensures
            match r {
                None => self@ is None,
                Some(s) => self@ == Some(shape_view(s)),
            },
    {
        match self.root {
            None => None,
            Some(root) => Some(self.shape_node(root, Ghost(self.shape@->0), Ghost(None))),
        }
    }

    /// How many nodes the arena holds: one per window and one per split.
    pub fn node_count(&self) -> (r: usize)
        requires
            self.wf(),
        ensures
            r == if self@ is None {
                0
            } else {
                2 * view_wins(self@).len() - 1
            },
    {
        proof {
            self.lemma_len();
            if let Some(t) = self.shape@ {
                lemma_finite(t);
                crate::ktree::lemma_key_count(t);
                crate::ktree::lemma_view_wins(t);
            }
        }
        arena_len(&self.nodes)
    }
}

impl LayoutTree {
    /// Checks the node `key` below `parent` and its descendants: parent links,
    /// distinct children and ratio bounds of splits, and that every leaf is
    /// the one that the lookup table names for its window.
    fn check_node(&self, key: u64, parent: Option<u64>, Ghost(t): Ghost<KTree>) -> (r: Result<(), String>)
        requires
            self.wf(),
            self.shape@ is Some,
            self.ktree().keys().contains(key),
            t == self.ktree().subtree(key),
            t.repr(arena_nodes(self.nodes), parent),
        ensures
            r is Ok,
        decreases t,
    {
        proof {
            lemma_subtree(self.ktree(), key);
        }
        let node = arena_node(&self.nodes, key);
        if node.parent != parent {
            return Err(String::from_str("child has incorrect parent"));
        }
        match &node.kind {
            NodeKind::Leaf { window } => {
                proof {
                    crate::ktree_ops::lemma_leaf_window(self.ktree(), key);
                    crate::ktree::lemma_view_wins(self.ktree());
                }
                match self.find(window) {
                    None => Err(String::from_str("window lookup differs from leaves")),
                    Some(i) => {
                        proof {
                            let tab = self.windows@;
                            crate::ktree_ops::lemma_leaf_unique(self.ktree(), key, tab[i as int].1);
                        }
                        if self.windows[i].1 != key {
                            Err(String::from_str("window lookup differs from leaves"))
                        } else {
                            Ok(())
                        }
                    },
                }
            },
            NodeKind::Split { ratio, first, second, .. } => {
                proof {
                    crate::ktree::lemma_subtree_child(self.ktree(), None, key);
                }
                if *first == *second {
                    return Err(String::from_str("split children are identical"));
                }
                if *ratio < MIN_RATIO || *ratio > MAX_RATIO {
                    return Err(String::from_str("split ratio is outside safe bounds"));
                }
                match self.check_node(*first, Some(key), Ghost(*t->first)) {
                    Err(e) => Err(e),
                    Ok(()) => self.check_node(*second, Some(key), Ghost(*t->second)),
                }
            },
        }
    }

    /// Checks the structure of the tree at run time. Every tree passes: the
    /// operations keep it well-formed.
    pub fn validate_invariants(&self) -> (r: Result<(), String>)
        requires
            self.wf(),
        ensures
            r is Ok,
    {
        proof {
            self.lemma_len();
        }
        match self.root {
            None => {
                if arena_len(&self.nodes) != 0 || self.windows.len() != 0 {
                    return Err(String::from_str("empty root has nodes or window lookup entries"));
                }
                Ok(())
            },
            Some(root) => {
                proof {
                    let t = self.ktree();
                    lemma_finite(t);
                    crate::ktree::lemma_subtree_self(t);
                    crate::ktree::lemma_key_count(t);
                    crate::ktree::lemma_view_wins(t);
                }
                match self.check_node(root, None, Ghost(self.ktree())) {
                    Err(e) => {
                        return Err(e);
                    },
                    Ok(()) => {},
                }
                let n: usize = self.windows.len();
                let count: usize = arena_len(&self.nodes);
                if n == 0 || count != n + (n - 1) {
                    return Err(String::from_str("arena contains unreachable nodes"));
                }
                Ok(())
            },
        }
    }
}

pub open spec fn clamp_ratio(r: u32) -> u32 {
    if r < MIN_RATIO {
        MIN_RATIO
    } else if r > MAX_RATIO {
        MAX_RATIO
    } else {
        r
    }
}

fn clamp_ratio_exec(r: u32) -> (c: u32)
    ensures
        c == clamp_ratio(r),
{
    if r < MIN_RATIO {
        MIN_RATIO
    } else if r > MAX_RATIO {
        MAX_RATIO
    } else {
        r
    }
}

impl LayoutTree {
    proof fn lemma_room(&self)
        requires
            self.wf(),
            self.spec_len() < MAX_WINDOWS,
            self.shape@ is Some,
        ensures
            arena_nodes(self.nodes).dom().finite(),
            arena_nodes(self.nodes).len() + 2 < u32::MAX - 1,
    {
        let t = self.ktree();
        self.lemma_len();
        crate::ktree::lemma_view_wins(t);
        crate::ktree::lemma_key_count(t);
        lemma_finite(t);
    }

    /// Splits the leaf of `target` along `orientation`: the target keeps the
    /// first part and `window` takes the second.
    fn split_leaf(&mut self, target: &WindowId, window: WindowId, orientation: Orientation, ratio: u32)
        requires
            old(self).wf(),
            old(self).spec_len() < MAX_WINDOWS,
            view_wins(old(self)@).contains(target@),
            !view_wins(old(self)@).contains(window@),
        ensures
            final(self).wf(),
            final(self)@ == Some(
                old(self)@->0.put_at(
                    target@,
                    TreeView::Split(
                        orientation,
                        clamp_ratio(ratio),
                        Box::new(TreeView::Leaf(target@)),
                        Box::new(TreeView::Leaf(window@)),
                    ),
                ),
            ),
            final(self).last_focused == old(self).last_focused,
    {
        let ghost t = self.ktree();
        let ghost m0 = arena_nodes(self.nodes);
        proof {
            self.lemma_room();
            lemma_finite(t);
            crate::ktree::lemma_view_wins(t);
        }
        let i = match self.find(target) {
            Some(i) => i,
            None => { return; },
        };
        let old_leaf = self.windows[i].1;
        let old_parent = arena_node(&self.nodes, old_leaf).parent;
        let ghost x = t.subtree(old_leaf)->window;
        proof {
            lemma_lookup(t, m0, None, old_leaf);
            lemma_subtree(t, old_leaf);
        }
        proof {
            assert(x@ == target@);
            assert(m0.dom().contains(old_leaf));
            assert(m0[old_leaf] == Node { parent: old_parent, kind: NodeKind::Leaf { window: x } });
        }
        let new_leaf = arena_insert(&mut self.nodes, Node { parent: None, kind: NodeKind::Leaf { window: window.duplicate() } });
        let r = clamp_ratio_exec(ratio);
        let split = arena_insert(
            &mut self.nodes,
            Node { parent: old_parent, kind: NodeKind::Split { orientation, ratio: r, first: old_leaf, second: new_leaf } },
        );
        proof {
            assert(new_leaf != old_leaf);
            assert(split != old_leaf && split != new_leaf);
        }
        arena_node_mut(&mut self.nodes, old_leaf).parent = Some(split);
        arena_node_mut(&mut self.nodes, new_leaf).parent = Some(split);
        let ghost mc = arena_nodes(self.nodes);
        proof {
            assert(mc[split] == Node { parent: old_parent, kind: NodeKind::Split { orientation, ratio: r, first: old_leaf, second: new_leaf } });
            assert(mc[old_leaf] == Node { parent: Some(split), kind: NodeKind::Leaf { window: x } });
            assert(mc[new_leaf] == Node { parent: Some(split), kind: NodeKind::Leaf { window } });
            assert(forall|k: u64| k != split && k != old_leaf && k != new_leaf && m0.dom().contains(k) ==> mc.dom().contains(k) && mc[k] == m0[k]);
        }
        match old_parent {
            Some(p) => {
                proof {
                    crate::ktree::lemma_parent(t, None, old_leaf);
                    lemma_lookup(t, m0, None, p);
                }
                let pn = arena_node(&self.nodes, p);
                let relinked = match &pn.kind {
                    NodeKind::Split { orientation: o, ratio: q, first, second } => Node {
                        parent: pn.parent,
                        kind: NodeKind::Split {
                            orientation: *o,
                            ratio: *q,
                            first: if *first == old_leaf { split } else { *first },
                            second: if *second == old_leaf { split } else { *second },
                        },
                    },
                    NodeKind::Leaf { .. } => { return; },
                };
                *arena_node_mut(&mut self.nodes, p) = relinked;
            },
            None => {
                self.root = Some(split);
            },
        }
        let ghost u = KTree::Split {
            key: split,
            orientation,
            ratio: r,
            first: Box::new(KTree::Leaf { key: old_leaf, window: x }),
            second: Box::new(KTree::Leaf { key: new_leaf, window }),
        };
        let ghost t2 = t.replace(old_leaf, u);
        self.windows.push((window, new_leaf));
        proof {
            let m2 = arena_nodes(self.nodes);
            if old_parent is Some {
                assert(old_parent->0 != split && old_parent->0 != old_leaf && old_parent->0 != new_leaf);
            }
            assert(m2[split] == mc[split]);
            assert(m2[old_leaf] == mc[old_leaf]);
            assert(m2[new_leaf] == mc[new_leaf]);
            let la = KTree::Leaf { key: old_leaf, window: x };
            let lb = KTree::Leaf { key: new_leaf, window };
            assert(la.wf() && lb.wf());
            assert(la.keys() =~= set![old_leaf]);
            assert(lb.keys() =~= set![new_leaf]);
            assert(la.wins() =~= set![x@]);
            assert(lb.wins() =~= set![window@]);
            assert(t.wins().contains(x@));
            assert(la.repr(m2, Some(split)));
            assert(lb.repr(m2, Some(split)));
            assert(u.wf());
            assert(u.repr(m2, t.parent_in(old_leaf, None)));
            crate::ktree::lemma_replace_repr(t, m0, m2, None, old_leaf, u);
            crate::ktree::lemma_replace_sets(t, old_leaf, u);
            assert(t.subtree(old_leaf).keys() =~= set![old_leaf]);
            assert(t.subtree(old_leaf).wins() =~= set![x@]);
            crate::ktree::lemma_replace_wf(t, old_leaf, u);
            assert(m2.dom() =~= t2.keys());
            crate::ktree_ops::lemma_view_put(t, old_leaf, u);
            assert(la.view() == TreeView::Leaf(target@));
            assert(lb.view() == TreeView::Leaf(window@));
            assert(u->first.keys().contains(old_leaf));
            assert(!u->first.keys().contains(new_leaf));
            assert(lb.subtree(new_leaf) == lb);
            assert(la.subtree(old_leaf) == la);
            assert(u.subtree(new_leaf) == lb);
            assert(u.subtree(old_leaf) == la);
            assert(u.view() == TreeView::Split(
                orientation,
                r,
                Box::new(TreeView::Leaf(target@)),
                Box::new(TreeView::Leaf(window@)),
            ));
            if old_parent is None {
                if old_leaf != t.key() {
                    crate::ktree::lemma_parent(t, None, old_leaf);
                }
            }
            self.shape = Ghost(Some(t2));
            let tab = self.windows@;
            assert(table_ok(tab, t2)) by {
                assert forall|j: int| 0 <= j < tab.len() implies {
                    &&& t2.keys().contains(#[trigger] tab[j].1)
                    &&& t2.subtree(tab[j].1) is Leaf
                    &&& t2.subtree(tab[j].1)->window@ == tab[j].0@
                } by {
                    if j < tab.len() - 1 {
                        assert(tab[j] == old(self).windows@[j]);
                        assert(t.keys().contains(tab[j].1));
                    }
                    if j == tab.len() - 1 {
                        crate::ktree_ops::lemma_replace_finds_new(t, old_leaf, u, new_leaf);
                    } else if tab[j].1 == old_leaf {
                        crate::ktree_ops::lemma_replace_finds_new(t, old_leaf, u, old_leaf);
                    } else {
                        crate::ktree_ops::lemma_replace_keeps_leaf(t, old_leaf, u, tab[j].1);
                    }
                }
                assert forall|a: int, b: int|
                    0 <= a < tab.len() && 0 <= b < tab.len() && a != b implies #[trigger] tab[a].0@ != #[trigger] tab[b].0@ by {
                    if a == tab.len() - 1 {
                        crate::ktree_ops::lemma_leaf_window(t, tab[b].1);
                    } else if b == tab.len() - 1 {
                        crate::ktree_ops::lemma_leaf_window(t, tab[a].1);
                    }
                }
                assert forall|w: Seq<char>| #[trigger] t2.wins().contains(w) implies exists|j: int|
                    0 <= j < tab.len() && tab[j].0@ == w by {
                    if w == window@ {
                        assert(tab[tab.len() - 1].0@ == w);
                    } else {
                        assert(t.wins().contains(w));
                        let j = choose|j: int| 0 <= j < old(self).windows@.len() && old(self).windows@[j].0@ == w;
                        assert(tab[j].0@ == w);
                    }
                }
            }
        }
    }
}

/// Whether dividing `r` along `o` gives two parts: the side that the split
/// cuts is at least two pixels long.
pub open spec fn split_fits(r: Rect, o: Orientation) -> bool {
    match o {
        Orientation::Horizontal => r.width > 1,
        Orientation::Vertical => r.height > 1,
    }
}

/// The orientation tried first when `r` is split: vertical for a rectangle
/// taller than wide when `smart_split` is on, else horizontal.
pub open spec fn preferred_orientation(r: Rect, smart_split: bool) -> Orientation {
    if smart_split && r.height > r.width {
        Orientation::Vertical
    } else {
        Orientation::Horizontal
    }
}

/// The position of the first entry of largest area in `ps`.
pub open spec fn first_largest(ps: Seq<(Seq<char>, Rect)>) -> int
    decreases ps.len(),
{
    if ps.len() <= 1 {
        0
    } else {
        let b = first_largest(ps.drop_last());
        if spec_area(ps.last().1) > spec_area(ps[b].1) {
            ps.len() - 1
        } else {
            b
        }
    }
}

/// The rectangle listed for `w` in `ps`.
pub open spec fn rect_of(ps: Seq<(Seq<char>, Rect)>, w: Seq<char>) -> Rect {
    ps[choose|i: int| 0 <= i < ps.len() && ps[i].0 == w].1
}

/// The text of an optional window.
pub open spec fn opt_view(w: Option<&WindowId>) -> Option<Seq<char>> {
    match w {
        Some(x) => Some(x@),
        None => None,
    }
}

/// The window whose leaf a new window splits: the focused window when the
/// tree holds it, else the window focused last when the tree holds it, else
/// the first window of largest area in the layout `ps` of the tree.
pub open spec fn insert_target(
    v: TreeView,
    hint: Option<Seq<char>>,
    focused: Option<Seq<char>>,
    ps: Seq<(Seq<char>, Rect)>,
) -> Seq<char> {
    if focused is Some && v.wins().contains(focused->0) {
        focused->0
    } else if hint is Some && v.wins().contains(hint->0) {
        hint->0
    } else {
        ps[first_largest(ps)].0
    }
}

/// What tiling a window into a non-empty tree does: split the leaf of a
/// window along an orientation, or refuse because the rectangle of that
/// leaf is too small to divide along either axis.
pub enum InsertPlan {
    SplitLeaf(Seq<char>, Orientation),
    Refuse(Rect),
}

/// The plan for tiling a window into `v` laid out in `work_area`: the target
/// leaf is split along the preferred orientation, unless it is too small to
/// divide along either axis.
pub open spec fn insert_plan(
    v: TreeView,
    hint: Option<Seq<char>>,
    focused: Option<Seq<char>>,
    work_area: Rect,
    config: Config,
) -> InsertPlan {
    let ps = v.layout(spec_inset(work_area, config.outer_gap), config.inner_gap);
    let target = insert_target(v, hint, focused, ps);
    let tr = rect_of(ps, target);
    let preferred = preferred_orientation(tr, config.smart_split);
    if split_fits(tr, preferred) || split_fits(tr, other(preferred)) {
        InsertPlan::SplitLeaf(target, preferred)
    } else {
        InsertPlan::Refuse(tr)
    }
}

/// The tree once `w` is tiled into `v`, or the rectangle of the target leaf
/// when no split of it fits.
pub open spec fn insert_outcome(
    v: Option<TreeView>,
    hint: Option<Seq<char>>,
    w: Seq<char>,
    focused: Option<Seq<char>>,
    work_area: Rect,
    config: Config,
) -> Result<TreeView, Rect> {
    match v {
        None => Ok(TreeView::Leaf(w)),
        Some(t) => match insert_plan(t, hint, focused, work_area, config) {
            InsertPlan::SplitLeaf(target, o) => Ok(
                t.put_at(
                    target,
                    TreeView::Split(
                        o,
                        clamp_ratio(config.split_ratio),
                        Box::new(TreeView::Leaf(target)),
                        Box::new(TreeView::Leaf(w)),
                    ),
                ),
            ),
            InsertPlan::Refuse(tr) => Err(tr),
        },
    }
}

fn largest_index(rects: &Vec<(WindowId, Rect)>) -> (b: usize)
    requires
        rects@.len() >= 1,
    ensures
        b < rects@.len(),
        b == first_largest(rect_views(rects@)),
{
    let ghost ps = rect_views(rects@);
    let mut b: usize = 0;
    let mut best: i64 = rects[0].1.area();
    let mut i: usize = 1;
    while i < rects.len()
        invariant
            ps == rect_views(rects@),
            1 <= i <= rects@.len(),
            b < i,
            b == first_largest(ps.take(i as int)),
            best == spec_area(rects@[b as int].1),
        decreases rects@.len() - i,
    {
        let a = rects[i].1.area();
        proof {
            assert(ps.take(i + 1).drop_last() =~= ps.take(i as int));
            assert(ps.take(i + 1).last() == ps[i as int]);
            assert(ps.take(i + 1)[b as int] == ps[b as int]);
        }
        if a > best {
            b = i;
            best = a;
        }
        i = i + 1;
    }
    proof {
        assert(ps.take(i as int) =~= ps);
    }
    b
}

fn rect_lookup(rects: &Vec<(WindowId, Rect)>, w: &WindowId) -> (r: Rect)
    requires
        crate::navigation::ids_distinct(rect_views(rects@)),
        exists|i: int| 0 <= i < rects@.len() && rects@[i].0@ == w@,
    ensures
        r == rect_of(rect_views(rects@), w@),
{
    let ghost ps = rect_views(rects@);
    let n: usize = rects.len();
    let mut i: usize = 0;
    while !rects[i].0.same(w)
        invariant
            n == rects@.len(),
            i < rects@.len(),
            exists|j: int| i <= j < rects@.len() && rects@[j].0@ == w@,
        decreases rects@.len() - i,
    {
        proof {
            let j = choose|j: int| i <= j < rects@.len() && rects@[j].0@ == w@;
            assert(j != i);
            assert(i + 1 < rects@.len());
        }
        i = i + 1;
    }
    proof {
        assert(ps[i as int].0 == w@);
        let c = choose|j: int| 0 <= j < ps.len() && ps[j].0 == w@;
        assert(ps[c].0 == ps[i as int].0);
    }
    rects[i].1
}

fn preferred_exec(r: Rect, smart_split: bool) -> (o: Orientation)
    ensures
        o == preferred_orientation(r, smart_split),
{
    if smart_split && r.height > r.width {
        Orientation::Vertical
    } else {
        Orientation::Horizontal
    }
}

fn other_orientation(o: Orientation) -> (r: Orientation)
    ensures
        r == other(o),
{
    match o {
        Orientation::Horizontal => Orientation::Vertical,
        Orientation::Vertical => Orientation::Horizontal,
    }
}

fn fits_exec(r: Rect, o: Orientation) -> (b: bool)
    ensures
        b == split_fits(r, o),
{
    match o {
        Orientation::Horizontal => r.width > 1,
        Orientation::Vertical => r.height > 1,
    }
}

impl LayoutTree {
    /// Tiles `window` by splitting the leaf of the target window (see
    /// `insert_target`); refuses when that leaf is too small to split.
    pub fn insert(
        &mut self,
        window: WindowId,
        focused: Option<&WindowId>,
        work_area: Rect,
        config: &Config,
    ) -> (r: Result<(), TreeError>)
        requires
            old(self).wf(),
            old(self).spec_len() < MAX_WINDOWS,
        ensures
            final(self).wf(),
            view_wins(old(self)@).contains(window@) ==> {
                &&& r == Err::<(), TreeError>(TreeError::DuplicateWindow(window))
                &&& final(self)@ == old(self)@
                &&& final(self).focus_hint() == old(self).focus_hint()
            },
            !view_wins(old(self)@).contains(window@) ==> match insert_outcome(
                old(self)@,
                old(self).focus_hint(),
                window@,
                opt_view(focused),
                work_area,
                *config,
            ) {
                Ok(t) => {
                    &&& r is Ok
                    &&& final(self)@ == Some(t)
                    &&& final(self).focus_hint() == Some(window@)
                },
                Err(tr) => {
                    &&& r == Err::<(), TreeError>(
                        TreeError::CannotSplit { width: tr.width, height: tr.height },
                    )
                    &&& final(self)@ == old(self)@
                    &&& final(self).focus_hint() == old(self).focus_hint()
                },
            },
    {
        if self.contains(&window) {
            return Err(TreeError::DuplicateWindow(window));
        }
        if self.root.is_none() {
            let k = arena_insert(&mut self.nodes, Node { parent: None, kind: NodeKind::Leaf { window: window.duplicate() } });
            self.root = Some(k);
            self.windows.push((window.duplicate(), k));
            proof {
                let t = KTree::Leaf { key: k, window };
                assert(t.keys() =~= set![k]);
                assert(t.wins() =~= set![window@]);
                assert(arena_nodes(self.nodes).dom() =~= t.keys());
                assert(t.subtree(k) == t);
                self.shape = Ghost(Some(t));
                assert(table_ok(self.windows@, t)) by {
                    assert forall|w: Seq<char>| #[trigger] t.wins().contains(w) implies exists|j: int|
                        0 <= j < self.windows@.len() && self.windows@[j].0@ == w by {
                        assert(self.windows@[0].0@ == w);
                    }
                }
            }
            self.last_focused = Some(window);
            return Ok(());
        }
        let ghost v = self@->0;
        let ghost ps = v.layout(spec_inset(work_area, config.outer_gap), config.inner_gap);
        let rects = self.rectangles(work_area, config.outer_gap, config.inner_gap);
        proof {
            crate::ktree::lemma_layout_windows(v, spec_inset(work_area, config.outer_gap), config.inner_gap);
        }
        let mut chosen: Option<WindowId> = None;
        match focused {
            Some(f) => {
                if self.contains(f) {
                    chosen = Some(f.duplicate());
                }
            },
            None => {},
        }
        if chosen.is_none() {
            match &self.last_focused {
                Some(l) => {
                    if self.contains(l) {
                        chosen = Some(l.duplicate());
                    }
                },
                None => {},
            }
        }
        let target = match chosen {
            Some(c) => c,
            None => {
                let b = largest_index(&rects);
                proof {
                    let fst = ps.map_values(|p: (Seq<char>, Rect)| p.0);
                    assert(fst[b as int] == ps[b as int].0);
                    assert(v.order().to_set().contains(ps[b as int].0));
                }
                rects[b].0.duplicate()
            },
        };
        assert(target@ == insert_target(v, self.focus_hint(), opt_view(focused), ps));
        assert(v.wins().contains(target@));
        proof {
            self.lemma_view();
            crate::tree_laws::lemma_layout_entries(self@, work_area, config.outer_gap, config.inner_gap);
            let i = choose|i: int| 0 <= i < ps.len() && ps[i].0 == target@;
            assert(rect_views(rects@)[i].0 == rects@[i].0@);
        }
        let target_rect = rect_lookup(&rects, &target);
        let preferred = preferred_exec(target_rect, config.smart_split);
        let alternate = other_orientation(preferred);
        if fits_exec(target_rect, preferred) || fits_exec(target_rect, alternate) {
            self.split_leaf(&target, window.duplicate(), preferred, config.split_ratio);
        } else {
            return Err(TreeError::CannotSplit { width: target_rect.width, height: target_rect.height });
        }
        self.last_focused = Some(window);
        Ok(())
    }
}

impl LayoutTree {
    /// Takes `window` out of the tree; its parent split gives way to the
    /// window's sibling, or the tree becomes empty.
    pub fn remove(&mut self, window: &WindowId) -> (r: Result<(), TreeError>)
        requires
            old(self).wf(),
        ensures
            final(self).wf(),
            !view_wins(old(self)@).contains(window@) ==> {
                &&& r == Err::<(), TreeError>(TreeError::UnknownWindow(*window))
                &&& final(self)@ == old(self)@
                &&& final(self).focus_hint() == old(self).focus_hint()
            },
            view_wins(old(self)@).contains(window@) ==> {
                &&& r is Ok
                &&& final(self)@ == old(self)@->0.remove(window@)
                &&& if old(self).focus_hint() == Some(window@) {
                    match final(self).focus_hint() {
                        None => final(self)@ is None,
                        Some(h) => view_wins(final(self)@).contains(h),
                    }
                } else {
                    final(self).focus_hint() == old(self).focus_hint()
                }
            },
    {
        let i = match self.find(window) {
            Some(i) => i,
            None => {
                return Err(TreeError::UnknownWindow(window.duplicate()));
            },
        };
        let ghost t = self.ktree();
        let ghost m0 = arena_nodes(self.nodes);
        let ghost tab0 = self.windows@;
        let leaf = self.windows[i].1;
        proof {
            lemma_finite(t);
            crate::ktree::lemma_view_wins(t);
            lemma_lookup(t, m0, None, leaf);
            lemma_subtree(t, leaf);
            crate::ktree::lemma_subtree_self(t);
        }
        let ghost x = t.subtree(leaf)->window;
        self.windows.remove(i);
        let parent = arena_node(&self.nodes, leaf).parent;
        match parent {
            None => {
                proof {
                    if leaf != t.key() {
                        crate::ktree::lemma_parent(t, None, leaf);
                    }
                    assert(t == t.subtree(leaf));
                    assert(t.keys() =~= set![leaf]);
                    assert forall|j: int| 0 <= j < tab0.len() implies #[trigger] tab0[j].1 == leaf && j == i by {
                        assert(tab0[j].1 == leaf);
                        assert(tab0[j].0@ == tab0[i as int].0@);
                    }
                    assert(tab0.len() == 1) by {
                        if tab0.len() > 1 {
                            let other = if i == 0 { 1int } else { 0int };
                            assert(tab0[other].1 == leaf);
                        }
                    }
                }
                arena_remove(&mut self.nodes, leaf);
                self.root = None;
                proof {
                    self.shape = Ghost(None);
                    assert(arena_nodes(self.nodes).dom() =~= Set::<u64>::empty());
                    assert(self.wf());
                    assert(self@ == old(self)@->0.remove(window@));
                }
            },
            Some(p) => {
                proof {
                    crate::ktree::lemma_parent(t, None, leaf);
                    lemma_lookup(t, m0, None, p);
                    lemma_subtree(t, p);
                    crate::ktree::lemma_subtree_child(t, None, p);
                }
                let ghost sp = t.subtree(p);
                let pn = arena_node(&self.nodes, p);
                let (sibling, grand) = match &pn.kind {
                    NodeKind::Split { first, second, .. } => (
                        if *first == leaf { *second } else { *first },
                        pn.parent,
                    ),
                    NodeKind::Leaf { .. } => { return Ok(()); },
                };
                let ghost sib = crate::ktree_ops::sibling_of(t, leaf);
                proof {
                    assert(sib.key() == sibling);
                    assert(t.subtree(sibling) == sib);
                    lemma_lookup(t, m0, None, sibling);
                    assert(t.parent_in(sibling, None) == Some(p));
                    assert(grand == t.parent_in(p, None));
                    if grand is Some {
                        crate::ktree::lemma_parent(t, None, p);
                        lemma_lookup(t, m0, None, grand->0);
                    } else {
                        if p != t.key() {
                            crate::ktree::lemma_parent(t, None, p);
                        }
                    }
                    assert(sp.keys().contains(sibling));
                    assert(sp.keys().contains(leaf));
                }
                arena_node_mut(&mut self.nodes, sibling).parent = grand;
                match grand {
                    Some(g) => {
                        let gn = arena_node(&self.nodes, g);
                        let relinked = match &gn.kind {
                            NodeKind::Split { orientation: o, ratio: q, first, second } => Node {
                                parent: gn.parent,
                                kind: NodeKind::Split {
                                    orientation: *o,
                                    ratio: *q,
                                    first: if *first == p { sibling } else { *first },
                                    second: if *second == p { sibling } else { *second },
                                },
                            },
                            NodeKind::Leaf { .. } => { return Ok(()); },
                        };
                        *arena_node_mut(&mut self.nodes, g) = relinked;
                    },
                    None => {
                        self.root = Some(sibling);
                    },
                }
                arena_remove(&mut self.nodes, leaf);
                arena_remove(&mut self.nodes, p);
                let ghost t2 = t.replace(p, sib);
                proof {
                    let m2 = arena_nodes(self.nodes);
                    lemma_remove_parts(t, m0, m2, leaf, p, grand, tab0, i as int);
                    self.shape = Ghost(Some(t2));
                    assert(self.wf());
                    assert(self@ == old(self)@->0.remove(window@));
                }
            },
        }
        if match &self.last_focused { Some(l) => l.same(window), None => false } {
            if self.windows.len() > 0 {
                self.last_focused = Some(self.windows[0].0.duplicate());
                proof {
                    let t2 = self.ktree();
                    crate::ktree_ops::lemma_leaf_window(t2, self.windows@[0].1);
                    crate::ktree::lemma_view_wins(t2);
                }
            } else {
                self.last_focused = None;
                proof {
                    if self.shape@ is Some {
                        let t2 = self.ktree();
                        lemma_wins_nonempty(t2);
                        lemma_finite(t2);
                        let w = t2.wins().choose();
                        assert(t2.wins().contains(w));
                    }
                }
            }
        }
        Ok(())
    }
}

/// The arena and lookup table after a window below the root leaves: the
/// leaf and its parent are gone, the sibling hangs where the parent hung.
proof fn lemma_remove_parts(
    t: KTree,
    m0: Map<u64, Node>,
    m2: Map<u64, Node>,
    leaf: u64,
    p: u64,
    grand: Option<u64>,
    tab0: Seq<(WindowId, u64)>,
    i: int,
)
    requires
        t.wf(),
        t.repr(m0, None),
        m0.dom() == t.keys(),
        table_ok(tab0, t),
        0 <= i < tab0.len(),
        tab0[i].1 == leaf,
        t.keys().contains(leaf),
        t.subtree(leaf) is Leaf,
        leaf != t.key(),
        t.parent_in(leaf, None) == Some(p),
        grand == t.parent_in(p, None),
        ({
            let sibling = crate::ktree_ops::sibling_of(t, leaf).key();
            let m1 = m0.insert(sibling, Node { parent: grand, kind: m0[sibling].kind });
            let mg = match grand {
                Some(g) => m1.insert(g, relink_node(m1[g], p, sibling)),
                None => m1,
            };
            m2 == mg.remove(leaf).remove(p)
        }),
    ensures
        ({
            let sib = crate::ktree_ops::sibling_of(t, leaf);
            let t2 = t.replace(p, sib);
            &&& t2.wf()
            &&& t2.repr(m2, None)
            &&& m2.dom() == t2.keys()
            &&& table_ok(tab0.remove(i), t2)
            &&& t.view().remove(tab0[i].0@) == Some(t2.view())
            &&& t2.key() == if grand is None { sib.key() } else { t.key() }
        }),
{
    let sib = crate::ktree_ops::sibling_of(t, leaf);
    let sibling = sib.key();
    let sp = t.subtree(p);
    let t2 = t.replace(p, sib);
    lemma_finite(t);
    crate::ktree::lemma_parent(t, None, leaf);
    lemma_subtree(t, p);
    lemma_subtree(t, leaf);
    crate::ktree::lemma_subtree_child(t, None, p);
    lemma_lookup(t, m0, None, sibling);
    lemma_lookup(t, m0, None, leaf);
    lemma_subtree(t, sibling);
    let lf = t.subtree(leaf);
    assert(lf.keys() =~= set![leaf]);
    assert(sp.keys() =~= sib.keys().insert(leaf).insert(p));
    assert(sp.wins() =~= sib.wins() + lf.wins());
    assert(lf.wins() =~= set![lf->window@]);
    if grand is Some {
        crate::ktree::lemma_parent(t, None, p);
        lemma_lookup(t, m0, None, grand->0);
    } else {
        if p != t.key() {
            crate::ktree::lemma_parent(t, None, p);
        }
    }
    // the sibling under its new parent
    assert forall|x: u64| #[trigger] sib.keys().contains(x) && x != sibling implies m2.contains_key(x) && m2[x] == m0[x] by {
        assert(sp.keys().contains(x));
    }
    crate::ktree::lemma_repr_subtree(t, m0, None, sibling);
    lemma_repr_reparent(sib, m0, m2, Some(p), grand);
    crate::ktree::lemma_replace_repr(t, m0, m2, None, p, sib);
    crate::ktree::lemma_replace_sets(t, p, sib);
    crate::ktree::lemma_replace_wf(t, p, sib);
    assert(m2.dom() =~= t2.keys());
    crate::ktree_ops::lemma_view_remove(t, leaf);
    crate::ktree::lemma_replace_key(t, p, sib);
    let tab = tab0.remove(i);
    assert(table_ok(tab, t2)) by {
        assert forall|j: int| 0 <= j < tab.len() implies {
            &&& t2.keys().contains(#[trigger] tab[j].1)
            &&& t2.subtree(tab[j].1) is Leaf
            &&& t2.subtree(tab[j].1)->window@ == tab[j].0@
        } by {
            let j0 = if j < i { j } else { j + 1 };
            assert(tab[j] == tab0[j0]);
            let k = tab0[j0].1;
            assert(t.keys().contains(k));
            if k == leaf {
                assert(tab0[j0].0@ == tab0[i].0@);
            }
            if sp.keys().contains(k) {
                assert(sib.keys().contains(k));
                crate::ktree_ops::lemma_replace_finds_new(t, p, sib, k);
                crate::ktree::lemma_subtree_nested(t, None, sibling, k);
            } else {
                crate::ktree_ops::lemma_replace_keeps_leaf(t, p, sib, k);
            }
        }
        assert forall|a: int, b: int|
            0 <= a < tab.len() && 0 <= b < tab.len() && a != b implies #[trigger] tab[a].0@ != #[trigger] tab[b].0@ by {
            let a0 = if a < i { a } else { a + 1 };
            let b0 = if b < i { b } else { b + 1 };
            assert(tab[a] == tab0[a0]);
            assert(tab[b] == tab0[b0]);
        }
        assert forall|w: Seq<char>| #[trigger] t2.wins().contains(w) implies exists|j: int|
            0 <= j < tab.len() && tab[j].0@ == w by {
            assert(t.wins().contains(w));
            let j0 = choose|j: int| 0 <= j < tab0.len() && tab0[j].0@ == w;
            assert(j0 != i);
            let j = if j0 < i { j0 } else { j0 - 1 };
            assert(tab[j] == tab0[j0]);
        }
    }
}

/// A subtree stands for itself under a new parent when only its root node changed.
proof fn lemma_repr_reparent(
    s: KTree,
    m: Map<u64, Node>,
    m2: Map<u64, Node>,
    old_parent: Option<u64>,
    new_parent: Option<u64>,
)
    requires
        s.wf(),
        s.repr(m, old_parent),
        m2.contains_key(s.key()),
        m2[s.key()] == s.node(new_parent),
        forall|x: u64| #[trigger] s.keys().contains(x) && x != s.key() ==> m2.contains_key(x) && m2[x] == m[x],
    ensures
        s.repr(m2, new_parent),
{
    if let KTree::Split { key, first, second, .. } = s {
        assert forall|x: u64| #[trigger] first.keys().contains(x) implies m2.contains_key(x) && m2[x] == m[x] by {
            assert(s.keys().contains(x));
        }
        assert forall|x: u64| #[trigger] second.keys().contains(x) implies m2.contains_key(x) && m2[x] == m[x] by {
            assert(s.keys().contains(x));
        }
        crate::ktree::lemma_frame(*first, m, m2, Some(key));
        crate::ktree::lemma_frame(*second, m, m2, Some(key));
    }
}

/// `relink` on arena nodes.
pub open spec fn relink_node(n: Node, old: u64, new: u64) -> Node {
    crate::ktree::relink(n, old, new)
}

impl LayoutTree {
    /// Exchanges the places of two tiled windows; the tree keeps its shape.
    pub fn swap(&mut self, first_window: &WindowId, second_window: &WindowId) -> (r: Result<(), TreeError>)
        requires
            old(self).wf(),
        ensures
            final(self).wf(),
            final(self).focus_hint() == old(self).focus_hint(),
            first_window@ == second_window@ ==> r is Ok && final(self)@ == old(self)@,
            first_window@ != second_window@ && !view_wins(old(self)@).contains(first_window@) ==> {
                &&& r == Err::<(), TreeError>(TreeError::UnknownWindow(*first_window))
                &&& final(self)@ == old(self)@
            },
            first_window@ != second_window@ && view_wins(old(self)@).contains(first_window@)
                && !view_wins(old(self)@).contains(second_window@) ==> {
                &&& r == Err::<(), TreeError>(TreeError::UnknownWindow(*second_window))
                &&& final(self)@ == old(self)@
            },
            first_window@ != second_window@ && view_wins(old(self)@).contains(first_window@)
                && view_wins(old(self)@).contains(second_window@) ==> {
                &&& r is Ok
                &&& final(self)@ == Some(old(self)@->0.swap(first_window@, second_window@))
            },
    {
        if first_window.same(second_window) {
            return Ok(());
        }
        let i = match self.find(first_window) {
            Some(i) => i,
            None => { return Err(TreeError::UnknownWindow(first_window.duplicate())); },
        };
        let j = match self.find(second_window) {
            Some(j) => j,
            None => { return Err(TreeError::UnknownWindow(second_window.duplicate())); },
        };
        let ghost t = self.ktree();
        let ghost m0 = arena_nodes(self.nodes);
        let ghost tab0 = self.windows@;
        let ka = self.windows[i].1;
        let kb = self.windows[j].1;
        proof {
            lemma_finite(t);
            crate::ktree::lemma_view_wins(t);
            lemma_lookup(t, m0, None, ka);
            lemma_lookup(t, m0, None, kb);
            lemma_subtree(t, ka);
            lemma_subtree(t, kb);
        }
        let wa = match &arena_node(&self.nodes, ka).kind {
            NodeKind::Leaf { window } => window.duplicate(),
            NodeKind::Split { .. } => { return Ok(()); },
        };
        let wb = match &arena_node(&self.nodes, kb).kind {
            NodeKind::Leaf { window } => window.duplicate(),
            NodeKind::Split { .. } => { return Ok(()); },
        };
        let ghost xa = wa;
        let ghost xb = wb;
        arena_node_mut(&mut self.nodes, ka).kind = NodeKind::Leaf { window: wb };
        arena_node_mut(&mut self.nodes, kb).kind = NodeKind::Leaf { window: wa };
        let ea = self.windows[i].0.duplicate();
        let eb = self.windows[j].0.duplicate();
        self.windows.set(i, (ea, kb));
        self.windows.set(j, (eb, ka));
        proof {
            let m2 = arena_nodes(self.nodes);
            assert(ka != kb);
            assert(t.subtree(ka) == (KTree::Leaf { key: ka, window: xa }));
            assert(t.subtree(kb) == (KTree::Leaf { key: kb, window: xb }));
            if t.wins().contains(xa@) {
                crate::ktree_ops::lemma_leaf_window(t, ka);
            }
            assert(m2 == m0.insert(ka, Node { parent: m0[ka].parent, kind: NodeKind::Leaf { window: xb } }).insert(
                kb,
                Node { parent: m0[kb].parent, kind: NodeKind::Leaf { window: xa } },
            ));
            crate::ktree_ops::lemma_relabel(t, m0, None, ka, xa, kb, xb);
            crate::ktree_ops::lemma_relabel_keys(t, ka, xa, kb, xb);
            let t2 = t.relabel(ka, xa, kb, xb);
            assert(m2.dom() =~= t2.keys());
            self.shape = Ghost(Some(t2));
            let tab = self.windows@;
            assert(table_ok(tab, t2)) by {
                assert forall|n: int| 0 <= n < tab.len() implies {
                    &&& t2.keys().contains(#[trigger] tab[n].1)
                    &&& t2.subtree(tab[n].1) is Leaf
                    &&& t2.subtree(tab[n].1)->window@ == tab[n].0@
                } by {
                    if n == i {
                        crate::ktree_ops::lemma_relabel_subtree(t, ka, xa, kb, xb, kb);
                        assert(tab[n] == (ea, kb));
                        assert(t2.subtree(kb) == (KTree::Leaf { key: kb, window: xa }));
                        assert(xa@ == tab0[i as int].0@);
                    } else if n == j {
                        crate::ktree_ops::lemma_relabel_subtree(t, ka, xa, kb, xb, ka);
                        assert(tab[n] == (eb, ka));
                        assert(t2.subtree(ka) == (KTree::Leaf { key: ka, window: xb }));
                    } else {
                        assert(tab[n] == tab0[n]);
                        let k = tab0[n].1;
                        crate::ktree_ops::lemma_relabel_subtree(t, ka, xa, kb, xb, k);
                        if k == ka {
                            assert(tab0[n].0@ == tab0[i as int].0@);
                        }
                        if k == kb {
                            assert(tab0[n].0@ == tab0[j as int].0@);
                        }
                        assert(t.subtree(k) is Leaf);
                        lemma_subtree(t, k);
                        assert(k != ka && k != kb);
                        assert(t.subtree(k).relabel(ka, xa, kb, xb) == t.subtree(k));
                        assert(t2.subtree(k) == t.subtree(k));
                        assert(t2.keys().contains(k));
                    }
                }
                assert forall|a: int, b: int|
                    0 <= a < tab.len() && 0 <= b < tab.len() && a != b implies #[trigger] tab[a].0@ != #[trigger] tab[b].0@ by {
                    assert(tab[a].0@ == tab0[a].0@);
                    assert(tab[b].0@ == tab0[b].0@);
                }
                assert forall|w: Seq<char>| #[trigger] t2.wins().contains(w) implies exists|n: int|
                    0 <= n < tab.len() && tab[n].0@ == w by {
                    let z = crate::ktree_ops::swapped(xa@, xb@, w);
                    assert(t.wins().contains(z));
                    let n0 = choose|n: int| 0 <= n < tab0.len() && tab0[n].0@ == z;
                    if w == xa@ {
                        assert(tab[i as int].0@ == w);
                    } else if w == xb@ {
                        assert(tab[j as int].0@ == w);
                    } else {
                        assert(tab[n0].0@ == w);
                    }
                }
            }
        }
        Ok(())
    }
}

fn resized_ratio_exec(ratio: u32, d: Direction, from_first: bool, step: i32) -> (r: u32)
    ensures
        r == resized_ratio(ratio, d, from_first, step),
{
    let grow = match d {
        Direction::Right | Direction::Down => true,
        Direction::Left | Direction::Up => false,
    };
    let v: i64 = if grow == from_first {
        ratio as i64 + step as i64
    } else {
        ratio as i64 - step as i64
    };
    if v < MIN_RATIO as i64 {
        MIN_RATIO
    } else if v > MAX_RATIO as i64 {
        MAX_RATIO
    } else {
        v as u32
    }
}

fn same_axis_exec(d: Direction, o: Orientation) -> (r: bool)
    ensures
        r == same_axis(d, o),
{
    match o {
        Orientation::Horizontal => match d {
            Direction::Left | Direction::Right => true,
            _ => false,
        },
        Orientation::Vertical => match d {
            Direction::Up | Direction::Down => true,
            _ => false,
        },
    }
}

/// The split at `p` with its ratio resized.
pub open spec fn resized_split(sp: KTree, d: Direction, from_first: bool, step: i32) -> KTree {
    KTree::Split {
        key: sp.key(),
        orientation: sp->orientation,
        ratio: resized_ratio(sp->ratio, d, from_first, step),
        first: sp->first,
        second: sp->second,
    }
}

impl LayoutTree {
    /// The nearest split above the leaf `leaf` (of window `w`) whose axis is that
    /// of `d`, and whether the leaf lies on its first side.
    fn resize_target(&self, leaf: u64, Ghost(w): Ghost<Seq<char>>, d: Direction, Ghost(step): Ghost<i32>) -> (r: Option<(u64, bool)>)
        requires
            self.wf(),
            self.shape@ is Some,
            self.ktree().keys().contains(leaf),
            self.ktree().subtree(leaf) is Leaf,
            self.ktree().subtree(leaf)->window@ == w,
        ensures
            ({
                let t = self.ktree();
                match r {
                    None => t.view().resize(w, d, step) == (t.view(), false),
                    Some((p, from_first)) => {
                        &&& t.keys().contains(p)
                        &&& t.subtree(p) is Split
                        &&& t.subtree(p).wins().contains(w)
                        &&& t.subtree(p).view().resize(w, d, step) == (
                            resized_split(t.subtree(p), d, from_first, step).view(),
                            true,
                        )
                    },
                }
            }),
    {
        let ghost t = self.ktree();
        let ghost m0 = arena_nodes(self.nodes);
        let mut child = leaf;
        proof {
            lemma_subtree(t, leaf);
            crate::ktree::lemma_size_subtree(t, leaf);
            assert(t.subtree(leaf).wins() =~= set![w]);
        }
        loop
            invariant
                self.wf(),
                self.shape@ == Some(t),
                m0 == arena_nodes(self.nodes),
                t.keys().contains(child),
                t.subtree(child).wins().contains(w),
                t.subtree(child).view().resize(w, d, step) == (t.subtree(child).view(), false),
                t.subtree(child).size() <= t.size(),
            decreases t.size() - t.subtree(child).size(),
        {
            proof {
                lemma_lookup(t, m0, None, child);
                lemma_subtree(t, child);
            }
            let parent = arena_node(&self.nodes, child).parent;
            match parent {
                None => {
                    proof {
                        if child != t.key() {
                            crate::ktree::lemma_parent(t, None, child);
                        }
                        crate::ktree::lemma_subtree_self(t);
                    }
                    return None;
                },
                Some(p) => {
                    proof {
                        crate::ktree::lemma_parent(t, None, child);
                        lemma_lookup(t, m0, None, p);
                        lemma_subtree(t, p);
                        crate::ktree::lemma_subtree_child(t, None, p);
                        crate::ktree::lemma_size_subtree(t, p);
                        let sp = t.subtree(p);
                        crate::ktree::lemma_view_wins(*sp->first);
                        crate::ktree::lemma_view_wins(*sp->second);
                    }
                    let (orientation, first) = match &arena_node(&self.nodes, p).kind {
                        NodeKind::Split { orientation, first, .. } => (*orientation, *first),
                        NodeKind::Leaf { .. } => { return None; },
                    };
                    let from_first = child == first;
                    if same_axis_exec(d, orientation) {
                        return Some((p, from_first));
                    }
                    child = p;
                },
            }
        }
    }

    /// Moves the border of `window` toward `direction` by `step`: the nearest
    /// split above it whose axis is that of the direction changes its ratio.
    /// `Ok(false)` when there is no such split. A negative step moves the
    /// border the other way.
    pub fn resize(&mut self, window: &WindowId, direction: Direction, step: i32) -> (r: Result<bool, TreeError>)
        requires
            old(self).wf(),
        ensures
            final(self).wf(),
            final(self).focus_hint() == old(self).focus_hint(),
            !view_wins(old(self)@).contains(window@) ==> {
                &&& r == Err::<bool, TreeError>(TreeError::UnknownWindow(*window))
                &&& final(self)@ == old(self)@
            },
            view_wins(old(self)@).contains(window@) ==> {
                let (v2, changed) = old(self)@->0.resize(window@, direction, step);
                &&& r == Ok::<bool, TreeError>(changed)
                &&& final(self)@ == Some(v2)
            },
    {
        let i = match self.find(window) {
            Some(i) => i,
            None => { return Err(TreeError::UnknownWindow(window.duplicate())); },
        };
        let ghost t = self.ktree();
        let ghost m0 = arena_nodes(self.nodes);
        let leaf = self.windows[i].1;
        let target = self.resize_target(leaf, Ghost(window@), direction, Ghost(step));
        match target {
            None => Ok(false),
            Some((p, from_first)) => {
                proof {
                    lemma_lookup(t, m0, None, p);
                    lemma_subtree(t, p);
                    crate::ktree::lemma_subtree_child(t, None, p);
                }
                let (orientation, ratio, first, second) = match &arena_node(&self.nodes, p).kind {
                    NodeKind::Split { orientation, ratio, first, second } => (*orientation, *ratio, *first, *second),
                    NodeKind::Leaf { .. } => { return Ok(false); },
                };
                let new_ratio = resized_ratio_exec(ratio, direction, from_first, step);
                arena_node_mut(&mut self.nodes, p).kind = NodeKind::Split { orientation, ratio: new_ratio, first, second };
                proof {
                    let m2 = arena_nodes(self.nodes);
                    let sp = t.subtree(p);
                    let u = resized_split(sp, direction, from_first, step);
                    let t2 = t.replace(p, u);
                    lemma_finite(t);
                    assert(u.keys() =~= sp.keys());
                    assert(u.wins() =~= sp.wins());
                    crate::ktree::lemma_repr_subtree(t, m0, None, p);
                    let par = t.parent_in(p, None);
                    assert(m0[p] == sp.node(par));
                    assert(m2[p] == u.node(par));
                    let a = *sp->first;
                    let b = *sp->second;
                    assert(a.repr(m0, Some(p)));
                    assert(b.repr(m0, Some(p)));
                    assert forall|x: u64| #[trigger] a.keys().contains(x) implies m2.contains_key(x) && m2[x] == m0[x] by {
                        assert(sp.keys().contains(x));
                    }
                    assert forall|x: u64| #[trigger] b.keys().contains(x) implies m2.contains_key(x) && m2[x] == m0[x] by {
                        assert(sp.keys().contains(x));
                    }
                    crate::ktree::lemma_frame(a, m0, m2, Some(p));
                    crate::ktree::lemma_frame(b, m0, m2, Some(p));
                    assert(u.repr(m2, par));
                    if par is Some && t.keys().contains(par->0) {
                        let pk = par->0;
                        crate::ktree::lemma_parent(t, None, p);
                        lemma_lookup(t, m0, None, pk);
                        assert(relink_node(m0[pk], p, p) == m0[pk]);
                    }
                    crate::ktree::lemma_replace_repr(t, m0, m2, None, p, u);
                    crate::ktree::lemma_replace_sets(t, p, u);
                    crate::ktree::lemma_replace_wf(t, p, u);
                    crate::ktree::lemma_replace_key(t, p, u);
                    assert(m2.dom() =~= t2.keys());
                    crate::ktree_ops::lemma_view_resize_lift(t, p, u, window@, direction, step);
                    self.shape = Ghost(Some(t2));
                    let tab = self.windows@;
                    assert(table_ok(tab, t2)) by {
                        assert forall|n: int| 0 <= n < tab.len() implies {
                            &&& t2.keys().contains(#[trigger] tab[n].1)
                            &&& t2.subtree(tab[n].1) is Leaf
                            &&& t2.subtree(tab[n].1)->window@ == tab[n].0@
                        } by {
                            let k = tab[n].1;
                            assert(t.keys().contains(k));
                            lemma_subtree(t, k);
                            if sp.keys().contains(k) {
                                crate::ktree_ops::lemma_replace_finds_new(t, p, u, k);
                                crate::ktree::lemma_subtree_nested(t, None, p, k);
                                assert(k != p);
                                assert(u.subtree(k) == sp.subtree(k));
                            } else {
                                crate::ktree_ops::lemma_replace_keeps_leaf(t, p, u, k);
                            }
                        }
                        assert forall|w: Seq<char>| #[trigger] t2.wins().contains(w) implies exists|n: int|
                            0 <= n < tab.len() && tab[n].0@ == w by {
                            assert(t.wins().contains(w));
                        }
                    }
                }
                Ok(true)
            },
        }
    }
}

pub proof fn lemma_wins_nonempty(t: KTree)
    ensures
        t.wins().len() > 0,
    decreases t,
{
    lemma_finite(t);
    match t {
        KTree::Leaf { window, .. } => {
            assert(t.wins().contains(window@));
        },
        KTree::Split { first, second, .. } => {
            lemma_wins_nonempty(*first);
            lemma_finite(*first);
            lemma_finite(*second);
            vstd::set_lib::lemma_len_subset(first.wins(), t.wins());
        },
    }
}

} // verus!
