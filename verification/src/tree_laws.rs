//! What the tree operations keep: each window once, and ratios within bounds.
use vstd::prelude::*;

use crate::geometry::{clamp_int, spec_contains, spec_inset, spec_is_valid, spec_split, Orientation, Rect};
use crate::ktree::{lemma_layout_windows, TreeView};
use crate::ktree_ops::swapped;
use crate::protocol::{Config, Direction};
use crate::navigation::ids_distinct;
use crate::tree::{
    clamp_ratio, first_largest, insert_outcome, insert_plan, insert_target, spec_layout, view_wins,
    InsertPlan, MAX_RATIO, MIN_RATIO,
};

verus! {

/// Removing a window of a well-formed tree leaves a well-formed tree of the
/// other windows, or nothing when it was the only one.
pub proof fn lemma_remove_keeps(v: TreeView, w: Seq<char>)
    requires
        v.wf(),
        v.wins().contains(w),
    ensures
        match v.remove(w) {
            None => v.wins() == set![w],
            Some(v2) => v2.wf() && v2.wins() == v.wins().remove(w),
        },
    decreases v,
{
    match v {
        TreeView::Leaf(x) => {
            assert(v.wins() =~= set![w]);
        },
        TreeView::Split(o, r, a, b) => {
            if a.wins().contains(w) {
                lemma_remove_keeps(*a, w);
                assert(!b.wins().contains(w));
                match a.remove(w) {
                    None => {
                        assert(b.wins() =~= v.wins().remove(w));
                    },
                    Some(a2) => {
                        assert(v.remove(w) == Some(TreeView::Split(o, r, Box::new(a2), b)));
                        assert((a2.wins() + b.wins()) =~= v.wins().remove(w));
                    },
                }
            } else {
                lemma_remove_keeps(*b, w);
                match b.remove(w) {
                    None => {
                        assert(a.wins() =~= v.wins().remove(w));
                    },
                    Some(b2) => {
                        assert(v.remove(w) == Some(TreeView::Split(o, r, a, Box::new(b2))));
                        assert((a.wins() + b2.wins()) =~= v.wins().remove(w));
                    },
                }
            }
        },
    }
}

/// Swapping two windows exchanges them among the windows and keeps the tree
/// well-formed.
pub proof fn lemma_swap_keeps(v: TreeView, a: Seq<char>, b: Seq<char>)
    ensures
        forall|z: Seq<char>| #[trigger]
            v.swap(a, b).wins().contains(z) == v.wins().contains(swapped(a, b, z)),
        v.wf() ==> v.swap(a, b).wf(),
    decreases v,
{
    match v {
        TreeView::Leaf(x) => {},
        TreeView::Split(o, r, x, y) => {
            lemma_swap_keeps(*x, a, b);
            lemma_swap_keeps(*y, a, b);
            if v.wf() {
                assert forall|z: Seq<char>|
                    !(x.swap(a, b).wins().contains(z) && y.swap(a, b).wins().contains(z)) by {
                    assert(x.swap(a, b).wins().contains(z) == x.wins().contains(swapped(a, b, z)));
                    assert(y.swap(a, b).wins().contains(z) == y.wins().contains(swapped(a, b, z)));
                }
                assert(x.swap(a, b).wins().disjoint(y.swap(a, b).wins()));
            }
        },
    }
}

/// Resizing keeps the windows, and keeps ratios within bounds.
pub proof fn lemma_resize_keeps(v: TreeView, w: Seq<char>, d: Direction, step: i32)
    ensures
        v.resize(w, d, step).0.wins() == v.wins(),
        v.wf() ==> v.resize(w, d, step).0.wf(),
    decreases v,
{
    match v {
        TreeView::Leaf(_) => {},
        TreeView::Split(o, r, a, b) => {
            lemma_resize_keeps(*a, w, d, step);
            lemma_resize_keeps(*b, w, d, step);
        },
    }
}

/// Putting `u` in place of the leaf of `target` adds the windows of `u`.
pub proof fn lemma_put_keeps(v: TreeView, target: Seq<char>, u: TreeView)
    requires
        v.wf(),
        v.wins().contains(target),
        u.wf(),
        u.wins().contains(target),
        forall|x: Seq<char>| #[trigger] u.wins().contains(x) && x != target ==> !v.wins().contains(x),
    ensures
        v.put_at(target, u).wf(),
        v.put_at(target, u).wins() == v.wins() + u.wins(),
    decreases v,
{
    match v {
        TreeView::Leaf(x) => {
            assert(v.wins() + u.wins() =~= u.wins());
        },
        TreeView::Split(o, r, a, b) => {
            if a.wins().contains(target) {
                lemma_put_keeps(*a, target, u);
                assert(a.put_at(target, u).wins().disjoint(b.wins()));
                assert(v.wins() + u.wins() =~= a.put_at(target, u).wins() + b.wins());
            } else {
                lemma_put_keeps(*b, target, u);
                assert(a.wins().disjoint(b.put_at(target, u).wins()));
                assert(v.wins() + u.wins() =~= a.wins() + b.put_at(target, u).wins());
            }
        },
    }
}

/// The first entry of largest area is an entry.
pub proof fn lemma_first_largest(ps: Seq<(Seq<char>, Rect)>)
    requires
        ps.len() >= 1,
    ensures
        0 <= first_largest(ps) < ps.len(),
    decreases ps.len(),
{
    if ps.len() > 1 {
        lemma_first_largest(ps.drop_last());
    }
}

/// Tiling a new window into a well-formed tree gives a well-formed tree of
/// one more window.
pub proof fn lemma_insert_keeps(
    v: Option<TreeView>,
    hint: Option<Seq<char>>,
    w: Seq<char>,
    focused: Option<Seq<char>>,
    work_area: Rect,
    config: Config,
)
    requires
        v is Some ==> v->0.wf(),
        !view_wins(v).contains(w),
    ensures
        insert_outcome(v, hint, w, focused, work_area, config) matches Ok(t) ==> {
            &&& t.wf()
            &&& t.wins() == view_wins(v).insert(w)
        },
{
    match v {
        None => {
            assert(TreeView::Leaf(w).wins() =~= Set::<Seq<char>>::empty().insert(w));
        },
        Some(t) => {
            let c = clamp_ratio(config.split_ratio);
            assert(MIN_RATIO <= c <= MAX_RATIO);
            let rr = crate::geometry::spec_inset(work_area, config.outer_gap);
            let ps = t.layout(rr, config.inner_gap);
            lemma_layout_windows(t, rr, config.inner_gap);
            match insert_plan(t, hint, focused, work_area, config) {
                InsertPlan::SplitLeaf(target, o) => {
                    let target0 = insert_target(t, hint, focused, ps);
                    assert(target == target0);
                    assert(t.wins().contains(target)) by {
                        if !(focused is Some && t.wins().contains(focused->0)) && !(hint is Some
                            && t.wins().contains(hint->0)) {
                            lemma_first_largest(ps);
                            let b = first_largest(ps);
                            let fst = ps.map_values(|p: (Seq<char>, Rect)| p.0);
                            assert(fst[b] == ps[b].0);
                            assert(t.order().to_set().contains(fst[b]));
                        }
                    }
                    let u = TreeView::Split(
                        o,
                        c,
                        Box::new(TreeView::Leaf(target)),
                        Box::new(TreeView::Leaf(w)),
                    );
                    assert(TreeView::Leaf(target).wins() == set![target]);
                    assert(TreeView::Leaf(w).wins() == set![w]);
                    assert(target != w);
                    assert(u.wins() =~= set![target, w]);
                    assert(set![target].disjoint(set![w]));
                    assert(TreeView::Leaf(target).wf());
                    assert(TreeView::Leaf(w).wf());
                    assert(u.wf());
                    lemma_put_keeps(t, target, u);
                    assert(t.wins() + u.wins() =~= t.wins().insert(w));
                },
                InsertPlan::Refuse(_) => {},
            }
        },
    }
}

/// A layout lists each window of the tree once, and nothing else.
pub proof fn lemma_layout_entries(v: Option<TreeView>, work_area: Rect, outer_gap: i32, inner_gap: i32)
    requires
        v is Some ==> v->0.wf(),
    ensures
        ids_distinct(spec_layout(v, work_area, outer_gap, inner_gap)),
        forall|i: int|
            0 <= i < spec_layout(v, work_area, outer_gap, inner_gap).len() ==> view_wins(v).contains(
                #[trigger] spec_layout(v, work_area, outer_gap, inner_gap)[i].0,
            ),
        forall|w: Seq<char>| #[trigger]
            view_wins(v).contains(w) ==> exists|i: int|
                0 <= i < spec_layout(v, work_area, outer_gap, inner_gap).len()
                    && spec_layout(v, work_area, outer_gap, inner_gap)[i].0 == w,
{
    let ps = spec_layout(v, work_area, outer_gap, inner_gap);
    if let Some(t) = v {
        let rr = crate::geometry::spec_inset(work_area, outer_gap);
        lemma_layout_windows(t, rr, inner_gap);
        let fst = ps.map_values(|p: (Seq<char>, Rect)| p.0);
        assert forall|i: int| 0 <= i < ps.len() implies #[trigger] ps[i].0 == t.order()[i] by {
            assert(fst[i] == ps[i].0);
        }
        assert forall|i: int| 0 <= i < ps.len() implies view_wins(v).contains(#[trigger] ps[i].0) by {
            assert(ps[i].0 == t.order()[i]);
            assert(t.order().to_set().contains(t.order()[i]));
        }
        assert forall|w: Seq<char>| #[trigger] view_wins(v).contains(w) implies exists|i: int|
            0 <= i < ps.len() && ps[i].0 == w by {
            assert(t.order().to_set().contains(w));
            let i = choose|i: int| 0 <= i < t.order().len() && t.order()[i] == w;
            assert(ps[i].0 == w);
        }
        assert forall|i: int, j: int|
            0 <= i < ps.len() && 0 <= j < ps.len() && i != j implies #[trigger] ps[i].0
            != #[trigger] ps[j].0 by {
            assert(ps[i].0 == t.order()[i] && ps[j].0 == t.order()[j]);
        }
    }
}

/// Both parts of a split of a valid rectangle are valid and lie inside it.
pub proof fn lemma_split_inside(r: Rect, o: Orientation, ratio: u32, gap: i32)
    requires
        spec_is_valid(r),
    ensures
        spec_is_valid(spec_split(r, o, ratio, gap).0),
        spec_is_valid(spec_split(r, o, ratio, gap).1),
        spec_contains(r, spec_split(r, o, ratio, gap).0),
        spec_contains(r, spec_split(r, o, ratio, gap).1),
{
}

/// The inset of a valid rectangle is valid and lies inside it.
pub proof fn lemma_inset_inside(r: Rect, gap: i32)
    requires
        spec_is_valid(r),
    ensures
        spec_is_valid(spec_inset(r, gap)),
        spec_contains(r, spec_inset(r, gap)),
{
}

/// Every window of a layout of a valid rectangle gets a valid rectangle inside it.
pub proof fn law_layout_inside(v: TreeView, r: Rect, gap: i32)
    requires
        spec_is_valid(r),
    ensures
        forall|i: int|
            0 <= i < v.layout(r, gap).len() ==> spec_is_valid(#[trigger] v.layout(r, gap)[i].1)
                && spec_contains(r, v.layout(r, gap)[i].1),
    decreases v,
{
    if let TreeView::Split(o, ratio, a, b) = v {
        let parts = spec_split(r, o, ratio, gap);
        lemma_split_inside(r, o, ratio, gap);
        law_layout_inside(*a, parts.0, gap);
        law_layout_inside(*b, parts.1, gap);
        let la = a.layout(parts.0, gap);
        let lb = b.layout(parts.1, gap);
        assert forall|i: int| 0 <= i < v.layout(r, gap).len() implies spec_is_valid(
            #[trigger] v.layout(r, gap)[i].1,
        ) && spec_contains(r, v.layout(r, gap)[i].1) by {
            if i < la.len() {
                assert(v.layout(r, gap)[i] == la[i]);
            } else {
                assert(v.layout(r, gap)[i] == lb[i - la.len()]);
            }
        }
    }
}

/// Swapping two windows exchanges their places in every layout; every other
/// window keeps its place.
pub proof fn law_swap_layout(v: TreeView, a: Seq<char>, b: Seq<char>, r: Rect, gap: i32)
    ensures
        v.swap(a, b).layout(r, gap) == v.layout(r, gap).map_values(
            |p: (Seq<char>, Rect)| (swapped(a, b, p.0), p.1),
        ),
    decreases v,
{
    match v {
        TreeView::Leaf(x) => {
            assert(v.layout(r, gap).map_values(|p: (Seq<char>, Rect)| (swapped(a, b, p.0), p.1))
                =~= seq![(swapped(a, b, x), r)]);
        },
        TreeView::Split(o, ratio, x, y) => {
            let parts = spec_split(r, o, ratio, gap);
            law_swap_layout(*x, a, b, parts.0, gap);
            law_swap_layout(*y, a, b, parts.1, gap);
            assert(v.layout(r, gap).map_values(|p: (Seq<char>, Rect)| (swapped(a, b, p.0), p.1))
                =~= x.layout(parts.0, gap).map_values(
                |p: (Seq<char>, Rect)| (swapped(a, b, p.0), p.1),
            ) + y.layout(parts.1, gap).map_values(|p: (Seq<char>, Rect)| (swapped(a, b, p.0), p.1)));
        },
    }
}

/// Swapping the same two windows again restores the tree.
pub proof fn law_swap_twice(v: TreeView, a: Seq<char>, b: Seq<char>)
    ensures
        v.swap(a, b).swap(a, b) == v,
    decreases v,
{
    if let TreeView::Split(o, ratio, x, y) = v {
        law_swap_twice(*x, a, b);
        law_swap_twice(*y, a, b);
    }
}

/// Swapping `a` with `b` is the same as swapping `b` with `a`.
pub proof fn law_swap_symmetric(v: TreeView, a: Seq<char>, b: Seq<char>)
    ensures
        v.swap(a, b) == v.swap(b, a),
    decreases v,
{
    if let TreeView::Split(o, ratio, x, y) = v {
        law_swap_symmetric(*x, a, b);
        law_swap_symmetric(*y, a, b);
    }
}

/// Splitting the leaf of `target` for `w` and removing `w` again restores the tree.
pub proof fn law_split_then_remove(v: TreeView, target: Seq<char>, w: Seq<char>, o: Orientation, ratio: u32)
    requires
        v.wf(),
        v.wins().contains(target),
        !v.wins().contains(w),
        MIN_RATIO <= ratio <= MAX_RATIO,
    ensures
        v.put_at(
            target,
            TreeView::Split(o, ratio, Box::new(TreeView::Leaf(target)), Box::new(TreeView::Leaf(w))),
        ).remove(w) == Some(v),
    decreases v,
{
    let u = TreeView::Split(o, ratio, Box::new(TreeView::Leaf(target)), Box::new(TreeView::Leaf(w)));
    assert(TreeView::Leaf(target).wins() == set![target]);
    assert(TreeView::Leaf(w).wins() == set![w]);
    assert(target != w);
    assert(TreeView::Leaf(w).remove(w) is None);
    match v {
        TreeView::Leaf(x) => {
            assert(u.remove(w) == Some(TreeView::Leaf(target)));
        },
        TreeView::Split(o2, r2, a, b) => {
            if a.wins().contains(target) {
                law_split_then_remove(*a, target, w, o, ratio);
                assert(u.wins() =~= set![target, w]);
                assert(TreeView::Leaf(target).wf() && TreeView::Leaf(w).wf());
                assert(set![target].disjoint(set![w]));
                assert(u.wf());
                lemma_put_keeps(*a, target, u);
                assert(a.put_at(target, u).wins().contains(w));
            } else {
                law_split_then_remove(*b, target, w, o, ratio);
                assert(!a.wins().contains(w));
            }
        },
    }
}

/// Tiling a new window and removing it again restores the tree.
pub proof fn law_insert_then_remove(
    v: Option<TreeView>,
    hint: Option<Seq<char>>,
    w: Seq<char>,
    focused: Option<Seq<char>>,
    work_area: Rect,
    config: Config,
)
    requires
        v is Some ==> v->0.wf(),
        !view_wins(v).contains(w),
    ensures
        insert_outcome(v, hint, w, focused, work_area, config) matches Ok(t) ==> t.remove(w) == v,
{
    match v {
        None => {},
        Some(t) => {
            let rr = crate::geometry::spec_inset(work_area, config.outer_gap);
            let ps = t.layout(rr, config.inner_gap);
            lemma_layout_windows(t, rr, config.inner_gap);
            if let InsertPlan::SplitLeaf(target, o) = insert_plan(t, hint, focused, work_area, config) {
                assert(t.wins().contains(target)) by {
                    if !(focused is Some && t.wins().contains(focused->0)) && !(hint is Some
                        && t.wins().contains(hint->0)) {
                        lemma_first_largest(ps);
                        let b = first_largest(ps);
                        let fst = ps.map_values(|p: (Seq<char>, Rect)| p.0);
                        assert(fst[b] == ps[b].0);
                        assert(t.order().to_set().contains(fst[b]));
                    }
                }
                law_split_then_remove(t, target, w, o, clamp_ratio(config.split_ratio));
            }
        },
    }
}

/// An insertion splits the leaf of the focused window whenever the tree holds it.
pub proof fn law_insert_splits_focused(
    v: TreeView,
    hint: Option<Seq<char>>,
    f: Seq<char>,
    work_area: Rect,
    config: Config,
)
    requires
        v.wins().contains(f),
    ensures
        insert_plan(v, hint, Some(f), work_area, config) matches InsertPlan::SplitLeaf(target, _) ==> target == f,
{
}

/// Resizing `w` moves the border of the nearest split above it that lies
/// across the direction (left and right for a horizontal split, up and down
/// for a vertical one). Toward the right or down, the window on the first
/// side grows by `step` and the one on the second side shrinks; toward the
/// left or up, the other way round. The ratio stays between `MIN_RATIO` and
/// `MAX_RATIO`, and the two sides are kept.
pub proof fn law_resize_moves_nearest_border(
    o: Orientation,
    r: u32,
    a: TreeView,
    b: TreeView,
    w: Seq<char>,
    d: Direction,
    step: i32,
)
    requires
        (o == Orientation::Horizontal && (d == Direction::Left || d == Direction::Right)) || (o
            == Orientation::Vertical && (d == Direction::Up || d == Direction::Down)),
        a.wins().contains(w) != b.wins().contains(w),
        a.wins().contains(w) ==> !a.resize(w, d, step).1,
        b.wins().contains(w) ==> !b.resize(w, d, step).1,
    ensures
        TreeView::Split(o, r, Box::new(a), Box::new(b)).resize(w, d, step).1,
        (d == Direction::Right || d == Direction::Down) && a.wins().contains(w) ==> TreeView::Split(
            o,
            r,
            Box::new(a),
            Box::new(b),
        ).resize(w, d, step).0 == TreeView::Split(
            o,
            clamp_int(r + step, MIN_RATIO as int, MAX_RATIO as int) as u32,
            Box::new(a),
            Box::new(b),
        ),
        (d == Direction::Right || d == Direction::Down) && b.wins().contains(w) ==> TreeView::Split(
            o,
            r,
            Box::new(a),
            Box::new(b),
        ).resize(w, d, step).0 == TreeView::Split(
            o,
            clamp_int(r - step, MIN_RATIO as int, MAX_RATIO as int) as u32,
            Box::new(a),
            Box::new(b),
        ),
        (d == Direction::Left || d == Direction::Up) && a.wins().contains(w) ==> TreeView::Split(
            o,
            r,
            Box::new(a),
            Box::new(b),
        ).resize(w, d, step).0 == TreeView::Split(
            o,
            clamp_int(r - step, MIN_RATIO as int, MAX_RATIO as int) as u32,
            Box::new(a),
            Box::new(b),
        ),
        (d == Direction::Left || d == Direction::Up) && b.wins().contains(w) ==> TreeView::Split(
            o,
            r,
            Box::new(a),
            Box::new(b),
        ).resize(w, d, step).0 == TreeView::Split(
            o,
            clamp_int(r + step, MIN_RATIO as int, MAX_RATIO as int) as u32,
            Box::new(a),
            Box::new(b),
        ),
{
}

} // verus!
