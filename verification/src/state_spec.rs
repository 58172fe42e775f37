//! The engine as its users see it, and what each operation does to it.
use vstd::prelude::*;

use crate::geometry::{spec_is_valid, Rect};
use crate::ktree::TreeView;
use crate::navigation::nav_target;
use crate::order::{snapshot_key, sort_by, sort_by_id};
use crate::protocol::{
    config_is_sane, context_lt, spec_sanitized, utf8_len, Command, Config, ContextKey, Direction,
    Response, WindowSnapshot, WorkAreaSnapshot,
};
use crate::state::EngineError;
use crate::tree::{
    insert_outcome, placement_views, spec_layout, view_wins, TreeError, MAX_WINDOWS,
};

verus! {

/// Where a window lives, and whether it floats above the tiled layout.
#[derive(Clone, Copy, Debug, PartialEq, Eq, Structural)]
pub struct WindowRecord {
    pub context: ContextKey,
    pub floating: bool,
}

/// One context: its work area, its layout tree, the window that the next
/// insertion splits when nothing focused is tiled there, and the window shown
/// over the whole work area, if any.
#[verifier::ext_equal]
pub struct ContextView {
    pub work_area: Rect,
    pub tree: Option<TreeView>,
    pub hint: Option<Seq<char>>,
    pub maximized: Option<Seq<char>>,
}

/// The whole engine: settings, contexts, the record of every known window,
/// and the focused window.
#[verifier::ext_equal]
pub struct EngineView {
    pub config: Config,
    pub contexts: Map<ContextKey, ContextView>,
    pub records: Map<Seq<char>, WindowRecord>,
    pub focused: Option<Seq<char>>,
}

/// The layout part of the invariant: every tiled window is in the tree of its
/// own context and in no other tree, every window of a tree is recorded as
/// tiled there, trees are well-formed, work areas are valid, a maximized
/// window is tiled in its context, and the settings are sanitized.
pub open spec fn layout_consistent(s: EngineView) -> bool {
    &&& s.contexts.dom().finite()
    &&& s.records.dom().finite()
    &&& config_is_sane(s.config)
    &&& forall|k: ContextKey| #[trigger]
        s.contexts.contains_key(k) ==> {
            &&& spec_is_valid(s.contexts[k].work_area)
            &&& (s.contexts[k].tree is Some ==> s.contexts[k].tree->0.wf())
            &&& (s.contexts[k].maximized is Some ==> view_wins(s.contexts[k].tree).contains(
                s.contexts[k].maximized->0,
            ))
        }
    &&& forall|k: ContextKey, w: Seq<char>|
        s.contexts.contains_key(k) && #[trigger] view_wins(s.contexts[k].tree).contains(w) ==> {
            &&& s.records.contains_key(w)
            &&& s.records[w] == (WindowRecord { context: k, floating: false })
        }
    &&& forall|w: Seq<char>| #[trigger]
        s.records.contains_key(w) ==> {
            &&& s.contexts.contains_key(s.records[w].context)
            &&& (!s.records[w].floating ==> view_wins(
                s.contexts[s.records[w].context].tree,
            ).contains(w))
        }
}

/// The invariant of the engine: the layout is consistent and the focused
/// window, if any, is known.
pub open spec fn consistent(s: EngineView) -> bool {
    &&& layout_consistent(s)
    &&& (s.focused is Some ==> s.records.contains_key(s.focused->0))
}

pub open spec fn fresh_context(work_area: Rect) -> ContextView {
    ContextView { work_area, tree: None, hint: None, maximized: None }
}

pub open spec fn unmaximized(c: ContextView) -> ContextView {
    ContextView { work_area: c.work_area, tree: c.tree, hint: c.hint, maximized: None }
}

pub open spec fn with_context(s: EngineView, k: ContextKey, c: ContextView) -> EngineView {
    EngineView {
        config: s.config,
        contexts: s.contexts.insert(k, c),
        records: s.records,
        focused: s.focused,
    }
}

pub open spec fn with_record(s: EngineView, w: Seq<char>, r: WindowRecord) -> EngineView {
    EngineView {
        config: s.config,
        contexts: s.contexts,
        records: s.records.insert(w, r),
        focused: s.focused,
    }
}

/// The context `k` given the work area `wa`: the known context with its area
/// replaced, or a new empty one.
pub open spec fn with_work_area(s: EngineView, k: ContextKey, wa: Rect) -> EngineView {
    if s.contexts.contains_key(k) {
        let c = s.contexts[k];
        with_context(
            s,
            k,
            ContextView { work_area: wa, tree: c.tree, hint: c.hint, maximized: c.maximized },
        )
    } else {
        with_context(s, k, fresh_context(wa))
    }
}

/// The focused window, when it is tiled in the context `k`.
pub open spec fn tiled_focus(s: EngineView, k: ContextKey) -> Option<Seq<char>> {
    match s.focused {
        Some(f) => if s.records.contains_key(f) && s.records[f].context == k
            && !s.records[f].floating {
            Some(f)
        } else {
            None
        },
        None => None,
    }
}

/// The tree of `k` once `w` is tiled there, or the rectangle that no split fits.
pub open spec fn tile_outcome(s: EngineView, w: Seq<char>, k: ContextKey) -> Result<TreeView, Rect> {
    let c = s.contexts[k];
    insert_outcome(c.tree, c.hint, w, tiled_focus(s, k), c.work_area, s.config)
}

/// The context `k` holding the tree `t`, into which `w` was just tiled.
pub open spec fn with_tile(s: EngineView, w: Seq<char>, k: ContextKey, t: TreeView) -> EngineView {
    let c = s.contexts[k];
    with_context(
        s,
        k,
        ContextView { work_area: c.work_area, tree: Some(t), hint: Some(w), maximized: c.maximized },
    )
}

/// A fullscreen window, or one that is not a normal window, floats.
pub open spec fn snapshot_floats(ws: WindowSnapshot) -> bool {
    ws.fullscreen || ws.window_type@ != "normal"@
}

/// A window id is valid when its text is not empty and takes at most 128 bytes.
pub open spec fn id_valid(w: Seq<char>) -> bool {
    w.len() > 0 && utf8_len(w) <= 128
}

/// Recording the window of a snapshot and tiling it unless it floats.
pub open spec fn add_snapshot_result(s: EngineView, ws: WindowSnapshot) -> Result<
    EngineView,
    EngineError,
> {
    let w = ws.id@;
    let k = ws.context;
    if !id_valid(w) {
        Err(EngineError::InvalidWindowId)
    } else if s.records.contains_key(w) {
        Err(EngineError::DuplicateWindow(ws.id))
    } else if !s.contexts.contains_key(k) {
        Err(EngineError::MissingContext(k.workspace, k.monitor))
    } else {
        let s1 = with_record(s, w, WindowRecord { context: k, floating: snapshot_floats(ws) });
        if snapshot_floats(ws) {
            Ok(s1)
        } else {
            match tile_outcome(s1, w, k) {
                Ok(t) => Ok(with_tile(s1, w, k, t)),
                Err(tr) => Err(
                    EngineError::Tree(TreeError::CannotSplit { width: tr.width, height: tr.height }),
                ),
            }
        }
    }
}

/// Focusing the known window `w` restores a maximized other window of its context.
pub open spec fn focus_restores(s: EngineView, w: Seq<char>) -> bool {
    let r = s.records[w];
    &&& !r.floating
    &&& s.contexts[r.context].maximized is Some
    &&& s.contexts[r.context].maximized->0 != w
}

/// Focusing the known window `w`: it becomes the focused window and, when
/// tiled, the next split target of its context, where a maximized other
/// window is restored.
pub open spec fn focused_state(s: EngineView, w: Seq<char>) -> EngineView {
    let r = s.records[w];
    let s1 = EngineView {
        config: s.config,
        contexts: s.contexts,
        records: s.records,
        focused: Some(w),
    };
    if r.floating {
        s1
    } else {
        let c = s.contexts[r.context];
        with_context(
            s1,
            r.context,
            ContextView {
                work_area: c.work_area,
                tree: c.tree,
                hint: Some(w),
                maximized: if focus_restores(s, w) {
                    None
                } else {
                    c.maximized
                },
            },
        )
    }
}

/// Adding a window with the work area of its context: the state afterwards
/// and the context to lay out again. When the window itself is refused, the
/// new work area stays.
pub open spec fn add_window_result(s: EngineView, ws: WindowSnapshot, wa: Rect) -> (
    EngineView,
    Result<ContextKey, EngineError>,
) {
    let k = ws.context;
    if !spec_is_valid(wa) {
        (s, Err(EngineError::InvalidWorkArea(k.workspace, k.monitor)))
    } else {
        let s1 = with_work_area(s, k, wa);
        match add_snapshot_result(s1, ws) {
            Err(e) => (s1, Err(e)),
            Ok(s2) => {
                let s3 = if snapshot_floats(ws) {
                    s2
                } else {
                    with_context(s2, k, unmaximized(s2.contexts[k]))
                };
                (
                    if ws.focused {
                        focused_state(s3, ws.id@)
                    } else {
                        s3
                    },
                    Ok(k),
                )
            },
        }
    }
}

/// `c2` is the context `c` once its tiled window `w` has left: the split above
/// it gives way to its sibling, a maximized `w` is no longer maximized, and a
/// next split target `w` gives way to some window left in the tree.
pub open spec fn context_without(c: ContextView, w: Seq<char>, c2: ContextView) -> bool {
    &&& c2.work_area == c.work_area
    &&& c2.tree == c.tree->0.remove(w)
    &&& if c.hint == Some(w) {
        match c2.hint {
            None => c2.tree is None,
            Some(h) => view_wins(c2.tree).contains(h),
        }
    } else {
        c2.hint == c.hint
    }
    &&& c2.maximized == if c.maximized == Some(w) {
        None
    } else {
        c.maximized
    }
}

/// `s2` is `s` with every context but `k` kept and `k` as `context_without` says.
pub open spec fn left_context(s: EngineView, k: ContextKey, w: Seq<char>, s2: EngineView) -> bool {
    &&& s2.contexts == s.contexts.insert(k, s2.contexts[k])
    &&& context_without(s.contexts[k], w, s2.contexts[k])
}

/// `s2` is `s` once the known window `w` has been forgotten.
pub open spec fn removed(s: EngineView, w: Seq<char>, s2: EngineView) -> bool {
    let r = s.records[w];
    &&& s2.config == s.config
    &&& s2.records == s.records.remove(w)
    &&& s2.focused == if s.focused == Some(w) {
        None
    } else {
        s.focused
    }
    &&& if r.floating {
        s2.contexts == s.contexts
    } else {
        left_context(s, r.context, w, s2)
    }
}

/// Moving the known tiled window `w` to `k2` first records it there.
pub open spec fn move_record(s: EngineView, w: Seq<char>, k2: ContextKey, wa: Rect) -> EngineView {
    with_record(
        with_work_area(s, k2, wa),
        w,
        WindowRecord { context: k2, floating: s.records[w].floating },
    )
}

/// The contexts to lay out again after moving `w` to `k2`, or the error.
pub open spec fn move_keys(s: EngineView, w: crate::protocol::WindowId, k2: ContextKey, wa: Rect) -> Result<
    Seq<ContextKey>,
    EngineError,
> {
    if !spec_is_valid(wa) {
        Err(EngineError::InvalidWorkArea(k2.workspace, k2.monitor))
    } else if !s.records.contains_key(w@) {
        Err(EngineError::UnknownWindow(w))
    } else {
        let r = s.records[w@];
        if r.context == k2 {
            Ok(seq![k2])
        } else if r.floating {
            Ok(seq![r.context, k2])
        } else {
            match tile_outcome(move_record(s, w@, k2, wa), w@, k2) {
                Err(tr) => Err(
                    EngineError::Tree(TreeError::CannotSplit { width: tr.width, height: tr.height }),
                ),
                Ok(_) => Ok(seq![r.context, k2]),
            }
        }
    }
}

/// `s2` is `s` after moving `w` to the context `k2` whose work area is `wa`.
/// A tiled window leaves its old tree and is tiled into the new one, and no
/// window of the new context stays maximized; when it cannot be tiled there,
/// only the new work area stays.
pub open spec fn moved(s: EngineView, w: Seq<char>, k2: ContextKey, wa: Rect, s2: EngineView) -> bool {
    if !spec_is_valid(wa) || !s.records.contains_key(w) {
        s2 == s
    } else {
        let r = s.records[w];
        let s1 = with_work_area(s, k2, wa);
        if r.context == k2 {
            s2 == s1
        } else if r.floating {
            s2 == move_record(s, w, k2, wa)
        } else {
            let sm = move_record(s, w, k2, wa);
            match tile_outcome(sm, w, k2) {
                Err(_) => s2 == s1,
                Ok(t) => {
                    &&& s2.config == s.config
                    &&& s2.records == sm.records
                    &&& s2.focused == s.focused
                    &&& s2.contexts == s1.contexts.insert(
                        k2,
                        ContextView { work_area: wa, tree: Some(t), hint: Some(w), maximized: None },
                    ).insert(r.context, s2.contexts[r.context])
                    &&& context_without(s1.contexts[r.context], w, s2.contexts[r.context])
                },
            }
        }
    }
}

/// Where each tiled window of `k` goes.
pub open spec fn context_layout(s: EngineView, k: ContextKey) -> Seq<(Seq<char>, Rect)> {
    let c = s.contexts[k];
    spec_layout(c.tree, c.work_area, s.config.outer_gap, s.config.inner_gap)
}

/// The window that moving from the known window `w` toward `d` reaches; a
/// floating window has no neighbour.
pub open spec fn neighbor(s: EngineView, w: Seq<char>, d: Direction) -> Option<Seq<char>> {
    let r = s.records[w];
    if r.floating {
        None
    } else {
        nav_target(context_layout(s, r.context), w, d)
    }
}

/// Swapping the known window `w` with its neighbour toward `d`; a maximized
/// `w` is restored first.
pub open spec fn swapped_state(s: EngineView, w: Seq<char>, d: Direction) -> EngineView {
    let k = s.records[w].context;
    let c = s.contexts[k];
    let c1 = if c.maximized == Some(w) {
        unmaximized(c)
    } else {
        c
    };
    match neighbor(s, w, d) {
        None => with_context(s, k, c1),
        Some(n) => with_context(
            s,
            k,
            ContextView {
                work_area: c1.work_area,
                tree: Some(c.tree->0.swap(w, n)),
                hint: c1.hint,
                maximized: c1.maximized,
            },
        ),
    }
}

/// Resizing the known window `w` toward `d` by the configured step; a
/// maximized `w` is restored. A floating window is left alone.
pub open spec fn resized_state(s: EngineView, w: Seq<char>, d: Direction) -> EngineView {
    let r = s.records[w];
    if r.floating {
        s
    } else {
        let c = s.contexts[r.context];
        with_context(
            s,
            r.context,
            ContextView {
                work_area: c.work_area,
                tree: Some(c.tree->0.resize(w, d, s.config.resize_step as i32).0),
                hint: c.hint,
                maximized: if c.maximized == Some(w) {
                    None
                } else {
                    c.maximized
                },
            },
        )
    }
}

/// Toggling floating on `w`: the context to lay out again, or the error.
pub open spec fn float_result(s: EngineView, w: crate::protocol::WindowId) -> Result<
    ContextKey,
    EngineError,
> {
    if !s.records.contains_key(w@) {
        Err(EngineError::UnknownWindow(w))
    } else {
        let r = s.records[w@];
        if r.floating {
            match tile_outcome(
                with_record(s, w@, WindowRecord { context: r.context, floating: false }),
                w@,
                r.context,
            ) {
                Err(tr) => Err(
                    EngineError::Tree(TreeError::CannotSplit { width: tr.width, height: tr.height }),
                ),
                Ok(_) => Ok(r.context),
            }
        } else {
            Ok(r.context)
        }
    }
}

/// `s2` is `s` after toggling floating on `w`: a floating window is tiled
/// again (and no window of its context stays maximized), a tiled one leaves
/// its tree. When the window cannot be tiled, nothing changes.
pub open spec fn floated(s: EngineView, w: Seq<char>, s2: EngineView) -> bool {
    if !s.records.contains_key(w) {
        s2 == s
    } else {
        let r = s.records[w];
        if r.floating {
            let s1 = with_record(s, w, WindowRecord { context: r.context, floating: false });
            match tile_outcome(s1, w, r.context) {
                Err(_) => s2 == s,
                Ok(t) => s2 == with_context(
                    s1,
                    r.context,
                    ContextView {
                        work_area: s.contexts[r.context].work_area,
                        tree: Some(t),
                        hint: Some(w),
                        maximized: None,
                    },
                ),
            }
        } else {
            &&& s2.config == s.config
            &&& s2.records == s.records.insert(w, WindowRecord { context: r.context, floating: true })
            &&& s2.focused == s.focused
            &&& left_context(s, r.context, w, s2)
        }
    }
}

/// Toggling maximize on the known window `w`: a tiled window is maximized (and
/// focused) or restored; a floating one is left alone.
pub open spec fn maximize_toggled(s: EngineView, w: Seq<char>) -> EngineView {
    let r = s.records[w];
    let c = s.contexts[r.context];
    if r.floating {
        s
    } else if c.maximized == Some(w) {
        with_context(s, r.context, unmaximized(c))
    } else {
        EngineView {
            config: s.config,
            contexts: s.contexts.insert(
                r.context,
                ContextView { work_area: c.work_area, tree: c.tree, hint: Some(w), maximized: Some(w) },
            ),
            records: s.records,
            focused: Some(w),
        }
    }
}

/// `ps` with the rectangle of the window `w` replaced by `r`.
pub open spec fn with_rect(ps: Seq<(Seq<char>, Rect)>, w: Seq<char>, r: Rect) -> Seq<
    (Seq<char>, Rect),
> {
    ps.map_values(|p: (Seq<char>, Rect)| if p.0 == w { (p.0, r) } else { p })
}

/// The layout shown: a maximized window covers the work area.
pub open spec fn presented(ps: Seq<(Seq<char>, Rect)>, maximized: Option<Seq<char>>, wa: Rect) -> Seq<
    (Seq<char>, Rect),
> {
    match maximized {
        None => ps,
        Some(w) => with_rect(ps, w, wa),
    }
}

/// Where each tiled window of the context `k` goes, ordered by window id;
/// nothing for an unknown context.
pub open spec fn context_placements(s: EngineView, k: ContextKey) -> Seq<(Seq<char>, Rect)> {
    if s.contexts.contains_key(k) {
        let c = s.contexts[k];
        sort_by_id(presented(context_layout(s, k), c.maximized, c.work_area))
    } else {
        Seq::empty()
    }
}

/// The placements of the contexts of `q`, one context after the other.
pub open spec fn placements_of(s: EngineView, q: Seq<ContextKey>) -> Seq<(Seq<char>, Rect)>
    decreases q.len(),
{
    if q.len() == 0 {
        Seq::empty()
    } else {
        placements_of(s, q.drop_last()) + context_placements(s, q.last())
    }
}

/// The keys of `q` strictly ascend.
pub open spec fn keys_ascending(q: Seq<ContextKey>) -> bool {
    forall|i: int, j: int| 0 <= i < j < q.len() ==> context_lt(#[trigger] q[i], #[trigger] q[j])
}

/// The keys of `ks` in ascending order.
pub open spec fn ascending(ks: Set<ContextKey>) -> Seq<ContextKey> {
    choose|q: Seq<ContextKey>| keys_ascending(q) && q.to_set() == ks
}

/// Two ascending lists of the same keys are the same list.
pub proof fn lemma_ascending_unique(a: Seq<ContextKey>, b: Seq<ContextKey>)
    requires
        keys_ascending(a),
        keys_ascending(b),
        a.to_set() == b.to_set(),
    ensures
        a == b,
    decreases a.len(),
{
    if a.len() == 0 {
        if b.len() > 0 {
            assert(b.to_set().contains(b[0]));
        }
        assert(a =~= b);
    } else {
        assert(a.to_set().contains(a[0]));
        assert(b.len() > 0);
        assert(b.to_set().contains(b[0]));
        let j = choose|j: int| 0 <= j < b.len() && b[j] == a[0];
        let i = choose|i: int| 0 <= i < a.len() && a[i] == b[0];
        if j > 0 {
            assert(context_lt(b[0], b[j]));
            if i > 0 {
                assert(context_lt(a[0], a[i]));
            }
        }
        assert(b[0] == a[0]);
        let a2 = a.drop_first();
        let b2 = b.drop_first();
        assert(keys_ascending(a2)) by {
            assert forall|x: int, y: int| 0 <= x < y < a2.len() implies context_lt(
                #[trigger] a2[x],
                #[trigger] a2[y],
            ) by {
                assert(a2[x] == a[x + 1] && a2[y] == a[y + 1]);
            }
        }
        assert(keys_ascending(b2)) by {
            assert forall|x: int, y: int| 0 <= x < y < b2.len() implies context_lt(
                #[trigger] b2[x],
                #[trigger] b2[y],
            ) by {
                assert(b2[x] == b[x + 1] && b2[y] == b[y + 1]);
            }
        }
        assert forall|k: ContextKey| a2.to_set().contains(k) implies b2.to_set().contains(k) by {
            let x = choose|x: int| 0 <= x < a2.len() && a2[x] == k;
            assert(a[x + 1] == k);
            assert(context_lt(a[0], a[x + 1]));
            assert(b.to_set().contains(k));
            let y = choose|y: int| 0 <= y < b.len() && b[y] == k;
            assert(y != 0);
            assert(b2[y - 1] == k);
        }
        assert forall|k: ContextKey| b2.to_set().contains(k) implies a2.to_set().contains(k) by {
            let y = choose|y: int| 0 <= y < b2.len() && b2[y] == k;
            assert(b[y + 1] == k);
            assert(context_lt(b[0], b[y + 1]));
            assert(a.to_set().contains(k));
            let x = choose|x: int| 0 <= x < a.len() && a[x] == k;
            assert(x != 0);
            assert(a2[x - 1] == k);
        }
        assert(a2.to_set() =~= b2.to_set());
        lemma_ascending_unique(a2, b2);
        assert(a =~= seq![a[0]] + a2);
        assert(b =~= seq![b[0]] + b2);
    }
}

/// An ascending list is the ascending list of its keys.
pub proof fn lemma_ascending(q: Seq<ContextKey>)
    requires
        keys_ascending(q),
    ensures
        ascending(q.to_set()) == q,
{
    let a = ascending(q.to_set());
    assert(keys_ascending(q) && q.to_set() == q.to_set());
    lemma_ascending_unique(a, q);
}

/// Every placement of every context, contexts in ascending order.
pub open spec fn all_placements(s: EngineView) -> Seq<(Seq<char>, Rect)> {
    placements_of(s, ascending(s.contexts.dom()))
}

/// The error of the first invalid work area, if any.
pub open spec fn area_error(areas: Seq<WorkAreaSnapshot>) -> Option<EngineError>
    decreases areas.len(),
{
    if areas.len() == 0 {
        None
    } else if !spec_is_valid(areas[0].rect) {
        Some(EngineError::InvalidWorkArea(areas[0].context.workspace, areas[0].context.monitor))
    } else {
        area_error(areas.drop_first())
    }
}

/// One empty context per work area; of two areas of one context, the later wins.
pub open spec fn areas_map(areas: Seq<WorkAreaSnapshot>) -> Map<ContextKey, ContextView>
    decreases areas.len(),
{
    if areas.len() == 0 {
        Map::empty()
    } else {
        areas_map(areas.drop_last()).insert(areas.last().context, fresh_context(areas.last().rect))
    }
}

/// The first window of the snapshot that is focused.
pub open spec fn first_focused(ws: Seq<WindowSnapshot>) -> Option<Seq<char>>
    decreases ws.len(),
{
    if ws.len() == 0 {
        None
    } else if ws[0].focused {
        Some(ws[0].id@)
    } else {
        first_focused(ws.drop_first())
    }
}

/// Adding the windows of `ws` one after the other, stopping at the first error.
pub open spec fn add_all(s: EngineView, ws: Seq<WindowSnapshot>) -> Result<EngineView, EngineError>
    decreases ws.len(),
{
    if ws.len() == 0 {
        Ok(s)
    } else {
        match add_all(s, ws.drop_last()) {
            Err(e) => Err(e),
            Ok(s1) => add_snapshot_result(s1, ws.last()),
        }
    }
}

/// The state that a full sync builds: one empty context per work area, then
/// the windows added in the order of their ids, then the first focused window
/// of the snapshot focused.
pub open spec fn full_sync_result(
    windows: Seq<WindowSnapshot>,
    areas: Seq<WorkAreaSnapshot>,
    config: Config,
) -> Result<EngineView, EngineError> {
    match area_error(areas) {
        Some(e) => Err(e),
        None => {
            let s0 = EngineView {
                config: spec_sanitized(config),
                contexts: areas_map(areas),
                records: Map::empty(),
                focused: first_focused(windows),
            };
            match add_all(s0, sort_by(windows, snapshot_key())) {
                Err(e) => Err(e),
                Ok(s1) => match s1.focused {
                    None => Ok(s1),
                    Some(f) => Ok(focused_state(s1, f)),
                },
            }
        },
    }
}

/// The response lists these placements.
pub open spec fn placements_response(r: Result<Response, EngineError>, ps: Seq<(Seq<char>, Rect)>) -> bool {
    r matches Ok(Response::Placements { placements }) && placement_views(placements@) == ps
}

/// The machine limits a command needs: room for one more window, or for all
/// the windows of a snapshot.
pub open spec fn within_limits(s: EngineView, cmd: Command) -> bool {
    match cmd {
        Command::FullSync { snapshot, .. } => snapshot.windows@.len() <= MAX_WINDOWS,
        Command::AddWindow { .. } => s.records.len() < MAX_WINDOWS,
        Command::WindowContextChanged { .. } => s.records.len() < MAX_WINDOWS,
        Command::ToggleFloating { .. } => s.records.len() < MAX_WINDOWS,
        _ => true,
    }
}

/// What one command does: `s2` is the state after it, `r` its answer. A
/// command on an unknown window is refused and changes nothing.
pub open spec fn applied(s: EngineView, cmd: Command, s2: EngineView, r: Result<Response, EngineError>) -> bool {
    match cmd {
        Command::FullSync { snapshot, config } => match full_sync_result(
            snapshot.windows@,
            snapshot.work_areas@,
            config,
        ) {
            Err(e) => s2 == s && r == Err::<Response, EngineError>(e),
            Ok(s1) => s2 == s1 && placements_response(r, all_placements(s1)),
        },
        Command::Configure { config } => {
            &&& s2 == EngineView {
                config: spec_sanitized(config),
                contexts: s.contexts,
                records: s.records,
                focused: s.focused,
            }
            &&& placements_response(r, all_placements(s2))
        },
        Command::AddWindow { window, work_area } => {
            let (s1, res) = add_window_result(s, window, work_area);
            &&& s2 == s1
            &&& match res {
                Err(e) => r == Err::<Response, EngineError>(e),
                Ok(k) => placements_response(r, context_placements(s1, k)),
            }
        },
        Command::RemoveWindow { window_id } => if !s.records.contains_key(window_id@) {
            s2 == s && r == Err::<Response, EngineError>(EngineError::UnknownWindow(window_id))
        } else {
            &&& removed(s, window_id@, s2)
            &&& placements_response(r, context_placements(s2, s.records[window_id@].context))
        },
        Command::FocusWindow { window_id } => if !s.records.contains_key(window_id@) {
            s2 == s && r == Err::<Response, EngineError>(EngineError::UnknownWindow(window_id))
        } else {
            &&& s2 == focused_state(s, window_id@)
            &&& if focus_restores(s, window_id@) {
                placements_response(r, context_placements(s2, s.records[window_id@].context))
            } else {
                r == Ok::<Response, EngineError>(Response::Ack)
            }
        },
        Command::WindowContextChanged { window_id, context, work_area } => {
            &&& moved(s, window_id@, context, work_area, s2)
            &&& match move_keys(s, window_id, context, work_area) {
                Err(e) => r == Err::<Response, EngineError>(e),
                Ok(q) => placements_response(r, placements_of(s2, ascending(q.to_set()))),
            }
        },
        Command::Relayout { context } => {
            &&& s2 == s
            &&& placements_response(
                r,
                match context {
                    Some(k) => context_placements(s, k),
                    None => all_placements(s),
                },
            )
        },
        Command::FocusDirection { window_id, direction } => if !s.records.contains_key(
            window_id@,
        ) {
            s2 == s && r == Err::<Response, EngineError>(EngineError::UnknownWindow(window_id))
        } else {
            match neighbor(s, window_id@, direction) {
                None => s2 == s && r == Ok::<Response, EngineError>(Response::Ack),
                Some(t) => {
                    &&& s2 == focused_state(s, t)
                    &&& if focus_restores(s, t) {
                        &&& r matches Ok(Response::PlacementsAndFocus { placements, window_id: f })
                        &&& r->Ok_0->PlacementsAndFocus_window_id@ == t
                        &&& placement_views(r->Ok_0->PlacementsAndFocus_placements@)
                            == context_placements(s2, s.records[window_id@].context)
                    } else {
                        &&& r matches Ok(Response::Focus { window_id: f })
                        &&& r->Ok_0->Focus_window_id@ == t
                    }
                },
            }
        },
        Command::MoveDirection { window_id, direction } => if !s.records.contains_key(window_id@) {
            s2 == s && r == Err::<Response, EngineError>(EngineError::UnknownWindow(window_id))
        } else {
            &&& s2 == swapped_state(s, window_id@, direction)
            &&& placements_response(r, context_placements(s2, s.records[window_id@].context))
        },
        Command::Resize { window_id, direction } => if !s.records.contains_key(window_id@) {
            s2 == s && r == Err::<Response, EngineError>(EngineError::UnknownWindow(window_id))
        } else {
            &&& s2 == resized_state(s, window_id@, direction)
            &&& placements_response(r, context_placements(s2, s.records[window_id@].context))
        },
        Command::ToggleFloating { window_id } => {
            &&& floated(s, window_id@, s2)
            &&& match float_result(s, window_id) {
                Err(e) => r == Err::<Response, EngineError>(e),
                Ok(k) => placements_response(r, context_placements(s2, k)),
            }
        },
        Command::ToggleMaximize { window_id } => if !s.records.contains_key(window_id@) {
            s2 == s && r == Err::<Response, EngineError>(EngineError::UnknownWindow(window_id))
        } else {
            &&& s2 == maximize_toggled(s, window_id@)
            &&& if s.records[window_id@].floating {
                r == Ok::<Response, EngineError>(Response::Ack)
            } else {
                placements_response(r, context_placements(s2, s.records[window_id@].context))
            }
        },
    }
}

} // verus!
