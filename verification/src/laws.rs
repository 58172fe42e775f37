//! What holds of the engine across its commands.
use vstd::prelude::*;

use crate::geometry::{spec_contains, spec_inset, spec_is_valid, Rect};
use crate::ktree_ops::swapped;
use crate::order::{lemma_sort_by_perm, placement_key, sort_by};
use crate::protocol::{Command, ContextKey, Direction, Response, WindowSnapshot};
use crate::state::EngineError;
use crate::state_spec::{
    add_window_result, applied, consistent, context_layout, context_placements, floated,
    focused_state, maximize_toggled, neighbor, presented, removed, snapshot_floats,
    swapped_state, tiled_focus, with_rect, with_record, with_work_area, EngineView,
    WindowRecord,
};
use crate::tree::view_wins;
use crate::tree_laws::{
    lemma_inset_inside, lemma_layout_entries, lemma_remove_keeps, law_layout_inside,
    law_swap_layout,
};

verus! {

/// A refused command changes nothing, except that adding or moving a window
/// keeps the new work area it named for its context.
pub proof fn law_refused_command(
    s: EngineView,
    cmd: Command,
    s2: EngineView,
    r: Result<Response, EngineError>,
)
    requires
        consistent(s),
        applied(s, cmd, s2, r),
        r is Err,
    ensures
        match cmd {
            Command::AddWindow { window, work_area } => s2 == s || s2 == with_work_area(
                s,
                window.context,
                work_area,
            ),
            Command::WindowContextChanged { context, work_area, .. } => s2 == s || s2
                == with_work_area(s, context, work_area),
            _ => s2 == s,
        },
{
}

/// The contexts that a command may change (a full sync rebuilds all of them).
pub open spec fn command_contexts(s: EngineView, cmd: Command) -> Set<ContextKey> {
    match cmd {
        Command::FullSync { .. } => s.contexts.dom(),
        Command::Configure { .. } => Set::empty(),
        Command::Relayout { .. } => Set::empty(),
        Command::AddWindow { window, .. } => set![window.context],
        Command::WindowContextChanged { window_id, context, .. } => if s.records.contains_key(
            window_id@,
        ) {
            set![context, s.records[window_id@].context]
        } else {
            set![context]
        },
        Command::RemoveWindow { window_id } => own_context(s, window_id@),
        Command::FocusWindow { window_id } => own_context(s, window_id@),
        Command::FocusDirection { window_id, .. } => own_context(s, window_id@),
        Command::MoveDirection { window_id, .. } => own_context(s, window_id@),
        Command::Resize { window_id, .. } => own_context(s, window_id@),
        Command::ToggleFloating { window_id } => own_context(s, window_id@),
        Command::ToggleMaximize { window_id } => own_context(s, window_id@),
    }
}

/// The context of a known window.
pub open spec fn own_context(s: EngineView, w: Seq<char>) -> Set<ContextKey> {
    if s.records.contains_key(w) {
        set![s.records[w].context]
    } else {
        Set::empty()
    }
}

/// Every workspace and monitor has a layout of its own: a command other than
/// a full sync leaves every context that it is not about as it was.
#[verifier::rlimit(40)]
pub proof fn law_contexts_independent(
    s: EngineView,
    cmd: Command,
    s2: EngineView,
    r: Result<Response, EngineError>,
    k: ContextKey,
)
    requires
        consistent(s),
        applied(s, cmd, s2, r),
        !(cmd is FullSync),
        s.contexts.contains_key(k),
        !command_contexts(s, cmd).contains(k),
    ensures
        s2.contexts.contains_key(k),
        s2.contexts[k] == s.contexts[k],
{
    if let Command::FocusDirection { window_id, direction } = cmd {
        if s.records.contains_key(window_id@) {
            if let Some(t) = neighbor(s, window_id@, direction) {
                let kw = s.records[window_id@].context;
                let c = s.contexts[kw];
                lemma_neighbor_tiled(s, window_id@, direction);
                assert(s.records[t].context == kw);
            }
        }
    }
}

/// The neighbour of a window is tiled in the same context.
pub proof fn lemma_neighbor_tiled(s: EngineView, w: Seq<char>, d: Direction)
    requires
        consistent(s),
        s.records.contains_key(w),
    ensures
        neighbor(s, w, d) matches Some(t) ==> {
            &&& t != w
            &&& s.records.contains_key(t)
            &&& s.records[t] == s.records[w]
        },
{
    let r = s.records[w];
    if !r.floating {
        let c = s.contexts[r.context];
        let ps = context_layout(s, r.context);
        lemma_layout_entries(c.tree, c.work_area, s.config.outer_gap, s.config.inner_gap);
        if let Some(t) = neighbor(s, w, d) {
            let wit = choose|n: Seq<char>| crate::navigation::nav_result(ps, w, d, Some(n));
            assert(crate::navigation::nav_result(ps, w, d, Some(t)));
            let (si, i) = choose|si: int, i: int| {
                &&& crate::navigation::has_entry(ps, w, si)
                &&& crate::navigation::is_best(ps, w, ps[si].1, d, i)
                &&& ps[i].0 == t
            };
            assert(crate::navigation::is_candidate(ps, w, ps[si].1, d, i));
            assert(view_wins(c.tree).contains(ps[i].0));
        }
    }
}

/// Maximizing is presentation only: toggling it changes no tree, no work
/// area, no record, and no context comes or goes.
pub proof fn law_maximize_keeps_trees(s: EngineView, w: Seq<char>)
    requires
        consistent(s),
        s.records.contains_key(w),
    ensures
        maximize_toggled(s, w).records == s.records,
        maximize_toggled(s, w).contexts.dom() == s.contexts.dom(),
        forall|k: ContextKey| #[trigger]
            s.contexts.contains_key(k) ==> {
                &&& maximize_toggled(s, w).contexts[k].tree == s.contexts[k].tree
                &&& maximize_toggled(s, w).contexts[k].work_area == s.contexts[k].work_area
            },
{
    let r = s.records[w];
    if !r.floating {
        assert(s.contexts.contains_key(r.context) ==> maximize_toggled(s, w).contexts.dom() =~= s.contexts.dom());
    }
}

/// Maximizing a tiled window and toggling again restores it: nothing is
/// maximized in its context any more, and its tree is as it was.
pub proof fn law_maximize_twice(s: EngineView, w: Seq<char>)
    requires
        consistent(s),
        s.records.contains_key(w),
        !s.records[w].floating,
        s.contexts[s.records[w].context].maximized != Some(w),
    ensures
        ({
            let k = s.records[w].context;
            let s1 = maximize_toggled(s, w);
            let s2 = maximize_toggled(s1, w);
            &&& s1.contexts[k].maximized == Some(w)
            &&& s2.contexts[k].maximized is None
            &&& s2.contexts[k].tree == s.contexts[k].tree
            &&& s2.records == s.records
        }),
{
}

/// A maximized window covers the whole work area of its context.
pub proof fn law_maximized_covers_work_area(s: EngineView, k: ContextKey)
    requires
        consistent(s),
        s.contexts.contains_key(k),
        s.contexts[k].maximized is Some,
    ensures
        context_placements(s, k).contains((s.contexts[k].maximized->0, s.contexts[k].work_area)),
{
    let c = s.contexts[k];
    let m = c.maximized->0;
    let ps = context_layout(s, k);
    lemma_layout_entries(c.tree, c.work_area, s.config.outer_gap, s.config.inner_gap);
    let i = choose|i: int| 0 <= i < ps.len() && ps[i].0 == m;
    let shown = with_rect(ps, m, c.work_area);
    assert(shown[i] == (m, c.work_area));
    assert(shown.contains((m, c.work_area)));
    lemma_sort_by_perm(shown, placement_key());
}

/// Every placement of a context is a valid rectangle inside its work area.
pub proof fn law_placements_inside(s: EngineView, k: ContextKey)
    requires
        consistent(s),
        s.contexts.contains_key(k),
    ensures
        forall|i: int|
            0 <= i < context_placements(s, k).len() ==> {
                &&& spec_is_valid(#[trigger] context_placements(s, k)[i].1)
                &&& spec_contains(s.contexts[k].work_area, context_placements(s, k)[i].1)
            },
{
    let c = s.contexts[k];
    let wa = c.work_area;
    let inner = spec_inset(wa, s.config.outer_gap);
    let ps = context_layout(s, k);
    let shown = presented(ps, c.maximized, wa);
    lemma_inset_inside(wa, s.config.outer_gap);
    if let Some(t) = c.tree {
        law_layout_inside(t, inner, s.config.inner_gap);
    }
    assert forall|j: int| 0 <= j < shown.len() implies spec_is_valid(#[trigger] shown[j].1)
        && spec_contains(wa, shown[j].1) by {
        assert(spec_is_valid(ps[j].1) && spec_contains(inner, ps[j].1));
    }
    lemma_sort_by_perm(shown, placement_key());
    let out = context_placements(s, k);
    assert forall|i: int| 0 <= i < out.len() implies {
        &&& spec_is_valid(#[trigger] out[i].1)
        &&& spec_contains(wa, out[i].1)
    } by {
        assert(sort_by(shown, placement_key()).contains(out[i]));
        assert(shown.contains(out[i]));
        let j = choose|j: int| 0 <= j < shown.len() && shown[j] == out[i];
        assert(spec_is_valid(shown[j].1));
    }
}

/// The placements of a context name exactly its tiled windows, one entry per window.
pub proof fn law_placements_windows(s: EngineView, k: ContextKey)
    requires
        consistent(s),
        s.contexts.contains_key(k),
    ensures
        context_placements(s, k).len() == view_wins(s.contexts[k].tree).len(),
        forall|w: Seq<char>|
            view_wins(s.contexts[k].tree).contains(w) <==> exists|i: int|
                0 <= i < context_placements(s, k).len() && #[trigger] context_placements(s, k)[i].0 == w,
{
    let c = s.contexts[k];
    let ps = context_layout(s, k);
    let shown = presented(ps, c.maximized, c.work_area);
    let out = context_placements(s, k);
    lemma_layout_entries(c.tree, c.work_area, s.config.outer_gap, s.config.inner_gap);
    lemma_sort_by_perm(shown, placement_key());
    assert forall|j: int| 0 <= j < shown.len() implies #[trigger] shown[j].0 == ps[j].0 by {}
    match c.tree {
        None => {
            assert(view_wins(c.tree) =~= Set::empty());
        },
        Some(t) => {
            let rr = spec_inset(c.work_area, s.config.outer_gap);
            crate::ktree::lemma_layout_windows(t, rr, s.config.inner_gap);
            let fst = ps.map_values(|p: (Seq<char>, Rect)| p.0);
            assert(fst == t.order());
            t.order().unique_seq_to_set();
            assert(ps.len() == t.order().len());
        },
    }
    assert forall|w: Seq<char>|
        view_wins(c.tree).contains(w) <==> exists|i: int| 0 <= i < out.len() && #[trigger] out[i].0 == w by {
        if view_wins(c.tree).contains(w) {
            let j = choose|j: int| 0 <= j < ps.len() && ps[j].0 == w;
            assert(shown[j].0 == w);
            assert(shown.contains(shown[j]));
            assert(out.contains(shown[j]));
            let i = choose|i: int| 0 <= i < out.len() && out[i] == shown[j];
            assert(out[i].0 == w);
        }
        if exists|i: int| 0 <= i < out.len() && #[trigger] out[i].0 == w {
            let i = choose|i: int| 0 <= i < out.len() && #[trigger] out[i].0 == w;
            assert(out.contains(out[i]));
            assert(shown.contains(out[i]));
            let j = choose|j: int| 0 <= j < shown.len() && shown[j] == out[i];
            assert(ps[j].0 == w);
        }
    }
}

/// Swapping with the neighbour exchanges the places of the two windows; every
/// other window keeps its place.
pub proof fn law_swap_exchanges(s: EngineView, w: Seq<char>, d: Direction)
    requires
        consistent(s),
        s.records.contains_key(w),
        neighbor(s, w, d) is Some,
    ensures
        ({
            let k = s.records[w].context;
            let n = neighbor(s, w, d)->0;
            context_layout(swapped_state(s, w, d), k) == context_layout(s, k).map_values(
                |p: (Seq<char>, Rect)| (swapped(w, n, p.0), p.1),
            )
        }),
{
    let k = s.records[w].context;
    let c = s.contexts[k];
    let n = neighbor(s, w, d)->0;
    law_swap_layout(
        c.tree->0,
        w,
        n,
        spec_inset(c.work_area, s.config.outer_gap),
        s.config.inner_gap,
    );
}

/// Floating a tiled window takes it out of its tree; tiling it again, when
/// that succeeds, puts it back into the tree of its context.
pub proof fn law_float_round_trip(s: EngineView, w: Seq<char>, s1: EngineView, s2: EngineView)
    requires
        consistent(s),
        s.records.contains_key(w),
        !s.records[w].floating,
        floated(s, w, s1),
        floated(s1, w, s2),
    ensures
        ({
            let k = s.records[w].context;
            &&& s1.records[w].floating
            &&& !view_wins(s1.contexts[k].tree).contains(w)
            &&& s2 == s1 || {
                &&& s2.records[w] == s.records[w]
                &&& view_wins(s2.contexts[k].tree).contains(w)
            }
        }),
{
    let k = s.records[w].context;
    lemma_remove_keeps(s.contexts[k].tree->0, w);
    let sm = crate::state_spec::with_record(
        s1,
        w,
        crate::state_spec::WindowRecord { context: k, floating: false },
    );
    crate::tree_laws::lemma_insert_keeps(
        sm.contexts[k].tree,
        sm.contexts[k].hint,
        w,
        tiled_focus(sm, k),
        sm.contexts[k].work_area,
        sm.config,
    );
}

/// Focusing a tiled window makes it the focused window and the target of the
/// next insertion into its context.
pub proof fn law_focus_targets_insertion(s: EngineView, w: Seq<char>)
    requires
        consistent(s),
        s.records.contains_key(w),
        !s.records[w].floating,
    ensures
        ({
            let k = s.records[w].context;
            let s2 = focused_state(s, w);
            &&& s2.focused == Some(w)
            &&& tiled_focus(s2, k) == Some(w)
            &&& s2.contexts[k].hint == Some(w)
            &&& view_wins(s2.contexts[k].tree).contains(w)
        }),
{
}

/// A removed window is no longer known, tiled anywhere, or focused.
pub proof fn law_removed_is_forgotten(s: EngineView, w: Seq<char>, s2: EngineView)
    requires
        consistent(s),
        s.records.contains_key(w),
        removed(s, w, s2),
    ensures
        !s2.records.contains_key(w),
        s2.focused != Some(w),
        forall|k: ContextKey| #[trigger]
            s2.contexts.contains_key(k) ==> !view_wins(s2.contexts[k].tree).contains(w),
{
    let r = s.records[w];
    if !r.floating {
        lemma_remove_keeps(s.contexts[r.context].tree->0, w);
    }
    assert forall|k: ContextKey| #[trigger] s2.contexts.contains_key(k) implies !view_wins(
        s2.contexts[k].tree,
    ).contains(w) by {
        if k != r.context || r.floating {
            if view_wins(s.contexts[k].tree).contains(w) {
                assert(s.records[w].context == k);
            }
        }
    }
}

/// A full sync rebuilds the state from the snapshot alone: two engines that
/// sync the same snapshot end up the same, whatever they held before.
pub proof fn law_full_sync_rebuilds(
    s: EngineView,
    t: EngineView,
    cmd: Command,
    s2: EngineView,
    t2: EngineView,
    r: Result<Response, EngineError>,
    q: Result<Response, EngineError>,
)
    requires
        cmd is FullSync,
        applied(s, cmd, s2, r),
        applied(t, cmd, t2, q),
        r is Ok,
        q is Ok,
    ensures
        s2 == t2,
{
}

/// Adding a tiled window and removing it again gives back the tree of its
/// context and the records.
pub proof fn law_add_then_remove(
    s: EngineView,
    ws: WindowSnapshot,
    wa: Rect,
    s1: EngineView,
    k: ContextKey,
    s2: EngineView,
)
    requires
        consistent(s),
        add_window_result(s, ws, wa) == (s1, Ok::<ContextKey, EngineError>(k)),
        !snapshot_floats(ws),
        removed(s1, ws.id@, s2),
    ensures
        s2.contexts[k].tree == with_work_area(s, k, wa).contexts[k].tree,
        s2.records == s.records,
{
    let w = ws.id@;
    let sa = with_work_area(s, k, wa);
    let sr = with_record(sa, w, WindowRecord { context: k, floating: false });
    let c = sr.contexts[k];
    crate::tree_laws::law_insert_then_remove(c.tree, c.hint, w, tiled_focus(sr, k), c.work_area, sr.config);
    assert(s2.records =~= s.records);
}

/// Adding a window that floats (a fullscreen one, or one that is not a
/// normal window) leaves the tree, the next split target and the maximized
/// window of every context as they were.
pub proof fn law_floating_add_keeps_layouts(
    s: EngineView,
    ws: WindowSnapshot,
    wa: Rect,
    s2: EngineView,
    r: Result<Response, EngineError>,
)
    requires
        applied(s, Command::AddWindow { window: ws, work_area: wa }, s2, r),
        ws.fullscreen || ws.window_type@ != "normal"@,
    ensures
        forall|k: ContextKey| #[trigger]
            s.contexts.contains_key(k) ==> {
                &&& s2.contexts.contains_key(k)
                &&& s2.contexts[k].tree == s.contexts[k].tree
                &&& s2.contexts[k].hint == s.contexts[k].hint
                &&& s2.contexts[k].maximized == s.contexts[k].maximized
            },
{
}

/// Adding a window that is tiled ends the maximize of its own context only:
/// every other context keeps its maximized window.
pub proof fn law_tiled_add_unmaximizes_own_context(
    s: EngineView,
    ws: WindowSnapshot,
    wa: Rect,
    s2: EngineView,
    r: Result<Response, EngineError>,
)
    requires
        consistent(s),
        applied(s, Command::AddWindow { window: ws, work_area: wa }, s2, r),
        !ws.fullscreen,
        ws.window_type@ == "normal"@,
        r is Ok,
    ensures
        s2.contexts.contains_key(ws.context),
        s2.contexts[ws.context].maximized is None,
        view_wins(s2.contexts[ws.context].tree).contains(ws.id@),
        forall|k: ContextKey| #[trigger]
            s.contexts.contains_key(k) && k != ws.context ==> {
                &&& s2.contexts.contains_key(k)
                &&& s2.contexts[k] == s.contexts[k]
            },
{
    let k = ws.context;
    let w = ws.id@;
    let s1 = with_work_area(s, k, wa);
    let sr = with_record(s1, w, WindowRecord { context: k, floating: false });
    let c = sr.contexts[k];
    if let Some(t) = c.tree {
        assert(s.contexts.contains_key(k));
        if t.wins().contains(w) {
            assert(view_wins(s.contexts[k].tree).contains(w));
        }
    }
    crate::tree_laws::lemma_insert_keeps(c.tree, c.hint, w, tiled_focus(sr, k), c.work_area, sr.config);
}

/// Removing a floating window leaves every context as it was: tree, work
/// area, next split target and maximized window.
pub proof fn law_floating_remove_keeps_contexts(
    s: EngineView,
    w: crate::protocol::WindowId,
    s2: EngineView,
    r: Result<Response, EngineError>,
)
    requires
        applied(s, Command::RemoveWindow { window_id: w }, s2, r),
        s.records.contains_key(w@),
        s.records[w@].floating,
    ensures
        s2.contexts == s.contexts,
        !s2.records.contains_key(w@),
{
}

/// Removing a window ends a maximize only when it is the maximized window
/// itself; every context keeps its maximized window otherwise.
pub proof fn law_remove_keeps_other_maximize(
    s: EngineView,
    w: crate::protocol::WindowId,
    s2: EngineView,
    r: Result<Response, EngineError>,
)
    requires
        consistent(s),
        applied(s, Command::RemoveWindow { window_id: w }, s2, r),
    ensures
        forall|k: ContextKey| #[trigger]
            s.contexts.contains_key(k) ==> {
                &&& s2.contexts.contains_key(k)
                &&& s2.contexts[k].maximized == if s.contexts[k].maximized == Some(w@) {
                    None
                } else {
                    s.contexts[k].maximized
                }
            },
{
    if s.records.contains_key(w@) {
        let rec = s.records[w@];
        assert forall|k: ContextKey| #[trigger] s.contexts.contains_key(k) implies {
            &&& s2.contexts.contains_key(k)
            &&& s2.contexts[k].maximized == if s.contexts[k].maximized == Some(w@) {
                None
            } else {
                s.contexts[k].maximized
            }
        } by {
            if s.contexts[k].maximized == Some(w@) {
                assert(view_wins(s.contexts[k].tree).contains(w@));
                assert(s.records[w@] == (WindowRecord { context: k, floating: false }));
            }
            if !rec.floating && k != rec.context {
                assert(s2.contexts[k] == s.contexts.insert(rec.context, s2.contexts[rec.context])[k]);
            }
        }
    }
}

} // verus!
