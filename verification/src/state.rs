//! The engine: one layout tree per context, a record of every known window,
//! the focused window, and the maximized window of each context.
use vstd::prelude::*;
use vstd::string::*;

use crate::assoc::{
    has_key, keys_distinct, lemma_pairs_insert, lemma_pairs_map, lemma_pairs_remove,
    lemma_pairs_update, pairs_map,
};
use crate::geometry::Rect;
use crate::ktree_ops::swapped;
use crate::navigation::{best_candidate, has_entry, is_best, is_candidate, opt_id};
use crate::order::{lemma_sort_by_perm, snapshot_key, sort_by, sort_placements, sort_snapshots};
use crate::protocol::{
    spec_default_config, spec_sanitized, Command, Config, ContextKey, Direction, Placement,
    Response, Snapshot, WindowId, WindowSnapshot, WorkAreaSnapshot,
};
use crate::state_spec::{
    add_all, add_snapshot_result, add_window_result, all_placements, applied, area_error,
    areas_map, ascending, consistent, context_layout, context_placements, first_focused,
    float_result, floated, focus_restores, focused_state, full_sync_result, keys_ascending,
    layout_consistent, lemma_ascending, maximize_toggled, move_keys, move_record, moved,
    neighbor, placements_of, removed, resized_state, snapshot_floats, swapped_state,
    tile_outcome, tiled_focus, unmaximized, with_context, with_rect, with_record, with_tile,
    with_work_area, within_limits, ContextView, EngineView, WindowRecord,
};
use crate::tree::{placement_views, rect_views, view_wins, LayoutTree, TreeError, MAX_WINDOWS};
use crate::tree_laws::{
    lemma_insert_keeps, lemma_layout_entries, lemma_remove_keeps, lemma_resize_keeps,
    lemma_swap_keeps,
};

verus! {

#[derive(Debug, PartialEq, Eq)]
pub enum EngineError {
    InvalidWindowId,
    InvalidWorkArea(u32, u32),
    MissingContext(u32, u32),
    UnknownWindow(WindowId),
    DuplicateWindow(WindowId),
    Tree(TreeError),
}

/// The layout state of one context.
pub struct TilingContext {
    work_area: Rect,
    tree: LayoutTree,
    maximized: Option<WindowId>,
}

impl View for TilingContext {
    type V = ContextView;

    closed spec fn view(&self) -> ContextView {
        ContextView {
            work_area: self.work_area,
            tree: self.tree@,
            hint: self.tree.focus_hint(),
            maximized: opt_id(self.maximized),
        }
    }
}

/// The engine. Contexts are kept in ascending order of their keys.
pub struct EngineState {
    config: Config,
    contexts: Vec<(ContextKey, TilingContext)>,
    windows: Vec<(WindowId, WindowRecord)>,
    focused: Option<WindowId>,
}

spec fn context_pairs(s: Seq<(ContextKey, TilingContext)>) -> Seq<(ContextKey, ContextView)> {
    s.map_values(|e: (ContextKey, TilingContext)| (e.0, e.1@))
}

spec fn context_keys(s: Seq<(ContextKey, TilingContext)>) -> Seq<ContextKey> {
    s.map_values(|e: (ContextKey, TilingContext)| e.0)
}

spec fn record_pairs(s: Seq<(WindowId, WindowRecord)>) -> Seq<(Seq<char>, WindowRecord)> {
    s.map_values(|e: (WindowId, WindowRecord)| (e.0@, e.1))
}

impl View for EngineState {
    type V = EngineView;

    closed spec fn view(&self) -> EngineView {
        EngineView {
            config: self.config,
            contexts: pairs_map(context_pairs(self.contexts@)),
            records: pairs_map(record_pairs(self.windows@)),
            focused: opt_id(self.focused),
        }
    }
}

/// Ascending keys are distinct.
proof fn lemma_ascending_distinct(s: Seq<(ContextKey, TilingContext)>)
    requires
        keys_ascending(context_keys(s)),
    ensures
        keys_distinct(context_pairs(s)),
{
    let q = context_keys(s);
    let p = context_pairs(s);
    assert forall|i: int, j: int|
        0 <= i < p.len() && 0 <= j < p.len() && i != j implies #[trigger] p[i].0 != #[trigger] p[j].0 by {
        assert(p[i].0 == q[i] && p[j].0 == q[j]);
        if i < j {
            assert(crate::protocol::context_lt(q[i], q[j]));
        } else {
            assert(crate::protocol::context_lt(q[j], q[i]));
        }
    }
}

/// Replacing the context at `i` keeps the keys and replaces one entry of the map.
proof fn lemma_context_set(s: Seq<(ContextKey, TilingContext)>, i: int, c: TilingContext)
    requires
        keys_ascending(context_keys(s)),
        0 <= i < s.len(),
    ensures
        context_keys(s.update(i, (s[i].0, c))) == context_keys(s),
        pairs_map(context_pairs(s.update(i, (s[i].0, c)))) == pairs_map(context_pairs(s)).insert(
            s[i].0,
            c@,
        ),
{
    let u = s.update(i, (s[i].0, c));
    lemma_ascending_distinct(s);
    assert(context_keys(u) =~= context_keys(s));
    assert(context_pairs(u) =~= context_pairs(s).update(i, (s[i].0, c@)));
    assert(context_pairs(s)[i].0 == s[i].0);
    lemma_pairs_update(context_pairs(s), i, c@);
}

/// Inserting a context with a new key at its place in the order.
proof fn lemma_context_insert(s: Seq<(ContextKey, TilingContext)>, p: int, k: ContextKey, c: TilingContext)
    requires
        keys_ascending(context_keys(s)),
        0 <= p <= s.len(),
        forall|j: int| 0 <= j < p ==> crate::protocol::context_lt(#[trigger] s[j].0, k),
        forall|j: int| p <= j < s.len() ==> crate::protocol::context_lt(k, #[trigger] s[j].0),
    ensures
        keys_ascending(context_keys(s.insert(p, (k, c)))),
        pairs_map(context_pairs(s.insert(p, (k, c)))) == pairs_map(context_pairs(s)).insert(k, c@),
{
    let u = s.insert(p, (k, c));
    let q = context_keys(u);
    lemma_ascending_distinct(s);
    assert forall|a: int| 0 <= a < u.len() implies #[trigger] u[a] == (if a < p {
        s[a]
    } else if a == p {
        (k, c)
    } else {
        s[a - 1]
    }) by {}
    assert forall|a: int, b: int| 0 <= a < b < q.len() implies crate::protocol::context_lt(
        #[trigger] q[a],
        #[trigger] q[b],
    ) by {
        assert(q[a] == u[a].0 && q[b] == u[b].0);
        if a < p && b > p {
            assert(crate::protocol::context_lt(s[a].0, k));
            assert(crate::protocol::context_lt(k, s[b - 1].0));
        } else if a < p && b < p {
            assert(context_keys(s)[a] == s[a].0 && context_keys(s)[b] == s[b].0);
        } else if a > p {
            assert(context_keys(s)[a - 1] == s[a - 1].0 && context_keys(s)[b - 1] == s[b - 1].0);
        }
    }
    assert(context_pairs(u) =~= context_pairs(s).insert(p, (k, c@)));
    assert(!has_key(context_pairs(s), k)) by {
        if has_key(context_pairs(s), k) {
            let j = choose|j: int|
                0 <= j < context_pairs(s).len() && #[trigger] context_pairs(s)[j].0 == k;
            assert(context_pairs(s)[j].0 == s[j].0);
        }
    }
    lemma_pairs_insert(context_pairs(s), p, (k, c@));
}

/// Replacing the record at `i`.
proof fn lemma_record_set(s: Seq<(WindowId, WindowRecord)>, i: int, r: WindowRecord)
    requires
        keys_distinct(record_pairs(s)),
        0 <= i < s.len(),
    ensures
        keys_distinct(record_pairs(s.update(i, (s[i].0, r)))),
        pairs_map(record_pairs(s.update(i, (s[i].0, r)))) == pairs_map(record_pairs(s)).insert(
            s[i].0@,
            r,
        ),
{
    assert(record_pairs(s.update(i, (s[i].0, r))) =~= record_pairs(s).update(i, (s[i].0@, r)));
    assert(record_pairs(s)[i].0 == s[i].0@);
    lemma_pairs_update(record_pairs(s), i, r);
}

/// Adding the record of a new window.
proof fn lemma_record_push(s: Seq<(WindowId, WindowRecord)>, w: WindowId, r: WindowRecord)
    requires
        keys_distinct(record_pairs(s)),
        !has_key(record_pairs(s), w@),
    ensures
        keys_distinct(record_pairs(s.push((w, r)))),
        pairs_map(record_pairs(s.push((w, r)))) == pairs_map(record_pairs(s)).insert(w@, r),
{
    assert(record_pairs(s.push((w, r))) =~= record_pairs(s).insert(s.len() as int, (w@, r)));
    lemma_pairs_insert(record_pairs(s), s.len() as int, (w@, r));
}

/// Forgetting the record at `i`.
proof fn lemma_record_remove(s: Seq<(WindowId, WindowRecord)>, i: int)
    requires
        keys_distinct(record_pairs(s)),
        0 <= i < s.len(),
    ensures
        keys_distinct(record_pairs(s.remove(i))),
        pairs_map(record_pairs(s.remove(i))) == pairs_map(record_pairs(s)).remove(s[i].0@),
{
    assert(record_pairs(s.remove(i)) =~= record_pairs(s).remove(i));
    assert(record_pairs(s)[i].0 == s[i].0@);
    lemma_pairs_remove(record_pairs(s), i);
}

impl EngineState {
    /// The lists are in order: contexts ascending, trees well-formed, one
    /// record per window.
    pub closed spec fn lists_ok(&self) -> bool {
        &&& keys_ascending(context_keys(self.contexts@))
        &&& forall|i: int| 0 <= i < self.contexts@.len() ==> #[trigger] self.contexts@[i].1.tree.wf()
        &&& keys_distinct(record_pairs(self.windows@))
    }

    /// The lists are in order and the state they stand for is consistent.
    pub open spec fn wf(&self) -> bool {
        &&& self.lists_ok()
        &&& consistent(self@)
    }

    /// How the lists of contexts and windows stand for the maps of the view.
    proof fn lemma_lists(&self)
        requires
            keys_ascending(context_keys(self.contexts@)),
            keys_distinct(record_pairs(self.windows@)),
        ensures
            keys_distinct(context_pairs(self.contexts@)),
            forall|i: int|
                0 <= i < self.contexts@.len() ==> {
                    &&& self@.contexts.contains_key(#[trigger] self.contexts@[i].0)
                    &&& self@.contexts[self.contexts@[i].0] == self.contexts@[i].1@
                },
            forall|k: ContextKey| #[trigger]
                self@.contexts.contains_key(k) <==> has_key(context_pairs(self.contexts@), k),
            forall|i: int|
                0 <= i < self.windows@.len() ==> {
                    &&& self@.records.contains_key(#[trigger] self.windows@[i].0@)
                    &&& self@.records[self.windows@[i].0@] == self.windows@[i].1
                },
            forall|w: Seq<char>| #[trigger]
                self@.records.contains_key(w) <==> has_key(record_pairs(self.windows@), w),
            self@.records.len() == self.windows@.len(),
            self@.contexts.dom().finite(),
            self@.records.dom().finite(),
    {
        let cp = context_pairs(self.contexts@);
        let rp = record_pairs(self.windows@);
        lemma_ascending_distinct(self.contexts@);
        lemma_pairs_map(cp);
        lemma_pairs_map(rp);
        assert forall|i: int| 0 <= i < self.contexts@.len() implies {
            &&& self@.contexts.contains_key(#[trigger] self.contexts@[i].0)
            &&& self@.contexts[self.contexts@[i].0] == self.contexts@[i].1@
        } by {
            assert(cp[i] == (self.contexts@[i].0, self.contexts@[i].1@));
            assert(has_key(cp, cp[i].0));
            assert(pairs_map(cp).contains_key(cp[i].0));
            assert(pairs_map(cp)[cp[i].0] == cp[i].1);
        }
        assert forall|i: int| 0 <= i < self.windows@.len() implies {
            &&& self@.records.contains_key(#[trigger] self.windows@[i].0@)
            &&& self@.records[self.windows@[i].0@] == self.windows@[i].1
        } by {
            assert(rp[i] == (self.windows@[i].0@, self.windows@[i].1));
            assert(has_key(rp, rp[i].0));
            assert(pairs_map(rp).contains_key(rp[i].0));
            assert(pairs_map(rp)[rp[i].0] == rp[i].1);
        }
    }

    /// Every engine that the library hands out is consistent.
    pub proof fn lemma_consistent(&self)
        requires
            self.wf(),
        ensures
            consistent(self@),
    {
    }

    /// A new engine with sanitized settings and nothing in it.
    pub fn new(config: Config) -> (r: EngineState)
        ensures
            r.wf(),
            r@.config == spec_sanitized(config),
            r@.contexts.dom() =~= Set::empty(),
            r@.records.dom() =~= Set::empty(),
            r@.focused is None,
    {
        let r = EngineState {
            config: config.sanitized(),
            contexts: Vec::new(),
            windows: Vec::new(),
            focused: None,
        };
        proof {
            assert(context_pairs(r.contexts@) =~= Seq::empty());
            assert(record_pairs(r.windows@) =~= Seq::empty());
            assert(r@.contexts =~= Map::empty());
            assert(r@.records =~= Map::empty());
        }
        r
    }

    /// The position of the context `k`, if known.
    fn find_context(&self, k: ContextKey) -> (r: Option<usize>)
        requires
            self.lists_ok(),
        ensures
            r is Some <==> self@.contexts.contains_key(k),
            r matches Some(i) ==> i < self.contexts@.len() && self.contexts@[i as int].0 == k,
    {
        proof {
            self.lemma_lists();
        }
        let mut i: usize = 0;
        while i < self.contexts.len()
            invariant
                self.lists_ok(),
                i <= self.contexts@.len(),
                forall|j: int| 0 <= j < i ==> self.contexts@[j].0 != k,
            decreases self.contexts@.len() - i,
        {
            if self.contexts[i].0 == k {
                proof {
                    self.lemma_lists();
                }
                return Some(i);
            }
            i = i + 1;
        }
        proof {
            if self@.contexts.contains_key(k) {
                let j = choose|j: int|
                    0 <= j < context_pairs(self.contexts@).len() && #[trigger] context_pairs(
                        self.contexts@,
                    )[j].0 == k;
                assert(context_pairs(self.contexts@)[j].0 == self.contexts@[j].0);
            }
        }
        None
    }

    /// The position of the record of `w`, if known.
    fn find_record(&self, w: &WindowId) -> (r: Option<usize>)
        requires
            self.lists_ok(),
        ensures
            r is Some <==> self@.records.contains_key(w@),
            r matches Some(i) ==> i < self.windows@.len() && self.windows@[i as int].0@ == w@,
    {
        proof {
            self.lemma_lists();
        }
        let mut i: usize = 0;
        while i < self.windows.len()
            invariant
                self.lists_ok(),
                i <= self.windows@.len(),
                forall|j: int| 0 <= j < i ==> self.windows@[j].0@ != w@,
            decreases self.windows@.len() - i,
        {
            if self.windows[i].0.same(w) {
                proof {
                    self.lemma_lists();
                }
                return Some(i);
            }
            i = i + 1;
        }
        proof {
            if self@.records.contains_key(w@) {
                let j = choose|j: int|
                    0 <= j < record_pairs(self.windows@).len() && #[trigger] record_pairs(
                        self.windows@,
                    )[j].0 == w@;
                assert(record_pairs(self.windows@)[j].0 == self.windows@[j].0@);
            }
        }
        None
    }

    /// How many windows the engine knows.
    pub fn window_count(&self) -> (r: usize)
        requires
            self.wf(),
        ensures
            r == self@.records.len(),
    {
        proof {
            self.lemma_lists();
        }
        self.windows.len()
    }

    /// How many windows are tiled in `context` (none in an unknown context).
    pub fn context_len(&self, context: ContextKey) -> (r: usize)
        requires
            self.wf(),
        ensures
            r == if self@.contexts.contains_key(context) {
                view_wins(self@.contexts[context].tree).len()
            } else {
                0
            },
    {
        proof {
            self.lemma_lists();
        }
        match self.find_context(context) {
            None => 0,
            Some(i) => self.contexts[i].1.tree.len(),
        }
    }

    /// The context of a known window.
    pub fn window_context(&self, window: &WindowId) -> (r: Option<ContextKey>)
        requires
            self.wf(),
        ensures
            r == if self@.records.contains_key(window@) {
                Some(self@.records[window@].context)
            } else {
                None
            },
    {
        proof {
            self.lemma_lists();
        }
        match self.find_record(window) {
            None => None,
            Some(i) => Some(self.windows[i].1.context),
        }
    }

    /// Whether a known window floats.
    pub fn is_floating(&self, window: &WindowId) -> (r: Option<bool>)
        requires
            self.wf(),
        ensures
            r == if self@.records.contains_key(window@) {
                Some(self@.records[window@].floating)
            } else {
                None
            },
    {
        proof {
            self.lemma_lists();
        }
        match self.find_record(window) {
            None => None,
            Some(i) => Some(self.windows[i].1.floating),
        }
    }

    /// The maximized window of `context`, if any.
    pub fn maximized_window(&self, context: ContextKey) -> (r: Option<&WindowId>)
        requires
            self.wf(),
        ensures
            match r {
                None => !self@.contexts.contains_key(context)
                    || self@.contexts[context].maximized is None,
                Some(w) => self@.contexts.contains_key(context)
                    && self@.contexts[context].maximized == Some(w@),
            },
    {
        proof {
            self.lemma_lists();
        }
        match self.find_context(context) {
            None => None,
            Some(i) => match &self.contexts[i].1.maximized {
                None => None,
                Some(w) => Some(w),
            },
        }
    }

    /// The layout tree of `context`, if known.
    pub fn tree(&self, context: ContextKey) -> (r: Option<&LayoutTree>)
        requires
            self.wf(),
        ensures
            match r {
                None => !self@.contexts.contains_key(context),
                Some(t) => {
                    &&& self@.contexts.contains_key(context)
                    &&& t.wf()
                    &&& t@ == self@.contexts[context].tree
                    &&& t.focus_hint() == self@.contexts[context].hint
                },
            },
    {
        proof {
            self.lemma_lists();
        }
        match self.find_context(context) {
            None => None,
            Some(i) => Some(&self.contexts[i].1.tree),
        }
    }
}

impl EngineState {
    /// Focuses a known window: it becomes the focused window and, when tiled,
    /// the next split target of its context, where a maximized other window is
    /// restored. Returns that context when such a window was restored.
    fn focus_window(&mut self, window: &WindowId) -> (r: Result<Option<ContextKey>, EngineError>)
        requires
            old(self).wf(),
        ensures
            final(self).wf(),
            !old(self)@.records.contains_key(window@) ==> {
                &&& r == Err::<Option<ContextKey>, EngineError>(EngineError::UnknownWindow(*window))
                &&& final(self)@ == old(self)@
            },
            old(self)@.records.contains_key(window@) ==> {
                &&& final(self)@ == focused_state(old(self)@, window@)
                &&& r == Ok::<Option<ContextKey>, EngineError>(
                    if focus_restores(old(self)@, window@) {
                        Some(old(self)@.records[window@].context)
                    } else {
                        None
                    },
                )
            },
    {
        let ghost s0 = self@;
        proof {
            self.lemma_lists();
        }
        let ri = match self.find_record(window) {
            None => {
                return Err(EngineError::UnknownWindow(window.duplicate()));
            },
            Some(i) => i,
        };
        let record = self.windows[ri].1;
        if record.floating {
            self.focused = Some(window.duplicate());
            assert(self@ == focused_state(s0, window@));
            return Ok(None);
        }
        let ci = match self.find_context(record.context) {
            None => {
                return Err(EngineError::MissingContext(record.context.workspace, record.context.monitor));
            },
            Some(i) => i,
        };
        let ghost cs0 = self.contexts@;
        let restores = match &self.contexts[ci].1.maximized {
            Some(m) => !m.same(window),
            None => false,
        };
        {
            let entry = &mut self.contexts[ci];
            entry.1.tree.set_focused(window);
            if restores {
                entry.1.maximized = None;
            }
        }
        self.focused = Some(window.duplicate());
        proof {
            lemma_context_set(cs0, ci as int, self.contexts@[ci as int].1);
            assert(self.contexts@ == cs0.update(ci as int, (cs0[ci as int].0, self.contexts@[ci as int].1)));
            assert(self@.contexts == s0.contexts.insert(record.context, self.contexts@[ci as int].1@));
            assert(self@ =~= focused_state(s0, window@));
        }
        if restores {
            Ok(Some(record.context))
        } else {
            Ok(None)
        }
    }
}

impl EngineState {
    /// Maximizes a tiled window over the work area of its context (focusing
    /// it), or restores it when it already is. A floating window is left alone.
    fn toggle_maximize(&mut self, window: &WindowId) -> (r: Result<Option<ContextKey>, EngineError>)
        requires
            old(self).wf(),
        ensures
            final(self).wf(),
            !old(self)@.records.contains_key(window@) ==> {
                &&& r == Err::<Option<ContextKey>, EngineError>(EngineError::UnknownWindow(*window))
                &&& final(self)@ == old(self)@
            },
            old(self)@.records.contains_key(window@) ==> {
                &&& final(self)@ == maximize_toggled(old(self)@, window@)
                &&& r == Ok::<Option<ContextKey>, EngineError>(
                    if old(self)@.records[window@].floating {
                        None
                    } else {
                        Some(old(self)@.records[window@].context)
                    },
                )
            },
    {
        let ghost s0 = self@;
        proof {
            self.lemma_lists();
        }
        let ri = match self.find_record(window) {
            None => {
                return Err(EngineError::UnknownWindow(window.duplicate()));
            },
            Some(i) => i,
        };
        let record = self.windows[ri].1;
        if record.floating {
            return Ok(None);
        }
        let ci = match self.find_context(record.context) {
            None => {
                return Err(EngineError::MissingContext(record.context.workspace, record.context.monitor));
            },
            Some(i) => i,
        };
        let ghost cs0 = self.contexts@;
        let is_maximized = match &self.contexts[ci].1.maximized {
            Some(m) => m.same(window),
            None => false,
        };
        {
            let entry = &mut self.contexts[ci];
            if is_maximized {
                entry.1.maximized = None;
            } else {
                entry.1.maximized = Some(window.duplicate());
                entry.1.tree.set_focused(window);
            }
        }
        if !is_maximized {
            self.focused = Some(window.duplicate());
        }
        proof {
            lemma_context_set(cs0, ci as int, self.contexts@[ci as int].1);
            assert(self.contexts@ == cs0.update(ci as int, (cs0[ci as int].0, self.contexts@[ci as int].1)));
            assert(self@ =~= maximize_toggled(s0, window@));
        }
        Ok(Some(record.context))
    }

    /// Moves the border of a tiled window toward `direction` by the configured
    /// step (restoring it if it was maximized). A floating window is left alone.
    fn resize(&mut self, window: &WindowId, direction: Direction) -> (r: Result<ContextKey, EngineError>)
        requires
            old(self).wf(),
        ensures
            final(self).wf(),
            !old(self)@.records.contains_key(window@) ==> {
                &&& r == Err::<ContextKey, EngineError>(EngineError::UnknownWindow(*window))
                &&& final(self)@ == old(self)@
            },
            old(self)@.records.contains_key(window@) ==> {
                &&& final(self)@ == resized_state(old(self)@, window@, direction)
                &&& r == Ok::<ContextKey, EngineError>(old(self)@.records[window@].context)
            },
    {
        let ghost s0 = self@;
        proof {
            self.lemma_lists();
        }
        let ri = match self.find_record(window) {
            None => {
                return Err(EngineError::UnknownWindow(window.duplicate()));
            },
            Some(i) => i,
        };
        let record = self.windows[ri].1;
        if record.floating {
            return Ok(record.context);
        }
        let ci = match self.find_context(record.context) {
            None => {
                return Err(EngineError::MissingContext(record.context.workspace, record.context.monitor));
            },
            Some(i) => i,
        };
        let ghost cs0 = self.contexts@;
        let step: i32 = self.config.resize_step as i32;
        let is_maximized = match &self.contexts[ci].1.maximized {
            Some(m) => m.same(window),
            None => false,
        };
        proof {
            assert(self.contexts@[ci as int].1.tree.wf());
            assert(view_wins(s0.contexts[record.context].tree).contains(window@));
            lemma_resize_keeps(s0.contexts[record.context].tree->0, window@, direction, step);
        }
        {
            let entry = &mut self.contexts[ci];
            if is_maximized {
                entry.1.maximized = None;
            }
            match entry.1.tree.resize(window, direction, step) {
                Err(e) => {
                    return Err(EngineError::Tree(e));
                },
                Ok(_) => {},
            }
        }
        proof {
            lemma_context_set(cs0, ci as int, self.contexts@[ci as int].1);
            assert(self.contexts@ == cs0.update(ci as int, (cs0[ci as int].0, self.contexts@[ci as int].1)));
            assert(self@ =~= resized_state(s0, window@, direction));
        }
        Ok(record.context)
    }

    /// Forgets a known window: a tiled one leaves its tree (and is no longer
    /// maximized), and it is no longer focused. Returns its context.
    fn remove_window(&mut self, window: &WindowId) -> (r: Result<ContextKey, EngineError>)
        requires
            old(self).wf(),
        ensures
            final(self).wf(),
            !old(self)@.records.contains_key(window@) ==> {
                &&& r == Err::<ContextKey, EngineError>(EngineError::UnknownWindow(*window))
                &&& final(self)@ == old(self)@
            },
            old(self)@.records.contains_key(window@) ==> {
                &&& removed(old(self)@, window@, final(self)@)
                &&& r == Ok::<ContextKey, EngineError>(old(self)@.records[window@].context)
            },
    {
        let ghost s0 = self@;
        proof {
            self.lemma_lists();
        }
        let ri = match self.find_record(window) {
            None => {
                return Err(EngineError::UnknownWindow(window.duplicate()));
            },
            Some(i) => i,
        };
        let record = self.windows[ri].1;
        let ghost cs0 = self.contexts@;
        let ghost ws0 = self.windows@;
        if !record.floating {
            let ci = match self.find_context(record.context) {
                None => {
                    return Err(EngineError::MissingContext(record.context.workspace, record.context.monitor));
                },
                Some(i) => i,
            };
            proof {
                assert(self.contexts@[ci as int].1.tree.wf());
                assert(view_wins(s0.contexts[record.context].tree).contains(window@));
                lemma_remove_keeps(s0.contexts[record.context].tree->0, window@);
            }
            {
                let entry = &mut self.contexts[ci];
                match entry.1.tree.remove(window) {
                    Err(e) => {
                        return Err(EngineError::Tree(e));
                    },
                    Ok(()) => {},
                }
                let is_maximized = match &entry.1.maximized {
                    Some(m) => m.same(window),
                    None => false,
                };
                if is_maximized {
                    entry.1.maximized = None;
                }
            }
            proof {
                lemma_context_set(cs0, ci as int, self.contexts@[ci as int].1);
                assert(self.contexts@ == cs0.update(ci as int, (cs0[ci as int].0, self.contexts@[ci as int].1)));
            }
        }
        self.windows.remove(ri);
        let clear = match &self.focused {
            Some(f) => f.same(window),
            None => false,
        };
        if clear {
            self.focused = None;
        }
        proof {
            lemma_record_remove(ws0, ri as int);
            lemma_pairs_map(record_pairs(self.windows@));
            assert(self@.records == s0.records.remove(window@));
            let s2 = self@;
            if !record.floating {
                let k = record.context;
                assert(s2.contexts =~= s0.contexts.insert(k, s2.contexts[k]));
                lemma_remove_keeps(s0.contexts[k].tree->0, window@);
                assert forall|k2: ContextKey, w2: Seq<char>|
                    s2.contexts.contains_key(k2) && #[trigger] view_wins(s2.contexts[k2].tree).contains(w2)
                    implies s2.records.contains_key(w2) && s2.records[w2] == (WindowRecord {
                        context: k2,
                        floating: false,
                    }) by {
                    if k2 == k {
                        assert(view_wins(s0.contexts[k].tree).contains(w2));
                    }
                }
            }
            assert(removed(s0, window@, s2));
        }
        Ok(record.context)
    }
}

/// The placements of `ps`, the window `w` covering `r`.
fn cover(ps: Vec<Placement>, w: &WindowId, r: Rect) -> (out: Vec<Placement>)
    ensures
        placement_views(out@) == with_rect(placement_views(ps@), w@, r),
{
    let ghost target = with_rect(placement_views(ps@), w@, r);
    let mut out: Vec<Placement> = Vec::new();
    let mut i: usize = 0;
    while i < ps.len()
        invariant
            i <= ps@.len(),
            target == with_rect(placement_views(ps@), w@, r),
            placement_views(out@) == target.take(i as int),
        decreases ps@.len() - i,
    {
        let rect = if ps[i].window_id.same(w) {
            r
        } else {
            ps[i].rect
        };
        let ghost old_out = out@;
        out.push(Placement { window_id: ps[i].window_id.duplicate(), rect });
        proof {
            assert(placement_views(out@) =~= placement_views(old_out).push(target[i as int]));
            assert(target.take(i + 1) =~= target.take(i as int).push(target[i as int]));
        }
        i = i + 1;
    }
    assert(target.take(i as int) =~= target);
    out
}

impl EngineState {
    /// Where each tiled window of a context goes, ordered by window id; a
    /// maximized window covers the work area. Nothing for an unknown context.
    pub fn placements_for(&self, context_key: ContextKey) -> (r: Vec<Placement>)
        requires
            self.wf(),
        ensures
            placement_views(r@) == context_placements(self@, context_key),
    {
        proof {
            self.lemma_lists();
        }
        let ci = match self.find_context(context_key) {
            None => {
                return Vec::new();
            },
            Some(i) => i,
        };
        let c = &self.contexts[ci].1;
        let ps = c.tree.placements(c.work_area, self.config.outer_gap, self.config.inner_gap);
        let shown = match &c.maximized {
            None => ps,
            Some(m) => cover(ps, m, c.work_area),
        };
        sort_placements(shown)
    }

    /// The placements of the contexts of `q`, one after the other.
    fn placements_in(&self, q: &Vec<ContextKey>) -> (r: Vec<Placement>)
        requires
            self.wf(),
        ensures
            placement_views(r@) == placements_of(self@, q@),
    {
        let mut out: Vec<Placement> = Vec::new();
        let mut i: usize = 0;
        assert(q@.take(0) =~= Seq::<ContextKey>::empty());
        assert(placement_views(out@) =~= Seq::empty());
        while i < q.len()
            invariant
                self.wf(),
                i <= q@.len(),
                placement_views(out@) == placements_of(self@, q@.take(i as int)),
            decreases q@.len() - i,
        {
            let mut ps = self.placements_for(q[i]);
            let ghost old_out = out@;
            let ghost pv = ps@;
            out.append(&mut ps);
            proof {
                assert(placement_views(out@) =~= placement_views(old_out) + placement_views(pv));
                assert(q@.take(i + 1).drop_last() =~= q@.take(i as int));
                assert(q@.take(i + 1).last() == q@[i as int]);
            }
            i = i + 1;
        }
        assert(q@.take(i as int) =~= q@);
        out
    }

    /// Every placement of every context, contexts in ascending order.
    pub fn placements(&self) -> (r: Vec<Placement>)
        requires
            self.wf(),
        ensures
            placement_views(r@) == all_placements(self@),
    {
        let mut keys: Vec<ContextKey> = Vec::new();
        let mut i: usize = 0;
        while i < self.contexts.len()
            invariant
                i <= self.contexts@.len(),
                keys@ == context_keys(self.contexts@).take(i as int),
            decreases self.contexts@.len() - i,
        {
            keys.push(self.contexts[i].0);
            proof {
                assert(context_keys(self.contexts@).take(i + 1) =~= context_keys(self.contexts@).take(
                    i as int,
                ).push(self.contexts@[i as int].0));
            }
            i = i + 1;
        }
        proof {
            let q = context_keys(self.contexts@);
            assert(keys@ =~= q);
            self.lemma_lists();
            assert(q.to_set() =~= self@.contexts.dom()) by {
                assert forall|k: ContextKey| q.to_set().contains(k) implies self@.contexts.contains_key(k) by {
                    let j = choose|j: int| 0 <= j < q.len() && q[j] == k;
                    assert(self.contexts@[j].0 == k);
                }
                assert forall|k: ContextKey| self@.contexts.contains_key(k) implies q.to_set().contains(k) by {
                    let j = choose|j: int|
                        0 <= j < context_pairs(self.contexts@).len() && #[trigger] context_pairs(
                            self.contexts@,
                        )[j].0 == k;
                    assert(q[j] == k);
                }
            }
            lemma_ascending(q);
        }
        self.placements_in(&keys)
    }
}

/// A tree lacking one of the recorded windows holds fewer windows than there are records.
proof fn lemma_tree_room(s: EngineView, k: ContextKey, w: Seq<char>)
    requires
        layout_consistent(s),
        s.contexts.contains_key(k),
        s.records.contains_key(w),
        !view_wins(s.contexts[k].tree).contains(w),
    ensures
        view_wins(s.contexts[k].tree).finite(),
        view_wins(s.contexts[k].tree).len() < s.records.len(),
{
    let t = view_wins(s.contexts[k].tree);
    let d = s.records.dom().remove(w);
    assert(t.subset_of(d));
    vstd::set_lib::lemma_len_subset(t, d);
}

impl EngineState {
    /// Tiles the recorded window `window` into the tree of `context_key`,
    /// splitting the focused window when it is tiled there.
    fn insert_tiled(&mut self, window: &WindowId, context_key: ContextKey) -> (r: Result<(), EngineError>)
        requires
            old(self).lists_ok(),
            old(self)@.records.contains_key(window@),
            old(self)@.contexts.contains_key(context_key),
            !view_wins(old(self)@.contexts[context_key].tree).contains(window@),
            view_wins(old(self)@.contexts[context_key].tree).len() < MAX_WINDOWS,
        ensures
            final(self).lists_ok(),
            final(self).windows@ == old(self).windows@,
            match tile_outcome(old(self)@, window@, context_key) {
                Ok(t) => {
                    &&& r is Ok
                    &&& final(self)@ == with_tile(old(self)@, window@, context_key, t)
                },
                Err(tr) => {
                    &&& r == Err::<(), EngineError>(
                        EngineError::Tree(TreeError::CannotSplit { width: tr.width, height: tr.height }),
                    )
                    &&& final(self)@ == old(self)@
                },
            },
    {
        let ghost s0 = self@;
        proof {
            self.lemma_lists();
        }
        if self.find_record(window).is_none() {
            return Err(EngineError::UnknownWindow(window.duplicate()));
        }
        let focused: Option<WindowId> = match &self.focused {
            None => None,
            Some(f) => match self.find_record(f) {
                None => None,
                Some(fi) => {
                    if self.windows[fi].1.context == context_key && !self.windows[fi].1.floating {
                        Some(f.duplicate())
                    } else {
                        None
                    }
                },
            },
        };
        assert(opt_id(focused) == tiled_focus(s0, context_key));
        let ci = match self.find_context(context_key) {
            None => {
                return Err(EngineError::MissingContext(context_key.workspace, context_key.monitor));
            },
            Some(i) => i,
        };
        let ghost cs0 = self.contexts@;
        let config = self.config;
        proof {
            self.contexts@[ci as int].1.tree.lemma_view();
        }
        let result = {
            let entry = &mut self.contexts[ci];
            let wa = entry.1.work_area;
            let fref: Option<&WindowId> = match &focused {
                Some(f) => Some(f),
                None => None,
            };
            entry.1.tree.insert(window.duplicate(), fref, wa, &config)
        };
        proof {
            lemma_context_set(cs0, ci as int, self.contexts@[ci as int].1);
            assert(self.contexts@ == cs0.update(ci as int, (cs0[ci as int].0, self.contexts@[ci as int].1)));
        }
        match result {
            Ok(()) => {
                assert(self@ =~= with_tile(s0, window@, context_key, tile_outcome(s0, window@, context_key)->Ok_0));
                Ok(())
            },
            Err(e) => {
                assert(self@.contexts =~= s0.contexts);
                Err(EngineError::Tree(e))
            },
        }
    }

    /// Gives the context `k` the work area `wa`, adding it empty when unknown.
    fn set_work_area(&mut self, k: ContextKey, wa: Rect)
        requires
            old(self).wf(),
            crate::geometry::spec_is_valid(wa),
        ensures
            final(self).wf(),
            final(self)@ == with_work_area(old(self)@, k, wa),
            final(self).windows@ == old(self).windows@,
    {
        let ghost s0 = self@;
        let ghost cs0 = self.contexts@;
        proof {
            self.lemma_lists();
        }
        match self.find_context(k) {
            Some(ci) => {
                self.contexts[ci].1.work_area = wa;
                proof {
                    lemma_context_set(cs0, ci as int, self.contexts@[ci as int].1);
                    assert(self.contexts@ == cs0.update(ci as int, (cs0[ci as int].0, self.contexts@[ci as int].1)));
                    assert(self@ =~= with_work_area(s0, k, wa));
                }
            },
            None => {
                let fresh = TilingContext { work_area: wa, tree: LayoutTree::new(), maximized: None };
                self.insert_context(k, fresh);
                proof {
                    assert(fresh@ == crate::state_spec::fresh_context(wa));
                    assert(self@ =~= with_work_area(s0, k, wa));
                }
            },
        }
    }

    /// Adds the context `k`, unknown so far, at its place in the order.
    fn insert_context(&mut self, k: ContextKey, c: TilingContext)
        requires
            old(self).lists_ok(),
            !old(self)@.contexts.contains_key(k),
            c.tree.wf(),
        ensures
            final(self).lists_ok(),
            final(self).windows@ == old(self).windows@,
            final(self)@ == with_context(old(self)@, k, c@),
    {
        let ghost s0 = self@;
        let ghost cs0 = self.contexts@;
        proof {
            self.lemma_lists();
        }
        let mut p: usize = 0;
        while p < self.contexts.len() && self.contexts[p].0.precedes(&k)
            invariant
                p <= self.contexts@.len(),
                forall|j: int| 0 <= j < p ==> crate::protocol::context_lt(#[trigger] self.contexts@[j].0, k),
            decreases self.contexts@.len() - p,
        {
            p = p + 1;
        }
        proof {
            assert forall|j: int| p <= j < cs0.len() implies crate::protocol::context_lt(
                k,
                #[trigger] cs0[j].0,
            ) by {
                assert(context_keys(cs0)[p as int] == cs0[p as int].0);
                assert(context_keys(cs0)[j] == cs0[j].0);
                assert(self@.contexts.contains_key(cs0[p as int].0));
                assert(cs0[p as int].0 != k);
                if j > p {
                    assert(crate::protocol::context_lt(cs0[p as int].0, cs0[j].0));
                }
            }
        }
        self.contexts.insert(p, (k, c));
        proof {
            lemma_context_insert(cs0, p as int, k, c);
            assert forall|i: int| 0 <= i < self.contexts@.len() implies #[trigger] self.contexts@[i].1.tree.wf() by {
                if i > p {
                    assert(self.contexts@[i] == cs0[i - 1]);
                } else if i < p {
                    assert(self.contexts@[i] == cs0[i]);
                }
            }
            assert(self@ =~= with_context(s0, k, c@));
        }
    }

    /// Floats a tiled window (it leaves its tree) or tiles a floating one
    /// again (no window of its context stays maximized). Returns its context.
    fn toggle_floating(&mut self, window: &WindowId) -> (r: Result<ContextKey, EngineError>)
        requires
            old(self).wf(),
            old(self)@.records.len() < MAX_WINDOWS,
        ensures
            final(self).wf(),
            r == float_result(old(self)@, *window),
            floated(old(self)@, window@, final(self)@),
    {
        let ghost s0 = self@;
        proof {
            self.lemma_lists();
        }
        let ri = match self.find_record(window) {
            None => {
                return Err(EngineError::UnknownWindow(window.duplicate()));
            },
            Some(i) => i,
        };
        let record = self.windows[ri].1;
        let k = record.context;
        let ghost ws0 = self.windows@;
        if record.floating {
            proof {
                lemma_tree_room(s0, k, window@);
            }
            self.windows[ri].1.floating = false;
            proof {
                lemma_record_set(ws0, ri as int, WindowRecord { context: k, floating: false });
                assert(self.windows@ == ws0.update(ri as int, (ws0[ri as int].0, WindowRecord { context: k, floating: false })));
                assert(self@ == with_record(s0, window@, WindowRecord { context: k, floating: false }));
            }
            let ghost s1 = self@;
            match self.insert_tiled(window, k) {
                Err(e) => {
                    self.windows[ri].1.floating = true;
                    proof {
                        lemma_record_set(ws0, ri as int, record);
                        assert(self.windows@ =~= ws0);
                        assert(self@ =~= s0);
                    }
                    return Err(e);
                },
                Ok(()) => {},
            }
            let ghost s2 = self@;
            let ci = match self.find_context(k) {
                None => {
                    return Err(EngineError::MissingContext(k.workspace, k.monitor));
                },
                Some(i) => i,
            };
            let ghost cs2 = self.contexts@;
            proof {
                self.lemma_lists();
                assert(s2.contexts[k] == cs2[ci as int].1@);
            }
            self.contexts[ci].1.maximized = None;
            proof {
                lemma_context_set(cs2, ci as int, self.contexts@[ci as int].1);
                assert(self.contexts@ == cs2.update(ci as int, (cs2[ci as int].0, self.contexts@[ci as int].1)));
                let t = tile_outcome(s1, window@, k)->Ok_0;
                lemma_insert_keeps(
                    s1.contexts[k].tree,
                    s1.contexts[k].hint,
                    window@,
                    tiled_focus(s1, k),
                    s1.contexts[k].work_area,
                    s1.config,
                );
                let target = with_context(
                    s1,
                    k,
                    ContextView { work_area: s0.contexts[k].work_area, tree: Some(t), hint: Some(window@), maximized: None },
                );
                assert(self@ =~= target);
                assert forall|k2: ContextKey, w2: Seq<char>|
                    self@.contexts.contains_key(k2) && #[trigger] view_wins(self@.contexts[k2].tree).contains(w2)
                    implies self@.records.contains_key(w2) && self@.records[w2] == (WindowRecord {
                        context: k2,
                        floating: false,
                    }) by {
                    if k2 == k && w2 != window@ {
                        assert(view_wins(s0.contexts[k].tree).contains(w2));
                    }
                }
            }
        } else {
            let ci = match self.find_context(k) {
                None => {
                    return Err(EngineError::MissingContext(k.workspace, k.monitor));
                },
                Some(i) => i,
            };
            let ghost cs0 = self.contexts@;
            proof {
                assert(self.contexts@[ci as int].1.tree.wf());
                lemma_remove_keeps(s0.contexts[k].tree->0, window@);
            }
            {
                let entry = &mut self.contexts[ci];
                match entry.1.tree.remove(window) {
                    Err(e) => {
                        return Err(EngineError::Tree(e));
                    },
                    Ok(()) => {},
                }
                let is_maximized = match &entry.1.maximized {
                    Some(m) => m.same(window),
                    None => false,
                };
                if is_maximized {
                    entry.1.maximized = None;
                }
            }
            proof {
                lemma_context_set(cs0, ci as int, self.contexts@[ci as int].1);
                assert(self.contexts@ == cs0.update(ci as int, (cs0[ci as int].0, self.contexts@[ci as int].1)));
            }
            self.windows[ri].1.floating = true;
            proof {
                lemma_record_set(ws0, ri as int, WindowRecord { context: k, floating: true });
                assert(self.windows@ == ws0.update(ri as int, (ws0[ri as int].0, WindowRecord { context: k, floating: true })));
                let s2 = self@;
                assert(s2.contexts =~= s0.contexts.insert(k, s2.contexts[k]));
                assert forall|k2: ContextKey, w2: Seq<char>|
                    s2.contexts.contains_key(k2) && #[trigger] view_wins(s2.contexts[k2].tree).contains(w2)
                    implies s2.records.contains_key(w2) && s2.records[w2] == (WindowRecord {
                        context: k2,
                        floating: false,
                    }) by {
                    if k2 == k {
                        assert(view_wins(s0.contexts[k].tree).contains(w2));
                    }
                }
            }
        }
        Ok(k)
    }
}

/// A tree holds no more windows than there are records.
proof fn lemma_tree_bound(s: EngineView, k: ContextKey)
    requires
        layout_consistent(s),
        s.contexts.contains_key(k),
    ensures
        view_wins(s.contexts[k].tree).finite(),
        view_wins(s.contexts[k].tree).len() <= s.records.len(),
{
    let t = view_wins(s.contexts[k].tree);
    assert(t.subset_of(s.records.dom()));
    vstd::set_lib::lemma_len_subset(t, s.records.dom());
}

impl EngineState {
    /// Records the window of a snapshot and tiles it unless it floats.
    fn add_snapshot(&mut self, window: WindowSnapshot) -> (r: Result<(), EngineError>)
        requires
            old(self).lists_ok(),
            layout_consistent(old(self)@),
            old(self)@.records.len() < MAX_WINDOWS,
        ensures
            final(self).lists_ok(),
            layout_consistent(final(self)@),
            match add_snapshot_result(old(self)@, window) {
                Ok(s1) => r is Ok && final(self)@ == s1,
                Err(e) => r == Err::<(), EngineError>(e) && final(self)@ == old(self)@,
            },
    {
        let ghost s0 = self@;
        proof {
            self.lemma_lists();
        }
        if !window.id.is_valid() {
            return Err(EngineError::InvalidWindowId);
        }
        if self.find_record(&window.id).is_some() {
            return Err(EngineError::DuplicateWindow(window.id));
        }
        let k = window.context;
        if self.find_context(k).is_none() {
            return Err(EngineError::MissingContext(k.workspace, k.monitor));
        }
        let normal = String::from_str("normal");
        let floating = window.fullscreen || !(window.window_type == normal);
        assert(floating == snapshot_floats(window));
        let ghost ws0 = self.windows@;
        let id = window.id;
        let rec = WindowRecord { context: k, floating };
        self.windows.push((id.duplicate(), rec));
        proof {
            assert(!has_key(record_pairs(ws0), id@));
            lemma_record_push(ws0, id, rec);
            assert(self@ =~= with_record(s0, id@, rec));
        }
        let ghost s1 = self@;
        if !floating {
            proof {
                lemma_tree_bound(s0, k);
            }
            match self.insert_tiled(&id, k) {
                Err(e) => {
                    self.windows.pop();
                    proof {
                        assert(self.windows@ =~= ws0);
                        assert(self@ =~= s0);
                    }
                    return Err(e);
                },
                Ok(()) => {},
            }
            proof {
                let t = tile_outcome(s1, id@, k)->Ok_0;
                lemma_insert_keeps(
                    s1.contexts[k].tree,
                    s1.contexts[k].hint,
                    id@,
                    tiled_focus(s1, k),
                    s1.contexts[k].work_area,
                    s1.config,
                );
                let s2 = self@;
                assert(s2 == with_tile(s1, id@, k, t));
                assert forall|k2: ContextKey, w2: Seq<char>|
                    s2.contexts.contains_key(k2) && #[trigger] view_wins(s2.contexts[k2].tree).contains(w2)
                    implies s2.records.contains_key(w2) && s2.records[w2] == (WindowRecord {
                        context: k2,
                        floating: false,
                    }) by {
                    if k2 == k && w2 != id@ {
                        assert(view_wins(s0.contexts[k].tree).contains(w2));
                    }
                }
                assert forall|w2: Seq<char>| #[trigger] s2.records.contains_key(w2) implies {
                    &&& s2.contexts.contains_key(s2.records[w2].context)
                    &&& (!s2.records[w2].floating ==> view_wins(
                        s2.contexts[s2.records[w2].context].tree,
                    ).contains(w2))
                } by {
                    if w2 != id@ && s2.records[w2].context == k && !s2.records[w2].floating {
                        assert(view_wins(s0.contexts[k].tree).contains(w2));
                    }
                }
            }
        }
        Ok(())
    }

    /// Adds a window with the work area of its context (the context is added
    /// when new, its work area replaced when known; that stays even when the
    /// window is refused). A tiled window restores a maximized one of its
    /// context; a focused window is focused. Returns the context.
    fn add_window(&mut self, window: WindowSnapshot, work_area: Rect) -> (r: Result<ContextKey, EngineError>)
        requires
            old(self).wf(),
            old(self)@.records.len() < MAX_WINDOWS,
        ensures
            final(self).wf(),
            (final(self)@, r) == add_window_result(old(self)@, window, work_area),
    {
        let ghost s0 = self@;
        let ghost ws = window;
        let k = window.context;
        if !work_area.is_valid() {
            return Err(EngineError::InvalidWorkArea(k.workspace, k.monitor));
        }
        self.set_work_area(k, work_area);
        let ghost s1 = self@;
        let focused = window.focused;
        let window_id = window.id.duplicate();
        match self.add_snapshot(window) {
            Err(e) => {
                return Err(e);
            },
            Ok(()) => {},
        }
        let ghost s2 = self@;
        proof {
            self.lemma_lists();
        }
        let ri = match self.find_record(&window_id) {
            None => {
                return Err(EngineError::UnknownWindow(window_id));
            },
            Some(i) => i,
        };
        if !self.windows[ri].1.floating {
            let ci = match self.find_context(k) {
                None => {
                    return Err(EngineError::MissingContext(k.workspace, k.monitor));
                },
                Some(i) => i,
            };
            let ghost cs2 = self.contexts@;
            proof {
                assert(s2.contexts[k] == cs2[ci as int].1@);
            }
            self.contexts[ci].1.maximized = None;
            proof {
                lemma_context_set(cs2, ci as int, self.contexts@[ci as int].1);
                assert(self.contexts@ == cs2.update(ci as int, (cs2[ci as int].0, self.contexts@[ci as int].1)));
                assert(self@ =~= with_context(s2, k, unmaximized(s2.contexts[k])));
            }
        }
        if focused {
            match self.focus_window(&window_id) {
                Err(e) => {
                    return Err(e);
                },
                Ok(_) => {},
            }
        }
        Ok(k)
    }
}

impl EngineState {
    /// The tiled window that moving from a known window toward `direction`
    /// reaches; none from a floating window.
    fn directional_neighbor(&self, window: &WindowId, direction: Direction) -> (r: Result<
        Option<WindowId>,
        EngineError,
    >)
        requires
            self.wf(),
        ensures
            !self@.records.contains_key(window@) ==> r == Err::<Option<WindowId>, EngineError>(
                EngineError::UnknownWindow(*window),
            ),
            self@.records.contains_key(window@) ==> (r matches Ok(n) && opt_id(n) == neighbor(
                self@,
                window@,
                direction,
            )),
            r matches Ok(Some(n)) ==> ({
                &&& n@ != window@
                &&& view_wins(self@.contexts[self@.records[window@].context].tree).contains(n@)
            }),
    {
        proof {
            self.lemma_lists();
        }
        let ri = match self.find_record(window) {
            None => {
                return Err(EngineError::UnknownWindow(window.duplicate()));
            },
            Some(i) => i,
        };
        let record = self.windows[ri].1;
        if record.floating {
            return Ok(None);
        }
        let ci = match self.find_context(record.context) {
            None => {
                return Err(EngineError::MissingContext(record.context.workspace, record.context.monitor));
            },
            Some(i) => i,
        };
        let c = &self.contexts[ci].1;
        let rects = c.tree.rectangles(c.work_area, self.config.outer_gap, self.config.inner_gap);
        proof {
            lemma_layout_entries(
                self@.contexts[record.context].tree,
                c.work_area,
                self.config.outer_gap,
                self.config.inner_gap,
            );
        }
        let found = best_candidate(window, direction, &rects);
        proof {
            if let Some(n) = &found {
                let rv = rect_views(rects@);
                let (si, i) = choose|si: int, i: int| {
                    &&& has_entry(rv, window@, si)
                    &&& is_best(rv, window@, rv[si].1, direction, i)
                    &&& rv[i].0 == n@
                };
                assert(is_candidate(rv, window@, rv[si].1, direction, i));
            }
        }
        Ok(found)
    }

    /// Swaps a known window with its neighbour toward `direction` (restoring it
    /// first if it was maximized). Returns its context.
    fn swap_direction(&mut self, window: &WindowId, direction: Direction) -> (r: Result<ContextKey, EngineError>)
        requires
            old(self).wf(),
        ensures
            final(self).wf(),
            !old(self)@.records.contains_key(window@) ==> {
                &&& r == Err::<ContextKey, EngineError>(EngineError::UnknownWindow(*window))
                &&& final(self)@ == old(self)@
            },
            old(self)@.records.contains_key(window@) ==> {
                &&& final(self)@ == swapped_state(old(self)@, window@, direction)
                &&& r == Ok::<ContextKey, EngineError>(old(self)@.records[window@].context)
            },
    {
        let ghost s0 = self@;
        proof {
            self.lemma_lists();
        }
        let ri = match self.find_record(window) {
            None => {
                return Err(EngineError::UnknownWindow(window.duplicate()));
            },
            Some(i) => i,
        };
        let k = self.windows[ri].1.context;
        let ci = match self.find_context(k) {
            None => {
                return Err(EngineError::MissingContext(k.workspace, k.monitor));
            },
            Some(i) => i,
        };
        let ghost cs0 = self.contexts@;
        let is_maximized = match &self.contexts[ci].1.maximized {
            Some(m) => m.same(window),
            None => false,
        };
        if is_maximized {
            self.contexts[ci].1.maximized = None;
        }
        proof {
            lemma_context_set(cs0, ci as int, self.contexts@[ci as int].1);
            assert(self.contexts@ == cs0.update(ci as int, (cs0[ci as int].0, self.contexts@[ci as int].1)));
            assert(context_layout(self@, k) == context_layout(s0, k));
        }
        let ghost s1 = self@;
        let ghost cs1 = self.contexts@;
        let found = match self.directional_neighbor(window, direction) {
            Err(e) => {
                return Err(e);
            },
            Ok(n) => n,
        };
        match found {
            None => {
                assert(self@ =~= swapped_state(s0, window@, direction));
            },
            Some(other) => {
                proof {
                    self.lemma_lists();
                    lemma_swap_keeps(s1.contexts[k].tree->0, window@, other@);
                }
                {
                    let entry = &mut self.contexts[ci];
                    match entry.1.tree.swap(window, &other) {
                        Err(e) => {
                            return Err(EngineError::Tree(e));
                        },
                        Ok(()) => {},
                    }
                }
                proof {
                    lemma_context_set(cs1, ci as int, self.contexts@[ci as int].1);
                    assert(self.contexts@ == cs1.update(ci as int, (cs1[ci as int].0, self.contexts@[ci as int].1)));
                    let s2 = self@;
                    assert(s2 =~= swapped_state(s0, window@, direction));
                    assert forall|w2: Seq<char>| view_wins(s2.contexts[k].tree).contains(w2)
                        <==> view_wins(s0.contexts[k].tree).contains(w2) by {
                        assert(s2.contexts[k].tree->0.wins().contains(w2) == s0.contexts[k].tree->0.wins().contains(
                            swapped(window@, other@, w2),
                        ));
                        if w2 == window@ {
                            assert(swapped(window@, other@, w2) == other@);
                        } else if w2 == other@ {
                            assert(swapped(window@, other@, w2) == window@);
                        }
                    }
                    assert(view_wins(s2.contexts[k].tree) =~= view_wins(s0.contexts[k].tree));
                }
            },
        }
        Ok(k)
    }
}

impl EngineState {
    /// Moves a known window to the context `new_context` whose work area is
    /// `work_area` (the context is added when new, its work area replaced when
    /// known). Returns the contexts to lay out again.
    fn move_context(&mut self, window: &WindowId, new_context: ContextKey, work_area: Rect) -> (r: Result<
        Vec<ContextKey>,
        EngineError,
    >)
        requires
            old(self).wf(),
            old(self)@.records.len() < MAX_WINDOWS,
        ensures
            final(self).wf(),
            moved(old(self)@, window@, new_context, work_area, final(self)@),
            match move_keys(old(self)@, *window, new_context, work_area) {
                Ok(q) => r matches Ok(v) && v@ == q,
                Err(e) => r == Err::<Vec<ContextKey>, EngineError>(e),
            },
    {
        let ghost s0 = self@;
        if !work_area.is_valid() {
            return Err(EngineError::InvalidWorkArea(new_context.workspace, new_context.monitor));
        }
        proof {
            self.lemma_lists();
        }
        let ri = match self.find_record(window) {
            None => {
                return Err(EngineError::UnknownWindow(window.duplicate()));
            },
            Some(i) => i,
        };
        let record = self.windows[ri].1;
        let old_context = record.context;
        self.set_work_area(new_context, work_area);
        let ghost s1 = self@;
        let ghost ws1 = self.windows@;
        if old_context == new_context {
            return Ok(vec![new_context]);
        }
        self.windows[ri].1.context = new_context;
        proof {
            let nr = WindowRecord { context: new_context, floating: record.floating };
            lemma_record_set(ws1, ri as int, nr);
            assert(self.windows@ == ws1.update(ri as int, (ws1[ri as int].0, nr)));
            assert(self@ =~= move_record(s0, window@, new_context, work_area));
        }
        if record.floating {
            proof {
                let s2 = self@;
                assert forall|k2: ContextKey, w2: Seq<char>|
                    s2.contexts.contains_key(k2) && #[trigger] view_wins(s2.contexts[k2].tree).contains(w2)
                    implies s2.records.contains_key(w2) && s2.records[w2] == (WindowRecord {
                        context: k2,
                        floating: false,
                    }) by {
                    assert(view_wins(s1.contexts[k2].tree).contains(w2));
                }
            }
            return Ok(vec![old_context, new_context]);
        }
        let ghost sm = self@;
        proof {
            assert(view_wins(s1.contexts[old_context].tree).contains(window@));
            assert(!view_wins(s1.contexts[new_context].tree).contains(window@));
            lemma_tree_room(s1, new_context, window@);
        }
        match self.insert_tiled(window, new_context) {
            Err(e) => {
                self.windows[ri].1.context = old_context;
                proof {
                    lemma_record_set(ws1, ri as int, record);
                    assert(self.windows@ =~= ws1);
                    assert(self@ =~= s1);
                }
                return Err(e);
            },
            Ok(()) => {},
        }
        let ghost s2 = self@;
        let ghost t = tile_outcome(sm, window@, new_context)->Ok_0;
        proof {
            lemma_insert_keeps(
                sm.contexts[new_context].tree,
                sm.contexts[new_context].hint,
                window@,
                tiled_focus(sm, new_context),
                sm.contexts[new_context].work_area,
                sm.config,
            );
            self.lemma_lists();
        }
        let c1 = match self.find_context(old_context) {
            None => {
                return Err(EngineError::MissingContext(old_context.workspace, old_context.monitor));
            },
            Some(i) => i,
        };
        let ghost cs2 = self.contexts@;
        proof {
            assert(s2.contexts[old_context] == cs2[c1 as int].1@);
            assert(self.contexts@[c1 as int].1.tree.wf());
            lemma_remove_keeps(s1.contexts[old_context].tree->0, window@);
        }
        {
            let entry = &mut self.contexts[c1];
            match entry.1.tree.remove(window) {
                Err(e) => {
                    return Err(EngineError::Tree(e));
                },
                Ok(()) => {},
            }
            let is_maximized = match &entry.1.maximized {
                Some(m) => m.same(window),
                None => false,
            };
            if is_maximized {
                entry.1.maximized = None;
            }
        }
        proof {
            lemma_context_set(cs2, c1 as int, self.contexts@[c1 as int].1);
            assert(self.contexts@ == cs2.update(c1 as int, (cs2[c1 as int].0, self.contexts@[c1 as int].1)));
            self.lemma_lists();
        }
        let ghost s3 = self@;
        let c2 = match self.find_context(new_context) {
            None => {
                return Err(EngineError::MissingContext(new_context.workspace, new_context.monitor));
            },
            Some(i) => i,
        };
        let ghost cs3 = self.contexts@;
        proof {
            assert(s3.contexts[new_context] == cs3[c2 as int].1@);
        }
        self.contexts[c2].1.maximized = None;
        proof {
            lemma_context_set(cs3, c2 as int, self.contexts@[c2 as int].1);
            assert(self.contexts@ == cs3.update(c2 as int, (cs3[c2 as int].0, self.contexts@[c2 as int].1)));
            let s4 = self@;
            let k1 = old_context;
            let k2 = new_context;
            assert(s4.contexts =~= s1.contexts.insert(
                k2,
                ContextView { work_area: work_area, tree: Some(t), hint: Some(window@), maximized: None },
            ).insert(k1, s4.contexts[k1]));
            assert forall|k: ContextKey, w2: Seq<char>|
                s4.contexts.contains_key(k) && #[trigger] view_wins(s4.contexts[k].tree).contains(w2)
                implies s4.records.contains_key(w2) && s4.records[w2] == (WindowRecord {
                    context: k,
                    floating: false,
                }) by {
                if k == k1 || (k == k2 && w2 != window@) {
                    assert(view_wins(s1.contexts[k].tree).contains(w2));
                }
            }
            assert forall|w2: Seq<char>| #[trigger] s4.records.contains_key(w2) implies {
                &&& s4.contexts.contains_key(s4.records[w2].context)
                &&& (!s4.records[w2].floating ==> view_wins(
                    s4.contexts[s4.records[w2].context].tree,
                ).contains(w2))
            } by {
                if w2 != window@ && !s4.records[w2].floating {
                    assert(s1.records[w2] == s4.records[w2]);
                    assert(view_wins(s1.contexts[s4.records[w2].context].tree).contains(w2));
                    if s4.records[w2].context == k1 {
                        assert(view_wins(s4.contexts[k1].tree).contains(w2));
                    }
                }
            }
            assert(moved(s0, window@, new_context, work_area, s4));
        }
        Ok(vec![old_context, new_context])
    }

    /// The placements of the given contexts, each once, in ascending order.
    fn placements_for_contexts(&self, contexts: &Vec<ContextKey>) -> (r: Vec<Placement>)
        requires
            self.wf(),
        ensures
            placement_views(r@) == placements_of(self@, ascending(contexts@.to_set())),
    {
        let mut keys: Vec<ContextKey> = Vec::new();
        let mut i: usize = 0;
        while i < contexts.len()
            invariant
                i <= contexts@.len(),
                keys_ascending(keys@),
                keys@.to_set() == contexts@.take(i as int).to_set(),
            decreases contexts@.len() - i,
        {
            let k = contexts[i];
            let mut p: usize = 0;
            while p < keys.len() && keys[p].precedes(&k)
                invariant
                    p <= keys@.len(),
                    forall|j: int| 0 <= j < p ==> crate::protocol::context_lt(#[trigger] keys@[j], k),
                decreases keys@.len() - p,
            {
                p = p + 1;
            }
            let ghost q = keys@;
            proof {
                assert(contexts@.take(i + 1) =~= contexts@.take(i as int).push(k));
                contexts@.take(i as int).lemma_push_to_set_commute(k);
            }
            if p < keys.len() && keys[p] == k {
                proof {
                    assert(q.to_set().contains(q[p as int]));
                    assert(contexts@.take(i + 1).to_set() =~= contexts@.take(i as int).to_set().insert(k));
                }
            } else {
                keys.insert(p, k);
                proof {
                    assert forall|a: int, b: int| 0 <= a < b < keys@.len() implies crate::protocol::context_lt(
                        #[trigger] keys@[a],
                        #[trigger] keys@[b],
                    ) by {
                        if a < p && b == p {
                        } else if a < p && b > p {
                            assert(keys@[b] == q[b - 1]);
                            if p < q.len() {
                                assert(crate::protocol::context_lt(k, q[p as int]));
                                if b - 1 > p {
                                    assert(crate::protocol::context_lt(q[p as int], q[b - 1]));
                                }
                            }
                        } else if a == p && b > p {
                            assert(keys@[b] == q[b - 1]);
                            assert(q[p as int] != k);
                            assert(crate::protocol::context_lt(k, q[p as int]));
                            if b - 1 > p {
                                assert(crate::protocol::context_lt(q[p as int], q[b - 1]));
                            }
                        } else if a > p {
                            assert(keys@[a] == q[a - 1] && keys@[b] == q[b - 1]);
                        } else {
                            assert(keys@[a] == q[a] && keys@[b] == q[b]);
                        }
                    }
                    assert(keys@ == q.insert(p as int, k));
                    assert(keys@.to_set() =~= q.to_set().insert(k)) by {
                        assert forall|x: ContextKey| keys@.to_set().contains(x) implies q.to_set().insert(
                            k,
                        ).contains(x) by {
                            assert(keys@.contains(x));
                            let j = choose|j: int| 0 <= j < keys@.len() && keys@[j] == x;
                            if j < p {
                                assert(q[j] == x);
                                assert(q.contains(x));
                            } else if j > p {
                                assert(q[j - 1] == x);
                                assert(q.contains(x));
                            }
                        }
                        assert forall|x: ContextKey| q.to_set().insert(k).contains(x) implies keys@.to_set().contains(
                            x,
                        ) by {
                            if x == k {
                                assert(keys@[p as int] == k);
                                assert(keys@.contains(x));
                            } else {
                                assert(q.contains(x));
                                let j = choose|j: int| 0 <= j < q.len() && q[j] == x;
                                if j < p {
                                    assert(keys@[j] == x);
                                } else {
                                    assert(keys@[j + 1] == x);
                                }
                                assert(keys@.contains(x));
                            }
                        }
                    }
                    assert(contexts@.take(i + 1).to_set() =~= contexts@.take(i as int).to_set().insert(k));
                }
            }
            i = i + 1;
        }
        proof {
            assert(contexts@.take(i as int) =~= contexts@);
            lemma_ascending(keys@);
        }
        self.placements_in(&keys)
    }
}

/// Without an invalid work area, every work area is valid.
proof fn lemma_area_error(areas: Seq<WorkAreaSnapshot>)
    requires
        area_error(areas) is None,
    ensures
        forall|i: int| 0 <= i < areas.len() ==> crate::geometry::spec_is_valid(#[trigger] areas[i].rect),
    decreases areas.len(),
{
    if areas.len() > 0 {
        lemma_area_error(areas.drop_first());
        assert forall|i: int| 0 <= i < areas.len() implies crate::geometry::spec_is_valid(
            #[trigger] areas[i].rect,
        ) by {
            if i > 0 {
                assert(areas.drop_first()[i - 1] == areas[i]);
            }
        }
    }
}

/// The contexts that the work areas of a snapshot give are all empty, each on
/// one of the work areas.
proof fn lemma_areas_map(areas: Seq<WorkAreaSnapshot>)
    ensures
        areas_map(areas).dom().finite(),
        forall|k: ContextKey| #[trigger]
            areas_map(areas).contains_key(k) ==> {
                &&& areas_map(areas)[k].tree is None
                &&& areas_map(areas)[k].maximized is None
                &&& exists|i: int| 0 <= i < areas.len() && areas[i].rect == areas_map(areas)[k].work_area
            },
    decreases areas.len(),
{
    if areas.len() > 0 {
        let t = areas.drop_last();
        lemma_areas_map(t);
        assert forall|k: ContextKey| #[trigger] areas_map(areas).contains_key(k) implies {
            &&& areas_map(areas)[k].tree is None
            &&& areas_map(areas)[k].maximized is None
            &&& exists|i: int| 0 <= i < areas.len() && areas[i].rect == areas_map(areas)[k].work_area
        } by {
            if k == areas.last().context {
                assert(areas[areas.len() - 1].rect == areas_map(areas)[k].work_area);
            } else {
                let i = choose|i: int| 0 <= i < t.len() && t[i].rect == areas_map(t)[k].work_area;
                assert(areas[i] == t[i]);
            }
        }
    }
}

/// Adding a window records it, new, and keeps every other record and the focus.
proof fn lemma_add_step(s: EngineView, ws: WindowSnapshot, s2: EngineView)
    requires
        s.records.dom().finite(),
        add_snapshot_result(s, ws) == Ok::<EngineView, EngineError>(s2),
    ensures
        !s.records.contains_key(ws.id@),
        s2.records == s.records.insert(ws.id@, s2.records[ws.id@]),
        s2.records.len() == s.records.len() + 1,
        s2.focused == s.focused,
{
}

/// An error of adding a prefix of the windows is the error of adding them all.
proof fn lemma_add_all_err(s: EngineView, ws: Seq<WindowSnapshot>, i: int, e: EngineError)
    requires
        0 <= i <= ws.len(),
        add_all(s, ws.take(i)) == Err::<EngineView, EngineError>(e),
    ensures
        add_all(s, ws) == Err::<EngineView, EngineError>(e),
    decreases ws.len(),
{
    if ws.len() == i {
        assert(ws.take(i) =~= ws);
    } else {
        assert(ws.drop_last().take(i) =~= ws.take(i));
        lemma_add_all_err(s, ws.drop_last(), i, e);
    }
}

impl EngineState {
    /// Gives the context `k` an empty layout on the work area `wa`.
    fn put_fresh_context(&mut self, k: ContextKey, wa: Rect)
        requires
            old(self).lists_ok(),
        ensures
            final(self).lists_ok(),
            final(self).windows@ == old(self).windows@,
            final(self)@ == with_context(old(self)@, k, crate::state_spec::fresh_context(wa)),
    {
        let ghost s0 = self@;
        let ghost cs0 = self.contexts@;
        proof {
            self.lemma_lists();
        }
        let fresh = TilingContext { work_area: wa, tree: LayoutTree::new(), maximized: None };
        assert(fresh@ == crate::state_spec::fresh_context(wa));
        match self.find_context(k) {
            Some(ci) => {
                self.contexts[ci].1 = fresh;
                proof {
                    lemma_context_set(cs0, ci as int, self.contexts@[ci as int].1);
                    assert(self.contexts@ == cs0.update(ci as int, (cs0[ci as int].0, self.contexts@[ci as int].1)));
                    assert forall|i: int| 0 <= i < self.contexts@.len() implies #[trigger] self.contexts@[i].1.tree.wf() by {
                        if i != ci {
                            assert(self.contexts@[i] == cs0[i]);
                        }
                    }
                    assert(self@ =~= with_context(s0, k, crate::state_spec::fresh_context(wa)));
                }
            },
            None => {
                self.insert_context(k, fresh);
            },
        }
    }

    /// Rebuilds the whole state from a snapshot (see `full_sync_result`). On
    /// error the state is left as it was.
    pub fn full_sync(&mut self, snapshot: Snapshot, config: Config) -> (r: Result<(), EngineError>)
        requires
            old(self).wf(),
            snapshot.windows@.len() <= MAX_WINDOWS,
        ensures
            final(self).wf(),
            match full_sync_result(snapshot.windows@, snapshot.work_areas@, config) {
                Ok(s1) => r is Ok && final(self)@ == s1,
                Err(e) => r == Err::<(), EngineError>(e) && final(self)@ == old(self)@,
            },
    {
        let ghost wv = snapshot.windows@;
        let ghost av = snapshot.work_areas@;
        let windows = snapshot.windows;
        let work_areas = snapshot.work_areas;
        let mut rebuilt = EngineState::new(config);
        let mut i: usize = 0;
        proof {
            assert(av.take(0) =~= Seq::<WorkAreaSnapshot>::empty());
            assert(av.subrange(0, av.len() as int) =~= av);
            assert(rebuilt@.contexts =~= areas_map(av.take(0)));
            assert(rebuilt@.records =~= Map::empty());
        }
        while i < work_areas.len()
            invariant
                self.wf(),
                self@ == old(self)@,
                i <= av.len(),
                av == work_areas@,
                av == snapshot.work_areas@,
                wv == snapshot.windows@,
                rebuilt.lists_ok(),
                rebuilt@ == (EngineView {
                    config: spec_sanitized(config),
                    contexts: areas_map(av.take(i as int)),
                    records: Map::empty(),
                    focused: None,
                }),
                area_error(av) == area_error(av.subrange(i as int, av.len() as int)),
            decreases av.len() - i,
        {
            let k = work_areas[i].context;
            let rect = work_areas[i].rect;
            proof {
                let rest = av.subrange(i as int, av.len() as int);
                assert(rest[0] == av[i as int]);
                assert(rest.drop_first() =~= av.subrange(i + 1, av.len() as int));
            }
            if !rect.is_valid() {
                proof {
                    let rest = av.subrange(i as int, av.len() as int);
                    assert(area_error(rest) == Some(EngineError::InvalidWorkArea(k.workspace, k.monitor)));
                    assert(full_sync_result(wv, av, config) == Err::<EngineView, EngineError>(
                        EngineError::InvalidWorkArea(k.workspace, k.monitor),
                    ));
                }
                return Err(EngineError::InvalidWorkArea(k.workspace, k.monitor));
            }
            rebuilt.put_fresh_context(k, rect);
            proof {
                assert(av.take(i + 1).drop_last() =~= av.take(i as int));
                assert(av.take(i + 1).last() == av[i as int]);
                assert(rebuilt@.contexts =~= areas_map(av.take(i + 1)));
                assert(rebuilt@.records =~= Map::empty());
            }
            i = i + 1;
        }
        proof {
            assert(av.take(i as int) =~= av);
            assert(av.subrange(i as int, av.len() as int) =~= Seq::<WorkAreaSnapshot>::empty());
        }
        let mut j: usize = 0;
        proof {
            assert(wv.subrange(0, wv.len() as int) =~= wv);
        }
        while j < windows.len() && !windows[j].focused
            invariant
                j <= wv.len(),
                wv == windows@,
                first_focused(wv) == first_focused(wv.subrange(j as int, wv.len() as int)),
            decreases wv.len() - j,
        {
            proof {
                let rest = wv.subrange(j as int, wv.len() as int);
                assert(rest[0] == wv[j as int]);
                assert(rest.drop_first() =~= wv.subrange(j + 1, wv.len() as int));
            }
            j = j + 1;
        }
        let focused = if j < windows.len() {
            proof {
                let rest = wv.subrange(j as int, wv.len() as int);
                assert(rest[0] == wv[j as int]);
            }
            Some(windows[j].id.duplicate())
        } else {
            proof {
                assert(wv.subrange(j as int, wv.len() as int) =~= Seq::<WindowSnapshot>::empty());
            }
            None
        };
        let ghost fj = j;
        rebuilt.focused = focused;
        let ghost s0 = rebuilt@;
        assert(s0 =~= EngineView {
            config: spec_sanitized(config),
            contexts: areas_map(av),
            records: Map::empty(),
            focused: first_focused(wv),
        });
        let mut rest = sort_snapshots(windows);
        let ghost sv = rest@;
        proof {
            lemma_sort_by_perm(wv, snapshot_key());
            assert(sv.skip(0) =~= sv);
            assert(sv.take(0) =~= Seq::<WindowSnapshot>::empty());
        }
        let ghost mut n: int = 0;
        proof {
            lemma_areas_map(av);
            lemma_area_error(av);
        }
        while rest.len() > 0
            invariant
                self.wf(),
                self@ == old(self)@,
                av == snapshot.work_areas@,
                wv == snapshot.windows@,
                area_error(av) is None,
                s0.config == spec_sanitized(config),
                s0.contexts == areas_map(av),
                s0.records == Map::<Seq<char>, WindowRecord>::empty(),
                s0.focused == first_focused(wv),
                sv == sort_by(wv, snapshot_key()),
                0 <= n <= sv.len(),
                sv.len() == wv.len(),
                wv.len() <= MAX_WINDOWS,
                rest@ == sv.skip(n),
                rebuilt.lists_ok(),
                layout_consistent(rebuilt@),
                add_all(s0, sv.take(n)) == Ok::<EngineView, EngineError>(rebuilt@),
                rebuilt@.records.len() == n,
                forall|m: int| 0 <= m < n ==> rebuilt@.records.contains_key(#[trigger] sv[m].id@),
                rebuilt@.focused == s0.focused,
            decreases rest@.len(),
        {
            let w = rest.remove(0);
            let ghost before = rebuilt@;
            proof {
                assert(w == sv[n]);
                assert(sv.take(n + 1).drop_last() =~= sv.take(n));
                assert(sv.take(n + 1).last() == w);
            }
            match rebuilt.add_snapshot(w) {
                Err(e) => {
                    proof {
                        assert(add_all(s0, sv.take(n + 1)) == Err::<EngineView, EngineError>(e));
                        lemma_add_all_err(s0, sv, n + 1, e);
                        assert(full_sync_result(wv, av, config) == Err::<EngineView, EngineError>(e));
                    }
                    return Err(e);
                },
                Ok(()) => {},
            }
            proof {
                lemma_add_step(before, w, rebuilt@);
                assert(rest@ =~= sv.skip(n + 1));
                assert forall|m: int| 0 <= m < n + 1 implies rebuilt@.records.contains_key(#[trigger] sv[m].id@) by {
                    if m < n {
                        assert(before.records.contains_key(sv[m].id@));
                    }
                }
                n = n + 1;
            }
        }
        proof {
            assert(sv.take(n) =~= sv);
            if let Some(f) = rebuilt@.focused {
                assert(wv.contains(wv[fj as int]));
                assert(sv.contains(wv[fj as int]));
                let m = choose|m: int| 0 <= m < sv.len() && sv[m] == wv[fj as int];
                assert(rebuilt@.records.contains_key(sv[m].id@));
            }
        }
        let focus_target = match &rebuilt.focused {
            Some(f) => Some(f.duplicate()),
            None => None,
        };
        match focus_target {
            Some(f) => {
                match rebuilt.focus_window(&f) {
                    Err(e) => {
                        return Err(e);
                    },
                    Ok(_) => {},
                }
            },
            None => {},
        }
        *self = rebuilt;
        Ok(())
    }
}

impl EngineState {
    /// Carries out one command and answers it (see `applied`).
    pub fn apply(&mut self, command: Command) -> (r: Result<Response, EngineError>)
        requires
            old(self).wf(),
            within_limits(old(self)@, command),
        ensures
            final(self).wf(),
            applied(old(self)@, command, final(self)@, r),
    {
        let ghost s0 = self@;
        match command {
            Command::FullSync { snapshot, config } => {
                match self.full_sync(snapshot, config) {
                    Err(e) => Err(e),
                    Ok(()) => Ok(Response::Placements { placements: self.placements() }),
                }
            },
            Command::Configure { config } => {
                self.config = config.sanitized();
                proof {
                    assert(self@ =~= EngineView {
                        config: spec_sanitized(config),
                        contexts: s0.contexts,
                        records: s0.records,
                        focused: s0.focused,
                    });
                }
                Ok(Response::Placements { placements: self.placements() })
            },
            Command::AddWindow { window, work_area } => {
                match self.add_window(window, work_area) {
                    Err(e) => Err(e),
                    Ok(k) => Ok(Response::Placements { placements: self.placements_for(k) }),
                }
            },
            Command::RemoveWindow { window_id } => {
                match self.remove_window(&window_id) {
                    Err(e) => Err(e),
                    Ok(k) => Ok(Response::Placements { placements: self.placements_for(k) }),
                }
            },
            Command::FocusWindow { window_id } => {
                match self.focus_window(&window_id) {
                    Err(e) => Err(e),
                    Ok(Some(k)) => Ok(Response::Placements { placements: self.placements_for(k) }),
                    Ok(None) => Ok(Response::Ack),
                }
            },
            Command::WindowContextChanged { window_id, context, work_area } => {
                match self.move_context(&window_id, context, work_area) {
                    Err(e) => Err(e),
                    Ok(keys) => Ok(Response::Placements { placements: self.placements_for_contexts(&keys) }),
                }
            },
            Command::Relayout { context } => {
                let placements = match context {
                    Some(k) => self.placements_for(k),
                    None => self.placements(),
                };
                Ok(Response::Placements { placements })
            },
            Command::FocusDirection { window_id, direction } => {
                match self.directional_neighbor(&window_id, direction) {
                    Err(e) => Err(e),
                    Ok(None) => Ok(Response::Ack),
                    Ok(Some(target)) => {
                        proof {
                            self.lemma_lists();
                        }
                        let ri = match self.find_record(&window_id) {
                            None => {
                                return Err(EngineError::UnknownWindow(window_id));
                            },
                            Some(i) => i,
                        };
                        let k = self.windows[ri].1.context;
                        let cancelled = match self.focus_window(&target) {
                            Err(e) => {
                                return Err(e);
                            },
                            Ok(c) => c.is_some(),
                        };
                        if cancelled {
                            Ok(Response::PlacementsAndFocus { placements: self.placements_for(k), window_id: target })
                        } else {
                            Ok(Response::Focus { window_id: target })
                        }
                    },
                }
            },
            Command::MoveDirection { window_id, direction } => {
                match self.swap_direction(&window_id, direction) {
                    Err(e) => Err(e),
                    Ok(k) => Ok(Response::Placements { placements: self.placements_for(k) }),
                }
            },
            Command::Resize { window_id, direction } => {
                match self.resize(&window_id, direction) {
                    Err(e) => Err(e),
                    Ok(k) => Ok(Response::Placements { placements: self.placements_for(k) }),
                }
            },
            Command::ToggleFloating { window_id } => {
                match self.toggle_floating(&window_id) {
                    Err(e) => Err(e),
                    Ok(k) => Ok(Response::Placements { placements: self.placements_for(k) }),
                }
            },
            Command::ToggleMaximize { window_id } => {
                match self.toggle_maximize(&window_id) {
                    Err(e) => Err(e),
                    Ok(Some(k)) => Ok(Response::Placements { placements: self.placements_for(k) }),
                    Ok(None) => Ok(Response::Ack),
                }
            },
        }
    }
}

/// The rules of `consistent` about the context `k`.
spec fn context_ok(s: EngineView, k: ContextKey) -> bool {
    &&& crate::geometry::spec_is_valid(s.contexts[k].work_area)
    &&& (s.contexts[k].tree is Some ==> s.contexts[k].tree->0.wf())
    &&& (s.contexts[k].maximized is Some ==> view_wins(s.contexts[k].tree).contains(
        s.contexts[k].maximized->0,
    ))
    &&& forall|w: Seq<char>| #[trigger]
        view_wins(s.contexts[k].tree).contains(w) ==> {
            &&& s.records.contains_key(w)
            &&& s.records[w] == (WindowRecord { context: k, floating: false })
        }
}

/// The rules of `consistent` about the record of `w`.
spec fn record_ok(s: EngineView, w: Seq<char>) -> bool {
    &&& s.contexts.contains_key(s.records[w].context)
    &&& (!s.records[w].floating ==> view_wins(s.contexts[s.records[w].context].tree).contains(w))
}

impl EngineState {
    /// Checks the invariant at run time: `Ok` exactly when the state is
    /// consistent, else a description of the first rule found broken.
    pub fn validate_invariants(&self) -> (r: Result<(), String>)
        requires
            self.lists_ok(),
        ensures
            r is Ok <==> consistent(self@),
    {
        proof {
            self.lemma_lists();
        }
        if !(self.config == self.config.sanitized()) {
            return Err(String::from_str("settings are out of bounds"));
        }
        let mut i: usize = 0;
        while i < self.contexts.len()
            invariant
                self.lists_ok(),
                crate::protocol::config_is_sane(self.config),
                i <= self.contexts@.len(),
                forall|j: int| 0 <= j < i ==> #[trigger] context_ok(self@, self.contexts@[j].0),
            decreases self.contexts@.len() - i,
        {
            proof {
                self.lemma_lists();
            }
            let k = self.contexts[i].0;
            let c = &self.contexts[i].1;
            proof {
                c.tree.lemma_view();
                assert(self@.contexts[k] == c@);
            }
            if !c.work_area.is_valid() {
                return Err(String::from_str("work area is not valid"));
            }
            match &c.maximized {
                Some(m) => {
                    if !c.tree.contains(m) {
                        return Err(String::from_str("maximized window is not tiled in its context"));
                    }
                },
                None => {},
            }
            let table = c.tree.window_table();
            let mut t: usize = 0;
            while t < table.len()
                invariant
                    self.lists_ok(),
                    t <= table@.len(),
                    self@.contexts.contains_key(k),
                    self@.contexts[k] == c@,
                    forall|u: int| 0 <= u < table@.len() ==> view_wins(c.tree@).contains(#[trigger] table@[u].0@),
                    forall|u: int|
                        0 <= u < t ==> {
                            &&& self@.records.contains_key(#[trigger] table@[u].0@)
                            &&& self@.records[table@[u].0@] == (WindowRecord { context: k, floating: false })
                        },
                decreases table@.len() - t,
            {
                proof {
                    self.lemma_lists();
                }
                match self.find_record(&table[t].0) {
                    None => {
                        return Err(String::from_str("tree window has no state record"));
                    },
                    Some(ri) => {
                        let rec = self.windows[ri].1;
                        if rec.context != k || rec.floating {
                            return Err(String::from_str("tree window record has wrong context or floating state"));
                        }
                    },
                }
                t = t + 1;
            }
            proof {
                assert forall|w: Seq<char>| #[trigger] view_wins(self@.contexts[k].tree).contains(w) implies {
                    &&& self@.records.contains_key(w)
                    &&& self@.records[w] == (WindowRecord { context: k, floating: false })
                } by {
                    let u = choose|u: int| 0 <= u < table@.len() && table@[u].0@ == w;
                    assert(self@.records.contains_key(table@[u].0@));
                }
                assert(context_ok(self@, self.contexts@[i as int].0));
            }
            i = i + 1;
        }
        let mut j: usize = 0;
        while j < self.windows.len()
            invariant
                self.lists_ok(),
                j <= self.windows@.len(),
                forall|m: int| 0 <= m < j ==> #[trigger] record_ok(self@, self.windows@[m].0@),
            decreases self.windows@.len() - j,
        {
            proof {
                self.lemma_lists();
            }
            let rec = self.windows[j].1;
            match self.find_context(rec.context) {
                None => {
                    assert(self@.records.contains_key(self.windows@[j as int].0@));
                    return Err(String::from_str("window record names an unknown context"));
                },
                Some(ci) => {
                    proof {
                        assert(self@.contexts[rec.context] == self.contexts@[ci as int].1@);
                    }
                    if !rec.floating && !self.contexts[ci].1.tree.contains(&self.windows[j].0) {
                        return Err(String::from_str("tiled records differ from context trees"));
                    }
                },
            }
            j = j + 1;
        }
        match &self.focused {
            Some(f) => {
                if self.find_record(f).is_none() {
                    return Err(String::from_str("focused window has no state record"));
                }
            },
            None => {},
        }
        proof {
            let s = self@;
            assert forall|k: ContextKey| #[trigger] s.contexts.contains_key(k) implies context_ok(s, k) by {
                let jj = choose|jj: int|
                    0 <= jj < context_pairs(self.contexts@).len() && #[trigger] context_pairs(
                        self.contexts@,
                    )[jj].0 == k;
                assert(context_pairs(self.contexts@)[jj].0 == self.contexts@[jj].0);
                assert(context_ok(s, self.contexts@[jj].0));
            }
            assert forall|w: Seq<char>| #[trigger] s.records.contains_key(w) implies record_ok(s, w) by {
                let m = choose|m: int|
                    0 <= m < record_pairs(self.windows@).len() && #[trigger] record_pairs(
                        self.windows@,
                    )[m].0 == w;
                assert(record_pairs(self.windows@)[m].0 == self.windows@[m].0@);
                assert(record_ok(s, self.windows@[m].0@));
            }
            assert forall|k: ContextKey, w: Seq<char>|
                s.contexts.contains_key(k) && #[trigger] view_wins(s.contexts[k].tree).contains(w) implies {
                &&& s.records.contains_key(w)
                &&& s.records[w] == (WindowRecord { context: k, floating: false })
            } by {
                assert(context_ok(s, k));
            }
            assert forall|k: ContextKey| #[trigger] s.contexts.contains_key(k) implies {
                &&& crate::geometry::spec_is_valid(s.contexts[k].work_area)
                &&& (s.contexts[k].tree is Some ==> s.contexts[k].tree->0.wf())
                &&& (s.contexts[k].maximized is Some ==> view_wins(s.contexts[k].tree).contains(
                    s.contexts[k].maximized->0,
                ))
            } by {
                assert(context_ok(s, k));
            }
            assert forall|w: Seq<char>| #[trigger] s.records.contains_key(w) implies {
                &&& s.contexts.contains_key(s.records[w].context)
                &&& (!s.records[w].floating ==> view_wins(s.contexts[s.records[w].context].tree).contains(
                    w,
                ))
            } by {
                assert(record_ok(s, w));
            }
        }
        Ok(())
    }
}

impl Default for EngineState {
    fn default() -> (r: EngineState)
        ensures
            r.wf(),
            r@.config == spec_default_config(),
            r@.contexts.dom() =~= Set::empty(),
            r@.records.dom() =~= Set::empty(),
            r@.focused is None,
    {
        EngineState::new(Config::default())
    }
}

} // verus!
