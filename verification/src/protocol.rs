use vstd::prelude::*;
use vstd::string::*;

use crate::geometry::{Rect, RATIO_ONE};
use crate::tree::{MAX_RATIO, MIN_RATIO};

verus! {

/// A window as the shell names it; two ids name the same window exactly
/// when their text is the same.
#[derive(Clone, Debug, PartialEq, Eq, Hash, PartialOrd, Ord)]
pub struct WindowId(pub String);

impl View for WindowId {
    type V = Seq<char>;

    open spec fn view(&self) -> Seq<char> {
        self.0@
    }
}

/// The length in bytes of the UTF-8 encoding of `s`, as `str::len` reports
/// it (the text of a `String` in memory never takes more than `usize::MAX` bytes).
pub open spec fn utf8_len(s: Seq<char>) -> usize {
    vstd::utf8::encode_utf8(s).len() as usize
}

impl WindowId {
    pub fn new(value: &str) -> (r: WindowId)
        ensures
            r@ == value@,
    {
        WindowId(String::from_str(value))
    }

    /// An id is valid when it is not empty and its text takes at most 128 bytes.
    pub fn is_valid(&self) -> (r: bool)
        ensures
            r == (self@.len() > 0 && utf8_len(self@) <= 128),
    {
        let s: &str = self.0.as_str();
        !s.is_empty() && s.len() <= 128
    }

    /// A copy of this id.
    pub fn duplicate(&self) -> (r: WindowId)
        ensures
            r == *self,
    {
        WindowId(self.0.clone())
    }

    /// Whether the two ids name the same window.
    pub fn same(&self, other: &WindowId) -> (r: bool)
        ensures
            r == (self@ == other@),
    {
        self.0 == other.0
    }
}

/// One workspace on one monitor; every context has a layout of its own.
#[derive(Clone, Copy, Debug, PartialEq, Eq, Structural, Hash)]
pub struct ContextKey {
    pub workspace: u32,
    pub monitor: u32,
}

/// The order of contexts: by workspace, then by monitor.
pub open spec fn context_lt(a: ContextKey, b: ContextKey) -> bool {
    a.workspace < b.workspace || (a.workspace == b.workspace && a.monitor < b.monitor)
}

impl ContextKey {
    pub fn precedes(&self, other: &ContextKey) -> (r: bool)
        ensures
            r == context_lt(*self, *other),
    {
        self.workspace < other.workspace || (self.workspace == other.workspace && self.monitor
            < other.monitor)
    }
}

#[derive(Clone, Copy, Debug, PartialEq, Eq, Structural)]
pub enum Direction {
    Left,
    Down,
    Up,
    Right,
}

/// Layout settings. Ratios and steps are fractions scaled by `RATIO_ONE`.
#[derive(Clone, Copy, Debug, PartialEq, Eq, Structural)]
pub struct Config {
    pub inner_gap: i32,
    pub outer_gap: i32,
    pub split_ratio: u32,
    pub resize_step: u32,
    pub smart_split: bool,
}

/// Smallest and largest keyboard resize step.
pub const MIN_STEP: u32 = 10_000;
pub const MAX_STEP: u32 = 250_000;

/// Largest gap, inner or outer, that a configuration keeps.
pub const MAX_GAP: i32 = 512;

pub open spec fn clamp_i32(v: i32, lo: i32, hi: i32) -> i32 {
    if v < lo { lo } else if v > hi { hi } else { v }
}

pub open spec fn clamp_u32(v: u32, lo: u32, hi: u32) -> u32 {
    if v < lo { lo } else if v > hi { hi } else { v }
}

pub open spec fn spec_sanitized(c: Config) -> Config {
    Config {
        inner_gap: clamp_i32(c.inner_gap, 0, MAX_GAP),
        outer_gap: clamp_i32(c.outer_gap, 0, MAX_GAP),
        split_ratio: clamp_u32(c.split_ratio, MIN_RATIO, MAX_RATIO),
        resize_step: clamp_u32(c.resize_step, MIN_STEP, MAX_STEP),
        smart_split: c.smart_split,
    }
}

pub open spec fn spec_default_config() -> Config {
    Config {
        inner_gap: 8,
        outer_gap: 8,
        split_ratio: RATIO_ONE / 2,
        resize_step: RATIO_ONE / 20,
        smart_split: true,
    }
}

/// A configuration that `sanitized` leaves as it is.
pub open spec fn config_is_sane(c: Config) -> bool {
    spec_sanitized(c) == c
}

impl Default for Config {
    fn default() -> (r: Config)
        ensures
            r == spec_default_config(),
    {
        Config {
            inner_gap: 8,
            outer_gap: 8,
            split_ratio: 500_000,
            resize_step: 50_000,
            smart_split: true,
        }
    }
}

fn clamp_i32_exec(v: i32, lo: i32, hi: i32) -> (r: i32)
    ensures
        r == clamp_i32(v, lo, hi),
{
    if v < lo {
        lo
    } else if v > hi {
        hi
    } else {
        v
    }
}

fn clamp_u32_exec(v: u32, lo: u32, hi: u32) -> (r: u32)
    ensures
        r == clamp_u32(v, lo, hi),
{
    if v < lo {
        lo
    } else if v > hi {
        hi
    } else {
        v
    }
}

impl Config {
    /// Gaps within `0..=512`, the split ratio within the tree's safe bounds and
    /// the resize step within `MIN_STEP..=MAX_STEP`.
    pub fn sanitized(self) -> (r: Config)
        ensures
            r == spec_sanitized(self),
            config_is_sane(r),
    {
        Config {
            inner_gap: clamp_i32_exec(self.inner_gap, 0, MAX_GAP),
            outer_gap: clamp_i32_exec(self.outer_gap, 0, MAX_GAP),
            split_ratio: clamp_u32_exec(self.split_ratio, MIN_RATIO, MAX_RATIO),
            resize_step: clamp_u32_exec(self.resize_step, MIN_STEP, MAX_STEP),
            smart_split: self.smart_split,
        }
    }
}

#[derive(Clone, Debug, PartialEq)]
pub struct WindowSnapshot {
    pub id: WindowId,
    pub context: ContextKey,
    pub app_id: Option<String>,
    pub frame_rect: Rect,
    pub min_width: i32,
    pub min_height: i32,
    pub fullscreen: bool,
    pub window_type: String,
    pub focused: bool,
}

#[derive(Clone, Debug, PartialEq)]
pub struct WorkAreaSnapshot {
    pub context: ContextKey,
    pub rect: Rect,
}

#[derive(Clone, Debug, Default, PartialEq)]
pub struct Snapshot {
    pub windows: Vec<WindowSnapshot>,
    pub work_areas: Vec<WorkAreaSnapshot>,
}

#[derive(Clone, Debug, PartialEq)]
pub enum Command {
    FullSync { snapshot: Snapshot, config: Config },
    Configure { config: Config },
    AddWindow { window: WindowSnapshot, work_area: Rect },
    RemoveWindow { window_id: WindowId },
    FocusWindow { window_id: WindowId },
    WindowContextChanged { window_id: WindowId, context: ContextKey, work_area: Rect },
    Relayout { context: Option<ContextKey> },
    FocusDirection { window_id: WindowId, direction: Direction },
    MoveDirection { window_id: WindowId, direction: Direction },
    Resize { window_id: WindowId, direction: Direction },
    ToggleFloating { window_id: WindowId },
    ToggleMaximize { window_id: WindowId },
}

/// Where one window goes.
#[derive(Clone, Debug, PartialEq, Eq)]
pub struct Placement {
    pub window_id: WindowId,
    pub rect: Rect,
}

#[derive(Clone, Debug, PartialEq)]
pub enum Response {
    Ack,
    Placements { placements: Vec<Placement> },
    Focus { window_id: WindowId },
    PlacementsAndFocus { placements: Vec<Placement>, window_id: WindowId },
    Error { message: String },
}

} // verus!
