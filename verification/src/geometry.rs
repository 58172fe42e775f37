use vstd::prelude::*;

verus! {

/// Fixed-point scale of split ratios: a ratio `r` stands for `r / RATIO_ONE`.
pub const RATIO_ONE: u32 = 1_000_000;

/// An axis-aligned rectangle in screen coordinates.
#[derive(Clone, Copy, Debug, Default, PartialEq, Eq, Structural)]
pub struct Rect {
    pub x: i32,
    pub y: i32,
    pub width: i32,
    pub height: i32,
}

/// Horizontal splits arrange children left/right and divide width.
/// Vertical splits arrange children top/bottom and divide height.
#[derive(Clone, Copy, Debug, PartialEq, Eq, Structural)]
pub enum Orientation {
    Horizontal,
    Vertical,
}

pub open spec fn min_int(a: int, b: int) -> int {
    if a <= b { a } else { b }
}

pub open spec fn max_int(a: int, b: int) -> int {
    if a >= b { a } else { b }
}

pub open spec fn clamp_int(v: int, lo: int, hi: int) -> int {
    max_int(lo, min_int(v, hi))
}

/// The value `v` saturated into the range of `i32`.
pub open spec fn sat_i32(v: int) -> int {
    clamp_int(v, i32::MIN as int, i32::MAX as int)
}

pub open spec fn spec_right(r: Rect) -> int {
    r.x + r.width
}

pub open spec fn spec_bottom(r: Rect) -> int {
    r.y + r.height
}

pub open spec fn spec_is_valid(r: Rect) -> bool {
    &&& r.width > 0
    &&& r.height > 0
    &&& spec_right(r) <= i32::MAX
    &&& spec_bottom(r) <= i32::MAX
    &&& spec_right(r) >= i32::MIN
    &&& spec_bottom(r) >= i32::MIN
}

pub open spec fn spec_area(r: Rect) -> int {
    max_int(r.width as int, 0) * max_int(r.height as int, 0)
}

/// `outer` covers `inner`.
pub open spec fn spec_contains(outer: Rect, inner: Rect) -> bool {
    &&& inner.x >= outer.x
    &&& inner.y >= outer.y
    &&& spec_right(inner) <= spec_right(outer)
    &&& spec_bottom(inner) <= spec_bottom(outer)
}

/// The gap that `inset` takes from every side: the requested gap, never
/// negative and never more than half of a side minus one pixel.
pub open spec fn inset_gap(r: Rect, requested: i32) -> int {
    min_int(
        min_int(max_int(requested as int, 0), max_int(r.width - 1, 0) / 2),
        max_int(r.height - 1, 0) / 2,
    )
}

pub open spec fn spec_inset(r: Rect, requested: i32) -> Rect {
    let g = inset_gap(r, requested);
    Rect {
        x: sat_i32(r.x + g) as i32,
        y: sat_i32(r.y + g) as i32,
        width: (r.width - 2 * g) as i32,
        height: (r.height - 2 * g) as i32,
    }
}

/// Length of the first part when `available` pixels are divided at
/// `ratio / RATIO_ONE`: rounded to the nearest pixel, halves up, and kept
/// between one pixel and `available - 1` pixels.
pub open spec fn first_part(available: int, ratio: int) -> int {
    clamp_int(
        (available * ratio + RATIO_ONE / 2) / (RATIO_ONE as int),
        1,
        max_int(available - 1, 1),
    )
}

/// The gap kept between the two parts of a split of `len` pixels.
pub open spec fn split_gap(len: int, requested: i32) -> int {
    min_int(max_int(requested as int, 0), max_int(len - 2, 0))
}

pub open spec fn spec_split_horizontal(r: Rect, ratio: u32, requested_gap: i32) -> (Rect, Rect) {
    if r.width <= 1 {
        (r, r)
    } else {
        let gap = split_gap(r.width as int, requested_gap);
        let available = r.width - gap;
        let first = first_part(available, ratio as int);
        (
            Rect { width: first as i32, ..r },
            Rect { x: sat_i32(sat_i32(r.x + first) + gap) as i32, width: (available - first) as i32, ..r },
        )
    }
}

pub open spec fn spec_split_vertical(r: Rect, ratio: u32, requested_gap: i32) -> (Rect, Rect) {
    if r.height <= 1 {
        (r, r)
    } else {
        let gap = split_gap(r.height as int, requested_gap);
        let available = r.height - gap;
        let first = first_part(available, ratio as int);
        (
            Rect { height: first as i32, ..r },
            Rect { y: sat_i32(sat_i32(r.y + first) + gap) as i32, height: (available - first) as i32, ..r },
        )
    }
}

/// The two parts of `r` divided along `orientation`.
pub open spec fn spec_split(r: Rect, orientation: Orientation, ratio: u32, gap: i32) -> (Rect, Rect) {
    match orientation {
        Orientation::Horizontal => spec_split_horizontal(r, ratio, gap),
        Orientation::Vertical => spec_split_vertical(r, ratio, gap),
    }
}

fn sat_add(a: i32, b: i32) -> (r: i32)
    ensures
        r == sat_i32(a + b),
{
    let s: i64 = a as i64 + b as i64;
    if s > i32::MAX as i64 {
        i32::MAX
    } else if s < i32::MIN as i64 {
        i32::MIN
    } else {
        s as i32
    }
}

fn first_part_exec(available: i32, ratio: u32) -> (r: i32)
    requires
        available >= 2,
    ensures
        r == first_part(available as int, ratio as int),
        1 <= r < available,
{
    let a: u64 = available as u64;
    let q: u64 = ratio as u64;
    assert(a * q <= 0x7fff_ffffu64 * 0xffff_ffffu64) by (nonlinear_arith)
        requires
            a <= 0x7fff_ffff,
            q <= 0xffff_ffff,
    ;
    let raw: u64 = (a * q + 500_000) / 1_000_000;
    let hi: u64 = a - 1;
    let clamped: u64 = if raw > hi {
        hi
    } else if raw < 1 {
        1
    } else {
        raw
    };
    clamped as i32
}

impl Rect {
    pub fn is_valid(self) -> (r: bool)
        ensures
            r == spec_is_valid(self),
    {
        self.width > 0 && self.height > 0 && self.right() <= i32::MAX as i64 && self.bottom()
            <= i32::MAX as i64 && self.right() >= i32::MIN as i64 && self.bottom()
            >= i32::MIN as i64
    }

    pub fn right(self) -> (r: i64)
        ensures
            r == spec_right(self),
    {
        self.x as i64 + self.width as i64
    }

    pub fn bottom(self) -> (r: i64)
        ensures
            r == spec_bottom(self),
    {
        self.y as i64 + self.height as i64
    }

    pub fn area(self) -> (r: i64)
        ensures
            r == spec_area(self),
    {
        let w: i64 = if self.width > 0 { self.width as i64 } else { 0 };
        let h: i64 = if self.height > 0 { self.height as i64 } else { 0 };
        assert(0 <= w * h <= 0x7fff_ffffi64 * 0x7fff_ffffi64) by (nonlinear_arith)
            requires
                0 <= w <= 0x7fff_ffff,
                0 <= h <= 0x7fff_ffff,
        ;
        w * h
    }

    pub fn inset(self, requested: i32) -> (r: Rect)
        ensures
            r == spec_inset(self, requested),
    {
        let req: i32 = if requested > 0 { requested } else { 0 };
        let wm: i32 = if self.width > 0 { (self.width - 1) / 2 } else { 0 };
        let hm: i32 = if self.height > 0 { (self.height - 1) / 2 } else { 0 };
        let g1: i32 = if req < wm { req } else { wm };
        let gap: i32 = if g1 < hm { g1 } else { hm };
        Rect {
            x: sat_add(self.x, gap),
            y: sat_add(self.y, gap),
            width: self.width - 2 * gap,
            height: self.height - 2 * gap,
        }
    }

    pub fn contains(self, other: Rect) -> (r: bool)
        ensures
            r == spec_contains(self, other),
    {
        other.x >= self.x && other.y >= self.y && other.right() <= self.right() && other.bottom()
            <= self.bottom()
    }

    /// Divides the width at `ratio / RATIO_ONE`, keeping up to `requested_gap`
    /// pixels between the parts; a rectangle one pixel wide or less is not divided.
    pub fn split_horizontal(self, ratio: u32, requested_gap: i32) -> (r: (Rect, Rect))
        ensures
            r == spec_split_horizontal(self, ratio, requested_gap),
    {
        if self.width <= 1 {
            return (self, self);
        }
        let req: i32 = if requested_gap > 0 { requested_gap } else { 0 };
        let gap: i32 = if req < self.width - 2 { req } else { self.width - 2 };
        let available: i32 = self.width - gap;
        let first = first_part_exec(available, ratio);
        let second: i32 = available - first;
        (
            Rect { x: self.x, y: self.y, width: first, height: self.height },
            Rect { x: sat_add(sat_add(self.x, first), gap), y: self.y, width: second, height: self.height },
        )
    }

    /// Divides the height at `ratio / RATIO_ONE`, keeping up to `requested_gap`
    /// pixels between the parts; a rectangle one pixel high or less is not divided.
    pub fn split_vertical(self, ratio: u32, requested_gap: i32) -> (r: (Rect, Rect))
        ensures
            r == spec_split_vertical(self, ratio, requested_gap),
    {
        if self.height <= 1 {
            return (self, self);
        }
        let req: i32 = if requested_gap > 0 { requested_gap } else { 0 };
        let gap: i32 = if req < self.height - 2 { req } else { self.height - 2 };
        let available: i32 = self.height - gap;
        let first = first_part_exec(available, ratio);
        let second: i32 = available - first;
        (
            Rect { x: self.x, y: self.y, width: self.width, height: first },
            Rect { x: self.x, y: sat_add(sat_add(self.y, first), gap), width: self.width, height: second },
        )
    }

    /// The two parts of this rectangle divided along `orientation`.
    pub fn split(self, orientation: Orientation, ratio: u32, gap: i32) -> (r: (Rect, Rect))
        ensures
            r == spec_split(self, orientation, ratio, gap),
    {
        match orientation {
            Orientation::Horizontal => self.split_horizontal(ratio, gap),
            Orientation::Vertical => self.split_vertical(ratio, gap),
        }
    }
}

} // verus!
