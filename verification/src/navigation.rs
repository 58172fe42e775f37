//! Choosing the window to move to in a direction.
use vstd::prelude::*;

use crate::geometry::{spec_bottom, spec_right, Rect};
use crate::order::{id_lt, lemma_id_order};
use crate::protocol::{Direction, WindowId};
use crate::tree::rect_views;

verus! {

/// Twice the horizontal center of `r` (so that it is an integer).
pub open spec fn center2_x(r: Rect) -> int {
    2 * r.x + r.width
}

/// Twice the vertical center of `r`.
pub open spec fn center2_y(r: Rect) -> int {
    2 * r.y + r.height
}

pub open spec fn abs_int(v: int) -> int {
    if v < 0 { -v } else { v }
}

/// The spans `[a_start, a_start + a_size)` and `[b_start, b_start + b_size)` meet.
pub open spec fn spec_ranges_overlap(a_start: i32, a_size: i32, b_start: i32, b_size: i32) -> bool {
    a_start < b_start + b_size && b_start < a_start + a_size
}

/// The center of `r` lies strictly beyond that of `source` in direction `d`.
pub open spec fn in_direction(source: Rect, r: Rect, d: Direction) -> bool {
    match d {
        Direction::Left => center2_x(r) < center2_x(source),
        Direction::Right => center2_x(r) > center2_x(source),
        Direction::Up => center2_y(r) < center2_y(source),
        Direction::Down => center2_y(r) > center2_y(source),
    }
}

/// How far `r` lies from `source` in direction `d`: whether it misses the
/// source's span across the direction, the gap between their edges along the
/// direction, and the distance between their centers across it (doubled).
pub open spec fn nav_key(source: Rect, r: Rect, d: Direction) -> (bool, int, int) {
    match d {
        Direction::Left => (
            !spec_ranges_overlap(source.y, source.height, r.y, r.height),
            if source.x - spec_right(r) > 0 { source.x - spec_right(r) } else { 0 },
            abs_int(center2_y(source) - center2_y(r)),
        ),
        Direction::Right => (
            !spec_ranges_overlap(source.y, source.height, r.y, r.height),
            if r.x - spec_right(source) > 0 { r.x - spec_right(source) } else { 0 },
            abs_int(center2_y(source) - center2_y(r)),
        ),
        Direction::Up => (
            !spec_ranges_overlap(source.x, source.width, r.x, r.width),
            if source.y - spec_bottom(r) > 0 { source.y - spec_bottom(r) } else { 0 },
            abs_int(center2_x(source) - center2_x(r)),
        ),
        Direction::Down => (
            !spec_ranges_overlap(source.x, source.width, r.x, r.width),
            if r.y - spec_bottom(source) > 0 { r.y - spec_bottom(source) } else { 0 },
            abs_int(center2_x(source) - center2_x(r)),
        ),
    }
}

/// Candidates are compared by overlap first (overlapping ones first), then by
/// the gap, then by the distance across, then by id.
pub open spec fn nav_lt(a: (bool, int, int), ia: Seq<char>, b: (bool, int, int), ib: Seq<char>) -> bool {
    ||| (!a.0 && b.0)
    ||| (a.0 == b.0 && a.1 < b.1)
    ||| (a.0 == b.0 && a.1 == b.1 && a.2 < b.2)
    ||| (a.0 == b.0 && a.1 == b.1 && a.2 == b.2 && id_lt(ia, ib))
}

/// The entry at `i` is a candidate to move to from `current`, whose rectangle is `source`.
pub open spec fn is_candidate(
    rects: Seq<(Seq<char>, Rect)>,
    current: Seq<char>,
    source: Rect,
    d: Direction,
    i: int,
) -> bool {
    &&& 0 <= i < rects.len()
    &&& rects[i].0 != current
    &&& in_direction(source, rects[i].1, d)
}

pub open spec fn ids_distinct(rects: Seq<(Seq<char>, Rect)>) -> bool {
    forall|i: int, j: int|
        0 <= i < rects.len() && 0 <= j < rects.len() && i != j ==> #[trigger] rects[i].0
            != #[trigger] rects[j].0
}

/// The position of the rectangle of `w`, if any.
pub open spec fn has_entry(rects: Seq<(Seq<char>, Rect)>, w: Seq<char>, i: int) -> bool {
    0 <= i < rects.len() && rects[i].0 == w
}

/// The best candidate at `i` beats every other candidate.
pub open spec fn is_best(
    rects: Seq<(Seq<char>, Rect)>,
    current: Seq<char>,
    source: Rect,
    d: Direction,
    i: int,
) -> bool {
    &&& is_candidate(rects, current, source, d, i)
    &&& forall|j: int|
        #![trigger is_candidate(rects, current, source, d, j)]
        is_candidate(rects, current, source, d, j) && j != i ==> nav_lt(
            nav_key(source, rects[i].1, d),
            rects[i].0,
            nav_key(source, rects[j].1, d),
            rects[j].0,
        )
}

/// What moving from `current` in `d` gives: nothing when `current` has no
/// rectangle or no candidate lies that way, else the best candidate.
pub open spec fn nav_result(
    rects: Seq<(Seq<char>, Rect)>,
    current: Seq<char>,
    d: Direction,
    r: Option<Seq<char>>,
) -> bool {
    match r {
        None => {
            ||| forall|s: int| !has_entry(rects, current, s)
            ||| exists|s: int| {
                &&& has_entry(rects, current, s)
                &&& forall|j: int| !is_candidate(rects, current, rects[s].1, d, j)
            }
        },
        Some(w) => exists|s: int, i: int| {
            &&& has_entry(rects, current, s)
            &&& is_best(rects, current, rects[s].1, d, i)
            &&& rects[i].0 == w
        },
    }
}

/// The window that moving from `current` in `d` reaches, if any.
pub open spec fn nav_target(rects: Seq<(Seq<char>, Rect)>, current: Seq<char>, d: Direction) -> Option<
    Seq<char>,
> {
    if exists|w: Seq<char>| nav_result(rects, current, d, Some(w)) {
        Some(choose|w: Seq<char>| nav_result(rects, current, d, Some(w)))
    } else {
        None
    }
}

/// With distinct ids there is one result of a move, `nav_target`.
pub proof fn lemma_nav_target(
    rects: Seq<(Seq<char>, Rect)>,
    current: Seq<char>,
    d: Direction,
    r: Option<Seq<char>>,
)
    requires
        ids_distinct(rects),
        nav_result(rects, current, d, r),
    ensures
        r == nav_target(rects, current, d),
{
    if exists|w: Seq<char>| nav_result(rects, current, d, Some(w)) {
        let w = choose|w: Seq<char>| nav_result(rects, current, d, Some(w));
        let (s, i) = choose|s: int, i: int| {
            &&& has_entry(rects, current, s)
            &&& is_best(rects, current, rects[s].1, d, i)
            &&& rects[i].0 == w
        };
        match r {
            None => {
                if exists|s2: int| {
                    &&& has_entry(rects, current, s2)
                    &&& forall|j: int| !is_candidate(rects, current, rects[s2].1, d, j)
                } {
                    let s2 = choose|s2: int| {
                        &&& has_entry(rects, current, s2)
                        &&& forall|j: int| !is_candidate(rects, current, rects[s2].1, d, j)
                    };
                    assert(s2 == s);
                    assert(is_candidate(rects, current, rects[s].1, d, i));
                } else {
                    assert(has_entry(rects, current, s));
                }
            },
            Some(w2) => {
                let (s2, i2) = choose|s2: int, i2: int| {
                    &&& has_entry(rects, current, s2)
                    &&& is_best(rects, current, rects[s2].1, d, i2)
                    &&& rects[i2].0 == w2
                };
                assert(s2 == s);
                if i2 != i {
                    assert(is_candidate(rects, current, rects[s].1, d, i2));
                    assert(is_candidate(rects, current, rects[s].1, d, i));
                    lemma_nav_order(
                        nav_key(rects[s].1, rects[i].1, d),
                        rects[i].0,
                        nav_key(rects[s].1, rects[i2].1, d),
                        rects[i2].0,
                        nav_key(rects[s].1, rects[i].1, d),
                        rects[i].0,
                    );
                }
            },
        }
    } else {
        if let Some(w2) = r {
            assert(nav_result(rects, current, d, Some(w2)));
        }
    }
}

pub open spec fn opt_id(w: Option<WindowId>) -> Option<Seq<char>> {
    match w {
        None => None,
        Some(x) => Some(x@),
    }
}

proof fn lemma_nav_order(
    a: (bool, int, int),
    ia: Seq<char>,
    b: (bool, int, int),
    ib: Seq<char>,
    c: (bool, int, int),
    ic: Seq<char>,
)
    ensures
        nav_lt(a, ia, b, ib) && nav_lt(b, ib, c, ic) ==> nav_lt(a, ia, c, ic),
        ia != ib ==> nav_lt(a, ia, b, ib) || nav_lt(b, ib, a, ia),
        !(nav_lt(a, ia, b, ib) && nav_lt(b, ib, a, ia)),
{
    lemma_id_order(ia, ib, ic);
    lemma_id_order(ib, ia, ic);
}

pub fn ranges_overlap(a_start: i32, a_size: i32, b_start: i32, b_size: i32) -> (r: bool)
    ensures
        r == spec_ranges_overlap(a_start, a_size, b_start, b_size),
{
    (a_start as i64) < b_start as i64 + b_size as i64 && (b_start as i64) < a_start as i64
        + a_size as i64
}

fn key_exec(source: Rect, r: Rect, d: Direction) -> (k: (bool, i64, i64))
    ensures
        k.0 == nav_key(source, r, d).0,
        k.1 == nav_key(source, r, d).1,
        k.2 == nav_key(source, r, d).2,
{
    let sx2: i64 = 2 * source.x as i64 + source.width as i64;
    let sy2: i64 = 2 * source.y as i64 + source.height as i64;
    let rx2: i64 = 2 * r.x as i64 + r.width as i64;
    let ry2: i64 = 2 * r.y as i64 + r.height as i64;
    match d {
        Direction::Left => {
            let g: i64 = source.x as i64 - r.right();
            let dy: i64 = sy2 - ry2;
            (
                !ranges_overlap(source.y, source.height, r.y, r.height),
                if g > 0 { g } else { 0 },
                if dy < 0 { -dy } else { dy },
            )
        },
        Direction::Right => {
            let g: i64 = r.x as i64 - source.right();
            let dy: i64 = sy2 - ry2;
            (
                !ranges_overlap(source.y, source.height, r.y, r.height),
                if g > 0 { g } else { 0 },
                if dy < 0 { -dy } else { dy },
            )
        },
        Direction::Up => {
            let g: i64 = source.y as i64 - r.bottom();
            let dx: i64 = sx2 - rx2;
            (
                !ranges_overlap(source.x, source.width, r.x, r.width),
                if g > 0 { g } else { 0 },
                if dx < 0 { -dx } else { dx },
            )
        },
        Direction::Down => {
            let g: i64 = r.y as i64 - source.bottom();
            let dx: i64 = sx2 - rx2;
            (
                !ranges_overlap(source.x, source.width, r.x, r.width),
                if g > 0 { g } else { 0 },
                if dx < 0 { -dx } else { dx },
            )
        },
    }
}

fn in_direction_exec(source: Rect, r: Rect, d: Direction) -> (b: bool)
    ensures
        b == in_direction(source, r, d),
{
    let sx2: i64 = 2 * source.x as i64 + source.width as i64;
    let sy2: i64 = 2 * source.y as i64 + source.height as i64;
    let rx2: i64 = 2 * r.x as i64 + r.width as i64;
    let ry2: i64 = 2 * r.y as i64 + r.height as i64;
    match d {
        Direction::Left => rx2 < sx2,
        Direction::Right => rx2 > sx2,
        Direction::Up => ry2 < sy2,
        Direction::Down => ry2 > sy2,
    }
}

/// The window to move to from `current` in `direction`: among the windows whose
/// center lies beyond that of `current` in that direction, the one that best
/// lines up with it (see `nav_lt`). `None` when `current` has no rectangle or
/// no window lies that way.
pub fn best_candidate(current: &WindowId, direction: Direction, rects: &Vec<(WindowId, Rect)>) -> (r: Option<WindowId>)
    requires
        ids_distinct(rect_views(rects@)),
    ensures
        nav_result(rect_views(rects@), current@, direction, opt_id(r)),
        opt_id(r) == nav_target(rect_views(rects@), current@, direction),
{
    let ghost rv = rect_views(rects@);
    let mut s: usize = 0;
    while s < rects.len() && !rects[s].0.same(current)
        invariant
            rv == rect_views(rects@),
            s <= rv.len(),
            forall|j: int| 0 <= j < s ==> rv[j].0 != current@,
        decreases rv.len() - s,
    {
        s = s + 1;
    }
    if s == rects.len() {
        assert forall|j: int| !has_entry(rv, current@, j) by {}
        proof {
            lemma_nav_target(rv, current@, direction, None);
        }
        return None;
    }
    let source = rects[s].1;
    let mut best: Option<usize> = None;
    let mut i: usize = 0;
    while i < rects.len()
        invariant
            rv == rect_views(rects@),
            s < rv.len(),
            has_entry(rv, current@, s as int),
            source == rv[s as int].1,
            ids_distinct(rv),
            i <= rv.len(),
            match best {
                None => forall|j: int| 0 <= j < i ==> !is_candidate(rv, current@, source, direction, j),
                Some(b) => {
                    &&& b < i
                    &&& is_candidate(rv, current@, source, direction, b as int)
                    &&& forall|j: int|
                        #![trigger is_candidate(rv, current@, source, direction, j)]
                        0 <= j < i && j != b && is_candidate(rv, current@, source, direction, j)
                            ==> nav_lt(
                            nav_key(source, rv[b as int].1, direction),
                            rv[b as int].0,
                            nav_key(source, rv[j].1, direction),
                            rv[j].0,
                        )
                },
            },
        decreases rv.len() - i,
    {
        if !rects[i].0.same(current) && in_direction_exec(source, rects[i].1, direction) {
            let k = key_exec(source, rects[i].1, direction);
            match best {
                None => {
                    best = Some(i);
                },
                Some(b) => {
                    let kb = key_exec(source, rects[b].1, direction);
                    let better = (!k.0 && kb.0) || (k.0 == kb.0 && k.1 < kb.1) || (k.0 == kb.0
                        && k.1 == kb.1 && k.2 < kb.2) || (k.0 == kb.0 && k.1 == kb.1 && k.2 == kb.2
                        && rects[i].0.precedes(&rects[b].0));
                    proof {
                        let ki = nav_key(source, rv[i as int].1, direction);
                        let kbb = nav_key(source, rv[b as int].1, direction);
                        assert(rv[i as int].0 != rv[b as int].0);
                        lemma_nav_order(ki, rv[i as int].0, kbb, rv[b as int].0, ki, rv[i as int].0);
                        assert forall|j: int|
                            0 <= j < i && j != b && is_candidate(rv, current@, source, direction, j)
                            implies #[trigger] nav_lt(
                                ki,
                                rv[i as int].0,
                                nav_key(source, rv[j].1, direction),
                                rv[j].0,
                            ) || !better by {
                            if better {
                                lemma_nav_order(
                                    ki,
                                    rv[i as int].0,
                                    kbb,
                                    rv[b as int].0,
                                    nav_key(source, rv[j].1, direction),
                                    rv[j].0,
                                );
                            }
                        }
                    }
                    if better {
                        best = Some(i);
                    }
                },
            }
        }
        i = i + 1;
    }
    match best {
        None => {
            assert(forall|j: int| !is_candidate(rv, current@, rv[s as int].1, direction, j));
            proof {
                lemma_nav_target(rv, current@, direction, None);
            }
            None
        },
        Some(b) => {
            assert(is_best(rv, current@, rv[s as int].1, direction, b as int));
            let r = rects[b].0.duplicate();
            proof {
                lemma_nav_target(rv, current@, direction, Some(r@));
            }
            Some(r)
        },
    }
}

/// Moving in a direction reaches another window whose center lies beyond that
/// of the current one; when some such window lines up with the current one
/// across the direction, the window reached lines up too.
pub proof fn law_nav_prefers_overlap(rects: Seq<(Seq<char>, Rect)>, current: Seq<char>, d: Direction)
    requires
        ids_distinct(rects),
        nav_target(rects, current, d) is Some,
    ensures
        exists|s: int, i: int| {
            &&& has_entry(rects, current, s)
            &&& 0 <= i < rects.len()
            &&& rects[i].0 == nav_target(rects, current, d)->0
            &&& rects[i].0 != current
            &&& in_direction(rects[s].1, rects[i].1, d)
            &&& (exists|j: int|
                is_candidate(rects, current, rects[s].1, d, j) && !nav_key(rects[s].1, rects[j].1, d).0)
                ==> !nav_key(rects[s].1, rects[i].1, d).0
        },
{
    let w = nav_target(rects, current, d)->0;
    assert(nav_result(rects, current, d, Some(w)));
    let (s, i) = choose|s: int, i: int| {
        &&& has_entry(rects, current, s)
        &&& is_best(rects, current, rects[s].1, d, i)
        &&& rects[i].0 == w
    };
    assert(is_candidate(rects, current, rects[s].1, d, i));
    if exists|j: int|
        is_candidate(rects, current, rects[s].1, d, j) && !nav_key(rects[s].1, rects[j].1, d).0 {
        let j = choose|j: int|
            is_candidate(rects, current, rects[s].1, d, j) && !nav_key(rects[s].1, rects[j].1, d).0;
        if j != i {
            assert(nav_lt(
                nav_key(rects[s].1, rects[i].1, d),
                rects[i].0,
                nav_key(rects[s].1, rects[j].1, d),
                rects[j].0,
            ));
        }
    }
}

/// The center of `r` lies beyond that of `source` in direction `d`.
pub open spec fn lies_beyond(source: Rect, r: Rect, d: Direction) -> bool {
    match d {
        Direction::Left => 2 * r.x + r.width < 2 * source.x + source.width,
        Direction::Right => 2 * r.x + r.width > 2 * source.x + source.width,
        Direction::Up => 2 * r.y + r.height < 2 * source.y + source.height,
        Direction::Down => 2 * r.y + r.height > 2 * source.y + source.height,
    }
}

/// `r` shares part of the span of `source` across direction `d`: rows for a
/// move left or right, columns for a move up or down.
pub open spec fn lines_up(source: Rect, r: Rect, d: Direction) -> bool {
    match d {
        Direction::Left | Direction::Right => source.y < r.y + r.height && r.y < source.y
            + source.height,
        Direction::Up | Direction::Down => source.x < r.x + r.width && r.x < source.x
            + source.width,
    }
}

/// The empty space between the edge of `source` that faces `d` and the near
/// edge of `r`, or 0 when they touch or overlap.
pub open spec fn edge_gap(source: Rect, r: Rect, d: Direction) -> int {
    let g: int = match d {
        Direction::Left => source.x - (r.x + r.width),
        Direction::Right => r.x - (source.x + source.width),
        Direction::Up => source.y - (r.y + r.height),
        Direction::Down => r.y - (source.y + source.height),
    };
    if g > 0 {
        g
    } else {
        0
    }
}

/// How far the center of `r` lies from that of `source` across direction
/// `d` (doubled).
pub open spec fn across_offset(source: Rect, r: Rect, d: Direction) -> int {
    let v: int = match d {
        Direction::Left | Direction::Right => (2 * r.y + r.height) - (2 * source.y
            + source.height),
        Direction::Up | Direction::Down => (2 * r.x + r.width) - (2 * source.x + source.width),
    };
    if v < 0 {
        -v
    } else {
        v
    }
}

/// Moving from `current` in `d` reaches another window that lies beyond it,
/// and none of the other windows beyond it is nearer: one that lines up with
/// `current` is preferred to one that does not; among those that equally line
/// up, the one with the smaller gap to the facing edge; at an equal gap, the
/// one whose center is nearer across the direction; only then the smaller id.
pub proof fn law_nav_reaches_nearest(rects: Seq<(Seq<char>, Rect)>, current: Seq<char>, d: Direction)
    requires
        ids_distinct(rects),
        nav_target(rects, current, d) is Some,
    ensures
        exists|i: int| 0 <= i < rects.len() && rects[i].0 == nav_target(rects, current, d)->0,
        forall|s: int, i: int, j: int|
            #![trigger has_entry(rects, current, s), rects[i], rects[j]]
            has_entry(rects, current, s) && 0 <= i < rects.len() && rects[i].0 == nav_target(
                rects,
                current,
                d,
            )->0 && 0 <= j < rects.len() && j != i && rects[j].0 != current && lies_beyond(
                rects[s].1,
                rects[j].1,
                d,
            ) ==> {
                let src = rects[s].1;
                &&& rects[i].0 != current
                &&& lies_beyond(src, rects[i].1, d)
                &&& (lines_up(src, rects[j].1, d) ==> lines_up(src, rects[i].1, d))
                &&& (lines_up(src, rects[j].1, d) == lines_up(src, rects[i].1, d) ==> edge_gap(
                    src,
                    rects[i].1,
                    d,
                ) <= edge_gap(src, rects[j].1, d))
                &&& (lines_up(src, rects[j].1, d) == lines_up(src, rects[i].1, d) && edge_gap(
                    src,
                    rects[i].1,
                    d,
                ) == edge_gap(src, rects[j].1, d) ==> across_offset(src, rects[i].1, d)
                    <= across_offset(src, rects[j].1, d))
                &&& (lines_up(src, rects[j].1, d) == lines_up(src, rects[i].1, d) && edge_gap(
                    src,
                    rects[i].1,
                    d,
                ) == edge_gap(src, rects[j].1, d) && across_offset(src, rects[i].1, d)
                    == across_offset(src, rects[j].1, d) ==> id_lt(rects[i].0, rects[j].0))
            },
{
    let w = nav_target(rects, current, d)->0;
    assert(nav_result(rects, current, d, Some(w)));
    let (s0, i0) = choose|s: int, i: int| {
        &&& has_entry(rects, current, s)
        &&& is_best(rects, current, rects[s].1, d, i)
        &&& rects[i].0 == w
    };
    assert(is_candidate(rects, current, rects[s0].1, d, i0));
    assert forall|s: int, i: int, j: int|
        #![trigger has_entry(rects, current, s), rects[i], rects[j]]
        has_entry(rects, current, s) && 0 <= i < rects.len() && rects[i].0 == w && 0 <= j
            < rects.len() && j != i && rects[j].0 != current && lies_beyond(rects[s].1, rects[j].1, d)
        implies {
        let src = rects[s].1;
        &&& rects[i].0 != current
        &&& lies_beyond(src, rects[i].1, d)
        &&& (lines_up(src, rects[j].1, d) ==> lines_up(src, rects[i].1, d))
        &&& (lines_up(src, rects[j].1, d) == lines_up(src, rects[i].1, d) ==> edge_gap(
            src,
            rects[i].1,
            d,
        ) <= edge_gap(src, rects[j].1, d))
        &&& (lines_up(src, rects[j].1, d) == lines_up(src, rects[i].1, d) && edge_gap(
            src,
            rects[i].1,
            d,
        ) == edge_gap(src, rects[j].1, d) ==> across_offset(src, rects[i].1, d) <= across_offset(
            src,
            rects[j].1,
            d,
        ))
        &&& (lines_up(src, rects[j].1, d) == lines_up(src, rects[i].1, d) && edge_gap(
            src,
            rects[i].1,
            d,
        ) == edge_gap(src, rects[j].1, d) && across_offset(src, rects[i].1, d) == across_offset(
            src,
            rects[j].1,
            d,
        ) ==> id_lt(rects[i].0, rects[j].0))
    } by {
        if s != s0 {
            assert(rects[s].0 == rects[s0].0);
        }
        if i != i0 {
            assert(rects[i].0 == rects[i0].0);
        }
        let src = rects[s].1;
        assert(in_direction(src, rects[j].1, d) == lies_beyond(src, rects[j].1, d));
        assert(in_direction(src, rects[i].1, d) == lies_beyond(src, rects[i].1, d));
        assert(is_candidate(rects, current, src, d, j));
        assert(nav_lt(nav_key(src, rects[i].1, d), rects[i].0, nav_key(src, rects[j].1, d), rects[j].0));
    }
}

} // verus!
