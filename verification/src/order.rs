//! The order of window ids: that of their text, byte by byte.
use vstd::prelude::*;

use crate::geometry::Rect;
use crate::protocol::{WindowId, WindowSnapshot};

verus! {

/// Lexicographic order of byte strings; a proper prefix comes first.
pub open spec fn bytes_lt(a: Seq<u8>, b: Seq<u8>) -> bool
    decreases a.len(),
{
    if a.len() == 0 {
        b.len() > 0
    } else if b.len() == 0 {
        false
    } else if a[0] < b[0] {
        true
    } else if a[0] > b[0] {
        false
    } else {
        bytes_lt(a.drop_first(), b.drop_first())
    }
}

/// The order of window ids: that of the UTF-8 bytes of their text.
pub open spec fn id_lt(a: Seq<char>, b: Seq<char>) -> bool {
    bytes_lt(vstd::utf8::encode_utf8(a), vstd::utf8::encode_utf8(b))
}

/// Whether the bytes `a` come before the bytes `b`.
fn bytes_precede(a: &[u8], b: &[u8]) -> (r: bool)
    ensures
        r == bytes_lt(a@, b@),
{
    let mut i: usize = 0;
    proof {
        assert(a@.skip(0) =~= a@);
        assert(b@.skip(0) =~= b@);
    }
    while i < a.len() && i < b.len()
        invariant
            i <= a@.len(),
            i <= b@.len(),
            bytes_lt(a@, b@) == bytes_lt(a@.skip(i as int), b@.skip(i as int)),
        decreases a@.len() - i,
    {
        proof {
            assert(a@.skip(i as int)[0] == a@[i as int]);
            assert(b@.skip(i as int)[0] == b@[i as int]);
        }
        if a[i] < b[i] {
            return true;
        }
        if a[i] > b[i] {
            return false;
        }
        proof {
            assert(a@.skip(i as int).drop_first() =~= a@.skip(i + 1));
            assert(b@.skip(i as int).drop_first() =~= b@.skip(i + 1));
        }
        i = i + 1;
    }
    i == a.len() && i < b.len()
}

impl WindowId {
    /// Whether this id comes before `other`.
    pub fn precedes(&self, other: &WindowId) -> (r: bool)
        ensures
            r == id_lt(self@, other@),
    {
        bytes_precede(self.0.as_str().as_bytes(), other.0.as_str().as_bytes())
    }
}

pub proof fn lemma_bytes_irreflexive(a: Seq<u8>)
    ensures
        !bytes_lt(a, a),
    decreases a.len(),
{
    if a.len() > 0 {
        lemma_bytes_irreflexive(a.drop_first());
    }
}

pub proof fn lemma_bytes_asymmetric(a: Seq<u8>, b: Seq<u8>)
    ensures
        !(bytes_lt(a, b) && bytes_lt(b, a)),
    decreases a.len(),
{
    if a.len() > 0 && b.len() > 0 && a[0] == b[0] {
        lemma_bytes_asymmetric(a.drop_first(), b.drop_first());
    }
}

pub proof fn lemma_bytes_transitive(a: Seq<u8>, b: Seq<u8>, c: Seq<u8>)
    requires
        bytes_lt(a, b),
        bytes_lt(b, c),
    ensures
        bytes_lt(a, c),
    decreases a.len(),
{
    if a.len() > 0 && b.len() > 0 && c.len() > 0 && a[0] == b[0] && b[0] == c[0] {
        lemma_bytes_transitive(a.drop_first(), b.drop_first(), c.drop_first());
    }
}

pub proof fn lemma_bytes_total(a: Seq<u8>, b: Seq<u8>)
    requires
        a != b,
    ensures
        bytes_lt(a, b) || bytes_lt(b, a),
    decreases a.len(),
{
    if a.len() == 0 {
        if b.len() == 0 {
            assert(a =~= b);
        }
    } else if b.len() == 0 {
    } else if a[0] == b[0] {
        if a.drop_first() == b.drop_first() {
            assert(a =~= seq![a[0]] + a.drop_first());
            assert(b =~= seq![b[0]] + b.drop_first());
        }
        lemma_bytes_total(a.drop_first(), b.drop_first());
    }
}

/// Ids are ordered strictly and totally.
pub proof fn lemma_id_order(a: Seq<char>, b: Seq<char>, c: Seq<char>)
    ensures
        !id_lt(a, a),
        !(id_lt(a, b) && id_lt(b, a)),
        id_lt(a, b) && id_lt(b, c) ==> id_lt(a, c),
        a != b ==> id_lt(a, b) || id_lt(b, a),
{
    let ea = vstd::utf8::encode_utf8(a);
    let eb = vstd::utf8::encode_utf8(b);
    let ec = vstd::utf8::encode_utf8(c);
    lemma_bytes_irreflexive(ea);
    lemma_bytes_asymmetric(ea, eb);
    if id_lt(a, b) && id_lt(b, c) {
        lemma_bytes_transitive(ea, eb, ec);
    }
    if a != b {
        vstd::utf8::encode_utf8_decode_utf8(a);
        vstd::utf8::encode_utf8_decode_utf8(b);
        lemma_bytes_total(ea, eb);
    }
}

/// `s` with `x` put before its first entry whose key comes after that of `x`.
pub open spec fn insert_by<T>(s: Seq<T>, x: T, key: spec_fn(T) -> Seq<char>) -> Seq<T>
    decreases s.len(),
{
    if s.len() == 0 {
        seq![x]
    } else if id_lt(key(x), key(s[0])) {
        seq![x] + s
    } else {
        seq![s[0]] + insert_by(s.drop_first(), x, key)
    }
}

/// The entries of `s` ordered by key, insertion by insertion, so that entries
/// with equal keys keep their order.
pub open spec fn sort_by<T>(s: Seq<T>, key: spec_fn(T) -> Seq<char>) -> Seq<T>
    decreases s.len(),
{
    if s.len() == 0 {
        s
    } else {
        insert_by(sort_by(s.drop_last(), key), s.last(), key)
    }
}

/// The window of a placement.
pub open spec fn placement_key() -> spec_fn((Seq<char>, Rect)) -> Seq<char> {
    |p: (Seq<char>, Rect)| p.0
}

/// The entries of `s` ordered by window id (entries with equal ids keep their order).
pub open spec fn sort_by_id(s: Seq<(Seq<char>, Rect)>) -> Seq<(Seq<char>, Rect)> {
    sort_by(s, placement_key())
}

/// Inserting at the first entry whose key comes after that of `x`.
pub proof fn lemma_insert_at<T>(s: Seq<T>, x: T, p: int, key: spec_fn(T) -> Seq<char>)
    requires
        0 <= p <= s.len(),
        forall|j: int| 0 <= j < p ==> !id_lt(key(x), #[trigger] key(s[j])),
        p < s.len() ==> id_lt(key(x), key(s[p])),
    ensures
        insert_by(s, x, key) == s.take(p) + seq![x] + s.skip(p),
    decreases s.len(),
{
    if s.len() == 0 {
        assert(s.take(p) + seq![x] + s.skip(p) =~= seq![x]);
    } else if p == 0 {
        assert(s.take(p) + seq![x] + s.skip(p) =~= seq![x] + s);
    } else {
        let t = s.drop_first();
        assert(!id_lt(key(x), key(s[0])));
        assert forall|j: int| 0 <= j < p - 1 implies !id_lt(key(x), #[trigger] key(t[j])) by {
            assert(t[j] == s[j + 1]);
        }
        if p - 1 < t.len() {
            assert(t[p - 1] == s[p]);
        }
        lemma_insert_at(t, x, p - 1, key);
        assert(s.take(p) + seq![x] + s.skip(p) =~= seq![s[0]] + (t.take(p - 1) + seq![x] + t.skip(
            p - 1,
        )));
    }
}

/// Inserting keeps every entry and adds `x`.
pub proof fn lemma_insert_by_perm<T>(s: Seq<T>, x: T, key: spec_fn(T) -> Seq<char>)
    ensures
        insert_by(s, x, key).len() == s.len() + 1,
        forall|y: T| #[trigger] insert_by(s, x, key).contains(y) <==> s.contains(y) || y == x,
    decreases s.len(),
{
    if s.len() > 0 && !id_lt(key(x), key(s[0])) {
        let t = s.drop_first();
        lemma_insert_by_perm(t, x, key);
        let r = insert_by(s, x, key);
        assert(r == seq![s[0]] + insert_by(t, x, key));
        assert forall|y: T| #[trigger] r.contains(y) <==> s.contains(y) || y == x by {
            if r.contains(y) {
                let j = choose|j: int| 0 <= j < r.len() && r[j] == y;
                if j > 0 {
                    assert(insert_by(t, x, key)[j - 1] == y);
                    assert(insert_by(t, x, key).contains(y));
                    if t.contains(y) {
                        let i = choose|i: int| 0 <= i < t.len() && t[i] == y;
                        assert(s[i + 1] == y);
                    }
                } else {
                    assert(s[0] == y);
                }
            }
            if s.contains(y) {
                let i = choose|i: int| 0 <= i < s.len() && s[i] == y;
                if i == 0 {
                    assert(r[0] == y);
                } else {
                    assert(t[i - 1] == y);
                    assert(insert_by(t, x, key).contains(y));
                    let j = choose|j: int| 0 <= j < insert_by(t, x, key).len() && insert_by(t, x, key)[j] == y;
                    assert(r[j + 1] == y);
                }
            }
            if y == x {
                assert(insert_by(t, x, key).contains(x));
                let j = choose|j: int| 0 <= j < insert_by(t, x, key).len() && insert_by(t, x, key)[j] == x;
                assert(r[j + 1] == x);
            }
        }
    } else if s.len() > 0 {
        let r = insert_by(s, x, key);
        assert(r == seq![x] + s);
        assert forall|y: T| #[trigger] r.contains(y) <==> s.contains(y) || y == x by {
            if r.contains(y) {
                let j = choose|j: int| 0 <= j < r.len() && r[j] == y;
                if j > 0 {
                    assert(s[j - 1] == y);
                }
            }
            if s.contains(y) {
                let i = choose|i: int| 0 <= i < s.len() && s[i] == y;
                assert(r[i + 1] == y);
            }
            if y == x {
                assert(r[0] == x);
            }
        }
    } else {
        let r = insert_by(s, x, key);
        assert(r == seq![x]);
        assert forall|y: T| #[trigger] r.contains(y) <==> s.contains(y) || y == x by {
            if y == x {
                assert(r[0] == x);
            }
        }
    }
}

/// Sorting keeps every entry, and the length.
pub proof fn lemma_sort_by_perm<T>(s: Seq<T>, key: spec_fn(T) -> Seq<char>)
    ensures
        sort_by(s, key).len() == s.len(),
        forall|y: T| #[trigger] sort_by(s, key).contains(y) <==> s.contains(y),
    decreases s.len(),
{
    if s.len() > 0 {
        let t = s.drop_last();
        lemma_sort_by_perm(t, key);
        lemma_insert_by_perm(sort_by(t, key), s.last(), key);
        assert forall|y: T| #[trigger] sort_by(s, key).contains(y) <==> s.contains(y) by {
            if s.contains(y) && y != s.last() {
                let i = choose|i: int| 0 <= i < s.len() && s[i] == y;
                assert(t[i] == y);
                assert(t.contains(y));
            }
            if t.contains(y) {
                let i = choose|i: int| 0 <= i < t.len() && t[i] == y;
                assert(s[i] == y);
            }
            if y == s.last() {
                assert(s[s.len() - 1] == y);
            }
        }
    }
}

/// The id of a window snapshot.
pub open spec fn snapshot_key() -> spec_fn(WindowSnapshot) -> Seq<char> {
    |w: WindowSnapshot| w.id@
}

/// The snapshots ordered by window id; snapshots with equal ids keep their order.
pub fn sort_snapshots(ws: Vec<WindowSnapshot>) -> (r: Vec<WindowSnapshot>)
    ensures
        r@ == sort_by(ws@, snapshot_key()),
{
    let ghost v = ws@;
    let mut rest = ws;
    let mut out: Vec<WindowSnapshot> = Vec::new();
    let ghost mut n: int = 0;
    assert(v.take(0) =~= Seq::<WindowSnapshot>::empty());
    assert(v.skip(0) =~= v);
    while rest.len() > 0
        invariant
            0 <= n <= v.len(),
            rest@ == v.skip(n),
            out@ == sort_by(v.take(n), snapshot_key()),
        decreases rest@.len(),
    {
        let x = rest.remove(0);
        let mut p: usize = 0;
        while p < out.len() && !x.id.precedes(&out[p].id)
            invariant
                p <= out@.len(),
                forall|j: int| 0 <= j < p ==> !id_lt(x.id@, #[trigger] out@[j].id@),
            decreases out@.len() - p,
        {
            p = p + 1;
        }
        proof {
            assert(x == v[n]);
            assert forall|j: int| 0 <= j < p implies !id_lt(snapshot_key()(x), #[trigger] snapshot_key()(out@[j])) by {
                assert(snapshot_key()(out@[j]) == out@[j].id@);
            }
            assert(snapshot_key()(x) == x.id@);
            if p < out@.len() {
                assert(snapshot_key()(out@[p as int]) == out@[p as int].id@);
            }
            lemma_insert_at(out@, x, p as int, snapshot_key());
            assert(v.take(n + 1).drop_last() =~= v.take(n));
            assert(v.take(n + 1).last() == x);
        }
        out.insert(p, x);
        proof {
            assert(out@ =~= sort_by(v.take(n + 1), snapshot_key()));
            assert(rest@ =~= v.skip(n + 1));
            n = n + 1;
        }
    }
    proof {
        assert(v.take(n) =~= v);
    }
    out
}

/// Where every placement goes, ordered by window id.
pub fn sort_placements(ps: Vec<crate::protocol::Placement>) -> (r: Vec<crate::protocol::Placement>)
    ensures
        crate::tree::placement_views(r@) == sort_by_id(crate::tree::placement_views(ps@)),
{
    let ghost v = crate::tree::placement_views(ps@);
    let mut out: Vec<crate::protocol::Placement> = Vec::new();
    let mut i: usize = 0;
    assert(v.take(0) =~= Seq::<(Seq<char>, Rect)>::empty());
    while i < ps.len()
        invariant
            i <= ps@.len(),
            v == crate::tree::placement_views(ps@),
            crate::tree::placement_views(out@) == sort_by_id(v.take(i as int)),
        decreases ps@.len() - i,
    {
        let x = crate::protocol::Placement { window_id: ps[i].window_id.duplicate(), rect: ps[i].rect };
        let ghost ov = crate::tree::placement_views(out@);
        let mut p: usize = 0;
        while p < out.len() && !x.window_id.precedes(&out[p].window_id)
            invariant
                p <= out@.len(),
                ov == crate::tree::placement_views(out@),
                forall|j: int| 0 <= j < p ==> !id_lt(x.window_id@, #[trigger] ov[j].0),
                forall|j: int| 0 <= j < p ==> #[trigger] placement_key()(ov[j]) == ov[j].0,
            decreases out@.len() - p,
        {
            p = p + 1;
        }
        let ghost xv = (x.window_id@, x.rect);
        proof {
            assert(placement_key()(xv) == xv.0);
            if p < out@.len() {
                assert(placement_key()(ov[p as int]) == ov[p as int].0);
            }
            lemma_insert_at(ov, xv, p as int, placement_key());
        }
        out.insert(p, x);
        proof {
            assert(v.take(i + 1).drop_last() =~= v.take(i as int));
            assert(v.take(i + 1).last() == xv);
            assert(crate::tree::placement_views(out@) =~= ov.take(p as int) + seq![xv] + ov.skip(p as int));
        }
        i = i + 1;
    }
    assert(v.take(i as int) =~= v);
    out
}

} // verus!
