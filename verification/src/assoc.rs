use vstd::prelude::*;

verus! {

/// The map that the pairs of `s` make, a later pair winning over an earlier one.
pub open spec fn pairs_map<K, V>(s: Seq<(K, V)>) -> Map<K, V>
    decreases s.len(),
{
    if s.len() == 0 {
        Map::empty()
    } else {
        pairs_map(s.drop_last()).insert(s.last().0, s.last().1)
    }
}

/// No key occurs twice in `s`.
pub open spec fn keys_distinct<K, V>(s: Seq<(K, V)>) -> bool {
    forall|i: int, j: int|
        0 <= i < s.len() && 0 <= j < s.len() && i != j ==> #[trigger] s[i].0 != #[trigger] s[j].0
}

/// Some pair of `s` has the key `k`.
pub open spec fn has_key<K, V>(s: Seq<(K, V)>, k: K) -> bool {
    exists|i: int| 0 <= i < s.len() && #[trigger] s[i].0 == k
}

pub proof fn lemma_pairs_map<K, V>(s: Seq<(K, V)>)
    ensures
        pairs_map(s).dom().finite(),
        forall|k: K| #[trigger] pairs_map(s).contains_key(k) <==> has_key(s, k),
        keys_distinct(s) ==> forall|i: int|
            0 <= i < s.len() ==> #[trigger] pairs_map(s)[s[i].0] == s[i].1,
        keys_distinct(s) ==> pairs_map(s).len() == s.len(),
    decreases s.len(),
{
    if s.len() > 0 {
        let t = s.drop_last();
        let n = s.len() - 1;
        lemma_pairs_map(t);
        assert forall|k: K| #[trigger] pairs_map(s).contains_key(k) <==> has_key(s, k) by {
            if pairs_map(s).contains_key(k) && k != s.last().0 {
                assert(has_key(t, k));
                let i = choose|i: int| 0 <= i < t.len() && #[trigger] t[i].0 == k;
                assert(s[i] == t[i]);
            }
            if has_key(s, k) {
                let i = choose|i: int| 0 <= i < s.len() && #[trigger] s[i].0 == k;
                if i < n {
                    assert(t[i] == s[i]);
                    assert(has_key(t, k));
                }
            }
            if k == s.last().0 {
                assert(s[n].0 == k);
            }
        }
        if keys_distinct(s) {
            assert(keys_distinct(t)) by {
                assert forall|i: int, j: int|
                    0 <= i < t.len() && 0 <= j < t.len() && i != j implies #[trigger] t[i].0
                    != #[trigger] t[j].0 by {
                    assert(t[i] == s[i] && t[j] == s[j]);
                }
            }
            assert forall|i: int| 0 <= i < s.len() implies #[trigger] pairs_map(s)[s[i].0]
                == s[i].1 by {
                if i < n {
                    assert(s[i].0 != s[n].0);
                    assert(t[i] == s[i]);
                }
            }
            assert(!pairs_map(t).contains_key(s.last().0)) by {
                if pairs_map(t).contains_key(s.last().0) {
                    let i = choose|i: int| 0 <= i < t.len() && #[trigger] t[i].0 == s.last().0;
                    assert(t[i] == s[i]);
                    assert(s[i].0 != s[n].0);
                }
            }
        }
    }
}

/// With distinct keys, a map that holds exactly the pairs of `s` is the map of `s`.
pub proof fn lemma_pairs_map_ext<K, V>(s: Seq<(K, V)>, m: Map<K, V>)
    requires
        keys_distinct(s),
        forall|k: K| #[trigger] m.contains_key(k) <==> has_key(s, k),
        forall|i: int| 0 <= i < s.len() ==> #[trigger] m[s[i].0] == s[i].1,
    ensures
        pairs_map(s) == m,
{
    lemma_pairs_map(s);
    assert forall|k: K| pairs_map(s).contains_key(k) implies pairs_map(s)[k] == m[k] by {
        let i = choose|i: int| 0 <= i < s.len() && #[trigger] s[i].0 == k;
        assert(pairs_map(s)[s[i].0] == s[i].1);
        assert(m[s[i].0] == s[i].1);
    }
    assert(pairs_map(s) =~= m);
}

/// Replacing the value at `i`.
pub proof fn lemma_pairs_update<K, V>(s: Seq<(K, V)>, i: int, v: V)
    requires
        keys_distinct(s),
        0 <= i < s.len(),
    ensures
        keys_distinct(s.update(i, (s[i].0, v))),
        pairs_map(s.update(i, (s[i].0, v))) == pairs_map(s).insert(s[i].0, v),
{
    let u = s.update(i, (s[i].0, v));
    let m = pairs_map(s).insert(s[i].0, v);
    lemma_pairs_map(s);
    assert forall|a: int, b: int|
        0 <= a < u.len() && 0 <= b < u.len() && a != b implies #[trigger] u[a].0
        != #[trigger] u[b].0 by {
        assert(u[a].0 == s[a].0 && u[b].0 == s[b].0);
    }
    assert forall|k: K| #[trigger] m.contains_key(k) <==> has_key(u, k) by {
        if has_key(u, k) {
            let a = choose|a: int| 0 <= a < u.len() && #[trigger] u[a].0 == k;
            assert(s[a].0 == k);
        }
        if m.contains_key(k) {
            if k == s[i].0 {
                assert(u[i].0 == k);
            } else {
                let a = choose|a: int| 0 <= a < s.len() && #[trigger] s[a].0 == k;
                assert(u[a].0 == k);
            }
        }
    }
    assert forall|a: int| 0 <= a < u.len() implies #[trigger] m[u[a].0] == u[a].1 by {
        if a != i {
            assert(s[a].0 != s[i].0);
            assert(m[s[a].0] == s[a].1);
        }
    }
    lemma_pairs_map_ext(u, m);
}

/// Inserting a pair with a new key at position `p`.
pub proof fn lemma_pairs_insert<K, V>(s: Seq<(K, V)>, p: int, e: (K, V))
    requires
        keys_distinct(s),
        0 <= p <= s.len(),
        !has_key(s, e.0),
    ensures
        keys_distinct(s.insert(p, e)),
        pairs_map(s.insert(p, e)) == pairs_map(s).insert(e.0, e.1),
{
    let u = s.insert(p, e);
    let m = pairs_map(s).insert(e.0, e.1);
    lemma_pairs_map(s);
    assert forall|a: int| 0 <= a < u.len() implies #[trigger] u[a] == (if a < p {
        s[a]
    } else if a == p {
        e
    } else {
        s[a - 1]
    }) by {}
    assert forall|a: int, b: int|
        0 <= a < u.len() && 0 <= b < u.len() && a != b implies #[trigger] u[a].0
        != #[trigger] u[b].0 by {
        if a == p {
            assert(b != p);
            let j = if b < p { b } else { b - 1 };
            assert(u[b] == s[j]);
        } else if b == p {
            let j = if a < p { a } else { a - 1 };
            assert(u[a] == s[j]);
        } else {
            let ja = if a < p { a } else { a - 1 };
            let jb = if b < p { b } else { b - 1 };
            assert(u[a] == s[ja] && u[b] == s[jb]);
        }
    }
    assert forall|k: K| #[trigger] m.contains_key(k) <==> has_key(u, k) by {
        if has_key(u, k) {
            let a = choose|a: int| 0 <= a < u.len() && #[trigger] u[a].0 == k;
            if a < p {
                assert(s[a].0 == k);
            } else if a > p {
                assert(s[a - 1].0 == k);
            }
        }
        if m.contains_key(k) {
            if k == e.0 {
                assert(u[p].0 == k);
            } else {
                let a = choose|a: int| 0 <= a < s.len() && #[trigger] s[a].0 == k;
                if a < p {
                    assert(u[a].0 == k);
                } else {
                    assert(u[a + 1].0 == k);
                }
            }
        }
    }
    assert forall|a: int| 0 <= a < u.len() implies #[trigger] m[u[a].0] == u[a].1 by {
        if a != p {
            let j = if a < p { a } else { a - 1 };
            assert(u[a] == s[j]);
            assert(s[j].0 != e.0);
            assert(m[s[j].0] == s[j].1);
        }
    }
    lemma_pairs_map_ext(u, m);
}

/// Removing the pair at `i`.
pub proof fn lemma_pairs_remove<K, V>(s: Seq<(K, V)>, i: int)
    requires
        keys_distinct(s),
        0 <= i < s.len(),
    ensures
        keys_distinct(s.remove(i)),
        pairs_map(s.remove(i)) == pairs_map(s).remove(s[i].0),
{
    let u = s.remove(i);
    let m = pairs_map(s).remove(s[i].0);
    lemma_pairs_map(s);
    assert forall|a: int| 0 <= a < u.len() implies #[trigger] u[a] == (if a < i {
        s[a]
    } else {
        s[a + 1]
    }) by {}
    assert forall|a: int, b: int|
        0 <= a < u.len() && 0 <= b < u.len() && a != b implies #[trigger] u[a].0
        != #[trigger] u[b].0 by {
        let ja = if a < i { a } else { a + 1 };
        let jb = if b < i { b } else { b + 1 };
        assert(u[a] == s[ja] && u[b] == s[jb]);
    }
    assert forall|k: K| #[trigger] m.contains_key(k) <==> has_key(u, k) by {
        if has_key(u, k) {
            let a = choose|a: int| 0 <= a < u.len() && #[trigger] u[a].0 == k;
            let j = if a < i { a } else { a + 1 };
            assert(u[a] == s[j]);
            assert(s[j].0 != s[i].0);
        }
        if m.contains_key(k) {
            let a = choose|a: int| 0 <= a < s.len() && #[trigger] s[a].0 == k;
            assert(a != i);
            if a < i {
                assert(u[a].0 == k);
            } else {
                assert(u[a - 1].0 == k);
            }
        }
    }
    assert forall|a: int| 0 <= a < u.len() implies #[trigger] m[u[a].0] == u[a].1 by {
        let j = if a < i { a } else { a + 1 };
        assert(u[a] == s[j]);
        assert(s[j].0 != s[i].0);
        assert(m[s[j].0] == s[j].1);
    }
    lemma_pairs_map_ext(u, m);
}

} // verus!
