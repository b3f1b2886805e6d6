//! An ordered map keyed by `u64`: entries kept in ascending key order, one
//! per key, as a `BTreeMap<u64, V>` keeps them.

use vstd::prelude::*;

verus! {

/// The keys of a sequence of entries.
pub open spec fn keys_of<V>(s: Seq<(u64, V)>) -> Seq<u64> {
    s.map_values(|e: (u64, V)| e.0)
}

/// Keys in strictly ascending order (so each key once).
pub open spec fn strictly_ascending(s: Seq<u64>) -> bool {
    forall|i: int, j: int| 0 <= i < j < s.len() ==> s[i] < s[j]
}

/// The position at which key `k` belongs in ascending entries `s`: the
/// number of leading entries with a smaller key.
pub open spec fn slot<V>(s: Seq<(u64, V)>, k: u64) -> int
    decreases s.len(),
{
    if s.len() == 0 {
        0
    } else if s[0].0 >= k {
        0
    } else {
        1 + slot(s.drop_first(), k)
    }
}

/// The entries after inserting `(k, v)` into ascending entries `s`: the
/// entry for `k` is replaced if there is one, else `(k, v)` goes in at its
/// place in the order.
pub open spec fn insert_sorted<V>(s: Seq<(u64, V)>, k: u64, v: V) -> Seq<(u64, V)> {
    let p = slot(s, k);
    if p < s.len() && s[p].0 == k {
        s.update(p, (k, v))
    } else {
        s.insert(p, (k, v))
    }
}

/// The map that ascending entries stand for.
pub open spec fn map_of<V>(s: Seq<(u64, V)>) -> Map<u64, V> {
    Map::new(
        |k: u64| exists|i: int| 0 <= i < s.len() && s[i].0 == k,
        |k: u64| s[choose|i: int| 0 <= i < s.len() && s[i].0 == k].1,
    )
}

proof fn lemma_slot<V>(s: Seq<(u64, V)>, k: u64, p: int)
    requires
        0 <= p <= s.len(),
        forall|j: int| 0 <= j < p ==> s[j].0 < k,
        p < s.len() ==> s[p].0 >= k,
    ensures
        slot(s, k) == p,
{
    lemma_slot_exists(s, k);
    let q = slot(s, k);
    if q < p {
        assert(s[q].0 < k);
    }
    if p < q {
        assert(s[p].0 < k);
    }
}

proof fn lemma_keys_index<V>(s: Seq<(u64, V)>, i: int)
    requires
        0 <= i < s.len(),
    ensures
        keys_of(s)[i] == s[i].0,
        keys_of(s).len() == s.len(),
{
}

/// The slot of a key: every entry before it has a smaller key, the entry at
/// it (if any) does not.
proof fn lemma_slot_exists<V>(s: Seq<(u64, V)>, k: u64)
    ensures
        0 <= slot(s, k) <= s.len(),
        forall|j: int| 0 <= j < slot(s, k) ==> s[j].0 < k,
        slot(s, k) < s.len() ==> s[slot(s, k)].0 >= k,
    decreases s.len(),
{
    if s.len() > 0 && s[0].0 < k {
        let t = s.drop_first();
        lemma_slot_exists(t, k);
        assert forall|j: int| 0 <= j < slot(s, k) implies s[j].0 < k by {
            if j > 0 {
                assert(s[j] == t[j - 1]);
            }
        }
        if slot(s, k) < s.len() {
            assert(s[slot(s, k)] == t[slot(t, k)]);
        }
    }
}

/// Inserting into ascending entries keeps them ascending, and the map they
/// stand for gains the entry.
pub proof fn lemma_insert_sorted<V>(s: Seq<(u64, V)>, k: u64, v: V)
    requires
        strictly_ascending(keys_of(s)),
    ensures
        strictly_ascending(keys_of(insert_sorted(s, k, v))),
        map_of(insert_sorted(s, k, v)) == map_of(s).insert(k, v),
{
    lemma_slot_exists(s, k);
    let p = slot(s, k);
    assert forall|a: int, b: int| 0 <= a < b < s.len() implies s[a].0 < s[b].0 by {
        lemma_keys_index(s, a);
        lemma_keys_index(s, b);
    }
    let r = insert_sorted(s, k, v);
    assert forall|a: int, b: int| 0 <= a < b < r.len() implies keys_of(r)[a] < keys_of(r)[b] by {
        lemma_keys_index(r, a);
        lemma_keys_index(r, b);
    }
    let m1 = map_of(r);
    let m2 = map_of(s).insert(k, v);
    assert forall|key: u64| m1.contains_key(key) <==> m2.contains_key(key) by {
        if m2.contains_key(key) {
            if key == k {
                if p < s.len() && s[p].0 == k {
                    assert(r[p].0 == k);
                } else {
                    assert(r[p].0 == k);
                }
            } else {
                let i = choose|i: int| 0 <= i < s.len() && s[i].0 == key;
                if p < s.len() && s[p].0 == k {
                    assert(r[i].0 == key);
                } else if i < p {
                    assert(r[i].0 == key);
                } else {
                    assert(r[i + 1].0 == key);
                }
            }
        }
        if m1.contains_key(key) {
            let i = choose|i: int| 0 <= i < r.len() && r[i].0 == key;
            if key != k {
                if p < s.len() && s[p].0 == k {
                    assert(s[i].0 == key);
                } else if i < p {
                    assert(s[i].0 == key);
                } else {
                    assert(s[i - 1].0 == key);
                }
            }
        }
    }
    assert forall|key: u64| #[trigger] m1.contains_key(key) implies m1[key] == m2[key] by {
        let i = choose|i: int| 0 <= i < r.len() && r[i].0 == key;
        if key == k {
            assert(r[p].0 == k);
            if i != p {
                if i < p {
                    assert(r[i].0 < r[p].0);
                } else {
                    assert(r[p].0 < r[i].0);
                }
            }
        } else {
            let j = choose|j: int| 0 <= j < s.len() && s[j].0 == key;
            if p < s.len() && s[p].0 == k {
                assert(r[j].0 == key);
                if i != j {
                    if i < j {
                        assert(r[i].0 < r[j].0);
                    } else {
                        assert(r[j].0 < r[i].0);
                    }
                }
            } else {
                let jj = if j < p {
                    j
                } else {
                    j + 1
                };
                assert(r[jj].0 == key);
                if i != jj {
                    if i < jj {
                        assert(r[i].0 < r[jj].0);
                    } else {
                        assert(r[jj].0 < r[i].0);
                    }
                }
            }
        }
    }
    assert(m1 =~= m2);
}

/// Entries of ascending entries: each key's entry is the one `map_of` gives.
pub proof fn lemma_map_of_index<V>(s: Seq<(u64, V)>, i: int)
    requires
        strictly_ascending(keys_of(s)),
        0 <= i < s.len(),
    ensures
        map_of(s).contains_key(s[i].0),
        map_of(s)[s[i].0] == s[i].1,
{
    lemma_keys_index(s, i);
    let j = choose|j: int| 0 <= j < s.len() && s[j].0 == s[i].0;
    if j != i {
        lemma_keys_index(s, j);
    }
}

/// Inserts `(k, v)` into ascending entries.
pub fn sorted_insert<V>(entries: &mut Vec<(u64, V)>, k: u64, v: V)
    requires
        strictly_ascending(keys_of(old(entries)@)),
    ensures
        final(entries)@ == insert_sorted(old(entries)@, k, v),
        strictly_ascending(keys_of(final(entries)@)),
        map_of(final(entries)@) == map_of(old(entries)@).insert(k, v),
{
    let ghost s = entries@;
    let mut p: usize = 0;
    while p < entries.len() && entries[p].0 < k
        invariant
            entries@ == s,
            p <= s.len(),
            forall|j: int| 0 <= j < p ==> s[j].0 < k,
        decreases s.len() - p,
    {
        p = p + 1;
    }
    proof {
        lemma_slot(s, k, p as int);
        lemma_insert_sorted(s, k, v);
    }
    if p < entries.len() && entries[p].0 == k {
        entries.set(p, (k, v));
    } else {
        entries.insert(p, (k, v));
    }
}

/// Finds the entry for `k` in ascending entries.
pub fn sorted_find<V>(entries: &Vec<(u64, V)>, k: u64) -> (r: Option<usize>)
    requires
        strictly_ascending(keys_of(entries@)),
    ensures
        match r {
            Some(i) => i < entries@.len() && entries@[i as int].0 == k,
            None => !map_of(entries@).contains_key(k),
        },
{
    let mut i: usize = 0;
    while i < entries.len()
        invariant
            i <= entries@.len(),
            forall|j: int| 0 <= j < i ==> entries@[j].0 != k,
        decreases entries@.len() - i,
    {
        if entries[i].0 == k {
            return Some(i);
        }
        i = i + 1;
    }
    None
}

/// Ascending entries stand for a map with one key per entry.
pub proof fn lemma_map_of_len<V>(s: Seq<(u64, V)>)
    requires
        strictly_ascending(keys_of(s)),
    ensures
        map_of(s).dom().len() == s.len(),
{
    let ks = keys_of(s);
    assert forall|a: int, b: int| 0 <= a < ks.len() && 0 <= b < ks.len() && a != b implies ks[a]
        != ks[b] by {
        if a < b {
            assert(ks[a] < ks[b]);
        } else {
            assert(ks[b] < ks[a]);
        }
    }
    ks.unique_seq_to_set();
    assert forall|k: u64| #[trigger] map_of(s).dom().contains(k) <==> ks.to_set().contains(k) by {
        if map_of(s).dom().contains(k) {
            let i = choose|i: int| 0 <= i < s.len() && s[i].0 == k;
            assert(ks[i] == k);
        }
        if ks.to_set().contains(k) {
            let i = choose|i: int| 0 <= i < ks.len() && ks[i] == k;
            assert(s[i].0 == k);
        }
    }
    assert(map_of(s).dom() =~= ks.to_set());
}

} // verus!
