//! Association lists with unique keys, read in contracts as maps from key
//! to the entry's view.

use vstd::prelude::*;

verus! {

/// No two entries carry the same key.
pub open spec fn entries_unique<K, V>(s: Seq<(K, V)>) -> bool {
    forall|i: int, j: int| 0 <= i < j < s.len() ==> (#[trigger] s[i]).0 != (#[trigger] s[j]).0
}

/// The map an entry list stands for: each key present maps to its entry's
/// view.
pub open spec fn entries_map<K, V: View>(s: Seq<(K, V)>) -> Map<K, V::V> {
    Map::new(
        |k: K| exists|j: int| 0 <= j < s.len() && (#[trigger] s[j]).0 == k,
        |k: K| s[choose|j: int| 0 <= j < s.len() && (#[trigger] s[j]).0 == k].1@,
    )
}

/// With unique keys, each entry is the one its key maps to.
pub proof fn lemma_entries_map_entry<K, V: View>(s: Seq<(K, V)>, j: int)
    requires
        entries_unique(s),
        0 <= j < s.len(),
    ensures
        entries_map(s).dom().contains(s[j].0),
        entries_map(s)[s[j].0] == s[j].1@,
{
    let k = s[j].0;
    assert(exists|i: int| 0 <= i < s.len() && (#[trigger] s[i]).0 == k) by {
        assert((s[j]).0 == k);
    }
    let j2 = choose|i: int| 0 <= i < s.len() && (#[trigger] s[i]).0 == k;
    if j2 != j {
        assert(false);
    }
}

/// With unique keys, the entry list and the map it stands for have the same
/// size.
pub proof fn lemma_entries_map_card<K, V: View>(s: Seq<(K, V)>)
    requires
        entries_unique(s),
    ensures
        entries_map(s).dom().finite(),
        entries_map(s).dom().len() == s.len(),
{
    let keys = s.map_values(|e: (K, V)| e.0);
    assert(keys.no_duplicates());
    vstd::seq_lib::seq_to_set_is_finite(keys);
    keys.unique_seq_to_set();
    assert forall|k: K| entries_map(s).dom().contains(k) implies keys.to_set().contains(k) by {
        let j = choose|j: int| 0 <= j < s.len() && (#[trigger] s[j]).0 == k;
        assert(keys[j] == k);
        assert(keys.contains(k));
    }
    assert forall|k: K| keys.to_set().contains(k) implies entries_map(s).dom().contains(k) by {
        let j = choose|j: int| 0 <= j < keys.len() && keys[j] == k;
        assert((s[j]).0 == k);
    }
    assert(entries_map(s).dom() =~= keys.to_set());
}

/// Removing one entry keeps the keys unique and keeps exactly the other
/// entries.
pub proof fn lemma_entries_map_remove<K, V: View>(s: Seq<(K, V)>, i: int)
    requires
        entries_unique(s),
        0 <= i < s.len(),
    ensures
        entries_unique(s.remove(i)),
        forall|j: int| 0 <= j < i ==> s.remove(i)[j] == s[j],
        forall|j: int| i <= j < s.len() - 1 ==> s.remove(i)[j] == s[j + 1],
        entries_map(s.remove(i)) == entries_map(s).remove(s[i].0),
{
    let r = s.remove(i);
    assert(forall|j: int| 0 <= j < i ==> r[j] == s[j]);
    assert(forall|j: int| i <= j < s.len() - 1 ==> r[j] == s[j + 1]);
    assert forall|a: int, b: int| 0 <= a < b < r.len() implies (#[trigger] r[a]).0 != (
    #[trigger] r[b]).0 by {
        let a0 = if a < i {
            a
        } else {
            a + 1
        };
        let b0 = if b < i {
            b
        } else {
            b + 1
        };
        assert(r[a] == s[a0] && r[b] == s[b0]);
    }
    assert forall|k: K| #![auto] entries_map(r).dom().contains(k) implies entries_map(s).remove(
        s[i].0,
    ).dom().contains(k) && entries_map(r)[k] == entries_map(s)[k] by {
        let j = choose|j: int| 0 <= j < r.len() && (#[trigger] r[j]).0 == k;
        let j0 = if j < i {
            j
        } else {
            j + 1
        };
        assert(r[j] == s[j0]);
        lemma_entries_map_entry(r, j);
        lemma_entries_map_entry(s, j0);
        assert(k != s[i].0);
    }
    assert forall|k: K| #![auto] entries_map(s).remove(s[i].0).dom().contains(
        k,
    ) implies entries_map(r).dom().contains(k) by {
        let j0 = choose|j: int| 0 <= j < s.len() && (#[trigger] s[j]).0 == k;
        assert(j0 != i);
        let j = if j0 < i {
            j0
        } else {
            j0 - 1
        };
        assert(r[j] == s[j0]);
    }
    assert(entries_map(r) =~= entries_map(s).remove(s[i].0));
}

/// Appending an entry with a fresh key adds exactly that mapping.
pub proof fn lemma_entries_map_push<K, V: View>(s: Seq<(K, V)>, k: K, v: V)
    requires
        entries_unique(s),
        forall|j: int| 0 <= j < s.len() ==> (#[trigger] s[j]).0 != k,
    ensures
        entries_unique(s.push((k, v))),
        entries_map(s.push((k, v))) == entries_map(s).insert(k, v@),
{
    let p = s.push((k, v));
    assert forall|a: int, b: int| 0 <= a < b < p.len() implies (#[trigger] p[a]).0 != (
    #[trigger] p[b]).0 by {
        if b < s.len() {
            assert(s[a].0 != s[b].0);
        } else {
            assert(p[b] == (k, v));
            assert(s[a].0 != k);
        }
    }
    assert forall|x: K| #![auto] entries_map(p).dom().contains(x) implies entries_map(s).insert(
        k,
        v@,
    ).dom().contains(x) && entries_map(p)[x] == entries_map(s).insert(k, v@)[x] by {
        let j = choose|j: int| 0 <= j < p.len() && (#[trigger] p[j]).0 == x;
        lemma_entries_map_entry(p, j);
        if j < s.len() {
            assert(p[j] == s[j]);
            lemma_entries_map_entry(s, j);
        } else {
            assert(p[j] == (k, v));
        }
    }
    assert forall|x: K| #![auto] entries_map(s).insert(k, v@).dom().contains(
        x,
    ) implies entries_map(p).dom().contains(x) by {
        if x == k {
            assert(p[s.len() as int].0 == x);
        } else {
            let j = choose|j: int| 0 <= j < s.len() && (#[trigger] s[j]).0 == x;
            assert(p[j].0 == x);
        }
    }
    assert(entries_map(p) =~= entries_map(s).insert(k, v@));
}

} // verus!
