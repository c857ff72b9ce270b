//! Lists of `(key, value)` entries kept in strictly increasing key order, read
//! as maps.

use vstd::prelude::*;

use crate::text::{lemma_seq_lt_irreflexive, lemma_seq_lt_total, lemma_seq_lt_transitive, seq_lt};

verus! {

/// The keys of `s` strictly increase.
pub open spec fn keys_sorted<V>(s: Seq<(Seq<char>, V)>) -> bool {
    forall|i: int, j: int| 0 <= i < j < s.len() ==> seq_lt(#[trigger] s[i].0, #[trigger] s[j].0)
}

/// The position of key `k` in `s`.
pub open spec fn key_index<V>(s: Seq<(Seq<char>, V)>, k: Seq<char>) -> int {
    choose|i: int| 0 <= i < s.len() && #[trigger] s[i].0 == k
}

/// The map that a list of entries spells.
pub open spec fn entries_map<V>(s: Seq<(Seq<char>, V)>) -> Map<Seq<char>, V> {
    Map::new(
        |k: Seq<char>| exists|i: int| 0 <= i < s.len() && #[trigger] s[i].0 == k,
        |k: Seq<char>| s[key_index(s, k)].1,
    )
}

/// In a key-sorted list, the map holds each entry's value at its key.
pub proof fn lemma_entries_map<V>(s: Seq<(Seq<char>, V)>, i: int)
    requires
        keys_sorted(s),
        0 <= i < s.len(),
    ensures
        entries_map(s).contains_key(s[i].0),
        entries_map(s)[s[i].0] == s[i].1,
{
    let k = s[i].0;
    assert(exists|j: int| 0 <= j < s.len() && #[trigger] s[j].0 == k);
    let j = key_index(s, k);
    if j != i {
        lemma_seq_lt_irreflexive(k);
        if j < i {
            assert(seq_lt(s[j].0, s[i].0));
        } else {
            assert(seq_lt(s[i].0, s[j].0));
        }
    }
}

/// A key-sorted list spells a finite map with one key per entry.
pub proof fn lemma_entries_map_len<V>(s: Seq<(Seq<char>, V)>)
    requires
        keys_sorted(s),
    ensures
        entries_map(s).dom().finite(),
        entries_map(s).dom().len() == s.len(),
    decreases s.len(),
{
    if s.len() == 0 {
        assert(entries_map(s).dom() =~= Set::<Seq<char>>::empty());
    } else {
        let t = s.drop_last();
        let last = s.len() - 1;
        let k = s[last].0;
        assert(keys_sorted(t)) by {
            assert forall|i: int, j: int| 0 <= i < j < t.len() implies seq_lt(
                #[trigger] t[i].0,
                #[trigger] t[j].0,
            ) by {
                assert(t[i] == s[i] && t[j] == s[j]);
            }
        }
        lemma_entries_map_len(t);
        assert forall|q: Seq<char>| #[trigger] entries_map(s).dom().contains(q) == entries_map(
            t,
        ).dom().insert(k).contains(q) by {
            if entries_map(s).dom().contains(q) && q != k {
                let i = choose|i: int| 0 <= i < s.len() && #[trigger] s[i].0 == q;
                assert(t[i].0 == q);
            }
            if entries_map(t).dom().contains(q) {
                let i = choose|i: int| 0 <= i < t.len() && #[trigger] t[i].0 == q;
                assert(s[i].0 == q);
            }
            if q == k {
                assert(s[last].0 == q);
            }
        }
        assert(entries_map(s).dom() =~= entries_map(t).dom().insert(k));
        if entries_map(t).dom().contains(k) {
            let i = choose|i: int| 0 <= i < t.len() && #[trigger] t[i].0 == k;
            assert(s[i].0 == k);
            assert(seq_lt(s[i].0, s[last].0));
            lemma_seq_lt_irreflexive(k);
        }
    }
}

/// Two key-sorted lists that spell the same map are the same list.
pub proof fn lemma_entries_map_unique<V>(a: Seq<(Seq<char>, V)>, b: Seq<(Seq<char>, V)>)
    requires
        keys_sorted(a),
        keys_sorted(b),
        entries_map(a) == entries_map(b),
    ensures
        a == b,
    decreases a.len(),
{
    let m = entries_map(a);
    if a.len() == 0 {
        if b.len() > 0 {
            lemma_entries_map(b, 0);
        }
        assert(a =~= b);
    } else if b.len() == 0 {
        lemma_entries_map(a, 0);
    } else {
        lemma_entries_map(a, 0);
        lemma_entries_map(b, 0);
        let ka = a[0].0;
        let kb = b[0].0;
        let ja = key_index(a, kb);
        let jb = key_index(b, ka);
        assert(m.contains_key(kb));
        assert(exists|i: int| 0 <= i < a.len() && #[trigger] a[i].0 == kb);
        assert(exists|i: int| 0 <= i < b.len() && #[trigger] b[i].0 == ka);
        if ka != kb {
            if ja > 0 {
                assert(seq_lt(ka, kb));
            }
            if jb > 0 {
                assert(seq_lt(kb, ka));
            }
            if ja > 0 && jb > 0 {
                lemma_seq_lt_transitive(ka, kb, ka);
                lemma_seq_lt_irreflexive(ka);
            }
        }
        assert(ka == kb);
        let ar = a.drop_first();
        let br = b.drop_first();
        assert(keys_sorted(ar)) by {
            assert forall|i: int, j: int| 0 <= i < j < ar.len() implies seq_lt(
                #[trigger] ar[i].0,
                #[trigger] ar[j].0,
            ) by {
                assert(ar[i] == a[i + 1] && ar[j] == a[j + 1]);
            }
        }
        assert(keys_sorted(br)) by {
            assert forall|i: int, j: int| 0 <= i < j < br.len() implies seq_lt(
                #[trigger] br[i].0,
                #[trigger] br[j].0,
            ) by {
                assert(br[i] == b[i + 1] && br[j] == b[j + 1]);
            }
        }
        assert forall|q: Seq<char>| #[trigger] entries_map(ar).contains_key(q) == entries_map(br).contains_key(q) by {
            if entries_map(ar).contains_key(q) {
                let i = choose|i: int| 0 <= i < ar.len() && #[trigger] ar[i].0 == q;
                assert(a[i + 1].0 == q);
                assert(seq_lt(ka, q));
                lemma_seq_lt_irreflexive(q);
                assert(m.contains_key(q));
                let j = choose|j: int| 0 <= j < b.len() && #[trigger] b[j].0 == q;
                assert(j > 0);
                assert(br[j - 1].0 == q);
            }
            if entries_map(br).contains_key(q) {
                let i = choose|i: int| 0 <= i < br.len() && #[trigger] br[i].0 == q;
                assert(b[i + 1].0 == q);
                assert(seq_lt(kb, q));
                lemma_seq_lt_irreflexive(q);
                assert(entries_map(b).contains_key(q));
                let j = choose|j: int| 0 <= j < a.len() && #[trigger] a[j].0 == q;
                assert(j > 0);
                assert(ar[j - 1].0 == q);
            }
        }
        assert forall|q: Seq<char>| #[trigger] entries_map(ar).contains_key(q) implies entries_map(
            ar,
        )[q] == entries_map(br)[q] by {
            let i = choose|i: int| 0 <= i < ar.len() && #[trigger] ar[i].0 == q;
            let j = choose|j: int| 0 <= j < br.len() && #[trigger] br[j].0 == q;
            lemma_entries_map(ar, i);
            lemma_entries_map(br, j);
            lemma_entries_map(a, i + 1);
            lemma_entries_map(b, j + 1);
        }
        assert(entries_map(ar) =~= entries_map(br));
        lemma_entries_map_unique(ar, br);
        assert(a =~= seq![a[0]] + ar);
        assert(b =~= seq![b[0]] + br);
    }
}


/// Putting a new key in its place keeps the order and inserts into the map.
pub proof fn lemma_insert_at<V>(old: Seq<(Seq<char>, V)>, i: int, k: Seq<char>, v: V)
    requires
        keys_sorted(old),
        0 <= i <= old.len(),
        forall|j: int| 0 <= j < i ==> seq_lt(#[trigger] old[j].0, k),
        i < old.len() ==> !seq_lt(old[i].0, k) && old[i].0 != k,
    ensures
        keys_sorted(old.insert(i, (k, v))),
        entries_map(old.insert(i, (k, v))) == entries_map(old).insert(k, v),
{
    let nv = old.insert(i, (k, v));
    if i < old.len() {
        lemma_seq_lt_total(old[i].0, k);
        assert(seq_lt(k, old[i].0));
    }
    assert forall|a: int, b: int| 0 <= a < b < nv.len() implies seq_lt(
        #[trigger] nv[a].0,
        #[trigger] nv[b].0,
    ) by {
        if b > i {
            let ob = b - 1;
            assert(nv[b] == old[ob]);
            if ob > i {
                lemma_seq_lt_transitive(k, old[i].0, old[ob].0);
            }
            if a < i {
                assert(nv[a] == old[a]);
                lemma_seq_lt_transitive(old[a].0, k, old[ob].0);
            } else if a > i {
                assert(nv[a] == old[a - 1]);
            }
        } else if b == i {
            assert(nv[a] == old[a]);
        } else {
            assert(nv[a] == old[a]);
            assert(nv[b] == old[b]);
        }
    }
    let om = entries_map(old);
    let nm = entries_map(nv);
    let want = om.insert(k, v);
    assert forall|q: Seq<char>| #[trigger] nm.contains_key(q) == want.contains_key(q) by {
        if nm.contains_key(q) && q != k {
            let j = choose|j: int| 0 <= j < nv.len() && #[trigger] nv[j].0 == q;
            if j < i {
                assert(old[j].0 == q);
            } else {
                assert(old[j - 1].0 == q);
            }
        }
        if want.contains_key(q) && q != k {
            let j = choose|j: int| 0 <= j < old.len() && #[trigger] old[j].0 == q;
            if j < i {
                assert(nv[j].0 == q);
            } else {
                assert(nv[j + 1].0 == q);
            }
        }
        if q == k {
            assert(nv[i].0 == q);
        }
    }
    assert forall|q: Seq<char>| #[trigger] nm.contains_key(q) implies nm[q] == want[q] by {
        let j = choose|j: int| 0 <= j < nv.len() && #[trigger] nv[j].0 == q;
        lemma_entries_map(nv, j);
        if q == k {
            lemma_entries_map(nv, i);
        } else if j < i {
            assert(nv[j] == old[j]);
            lemma_entries_map(old, j);
        } else {
            assert(nv[j] == old[j - 1]);
            lemma_entries_map(old, j - 1);
        }
    }
    assert(nm =~= want);
}

/// Replacing the value at an existing key keeps the order and updates the map.
pub proof fn lemma_update_at<V>(old: Seq<(Seq<char>, V)>, i: int, k: Seq<char>, v: V)
    requires
        keys_sorted(old),
        0 <= i < old.len(),
        old[i].0 == k,
    ensures
        keys_sorted(old.update(i, (k, v))),
        entries_map(old.update(i, (k, v))) == entries_map(old).insert(k, v),
{
    let nv = old.update(i, (k, v));
    assert forall|a: int, b: int| 0 <= a < b < nv.len() implies seq_lt(
        #[trigger] nv[a].0,
        #[trigger] nv[b].0,
    ) by {
        assert(nv[a].0 == old[a].0);
        assert(nv[b].0 == old[b].0);
    }
    let om = entries_map(old);
    let nm = entries_map(nv);
    let want = om.insert(k, v);
    assert forall|q: Seq<char>| #[trigger] nm.contains_key(q) == want.contains_key(q) by {
        if nm.contains_key(q) {
            let j = choose|j: int| 0 <= j < nv.len() && #[trigger] nv[j].0 == q;
            assert(old[j].0 == q);
        }
        if want.contains_key(q) && q != k {
            let j = choose|j: int| 0 <= j < old.len() && #[trigger] old[j].0 == q;
            assert(nv[j].0 == q);
        }
        if q == k {
            assert(nv[i].0 == q);
        }
    }
    assert forall|q: Seq<char>| #[trigger] nm.contains_key(q) implies nm[q] == want[q] by {
        let j = choose|j: int| 0 <= j < nv.len() && #[trigger] nv[j].0 == q;
        lemma_entries_map(nv, j);
        if q == k {
            lemma_entries_map(nv, i);
        } else {
            assert(nv[j] == old[j]);
            lemma_entries_map(old, j);
        }
    }
    assert(nm =~= want);
}

/// Where the search for a key stopped: before it every key is smaller, and
/// either the key sits there or it is absent from the map.
pub proof fn lemma_absent<V>(old: Seq<(Seq<char>, V)>, i: int, k: Seq<char>)
    requires
        keys_sorted(old),
        0 <= i <= old.len(),
        forall|j: int| 0 <= j < i ==> seq_lt(#[trigger] old[j].0, k),
        i < old.len() ==> !seq_lt(old[i].0, k) && old[i].0 != k,
    ensures
        !entries_map(old).contains_key(k),
{
    if entries_map(old).contains_key(k) {
        let j = choose|j: int| 0 <= j < old.len() && #[trigger] old[j].0 == k;
        lemma_seq_lt_irreflexive(k);
        if j > i {
            lemma_seq_lt_total(old[i].0, k);
            lemma_seq_lt_transitive(k, old[i].0, old[j].0);
        }
    }
}


/// The key-sorted list of entries that spells `m`, when there is one.
pub open spec fn sorted_entries<V>(m: Map<Seq<char>, V>) -> Seq<(Seq<char>, V)> {
    choose|s: Seq<(Seq<char>, V)>| keys_sorted(s) && entries_map(s) == m
}

/// A key-sorted list is the sorted entries of the map it spells.
pub proof fn lemma_sorted_entries<V>(s: Seq<(Seq<char>, V)>)
    requires
        keys_sorted(s),
    ensures
        sorted_entries(entries_map(s)) == s,
{
    let m = entries_map(s);
    assert(keys_sorted(s) && entries_map(s) == m);
    let t = sorted_entries(m);
    lemma_entries_map_unique(t, s);
}

} // verus!
