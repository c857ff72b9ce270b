//! Node and edge payloads gathered into hash sets, each payload stood for by
//! a text that no other payload has.

use vstd::prelude::*;
use vstd::hash_set::StringHashSet;
use vstd::seq_lib::seq_to_set_is_finite;
use vstd::set::axiom_set_insert_len;

use crate::graph::bundle::{EdgeKey, NodeKey, edge_payload_views, node_payload_views};
use crate::graph::model::{EdgePayload, NodePayload, edge_payload_view, node_payload_view};
use crate::tagged::{lemma_tagged_opt, lemma_tagged_prefix, push_tagged, push_tagged_opt, tagged, tagged_opt};
use crate::text::string_of;

verus! {

/// The text that stands for a node payload.
pub open spec fn node_key_text(k: NodeKey) -> Seq<char> {
    tagged(k.0) + tagged(k.1) + tagged(k.2) + tagged(k.3) + tagged_opt(k.4)
}

/// The text that stands for an edge payload.
pub open spec fn edge_key_text(k: EdgeKey) -> Seq<char> {
    tagged(k.0) + tagged(k.1) + tagged(k.2) + tagged(k.3) + tagged(k.4)
}

/// Different node payloads have different texts.
pub proof fn lemma_node_key_text(p: NodeKey, q: NodeKey)
    requires
        node_key_text(p) == node_key_text(q),
    ensures
        p == q,
{
    let p3 = tagged(p.3) + tagged_opt(p.4);
    let q3 = tagged(q.3) + tagged_opt(q.4);
    let p2 = tagged(p.2) + p3;
    let q2 = tagged(q.2) + q3;
    let p1 = tagged(p.1) + p2;
    let q1 = tagged(q.1) + q2;
    assert(node_key_text(p) =~= tagged(p.0) + p1);
    assert(node_key_text(q) =~= tagged(q.0) + q1);
    lemma_tagged_prefix(p.0, q.0, p1, q1);
    lemma_tagged_prefix(p.1, q.1, p2, q2);
    lemma_tagged_prefix(p.2, q.2, p3, q3);
    lemma_tagged_prefix(p.3, q.3, tagged_opt(p.4), tagged_opt(q.4));
    lemma_tagged_opt(p.4, q.4);
}

/// Different edge payloads have different texts.
pub proof fn lemma_edge_key_text(p: EdgeKey, q: EdgeKey)
    requires
        edge_key_text(p) == edge_key_text(q),
    ensures
        p == q,
{
    let p3 = tagged(p.3) + tagged(p.4);
    let q3 = tagged(q.3) + tagged(q.4);
    let p2 = tagged(p.2) + p3;
    let q2 = tagged(q.2) + q3;
    let p1 = tagged(p.1) + p2;
    let q1 = tagged(q.1) + q2;
    assert(edge_key_text(p) =~= tagged(p.0) + p1);
    assert(edge_key_text(q) =~= tagged(q.0) + q1);
    lemma_tagged_prefix(p.0, q.0, p1, q1);
    lemma_tagged_prefix(p.1, q.1, p2, q2);
    lemma_tagged_prefix(p.2, q.2, p3, q3);
    assert(tagged(p.3) + tagged(p.4) =~= tagged(p.3) + (tagged(p.4) + Seq::<char>::empty()));
    lemma_tagged_prefix(p.3, q.3, tagged(p.4), tagged(q.4));
    assert(tagged(p.4) =~= tagged(p.4) + Seq::<char>::empty());
    assert(tagged(q.4) =~= tagged(q.4) + Seq::<char>::empty());
    lemma_tagged_prefix(p.4, q.4, Seq::empty(), Seq::empty());
}

/// The text of a node payload.
pub(crate) fn node_key_string(p: &NodePayload) -> (r: String)
    ensures
        r@ == node_key_text(node_payload_view(*p)),
{
    let mut out: Vec<char> = Vec::new();
    push_tagged(&mut out, p.0.as_str());
    push_tagged(&mut out, p.1.as_str());
    push_tagged(&mut out, p.2.as_str());
    push_tagged(&mut out, p.3.as_str());
    push_tagged_opt(&mut out, &p.4);
    assert(out@ =~= node_key_text(node_payload_view(*p)));
    string_of(out.as_slice())
}

/// The text of an edge payload.
pub(crate) fn edge_key_string(p: &EdgePayload) -> (r: String)
    ensures
        r@ == edge_key_text(edge_payload_view(*p)),
{
    let mut out: Vec<char> = Vec::new();
    push_tagged(&mut out, p.0.as_str());
    push_tagged(&mut out, p.1.as_str());
    push_tagged(&mut out, p.2.as_str());
    push_tagged(&mut out, p.3.as_str());
    push_tagged(&mut out, p.4.as_str());
    assert(out@ =~= edge_key_text(edge_payload_view(*p)));
    string_of(out.as_slice())
}

proof fn lemma_push_no_duplicates<A>(t: Seq<A>, x: A)
    ensures
        t.push(x).no_duplicates() == (t.no_duplicates() && !t.contains(x)),
{
    let u = t.push(x);
    if u.no_duplicates() {
        assert forall|a: int, b: int| 0 <= a < t.len() && 0 <= b < t.len() && a != b implies t[a] != t[b] by {
            assert(u[a] == t[a] && u[b] == t[b]);
        }
        if t.contains(x) {
            let j = choose|j: int| 0 <= j < t.len() && t[j] == x;
            assert(u[j] == u[t.len() as int]);
        }
    }
    if t.no_duplicates() && !t.contains(x) {
        assert forall|a: int, b: int| 0 <= a < u.len() && 0 <= b < u.len() && a != b implies u[a] != u[b] by {
            if a == t.len() {
                assert(u[b] == t[b]);
            } else if b == t.len() {
                assert(u[a] == t[a]);
            } else {
                assert(u[a] == t[a] && u[b] == t[b]);
            }
        }
    }
}

/// The payloads of `v` as a set of texts, how many distinct payloads there
/// are, and whether none repeats.
pub(crate) fn node_key_set(v: &Vec<NodePayload>) -> (r: (StringHashSet, usize, bool))
    ensures
        forall|x: NodeKey| #[trigger] r.0@.contains(node_key_text(x)) == node_payload_views(v@).contains(x),
        r.1 == node_payload_views(v@).to_set().len(),
        r.2 == node_payload_views(v@).no_duplicates(),
{
    let ghost s = node_payload_views(v@);
    let mut set = StringHashSet::new();
    let mut n: usize = 0;
    let mut distinct = true;
    let mut i: usize = 0;
    proof {
        assert(s.take(0).to_set() =~= Set::<NodeKey>::empty());
        assert(s.take(0).no_duplicates());
    }
    while i < v.len()
        invariant
            i <= v@.len(),
            s == node_payload_views(v@),
            n <= i,
            n == s.take(i as int).to_set().len(),
            distinct == s.take(i as int).no_duplicates(),
            forall|t: Seq<char>| #[trigger] set@.contains(t) == exists|j: int| 0 <= j < i && node_key_text(#[trigger] s[j]) == t,
        decreases v@.len() - i,
    {
        let key = node_key_string(&v[i]);
        let ghost t = s.take(i as int);
        let ghost x = s[i as int];
        proof {
            assert(key@ == node_key_text(x));
            if set@.contains(key@) {
                let j = choose|j: int| 0 <= j < i && node_key_text(#[trigger] s[j]) == key@;
                lemma_node_key_text(s[j], x);
                assert(t[j] == x);
            }
            if t.contains(x) {
                let j = choose|j: int| 0 <= j < t.len() && t[j] == x;
                assert(s[j] == x);
                assert(node_key_text(s[j]) == key@);
            }
            assert(s.take(i + 1) =~= t.push(x));
            t.lemma_push_to_set_commute(x);
            seq_to_set_is_finite(t);
            axiom_set_insert_len(t.to_set(), x);
            assert(t.to_set().contains(x) <==> t.contains(x));
            lemma_push_no_duplicates(t, x);
        }
        let ghost before = set@;
        let fresh = set.insert(key);
        if fresh {
            n = n + 1;
        } else {
            distinct = false;
        }
        proof {
            assert forall|q: Seq<char>| #[trigger] set@.contains(q) == exists|j: int| 0 <= j < i + 1 && node_key_text(#[trigger] s[j]) == q by {
                if q == node_key_text(x) {
                    assert(node_key_text(s[i as int]) == q);
                } else if before.contains(q) {
                    let j = choose|j: int| 0 <= j < i && node_key_text(#[trigger] s[j]) == q;
                    assert(0 <= j < i + 1);
                } else if exists|j: int| 0 <= j < i + 1 && node_key_text(#[trigger] s[j]) == q {
                    let j = choose|j: int| 0 <= j < i + 1 && node_key_text(#[trigger] s[j]) == q;
                    assert(j < i);
                }
            }
        }
        i = i + 1;
    }
    proof {
        assert(s.take(i as int) =~= s);
        assert forall|x: NodeKey| #[trigger] set@.contains(node_key_text(x)) == s.contains(x) by {
            if set@.contains(node_key_text(x)) {
                let j = choose|j: int| 0 <= j < i && node_key_text(#[trigger] s[j]) == node_key_text(x);
                lemma_node_key_text(s[j], x);
            }
            if s.contains(x) {
                let j = choose|j: int| 0 <= j < s.len() && s[j] == x;
                assert(node_key_text(s[j]) == node_key_text(x));
            }
        }
    }
    (set, n, distinct)
}

/// The payloads of `v` as a set of texts, how many distinct payloads there
/// are, and whether none repeats.
pub(crate) fn edge_key_set(v: &Vec<EdgePayload>) -> (r: (StringHashSet, usize, bool))
    ensures
        forall|x: EdgeKey| #[trigger] r.0@.contains(edge_key_text(x)) == edge_payload_views(v@).contains(x),
        r.1 == edge_payload_views(v@).to_set().len(),
        r.2 == edge_payload_views(v@).no_duplicates(),
{
    let ghost s = edge_payload_views(v@);
    let mut set = StringHashSet::new();
    let mut n: usize = 0;
    let mut distinct = true;
    let mut i: usize = 0;
    proof {
        assert(s.take(0).to_set() =~= Set::<EdgeKey>::empty());
        assert(s.take(0).no_duplicates());
    }
    while i < v.len()
        invariant
            i <= v@.len(),
            s == edge_payload_views(v@),
            n <= i,
            n == s.take(i as int).to_set().len(),
            distinct == s.take(i as int).no_duplicates(),
            forall|t: Seq<char>| #[trigger] set@.contains(t) == exists|j: int| 0 <= j < i && edge_key_text(#[trigger] s[j]) == t,
        decreases v@.len() - i,
    {
        let key = edge_key_string(&v[i]);
        let ghost t = s.take(i as int);
        let ghost x = s[i as int];
        proof {
            assert(key@ == edge_key_text(x));
            if set@.contains(key@) {
                let j = choose|j: int| 0 <= j < i && edge_key_text(#[trigger] s[j]) == key@;
                lemma_edge_key_text(s[j], x);
                assert(t[j] == x);
            }
            if t.contains(x) {
                let j = choose|j: int| 0 <= j < t.len() && t[j] == x;
                assert(s[j] == x);
                assert(edge_key_text(s[j]) == key@);
            }
            assert(s.take(i + 1) =~= t.push(x));
            t.lemma_push_to_set_commute(x);
            seq_to_set_is_finite(t);
            axiom_set_insert_len(t.to_set(), x);
            assert(t.to_set().contains(x) <==> t.contains(x));
            lemma_push_no_duplicates(t, x);
        }
        let ghost before = set@;
        let fresh = set.insert(key);
        if fresh {
            n = n + 1;
        } else {
            distinct = false;
        }
        proof {
            assert forall|q: Seq<char>| #[trigger] set@.contains(q) == exists|j: int| 0 <= j < i + 1 && edge_key_text(#[trigger] s[j]) == q by {
                if q == edge_key_text(x) {
                    assert(edge_key_text(s[i as int]) == q);
                } else if before.contains(q) {
                    let j = choose|j: int| 0 <= j < i && edge_key_text(#[trigger] s[j]) == q;
                    assert(0 <= j < i + 1);
                } else if exists|j: int| 0 <= j < i + 1 && edge_key_text(#[trigger] s[j]) == q {
                    let j = choose|j: int| 0 <= j < i + 1 && edge_key_text(#[trigger] s[j]) == q;
                    assert(j < i);
                }
            }
        }
        i = i + 1;
    }
    proof {
        assert(s.take(i as int) =~= s);
        assert forall|x: EdgeKey| #[trigger] set@.contains(edge_key_text(x)) == s.contains(x) by {
            if set@.contains(edge_key_text(x)) {
                let j = choose|j: int| 0 <= j < i && edge_key_text(#[trigger] s[j]) == edge_key_text(x);
                lemma_edge_key_text(s[j], x);
            }
            if s.contains(x) {
                let j = choose|j: int| 0 <= j < s.len() && s[j] == x;
                assert(edge_key_text(s[j]) == edge_key_text(x));
            }
        }
    }
    (set, n, distinct)
}

} // verus!
