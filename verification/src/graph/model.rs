//! Records of a bundle: nodes, edges, passages and the manifest.

use vstd::prelude::*;

use crate::graph::attrs::{Attrs, canonical_attrs, canonical_json};
use crate::keyed::{entries_map, keys_sorted, lemma_absent, lemma_entries_map, lemma_entries_map_unique, lemma_insert_at, lemma_update_at};
use crate::text::{chars_eq, chars_less, chars_of, copy_str, lemma_seq_lt_transitive, seq_lt, str_eq};

verus! {

/// One node in `nodes.jsonl` and in the postcard snapshot.
#[derive(Debug)]
pub struct GraphNode {
    pub id: String,
    pub kind: String,
    pub label: String,
    pub text: String,
    pub attrs: Attrs,
    pub source_url: Option<String>,
}

/// Edge weight of the postcard snapshot. Endpoint ids are repeated so the
/// snapshot does not depend on graph index numbers.
#[derive(Debug)]
pub struct GraphEdge {
    pub id: String,
    pub kind: String,
    pub from_id: String,
    pub to_id: String,
    pub attrs: Attrs,
}

/// One edge in `edges.jsonl`.
#[derive(Debug)]
pub struct EdgeRecord {
    pub id: String,
    pub kind: String,
    pub from: String,
    pub to: String,
    pub attrs: Attrs,
}

/// One passage in `passages.jsonl`.
#[derive(Debug)]
pub struct Passage {
    pub node_id: String,
    pub title: String,
    pub text: String,
    pub wahapedia_link: Option<String>,
}

/// The description file of a bundle: versions, corpus identity and counts.
#[derive(Debug)]
pub struct BundleManifest {
    pub format_version: u32,
    pub corpus_schema_version: u32,
    pub edition: String,
    pub corpus_fingerprint: String,
    pub last_update: String,
    pub node_count: usize,
    pub edge_count: usize,
    pub passage_count: usize,
    pub node_counts_by_kind: KindCounts,
    pub edge_counts_by_kind: KindCounts,
}

/// The view of an optional string.
pub open spec fn opt_view(o: Option<String>) -> Option<Seq<char>> {
    match o {
        Some(s) => Some(s@),
        None => None,
    }
}

/// A copy of an optional string.
pub fn copy_opt(o: &Option<String>) -> (r: Option<String>)
    ensures
        opt_view(r) == opt_view(*o),
{
    match o {
        Some(s) => Some(copy_str(s.as_str())),
        None => None,
    }
}

/// Whether two optional strings are equal.
pub fn opt_eq(a: &Option<String>, b: &Option<String>) -> (r: bool)
    ensures
        r == (opt_view(*a) == opt_view(*b)),
{
    match (a, b) {
        (Some(x), Some(y)) => chars_eq(&chars_of(x.as_str()), &chars_of(y.as_str())),
        (None, None) => true,
        _ => false,
    }
}


/// The view of one count entry.
pub open spec fn count_view(e: (String, usize)) -> (Seq<char>, nat) {
    (e.0@, e.1 as nat)
}

/// How many times each kind name occurs in `kinds`.
pub open spec fn kind_counts(kinds: Seq<Seq<char>>) -> Map<Seq<char>, nat>
    decreases kinds.len(),
{
    if kinds.len() == 0 {
        Map::empty()
    } else {
        let m = kind_counts(kinds.drop_last());
        let k = kinds.last();
        m.insert(k, if m.contains_key(k) { m[k] + 1 } else { 1 })
    }
}

/// Counts per kind name, in increasing name order (a `BTreeMap` of counts).
#[derive(Debug)]
pub struct KindCounts {
    entries: Vec<(String, usize)>,
}

impl KindCounts {
    /// The entries, in name order.
    pub closed spec fn entries_view(&self) -> Seq<(Seq<char>, nat)> {
        self.entries@.map_values(|e: (String, usize)| count_view(e))
    }

    #[verifier::type_invariant]
    spec fn sorted(self) -> bool {
        keys_sorted(self.entries_view())
    }

    /// No counts.
    pub fn new() -> (c: KindCounts)
        ensures
            c@ == Map::<Seq<char>, nat>::empty(),
    {
        let c = KindCounts { entries: Vec::new() };
        assert(c@ =~= Map::<Seq<char>, nat>::empty());
        c
    }

    /// Counts from entries given in strictly increasing name order, or `None`
    /// when they are not in that order.
    pub fn from_entries(entries: Vec<(String, usize)>) -> (r: Option<KindCounts>)
        ensures
            match r {
                Some(c) => keys_sorted(entries@.map_values(|e: (String, usize)| count_view(e)))
                    && c.entries_view() == entries@.map_values(|e: (String, usize)| count_view(e)),
                None => !keys_sorted(entries@.map_values(|e: (String, usize)| count_view(e))),
            },
    {
        let ghost v = entries@.map_values(|e: (String, usize)| count_view(e));
        let mut i: usize = 1;
        while i < entries.len()
            invariant
                1 <= i,
                v == entries@.map_values(|e: (String, usize)| count_view(e)),
                forall|a: int, b: int| 0 <= a < b < i && b < v.len() ==> seq_lt(#[trigger] v[a].0, #[trigger] v[b].0),
            decreases entries@.len() - i,
        {
            if !chars_less(&chars_of(entries[i - 1].0.as_str()), &chars_of(entries[i].0.as_str())) {
                proof {
                    assert(v[i - 1] == count_view(entries@[i - 1]));
                    assert(v[i as int] == count_view(entries@[i as int]));
                    assert(!seq_lt(v[i - 1].0, v[i as int].0));
                }
                return None;
            }
            proof {
                assert forall|a: int, b: int| 0 <= a < b < i + 1 && b < v.len() implies seq_lt(
                    #[trigger] v[a].0,
                    #[trigger] v[b].0,
                ) by {
                    if b == i && a < i - 1 {
                        lemma_seq_lt_transitive(v[a].0, v[i - 1].0, v[b].0);
                    }
                }
            }
            i = i + 1;
        }
        Some(KindCounts { entries })
    }

    /// The entries, in name order.
    pub fn entries(&self) -> (r: &Vec<(String, usize)>)
        ensures
            r@.map_values(|e: (String, usize)| count_view(e)) == self.entries_view(),
            keys_sorted(self.entries_view()),
    {
        proof {
            use_type_invariant(self);
        }
        &self.entries
    }

    /// Adds one to the count of `kind`.
    pub fn increment(&mut self, kind: &str)
        requires
            old(self)@.contains_key(kind@) ==> old(self)@[kind@] < usize::MAX,
        ensures
            final(self)@ == old(self)@.insert(
                kind@,
                if old(self)@.contains_key(kind@) {
                    old(self)@[kind@] + 1
                } else {
                    1
                },
            ),
    {
        proof {
            use_type_invariant(&*self);
        }
        let ghost old_entries = self.entries_view();
        let mut entries: Vec<(String, usize)> = Vec::new();
        std::mem::swap(&mut entries, &mut self.entries);
        let k = chars_of(kind);
        let mut i: usize = 0;
        while i < entries.len() && chars_less(&chars_of(entries[i].0.as_str()), &k)
            invariant
                i <= entries@.len(),
                entries@.map_values(|e: (String, usize)| count_view(e)) == old_entries,
                k@ == kind@,
                forall|j: int| 0 <= j < i ==> seq_lt(#[trigger] old_entries[j].0, kind@),
            decreases entries@.len() - i,
        {
            i = i + 1;
        }
        let same = i < entries.len() && chars_eq(&chars_of(entries[i].0.as_str()), &k);
        if same {
            proof {
                lemma_entries_map(old_entries, i as int);
            }
            let n = entries[i].1;
            entries.set(i, (copy_str(kind), n + 1));
            proof {
                lemma_update_at(old_entries, i as int, kind@, (n + 1) as nat);
                assert(entries@.map_values(|e: (String, usize)| count_view(e)) =~= old_entries.update(
                    i as int,
                    (kind@, (n + 1) as nat),
                ));
            }
        } else {
            proof {
                lemma_absent(old_entries, i as int, kind@);
            }
            entries.insert(i, (copy_str(kind), 1));
            proof {
                lemma_insert_at(old_entries, i as int, kind@, 1nat);
                assert(entries@.map_values(|e: (String, usize)| count_view(e)) =~= old_entries.insert(
                    i as int,
                    (kind@, 1nat),
                ));
            }
        }
        self.entries = entries;
    }

    /// Whether two count maps are equal.
    pub fn same_as(&self, other: &KindCounts) -> (r: bool)
        ensures
            r == (self@ == other@),
    {
        proof {
            use_type_invariant(self);
            use_type_invariant(other);
        }
        let a = &self.entries;
        let b = &other.entries;
        if a.len() != b.len() {
            proof {
                if self@ == other@ {
                    lemma_entries_map_unique(self.entries_view(), other.entries_view());
                }
            }
            return false;
        }
        let mut i: usize = 0;
        while i < a.len()
            invariant
                i <= a@.len(),
                a@.len() == b@.len(),
                a == self.entries,
                b == other.entries,
                keys_sorted(self.entries_view()),
                keys_sorted(other.entries_view()),
                forall|j: int| 0 <= j < i ==> #[trigger] self.entries_view()[j] == other.entries_view()[j],
            decreases a@.len() - i,
        {
            if a[i].1 != b[i].1 || !chars_eq(&chars_of(a[i].0.as_str()), &chars_of(b[i].0.as_str())) {
                proof {
                    assert(self.entries_view()[i as int] != other.entries_view()[i as int]);
                    if self@ == other@ {
                        lemma_entries_map_unique(self.entries_view(), other.entries_view());
                    }
                }
                return false;
            }
            i = i + 1;
        }
        assert(self.entries_view() =~= other.entries_view());
        true
    }
}

impl View for KindCounts {
    type V = Map<Seq<char>, nat>;

    closed spec fn view(&self) -> Map<Seq<char>, nat> {
        entries_map(self.entries_view())
    }
}


/// Every count in `kind_counts(kinds)` is at most the number of names.
pub proof fn lemma_kind_counts_bounded(kinds: Seq<Seq<char>>)
    ensures
        forall|k: Seq<char>| #[trigger] kind_counts(kinds).contains_key(k) ==> kind_counts(kinds)[k]
            <= kinds.len(),
    decreases kinds.len(),
{
    if kinds.len() > 0 {
        lemma_kind_counts_bounded(kinds.drop_last());
        let m = kind_counts(kinds.drop_last());
        assert forall|k: Seq<char>| #[trigger] kind_counts(kinds).contains_key(k) implies kind_counts(
            kinds,
        )[k] <= kinds.len() by {
            if k != kinds.last() {
                assert(m.contains_key(k));
            }
        }
    }
}

/// The kind names of `nodes`.
pub open spec fn node_kinds(nodes: Seq<GraphNode>) -> Seq<Seq<char>> {
    nodes.map_values(|n: GraphNode| n.kind@)
}

/// The kind names of `edges`.
pub open spec fn edge_kinds(edges: Seq<EdgeRecord>) -> Seq<Seq<char>> {
    edges.map_values(|e: EdgeRecord| e.kind@)
}

/// Counts per node kind.
pub fn count_node_kinds(nodes: &Vec<GraphNode>) -> (c: KindCounts)
    ensures
        c@ == kind_counts(node_kinds(nodes@)),
{
    let mut c = KindCounts::new();
    let mut i: usize = 0;
    while i < nodes.len()
        invariant
            i <= nodes@.len(),
            c@ == kind_counts(node_kinds(nodes@).take(i as int)),
        decreases nodes@.len() - i,
    {
        proof {
            let t = node_kinds(nodes@).take(i + 1);
            assert(t.drop_last() =~= node_kinds(nodes@).take(i as int));
            lemma_kind_counts_bounded(node_kinds(nodes@).take(i as int));
        }
        c.increment(nodes[i].kind.as_str());
        i = i + 1;
    }
    assert(node_kinds(nodes@).take(i as int) =~= node_kinds(nodes@));
    c
}

/// Counts per edge kind.
pub fn count_edge_kinds(edges: &Vec<EdgeRecord>) -> (c: KindCounts)
    ensures
        c@ == kind_counts(edge_kinds(edges@)),
{
    let mut c = KindCounts::new();
    let mut i: usize = 0;
    while i < edges.len()
        invariant
            i <= edges@.len(),
            c@ == kind_counts(edge_kinds(edges@).take(i as int)),
        decreases edges@.len() - i,
    {
        proof {
            let t = edge_kinds(edges@).take(i + 1);
            assert(t.drop_last() =~= edge_kinds(edges@).take(i as int));
            lemma_kind_counts_bounded(edge_kinds(edges@).take(i as int));
        }
        c.increment(edges[i].kind.as_str());
        i = i + 1;
    }
    assert(edge_kinds(edges@).take(i as int) =~= edge_kinds(edges@));
    c
}

/// What identifies a node in a payload comparison.
pub type NodePayload = (String, String, String, String, Option<String>);

/// What identifies an edge in a payload comparison.
pub type EdgePayload = (String, String, String, String, String);

/// The view of a node payload.
pub open spec fn node_payload_view(p: NodePayload) -> (Seq<char>, Seq<char>, Seq<char>, Seq<char>, Option<Seq<char>>) {
    (p.0@, p.1@, p.2@, p.3@, opt_view(p.4))
}

/// The view of an edge payload.
pub open spec fn edge_payload_view(p: EdgePayload) -> (Seq<char>, Seq<char>, Seq<char>, Seq<char>, Seq<char>) {
    (p.0@, p.1@, p.2@, p.3@, p.4@)
}

/// A node's id, kind, label, text and source URL.
pub open spec fn node_payload_spec(n: GraphNode) -> (Seq<char>, Seq<char>, Seq<char>, Seq<char>, Option<Seq<char>>) {
    (n.id@, n.kind@, n.label@, n.text@, opt_view(n.source_url))
}

/// An edge's id, kind, endpoints and canonical attrs.
pub open spec fn edge_payload_spec(e: EdgeRecord) -> (Seq<char>, Seq<char>, Seq<char>, Seq<char>, Seq<char>) {
    (e.id@, e.kind@, e.from@, e.to@, canonical_json(e.attrs.entries_view()))
}

/// A snapshot edge's id, kind, endpoints and canonical attrs.
pub open spec fn graph_edge_payload_spec(e: GraphEdge) -> (Seq<char>, Seq<char>, Seq<char>, Seq<char>, Seq<char>) {
    (e.id@, e.kind@, e.from_id@, e.to_id@, canonical_json(e.attrs.entries_view()))
}

/// The payload of a node.
pub fn node_payload(node: &GraphNode) -> (p: NodePayload)
    ensures
        node_payload_view(p) == node_payload_spec(*node),
{
    (
        copy_str(node.id.as_str()),
        copy_str(node.kind.as_str()),
        copy_str(node.label.as_str()),
        copy_str(node.text.as_str()),
        copy_opt(&node.source_url),
    )
}

/// The payload of an edge record.
pub fn edge_payload(edge: &EdgeRecord) -> (p: EdgePayload)
    ensures
        edge_payload_view(p) == edge_payload_spec(*edge),
{
    (
        copy_str(edge.id.as_str()),
        copy_str(edge.kind.as_str()),
        copy_str(edge.from.as_str()),
        copy_str(edge.to.as_str()),
        canonical_attrs(&edge.attrs),
    )
}

/// The payload of a snapshot edge.
pub fn graph_edge_payload(edge: &GraphEdge) -> (p: EdgePayload)
    ensures
        edge_payload_view(p) == graph_edge_payload_spec(*edge),
{
    (
        copy_str(edge.id.as_str()),
        copy_str(edge.kind.as_str()),
        copy_str(edge.from_id.as_str()),
        copy_str(edge.to_id.as_str()),
        canonical_attrs(&edge.attrs),
    )
}

impl EdgeRecord {
    /// The snapshot weight of this edge.
    pub fn to_graph_edge(&self) -> (g: GraphEdge)
        ensures
            g.id@ == self.id@,
            g.kind@ == self.kind@,
            g.from_id@ == self.from@,
            g.to_id@ == self.to@,
            g.attrs.entries_view() == self.attrs.entries_view(),
            g.attrs@ == self.attrs@,
    {
        GraphEdge {
            id: copy_str(self.id.as_str()),
            kind: copy_str(self.kind.as_str()),
            from_id: copy_str(self.from.as_str()),
            to_id: copy_str(self.to.as_str()),
            attrs: self.attrs.copy(),
        }
    }
}

} // verus!
