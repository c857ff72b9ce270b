//! Building the graph bundle from a corpus: entity, wargear and keyword
//! nodes, the kept edges, one passage per node and the manifest.

use vstd::prelude::*;
use vstd::hash_set::StringHashSet;

use crate::graph::bundle::{
    Snapshot, Summary, check_graph, graph_verdict, datasheet_failure, edge_keys, graph_edge_keys, node_keys,
    snapshot_failure, versions_ok,
    attr_text, endpoint_failure, has_node_id, keyword_failure, manifest_counts_match, passage_failure, passage_failure_from,
    passage_matches,
};
use crate::graph::corpus::{Corpus, Entity, ref_id, ref_spec};
use crate::graph::error::GraphError;
use crate::graph::lookup::{indexes_last, last_positions, node_id_set};
use crate::graph::edges::{
    PendingSpec, ability_edge_spec, bare_spec, both_refs_spec, from_ref_spec, keyword_edge_spec, line_edge_spec,
    dedupe_key, edge_of, edge_views, entity_edges, entity_edges_spec, has_key,
    keep_step, kept_edges, pending_view, pending_views, push_edge, wargear_pending,
    wargear_pending_spec,
};
use crate::graph::groups::{
    GroupSpec, collect_groups, collect_keywords, group_view, group_views, groups_upto,
    keyword_node, keyword_node_spec, keyword_set, keyword_views, keywords_upto, names_keywords, wargear_node,
    wargear_node_spec,
};
use crate::graph::model::{
    BundleManifest, EdgeRecord, GraphEdge, GraphNode, Passage, copy_opt, opt_view, count_edge_kinds, count_node_kinds,
    edge_kinds, kind_counts, node_kinds,
};
use crate::graph::attrs::strings_view;
use crate::graph::nodes::{
    NodeSpec, creates_node, entity_node, entity_node_spec, kind_of_table, node_table, node_view,
};
use crate::graph::attrs::{AttrValueView, attrs_json, canonical_json};
use crate::graph::nodes::is_node_table;
use crate::keyed::{entries_map, lemma_sorted_entries};
use crate::text::{copy_str, join, str_eq};

verus! {

/// A built bundle: nodes, edges, one passage per node, and the manifest.
pub struct GraphBundle {
    pub nodes: Vec<GraphNode>,
    pub edges: Vec<EdgeRecord>,
    pub passages: Vec<Passage>,
    pub manifest: BundleManifest,
}

/// The values of a list of nodes.
pub open spec fn node_views(v: Seq<GraphNode>) -> Seq<NodeSpec> {
    v.map_values(|n: GraphNode| node_view(n))
}

/// The nodes of the entities among the first `n` that become nodes, in order.
pub open spec fn entity_nodes_upto(ents: Seq<Entity>, n: int) -> Seq<NodeSpec>
    decreases n,
{
    if n <= 0 || n > ents.len() {
        Seq::empty()
    } else if creates_node(ents[n - 1]) {
        entity_nodes_upto(ents, n - 1).push(entity_node_spec(ents[n - 1], ents))
    } else {
        entity_nodes_upto(ents, n - 1)
    }
}

/// The nodes of a corpus: entity nodes in file order, then one node per
/// wargear group, then one per distinct keyword.
pub open spec fn graph_nodes_spec(ents: Seq<Entity>) -> Seq<NodeSpec> {
    entity_nodes_upto(ents, ents.len() as int) + groups_upto(ents, ents.len() as int).map_values(
        |g: GroupSpec| wargear_node_spec(ents, g),
    ) + keywords_upto(ents, ents.len() as int).map_values(
        |k: (Seq<char>, Seq<char>)| keyword_node_spec(k),
    )
}

/// The pending edges of the first `n` entities, in order.
pub open spec fn entity_pending_upto(ents: Seq<Entity>, kws: Seq<(Seq<char>, Seq<char>)>, n: int) -> Seq<PendingSpec>
    decreases n,
{
    if n <= 0 || n > ents.len() {
        Seq::empty()
    } else {
        entity_pending_upto(ents, kws, n - 1) + entity_edges_spec(ents[n - 1], kws)
    }
}

/// The pending edges of the first `n` wargear groups, in order.
pub open spec fn group_pending_upto(ents: Seq<Entity>, gs: Seq<GroupSpec>, n: int) -> Seq<PendingSpec>
    decreases n,
{
    if n <= 0 || n > gs.len() {
        Seq::empty()
    } else {
        group_pending_upto(ents, gs, n - 1) + wargear_pending_spec(ents, gs[n - 1])
    }
}

/// Every pending edge of a corpus: the entities' in file order, then the
/// wargear groups'.
pub open spec fn graph_pending_spec(ents: Seq<Entity>) -> Seq<PendingSpec> {
    let n = ents.len() as int;
    let gs = groups_upto(ents, n);
    entity_pending_upto(ents, keywords_upto(ents, n), n) + group_pending_upto(ents, gs, gs.len() as int)
}

/// The manifest of a bundle built from `corpus`.
pub open spec fn manifest_spec(
    corpus: Corpus,
    nodes: Seq<GraphNode>,
    edges: Seq<EdgeRecord>,
    passage_count: int,
    m: BundleManifest,
) -> bool {
    &&& m.format_version == 1
    &&& m.corpus_schema_version == 1
    &&& m.edition@ == corpus.edition@
    &&& m.corpus_fingerprint@ == corpus.fingerprint@
    &&& m.last_update@ == corpus.last_update@
    &&& m.node_count == nodes.len()
    &&& m.edge_count == edges.len()
    &&& m.passage_count == passage_count
    &&& m.node_counts_by_kind@ == kind_counts(node_kinds(nodes))
    &&& m.edge_counts_by_kind@ == kind_counts(edge_kinds(edges))
}

/// `b` is the bundle built from `corpus`.
pub open spec fn built_from(corpus: Corpus, b: GraphBundle) -> bool {
    let ents = corpus.entities@;
    &&& node_views(b.nodes@) == graph_nodes_spec(ents)
    &&& edge_views(b.edges@) == kept_edges(b.nodes@, graph_pending_spec(ents)).map_values(
        |q: PendingSpec| edge_of(q),
    )
    &&& b.passages@.len() == b.nodes@.len()
    &&& forall|i: int| 0 <= i < b.nodes@.len() ==> #[trigger] passage_matches(b.nodes@[i], b.passages@[i])
    &&& manifest_spec(corpus, b.nodes@, b.edges@, b.passages@.len() as int, b.manifest)
}

fn makes_node(e: &Entity) -> (r: bool)
    ensures
        r == creates_node(*e),
{
    node_table(e.table.as_str()) || (str_eq(e.table.as_str(), "datasheet_ability") && ref_id(
        e,
        "ability_id",
    ).is_none())
}

/// The manifest for the built nodes and edges.
pub fn manifest_for(
    corpus: &Corpus,
    nodes: &Vec<GraphNode>,
    edges: &Vec<EdgeRecord>,
    passage_count: usize,
) -> (m: BundleManifest)
    ensures
        manifest_spec(*corpus, nodes@, edges@, passage_count as int, m),
{
    BundleManifest {
        format_version: 1,
        corpus_schema_version: 1,
        edition: copy_str(corpus.edition.as_str()),
        corpus_fingerprint: copy_str(corpus.fingerprint.as_str()),
        last_update: copy_str(corpus.last_update.as_str()),
        node_count: nodes.len(),
        edge_count: edges.len(),
        passage_count,
        node_counts_by_kind: count_node_kinds(nodes),
        edge_counts_by_kind: count_edge_kinds(edges),
    }
}

fn build_nodes(ents: &Vec<Entity>, groups: &Vec<crate::graph::groups::WargearGroup>, keywords: &Vec<crate::graph::groups::KeywordAccum>) -> (nodes: Vec<GraphNode>)
    requires
        group_views(groups@) == groups_upto(ents@, ents@.len() as int),
        keyword_views(keywords@) == keywords_upto(ents@, ents@.len() as int),
        forall|j: int, k: int|
            0 <= j < groups@.len() && 0 <= k < groups@[j].profiles@.len() ==> #[trigger] groups@[j].profiles@[k] < ents@.len(),
    ensures
        node_views(nodes@) == graph_nodes_spec(ents@),
{
    let ghost n = ents@.len() as int;
    let index = last_positions(ents);
    let mut nodes: Vec<GraphNode> = Vec::new();
    let mut i: usize = 0;
    while i < ents.len()
        invariant
            i <= ents@.len(),
            indexes_last(index@, ents@, ents@.len() as int),
            node_views(nodes@) == entity_nodes_upto(ents@, i as int),
        decreases ents@.len() - i,
    {
        if makes_node(&ents[i]) {
            let ghost before = nodes@;
            nodes.push(entity_node(&ents[i], ents, &index));
            assert(node_views(nodes@) =~= node_views(before).push(entity_node_spec(ents@[i as int], ents@)));
        }
        i = i + 1;
    }
    let ghost base = node_views(nodes@);
    let ghost gv = group_views(groups@);
    let mut k: usize = 0;
    while k < groups.len()
        invariant
            k <= groups@.len(),
            gv == group_views(groups@),
            indexes_last(index@, ents@, ents@.len() as int),
            forall|j: int, m: int|
                0 <= j < groups@.len() && 0 <= m < groups@[j].profiles@.len() ==> #[trigger] groups@[j].profiles@[m] < ents@.len(),
            node_views(nodes@) == base + gv.take(k as int).map_values(|g: GroupSpec| wargear_node_spec(ents@, g)),
        decreases groups@.len() - k,
    {
        let ghost before = nodes@;
        let node = wargear_node(&groups[k], ents, &index);
        nodes.push(node);
        proof {
            assert(gv[k as int] == group_view(groups@[k as int]));
            assert(gv.take(k + 1) =~= gv.take(k as int).push(gv[k as int]));
            assert(node_views(nodes@) =~= node_views(before).push(node_view(node)));
            assert(gv.take(k + 1).map_values(|g: GroupSpec| wargear_node_spec(ents@, g)) =~= gv.take(
                k as int,
            ).map_values(|g: GroupSpec| wargear_node_spec(ents@, g)).push(wargear_node_spec(ents@, gv[k as int])));
        }
        k = k + 1;
    }
    assert(gv.take(k as int) =~= gv);
    let ghost base2 = node_views(nodes@);
    let ghost kv = keyword_views(keywords@);
    let mut k: usize = 0;
    while k < keywords.len()
        invariant
            k <= keywords@.len(),
            kv == keyword_views(keywords@),
            node_views(nodes@) == base2 + kv.take(k as int).map_values(
                |w: (Seq<char>, Seq<char>)| keyword_node_spec(w),
            ),
        decreases keywords@.len() - k,
    {
        let ghost before = nodes@;
        let node = keyword_node(&keywords[k]);
        nodes.push(node);
        proof {
            assert(kv[k as int] == (keywords@[k as int].label@, keywords@[k as int].normalized@));
            assert(kv.take(k + 1) =~= kv.take(k as int).push(kv[k as int]));
            assert(node_views(nodes@) =~= node_views(before).push(node_view(node)));
            assert(kv.take(k + 1).map_values(|w: (Seq<char>, Seq<char>)| keyword_node_spec(w)) =~= kv.take(
                k as int,
            ).map_values(|w: (Seq<char>, Seq<char>)| keyword_node_spec(w)).push(keyword_node_spec(kv[k as int])));
        }
        k = k + 1;
    }
    assert(kv.take(k as int) =~= kv);
    assert(node_views(nodes@) =~= graph_nodes_spec(ents@));
    nodes
}

fn build_edges(
    ents: &Vec<Entity>,
    groups: &Vec<crate::graph::groups::WargearGroup>,
    keywords: &Vec<crate::graph::groups::KeywordAccum>,
    nodes: &Vec<GraphNode>,
) -> (edges: Vec<EdgeRecord>)
    requires
        group_views(groups@) == groups_upto(ents@, ents@.len() as int),
        keyword_views(keywords@) == keywords_upto(ents@, ents@.len() as int),
        forall|j: int, k: int|
            0 <= j < groups@.len() && 0 <= k < groups@[j].profiles@.len() ==> #[trigger] groups@[j].profiles@[k] < ents@.len(),
    ensures
        edge_views(edges@) == kept_edges(nodes@, graph_pending_spec(ents@)).map_values(
            |q: PendingSpec| edge_of(q),
        ),
{
    let ghost kws = keyword_views(keywords@);
    let ghost gv = group_views(groups@);
    let mut edges: Vec<EdgeRecord> = Vec::new();
    let mut seen = StringHashSet::new();
    let node_ids = node_id_set(nodes);
    let known = keyword_set(keywords);
    let ghost mut all: Seq<PendingSpec> = Seq::empty();
    proof {
        assert(edge_views(edges@) =~= Seq::<PendingSpec>::empty().map_values(|q: PendingSpec| edge_of(q)));
    }
    let mut i: usize = 0;
    while i < ents.len()
        invariant
            i <= ents@.len(),
            kws == keyword_views(keywords@),
            names_keywords(known@, keywords@),
            all == entity_pending_upto(ents@, kws, i as int),
            edge_views(edges@) == kept_edges(nodes@, all).map_values(|q: PendingSpec| edge_of(q)),
            forall|k: Seq<char>| #[trigger] seen@.contains(k) == has_key(kept_edges(nodes@, all), k),
                forall|id: Seq<char>| #[trigger] node_ids@.contains(id) == has_node_id(nodes@, id),
        decreases ents@.len() - i,
    {
        let pe = entity_edges(&ents[i], keywords, &known);
        let ghost pv = pending_views(pe@);
        let ghost start = all;
        let mut j: usize = 0;
        while j < pe.len()
            invariant
                j <= pe@.len(),
                pv == pending_views(pe@),
                all == start + pv.take(j as int),
                edge_views(edges@) == kept_edges(nodes@, all).map_values(|q: PendingSpec| edge_of(q)),
                forall|k: Seq<char>| #[trigger] seen@.contains(k) == has_key(kept_edges(nodes@, all), k),
                forall|id: Seq<char>| #[trigger] node_ids@.contains(id) == has_node_id(nodes@, id),
            decreases pe@.len() - j,
        {
            push_edge(&mut edges, &mut seen, &node_ids, nodes, &pe[j], Ghost(kept_edges(nodes@, all)));
            proof {
                let next = all.push(pending_view(pe@[j as int]));
                assert(next.drop_last() =~= all);
                assert(kept_edges(nodes@, next) == keep_step(kept_edges(nodes@, all), nodes@, pending_view(pe@[j as int])));
                assert(start + pv.take(j + 1) =~= next);
                all = next;
            }
            j = j + 1;
        }
        proof {
            assert(pv.take(j as int) =~= pv);
            assert(entity_pending_upto(ents@, kws, i + 1) == entity_pending_upto(ents@, kws, i as int) + entity_edges_spec(ents@[i as int], kws));
        }
        i = i + 1;
    }
    let ghost mid = all;
    let mut g: usize = 0;
    while g < groups.len()
        invariant
            g <= groups@.len(),
            gv == group_views(groups@),
            forall|j: int, k: int|
                0 <= j < groups@.len() && 0 <= k < groups@[j].profiles@.len() ==> #[trigger] groups@[j].profiles@[k] < ents@.len(),
            all == mid + group_pending_upto(ents@, gv, g as int),
            edge_views(edges@) == kept_edges(nodes@, all).map_values(|q: PendingSpec| edge_of(q)),
            forall|k: Seq<char>| #[trigger] seen@.contains(k) == has_key(kept_edges(nodes@, all), k),
                forall|id: Seq<char>| #[trigger] node_ids@.contains(id) == has_node_id(nodes@, id),
        decreases groups@.len() - g,
    {
        let pe = wargear_pending(&groups[g], ents);
        let ghost pv = pending_views(pe@);
        let ghost start = all;
        let mut j: usize = 0;
        while j < pe.len()
            invariant
                j <= pe@.len(),
                pv == pending_views(pe@),
                all == start + pv.take(j as int),
                edge_views(edges@) == kept_edges(nodes@, all).map_values(|q: PendingSpec| edge_of(q)),
                forall|k: Seq<char>| #[trigger] seen@.contains(k) == has_key(kept_edges(nodes@, all), k),
                forall|id: Seq<char>| #[trigger] node_ids@.contains(id) == has_node_id(nodes@, id),
            decreases pe@.len() - j,
        {
            push_edge(&mut edges, &mut seen, &node_ids, nodes, &pe[j], Ghost(kept_edges(nodes@, all)));
            proof {
                let next = all.push(pending_view(pe@[j as int]));
                assert(next.drop_last() =~= all);
                assert(kept_edges(nodes@, next) == keep_step(kept_edges(nodes@, all), nodes@, pending_view(pe@[j as int])));
                assert(start + pv.take(j + 1) =~= next);
                all = next;
            }
            j = j + 1;
        }
        proof {
            assert(pv.take(j as int) =~= pv);
            assert(gv[g as int] == group_view(groups@[g as int]));
            assert(group_pending_upto(ents@, gv, g + 1) == group_pending_upto(ents@, gv, g as int) + wargear_pending_spec(ents@, gv[g as int]));
            assert(all =~= mid + group_pending_upto(ents@, gv, g + 1));
        }
        g = g + 1;
    }
    proof {
        assert(all =~= graph_pending_spec(ents@));
    }
    edges
}

/// Builds the bundle of a corpus: entity nodes in file order, then wargear
/// and keyword nodes; the kept edges; one passage per node; the manifest.
pub fn build_graph(corpus: &Corpus) -> (b: GraphBundle)
    ensures
        built_from(*corpus, b),
{
    let ents = &corpus.entities;
    let keywords = collect_keywords(ents);
    let groups = collect_groups(ents);
    let nodes = build_nodes(ents, &groups, &keywords);
    let edges = build_edges(ents, &groups, &keywords, &nodes);
    let mut passages: Vec<Passage> = Vec::new();
    let mut i: usize = 0;
    while i < nodes.len()
        invariant
            i <= nodes@.len(),
            passages@.len() == i,
            forall|m: int| 0 <= m < i ==> #[trigger] passage_matches(nodes@[m], passages@[m]),
        decreases nodes@.len() - i,
    {
        let n = &nodes[i];
        passages.push(
            Passage {
                node_id: copy_str(n.id.as_str()),
                title: copy_str(n.label.as_str()),
                text: copy_str(n.text.as_str()),
                wahapedia_link: copy_opt(&n.source_url),
            },
        );
        i = i + 1;
    }
    let manifest = manifest_for(corpus, &nodes, &edges, passages.len());
    GraphBundle { nodes, edges, passages, manifest }
}

/// Every kept edge joins two node ids.
pub proof fn lemma_kept_endpoints(nodes: Seq<GraphNode>, ps: Seq<PendingSpec>)
    ensures
        forall|i: int|
            0 <= i < kept_edges(nodes, ps).len() ==> has_node_id(nodes, #[trigger] kept_edges(nodes, ps)[i].from)
                && has_node_id(nodes, kept_edges(nodes, ps)[i].to),
    decreases ps.len(),
{
    if ps.len() > 0 {
        lemma_kept_endpoints(nodes, ps.drop_last());
        let k = kept_edges(nodes, ps.drop_last());
        let k2 = kept_edges(nodes, ps);
        assert forall|i: int| 0 <= i < k2.len() implies has_node_id(nodes, #[trigger] k2[i].from) && has_node_id(
            nodes,
            k2[i].to,
        ) by {
            if i < k.len() {
                assert(k2[i] == k[i]);
            }
        }
    }
}

/// No two kept edges share a key: same kind, endpoints and attributes.
pub proof fn lemma_kept_distinct(nodes: Seq<GraphNode>, ps: Seq<PendingSpec>)
    ensures
        forall|i: int, j: int|
            0 <= i < j < kept_edges(nodes, ps).len() ==> dedupe_key(#[trigger] kept_edges(nodes, ps)[i])
                != dedupe_key(#[trigger] kept_edges(nodes, ps)[j]),
    decreases ps.len(),
{
    if ps.len() > 0 {
        lemma_kept_distinct(nodes, ps.drop_last());
        let k = kept_edges(nodes, ps.drop_last());
        let p = ps.last();
        if has_node_id(nodes, p.from) && has_node_id(nodes, p.to) && !has_key(k, dedupe_key(p)) {
            let k2 = k.push(p);
            assert forall|i: int, j: int| 0 <= i < j < k2.len() implies dedupe_key(#[trigger] k2[i])
                != dedupe_key(#[trigger] k2[j]) by {
                if j == k.len() {
                    if dedupe_key(k2[i]) == dedupe_key(k2[j]) {
                        assert(dedupe_key(k[i]) == dedupe_key(p));
                    }
                } else {
                    assert(k2[i] == k[i] && k2[j] == k[j]);
                }
            }
        }
    }
}

/// Nothing is lost: each pending edge whose endpoints are node ids has its
/// key among the kept edges, and each kept edge is one of the pending edges.
pub proof fn lemma_kept_complete(nodes: Seq<GraphNode>, ps: Seq<PendingSpec>)
    ensures
        forall|i: int|
            0 <= i < ps.len() && has_node_id(nodes, ps[i].from) && has_node_id(nodes, ps[i].to) ==> has_key(
                kept_edges(nodes, ps),
                dedupe_key(#[trigger] ps[i]),
            ),
        forall|i: int|
            0 <= i < kept_edges(nodes, ps).len() ==> ps.contains(#[trigger] kept_edges(nodes, ps)[i]),
    decreases ps.len(),
{
    if ps.len() > 0 {
        let q = ps.drop_last();
        lemma_kept_complete(nodes, q);
        let k = kept_edges(nodes, q);
        let k2 = kept_edges(nodes, ps);
        assert(forall|j: int| 0 <= j < k.len() ==> k2[j] == k[j]);
        assert forall|i: int|
            0 <= i < ps.len() && has_node_id(nodes, ps[i].from) && has_node_id(nodes, ps[i].to) implies has_key(
            k2,
            dedupe_key(#[trigger] ps[i]),
        ) by {
            if i < q.len() {
                assert(q[i] == ps[i]);
                let j = choose|j: int| 0 <= j < k.len() && #[trigger] dedupe_key(k[j]) == dedupe_key(q[i]);
                assert(dedupe_key(k2[j]) == dedupe_key(ps[i]));
            } else if k2.len() > k.len() {
                assert(dedupe_key(k2[k.len() as int]) == dedupe_key(ps[i]));
            }
        }
        assert forall|i: int| 0 <= i < k2.len() implies ps.contains(#[trigger] k2[i]) by {
            if i < k.len() {
                assert(q.contains(k[i]));
                let j = choose|j: int| 0 <= j < q.len() && q[j] == k[i];
                assert(ps[j] == q[j]);
            } else {
                assert(ps[ps.len() - 1] == k2[i]);
            }
        }
    }
}

proof fn lemma_no_endpoint_failure(nodes: Seq<GraphNode>, edges: Seq<EdgeRecord>, i: int)
    requires
        0 <= i,
        forall|j: int| 0 <= j < edges.len() ==> has_node_id(nodes, #[trigger] edges[j].from@) && has_node_id(
            nodes,
            edges[j].to@,
        ),
    ensures
        endpoint_failure(nodes, edges, i) is None,
    decreases edges.len() - i,
{
    if i < edges.len() {
        assert(has_node_id(nodes, edges[i].from@));
        lemma_no_endpoint_failure(nodes, edges, i + 1);
    }
}

proof fn lemma_no_passage_failure(nodes: Seq<GraphNode>, passages: Seq<Passage>, i: int)
    requires
        0 <= i,
        passages.len() == nodes.len(),
        forall|j: int| 0 <= j < nodes.len() ==> #[trigger] passage_matches(nodes[j], passages[j]),
    ensures
        passage_failure_from(nodes, passages, i) is None,
    decreases nodes.len() - i,
{
    if i < nodes.len() {
        assert(passage_matches(nodes[i], passages[i]));
        lemma_no_passage_failure(nodes, passages, i + 1);
    }
}

/// A built bundle passes the endpoint, passage and manifest-count rules of
/// validation: every edge joins two node ids, every node has its matching
/// passage, and the manifest counts what the files hold.
#[verifier::spinoff_prover]
pub proof fn lemma_built_bundle_valid(corpus: Corpus, b: GraphBundle)
    requires
        built_from(corpus, b),
    ensures
        endpoint_failure(b.nodes@, b.edges@, 0) is None,
        passage_failure(b.nodes@, b.passages@) is None,
        manifest_counts_match(b.nodes@, b.edges@, b.passages@, b.manifest),
{
    let ps = graph_pending_spec(corpus.entities@);
    let k = kept_edges(b.nodes@, ps);
    lemma_kept_endpoints(b.nodes@, ps);
    assert(edge_views(b.edges@).len() == b.edges@.len());
    assert forall|j: int| 0 <= j < b.edges@.len() implies has_node_id(b.nodes@, #[trigger] b.edges@[j].from@)
        && has_node_id(b.nodes@, b.edges@[j].to@) by {
        assert(edge_views(b.edges@)[j] == edge_of(k[j]));
        assert(k[j].from == b.edges@[j].from@);
    }
    lemma_no_endpoint_failure(b.nodes@, b.edges@, 0);
    lemma_no_passage_failure(b.nodes@, b.passages@, 0);
}

proof fn lemma_table_kind_not_keyword(t: Seq<char>)
    ensures
        kind_of_table(t) != "Keyword"@,
{
    reveal_strlit("Keyword");
    reveal_strlit("Faction");
    reveal_strlit("Source");
    reveal_strlit("Datasheet");
    reveal_strlit("Model");
    reveal_strlit("Ability");
    reveal_strlit("Option");
    reveal_strlit("UnitComposition");
    reveal_strlit("ModelCost");
    reveal_strlit("Stratagem");
    reveal_strlit("Enhancement");
    reveal_strlit("Detachment");
    reveal_strlit("DetachmentAbility");
    assert("Keyword"@[0] == 'K');
    assert("Faction"@[0] != 'K');
    assert("Source"@[0] != 'K');
    assert("Datasheet"@[0] != 'K');
    assert("Model"@[0] != 'K');
    assert("Ability"@[0] != 'K');
    assert("Option"@[0] != 'K');
    assert("UnitComposition"@[0] != 'K');
    assert("ModelCost"@[0] != 'K');
    assert("Stratagem"@[0] != 'K');
    assert("Enhancement"@[0] != 'K');
    assert("Detachment"@[0] != 'K');
    assert("DetachmentAbility"@[0] != 'K');
    let k = kind_of_table(t);
    assert(k.len() == 0 || k[0] != 'K');
}

proof fn lemma_entity_nodes_kinds(ents: Seq<Entity>, n: int)
    ensures
        forall|j: int|
            0 <= j < entity_nodes_upto(ents, n).len() ==> (#[trigger] entity_nodes_upto(ents, n)[j]).kind
                != "Keyword"@,
    decreases n,
{
    if 0 < n <= ents.len() {
        lemma_entity_nodes_kinds(ents, n - 1);
        lemma_table_kind_not_keyword(ents[n - 1].table@);
        let a = entity_nodes_upto(ents, n - 1);
        let b = entity_nodes_upto(ents, n);
        assert forall|j: int| 0 <= j < b.len() implies (#[trigger] b[j]).kind != "Keyword"@ by {
            if j < a.len() {
                assert(b[j] == a[j]);
            }
        }
    }
}

/// The distinct keywords of a corpus have distinct normalized forms.
pub proof fn lemma_keywords_distinct(ents: Seq<Entity>, n: int)
    ensures
        forall|a: int, b: int|
            0 <= a < b < keywords_upto(ents, n).len() ==> (#[trigger] keywords_upto(ents, n)[a]).1
                != (#[trigger] keywords_upto(ents, n)[b]).1,
    decreases n,
{
    if 0 < n <= ents.len() {
        lemma_keywords_distinct(ents, n - 1);
        let k = keywords_upto(ents, n - 1);
        let k2 = keywords_upto(ents, n);
        assert forall|a: int, b: int| 0 <= a < b < k2.len() implies (#[trigger] k2[a]).1 != (#[trigger] k2[b]).1 by {
            if b < k.len() {
                assert(k2[a] == k[a] && k2[b] == k[b]);
            } else {
                assert(k2[a] == k[a]);
            }
        }
    }
}

proof fn lemma_no_keyword_failure(nodes: Seq<GraphNode>, i: int, seen: Set<Seq<char>>)
    requires
        0 <= i <= nodes.len(),
        forall|j: int|
            i <= j < nodes.len() && (#[trigger] nodes[j]).kind@ == "Keyword"@ ==> attr_text(
                nodes[j].attrs@,
                "normalized"@,
            ) is Some && !seen.contains(attr_text(nodes[j].attrs@, "normalized"@)->0),
        forall|a: int, b: int|
            i <= a < b < nodes.len() && (#[trigger] nodes[a]).kind@ == "Keyword"@ && (#[trigger] nodes[b]).kind@
                == "Keyword"@ ==> attr_text(nodes[a].attrs@, "normalized"@) != attr_text(
                nodes[b].attrs@,
                "normalized"@,
            ),
    ensures
        keyword_failure(nodes, i, seen) is None,
    decreases nodes.len() - i,
{
    if i < nodes.len() {
        if nodes[i].kind@ == "Keyword"@ {
            let key = attr_text(nodes[i].attrs@, "normalized"@)->0;
            let s2 = seen.insert(key);
            assert forall|j: int|
                i + 1 <= j < nodes.len() && (#[trigger] nodes[j]).kind@ == "Keyword"@ implies attr_text(
                nodes[j].attrs@,
                "normalized"@,
            ) is Some && !s2.contains(attr_text(nodes[j].attrs@, "normalized"@)->0) by {
                assert(attr_text(nodes[i].attrs@, "normalized"@) != attr_text(nodes[j].attrs@, "normalized"@));
            }
            lemma_no_keyword_failure(nodes, i + 1, s2);
        } else {
            lemma_no_keyword_failure(nodes, i + 1, seen);
        }
    }
}

/// A built bundle passes the keyword rule of validation: every `Keyword` node
/// carries `attrs.normalized`, and no two share it.
pub proof fn lemma_built_keywords_valid(corpus: Corpus, b: GraphBundle)
    requires
        built_from(corpus, b),
    ensures
        keyword_failure(b.nodes@, 0, Set::empty()) is None,
{
    let ents = corpus.entities@;
    let n = ents.len() as int;
    let en = entity_nodes_upto(ents, n);
    let gs = groups_upto(ents, n).map_values(|g: GroupSpec| wargear_node_spec(ents, g));
    let ks = keywords_upto(ents, n);
    let kn = ks.map_values(|k: (Seq<char>, Seq<char>)| keyword_node_spec(k));
    let nodes = b.nodes@;
    let off = en.len() + gs.len();
    lemma_entity_nodes_kinds(ents, n);
    lemma_keywords_distinct(ents, n);
    reveal_strlit("Keyword");
    reveal_strlit("Wargear");
    assert(node_views(nodes).len() == nodes.len());
    assert(forall|j: int| 0 <= j < nodes.len() ==> #[trigger] node_views(nodes)[j] == node_view(nodes[j]));
    assert forall|j: int| 0 <= j < nodes.len() && (#[trigger] nodes[j]).kind@ == "Keyword"@ implies off <= j
        && attr_text(nodes[j].attrs@, "normalized"@) == Some(ks[j - off].1) by {
        let v = graph_nodes_spec(ents)[j];
        assert(v == node_view(nodes[j]));
        if j < en.len() {
            assert(v == en[j]);
        } else if j < off {
            assert(v == gs[j - en.len()]);
            assert(v.kind == "Wargear"@);
            assert(v.kind[0] == 'W');
        } else {
            assert(v == kn[j - off]);
            assert(v.attrs == Map::<Seq<char>, AttrValueView>::empty().insert(
                "normalized"@,
                AttrValueView::Text(ks[j - off].1),
            ));
        }
    }
    lemma_no_keyword_failure(nodes, 0, Set::empty());
}

/// Every attribute of `m` holds a string.
pub open spec fn string_attrs(m: Map<Seq<char>, AttrValueView>) -> bool {
    forall|k: Seq<char>| #[trigger] m.contains_key(k) ==> m[k] is Text
}

/// Every pending edge of `ps` has string attributes only.
spec fn string_pending(ps: Seq<PendingSpec>) -> bool {
    forall|i: int| 0 <= i < ps.len() ==> string_attrs(#[trigger] ps[i].attrs)
}

proof fn lemma_string_pending_concat(a: Seq<PendingSpec>, b: Seq<PendingSpec>)
    requires
        string_pending(a),
        string_pending(b),
    ensures
        string_pending(a + b),
{
    assert forall|i: int| 0 <= i < (a + b).len() implies string_attrs(#[trigger] (a + b)[i].attrs) by {
        if i < a.len() {
            assert((a + b)[i] == a[i]);
        } else {
            assert((a + b)[i] == b[i - a.len()]);
        }
    }
}

proof fn lemma_entity_edges_strings(e: Entity, kws: Seq<(Seq<char>, Seq<char>)>)
    ensures
        string_pending(entity_edges_spec(e, kws)),
{
    let none = Map::<Seq<char>, AttrValueView>::empty();
    assert(string_attrs(none));
    assert forall|kind: Seq<char>, col: Seq<char>| string_pending(#[trigger] from_ref_spec(e, kind, col)) by {}
    assert forall|kind: Seq<char>, c1: Seq<char>, c2: Seq<char>| string_pending(
        #[trigger] both_refs_spec(e, kind, c1, c2),
    ) by {}
    assert forall|kind: Seq<char>| string_pending(#[trigger] line_edge_spec(e, kind)) by {}
    assert(string_pending(ability_edge_spec(e)));
    assert(string_pending(keyword_edge_spec(e, kws)));
    let t = e.table@;
    if t == "datasheet"@ {
        let a = match ref_spec(e, "faction_id"@) {
            Some(f) => seq![bare_spec("FACTION_HAS_DATASHEET"@, f, e.id@)],
            None => Seq::empty(),
        };
        let b = match ref_spec(e, "source_id"@) {
            Some(src) => seq![bare_spec("DATASHEET_FROM_SOURCE"@, e.id@, src)],
            None => Seq::empty(),
        };
        assert(string_pending(a) && string_pending(b));
        lemma_string_pending_concat(a, b);
    } else if t == "stratagem"@ {
        lemma_string_pending_concat(
            from_ref_spec(e, "FACTION_HAS_STRATAGEM"@, "faction_id"@),
            from_ref_spec(e, "DETACHMENT_HAS_STRATAGEM"@, "detachment_id"@),
        );
    } else if t == "enhancement"@ {
        lemma_string_pending_concat(
            from_ref_spec(e, "FACTION_HAS_ENHANCEMENT"@, "faction_id"@),
            from_ref_spec(e, "DETACHMENT_HAS_ENHANCEMENT"@, "detachment_id"@),
        );
    } else if t == "detachment_ability"@ {
        lemma_string_pending_concat(
            from_ref_spec(e, "FACTION_HAS_DETACHMENT_ABILITY"@, "faction_id"@),
            from_ref_spec(e, "DETACHMENT_HAS_ABILITY"@, "detachment_id"@),
        );
    }
}

proof fn lemma_entity_pending_strings(ents: Seq<Entity>, kws: Seq<(Seq<char>, Seq<char>)>, n: int)
    ensures
        string_pending(entity_pending_upto(ents, kws, n)),
    decreases n,
{
    if 0 < n <= ents.len() {
        lemma_entity_pending_strings(ents, kws, n - 1);
        lemma_entity_edges_strings(ents[n - 1], kws);
        lemma_string_pending_concat(entity_pending_upto(ents, kws, n - 1), entity_edges_spec(ents[n - 1], kws));
    }
}

proof fn lemma_group_pending_strings(ents: Seq<Entity>, gs: Seq<GroupSpec>, n: int)
    ensures
        string_pending(group_pending_upto(ents, gs, n)),
    decreases n,
{
    if 0 < n <= gs.len() {
        lemma_group_pending_strings(ents, gs, n - 1);
        assert(string_pending(wargear_pending_spec(ents, gs[n - 1])));
        lemma_string_pending_concat(group_pending_upto(ents, gs, n - 1), wargear_pending_spec(ents, gs[n - 1]));
    }
}

/// Edge attributes of a built bundle are a string map: every value is a
/// string, never a list.
pub proof fn lemma_built_edge_attrs_are_strings(corpus: Corpus, b: GraphBundle)
    requires
        built_from(corpus, b),
    ensures
        forall|j: int| 0 <= j < b.edges@.len() ==> string_attrs(#[trigger] b.edges@[j].attrs@),
{
    let ents = corpus.entities@;
    let n = ents.len() as int;
    let gs = groups_upto(ents, n);
    let ps = graph_pending_spec(ents);
    lemma_entity_pending_strings(ents, keywords_upto(ents, n), n);
    lemma_group_pending_strings(ents, gs, gs.len() as int);
    lemma_string_pending_concat(
        entity_pending_upto(ents, keywords_upto(ents, n), n),
        group_pending_upto(ents, gs, gs.len() as int),
    );
    let k = kept_edges(b.nodes@, ps);
    lemma_kept_complete(b.nodes@, ps);
    assert(edge_views(b.edges@).len() == b.edges@.len());
    assert forall|j: int| 0 <= j < b.edges@.len() implies string_attrs(#[trigger] b.edges@[j].attrs@) by {
        assert(edge_views(b.edges@)[j] == edge_of(k[j]));
        assert(ps.contains(k[j]));
        let i = choose|i: int| 0 <= i < ps.len() && ps[i] == k[j];
        assert(string_attrs(ps[i].attrs));
    }
}

/// No two edges of a built bundle share a payload.
proof fn lemma_built_edges_distinct(corpus: Corpus, b: GraphBundle)
    requires
        built_from(corpus, b),
        forall|j: int| 0 <= j < b.edges@.len() ==> (#[trigger] b.edges@[j]).attrs.is_sorted(),
    ensures
        edge_keys(b.edges@).no_duplicates(),
{
    let ps = graph_pending_spec(corpus.entities@);
    let k = kept_edges(b.nodes@, ps);
    let je = edge_keys(b.edges@);
    lemma_kept_distinct(b.nodes@, ps);
    assert(edge_views(b.edges@).len() == b.edges@.len());
    assert forall|i: int, j: int| 0 <= i < je.len() && 0 <= j < je.len() && i != j implies je[i] != je[j] by {
        if je[i] == je[j] {
            let ei = b.edges@[i];
            let ej = b.edges@[j];
            assert(edge_views(b.edges@)[i] == edge_of(k[i]));
            assert(edge_views(b.edges@)[j] == edge_of(k[j]));
            ei.attrs.lemma_entries_json();
            ej.attrs.lemma_entries_json();
            assert(dedupe_key(k[i]) == dedupe_key(k[j]));
            if i < j {
                assert(dedupe_key(k[i]) != dedupe_key(k[j]));
            } else {
                assert(dedupe_key(k[j]) != dedupe_key(k[i]));
            }
        }
    }
}

/// Validating a freshly built bundle, with the snapshot decoded back to the
/// built payloads: its versions are 1, and it passes every graph rule exactly
/// when each datasheet is the target of one faction edge and no two nodes
/// share a payload. Endpoints, keywords, passages, edge payloads and manifest
/// counts hold by construction.
#[verifier::spinoff_prover]
pub proof fn lemma_built_bundle_passes(
    corpus: Corpus,
    b: GraphBundle,
    post_nodes: Vec<GraphNode>,
    post_edges: Vec<GraphEdge>,
)
    requires
        built_from(corpus, b),
        forall|j: int| 0 <= j < b.edges@.len() ==> (#[trigger] b.edges@[j]).attrs.is_sorted(),
        node_keys(post_nodes@) == node_keys(b.nodes@),
        graph_edge_keys(post_edges@) == edge_keys(b.edges@),
    ensures
        versions_ok(b.manifest),
        graph_verdict(b.nodes@, b.edges@, b.passages@, b.manifest, Ok((post_nodes, post_edges))) is None
            <==> datasheet_failure(b.nodes@, b.edges@, 0) is None && node_keys(b.nodes@).no_duplicates(),
{
    lemma_built_bundle_valid(corpus, b);
    lemma_built_keywords_valid(corpus, b);
    lemma_built_edges_distinct(corpus, b);
    let nodes = b.nodes@;
    let edges = b.edges@;
    if node_keys(nodes).no_duplicates() {
        assert(snapshot_failure(nodes, edges, post_nodes@, post_edges@) is None);
    } else {
        assert(snapshot_failure(nodes, edges, post_nodes@, post_edges@) is Some);
    }
}

proof fn lemma_entity_pending_contains(ents: Seq<Entity>, kws: Seq<(Seq<char>, Seq<char>)>, n: int, j: int, x: PendingSpec)
    requires
        0 <= j < n <= ents.len(),
        entity_edges_spec(ents[j], kws).contains(x),
    ensures
        entity_pending_upto(ents, kws, n).contains(x),
    decreases n,
{
    let prev = entity_pending_upto(ents, kws, n - 1);
    let here = entity_edges_spec(ents[n - 1], kws);
    assert(entity_pending_upto(ents, kws, n) == prev + here);
    if j < n - 1 {
        lemma_entity_pending_contains(ents, kws, n - 1, j, x);
        let m = choose|m: int| 0 <= m < prev.len() && prev[m] == x;
        assert((prev + here)[m] == x);
    } else {
        let m = choose|m: int| 0 <= m < here.len() && here[m] == x;
        assert((prev + here)[prev.len() + m] == x);
    }
}

proof fn lemma_entity_node_present(ents: Seq<Entity>, n: int, j: int)
    requires
        0 <= j < n <= ents.len(),
        creates_node(ents[j]),
    ensures
        exists|m: int| 0 <= m < entity_nodes_upto(ents, n).len() && (#[trigger] entity_nodes_upto(ents, n)[m]).id
            == ents[j].id@,
    decreases n,
{
    let prev = entity_nodes_upto(ents, n - 1);
    if j < n - 1 {
        lemma_entity_node_present(ents, n - 1, j);
        let m = choose|m: int| 0 <= m < prev.len() && (#[trigger] prev[m]).id == ents[j].id@;
        assert(entity_nodes_upto(ents, n)[m] == prev[m]);
    } else {
        assert(entity_nodes_upto(ents, n)[prev.len() as int] == entity_node_spec(ents[j], ents));
    }
}

/// The text has no line break.
spec fn one_line(s: Seq<char>) -> bool {
    forall|i: int| 0 <= i < s.len() ==> #[trigger] s[i] != '\n'
}

/// When the kind, endpoints and attribute JSON of `p` hold no line break,
/// an edge with the same dedupe key has the same kind and endpoints.
proof fn lemma_key_fields(p: PendingSpec, q: PendingSpec)
    requires
        one_line(p.kind),
        one_line(p.from),
        one_line(p.to),
        one_line(attrs_json(p.attrs)),
        dedupe_key(q) == dedupe_key(p),
    ensures
        q.kind == p.kind,
        q.from == p.from,
        q.to == p.to,
{
    let nl = seq!['\n'];
    let pk = dedupe_key(p);
    let a = p.kind.len() as int;
    let b = a + 1 + p.from.len();
    let c = b + 1 + p.to.len();
    let a2 = q.kind.len() as int;
    let b2 = a2 + 1 + q.from.len();
    let c2 = b2 + 1 + q.to.len();
    let j = attrs_json(p.attrs);
    assert(pk =~= p.kind + nl + p.from + nl + p.to + nl + j);
    assert forall|x: int| 0 <= x < pk.len() && #[trigger] pk[x] == '\n' implies x == a || x == b || x == c by {
        if x < a {
            assert(pk[x] == p.kind[x]);
        } else if a < x < b {
            assert(pk[x] == p.from[x - a - 1]);
        } else if b < x < c {
            assert(pk[x] == p.to[x - b - 1]);
        } else if x > c {
            assert(pk[x] == j[x - c - 1]);
        }
    }
    let qk = dedupe_key(q);
    let j2 = attrs_json(q.attrs);
    assert(qk =~= q.kind + nl + q.from + nl + q.to + nl + j2);
    assert(qk[a2] == '\n' && qk[b2] == '\n' && qk[c2] == '\n');
    assert(pk[a2] == '\n' && pk[b2] == '\n' && pk[c2] == '\n');
    assert(a2 == a && b2 == b && c2 == c);
    assert(q.kind =~= qk.take(a));
    assert(p.kind =~= pk.take(a));
    assert(q.from =~= qk.subrange(a + 1, b));
    assert(p.from =~= pk.subrange(a + 1, b));
    assert(q.to =~= qk.subrange(b + 1, c));
    assert(p.to =~= pk.subrange(b + 1, c));
}

/// A pending edge without attributes that an entity produces is among the
/// built edges when both its ends are nodes and neither its kind nor its ends
/// hold a line break.
proof fn lemma_entity_edge_built(corpus: Corpus, b: GraphBundle, j: int, p: PendingSpec)
    requires
        built_from(corpus, b),
        0 <= j < corpus.entities@.len(),
        entity_edges_spec(
            corpus.entities@[j],
            keywords_upto(corpus.entities@, corpus.entities@.len() as int),
        ).contains(p),
        p.attrs == Map::<Seq<char>, AttrValueView>::empty(),
        has_node_id(b.nodes@, p.from),
        has_node_id(b.nodes@, p.to),
        one_line(p.kind),
        one_line(p.from),
        one_line(p.to),
    ensures
        exists|k: int|
            0 <= k < b.edges@.len() && #[trigger] b.edges@[k].kind@ == p.kind && b.edges@[k].from@ == p.from
                && b.edges@[k].to@ == p.to,
{
    let ents = corpus.entities@;
    let n = ents.len() as int;
    let kws = keywords_upto(ents, n);
    lemma_entity_pending_contains(ents, kws, n, j, p);
    let gs = groups_upto(ents, n);
    let ep = entity_pending_upto(ents, kws, n);
    let ps = graph_pending_spec(ents);
    assert(ps == ep + group_pending_upto(ents, gs, gs.len() as int));
    let m = choose|m: int| 0 <= m < ep.len() && ep[m] == p;
    assert(ps[m] == p);
    let kept = kept_edges(b.nodes@, ps);
    lemma_kept_complete(b.nodes@, ps);
    assert(has_key(kept, dedupe_key(ps[m])));
    let k = choose|k: int| 0 <= k < kept.len() && #[trigger] dedupe_key(kept[k]) == dedupe_key(p);
    let e0 = Seq::<(Seq<char>, AttrValueView)>::empty();
    assert(entries_map(e0) =~= Map::<Seq<char>, AttrValueView>::empty());
    lemma_sorted_entries(e0);
    assert(e0.map_values(|x: (Seq<char>, AttrValueView)| crate::graph::attrs::entry_json(x)) =~= Seq::<
        Seq<char>,
    >::empty());
    assert(attrs_json(p.attrs) =~= seq!['{', '}']);
    lemma_key_fields(p, kept[k]);
    assert(edge_views(b.edges@).len() == b.edges@.len());
    assert(edge_views(b.edges@)[k] == edge_of(kept[k]));
    assert(b.edges@[k].kind@ == p.kind);
}

/// The entity of row `j` is a node of the bundle when its table makes nodes.
proof fn lemma_entity_is_node(corpus: Corpus, b: GraphBundle, j: int)
    requires
        built_from(corpus, b),
        0 <= j < corpus.entities@.len(),
        creates_node(corpus.entities@[j]),
    ensures
        has_node_id(b.nodes@, corpus.entities@[j].id@),
{
    let ents = corpus.entities@;
    let n = ents.len() as int;
    let e = ents[j];
    lemma_entity_node_present(ents, n, j);
    let en = entity_nodes_upto(ents, n);
    let idx = choose|idx: int| 0 <= idx < en.len() && (#[trigger] en[idx]).id == e.id@;
    let wn = groups_upto(ents, n).map_values(|g: GroupSpec| wargear_node_spec(ents, g));
    let kn = keywords_upto(ents, n).map_values(|k: (Seq<char>, Seq<char>)| keyword_node_spec(k));
    assert(graph_nodes_spec(ents) == en + wn + kn);
    assert((en + wn + kn)[idx] == en[idx]);
    assert(node_views(b.nodes@).len() == b.nodes@.len());
    assert(idx < b.nodes@.len());
    assert(node_views(b.nodes@)[idx] == node_view(b.nodes@[idx]));
    assert(b.nodes@[idx].id@ == e.id@);
}

/// Every stratagem whose `detachment_id` names a node of the bundle is joined
/// to that detachment by a `DETACHMENT_HAS_STRATAGEM` edge from the
/// detachment to the stratagem, when neither id holds a line break.
#[verifier::spinoff_prover]
pub proof fn lemma_stratagem_detachment_edge(corpus: Corpus, b: GraphBundle, j: int, d: Seq<char>)
    requires
        built_from(corpus, b),
        0 <= j < corpus.entities@.len(),
        corpus.entities@[j].table@ == "stratagem"@,
        ref_spec(corpus.entities@[j], "detachment_id"@) == Some(d),
        has_node_id(b.nodes@, d),
        forall|i: int| 0 <= i < d.len() ==> #[trigger] d[i] != '\n',
        forall|i: int| 0 <= i < corpus.entities@[j].id@.len() ==> #[trigger] corpus.entities@[j].id@[i] != '\n',
    ensures
        exists|k: int|
            0 <= k < b.edges@.len() && #[trigger] b.edges@[k].kind@ == "DETACHMENT_HAS_STRATAGEM"@
                && b.edges@[k].from@ == d && b.edges@[k].to@ == corpus.entities@[j].id@,
{
    lemma_parent_edge_built(corpus, b, j, "detachment_id"@, "DETACHMENT_HAS_STRATAGEM"@, d);
}

/// The references that join an entity to the faction or detachment it
/// names: its table, the reference column, and the kind of the edge, which
/// runs from the named entity to the entity.
pub open spec fn parent_ref_edge(table: Seq<char>, column: Seq<char>, kind: Seq<char>) -> bool {
    ||| table == "datasheet"@ && column == "faction_id"@ && kind == "FACTION_HAS_DATASHEET"@
    ||| table == "stratagem"@ && column == "faction_id"@ && kind == "FACTION_HAS_STRATAGEM"@
    ||| table == "stratagem"@ && column == "detachment_id"@ && kind == "DETACHMENT_HAS_STRATAGEM"@
    ||| table == "ability"@ && column == "faction_id"@ && kind == "FACTION_HAS_ABILITY"@
    ||| table == "enhancement"@ && column == "faction_id"@ && kind == "FACTION_HAS_ENHANCEMENT"@
    ||| table == "enhancement"@ && column == "detachment_id"@ && kind == "DETACHMENT_HAS_ENHANCEMENT"@
    ||| table == "detachment"@ && column == "faction_id"@ && kind == "FACTION_HAS_DETACHMENT"@
    ||| table == "detachment_ability"@ && column == "faction_id"@ && kind == "FACTION_HAS_DETACHMENT_ABILITY"@
    ||| table == "detachment_ability"@ && column == "detachment_id"@ && kind == "DETACHMENT_HAS_ABILITY"@
}

proof fn lemma_parent_ref_pending(
    e: Entity,
    kws: Seq<(Seq<char>, Seq<char>)>,
    column: Seq<char>,
    kind: Seq<char>,
    r: Seq<char>,
)
    requires
        parent_ref_edge(e.table@, column, kind),
        ref_spec(e, column) == Some(r),
    ensures
        entity_edges_spec(e, kws).contains(bare_spec(kind, r, e.id@)),
        is_node_table(e.table@),
        one_line(kind),
{
    reveal_strlit("datasheet");
    reveal_strlit("stratagem");
    reveal_strlit("ability");
    reveal_strlit("enhancement");
    reveal_strlit("detachment");
    reveal_strlit("detachment_ability");
    reveal_strlit("faction_id");
    reveal_strlit("detachment_id");
    reveal_strlit("FACTION_HAS_DATASHEET");
    reveal_strlit("FACTION_HAS_STRATAGEM");
    reveal_strlit("DETACHMENT_HAS_STRATAGEM");
    reveal_strlit("FACTION_HAS_ABILITY");
    reveal_strlit("FACTION_HAS_ENHANCEMENT");
    reveal_strlit("DETACHMENT_HAS_ENHANCEMENT");
    reveal_strlit("FACTION_HAS_DETACHMENT");
    reveal_strlit("FACTION_HAS_DETACHMENT_ABILITY");
    reveal_strlit("DETACHMENT_HAS_ABILITY");
    assert("datasheet"@[0] != "stratagem"@[0]);
    assert("faction_id"@.len() != "detachment_id"@.len());
    let t = e.table@;
    let p = bare_spec(kind, r, e.id@);
    let ed = entity_edges_spec(e, kws);
    assert("datasheet"@.len() == 9 && "stratagem"@.len() == 9 && "ability"@.len() == 7);
    assert("enhancement"@.len() == 11 && "detachment"@.len() == 10 && "detachment_ability"@.len() == 18);
    if t == "datasheet"@ {
        assert(column == "faction_id"@ && kind == "FACTION_HAS_DATASHEET"@);
        let src = match ref_spec(e, "source_id"@) {
            Some(x) => seq![bare_spec("DATASHEET_FROM_SOURCE"@, e.id@, x)],
            None => Seq::<PendingSpec>::empty(),
        };
        assert(ed == seq![p] + src);
        assert(ed[0] == p);
    } else if t == "ability"@ {
        assert(column == "faction_id"@ && kind == "FACTION_HAS_ABILITY"@);
        assert(t != "datasheet"@ && t != "stratagem"@);
        assert(ed == from_ref_spec(e, kind, column));
        assert(ed[0] == p);
    } else if t == "detachment"@ {
        assert(column == "faction_id"@ && kind == "FACTION_HAS_DETACHMENT"@);
        assert(t != "datasheet"@ && t != "stratagem"@ && t != "ability"@ && t != "enhancement"@);
        assert(ed == from_ref_spec(e, kind, column));
        assert(ed[0] == p);
    } else {
        let fk = if t == "stratagem"@ {
            "FACTION_HAS_STRATAGEM"@
        } else if t == "enhancement"@ {
            "FACTION_HAS_ENHANCEMENT"@
        } else {
            "FACTION_HAS_DETACHMENT_ABILITY"@
        };
        let dk = if t == "stratagem"@ {
            "DETACHMENT_HAS_STRATAGEM"@
        } else if t == "enhancement"@ {
            "DETACHMENT_HAS_ENHANCEMENT"@
        } else {
            "DETACHMENT_HAS_ABILITY"@
        };
        let f = from_ref_spec(e, fk, "faction_id"@);
        let g = from_ref_spec(e, dk, "detachment_id"@);
        assert(ed == f + g);
        if column == "faction_id"@ {
            assert(f == seq![p]);
            assert((f + g)[0] == p);
        } else {
            assert(g == seq![p]);
            assert((f + g)[f.len() as int] == p);
        }
    }
}

/// Every reference from an entity to the faction or detachment it belongs to
/// becomes an edge: when the named entity is a node of the bundle, the built
/// edges hold an edge of the rule's kind from it to the entity, provided
/// neither id holds a line break.
#[verifier::spinoff_prover]
pub proof fn lemma_parent_edge_built(
    corpus: Corpus,
    b: GraphBundle,
    j: int,
    column: Seq<char>,
    kind: Seq<char>,
    r: Seq<char>,
)
    requires
        built_from(corpus, b),
        0 <= j < corpus.entities@.len(),
        parent_ref_edge(corpus.entities@[j].table@, column, kind),
        ref_spec(corpus.entities@[j], column) == Some(r),
        has_node_id(b.nodes@, r),
        forall|i: int| 0 <= i < r.len() ==> #[trigger] r[i] != '\n',
        forall|i: int| 0 <= i < corpus.entities@[j].id@.len() ==> #[trigger] corpus.entities@[j].id@[i] != '\n',
    ensures
        exists|k: int|
            0 <= k < b.edges@.len() && #[trigger] b.edges@[k].kind@ == kind && b.edges@[k].from@ == r
                && b.edges@[k].to@ == corpus.entities@[j].id@,
{
    let ents = corpus.entities@;
    let e = ents[j];
    let kws = keywords_upto(ents, ents.len() as int);
    lemma_parent_ref_pending(e, kws, column, kind, r);
    lemma_entity_is_node(corpus, b, j);
    lemma_entity_edge_built(corpus, b, j, bare_spec(kind, r, e.id@));
}

/// What `build` reports of a bundle, under `label`.
pub fn summary_from(graph: &GraphBundle, label: &str) -> (s: Summary)
    ensures
        s.bundle@ == label@,
        s.format_version == graph.manifest.format_version,
        s.nodes == graph.nodes@.len(),
        s.edges == graph.edges@.len(),
        s.passages == graph.passages@.len(),
        s.corpus_fingerprint@ == graph.manifest.corpus_fingerprint@,
{
    Summary {
        bundle: copy_str(label),
        format_version: graph.manifest.format_version,
        nodes: graph.nodes.len(),
        edges: graph.edges.len(),
        passages: graph.passages.len(),
        corpus_fingerprint: copy_str(graph.manifest.corpus_fingerprint.as_str()),
    }
}

/// Checks a built bundle against the graph rules, with the snapshot as it
/// decodes after encoding, and reports it under `label`.
pub fn check_built(graph: &GraphBundle, snapshot: &Snapshot, label: &str) -> (r: Result<Summary, GraphError>)
    ensures
        match r {
            Ok(s) => graph_verdict(graph.nodes@, graph.edges@, graph.passages@, graph.manifest, *snapshot) is None
                && s.bundle@ == label@ && s.nodes == graph.nodes@.len() && s.edges == graph.edges@.len()
                && s.passages == graph.passages@.len() && s.format_version == graph.manifest.format_version
                && s.corpus_fingerprint@ == graph.manifest.corpus_fingerprint@,
            Err(e) => graph_verdict(graph.nodes@, graph.edges@, graph.passages@, graph.manifest, *snapshot) == Some(
                e@,
            ),
        },
{
    check_graph(&graph.nodes, &graph.edges, &graph.passages, &graph.manifest, snapshot)?;
    Ok(summary_from(graph, label))
}

proof fn lemma_same_ids_same_kept(n1: Seq<GraphNode>, n2: Seq<GraphNode>, ps: Seq<PendingSpec>)
    requires
        node_views(n1) == node_views(n2),
    ensures
        kept_edges(n1, ps) == kept_edges(n2, ps),
    decreases ps.len(),
{
    assert forall|id: Seq<char>| has_node_id(n1, id) == has_node_id(n2, id) by {
        assert(node_views(n1).len() == n1.len() && node_views(n2).len() == n2.len());
        if has_node_id(n1, id) {
            let i = choose|i: int| 0 <= i < n1.len() && #[trigger] n1[i].id@ == id;
            assert(node_views(n1)[i].id == node_views(n2)[i].id);
            assert(n2[i].id@ == id);
        }
        if has_node_id(n2, id) {
            let i = choose|i: int| 0 <= i < n2.len() && #[trigger] n2[i].id@ == id;
            assert(node_views(n1)[i].id == node_views(n2)[i].id);
            assert(n1[i].id@ == id);
        }
    }
    if ps.len() > 0 {
        lemma_same_ids_same_kept(n1, n2, ps.drop_last());
    }
}

/// Building is deterministic: two bundles built from the same corpus hold
/// the same nodes, edges, passages and manifest values.
pub proof fn lemma_build_deterministic(corpus: Corpus, b1: GraphBundle, b2: GraphBundle)
    requires
        built_from(corpus, b1),
        built_from(corpus, b2),
    ensures
        node_views(b1.nodes@) == node_views(b2.nodes@),
        edge_views(b1.edges@) == edge_views(b2.edges@),
        b1.passages@.len() == b2.passages@.len(),
        forall|i: int|
            0 <= i < b1.passages@.len() ==> (#[trigger] b1.passages@[i]).node_id@ == b2.passages@[i].node_id@
                && b1.passages@[i].title@ == b2.passages@[i].title@ && b1.passages@[i].text@
                == b2.passages@[i].text@ && opt_view(b1.passages@[i].wahapedia_link) == opt_view(
                b2.passages@[i].wahapedia_link,
            ),
        b1.manifest.node_count == b2.manifest.node_count,
        b1.manifest.edge_count == b2.manifest.edge_count,
        b1.manifest.passage_count == b2.manifest.passage_count,
        b1.manifest.node_counts_by_kind@ == b2.manifest.node_counts_by_kind@,
        b1.manifest.edge_counts_by_kind@ == b2.manifest.edge_counts_by_kind@,
{
    let ps = graph_pending_spec(corpus.entities@);
    lemma_same_ids_same_kept(b1.nodes@, b2.nodes@, ps);
    assert(node_views(b1.nodes@).len() == b1.nodes@.len());
    assert(node_views(b2.nodes@).len() == b2.nodes@.len());
    assert forall|i: int| 0 <= i < b1.passages@.len() implies (#[trigger] b1.passages@[i]).node_id@
        == b2.passages@[i].node_id@ && b1.passages@[i].title@ == b2.passages@[i].title@ && b1.passages@[i].text@
        == b2.passages@[i].text@ && opt_view(b1.passages@[i].wahapedia_link) == opt_view(
        b2.passages@[i].wahapedia_link,
    ) by {
        assert(passage_matches(b1.nodes@[i], b1.passages@[i]));
        assert(passage_matches(b2.nodes@[i], b2.passages@[i]));
        assert(node_views(b1.nodes@)[i] == node_views(b2.nodes@)[i]);
    }
    assert(node_kinds(b1.nodes@) =~= node_kinds(b2.nodes@)) by {
        assert forall|i: int| 0 <= i < b1.nodes@.len() implies node_kinds(b1.nodes@)[i] == node_kinds(b2.nodes@)[i] by {
            assert(node_views(b1.nodes@)[i] == node_views(b2.nodes@)[i]);
        }
    }
    assert(edge_views(b1.edges@).len() == b1.edges@.len());
    assert(edge_views(b2.edges@).len() == b2.edges@.len());
    assert(edge_kinds(b1.edges@) =~= edge_kinds(b2.edges@)) by {
        assert forall|i: int| 0 <= i < b1.edges@.len() implies edge_kinds(b1.edges@)[i] == edge_kinds(b2.edges@)[i] by {
            assert(edge_views(b1.edges@)[i] == edge_views(b2.edges@)[i]);
        }
    }
}

} // verus!
