//! The graph rules that a bundle must meet, checked both after a build and
//! when an existing bundle is validated.

use vstd::prelude::*;
use vstd::hash_map::StringHashMap;

use crate::graph::attrs::AttrValueView;
use crate::graph::error::{colon_join, GraphError, GraphErrorView};
use crate::graph::keysets::{edge_key_set, edge_key_string, edge_key_text, node_key_set, node_key_string, node_key_text};
use crate::graph::lookup::node_id_set;
use crate::graph::model::{
    BundleManifest, EdgePayload, EdgeRecord, GraphEdge, GraphNode, NodePayload, Passage, edge_kinds,
    edge_payload, edge_payload_spec, edge_payload_view, graph_edge_payload,
    graph_edge_payload_spec, kind_counts, node_kinds, node_payload,
    node_payload_spec, node_payload_view, opt_eq, opt_view, count_edge_kinds, count_node_kinds,
};
use crate::text::{append_str, chars_eq, chars_of, copy_str, str_eq, string_of};

verus! {

/// Whether some node has id `id`.
pub open spec fn has_node_id(nodes: Seq<GraphNode>, id: Seq<char>) -> bool {
    exists|i: int| 0 <= i < nodes.len() && #[trigger] nodes[i].id@ == id
}

/// The message for an edge endpoint that is not a node id.
pub open spec fn endpoint_message(endpoint: Seq<char>, edge_id: Seq<char>) -> Seq<char> {
    colon_join(endpoint, "edge endpoint is not a node id ("@ + edge_id + ")"@)
}

/// The first edge from `i` on with an endpoint that is not a node id.
pub open spec fn endpoint_failure(nodes: Seq<GraphNode>, edges: Seq<EdgeRecord>, i: int) -> Option<Seq<char>>
    decreases edges.len() - i,
{
    if i < 0 || i >= edges.len() {
        None
    } else if !has_node_id(nodes, edges[i].from@) {
        Some(endpoint_message(edges[i].from@, edges[i].id@))
    } else if !has_node_id(nodes, edges[i].to@) {
        Some(endpoint_message(edges[i].to@, edges[i].id@))
    } else {
        endpoint_failure(nodes, edges, i + 1)
    }
}

/// Edges of kind `FACTION_HAS_DATASHEET` that end at `id`.
pub open spec fn faction_edges_into(edges: Seq<EdgeRecord>, id: Seq<char>) -> Seq<EdgeRecord> {
    edges.filter(|e: EdgeRecord| e.kind@ == "FACTION_HAS_DATASHEET"@ && e.to@ == id)
}

/// The first `Datasheet` node from `i` on that is not the target of exactly
/// one `FACTION_HAS_DATASHEET` edge.
pub open spec fn datasheet_failure(nodes: Seq<GraphNode>, edges: Seq<EdgeRecord>, i: int) -> Option<Seq<char>>
    decreases nodes.len() - i,
{
    if i < 0 || i >= nodes.len() {
        None
    } else if nodes[i].kind@ == "Datasheet"@ && faction_edges_into(edges, nodes[i].id@).len() != 1 {
        Some(
            colon_join(
                nodes[i].id@,
                "Datasheet must be the target of exactly one FACTION_HAS_DATASHEET edge"@,
            ),
        )
    } else {
        datasheet_failure(nodes, edges, i + 1)
    }
}

/// The string stored at `key` in an attribute map, if it holds a string.
pub open spec fn attr_text(m: Map<Seq<char>, AttrValueView>, key: Seq<char>) -> Option<Seq<char>> {
    if m.contains_key(key) {
        match m[key] {
            AttrValueView::Text(t) => Some(t),
            AttrValueView::List(_) => None,
        }
    } else {
        None
    }
}

/// The first `Keyword` node from `i` on that lacks `attrs.normalized` or
/// repeats one already in `seen`.
pub open spec fn keyword_failure(nodes: Seq<GraphNode>, i: int, seen: Set<Seq<char>>) -> Option<Seq<char>>
    decreases nodes.len() - i,
{
    if i < 0 || i >= nodes.len() {
        None
    } else if nodes[i].kind@ == "Keyword"@ {
        match attr_text(nodes[i].attrs@, "normalized"@) {
            None => Some(colon_join(nodes[i].id@, "Keyword is missing attrs.normalized"@)),
            Some(key) => if seen.contains(key) {
                Some(
                    colon_join(
                        nodes[i].id@,
                        "Keyword normalized label is shared with another Keyword node"@,
                    ),
                )
            } else {
                keyword_failure(nodes, i + 1, seen.insert(key))
            },
        }
    } else {
        keyword_failure(nodes, i + 1, seen)
    }
}

/// The id named when a whole-bundle rule fails: the first node's, or `bundle`.
pub open spec fn first_node_id_spec(nodes: Seq<GraphNode>) -> Seq<char> {
    if nodes.len() > 0 {
        nodes[0].id@
    } else {
        "bundle"@
    }
}

/// The passage carries the node's id, label, text and source URL.
pub open spec fn passage_matches(n: GraphNode, p: Passage) -> bool {
    &&& p.node_id@ == n.id@
    &&& p.title@ == n.label@
    &&& p.text@ == n.text@
    &&& opt_view(p.wahapedia_link) == opt_view(n.source_url)
}

/// The first node from `i` on whose passage does not match it.
pub open spec fn passage_failure_from(nodes: Seq<GraphNode>, passages: Seq<Passage>, i: int) -> Option<Seq<char>>
    decreases nodes.len() - i,
{
    if i < 0 || i >= nodes.len() {
        None
    } else if !passage_matches(nodes[i], passages[i]) {
        Some(colon_join(nodes[i].id@, "passage does not match the node"@))
    } else {
        passage_failure_from(nodes, passages, i + 1)
    }
}

/// One passage per node, each matching its node.
pub open spec fn passage_failure(nodes: Seq<GraphNode>, passages: Seq<Passage>) -> Option<Seq<char>> {
    if passages.len() != nodes.len() {
        Some(colon_join(first_node_id_spec(nodes), "passage_count does not equal the node count"@))
    } else {
        passage_failure_from(nodes, passages, 0)
    }
}


/// A node payload as compared.
pub type NodeKey = (Seq<char>, Seq<char>, Seq<char>, Seq<char>, Option<Seq<char>>);

/// An edge payload as compared.
pub type EdgeKey = (Seq<char>, Seq<char>, Seq<char>, Seq<char>, Seq<char>);

/// The payloads of a list of nodes.
pub open spec fn node_keys(nodes: Seq<GraphNode>) -> Seq<NodeKey> {
    nodes.map_values(|n: GraphNode| node_payload_spec(n))
}

/// The payloads of a list of edge records.
pub open spec fn edge_keys(edges: Seq<EdgeRecord>) -> Seq<EdgeKey> {
    edges.map_values(|e: EdgeRecord| edge_payload_spec(e))
}

/// The payloads of a list of snapshot edges.
pub open spec fn graph_edge_keys(edges: Seq<GraphEdge>) -> Seq<EdgeKey> {
    edges.map_values(|e: GraphEdge| graph_edge_payload_spec(e))
}

/// The id of the first node whose payload is missing from `post`, or the
/// first node's id.
pub open spec fn first_missing_node(nodes: Seq<GraphNode>, post: Set<NodeKey>, i: int) -> Seq<char>
    decreases nodes.len() - i,
{
    if i < 0 || i >= nodes.len() {
        first_node_id_spec(nodes)
    } else if !post.contains(node_payload_spec(nodes[i])) {
        nodes[i].id@
    } else {
        first_missing_node(nodes, post, i + 1)
    }
}

/// The source of the first edge whose payload is missing from `post`, or the
/// first node's id.
pub open spec fn first_missing_edge(nodes: Seq<GraphNode>, edges: Seq<EdgeRecord>, post: Set<EdgeKey>, i: int) -> Seq<char>
    decreases edges.len() - i,
{
    if i < 0 || i >= edges.len() {
        first_node_id_spec(nodes)
    } else if !post.contains(edge_payload_spec(edges[i])) {
        edges[i].from@
    } else {
        first_missing_edge(nodes, edges, post, i + 1)
    }
}

/// The snapshot holds the same node payloads as the JSONL, none repeated in
/// the JSONL, and likewise for edges.
pub open spec fn snapshot_failure(
    nodes: Seq<GraphNode>,
    edges: Seq<EdgeRecord>,
    post_nodes: Seq<GraphNode>,
    post_edges: Seq<GraphEdge>,
) -> Option<Seq<char>> {
    let jn = node_keys(nodes);
    let pn = node_keys(post_nodes).to_set();
    let je = edge_keys(edges);
    let pe = graph_edge_keys(post_edges).to_set();
    if !jn.no_duplicates() || jn.to_set() != pn {
        Some(
            colon_join(
                first_missing_node(nodes, pn, 0),
                "postcard node payload does not match nodes.jsonl"@,
            ),
        )
    } else if !je.no_duplicates() || je.to_set() != pe {
        Some(
            colon_join(
                first_missing_edge(nodes, edges, pe, 0),
                "postcard edge payload does not match edges.jsonl"@,
            ),
        )
    } else {
        None
    }
}

/// The manifest's counts agree with the files.
pub open spec fn manifest_counts_match(
    nodes: Seq<GraphNode>,
    edges: Seq<EdgeRecord>,
    passages: Seq<Passage>,
    manifest: BundleManifest,
) -> bool {
    &&& manifest.node_count == nodes.len()
    &&& manifest.edge_count == edges.len()
    &&& manifest.passage_count == passages.len()
    &&& manifest.node_counts_by_kind@ == kind_counts(node_kinds(nodes))
    &&& manifest.edge_counts_by_kind@ == kind_counts(edge_kinds(edges))
}

/// The snapshot as decoded: its nodes and edges, or why it did not decode.
pub type Snapshot = Result<(Vec<GraphNode>, Vec<GraphEdge>), String>;

/// The message of a snapshot that did not decode.
pub open spec fn decode_message(err: Seq<char>) -> Seq<char> {
    "graph.postcard: cannot decode postcard snapshot: "@ + err
}

/// The outcome of the graph rules, taken in order: edge endpoints, datasheet
/// factions, keyword labels, passages, the snapshot, the manifest counts.
pub open spec fn graph_verdict(
    nodes: Seq<GraphNode>,
    edges: Seq<EdgeRecord>,
    passages: Seq<Passage>,
    manifest: BundleManifest,
    snapshot: Snapshot,
) -> Option<GraphErrorView> {
    if endpoint_failure(nodes, edges, 0) is Some {
        Some(GraphErrorView::Invalid(endpoint_failure(nodes, edges, 0)->0))
    } else if datasheet_failure(nodes, edges, 0) is Some {
        Some(GraphErrorView::Invalid(datasheet_failure(nodes, edges, 0)->0))
    } else if keyword_failure(nodes, 0, Set::empty()) is Some {
        Some(GraphErrorView::Invalid(keyword_failure(nodes, 0, Set::empty())->0))
    } else if passage_failure(nodes, passages) is Some {
        Some(GraphErrorView::Invalid(passage_failure(nodes, passages)->0))
    } else {
        match snapshot {
            Err(e) => Some(GraphErrorView::Read(decode_message(e@))),
            Ok((pn, pe)) => if snapshot_failure(nodes, edges, pn@, pe@) is Some {
                Some(GraphErrorView::Invalid(snapshot_failure(nodes, edges, pn@, pe@)->0))
            } else if !manifest_counts_match(nodes, edges, passages, manifest) {
                Some(
                    GraphErrorView::Invalid(
                        colon_join(
                            first_node_id_spec(nodes),
                            "manifest counts do not match the bundle files"@,
                        ),
                    ),
                )
            } else {
                None
            },
        }
    }
}

/// `r` fails with `Invalid(m)` exactly when `f` is `Some(m)`.
pub open spec fn reports(f: Option<Seq<char>>, r: Result<(), GraphError>) -> bool {
    match r {
        Ok(_) => f is None,
        Err(e) => f matches Some(m) && e@ == GraphErrorView::Invalid(m),
    }
}

fn check_endpoints(nodes: &Vec<GraphNode>, edges: &Vec<EdgeRecord>) -> (r: Result<(), GraphError>)
    ensures
        reports(endpoint_failure(nodes@, edges@, 0), r),
{
    let ids = node_id_set(nodes);
    let mut i: usize = 0;
    while i < edges.len()
        invariant
            i <= edges@.len(),
            forall|id: Seq<char>| #[trigger] ids@.contains(id) == has_node_id(nodes@, id),
            endpoint_failure(nodes@, edges@, 0) == endpoint_failure(nodes@, edges@, i as int),
        decreases edges@.len() - i,
    {
        let edge = &edges[i];
        let bad = if !ids.contains(edge.from.as_str()) {
            Some(edge.from.as_str())
        } else if !ids.contains(edge.to.as_str()) {
            Some(edge.to.as_str())
        } else {
            None
        };
        if let Some(endpoint) = bad {
            let mut rule = chars_of("edge endpoint is not a node id (");
            append_str(&mut rule, edge.id.as_str());
            append_str(&mut rule, ")");
            let rule = string_of(rule.as_slice());
            return Err(GraphError::invalid(endpoint, rule.as_str()));
        }
        i = i + 1;
    }
    Ok(())
}

/// The first node's id, or `bundle` when there are no nodes.
pub fn first_node_id(nodes: &Vec<GraphNode>) -> (r: &str)
    ensures
        r@ == first_node_id_spec(nodes@),
{
    if nodes.len() > 0 {
        nodes[0].id.as_str()
    } else {
        "bundle"
    }
}

/// The count stored for `id`, or 0.
pub open spec fn count_in(m: Map<Seq<char>, usize>, id: Seq<char>) -> int {
    if m.contains_key(id) {
        m[id] as int
    } else {
        0
    }
}

/// How many `FACTION_HAS_DATASHEET` edges end at each id.
fn faction_counts(edges: &Vec<EdgeRecord>) -> (m: StringHashMap<usize>)
    ensures
        forall|id: Seq<char>| #[trigger] count_in(m@, id) == faction_edges_into(edges@, id).len(),
{
    let mut m: StringHashMap<usize> = StringHashMap::new();
    let mut k: usize = 0;
    while k < edges.len()
        invariant
            k <= edges@.len(),
            forall|id: Seq<char>|
                #[trigger] count_in(m@, id) == faction_edges_into(edges@.take(k as int), id).len() && count_in(m@, id) <= k,
        decreases edges@.len() - k,
    {
        let ghost before = m@;
        let ghost t = edges@.take(k + 1);
        let ghost e = edges@[k as int];
        proof {
            assert(t.drop_last() =~= edges@.take(k as int));
            assert(t.last() == e);
        }
        let hit = str_eq(edges[k].kind.as_str(), "FACTION_HAS_DATASHEET");
        if hit {
            let c = match m.get(edges[k].to.as_str()) {
                Some(c) => *c,
                None => 0,
            };
            proof {
                assert(c == count_in(before, e.to@));
            }
            m.insert(copy_str(edges[k].to.as_str()), c + 1);
        }
        proof {
            assert forall|id: Seq<char>|
                #[trigger] count_in(m@, id) == faction_edges_into(t, id).len() && count_in(m@, id) <= k + 1 by {
                reveal_with_fuel(Seq::filter, 1);
                assert(count_in(before, id) == faction_edges_into(edges@.take(k as int), id).len());
            }
        }
        k = k + 1;
    }
    assert(edges@.take(k as int) =~= edges@);
    m
}

fn check_datasheets(nodes: &Vec<GraphNode>, edges: &Vec<EdgeRecord>) -> (r: Result<(), GraphError>)
    ensures
        reports(datasheet_failure(nodes@, edges@, 0), r),
{
    let counts = faction_counts(edges);
    let mut i: usize = 0;
    while i < nodes.len()
        invariant
            i <= nodes@.len(),
            forall|id: Seq<char>| #[trigger] count_in(counts@, id) == faction_edges_into(edges@, id).len(),
            datasheet_failure(nodes@, edges@, 0) == datasheet_failure(nodes@, edges@, i as int),
        decreases nodes@.len() - i,
    {
        let into = match counts.get(nodes[i].id.as_str()) {
            Some(c) => *c,
            None => 0,
        };
        proof {
            assert(into == count_in(counts@, nodes@[i as int].id@));
        }
        if str_eq(nodes[i].kind.as_str(), "Datasheet") && into != 1 {
            return Err(
                GraphError::invalid(
                    nodes[i].id.as_str(),
                    "Datasheet must be the target of exactly one FACTION_HAS_DATASHEET edge",
                ),
            );
        }
        i = i + 1;
    }
    Ok(())
}

fn contains_chars(list: &Vec<Vec<char>>, k: &Vec<char>) -> (r: bool)
    ensures
        r == exists|j: int| 0 <= j < list@.len() && #[trigger] list@[j]@ == k@,
{
    let mut j: usize = 0;
    while j < list.len()
        invariant
            j <= list@.len(),
            forall|m: int| 0 <= m < j ==> #[trigger] list@[m]@ != k@,
        decreases list@.len() - j,
    {
        if chars_eq(&list[j], k) {
            return true;
        }
        j = j + 1;
    }
    false
}

fn check_keywords(nodes: &Vec<GraphNode>) -> (r: Result<(), GraphError>)
    ensures
        reports(keyword_failure(nodes@, 0, Set::empty()), r),
{
    let mut seen: Vec<Vec<char>> = Vec::new();
    let ghost mut seen_set: Set<Seq<char>> = Set::empty();
    let mut i: usize = 0;
    while i < nodes.len()
        invariant
            i <= nodes@.len(),
            keyword_failure(nodes@, 0, Set::empty()) == keyword_failure(nodes@, i as int, seen_set),
            forall|x: Seq<char>| seen_set.contains(x) <==> exists|j: int| 0 <= j < seen@.len() && #[trigger] seen@[j]@ == x,
        decreases nodes@.len() - i,
    {
        if str_eq(nodes[i].kind.as_str(), "Keyword") {
            match nodes[i].attrs.text("normalized") {
                None => {
                    return Err(GraphError::invalid(nodes[i].id.as_str(), "Keyword is missing attrs.normalized"));
                },
                Some(key) => {
                    let k = chars_of(key);
                    if contains_chars(&seen, &k) {
                        return Err(
                            GraphError::invalid(
                                nodes[i].id.as_str(),
                                "Keyword normalized label is shared with another Keyword node",
                            ),
                        );
                    }
                    let ghost before = seen@;
                    proof {
                        seen_set = seen_set.insert(k@);
                    }
                    seen.push(k);
                    proof {
                        assert forall|x: Seq<char>| seen_set.contains(x) <==> exists|j: int| 0 <= j < seen@.len() && #[trigger] seen@[j]@ == x by {
                            if x == k@ {
                                assert(seen@[seen@.len() - 1]@ == x);
                            } else if seen_set.contains(x) {
                                let j = choose|j: int| 0 <= j < before.len() && #[trigger] before[j]@ == x;
                                assert(seen@[j]@ == x);
                            } else if exists|j: int| 0 <= j < seen@.len() && #[trigger] seen@[j]@ == x {
                                let j = choose|j: int| 0 <= j < seen@.len() && #[trigger] seen@[j]@ == x;
                                assert(before[j]@ == x);
                            }
                        }
                    }
                },
            }
        }
        i = i + 1;
    }
    Ok(())
}


fn check_passages(nodes: &Vec<GraphNode>, passages: &Vec<Passage>) -> (r: Result<(), GraphError>)
    ensures
        reports(passage_failure(nodes@, passages@), r),
{
    if passages.len() != nodes.len() {
        return Err(GraphError::invalid(first_node_id(nodes), "passage_count does not equal the node count"));
    }
    let mut i: usize = 0;
    while i < nodes.len()
        invariant
            i <= nodes@.len(),
            passages@.len() == nodes@.len(),
            passage_failure_from(nodes@, passages@, 0) == passage_failure_from(nodes@, passages@, i as int),
        decreases nodes@.len() - i,
    {
        let node = &nodes[i];
        let passage = &passages[i];
        if !str_eq(passage.node_id.as_str(), node.id.as_str()) || !str_eq(passage.title.as_str(), node.label.as_str())
            || !str_eq(passage.text.as_str(), node.text.as_str()) || !opt_eq(&passage.wahapedia_link, &node.source_url)
        {
            return Err(GraphError::invalid(node.id.as_str(), "passage does not match the node"));
        }
        i = i + 1;
    }
    Ok(())
}

/// The payload views of a list of exec node payloads.
pub open spec fn node_payload_views(v: Seq<NodePayload>) -> Seq<NodeKey> {
    v.map_values(|p: NodePayload| node_payload_view(p))
}

/// The payload views of a list of exec edge payloads.
pub open spec fn edge_payload_views(v: Seq<EdgePayload>) -> Seq<EdgeKey> {
    v.map_values(|p: EdgePayload| edge_payload_view(p))
}

pub(crate) fn node_payloads(nodes: &Vec<GraphNode>) -> (r: Vec<NodePayload>)
    ensures
        node_payload_views(r@) == node_keys(nodes@),
{
    let mut r: Vec<NodePayload> = Vec::new();
    let mut i: usize = 0;
    while i < nodes.len()
        invariant
            i <= nodes@.len(),
            node_payload_views(r@) == node_keys(nodes@.take(i as int)),
            r@.len() == i,
        decreases nodes@.len() - i,
    {
        let ghost before = r@;
        r.push(node_payload(&nodes[i]));
        proof {
            assert(nodes@.take(i + 1) =~= nodes@.take(i as int).push(nodes@[i as int]));
            assert(r@ =~= before.push(r@[i as int]));
            assert(node_payload_views(r@) =~= node_payload_views(before).push(node_payload_views(r@)[i as int]));
        }
        i = i + 1;
        assert(node_payload_views(r@) =~= node_keys(nodes@.take(i as int)));
    }
    assert(nodes@.take(i as int) =~= nodes@);
    r
}

pub(crate) fn edge_payloads(edges: &Vec<EdgeRecord>) -> (r: Vec<EdgePayload>)
    ensures
        edge_payload_views(r@) == edge_keys(edges@),
{
    let mut r: Vec<EdgePayload> = Vec::new();
    let mut i: usize = 0;
    while i < edges.len()
        invariant
            i <= edges@.len(),
            edge_payload_views(r@) == edge_keys(edges@.take(i as int)),
            r@.len() == i,
        decreases edges@.len() - i,
    {
        let ghost before = r@;
        r.push(edge_payload(&edges[i]));
        proof {
            assert(edges@.take(i + 1) =~= edges@.take(i as int).push(edges@[i as int]));
            assert(r@ =~= before.push(r@[i as int]));
            assert(edge_payload_views(r@) =~= edge_payload_views(before).push(edge_payload_views(r@)[i as int]));
        }
        i = i + 1;
        assert(edge_payload_views(r@) =~= edge_keys(edges@.take(i as int)));
    }
    assert(edges@.take(i as int) =~= edges@);
    r
}

pub(crate) fn graph_edge_payloads(edges: &Vec<GraphEdge>) -> (r: Vec<EdgePayload>)
    ensures
        edge_payload_views(r@) == graph_edge_keys(edges@),
{
    let mut r: Vec<EdgePayload> = Vec::new();
    let mut i: usize = 0;
    while i < edges.len()
        invariant
            i <= edges@.len(),
            edge_payload_views(r@) == graph_edge_keys(edges@.take(i as int)),
            r@.len() == i,
        decreases edges@.len() - i,
    {
        let ghost before = r@;
        r.push(graph_edge_payload(&edges[i]));
        proof {
            assert(edges@.take(i + 1) =~= edges@.take(i as int).push(edges@[i as int]));
            assert(r@ =~= before.push(r@[i as int]));
            assert(edge_payload_views(r@) =~= edge_payload_views(before).push(edge_payload_views(r@)[i as int]));
        }
        i = i + 1;
        assert(edge_payload_views(r@) =~= graph_edge_keys(edges@.take(i as int)));
    }
    assert(edges@.take(i as int) =~= edges@);
    r
}

/// Whether no payload of `a` repeats, and every payload of `a` is in `b`
/// and back.
fn same_node_payloads(a: &Vec<NodePayload>, b: &Vec<NodePayload>) -> (r: bool)
    ensures
        r == (node_payload_views(a@).no_duplicates() && node_payload_views(a@).to_set()
            == node_payload_views(b@).to_set()),
{
    let ghost av = node_payload_views(a@);
    let ghost bv = node_payload_views(b@);
    let (sa, _, distinct) = node_key_set(a);
    if !distinct {
        return false;
    }
    let (sb, _, _) = node_key_set(b);
    let mut i: usize = 0;
    while i < a.len()
        invariant
            i <= a@.len(),
            av == node_payload_views(a@),
            bv == node_payload_views(b@),
            forall|x: NodeKey| #[trigger] sb@.contains(node_key_text(x)) == bv.contains(x),
            forall|x: int| 0 <= x < i ==> bv.contains(#[trigger] av[x]),
        decreases a@.len() - i,
    {
        if !sb.contains(node_key_string(&a[i]).as_str()) {
            proof {
                assert(sb@.contains(node_key_text(av[i as int])) == bv.contains(av[i as int]));
                assert(av.to_set().contains(av[i as int]));
            }
            return false;
        }
        proof {
            assert(sb@.contains(node_key_text(av[i as int])) == bv.contains(av[i as int]));
        }
        i = i + 1;
    }
    let mut k: usize = 0;
    while k < b.len()
        invariant
            k <= b@.len(),
            av == node_payload_views(a@),
            bv == node_payload_views(b@),
            forall|x: NodeKey| #[trigger] sa@.contains(node_key_text(x)) == av.contains(x),
            forall|x: int| 0 <= x < a@.len() ==> bv.contains(#[trigger] av[x]),
            forall|x: int| 0 <= x < k ==> av.contains(#[trigger] bv[x]),
        decreases b@.len() - k,
    {
        if !sa.contains(node_key_string(&b[k]).as_str()) {
            proof {
                assert(sa@.contains(node_key_text(bv[k as int])) == av.contains(bv[k as int]));
                assert(bv.to_set().contains(bv[k as int]));
            }
            return false;
        }
        proof {
            assert(sa@.contains(node_key_text(bv[k as int])) == av.contains(bv[k as int]));
        }
        k = k + 1;
    }
    proof {
        assert forall|q: NodeKey| av.to_set().contains(q) == bv.to_set().contains(q) by {
            if av.contains(q) {
                let x = choose|x: int| 0 <= x < av.len() && av[x] == q;
            }
            if bv.contains(q) {
                let x = choose|x: int| 0 <= x < bv.len() && bv[x] == q;
            }
        }
        assert(av.to_set() =~= bv.to_set());
    }
    true
}

/// Whether no payload of `a` repeats, and every payload of `a` is in `b`
/// and back.
fn same_edge_payloads(a: &Vec<EdgePayload>, b: &Vec<EdgePayload>) -> (r: bool)
    ensures
        r == (edge_payload_views(a@).no_duplicates() && edge_payload_views(a@).to_set()
            == edge_payload_views(b@).to_set()),
{
    let ghost av = edge_payload_views(a@);
    let ghost bv = edge_payload_views(b@);
    let (sa, _, distinct) = edge_key_set(a);
    if !distinct {
        return false;
    }
    let (sb, _, _) = edge_key_set(b);
    let mut i: usize = 0;
    while i < a.len()
        invariant
            i <= a@.len(),
            av == edge_payload_views(a@),
            bv == edge_payload_views(b@),
            forall|x: EdgeKey| #[trigger] sb@.contains(edge_key_text(x)) == bv.contains(x),
            forall|x: int| 0 <= x < i ==> bv.contains(#[trigger] av[x]),
        decreases a@.len() - i,
    {
        if !sb.contains(edge_key_string(&a[i]).as_str()) {
            proof {
                assert(sb@.contains(edge_key_text(av[i as int])) == bv.contains(av[i as int]));
                assert(av.to_set().contains(av[i as int]));
            }
            return false;
        }
        proof {
            assert(sb@.contains(edge_key_text(av[i as int])) == bv.contains(av[i as int]));
        }
        i = i + 1;
    }
    let mut k: usize = 0;
    while k < b.len()
        invariant
            k <= b@.len(),
            av == edge_payload_views(a@),
            bv == edge_payload_views(b@),
            forall|x: EdgeKey| #[trigger] sa@.contains(edge_key_text(x)) == av.contains(x),
            forall|x: int| 0 <= x < a@.len() ==> bv.contains(#[trigger] av[x]),
            forall|x: int| 0 <= x < k ==> av.contains(#[trigger] bv[x]),
        decreases b@.len() - k,
    {
        if !sa.contains(edge_key_string(&b[k]).as_str()) {
            proof {
                assert(sa@.contains(edge_key_text(bv[k as int])) == av.contains(bv[k as int]));
                assert(bv.to_set().contains(bv[k as int]));
            }
            return false;
        }
        proof {
            assert(sa@.contains(edge_key_text(bv[k as int])) == av.contains(bv[k as int]));
        }
        k = k + 1;
    }
    proof {
        assert forall|q: EdgeKey| av.to_set().contains(q) == bv.to_set().contains(q) by {
            if av.contains(q) {
                let x = choose|x: int| 0 <= x < av.len() && av[x] == q;
            }
            if bv.contains(q) {
                let x = choose|x: int| 0 <= x < bv.len() && bv[x] == q;
            }
        }
        assert(av.to_set() =~= bv.to_set());
    }
    true
}

fn missing_node_id<'a>(nodes: &'a Vec<GraphNode>, post: &Vec<NodePayload>) -> (r: &'a str)
    ensures
        r@ == first_missing_node(nodes@, node_payload_views(post@).to_set(), 0),
{
    let ghost pset = node_payload_views(post@).to_set();
    let (set, _, _) = node_key_set(post);
    let mut i: usize = 0;
    while i < nodes.len()
        invariant
            i <= nodes@.len(),
            pset == node_payload_views(post@).to_set(),
            forall|x: NodeKey| #[trigger] set@.contains(node_key_text(x)) == node_payload_views(post@).contains(x),
            first_missing_node(nodes@, pset, 0) == first_missing_node(nodes@, pset, i as int),
        decreases nodes@.len() - i,
    {
        let p = node_payload(&nodes[i]);
        proof {
            assert(set@.contains(node_key_text(node_payload_view(p))) == node_payload_views(post@).contains(
                node_payload_view(p),
            ));
        }
        if !set.contains(node_key_string(&p).as_str()) {
            return nodes[i].id.as_str();
        }
        i = i + 1;
    }
    first_node_id(nodes)
}

fn missing_edge_source<'a>(nodes: &'a Vec<GraphNode>, edges: &'a Vec<EdgeRecord>, post: &Vec<EdgePayload>) -> (r: &'a str)
    ensures
        r@ == first_missing_edge(nodes@, edges@, edge_payload_views(post@).to_set(), 0),
{
    let ghost pset = edge_payload_views(post@).to_set();
    let (set, _, _) = edge_key_set(post);
    let mut i: usize = 0;
    while i < edges.len()
        invariant
            i <= edges@.len(),
            pset == edge_payload_views(post@).to_set(),
            forall|x: EdgeKey| #[trigger] set@.contains(edge_key_text(x)) == edge_payload_views(post@).contains(x),
            first_missing_edge(nodes@, edges@, pset, 0) == first_missing_edge(nodes@, edges@, pset, i as int),
        decreases edges@.len() - i,
    {
        let p = edge_payload(&edges[i]);
        proof {
            assert(set@.contains(edge_key_text(edge_payload_view(p))) == edge_payload_views(post@).contains(
                edge_payload_view(p),
            ));
        }
        if !set.contains(edge_key_string(&p).as_str()) {
            return edges[i].from.as_str();
        }
        i = i + 1;
    }
    first_node_id(nodes)
}

/// Compares the snapshot's payloads with the JSONL records.
pub fn compare_postcard(
    nodes: &Vec<GraphNode>,
    edges: &Vec<EdgeRecord>,
    post_nodes: &Vec<GraphNode>,
    post_edges: &Vec<GraphEdge>,
) -> (r: Result<(), GraphError>)
    ensures
        reports(snapshot_failure(nodes@, edges@, post_nodes@, post_edges@), r),
{
    let json_nodes = node_payloads(nodes);
    let post = node_payloads(post_nodes);
    if !same_node_payloads(&json_nodes, &post) {
        return Err(
            GraphError::invalid(
                missing_node_id(nodes, &post),
                "postcard node payload does not match nodes.jsonl",
            ),
        );
    }
    let json_edges = edge_payloads(edges);
    let post_e = graph_edge_payloads(post_edges);
    if !same_edge_payloads(&json_edges, &post_e) {
        return Err(
            GraphError::invalid(
                missing_edge_source(nodes, edges, &post_e),
                "postcard edge payload does not match edges.jsonl",
            ),
        );
    }
    Ok(())
}

fn manifest_matches(
    nodes: &Vec<GraphNode>,
    edges: &Vec<EdgeRecord>,
    passages: &Vec<Passage>,
    manifest: &BundleManifest,
) -> (r: bool)
    ensures
        r == manifest_counts_match(nodes@, edges@, passages@, *manifest),
{
    manifest.node_count == nodes.len() && manifest.edge_count == edges.len() && manifest.passage_count
        == passages.len() && manifest.node_counts_by_kind.same_as(&count_node_kinds(nodes))
        && manifest.edge_counts_by_kind.same_as(&count_edge_kinds(edges))
}

/// Checks the graph rules in order and reports the first that fails.
pub fn check_graph(
    nodes: &Vec<GraphNode>,
    edges: &Vec<EdgeRecord>,
    passages: &Vec<Passage>,
    manifest: &BundleManifest,
    snapshot: &Snapshot,
) -> (r: Result<(), GraphError>)
    ensures
        match r {
            Ok(_) => graph_verdict(nodes@, edges@, passages@, *manifest, *snapshot) is None,
            Err(e) => graph_verdict(nodes@, edges@, passages@, *manifest, *snapshot) == Some(e@),
        },
{
    check_endpoints(nodes, edges)?;
    check_datasheets(nodes, edges)?;
    check_keywords(nodes)?;
    check_passages(nodes, passages)?;
    match snapshot {
        Err(err) => {
            let mut m = chars_of("graph.postcard: cannot decode postcard snapshot: ");
            append_str(&mut m, err.as_str());
            Err(GraphError::Read(string_of(m.as_slice())))
        },
        Ok((post_nodes, post_edges)) => {
            compare_postcard(nodes, edges, post_nodes, post_edges)?;
            if !manifest_matches(nodes, edges, passages, manifest) {
                return Err(GraphError::invalid(first_node_id(nodes), "manifest counts do not match the bundle files"));
            }
            Ok(())
        },
    }
}

/// `name is not 1 (found n)`.
pub open spec fn version_message(name: Seq<char>, n: nat) -> Seq<char> {
    name + " is not 1 (found "@ + crate::text::decimal_spec(n) + ")"@
}

/// The bundle's `format_version` and `corpus_schema_version` are both 1.
pub open spec fn versions_ok(manifest: BundleManifest) -> bool {
    manifest.format_version == 1 && manifest.corpus_schema_version == 1
}

/// Rejects a manifest whose versions are not 1; `manifest_path` names the
/// file in the message.
pub fn check_versions(manifest: &BundleManifest, manifest_path: &str) -> (r: Result<(), GraphError>)
    ensures
        r is Ok <==> versions_ok(*manifest),
        r matches Err(e) ==> e@ == GraphErrorView::Read(
            colon_join(
                manifest_path@,
                if manifest.format_version != 1 {
                    version_message("format_version"@, manifest.format_version as nat)
                } else {
                    version_message("corpus_schema_version"@, manifest.corpus_schema_version as nat)
                },
            ),
        ),
{
    if manifest.format_version != 1 {
        let mut m = chars_of("format_version");
        append_str(&mut m, " is not 1 (found ");
        let n = crate::text::decimal(manifest.format_version as usize);
        append_str(&mut m, n.as_str());
        append_str(&mut m, ")");
        return Err(GraphError::read(manifest_path, string_of(m.as_slice()).as_str()));
    }
    if manifest.corpus_schema_version != 1 {
        let mut m = chars_of("corpus_schema_version");
        append_str(&mut m, " is not 1 (found ");
        let n = crate::text::decimal(manifest.corpus_schema_version as usize);
        append_str(&mut m, n.as_str());
        append_str(&mut m, ")");
        return Err(GraphError::read(manifest_path, string_of(m.as_slice()).as_str()));
    }
    Ok(())
}

/// What `build` and `validate` print.
#[derive(Debug)]
pub struct Summary {
    pub bundle: String,
    pub format_version: u32,
    pub nodes: usize,
    pub edges: usize,
    pub passages: usize,
    pub corpus_fingerprint: String,
}

/// The files of a bundle as read from disk, with the snapshot as decoded.
pub struct BundleFiles {
    pub manifest: BundleManifest,
    pub nodes: Vec<GraphNode>,
    pub edges: Vec<EdgeRecord>,
    pub passages: Vec<Passage>,
    pub snapshot: Snapshot,
}

/// Validates a bundle read from disk: its versions, then the graph rules.
/// `manifest_path` names the manifest in messages; `label` names the bundle
/// in the summary.
pub fn validate_bundle(bundle: &BundleFiles, manifest_path: &str, label: &str) -> (r: Result<Summary, GraphError>)
    ensures
        match r {
            Ok(s) => versions_ok(bundle.manifest) && graph_verdict(
                bundle.nodes@,
                bundle.edges@,
                bundle.passages@,
                bundle.manifest,
                bundle.snapshot,
            ) is None && s.bundle@ == label@ && s.format_version == bundle.manifest.format_version
                && s.nodes == bundle.nodes@.len() && s.edges == bundle.edges@.len() && s.passages
                == bundle.passages@.len() && s.corpus_fingerprint@ == bundle.manifest.corpus_fingerprint@,
            Err(e) => if !versions_ok(bundle.manifest) {
                e@ == GraphErrorView::Read(
                    colon_join(
                        manifest_path@,
                        if bundle.manifest.format_version != 1 {
                            version_message("format_version"@, bundle.manifest.format_version as nat)
                        } else {
                            version_message("corpus_schema_version"@, bundle.manifest.corpus_schema_version as nat)
                        },
                    ),
                )
            } else {
                graph_verdict(
                    bundle.nodes@,
                    bundle.edges@,
                    bundle.passages@,
                    bundle.manifest,
                    bundle.snapshot,
                ) == Some(e@)
            },
        },
{
    check_versions(&bundle.manifest, manifest_path)?;
    check_graph(&bundle.nodes, &bundle.edges, &bundle.passages, &bundle.manifest, &bundle.snapshot)?;
    Ok(Summary {
        bundle: copy_str(label),
        format_version: bundle.manifest.format_version,
        nodes: bundle.nodes.len(),
        edges: bundle.edges.len(),
        passages: bundle.passages.len(),
        corpus_fingerprint: copy_str(bundle.manifest.corpus_fingerprint.as_str()),
    })
}

} // verus!
