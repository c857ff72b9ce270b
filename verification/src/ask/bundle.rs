//! A loaded bundle: the manifest, edges and passages from JSON Lines, the
//! graph's nodes (from the snapshot when it matches the JSON Lines), and the
//! hashes the embedding index is keyed by.

use vstd::prelude::*;
use vstd::hash_set::StringHashSet;
use vstd::utf8::encode_utf8;

use crate::ask::error::{AskError, AskErrorView};
use crate::foreign::{sha256_digest, sha256_spec};
use crate::graph::bundle::{
    EdgeKey, NodeKey, edge_keys, edge_payload_views, graph_edge_keys, graph_edge_payloads, node_keys,
    node_payload_views, node_payloads,
};
use crate::graph::keysets::{edge_key_set, edge_key_string, edge_key_text, node_key_set, node_key_string, node_key_text};
use crate::graph::bundle::version_message;
use crate::graph::error::colon_join;
use crate::graph::model::{
    BundleManifest, EdgeRecord, GraphEdge, GraphNode, Passage, edge_payload, edge_payload_view, node_payload,
    node_payload_view,
};
use vstd::seq_lib::seq_to_set_is_finite;
use vstd::set_lib::lemma_subset_equality;
use crate::jsonl::{first_blank_row, jsonl_rows, jsonl_rows_spec, rows_before_blank, string_views};
use crate::text::{append_str, chars_of, copy_str, decimal, decimal_spec, str_eq, string_of};

verus! {

broadcast use vstd::seq_lib::group_seq_properties;

/// A format-version-1 bundle, ready for retrieval.
pub struct LoadedBundle {
    pub manifest: BundleManifest,
    pub edges: Vec<EdgeRecord>,
    pub passages: Vec<Passage>,
    pub nodes_sha256: [u8; 32],
    pub passages_sha256: [u8; 32],
    /// The graph's nodes, in index order.
    pub nodes: Vec<GraphNode>,
}

/// The position of the last node with id `id` among the first `n`.
pub open spec fn last_node_with(nodes: Seq<GraphNode>, id: Seq<char>, n: int) -> Option<int>
    decreases n,
{
    if n <= 0 || n > nodes.len() {
        None
    } else if nodes[n - 1].id@ == id {
        Some(n - 1)
    } else {
        last_node_with(nodes, id, n - 1)
    }
}

/// The node a bundle finds for `id`: the last one indexed under it.
pub open spec fn node_spec(b: LoadedBundle, id: Seq<char>) -> Option<GraphNode> {
    match last_node_with(b.nodes@, id, b.nodes@.len() as int) {
        Some(i) => Some(b.nodes@[i]),
        None => None,
    }
}

/// The 64 fingerprint bytes an index header stores: the fingerprint's UTF-8
/// bytes, cut at 64 and padded with zeros.
pub open spec fn fingerprint_spec(f: Seq<char>) -> Seq<u8> {
    Seq::new(64, |i: int| if i < encode_utf8(f).len() { encode_utf8(f)[i] } else { 0u8 })
}

/// The fingerprint bytes of a corpus fingerprint.
pub fn fingerprint_bytes(fingerprint: &str) -> (out: [u8; 64])
    ensures
        out@ == fingerprint_spec(fingerprint@),
{
    let bytes = fingerprint.as_bytes();
    let mut out = [0u8; 64];
    let n = if bytes.len() < 64 {
        bytes.len()
    } else {
        64
    };
    let mut i: usize = 0;
    while i < n
        invariant
            i <= n <= 64,
            n <= bytes@.len(),
            bytes@ == encode_utf8(fingerprint@),
            n == if bytes@.len() < 64 { bytes@.len() } else { 64 },
            out@ == Seq::new(64, |j: int| if j < i { bytes@[j] } else { 0u8 }),
        decreases n - i,
    {
        out[i] = bytes[i];
        i = i + 1;
        assert(out@ =~= Seq::new(64, |j: int| if j < i { bytes@[j] } else { 0u8 }));
    }
    assert(out@ =~= fingerprint_spec(fingerprint@));
    out
}

/// The SHA-256 digest of `bytes`.
pub fn sha256(bytes: &[u8]) -> (out: [u8; 32])
    ensures
        out@ == sha256_spec(bytes@),
{
    let digest = sha256_digest(bytes);
    let mut out = [0u8; 32];
    let mut i: usize = 0;
    while i < 32
        invariant
            i <= 32,
            digest@ == sha256_spec(bytes@),
            digest@.len() == 32,
            out@ == Seq::new(32, |j: int| if j < i { digest@[j] } else { 0u8 }),
        decreases 32 - i,
    {
        out[i] = digest[i];
        i = i + 1;
        assert(out@ =~= Seq::new(32, |j: int| if j < i { digest@[j] } else { 0u8 }));
    }
    assert(out@ =~= digest@);
    out
}

impl LoadedBundle {
    /// The node indexed under `id`.
    pub fn node(&self, id: &str) -> (r: Option<&GraphNode>)
        ensures
            match r {
                Some(n) => node_spec(*self, id@) == Some(*n),
                None => node_spec(*self, id@) is None,
            },
    {
        let mut n = self.nodes.len();
        while n > 0
            invariant
                n <= self.nodes@.len(),
                last_node_with(self.nodes@, id@, self.nodes@.len() as int) == last_node_with(
                    self.nodes@,
                    id@,
                    n as int,
                ),
            decreases n,
        {
            if str_eq(self.nodes[n - 1].id.as_str(), id) {
                return Some(&self.nodes[n - 1]);
            }
            n = n - 1;
        }
        None
    }

    /// The fingerprint bytes of the bundle's corpus.
    pub fn fingerprint_bytes(&self) -> (out: [u8; 64])
        ensures
            out@ == fingerprint_spec(self.manifest.corpus_fingerprint@),
    {
        fingerprint_bytes(self.manifest.corpus_fingerprint.as_str())
    }
}

/// Refuses a manifest whose `format_version` is not 1.
pub fn check_format_version(manifest: &BundleManifest, manifest_path: &str) -> (r: Result<(), AskError>)
    ensures
        match r {
            Ok(_) => manifest.format_version == 1,
            Err(e) => manifest.format_version != 1 && e@ == AskErrorView::Bundle(
                colon_join(manifest_path@, version_message("format_version"@, manifest.format_version as nat)),
            ),
        },
{
    if manifest.format_version != 1 {
        let mut m = chars_of("format_version");
        append_str(&mut m, " is not 1 (found ");
        append_str(&mut m, decimal(manifest.format_version as usize).as_str());
        append_str(&mut m, ")");
        return Err(AskError::bundle(manifest_path, string_of(m.as_slice()).as_str()));
    }
    Ok(())
}

/// The rows of a bundle's JSON Lines file up to its first blank row, and
/// that blank row refused with its one-based line number, if there is one.
/// The rows before it are parsed first, so that a malformed row above a
/// blank one is reported first.
pub fn bundle_rows(path: &str, text: &str) -> (r: (Vec<String>, Result<(), AskError>))
    ensures
        string_views(r.0@) == rows_before_blank(jsonl_rows_spec(text@)),
        match r.1 {
            Ok(_) => first_blank_row(jsonl_rows_spec(text@), 0) is None,
            Err(e) => first_blank_row(jsonl_rows_spec(text@), 0) matches Some(i) && e@ == AskErrorView::Bundle(
                colon_join(path@, "blank line "@ + decimal_spec((i + 1) as nat)),
            ),
        },
{
    let (rows, blank) = jsonl_rows(text);
    match blank {
        None => (rows, Ok(())),
        Some(line) => {
            let mut m = chars_of("blank line ");
            append_str(&mut m, decimal(line).as_str());
            (rows, Err(AskError::bundle(path, string_of(m.as_slice()).as_str())))
        },
    }
}

/// The node at `i` repeats an earlier node's id.
pub open spec fn repeats_id(nodes: Seq<GraphNode>, i: int) -> bool {
    exists|j: int| 0 <= j < i && #[trigger] nodes[j].id@ == nodes[i].id@
}

/// The first node from `i` on that repeats an earlier id.
pub open spec fn first_repeat(nodes: Seq<GraphNode>, i: int) -> Option<int>
    decreases nodes.len() - i,
{
    if i < 0 || i >= nodes.len() {
        None
    } else if repeats_id(nodes, i) {
        Some(i)
    } else {
        first_repeat(nodes, i + 1)
    }
}

/// Whether some node has id `id`.
pub open spec fn is_node_id_of(nodes: Seq<GraphNode>, id: Seq<char>) -> bool {
    exists|j: int| 0 <= j < nodes.len() && #[trigger] nodes[j].id@ == id
}

/// The first endpoint, from edge `i` on, that names no node.
pub open spec fn first_loose_end(nodes: Seq<GraphNode>, edges: Seq<EdgeRecord>, i: int) -> Option<Seq<char>>
    decreases edges.len() - i,
{
    if i < 0 || i >= edges.len() {
        None
    } else if !is_node_id_of(nodes, edges[i].from@) {
        Some(edges[i].from@)
    } else if !is_node_id_of(nodes, edges[i].to@) {
        Some(edges[i].to@)
    } else {
        first_loose_end(nodes, edges, i + 1)
    }
}

/// Why the JSON Lines records do not form a graph: a repeated node id, then
/// an edge endpoint that names no node.
pub open spec fn jsonl_graph_failure(nodes: Seq<GraphNode>, edges: Seq<EdgeRecord>) -> Option<Seq<char>> {
    match first_repeat(nodes, 0) {
        Some(i) => Some("duplicate node id "@ + nodes[i].id@),
        None => match first_loose_end(nodes, edges, 0) {
            Some(x) => Some("edge endpoint is not a node id ("@ + x + ")"@),
            None => None,
        },
    }
}

/// Checks that the JSON Lines records form a graph: node ids are unique and
/// every edge endpoint names a node. `nodes_path` names the file in messages.
pub fn check_jsonl_graph(nodes_path: &str, nodes: &Vec<GraphNode>, edges: &Vec<EdgeRecord>) -> (r: Result<(), AskError>)
    ensures
        match r {
            Ok(_) => jsonl_graph_failure(nodes@, edges@) is None,
            Err(e) => jsonl_graph_failure(nodes@, edges@) matches Some(m) && e@ == AskErrorView::Bundle(
                colon_join(nodes_path@, m),
            ),
        },
{
    let mut seen = StringHashSet::new();
    let mut i: usize = 0;
    while i < nodes.len()
        invariant
            i <= nodes@.len(),
            first_repeat(nodes@, 0) == first_repeat(nodes@, i as int),
            forall|id: Seq<char>| #[trigger] seen@.contains(id) == exists|j: int| 0 <= j < i && #[trigger] nodes@[j].id@ == id,
        decreases nodes@.len() - i,
    {
        let ghost before = seen@;
        let ghost x = nodes@[i as int].id@;
        if !seen.insert(copy_str(nodes[i].id.as_str())) {
            proof {
                let j = choose|j: int| 0 <= j < i && #[trigger] nodes@[j].id@ == x;
                assert(repeats_id(nodes@, i as int));
            }
            let mut m = chars_of("duplicate node id ");
            append_str(&mut m, nodes[i].id.as_str());
            return Err(AskError::bundle(nodes_path, string_of(m.as_slice()).as_str()));
        }
        proof {
            assert(!repeats_id(nodes@, i as int));
            assert forall|id: Seq<char>| #[trigger] seen@.contains(id) == exists|j: int| 0 <= j < i + 1 && #[trigger] nodes@[j].id@ == id by {
                if id == x {
                    assert(nodes@[i as int].id@ == id);
                } else if before.contains(id) {
                    let j = choose|j: int| 0 <= j < i && #[trigger] nodes@[j].id@ == id;
                    assert(0 <= j < i + 1);
                } else if exists|j: int| 0 <= j < i + 1 && #[trigger] nodes@[j].id@ == id {
                    let j = choose|j: int| 0 <= j < i + 1 && #[trigger] nodes@[j].id@ == id;
                    assert(j < i);
                }
            }
        }
        i = i + 1;
    }
    let mut k: usize = 0;
    while k < edges.len()
        invariant
            k <= edges@.len(),
            first_repeat(nodes@, 0) is None,
            forall|id: Seq<char>| #[trigger] seen@.contains(id) == is_node_id_of(nodes@, id),
            first_loose_end(nodes@, edges@, 0) == first_loose_end(nodes@, edges@, k as int),
        decreases edges@.len() - k,
    {
        let e = &edges[k];
        let loose = if !seen.contains(e.from.as_str()) {
            Some(e.from.as_str())
        } else if !seen.contains(e.to.as_str()) {
            Some(e.to.as_str())
        } else {
            None
        };
        if let Some(x) = loose {
            let mut m = chars_of("edge endpoint is not a node id (");
            append_str(&mut m, x);
            append_str(&mut m, ")");
            return Err(AskError::bundle(nodes_path, string_of(m.as_slice()).as_str()));
        }
        k = k + 1;
    }
    Ok(())
}

/// The snapshot's payloads match the JSON Lines records: as many distinct
/// node payloads as JSON Lines nodes, each JSON Lines node's payload among
/// them, and the same for edges.
pub open spec fn payloads_match_spec(
    post_nodes: Seq<GraphNode>,
    post_edges: Seq<GraphEdge>,
    nodes: Seq<GraphNode>,
    edges: Seq<EdgeRecord>,
) -> bool {
    let pn = node_keys(post_nodes).to_set();
    let pe = graph_edge_keys(post_edges).to_set();
    &&& pn.len() == nodes.len()
    &&& forall|i: int| 0 <= i < nodes.len() ==> pn.contains(#[trigger] node_keys(nodes)[i])
    &&& pe.len() == edges.len()
    &&& forall|i: int| 0 <= i < edges.len() ==> pe.contains(#[trigger] edge_keys(edges)[i])
}

/// Whether the snapshot's payloads match the JSON Lines records.
pub fn payloads_match(
    post_nodes: &Vec<GraphNode>,
    post_edges: &Vec<GraphEdge>,
    nodes: &Vec<GraphNode>,
    edges: &Vec<EdgeRecord>,
) -> (r: bool)
    ensures
        r == payloads_match_spec(post_nodes@, post_edges@, nodes@, edges@),
{
    let post = node_payloads(post_nodes);
    let (pset, count, _) = node_key_set(&post);
    if count != nodes.len() {
        return false;
    }
    let mut i: usize = 0;
    while i < nodes.len()
        invariant
            i <= nodes@.len(),
            node_payload_views(post@) == node_keys(post_nodes@),
            forall|x: NodeKey| #[trigger] pset@.contains(node_key_text(x)) == node_payload_views(post@).contains(x),
            forall|m: int| 0 <= m < i ==> node_keys(post_nodes@).to_set().contains(#[trigger] node_keys(nodes@)[m]),
        decreases nodes@.len() - i,
    {
        let p = node_payload(&nodes[i]);
        let ghost x = node_keys(nodes@)[i as int];
        proof {
            assert(node_payload_view(p) == x);
            assert(node_keys(post_nodes@).to_set().contains(x) == node_keys(post_nodes@).contains(x));
            assert(pset@.contains(node_key_text(x)) == node_payload_views(post@).contains(x));
        }
        if !pset.contains(node_key_string(&p).as_str()) {
            return false;
        }
        i = i + 1;
    }
    let post_e = graph_edge_payloads(post_edges);
    let (eset, count_e, _) = edge_key_set(&post_e);
    if count_e != edges.len() {
        return false;
    }
    let mut k: usize = 0;
    while k < edges.len()
        invariant
            k <= edges@.len(),
            edge_payload_views(post_e@) == graph_edge_keys(post_edges@),
            forall|x: EdgeKey| #[trigger] eset@.contains(edge_key_text(x)) == edge_payload_views(post_e@).contains(x),
            forall|m: int| 0 <= m < k ==> graph_edge_keys(post_edges@).to_set().contains(#[trigger] edge_keys(edges@)[m]),
        decreases edges@.len() - k,
    {
        let p = edge_payload(&edges[k]);
        let ghost x = edge_keys(edges@)[k as int];
        proof {
            assert(edge_payload_view(p) == x);
            assert(graph_edge_keys(post_edges@).to_set().contains(x) == graph_edge_keys(post_edges@).contains(x));
            assert(eset@.contains(edge_key_text(x)) == edge_payload_views(post_e@).contains(x));
        }
        if !eset.contains(edge_key_string(&p).as_str()) {
            return false;
        }
        k = k + 1;
    }
    true
}

/// The snapshot as the app decoded it: its node and edge weights in index
/// order, or nothing when it was missing or did not decode.
pub type DecodedSnapshot = Option<(Vec<GraphNode>, Vec<GraphEdge>)>;

/// The nodes a loaded bundle indexes: the snapshot's when its payloads match
/// the JSON Lines records, the JSON Lines nodes otherwise.
pub open spec fn chosen_nodes(snapshot: DecodedSnapshot, nodes: Seq<GraphNode>, edges: Seq<EdgeRecord>) -> Seq<GraphNode> {
    match snapshot {
        Some((pn, pe)) => if payloads_match_spec(pn@, pe@, nodes, edges) {
            pn@
        } else {
            nodes
        },
        None => nodes,
    }
}

/// Puts a bundle together from its parsed files: the JSON Lines records must
/// form a graph; the snapshot's nodes are used when they match; the node and
/// passage files are hashed for the embedding index.
pub fn assemble_bundle(
    manifest: BundleManifest,
    nodes: Vec<GraphNode>,
    edges: Vec<EdgeRecord>,
    passages: Vec<Passage>,
    nodes_bytes: &[u8],
    passages_bytes: &[u8],
    nodes_path: &str,
    snapshot: DecodedSnapshot,
) -> (r: Result<LoadedBundle, AskError>)
    ensures
        match r {
            Ok(b) => {
                &&& jsonl_graph_failure(nodes@, edges@) is None
                &&& b.manifest == manifest
                &&& b.edges@ == edges@
                &&& b.passages@ == passages@
                &&& b.nodes_sha256@ == sha256_spec(nodes_bytes@)
                &&& b.passages_sha256@ == sha256_spec(passages_bytes@)
                &&& b.nodes@ == chosen_nodes(snapshot, nodes@, edges@)
            },
            Err(e) => jsonl_graph_failure(nodes@, edges@) matches Some(m) && e@ == AskErrorView::Bundle(
                colon_join(nodes_path@, m),
            ),
        },
{
    check_jsonl_graph(nodes_path, &nodes, &edges)?;
    let graph_nodes = match snapshot {
        Some((post_nodes, post_edges)) => {
            if payloads_match(&post_nodes, &post_edges, &nodes, &edges) {
                post_nodes
            } else {
                nodes
            }
        },
        None => nodes,
    };
    Ok(
        LoadedBundle {
            manifest,
            edges,
            passages,
            nodes_sha256: sha256(nodes_bytes),
            passages_sha256: sha256(passages_bytes),
            nodes: graph_nodes,
        },
    )
}

proof fn lemma_first_repeat_none(nodes: Seq<GraphNode>, i: int)
    requires
        0 <= i,
        first_repeat(nodes, i) is None,
    ensures
        forall|a: int, b: int| 0 <= a < b < nodes.len() && i <= b ==> #[trigger] nodes[a].id@ != #[trigger] nodes[b].id@,
    decreases nodes.len() - i,
{
    if i < nodes.len() {
        lemma_first_repeat_none(nodes, i + 1);
        assert forall|a: int, b: int| 0 <= a < b < nodes.len() && i <= b implies #[trigger] nodes[a].id@
            != #[trigger] nodes[b].id@ by {
            if b == i && nodes[a].id@ == nodes[b].id@ {
                assert(repeats_id(nodes, i));
            }
        }
    }
}

/// Whichever nodes a loaded bundle indexes, they carry exactly the payloads
/// of the JSON Lines nodes: each indexed node's id, kind, label, text and
/// link are those of a JSON Lines node, and back.
pub proof fn lemma_chosen_payloads(snapshot: DecodedSnapshot, nodes: Seq<GraphNode>, edges: Seq<EdgeRecord>)
    requires
        jsonl_graph_failure(nodes, edges) is None,
    ensures
        node_keys(chosen_nodes(snapshot, nodes, edges)).to_set() == node_keys(nodes).to_set(),
{
    if let Some((pn, pe)) = snapshot {
        if payloads_match_spec(pn@, pe@, nodes, edges) {
            let json = node_keys(nodes);
            let post = node_keys(pn@);
            lemma_first_repeat_none(nodes, 0);
            assert(json.no_duplicates()) by {
                assert forall|a: int, b: int| 0 <= a < json.len() && 0 <= b < json.len() && a != b implies json[a]
                    != json[b] by {
                    if a < b {
                        assert(nodes[a].id@ != nodes[b].id@);
                    } else {
                        assert(nodes[b].id@ != nodes[a].id@);
                    }
                }
            }
            json.unique_seq_to_set();
            seq_to_set_is_finite(json);
            seq_to_set_is_finite(post);
            assert(json.to_set().subset_of(post.to_set())) by {
                assert forall|x: NodeKey| json.to_set().contains(x) implies post.to_set().contains(x) by {
                    assert(json.contains(x));
                    let i = choose|i: int| 0 <= i < json.len() && json[i] == x;
                    assert(post.to_set().contains(json[i]));
                }
            }
            lemma_subset_equality(json.to_set(), post.to_set());
        }
    }
}

} // verus!
