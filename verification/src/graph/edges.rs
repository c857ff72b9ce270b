//! The edges that corpus entities and wargear groups produce, filtered to
//! existing endpoints and deduplicated, each with its content-derived id.

use vstd::prelude::*;
use vstd::hash_set::StringHashSet;
use vstd::utf8::encode_utf8;

use crate::foreign::{case_fold_spec, sha256_digest, sha256_spec};
use crate::graph::attrs::{AttrValueView, Attrs, attrs_json, canonical_attrs, strings_view};
use crate::graph::bundle::has_node_id;
use crate::graph::corpus::{Entity, field, field_spec, ref_id, ref_spec};
use crate::graph::groups::{GroupSpec, KeywordAccum, names_keywords, WargearGroup, group_view, keyword_id, keyword_node_id, keyword_views, wargear_id, wargear_node_id};
use crate::graph::model::{EdgeRecord, GraphNode};
use crate::graph::textutil::{keyword_label, normalize_keyword};
use crate::jsonl::{hex_encode, hex_spec};
use crate::text::{append_chars, append_str, chars_of, copy_str, str_eq, string_of, sub_chars};

verus! {

/// An edge before filtering: kind, endpoints and attributes.
pub struct PendingSpec {
    pub kind: Seq<char>,
    pub from: Seq<char>,
    pub to: Seq<char>,
    pub attrs: Map<Seq<char>, AttrValueView>,
}

/// An edge before filtering.
pub struct PendingEdge {
    pub kind: String,
    pub from: String,
    pub to: String,
    pub attrs: Attrs,
}

/// The values a pending edge holds.
pub open spec fn pending_view(p: PendingEdge) -> PendingSpec {
    PendingSpec { kind: p.kind@, from: p.from@, to: p.to@, attrs: p.attrs@ }
}

/// The values of a list of pending edges.
pub open spec fn pending_views(v: Seq<PendingEdge>) -> Seq<PendingSpec> {
    v.map_values(|p: PendingEdge| pending_view(p))
}

/// An edge without attributes.
pub open spec fn bare_spec(kind: Seq<char>, from: Seq<char>, to: Seq<char>) -> PendingSpec {
    PendingSpec { kind, from, to, attrs: Map::empty() }
}

/// One edge from the entity that `column` points at to the entity, when the
/// reference is set.
pub open spec fn from_ref_spec(e: Entity, kind: Seq<char>, column: Seq<char>) -> Seq<PendingSpec> {
    match ref_spec(e, column) {
        Some(t) => seq![bare_spec(kind, t, e.id@)],
        None => Seq::empty(),
    }
}

/// An edge from the referenced datasheet to the entity, carrying `line`.
pub open spec fn line_edge_spec(e: Entity, kind: Seq<char>) -> Seq<PendingSpec> {
    match ref_spec(e, "datasheet_id"@) {
        Some(ds) => seq![
            PendingSpec {
                kind,
                from: ds,
                to: e.id@,
                attrs: Map::empty().insert("line"@, AttrValueView::Text(field_spec(e, "line"@))),
            },
        ],
        None => Seq::empty(),
    }
}

/// A datasheet ability's edge: to the shared ability when it points at one,
/// else to its own inline node.
pub open spec fn ability_edge_spec(e: Entity) -> Seq<PendingSpec> {
    match ref_spec(e, "datasheet_id"@) {
        Some(ds) => seq![
            PendingSpec {
                kind: "DATASHEET_HAS_ABILITY"@,
                from: ds,
                to: match ref_spec(e, "ability_id"@) {
                    Some(a) => a,
                    None => e.id@,
                },
                attrs: Map::empty().insert("line"@, AttrValueView::Text(field_spec(e, "line"@))).insert(
                    "model"@,
                    AttrValueView::Text(field_spec(e, "model"@)),
                ).insert("type"@, AttrValueView::Text(field_spec(e, "type"@))).insert(
                    "parameter"@,
                    AttrValueView::Text(field_spec(e, "parameter"@)),
                ),
            },
        ],
        None => Seq::empty(),
    }
}

/// A keyword row's edge from its datasheet to its keyword node.
pub open spec fn keyword_edge_spec(e: Entity, kws: Seq<(Seq<char>, Seq<char>)>) -> Seq<PendingSpec> {
    let norm = case_fold_spec(keyword_label(field_spec(e, "keyword"@)));
    match ref_spec(e, "datasheet_id"@) {
        Some(ds) => if exists|j: int| 0 <= j < kws.len() && #[trigger] kws[j].1 == norm {
            seq![
                PendingSpec {
                    kind: "DATASHEET_HAS_KEYWORD"@,
                    from: ds,
                    to: keyword_id(norm),
                    attrs: Map::empty().insert("model"@, AttrValueView::Text(field_spec(e, "model"@))).insert(
                        "is_faction_keyword"@,
                        AttrValueView::Text(field_spec(e, "is_faction_keyword"@)),
                    ),
                },
            ]
        } else {
            Seq::empty()
        },
        None => Seq::empty(),
    }
}

/// One edge between the two referenced entities, when both are set.
pub open spec fn both_refs_spec(e: Entity, kind: Seq<char>, from_col: Seq<char>, to_col: Seq<char>) -> Seq<PendingSpec> {
    match (ref_spec(e, from_col), ref_spec(e, to_col)) {
        (Some(f), Some(t)) => seq![bare_spec(kind, f, t)],
        _ => Seq::empty(),
    }
}

/// The edges an entity produces, by table.
pub open spec fn entity_edges_spec(e: Entity, kws: Seq<(Seq<char>, Seq<char>)>) -> Seq<PendingSpec> {
    let t = e.table@;
    if t == "datasheet"@ {
        (match ref_spec(e, "faction_id"@) {
            Some(f) => seq![bare_spec("FACTION_HAS_DATASHEET"@, f, e.id@)],
            None => Seq::empty(),
        }) + (match ref_spec(e, "source_id"@) {
            Some(src) => seq![bare_spec("DATASHEET_FROM_SOURCE"@, e.id@, src)],
            None => Seq::empty(),
        })
    } else if t == "stratagem"@ {
        from_ref_spec(e, "FACTION_HAS_STRATAGEM"@, "faction_id"@) + from_ref_spec(
            e,
            "DETACHMENT_HAS_STRATAGEM"@,
            "detachment_id"@,
        )
    } else if t == "ability"@ {
        from_ref_spec(e, "FACTION_HAS_ABILITY"@, "faction_id"@)
    } else if t == "enhancement"@ {
        from_ref_spec(e, "FACTION_HAS_ENHANCEMENT"@, "faction_id"@) + from_ref_spec(
            e,
            "DETACHMENT_HAS_ENHANCEMENT"@,
            "detachment_id"@,
        )
    } else if t == "detachment"@ {
        from_ref_spec(e, "FACTION_HAS_DETACHMENT"@, "faction_id"@)
    } else if t == "detachment_ability"@ {
        from_ref_spec(e, "FACTION_HAS_DETACHMENT_ABILITY"@, "faction_id"@) + from_ref_spec(
            e,
            "DETACHMENT_HAS_ABILITY"@,
            "detachment_id"@,
        )
    } else if t == "datasheet_model"@ {
        line_edge_spec(e, "DATASHEET_HAS_MODEL"@)
    } else if t == "datasheet_ability"@ {
        ability_edge_spec(e)
    } else if t == "datasheet_keyword"@ {
        keyword_edge_spec(e, kws)
    } else if t == "datasheet_option"@ {
        line_edge_spec(e, "DATASHEET_HAS_OPTION"@)
    } else if t == "datasheet_unit_composition"@ {
        line_edge_spec(e, "DATASHEET_HAS_COMPOSITION"@)
    } else if t == "datasheet_model_cost"@ {
        line_edge_spec(e, "DATASHEET_HAS_COST"@)
    } else if t == "datasheet_leader"@ {
        both_refs_spec(e, "DATASHEET_CAN_LEAD"@, "leader_id"@, "attached_id"@)
    } else if t == "datasheet_stratagem"@ {
        both_refs_spec(e, "DATASHEET_USES_STRATAGEM"@, "datasheet_id"@, "stratagem_id"@)
    } else if t == "datasheet_enhancement"@ {
        both_refs_spec(e, "ENHANCEMENT_APPLIES_TO_DATASHEET"@, "enhancement_id"@, "datasheet_id"@)
    } else if t == "datasheet_detachment_ability"@ {
        both_refs_spec(
            e,
            "DATASHEET_HAS_DETACHMENT_ABILITY"@,
            "datasheet_id"@,
            "detachment_ability_id"@,
        )
    } else {
        Seq::empty()
    }
}

fn bare(kind: &str, from: &str, to: &str) -> (p: PendingEdge)
    ensures
        pending_view(p) == bare_spec(kind@, from@, to@),
{
    PendingEdge { kind: copy_str(kind), from: copy_str(from), to: copy_str(to), attrs: Attrs::new() }
}

fn from_ref(e: &Entity, kind: &str, column: &str) -> (r: Vec<PendingEdge>)
    ensures
        pending_views(r@) == from_ref_spec(*e, kind@, column@),
{
    let mut r: Vec<PendingEdge> = Vec::new();
    if let Some(t) = ref_id(e, column) {
        r.push(bare(kind, t, e.id.as_str()));
    }
    assert(pending_views(r@) =~= from_ref_spec(*e, kind@, column@));
    r
}

fn line_edge(e: &Entity, kind: &str) -> (r: Vec<PendingEdge>)
    ensures
        pending_views(r@) == line_edge_spec(*e, kind@),
{
    let mut r: Vec<PendingEdge> = Vec::new();
    if let Some(ds) = ref_id(e, "datasheet_id") {
        let mut attrs = Attrs::new();
        attrs.insert_text("line", field(e, "line"));
        r.push(PendingEdge { kind: copy_str(kind), from: copy_str(ds), to: copy_str(e.id.as_str()), attrs });
    }
    assert(pending_views(r@) =~= line_edge_spec(*e, kind@));
    r
}

fn ability_edge(e: &Entity) -> (r: Vec<PendingEdge>)
    ensures
        pending_views(r@) == ability_edge_spec(*e),
{
    let mut r: Vec<PendingEdge> = Vec::new();
    if let Some(ds) = ref_id(e, "datasheet_id") {
        let target = match ref_id(e, "ability_id") {
            Some(a) => a,
            None => e.id.as_str(),
        };
        let mut attrs = Attrs::new();
        attrs.insert_text("line", field(e, "line"));
        attrs.insert_text("model", field(e, "model"));
        attrs.insert_text("type", field(e, "type"));
        attrs.insert_text("parameter", field(e, "parameter"));
        r.push(PendingEdge { kind: copy_str("DATASHEET_HAS_ABILITY"), from: copy_str(ds), to: copy_str(target), attrs });
    }
    assert(pending_views(r@) =~= ability_edge_spec(*e));
    r
}

fn keyword_edge(e: &Entity, keywords: &Vec<KeywordAccum>, known: &StringHashSet) -> (r: Vec<PendingEdge>)
    requires
        names_keywords(known@, keywords@),
    ensures
        pending_views(r@) == keyword_edge_spec(*e, keyword_views(keywords@)),
{
    let mut r: Vec<PendingEdge> = Vec::new();
    if let Some(ds) = ref_id(e, "datasheet_id") {
        let (_, normalized) = normalize_keyword(field(e, "keyword"));
        if known.contains(normalized.as_str()) {
            let mut attrs = Attrs::new();
            attrs.insert_text("model", field(e, "model"));
            attrs.insert_text("is_faction_keyword", field(e, "is_faction_keyword"));
            r.push(PendingEdge {
                kind: copy_str("DATASHEET_HAS_KEYWORD"),
                from: copy_str(ds),
                to: keyword_node_id(normalized.as_str()),
                attrs,
            });
        }
    }
    assert(pending_views(r@) =~= keyword_edge_spec(*e, keyword_views(keywords@)));
    r
}

fn both_refs(e: &Entity, kind: &str, from_col: &str, to_col: &str) -> (r: Vec<PendingEdge>)
    ensures
        pending_views(r@) == both_refs_spec(*e, kind@, from_col@, to_col@),
{
    let mut r: Vec<PendingEdge> = Vec::new();
    if let Some(f) = ref_id(e, from_col) {
        if let Some(t) = ref_id(e, to_col) {
            r.push(bare(kind, f, t));
        }
    }
    assert(pending_views(r@) =~= both_refs_spec(*e, kind@, from_col@, to_col@));
    r
}

fn concat_pending(mut a: Vec<PendingEdge>, mut b: Vec<PendingEdge>) -> (r: Vec<PendingEdge>)
    ensures
        pending_views(r@) == pending_views(a@) + pending_views(b@),
{
    let ghost av = pending_views(a@);
    let ghost bv = pending_views(b@);
    a.append(&mut b);
    assert(pending_views(a@) =~= av + bv);
    a
}

/// The edges an entity produces.
pub fn entity_edges(e: &Entity, keywords: &Vec<KeywordAccum>, known: &StringHashSet) -> (r: Vec<PendingEdge>)
    requires
        names_keywords(known@, keywords@),
    ensures
        pending_views(r@) == entity_edges_spec(*e, keyword_views(keywords@)),
{
    let t = e.table.as_str();
    if str_eq(t, "datasheet") {
        let mut r: Vec<PendingEdge> = Vec::new();
        if let Some(f) = ref_id(e, "faction_id") {
            r.push(bare("FACTION_HAS_DATASHEET", f, e.id.as_str()));
        }
        let ghost first = pending_views(r@);
        if let Some(src) = ref_id(e, "source_id") {
            r.push(bare("DATASHEET_FROM_SOURCE", e.id.as_str(), src));
        }
        assert(pending_views(r@) =~= entity_edges_spec(*e, keyword_views(keywords@)));
        r
    } else if str_eq(t, "stratagem") {
        concat_pending(
            from_ref(e, "FACTION_HAS_STRATAGEM", "faction_id"),
            from_ref(e, "DETACHMENT_HAS_STRATAGEM", "detachment_id"),
        )
    } else if str_eq(t, "ability") {
        from_ref(e, "FACTION_HAS_ABILITY", "faction_id")
    } else if str_eq(t, "enhancement") {
        concat_pending(
            from_ref(e, "FACTION_HAS_ENHANCEMENT", "faction_id"),
            from_ref(e, "DETACHMENT_HAS_ENHANCEMENT", "detachment_id"),
        )
    } else if str_eq(t, "detachment") {
        from_ref(e, "FACTION_HAS_DETACHMENT", "faction_id")
    } else if str_eq(t, "detachment_ability") {
        concat_pending(
            from_ref(e, "FACTION_HAS_DETACHMENT_ABILITY", "faction_id"),
            from_ref(e, "DETACHMENT_HAS_ABILITY", "detachment_id"),
        )
    } else if str_eq(t, "datasheet_model") {
        line_edge(e, "DATASHEET_HAS_MODEL")
    } else if str_eq(t, "datasheet_ability") {
        ability_edge(e)
    } else if str_eq(t, "datasheet_keyword") {
        keyword_edge(e, keywords, known)
    } else if str_eq(t, "datasheet_option") {
        line_edge(e, "DATASHEET_HAS_OPTION")
    } else if str_eq(t, "datasheet_unit_composition") {
        line_edge(e, "DATASHEET_HAS_COMPOSITION")
    } else if str_eq(t, "datasheet_model_cost") {
        line_edge(e, "DATASHEET_HAS_COST")
    } else if str_eq(t, "datasheet_leader") {
        both_refs(e, "DATASHEET_CAN_LEAD", "leader_id", "attached_id")
    } else if str_eq(t, "datasheet_stratagem") {
        both_refs(e, "DATASHEET_USES_STRATAGEM", "datasheet_id", "stratagem_id")
    } else if str_eq(t, "datasheet_enhancement") {
        both_refs(e, "ENHANCEMENT_APPLIES_TO_DATASHEET", "enhancement_id", "datasheet_id")
    } else if str_eq(t, "datasheet_detachment_ability") {
        both_refs(e, "DATASHEET_HAS_DETACHMENT_ABILITY", "datasheet_id", "detachment_ability_id")
    } else {
        let r: Vec<PendingEdge> = Vec::new();
        assert(pending_views(r@) =~= Seq::<PendingSpec>::empty());
        r
    }
}

/// The first datasheet reference among the profiles from `k` on, in file order.
pub open spec fn first_profile_ref(ents: Seq<Entity>, ps: Seq<int>, k: int) -> Option<Seq<char>>
    decreases ps.len() - k,
{
    if k < 0 || k >= ps.len() {
        None
    } else {
        match ref_spec(ents[ps[k]], "datasheet_id"@) {
            Some(id) => Some(id),
            None => first_profile_ref(ents, ps, k + 1),
        }
    }
}

/// A wargear group's edge from the datasheet its first referencing profile
/// names to the group's node, carrying the group's line.
pub open spec fn wargear_pending_spec(ents: Seq<Entity>, g: GroupSpec) -> Seq<PendingSpec> {
    match first_profile_ref(ents, g.2, 0) {
        Some(ds) => seq![
            PendingSpec {
                kind: "DATASHEET_HAS_WARGEAR"@,
                from: ds,
                to: wargear_id(g.0, g.1),
                attrs: Map::empty().insert("line"@, AttrValueView::Text(g.1)),
            },
        ],
        None => Seq::empty(),
    }
}

/// The edge of a wargear group, when one of its profiles names a datasheet.
pub fn wargear_pending(group: &WargearGroup, ents: &Vec<Entity>) -> (r: Vec<PendingEdge>)
    requires
        forall|k: int| 0 <= k < group.profiles@.len() ==> #[trigger] group.profiles@[k] < ents@.len(),
    ensures
        pending_views(r@) == wargear_pending_spec(ents@, group_view(*group)),
{
    let ghost gv = group_view(*group);
    let mut k: usize = 0;
    while k < group.profiles.len()
        invariant
            k <= group.profiles@.len(),
            gv == group_view(*group),
            forall|m: int| 0 <= m < group.profiles@.len() ==> #[trigger] group.profiles@[m] < ents@.len(),
            first_profile_ref(ents@, gv.2, 0) == first_profile_ref(ents@, gv.2, k as int),
        decreases group.profiles@.len() - k,
    {
        assert(gv.2[k as int] == group.profiles@[k as int] as int);
        if let Some(ds) = ref_id(&ents[group.profiles[k]], "datasheet_id") {
            let mut attrs = Attrs::new();
            attrs.insert_text("line", group.line.as_str());
            let mut r: Vec<PendingEdge> = Vec::new();
            r.push(PendingEdge {
                kind: copy_str("DATASHEET_HAS_WARGEAR"),
                from: copy_str(ds),
                to: wargear_node_id(group.datasheet_id.as_str(), group.line.as_str()),
                attrs,
            });
            assert(pending_views(r@) =~= wargear_pending_spec(ents@, gv));
            return r;
        }
        k = k + 1;
    }
    let r: Vec<PendingEdge> = Vec::new();
    assert(pending_views(r@) =~= wargear_pending_spec(ents@, gv));
    r
}

/// The key under which an edge is kept once: kind, endpoints and canonical
/// attributes, one per line.
pub open spec fn dedupe_key(p: PendingSpec) -> Seq<char> {
    p.kind + seq!['\n'] + p.from + seq!['\n'] + p.to + seq!['\n'] + attrs_json(p.attrs)
}

/// The text whose SHA-256 names an edge: endpoints and canonical attributes,
/// one per line.
pub open spec fn edge_digest_text(p: PendingSpec) -> Seq<char> {
    p.from + seq!['\n'] + p.to + seq!['\n'] + attrs_json(p.attrs)
}

/// `10ed:edge:{kind}:` and the first 16 hex digits of the SHA-256 of the
/// edge's digest text.
pub open spec fn edge_id_spec(p: PendingSpec) -> Seq<char> {
    "10ed:edge:"@ + p.kind + ":"@ + hex_spec(sha256_spec(encode_utf8(edge_digest_text(p)))).take(16)
}

/// An edge as values.
pub struct EdgeSpec {
    pub id: Seq<char>,
    pub kind: Seq<char>,
    pub from: Seq<char>,
    pub to: Seq<char>,
    pub attrs: Map<Seq<char>, AttrValueView>,
}

/// The values an edge record holds.
pub open spec fn edge_view(e: EdgeRecord) -> EdgeSpec {
    EdgeSpec { id: e.id@, kind: e.kind@, from: e.from@, to: e.to@, attrs: e.attrs@ }
}

/// The values of a list of edge records.
pub open spec fn edge_views(v: Seq<EdgeRecord>) -> Seq<EdgeSpec> {
    v.map_values(|e: EdgeRecord| edge_view(e))
}

/// The record a kept pending edge becomes.
pub open spec fn edge_of(p: PendingSpec) -> EdgeSpec {
    EdgeSpec { id: edge_id_spec(p), kind: p.kind, from: p.from, to: p.to, attrs: p.attrs }
}

/// Whether an edge with key `key` was kept already.
pub open spec fn has_key(kept: Seq<PendingSpec>, key: Seq<char>) -> bool {
    exists|j: int| 0 <= j < kept.len() && #[trigger] dedupe_key(kept[j]) == key
}

/// One step of edge collection: `p` is kept when both endpoints are node ids
/// and no kept edge has its key.
pub open spec fn keep_step(kept: Seq<PendingSpec>, nodes: Seq<GraphNode>, p: PendingSpec) -> Seq<PendingSpec> {
    if has_node_id(nodes, p.from) && has_node_id(nodes, p.to) && !has_key(kept, dedupe_key(p)) {
        kept.push(p)
    } else {
        kept
    }
}

/// The pending edges that are kept, in order.
pub open spec fn kept_edges(nodes: Seq<GraphNode>, ps: Seq<PendingSpec>) -> Seq<PendingSpec>
    decreases ps.len(),
{
    if ps.len() == 0 {
        Seq::empty()
    } else {
        keep_step(kept_edges(nodes, ps.drop_last()), nodes, ps.last())
    }
}

proof fn lemma_hex_len(b: Seq<u8>)
    ensures
        hex_spec(b).len() == 2 * b.len(),
    decreases b.len(),
{
    if b.len() > 0 {
        lemma_hex_len(b.drop_last());
    }
}

/// The id of an edge.
fn edge_id(kind: &str, from: &str, to: &str, canonical: &str) -> (r: String)
    ensures
        forall|m: Map<Seq<char>, AttrValueView>| attrs_json(m) == canonical@ ==> r@ == #[trigger] edge_id_spec(
            PendingSpec { kind: kind@, from: from@, to: to@, attrs: m },
        ),
{
    let mut text = chars_of(from);
    text.push('\n');
    append_str(&mut text, to);
    text.push('\n');
    append_str(&mut text, canonical);
    let joined = string_of(text.as_slice());
    let digest = sha256_digest(joined.as_str().as_bytes());
    let hex = chars_of(hex_encode(digest.as_slice()).as_str());
    proof {
        lemma_hex_len(digest@);
        reveal_strlit(":");
        reveal_strlit("10ed:edge:");
    }
    let mut id = chars_of("10ed:edge:");
    append_str(&mut id, kind);
    id.push(':');
    let head = sub_chars(&hex, 0, 16);
    append_chars(&mut id, &head);
    proof {
        assert(hex@.subrange(0, 16) =~= hex@.take(16));
        assert(joined@ =~= from@ + seq!['\n'] + to@ + seq!['\n'] + canonical@);
        assert(id@ =~= "10ed:edge:"@ + kind@ + ":"@ + hex@.take(16));
    }
    string_of(id.as_slice())
}

/// Keeps `p` when both endpoints are node ids and its key is new; `seen`
/// holds the keys kept so far and `node_ids` the ids of `nodes`.
pub(crate) fn push_edge(
    edges: &mut Vec<EdgeRecord>,
    seen: &mut StringHashSet,
    node_ids: &StringHashSet,
    nodes: &Vec<GraphNode>,
    p: &PendingEdge,
    Ghost(kept): Ghost<Seq<PendingSpec>>,
)
    requires
        edge_views(old(edges)@) == kept.map_values(|q: PendingSpec| edge_of(q)),
        forall|k: Seq<char>| #[trigger] old(seen)@.contains(k) == has_key(kept, k),
        forall|id: Seq<char>| #[trigger] node_ids@.contains(id) == has_node_id(nodes@, id),
    ensures
        edge_views(final(edges)@) == keep_step(kept, nodes@, pending_view(*p)).map_values(
            |q: PendingSpec| edge_of(q),
        ),
        forall|k: Seq<char>| #[trigger] final(seen)@.contains(k) == has_key(keep_step(kept, nodes@, pending_view(*p)), k),
{
    let ghost pv = pending_view(*p);
    if !node_ids.contains(p.from.as_str()) || !node_ids.contains(p.to.as_str()) {
        return;
    }
    let canonical = canonical_attrs(&p.attrs);
    let mut key = chars_of(p.kind.as_str());
    key.push('\n');
    append_str(&mut key, p.from.as_str());
    key.push('\n');
    append_str(&mut key, p.to.as_str());
    key.push('\n');
    append_str(&mut key, canonical.as_str());
    let key = string_of(key.as_slice());
    assert(key@ =~= dedupe_key(pv));
    if seen.contains(key.as_str()) {
        return;
    }
    let id = edge_id(p.kind.as_str(), p.from.as_str(), p.to.as_str(), canonical.as_str());
    assert(id@ == edge_id_spec(pv));
    let ghost old_edges = edge_views(edges@);
    let ghost old_seen = seen@;
    seen.insert(key);
    edges.push(
        EdgeRecord {
            id,
            kind: copy_str(p.kind.as_str()),
            from: copy_str(p.from.as_str()),
            to: copy_str(p.to.as_str()),
            attrs: p.attrs.copy(),
        },
    );
    proof {
        assert(edge_views(edges@) =~= old_edges.push(edge_of(pv)));
        assert(kept.push(pv).map_values(|q: PendingSpec| edge_of(q)) =~= kept.map_values(
            |q: PendingSpec| edge_of(q),
        ).push(edge_of(pv)));
        let k2 = kept.push(pv);
        assert forall|k: Seq<char>| #[trigger] seen@.contains(k) == has_key(k2, k) by {
            if k == dedupe_key(pv) {
                assert(dedupe_key(k2[kept.len() as int]) == k);
            } else if has_key(k2, k) {
                let j = choose|j: int| 0 <= j < k2.len() && #[trigger] dedupe_key(k2[j]) == k;
                assert(j < kept.len());
                assert(dedupe_key(kept[j]) == k);
            } else if old_seen.contains(k) {
                let j = choose|j: int| 0 <= j < kept.len() && #[trigger] dedupe_key(kept[j]) == k;
                assert(k2[j] == kept[j]);
            }
        }
    }
}

} // verus!
