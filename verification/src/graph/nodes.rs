//! The node that each corpus entity becomes: its kind, label, text, attributes
//! and source URL, by the table it comes from.

use vstd::prelude::*;
use vstd::hash_map::StringHashMap;

use crate::graph::attrs::{AttrValueView, Attrs};
use crate::graph::corpus::{Entity, field, field_spec, ref_id, ref_spec};
use crate::graph::lookup::{has_entity_id, indexes_last};
use crate::graph::model::{GraphNode, opt_view};
use crate::graph::textutil::{join_parts, join_parts_spec, part, part_spec, with_line, with_line_spec};
use crate::jsonl::string_views;
use crate::text::{copy_str, str_eq};

verus! {

/// A node as values: what a `GraphNode` holds, read through its views.
pub struct NodeSpec {
    pub id: Seq<char>,
    pub kind: Seq<char>,
    pub label: Seq<char>,
    pub text: Seq<char>,
    pub attrs: Map<Seq<char>, AttrValueView>,
    pub source_url: Option<Seq<char>>,
}

/// The values a node holds.
pub open spec fn node_view(n: GraphNode) -> NodeSpec {
    NodeSpec {
        id: n.id@,
        kind: n.kind@,
        label: n.label@,
        text: n.text@,
        attrs: n.attrs@,
        source_url: opt_view(n.source_url),
    }
}

/// The text of an entity made of the named fields, each as a text part,
/// non-empty parts joined with newlines.
pub open spec fn parts_text(e: Entity, names: Seq<Seq<char>>) -> Seq<char> {
    join_parts_spec(names.map_values(|n: Seq<char>| part_spec(n, field_spec(e, n))))
}

/// The views of a list of field names.
pub open spec fn names_view(names: Seq<&str>) -> Seq<Seq<char>> {
    names.map_values(|n: &str| n@)
}

/// The text made of the fields `names` of `entity`.
pub fn text_of(entity: &Entity, names: Vec<&str>) -> (r: String)
    ensures
        r@ == parts_text(*entity, names_view(names@)),
{
    let ghost nv = names_view(names@);
    let mut parts: Vec<String> = Vec::new();
    let mut i: usize = 0;
    while i < names.len()
        invariant
            i <= names@.len(),
            nv == names_view(names@),
            parts@.len() == i,
            string_views(parts@) == nv.take(i as int).map_values(
                |n: Seq<char>| part_spec(n, field_spec(*entity, n)),
            ),
        decreases names@.len() - i,
    {
        let ghost before = parts@;
        let p = part(names[i], field(entity, names[i]));
        parts.push(p);
        proof {
            assert(parts@ =~= before.push(p));
            assert(nv[i as int] == names@[i as int]@);
            assert(nv.take(i + 1) =~= nv.take(i as int).push(nv[i as int]));
            assert(string_views(parts@) =~= string_views(before).push(p@));
            assert(string_views(parts@) =~= nv.take(i + 1).map_values(
                |n: Seq<char>| part_spec(n, field_spec(*entity, n)),
            ));
        }
        i = i + 1;
    }
    assert(nv.take(i as int) =~= nv);
    join_parts(parts)
}

/// Tables whose rows always become a node of their own.
pub open spec fn is_node_table(t: Seq<char>) -> bool {
    ||| t == "faction"@
    ||| t == "source"@
    ||| t == "datasheet"@
    ||| t == "datasheet_model"@
    ||| t == "ability"@
    ||| t == "datasheet_option"@
    ||| t == "datasheet_unit_composition"@
    ||| t == "datasheet_model_cost"@
    ||| t == "stratagem"@
    ||| t == "enhancement"@
    ||| t == "detachment"@
    ||| t == "detachment_ability"@
}

/// The entity becomes a node: a node table, or a datasheet ability that does
/// not point at a shared ability.
pub open spec fn creates_node(e: Entity) -> bool {
    is_node_table(e.table@) || (e.table@ == "datasheet_ability"@ && ref_spec(e, "ability_id"@) is None)
}

/// The kind of node an entity table yields.
pub open spec fn kind_of_table(t: Seq<char>) -> Seq<char> {
    if t == "faction"@ {
        "Faction"@
    } else if t == "source"@ {
        "Source"@
    } else if t == "datasheet"@ {
        "Datasheet"@
    } else if t == "datasheet_model"@ {
        "Model"@
    } else if t == "ability"@ || t == "datasheet_ability"@ {
        "Ability"@
    } else if t == "datasheet_option"@ {
        "Option"@
    } else if t == "datasheet_unit_composition"@ {
        "UnitComposition"@
    } else if t == "datasheet_model_cost"@ {
        "ModelCost"@
    } else if t == "stratagem"@ {
        "Stratagem"@
    } else if t == "enhancement"@ {
        "Enhancement"@
    } else if t == "detachment"@ {
        "Detachment"@
    } else if t == "detachment_ability"@ {
        "DetachmentAbility"@
    } else {
        Seq::empty()
    }
}

/// The label of an entity's node.
pub open spec fn entity_label(e: Entity) -> Seq<char> {
    let t = e.table@;
    if t == "datasheet_ability"@ {
        if field_spec(e, "name"@).len() == 0 {
            "Ability"@
        } else {
            field_spec(e, "name"@)
        }
    } else if t == "datasheet_option"@ {
        with_line_spec("Option"@, field_spec(e, "line"@))
    } else if t == "datasheet_unit_composition"@ {
        with_line_spec("Unit composition"@, field_spec(e, "line"@))
    } else if t == "datasheet_model_cost"@ {
        with_line_spec("Cost"@, field_spec(e, "line"@))
    } else if is_node_table(t) {
        field_spec(e, "name"@)
    } else {
        Seq::empty()
    }
}

/// The fields whose parts make an entity's node text, in order.
pub open spec fn text_fields(t: Seq<char>) -> Seq<Seq<char>> {
    if t == "faction"@ {
        seq!["name"@]
    } else if t == "source"@ {
        seq!["type"@, "name"@, "edition"@, "version"@]
    } else if t == "datasheet"@ {
        seq![
            "name"@,
            "role"@,
            "loadout"@,
            "transport"@,
            "leader_head"@,
            "leader_footer"@,
            "damaged_w"@,
            "damaged_description"@,
        ]
    } else if t == "datasheet_model"@ {
        seq![
            "name"@,
            "M"@,
            "T"@,
            "Sv"@,
            "inv_sv"@,
            "inv_sv_descr"@,
            "W"@,
            "Ld"@,
            "OC"@,
            "base_size"@,
            "base_size_descr"@,
        ]
    } else if t == "ability"@ {
        seq!["name"@, "legend"@, "description"@]
    } else if t == "datasheet_ability"@ {
        seq!["name"@, "type"@, "parameter"@, "description"@]
    } else if t == "datasheet_option"@ {
        seq!["button"@, "description"@]
    } else if t == "datasheet_unit_composition"@ {
        seq!["description"@]
    } else if t == "datasheet_model_cost"@ {
        seq!["description"@, "cost"@]
    } else if t == "stratagem"@ {
        seq!["name"@, "type"@, "cp_cost"@, "turn"@, "phase"@, "detachment"@, "description"@]
    } else if t == "enhancement"@ {
        seq!["name"@, "cost"@, "detachment"@, "legend"@, "description"@]
    } else if t == "detachment"@ {
        seq!["name"@, "type"@, "legend"@]
    } else if t == "detachment_ability"@ {
        seq!["name"@, "detachment"@, "legend"@, "description"@]
    } else {
        Seq::empty()
    }
}

/// The attributes of an entity's node.
pub open spec fn entity_attrs(e: Entity) -> Map<Seq<char>, AttrValueView> {
    let t = e.table@;
    if t == "datasheet"@ {
        Map::empty().insert("role"@, AttrValueView::Text(field_spec(e, "role"@))).insert("virtual"@, AttrValueView::Text(field_spec(e, "virtual"@))).insert(
            "faction_id"@,
            AttrValueView::Text(field_spec(e, "faction_id"@)),
        ).insert(
            "faction_node"@,
            AttrValueView::Text(
                match ref_spec(e, "faction_id"@) {
                    Some(v) => v,
                    None => Seq::empty(),
                },
            ),
        )
    } else if t == "datasheet_model"@ {
        Map::empty().insert("line"@, AttrValueView::Text(field_spec(e, "line"@))).insert("M"@, AttrValueView::Text(field_spec(e, "M"@))).insert("T"@, AttrValueView::Text(field_spec(e, "T"@))).insert(
            "Sv"@,
            AttrValueView::Text(field_spec(e, "Sv"@)),
        ).insert("W"@, AttrValueView::Text(field_spec(e, "W"@))).insert("Ld"@, AttrValueView::Text(field_spec(e, "Ld"@))).insert("OC"@, AttrValueView::Text(field_spec(e, "OC"@)))
    } else {
        Map::empty()
    }
}

/// The link of the entity with id `id` (the last one, when ids repeat), when
/// that entity exists and its link is not empty.
pub open spec fn link_of_spec(ents: Seq<Entity>, id: Seq<char>, i: int) -> Option<Seq<char>>
    decreases i,
{
    if i <= 0 || i > ents.len() {
        None
    } else if ents[i - 1].id@ == id {
        if field_spec(ents[i - 1], "link"@).len() > 0 {
            Some(field_spec(ents[i - 1], "link"@))
        } else {
            None
        }
    } else {
        link_of_spec(ents, id, i - 1)
    }
}

/// The link of the entity that reference `name` points at.
pub open spec fn ref_link(e: Entity, ents: Seq<Entity>, name: Seq<char>) -> Option<Seq<char>> {
    match ref_spec(e, name) {
        Some(id) => link_of_spec(ents, id, ents.len() as int),
        None => None,
    }
}

/// An entity's source URL: its own link, else the link of the datasheet it
/// belongs to or of the leader, else the link of its faction.
pub open spec fn entity_source_url(e: Entity, ents: Seq<Entity>) -> Option<Seq<char>> {
    if field_spec(e, "link"@).len() > 0 {
        Some(field_spec(e, "link"@))
    } else if ref_link(e, ents, "datasheet_id"@) is Some {
        ref_link(e, ents, "datasheet_id"@)
    } else if ref_link(e, ents, "leader_id"@) is Some {
        ref_link(e, ents, "leader_id"@)
    } else {
        ref_link(e, ents, "faction_id"@)
    }
}

/// The node an entity becomes.
pub open spec fn entity_node_spec(e: Entity, ents: Seq<Entity>) -> NodeSpec {
    NodeSpec {
        id: e.id@,
        kind: kind_of_table(e.table@),
        label: entity_label(e),
        text: parts_text(e, text_fields(e.table@)),
        attrs: entity_attrs(e),
        source_url: entity_source_url(e, ents),
    }
}


/// Whether the table's rows always become nodes.
pub fn node_table(t: &str) -> (r: bool)
    ensures
        r == is_node_table(t@),
{
    str_eq(t, "faction") || str_eq(t, "source") || str_eq(t, "datasheet") || str_eq(t, "datasheet_model")
        || str_eq(t, "ability") || str_eq(t, "datasheet_option") || str_eq(
        t,
        "datasheet_unit_composition",
    ) || str_eq(t, "datasheet_model_cost") || str_eq(t, "stratagem") || str_eq(t, "enhancement")
        || str_eq(t, "detachment") || str_eq(t, "detachment_ability")
}

fn kind_of(t: &str) -> (r: &'static str)
    ensures
        r@ == kind_of_table(t@),
{
    if str_eq(t, "faction") {
        "Faction"
    } else if str_eq(t, "source") {
        "Source"
    } else if str_eq(t, "datasheet") {
        "Datasheet"
    } else if str_eq(t, "datasheet_model") {
        "Model"
    } else if str_eq(t, "ability") || str_eq(t, "datasheet_ability") {
        "Ability"
    } else if str_eq(t, "datasheet_option") {
        "Option"
    } else if str_eq(t, "datasheet_unit_composition") {
        "UnitComposition"
    } else if str_eq(t, "datasheet_model_cost") {
        "ModelCost"
    } else if str_eq(t, "stratagem") {
        "Stratagem"
    } else if str_eq(t, "enhancement") {
        "Enhancement"
    } else if str_eq(t, "detachment") {
        "Detachment"
    } else if str_eq(t, "detachment_ability") {
        "DetachmentAbility"
    } else {
        proof {
            reveal_strlit("");
        }
        ""
    }
}

fn label_of(e: &Entity) -> (r: String)
    ensures
        r@ == entity_label(*e),
{
    let t = e.table.as_str();
    if str_eq(t, "datasheet_ability") {
        let name = field(e, "name");
        if name.is_empty() {
            copy_str("Ability")
        } else {
            copy_str(name)
        }
    } else if str_eq(t, "datasheet_option") {
        with_line("Option", field(e, "line"))
    } else if str_eq(t, "datasheet_unit_composition") {
        with_line("Unit composition", field(e, "line"))
    } else if str_eq(t, "datasheet_model_cost") {
        with_line("Cost", field(e, "line"))
    } else if node_table(t) {
        copy_str(field(e, "name"))
    } else {
        proof {
            reveal_strlit("");
        }
        copy_str("")
    }
}

fn fields_for(t: &str) -> (r: Vec<&'static str>)
    ensures
        names_view(r@) == text_fields(t@),
{
    let r = if str_eq(t, "faction") {
        vec!["name"]
    } else if str_eq(t, "source") {
        vec!["type", "name", "edition", "version"]
    } else if str_eq(t, "datasheet") {
        vec![
            "name",
            "role",
            "loadout",
            "transport",
            "leader_head",
            "leader_footer",
            "damaged_w",
            "damaged_description",
        ]
    } else if str_eq(t, "datasheet_model") {
        vec![
            "name",
            "M",
            "T",
            "Sv",
            "inv_sv",
            "inv_sv_descr",
            "W",
            "Ld",
            "OC",
            "base_size",
            "base_size_descr",
        ]
    } else if str_eq(t, "ability") {
        vec!["name", "legend", "description"]
    } else if str_eq(t, "datasheet_ability") {
        vec!["name", "type", "parameter", "description"]
    } else if str_eq(t, "datasheet_option") {
        vec!["button", "description"]
    } else if str_eq(t, "datasheet_unit_composition") {
        vec!["description"]
    } else if str_eq(t, "datasheet_model_cost") {
        vec!["description", "cost"]
    } else if str_eq(t, "stratagem") {
        vec!["name", "type", "cp_cost", "turn", "phase", "detachment", "description"]
    } else if str_eq(t, "enhancement") {
        vec!["name", "cost", "detachment", "legend", "description"]
    } else if str_eq(t, "detachment") {
        vec!["name", "type", "legend"]
    } else if str_eq(t, "detachment_ability") {
        vec!["name", "detachment", "legend", "description"]
    } else {
        Vec::new()
    };
    assert(names_view(r@) =~= text_fields(t@));
    r
}

fn attrs_of(e: &Entity) -> (r: Attrs)
    ensures
        r@ == entity_attrs(*e),
{
    let t = e.table.as_str();
    let mut attrs = Attrs::new();
    if str_eq(t, "datasheet") {
        attrs.insert_text("role", field(e, "role"));
        attrs.insert_text("virtual", field(e, "virtual"));
        attrs.insert_text("faction_id", field(e, "faction_id"));
        let node = match ref_id(e, "faction_id") {
            Some(v) => v,
            None => {
                proof {
                    reveal_strlit("");
                }
                ""
            },
        };
        assert(node@ == match ref_spec(*e, "faction_id"@) {
            Some(v) => v,
            None => Seq::<char>::empty(),
        });
        let ghost m0 = attrs@;
        attrs.insert_text("faction_node", node);
        assert(m0 == Map::<Seq<char>, AttrValueView>::empty().insert("role"@, AttrValueView::Text(field_spec(*e, "role"@))).insert("virtual"@, AttrValueView::Text(field_spec(*e, "virtual"@))).insert("faction_id"@, AttrValueView::Text(field_spec(*e, "faction_id"@))));
        assert(attrs@ == entity_attrs(*e));
    } else if str_eq(t, "datasheet_model") {
        attrs.insert_text("line", field(e, "line"));
        attrs.insert_text("M", field(e, "M"));
        attrs.insert_text("T", field(e, "T"));
        attrs.insert_text("Sv", field(e, "Sv"));
        attrs.insert_text("W", field(e, "W"));
        attrs.insert_text("Ld", field(e, "Ld"));
        attrs.insert_text("OC", field(e, "OC"));
        assert(attrs@ == entity_attrs(*e));
    } else {
        assert(attrs@ == entity_attrs(*e));
    }
    attrs
}

proof fn lemma_link_of_last(ents: Seq<Entity>, id: Seq<char>, j: int, i: int)
    requires
        0 <= j < i <= ents.len(),
        ents[j].id@ == id,
        forall|k: int| j < k < ents.len() ==> #[trigger] ents[k].id@ != id,
    ensures
        link_of_spec(ents, id, i) == link_of_spec(ents, id, j + 1),
    decreases i,
{
    if i > j + 1 {
        lemma_link_of_last(ents, id, j, i - 1);
    }
}

proof fn lemma_link_of_absent(ents: Seq<Entity>, id: Seq<char>, i: int)
    requires
        0 <= i <= ents.len(),
        !has_entity_id(ents, id, ents.len() as int),
    ensures
        link_of_spec(ents, id, i) is None,
    decreases i,
{
    if i > 0 {
        assert(ents[i - 1].id@ != id) by {
            if ents[i - 1].id@ == id {
                assert(has_entity_id(ents, id, ents.len() as int));
            }
        }
        lemma_link_of_absent(ents, id, i - 1);
    }
}

/// The link of the last entity with id `id`, when it is not empty; `index`
/// gives the last position of each id.
pub fn link_of(ents: &Vec<Entity>, index: &StringHashMap<usize>, id: &str) -> (r: Option<String>)
    requires
        indexes_last(index@, ents@, ents@.len() as int),
    ensures
        opt_view(r) == link_of_spec(ents@, id@, ents@.len() as int),
{
    match index.get(id) {
        Some(j) => {
            let j = *j;
            proof {
                assert(index@.contains_key(id@));
                lemma_link_of_last(ents@, id@, j as int, ents@.len() as int);
            }
            let link = field(&ents[j], "link");
            if link.is_empty() {
                None
            } else {
                Some(copy_str(link))
            }
        },
        None => {
            proof {
                lemma_link_of_absent(ents@, id@, ents@.len() as int);
            }
            None
        },
    }
}

fn ref_link_of(e: &Entity, ents: &Vec<Entity>, index: &StringHashMap<usize>, name: &str) -> (r: Option<String>)
    requires
        indexes_last(index@, ents@, ents@.len() as int),
    ensures
        opt_view(r) == ref_link(*e, ents@, name@),
{
    match ref_id(e, name) {
        Some(id) => link_of(ents, index, id),
        None => None,
    }
}

/// The source URL of an entity's node.
pub fn source_url_of(e: &Entity, ents: &Vec<Entity>, index: &StringHashMap<usize>) -> (r: Option<String>)
    requires
        indexes_last(index@, ents@, ents@.len() as int),
    ensures
        opt_view(r) == entity_source_url(*e, ents@),
{
    let own = field(e, "link");
    if !own.is_empty() {
        return Some(copy_str(own));
    }
    let by_datasheet = ref_link_of(e, ents, index, "datasheet_id");
    if by_datasheet.is_some() {
        return by_datasheet;
    }
    let by_leader = ref_link_of(e, ents, index, "leader_id");
    if by_leader.is_some() {
        return by_leader;
    }
    ref_link_of(e, ents, index, "faction_id")
}

/// The node an entity becomes.
pub fn entity_node(entity: &Entity, ents: &Vec<Entity>, index: &StringHashMap<usize>) -> (n: GraphNode)
    requires
        indexes_last(index@, ents@, ents@.len() as int),
    ensures
        node_view(n) == entity_node_spec(*entity, ents@),
{
    let names = fields_for(entity.table.as_str());
    GraphNode {
        id: copy_str(entity.id.as_str()),
        kind: copy_str(kind_of(entity.table.as_str())),
        label: label_of(entity),
        text: text_of(entity, names),
        attrs: attrs_of(entity),
        source_url: source_url_of(entity, ents, index),
    }
}

} // verus!
