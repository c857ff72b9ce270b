//! Lookup tables built once per corpus or bundle, so that finding an entity
//! or a node by id does not walk the whole list.

use vstd::prelude::*;
use vstd::hash_map::StringHashMap;
use vstd::hash_set::StringHashSet;

use crate::graph::bundle::has_node_id;
use crate::graph::corpus::Entity;
use crate::graph::model::GraphNode;
use crate::text::copy_str;

verus! {

/// Some entity among the first `n` has id `id`.
pub open spec fn has_entity_id(ents: Seq<Entity>, id: Seq<char>, n: int) -> bool {
    exists|j: int| 0 <= j < n && #[trigger] ents[j].id@ == id
}

/// `m` maps each id of the first `n` entities to the position of the last
/// entity among them with that id.
pub open spec fn indexes_last(m: Map<Seq<char>, usize>, ents: Seq<Entity>, n: int) -> bool {
    &&& forall|id: Seq<char>| #[trigger] m.contains_key(id) == has_entity_id(ents, id, n)
    &&& forall|id: Seq<char>|
        #[trigger] m.contains_key(id) ==> {
            &&& m[id] < n
            &&& ents[m[id] as int].id@ == id
            &&& forall|j: int| m[id] < j < n ==> #[trigger] ents[j].id@ != id
        }
}

/// The position of the last entity with each id.
pub fn last_positions(ents: &Vec<Entity>) -> (m: StringHashMap<usize>)
    ensures
        indexes_last(m@, ents@, ents@.len() as int),
{
    let mut m: StringHashMap<usize> = StringHashMap::new();
    let mut i: usize = 0;
    while i < ents.len()
        invariant
            i <= ents@.len(),
            indexes_last(m@, ents@, i as int),
        decreases ents@.len() - i,
    {
        let ghost before = m@;
        let ghost key = ents@[i as int].id@;
        m.insert(copy_str(ents[i].id.as_str()), i);
        proof {
            assert forall|id: Seq<char>| #[trigger] m@.contains_key(id) == has_entity_id(ents@, id, i + 1) by {
                if id == key {
                    assert(ents@[i as int].id@ == id);
                } else if has_entity_id(ents@, id, i + 1) {
                    let j = choose|j: int| 0 <= j < i + 1 && #[trigger] ents@[j].id@ == id;
                    assert(has_entity_id(ents@, id, i as int)) by {
                        assert(j < i);
                    }
                } else {
                    assert(!has_entity_id(ents@, id, i as int)) by {
                        if has_entity_id(ents@, id, i as int) {
                            let j = choose|j: int| 0 <= j < i && #[trigger] ents@[j].id@ == id;
                            assert(0 <= j < i + 1);
                        }
                    }
                }
            }
            assert forall|id: Seq<char>| #[trigger] m@.contains_key(id) implies {
                &&& m@[id] < i + 1
                &&& ents@[m@[id] as int].id@ == id
                &&& forall|j: int| m@[id] < j < i + 1 ==> #[trigger] ents@[j].id@ != id
            } by {
                if id != key {
                    assert(before.contains_key(id));
                }
            }
        }
        i = i + 1;
    }
    m
}

/// The ids of a list of nodes.
pub fn node_id_set(nodes: &Vec<GraphNode>) -> (s: StringHashSet)
    ensures
        forall|id: Seq<char>| #[trigger] s@.contains(id) == has_node_id(nodes@, id),
{
    let mut s = StringHashSet::new();
    let mut i: usize = 0;
    while i < nodes.len()
        invariant
            i <= nodes@.len(),
            forall|id: Seq<char>| #[trigger] s@.contains(id) == has_node_id(nodes@.take(i as int), id),
        decreases nodes@.len() - i,
    {
        let ghost before = s@;
        s.insert(copy_str(nodes[i].id.as_str()));
        proof {
            let t = nodes@.take(i + 1);
            assert forall|id: Seq<char>| #[trigger] s@.contains(id) == has_node_id(t, id) by {
                if id == nodes@[i as int].id@ {
                    assert(t[i as int].id@ == id);
                } else if has_node_id(t, id) {
                    let j = choose|j: int| 0 <= j < t.len() && #[trigger] t[j].id@ == id;
                    assert(nodes@.take(i as int)[j].id@ == id);
                } else if before.contains(id) {
                    let j = choose|j: int| 0 <= j < i && #[trigger] nodes@.take(i as int)[j].id@ == id;
                    assert(t[j].id@ == id);
                }
            }
        }
        i = i + 1;
    }
    assert(nodes@.take(i as int) =~= nodes@);
    s
}

} // verus!
