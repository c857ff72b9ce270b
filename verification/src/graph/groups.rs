//! Keyword rows folded into one node per normalized keyword, and wargear
//! profile rows grouped into one node per datasheet line.

use vstd::prelude::*;
use vstd::hash_map::StringHashMap;
use vstd::hash_set::StringHashSet;
use vstd::utf8::encode_utf8;

use crate::foreign::case_fold_spec;
use crate::graph::attrs::{AttrValueView, Attrs, strings_view};
use crate::graph::corpus::{Entity, field, field_spec, ref_id, ref_spec};
use crate::graph::lookup::indexes_last;
use crate::tagged::{lemma_tagged_prefix, push_tagged, tagged};
use crate::graph::model::{GraphNode, opt_view};
use crate::graph::nodes::{NodeSpec, link_of, link_of_spec, node_view};
use crate::graph::textutil::{
    integer_less, integer_lt, integer_token, integer_token_spec, join_nonempty, join_parts,
    join_parts_spec, keyword_label, normalize_keyword, part, part_spec, quote_bytes, quote_segment,
};
use crate::jsonl::string_views;
use crate::text::{
    append_str, chars_less, chars_of, copy_str, join, seq_lt, str_eq, string_of,
};

verus! {

/// A distinct keyword: its display label and its normalized identity.
pub struct KeywordAccum {
    pub label: String,
    pub normalized: String,
}

/// The distinct keywords of `datasheet_keyword` rows among the first `n`
/// entities, in first-seen order, each labeled by its first row.
pub open spec fn keywords_upto(ents: Seq<Entity>, n: int) -> Seq<(Seq<char>, Seq<char>)>
    decreases n,
{
    if n <= 0 || n > ents.len() {
        Seq::empty()
    } else {
        let k = keywords_upto(ents, n - 1);
        let e = ents[n - 1];
        if e.table@ == "datasheet_keyword"@ {
            let label = keyword_label(field_spec(e, "keyword"@));
            let norm = case_fold_spec(label);
            if exists|j: int| 0 <= j < k.len() && #[trigger] k[j].1 == norm {
                k
            } else {
                k.push((label, norm))
            }
        } else {
            k
        }
    }
}

/// The views of the keywords gathered so far.
pub open spec fn keyword_views(v: Seq<KeywordAccum>) -> Seq<(Seq<char>, Seq<char>)> {
    v.map_values(|k: KeywordAccum| (k.label@, k.normalized@))
}

/// `s` holds exactly the normalized keywords of `keywords`.
pub open spec fn names_keywords(s: Set<Seq<char>>, keywords: Seq<KeywordAccum>) -> bool {
    forall|k: Seq<char>|
        #[trigger] s.contains(k) == exists|j: int| 0 <= j < keywords.len() && #[trigger] keyword_views(keywords)[j].1 == k
}

proof fn lemma_names_keywords_push(s: Set<Seq<char>>, keywords: Seq<KeywordAccum>, w: KeywordAccum)
    requires
        names_keywords(s, keywords),
    ensures
        names_keywords(s.insert(w.normalized@), keywords.push(w)),
{
    let k2 = keywords.push(w);
    assert forall|k: Seq<char>| #[trigger] s.insert(w.normalized@).contains(k) == exists|j: int|
        0 <= j < k2.len() && #[trigger] keyword_views(k2)[j].1 == k by {
        if k == w.normalized@ {
            assert(keyword_views(k2)[keywords.len() as int].1 == k);
        } else if s.contains(k) {
            let j = choose|j: int| 0 <= j < keywords.len() && #[trigger] keyword_views(keywords)[j].1 == k;
            assert(keyword_views(k2)[j].1 == k);
        } else if exists|j: int| 0 <= j < k2.len() && #[trigger] keyword_views(k2)[j].1 == k {
            let j = choose|j: int| 0 <= j < k2.len() && #[trigger] keyword_views(k2)[j].1 == k;
            assert(j < keywords.len());
            assert(keyword_views(keywords)[j].1 == k);
        }
    }
}

/// The distinct keywords of the corpus, in first-seen order.
pub fn collect_keywords(ents: &Vec<Entity>) -> (r: Vec<KeywordAccum>)
    ensures
        keyword_views(r@) == keywords_upto(ents@, ents@.len() as int),
{
    let mut keywords: Vec<KeywordAccum> = Vec::new();
    let mut known = StringHashSet::new();
    let mut i: usize = 0;
    while i < ents.len()
        invariant
            i <= ents@.len(),
            keyword_views(keywords@) == keywords_upto(ents@, i as int),
            names_keywords(known@, keywords@),
        decreases ents@.len() - i,
    {
        let e = &ents[i];
        if str_eq(e.table.as_str(), "datasheet_keyword") {
            let (label, normalized) = normalize_keyword(field(e, "keyword"));
            if !known.contains(normalized.as_str()) {
                let ghost before = keywords@;
                let ghost before_known = known@;
                known.insert(copy_str(normalized.as_str()));
                let w = KeywordAccum { label, normalized };
                proof {
                    lemma_names_keywords_push(before_known, before, w);
                }
                keywords.push(w);
                assert(keyword_views(keywords@) =~= keyword_views(before).push(
                    (keywords@[before.len() as int].label@, keywords@[before.len() as int].normalized@),
                ));
            }
        }
        i = i + 1;
    }
    keywords
}

/// The set of normalized keywords of `keywords`.
pub fn keyword_set(keywords: &Vec<KeywordAccum>) -> (s: StringHashSet)
    ensures
        names_keywords(s@, keywords@),
{
    let mut s = StringHashSet::new();
    let mut i: usize = 0;
    proof {
        assert(names_keywords(s@, keywords@.take(0)));
    }
    while i < keywords.len()
        invariant
            i <= keywords@.len(),
            names_keywords(s@, keywords@.take(i as int)),
        decreases keywords@.len() - i,
    {
        let ghost before = s@;
        s.insert(copy_str(keywords[i].normalized.as_str()));
        proof {
            lemma_names_keywords_push(before, keywords@.take(i as int), keywords@[i as int]);
            assert(keywords@.take(i as int).push(keywords@[i as int]) =~= keywords@.take(i + 1));
        }
        i = i + 1;
    }
    assert(keywords@.take(i as int) =~= keywords@);
    s
}

/// The id of the keyword node for a normalized keyword.
pub open spec fn keyword_id(normalized: Seq<char>) -> Seq<char> {
    "10ed:keyword:"@ + quote_bytes(encode_utf8(normalized))
}

/// `10ed:keyword:` and the percent-encoded normalized keyword.
pub fn keyword_node_id(normalized: &str) -> (r: String)
    ensures
        r@ == keyword_id(normalized@),
{
    let mut id = chars_of("10ed:keyword:");
    append_str(&mut id, quote_segment(normalized).as_str());
    string_of(id.as_slice())
}

/// The node of a keyword.
pub open spec fn keyword_node_spec(k: (Seq<char>, Seq<char>)) -> NodeSpec {
    NodeSpec {
        id: keyword_id(k.1),
        kind: "Keyword"@,
        label: k.0,
        text: k.0,
        attrs: Map::empty().insert("normalized"@, AttrValueView::Text(k.1)),
        source_url: None,
    }
}

/// The node of a keyword.
pub fn keyword_node(keyword: &KeywordAccum) -> (n: GraphNode)
    ensures
        node_view(n) == keyword_node_spec((keyword.label@, keyword.normalized@)),
{
    let mut attrs = Attrs::new();
    attrs.insert_text("normalized", keyword.normalized.as_str());
    GraphNode {
        id: keyword_node_id(keyword.normalized.as_str()),
        kind: copy_str("Keyword"),
        label: copy_str(keyword.label.as_str()),
        text: copy_str(keyword.label.as_str()),
        attrs,
        source_url: None,
    }
}

/// A wargear group: the datasheet id and line its rows share, and the
/// positions of its profile rows in the corpus, in file order.
pub struct WargearGroup {
    pub datasheet_id: String,
    pub line: String,
    pub profiles: Vec<usize>,
}

/// A wargear group as values.
pub type GroupSpec = (Seq<char>, Seq<char>, Seq<int>);

/// The position of the group with key `(ds, line)` from `j` on.
pub open spec fn group_index(g: Seq<GroupSpec>, ds: Seq<char>, line: Seq<char>, j: int) -> Option<int>
    decreases g.len() - j,
{
    if j < 0 || j >= g.len() {
        None
    } else if g[j].0 == ds && g[j].1 == line {
        Some(j)
    } else {
        group_index(g, ds, line, j + 1)
    }
}

/// The wargear groups among the first `n` entities, in first-seen order.
pub open spec fn groups_upto(ents: Seq<Entity>, n: int) -> Seq<GroupSpec>
    decreases n,
{
    if n <= 0 || n > ents.len() {
        Seq::empty()
    } else {
        let g = groups_upto(ents, n - 1);
        let e = ents[n - 1];
        if e.table@ == "datasheet_wargear"@ {
            let ds = field_spec(e, "datasheet_id"@);
            let line = field_spec(e, "line"@);
            match group_index(g, ds, line, 0) {
                Some(j) => g.update(j, (g[j].0, g[j].1, g[j].2.push(n - 1))),
                None => g.push((ds, line, seq![n - 1])),
            }
        } else {
            g
        }
    }
}

/// The view of a group.
pub open spec fn group_view(g: WargearGroup) -> GroupSpec {
    (g.datasheet_id@, g.line@, g.profiles@.map_values(|i: usize| i as int))
}

/// The views of a list of groups.
pub open spec fn group_views(v: Seq<WargearGroup>) -> Seq<GroupSpec> {
    v.map_values(|g: WargearGroup| group_view(g))
}

/// The text that stands for a group key.
pub open spec fn group_key_text(ds: Seq<char>, line: Seq<char>) -> Seq<char> {
    tagged(ds) + tagged(line)
}

proof fn lemma_group_key_text(a: Seq<char>, b: Seq<char>, c: Seq<char>, d: Seq<char>)
    requires
        group_key_text(a, b) == group_key_text(c, d),
    ensures
        a == c && b == d,
{
    lemma_tagged_prefix(a, c, tagged(b), tagged(d));
    assert(tagged(b) =~= tagged(b) + Seq::<char>::empty());
    assert(tagged(d) =~= tagged(d) + Seq::<char>::empty());
    lemma_tagged_prefix(b, d, Seq::empty(), Seq::empty());
}

/// `m` gives, for each key that some group has, the first group with it.
pub open spec fn indexes_groups(m: Map<Seq<char>, usize>, g: Seq<GroupSpec>) -> bool {
    &&& forall|ds: Seq<char>, line: Seq<char>|
        #[trigger] m.contains_key(group_key_text(ds, line)) ==> group_index(g, ds, line, 0) == Some(
            m[group_key_text(ds, line)] as int,
        )
    &&& forall|ds: Seq<char>, line: Seq<char>|
        (#[trigger] group_index(g, ds, line, 0)) is Some ==> m.contains_key(group_key_text(ds, line))
}

proof fn lemma_group_index_push(g: Seq<GroupSpec>, x: GroupSpec, ds: Seq<char>, line: Seq<char>, j: int)
    requires
        0 <= j <= g.len(),
    ensures
        group_index(g.push(x), ds, line, j) == match group_index(g, ds, line, j) {
            Some(k) => Some(k),
            None => if x.0 == ds && x.1 == line {
                Some(g.len() as int)
            } else {
                None
            },
        },
    decreases g.len() - j,
{
    if j < g.len() {
        assert(g.push(x)[j] == g[j]);
        lemma_group_index_push(g, x, ds, line, j + 1);
    } else {
        assert(g.push(x)[j] == x);
        assert(group_index(g.push(x), ds, line, j + 1) is None);
    }
}

proof fn lemma_group_index_update(g: Seq<GroupSpec>, i: int, p: Seq<int>, ds: Seq<char>, line: Seq<char>, j: int)
    requires
        0 <= i < g.len(),
        0 <= j,
    ensures
        group_index(g.update(i, (g[i].0, g[i].1, p)), ds, line, j) == group_index(g, ds, line, j),
    decreases g.len() - j,
{
    if j < g.len() {
        lemma_group_index_update(g, i, p, ds, line, j + 1);
    }
}

/// The text of a group key.
fn group_key(ds: &str, line: &str) -> (r: String)
    ensures
        r@ == group_key_text(ds@, line@),
{
    let mut out: Vec<char> = Vec::new();
    push_tagged(&mut out, ds);
    push_tagged(&mut out, line);
    assert(out@ =~= group_key_text(ds@, line@));
    string_of(out.as_slice())
}

/// Every group's profile positions lie below `n`.
pub open spec fn positions_below(g: Seq<GroupSpec>, n: int) -> bool {
    forall|j: int, k: int| 0 <= j < g.len() && 0 <= k < g[j].2.len() ==> 0 <= #[trigger] g[j].2[k] < n
}

proof fn lemma_groups_positions(ents: Seq<Entity>, n: int)
    requires
        0 <= n <= ents.len(),
    ensures
        positions_below(groups_upto(ents, n), n),
        forall|j: int| 0 <= j < groups_upto(ents, n).len() ==> #[trigger] groups_upto(ents, n)[j].2.len() > 0,
    decreases n,
{
    if n > 0 {
        lemma_groups_positions(ents, n - 1);
        let g = groups_upto(ents, n - 1);
        let e = ents[n - 1];
        if e.table@ == "datasheet_wargear"@ {
            let ds = field_spec(e, "datasheet_id"@);
            let line = field_spec(e, "line"@);
            lemma_group_index(g, ds, line, 0);
        }
    }
}

proof fn lemma_group_index(g: Seq<GroupSpec>, ds: Seq<char>, line: Seq<char>, j: int)
    ensures
        group_index(g, ds, line, j) matches Some(k) ==> j <= k < g.len() && 0 <= k,
    decreases g.len() - j,
{
    if 0 <= j < g.len() && !(g[j].0 == ds && g[j].1 == line) {
        lemma_group_index(g, ds, line, j + 1);
    }
}

/// The wargear groups of the corpus, in first-seen order.
pub fn collect_groups(ents: &Vec<Entity>) -> (r: Vec<WargearGroup>)
    ensures
        group_views(r@) == groups_upto(ents@, ents@.len() as int),
        forall|j: int, k: int|
            0 <= j < r@.len() && 0 <= k < r@[j].profiles@.len() ==> #[trigger] r@[j].profiles@[k] < ents@.len(),
{
    proof {
        lemma_groups_positions(ents@, ents@.len() as int);
    }
    let mut groups: Vec<WargearGroup> = Vec::new();
    let mut index: StringHashMap<usize> = StringHashMap::new();
    let mut i: usize = 0;
    while i < ents.len()
        invariant
            i <= ents@.len(),
            group_views(groups@) == groups_upto(ents@, i as int),
            indexes_groups(index@, group_views(groups@)),
        decreases ents@.len() - i,
    {
        let e = &ents[i];
        if str_eq(e.table.as_str(), "datasheet_wargear") {
            let ds = field(e, "datasheet_id");
            let line = field(e, "line");
            let ghost before = group_views(groups@);
            proof {
                lemma_group_index(before, ds@, line@, 0);
            }
            let key = group_key(ds, line);
            let found = match index.get(key.as_str()) {
                Some(j) => Some(*j),
                None => None,
            };
            proof {
                if index@.contains_key(key@) {
                    assert(group_index(before, ds@, line@, 0) == Some(index@[key@] as int));
                } else if group_index(before, ds@, line@, 0) is Some {
                    assert(index@.contains_key(group_key_text(ds@, line@)));
                }
            }
            match found {
                Some(j) => {
                    let ghost old_groups = groups@;
                    let ghost p2 = before[j as int].2.push(i as int);
                    let ghost old_profiles = groups@[j as int].profiles@;
                    groups[j].profiles.push(i);
                    assert(groups@[j as int].profiles@.map_values(|x: usize| x as int) =~= old_profiles.map_values(
                        |x: usize| x as int,
                    ).push(i as int));
                    proof {
                        assert(groups@ =~= old_groups.update(j as int, groups@[j as int]));
                        assert(group_view(groups@[j as int]) == (before[j as int].0, before[j as int].1, p2));
                        assert(group_views(groups@) =~= before.update(j as int, (before[j as int].0, before[j as int].1, p2)));
                        assert forall|ds2: Seq<char>, line2: Seq<char>|
                            #[trigger] group_index(group_views(groups@), ds2, line2, 0) == group_index(before, ds2, line2, 0) by {
                            lemma_group_index_update(before, j as int, p2, ds2, line2, 0);
                        }
                    }
                },
                None => {
                    let mut profiles: Vec<usize> = Vec::new();
                    profiles.push(i);
                    assert(profiles@.map_values(|x: usize| x as int) =~= seq![i as int]);
                    let ghost old_groups = groups@;
                    let at = groups.len();
                    groups.push(WargearGroup { datasheet_id: copy_str(ds), line: copy_str(line), profiles });
                    let ghost old_index = index@;
                    let ghost x: GroupSpec = (ds@, line@, seq![i as int]);
                    index.insert(key, at);
                    proof {
                        assert(groups@ =~= old_groups.push(groups@[old_groups.len() as int]));
                        assert(group_views(groups@) =~= before.push(x));
                        let gv2 = group_views(groups@);
                        assert forall|ds2: Seq<char>, line2: Seq<char>|
                            #[trigger] index@.contains_key(group_key_text(ds2, line2)) implies group_index(gv2, ds2, line2, 0)
                            == Some(index@[group_key_text(ds2, line2)] as int) by {
                            lemma_group_index_push(before, x, ds2, line2, 0);
                            if group_key_text(ds2, line2) == group_key_text(ds@, line@) {
                                lemma_group_key_text(ds2, line2, ds@, line@);
                            } else {
                                assert(old_index.contains_key(group_key_text(ds2, line2)));
                            }
                        }
                        assert forall|ds2: Seq<char>, line2: Seq<char>|
                            (#[trigger] group_index(gv2, ds2, line2, 0)) is Some implies index@.contains_key(
                            group_key_text(ds2, line2),
                        ) by {
                            lemma_group_index_push(before, x, ds2, line2, 0);
                            if !(ds2 == ds@ && line2 == line@) {
                                assert(group_index(before, ds2, line2, 0) is Some);
                            }
                        }
                    }
                },
            }
        }
        i = i + 1;
    }
    proof {
        assert forall|j: int, k: int|
            0 <= j < groups@.len() && 0 <= k < groups@[j].profiles@.len() implies #[trigger] groups@[j].profiles@[k] < ents@.len() by {
            assert(group_views(groups@)[j].2[k] == groups@[j].profiles@[k] as int);
        }
    }
    groups
}


/// The `line_in_wargear` of the entity at position `i`.
pub open spec fn line_key(ents: Seq<Entity>, i: int) -> Seq<char> {
    field_spec(ents[i], "line_in_wargear"@)
}

/// Every profile's `line_in_wargear` reads as an integer.
pub open spec fn all_numeric(ents: Seq<Entity>, ps: Seq<int>) -> bool {
    forall|k: int| 0 <= k < ps.len() ==> (#[trigger] integer_token_spec(line_key(ents, ps[k]))) is Some
}

/// Profile `a` sorts before `b`: as integers when the group is numeric, else
/// in string order.
pub open spec fn profile_less(ents: Seq<Entity>, numeric: bool, a: int, b: int) -> bool {
    if numeric {
        integer_less(line_key(ents, a), line_key(ents, b))
    } else {
        seq_lt(line_key(ents, a), line_key(ents, b))
    }
}

/// `x` placed into `s` before the first element it sorts before.
pub open spec fn insert_sorted(ents: Seq<Entity>, numeric: bool, s: Seq<int>, x: int) -> Seq<int>
    decreases s.len(),
{
    if s.len() == 0 {
        seq![x]
    } else if profile_less(ents, numeric, x, s[0]) {
        seq![x] + s
    } else {
        seq![s[0]] + insert_sorted(ents, numeric, s.drop_first(), x)
    }
}

/// The profiles in stable sorted order (each placed after every profile that
/// does not sort after it, as a stable sort places them).
pub open spec fn sort_profiles_spec(ents: Seq<Entity>, numeric: bool, s: Seq<int>) -> Seq<int>
    decreases s.len(),
{
    if s.len() == 0 {
        Seq::empty()
    } else {
        insert_sorted(ents, numeric, sort_profiles_spec(ents, numeric, s.drop_last()), s.last())
    }
}

/// A group's profiles in their sort order.
pub open spec fn sorted_profiles(ents: Seq<Entity>, ps: Seq<int>) -> Seq<int> {
    sort_profiles_spec(ents, all_numeric(ents, ps), ps)
}

fn profile_lt(ents: &Vec<Entity>, numeric: bool, a: usize, b: usize) -> (r: bool)
    requires
        a < ents@.len(),
        b < ents@.len(),
        numeric ==> integer_token_spec(line_key(ents@, a as int)) is Some,
        numeric ==> integer_token_spec(line_key(ents@, b as int)) is Some,
    ensures
        r == profile_less(ents@, numeric, a as int, b as int),
{
    let x = field(&ents[a], "line_in_wargear");
    let y = field(&ents[b], "line_in_wargear");
    if numeric {
        integer_lt(x, y)
    } else {
        chars_less(&chars_of(x), &chars_of(y))
    }
}

proof fn lemma_insert_sorted_members(ents: Seq<Entity>, numeric: bool, s: Seq<int>, x: int)
    ensures
        insert_sorted(ents, numeric, s, x).len() == s.len() + 1,
        forall|k: int| 0 <= k < insert_sorted(ents, numeric, s, x).len() ==> (#[trigger] insert_sorted(ents, numeric, s, x)[k] == x || s.contains(insert_sorted(ents, numeric, s, x)[k])),
    decreases s.len(),
{
    if s.len() > 0 && !profile_less(ents, numeric, x, s[0]) {
        lemma_insert_sorted_members(ents, numeric, s.drop_first(), x);
        let r = insert_sorted(ents, numeric, s, x);
        assert forall|k: int| 0 <= k < r.len() implies (#[trigger] r[k] == x || s.contains(r[k])) by {
            if k > 0 {
                let t = insert_sorted(ents, numeric, s.drop_first(), x);
                assert(r[k] == t[k - 1]);
                if t[k - 1] != x {
                    let m = choose|m: int| 0 <= m < s.drop_first().len() && s.drop_first()[m] == t[k - 1];
                    assert(s[m + 1] == t[k - 1]);
                }
            } else {
                assert(s[0] == r[0]);
            }
        }
    } else if s.len() > 0 {
        let r = insert_sorted(ents, numeric, s, x);
        assert forall|k: int| 0 <= k < r.len() implies (#[trigger] r[k] == x || s.contains(r[k])) by {
            if k > 0 {
                assert(r[k] == s[k - 1]);
            }
        }
    }
}

proof fn lemma_sort_members(ents: Seq<Entity>, numeric: bool, s: Seq<int>)
    ensures
        sort_profiles_spec(ents, numeric, s).len() == s.len(),
        forall|k: int| 0 <= k < s.len() ==> s.contains(#[trigger] sort_profiles_spec(ents, numeric, s)[k]),
    decreases s.len(),
{
    if s.len() > 0 {
        lemma_sort_members(ents, numeric, s.drop_last());
        let t = sort_profiles_spec(ents, numeric, s.drop_last());
        lemma_insert_sorted_members(ents, numeric, t, s.last());
        let r = sort_profiles_spec(ents, numeric, s);
        assert forall|k: int| 0 <= k < s.len() implies s.contains(#[trigger] r[k]) by {
            if r[k] == s.last() {
                assert(s[s.len() - 1] == r[k]);
            } else {
                assert(t.contains(r[k]));
                let m = choose|m: int| 0 <= m < t.len() && t[m] == r[k];
                assert(s.drop_last().contains(t[m]));
                let q = choose|q: int| 0 <= q < s.drop_last().len() && s.drop_last()[q] == t[m];
                assert(s[q] == r[k]);
            }
        }
    }
}

/// The positions of `ps` in sorted order.
fn sort_profiles(ents: &Vec<Entity>, ps: &Vec<usize>) -> (r: Vec<usize>)
    requires
        forall|k: int| 0 <= k < ps@.len() ==> #[trigger] ps@[k] < ents@.len(),
    ensures
        r@.map_values(|i: usize| i as int) == sorted_profiles(ents@, ps@.map_values(|i: usize| i as int)),
        forall|k: int| 0 <= k < r@.len() ==> #[trigger] r@[k] < ents@.len(),
{
    let ghost pv = ps@.map_values(|i: usize| i as int);
    let mut numeric = true;
    let mut k: usize = 0;
    while k < ps.len()
        invariant
            k <= ps@.len(),
            pv == ps@.map_values(|i: usize| i as int),
            forall|m: int| 0 <= m < ps@.len() ==> #[trigger] ps@[m] < ents@.len(),
            numeric == forall|m: int| 0 <= m < k ==> (#[trigger] integer_token_spec(line_key(ents@, pv[m]))) is Some,
        decreases ps@.len() - k,
    {
        let ghost was = numeric;
        let tok = integer_token(field(&ents[ps[k]], "line_in_wargear"));
        assert(pv[k as int] == ps@[k as int] as int);
        if tok.is_none() {
            numeric = false;
        }
        proof {
            assert(numeric == (was && integer_token_spec(line_key(ents@, pv[k as int])) is Some));
            assert forall|m: int| numeric && 0 <= m < k + 1 implies (#[trigger] integer_token_spec(
                line_key(ents@, pv[m]),
            )) is Some by {}
        }
        k = k + 1;
    }
    assert(numeric == all_numeric(ents@, pv));
    let mut sorted: Vec<usize> = Vec::new();
    let mut i: usize = 0;
    while i < ps.len()
        invariant
            i <= ps@.len(),
            pv == ps@.map_values(|i: usize| i as int),
            numeric == all_numeric(ents@, pv),
            forall|m: int| 0 <= m < ps@.len() ==> #[trigger] ps@[m] < ents@.len(),
            sorted@.map_values(|i: usize| i as int) == sort_profiles_spec(ents@, numeric, pv.take(i as int)),
            forall|m: int| 0 <= m < sorted@.len() ==> pv.contains(#[trigger] sorted@[m] as int),
        decreases ps@.len() - i,
    {
        let x = ps[i];
        let ghost sv = sorted@.map_values(|i: usize| i as int);
        proof {
            assert(pv.take(i + 1).drop_last() =~= pv.take(i as int));
            assert(pv.take(i + 1).last() == x as int);
        }
        let mut j: usize = 0;
        assert(sv.take(0) =~= Seq::<int>::empty() && sv.skip(0) =~= sv);
        assert(pv[i as int] == x as int);
        while j < sorted.len() && !profile_lt(ents, numeric, x, sorted[j])
            invariant
                j <= sorted@.len(),
                sv == sorted@.map_values(|i: usize| i as int),
                x < ents@.len(),
                numeric ==> integer_token_spec(line_key(ents@, x as int)) is Some,
                numeric == all_numeric(ents@, pv),
                forall|m: int| 0 <= m < sorted@.len() ==> pv.contains(#[trigger] sorted@[m] as int),
                forall|m: int| 0 <= m < ps@.len() ==> #[trigger] ps@[m] < ents@.len(),
                pv == ps@.map_values(|i: usize| i as int),
                insert_sorted(ents@, numeric, sv, x as int) == sv.take(j as int) + insert_sorted(ents@, numeric, sv.skip(j as int), x as int),
            decreases sorted@.len() - j,
        {
            proof {
                let q = choose|q: int| 0 <= q < pv.len() && pv[q] == sorted@[j as int] as int;
                assert(ps@[q] < ents@.len());
                assert(sv.skip(j as int).drop_first() =~= sv.skip(j + 1));
                assert(sv.take(j + 1) =~= sv.take(j as int).push(sv[j as int]));
            }
            j = j + 1;
        }
        proof {
            if j < sorted@.len() {
                let q = choose|q: int| 0 <= q < pv.len() && pv[q] == sorted@[j as int] as int;
            }
            assert(sv.skip(j as int).len() == 0 ==> sv.take(j as int) =~= sv);
        }
        sorted.insert(j, x);
        proof {
            assert(sorted@.map_values(|i: usize| i as int) =~= sv.take(j as int) + insert_sorted(ents@, numeric, sv.skip(j as int), x as int));
            assert forall|m: int| 0 <= m < sorted@.len() implies pv.contains(#[trigger] sorted@[m] as int) by {
                if m == j {
                    assert(pv[i as int] == x as int);
                } else if m < j {
                } else {
                }
            }
        }
        i = i + 1;
    }
    assert(pv.take(i as int) =~= pv);
    sorted
}


/// The weapon profile's stats line: range, type, attacks, skill, strength,
/// AP and damage, the non-empty ones joined with spaces.
pub open spec fn stats_text(e: Entity) -> Seq<char> {
    join(
        seq![
            field_spec(e, "range"@),
            field_spec(e, "type"@),
            field_spec(e, "A"@),
            field_spec(e, "BS_WS"@),
            field_spec(e, "S"@),
            field_spec(e, "AP"@),
            field_spec(e, "D"@),
        ].filter(|p: Seq<char>| p.len() > 0),
        seq![' '],
    )
}

/// Each profile's stats line and description part, in order.
pub open spec fn profile_parts(ents: Seq<Entity>, s: Seq<int>) -> Seq<Seq<char>>
    decreases s.len(),
{
    if s.len() == 0 {
        Seq::empty()
    } else {
        let e = ents[s.last()];
        profile_parts(ents, s.drop_last()) + seq![
            stats_text(e),
            part_spec("description"@, field_spec(e, "description"@)),
        ]
    }
}

/// The id of a wargear group's node.
pub open spec fn wargear_id(ds: Seq<char>, line: Seq<char>) -> Seq<char> {
    "10ed:wargear:"@ + quote_bytes(encode_utf8(ds)) + ":"@ + quote_bytes(encode_utf8(line))
}

/// `10ed:wargear:{datasheet_id}:{line}`, both percent-encoded.
pub fn wargear_node_id(ds: &str, line: &str) -> (r: String)
    ensures
        r@ == wargear_id(ds@, line@),
{
    let mut id = chars_of("10ed:wargear:");
    append_str(&mut id, quote_segment(ds).as_str());
    append_str(&mut id, ":");
    append_str(&mut id, quote_segment(line).as_str());
    string_of(id.as_slice())
}

/// The first profile from `k` on whose datasheet reference has a link.
pub open spec fn first_profile_link(ents: Seq<Entity>, ps: Seq<int>, k: int) -> Option<Seq<char>>
    decreases ps.len() - k,
{
    if k < 0 || k >= ps.len() {
        None
    } else {
        match ref_spec(ents[ps[k]], "datasheet_id"@) {
            Some(id) => match link_of_spec(ents, id, ents.len() as int) {
                Some(l) => Some(l),
                None => first_profile_link(ents, ps, k + 1),
            },
            None => first_profile_link(ents, ps, k + 1),
        }
    }
}

/// The label of a wargear node: the name of its first sorted profile.
pub open spec fn wargear_label(ents: Seq<Entity>, sorted: Seq<int>) -> Seq<char> {
    if sorted.len() > 0 {
        field_spec(ents[sorted[0]], "name"@)
    } else {
        Seq::empty()
    }
}

/// The node of a wargear group.
pub open spec fn wargear_node_spec(ents: Seq<Entity>, g: GroupSpec) -> NodeSpec {
    let sorted = sorted_profiles(ents, g.2);
    NodeSpec {
        id: wargear_id(g.0, g.1),
        kind: "Wargear"@,
        label: wargear_label(ents, sorted),
        text: join_parts_spec(seq![wargear_label(ents, sorted)] + profile_parts(ents, sorted)),
        attrs: Map::empty().insert("line"@, AttrValueView::Text(g.1)).insert(
            "profile_entity_ids"@,
            AttrValueView::List(sorted.map_values(|i: int| ents[i].id@)),
        ),
        source_url: first_profile_link(ents, g.2, 0),
    }
}

fn stats_of(e: &Entity) -> (r: String)
    ensures
        r@ == stats_text(*e),
{
    let stats = vec![
        copy_str(field(e, "range")),
        copy_str(field(e, "type")),
        copy_str(field(e, "A")),
        copy_str(field(e, "BS_WS")),
        copy_str(field(e, "S")),
        copy_str(field(e, "AP")),
        copy_str(field(e, "D")),
    ];
    let ghost sv = string_views(stats@);
    assert(sv =~= seq![
        field_spec(*e, "range"@),
        field_spec(*e, "type"@),
        field_spec(*e, "A"@),
        field_spec(*e, "BS_WS"@),
        field_spec(*e, "S"@),
        field_spec(*e, "AP"@),
        field_spec(*e, "D"@),
    ]);
    join_nonempty(stats, ' ')
}

/// The node of a wargear group.
pub fn wargear_node(group: &WargearGroup, ents: &Vec<Entity>, index: &StringHashMap<usize>) -> (n: GraphNode)
    requires
        indexes_last(index@, ents@, ents@.len() as int),
        forall|k: int| 0 <= k < group.profiles@.len() ==> #[trigger] group.profiles@[k] < ents@.len(),
    ensures
        node_view(n) == wargear_node_spec(ents@, group_view(*group)),
{
    let ghost gv = group_view(*group);
    let sorted = sort_profiles(ents, &group.profiles);
    let ghost sv = sorted@.map_values(|i: usize| i as int);
    assert(sv == sorted_profiles(ents@, gv.2));
    let label = if sorted.len() > 0 {
        copy_str(field(&ents[sorted[0]], "name"))
    } else {
        String::new()
    };
    let mut parts: Vec<String> = Vec::new();
    parts.push(copy_str(label.as_str()));
    let mut ids: Vec<String> = Vec::new();
    let mut k: usize = 0;
    while k < sorted.len()
        invariant
            k <= sorted@.len(),
            sv == sorted@.map_values(|i: usize| i as int),
            forall|m: int| 0 <= m < sorted@.len() ==> #[trigger] sorted@[m] < ents@.len(),
            string_views(parts@) == seq![label@] + profile_parts(ents@, sv.take(k as int)),
            strings_view(ids@) == sv.take(k as int).map_values(|i: int| ents@[i].id@),
        decreases sorted@.len() - k,
    {
        let e = &ents[sorted[k]];
        let ghost before = string_views(parts@);
        let ghost before_ids = ids@;
        let st = stats_of(e);
        let d = part("description", field(e, "description"));
        parts.push(st);
        parts.push(d);
        ids.push(copy_str(e.id.as_str()));
        proof {
            assert(sv.take(k + 1).drop_last() =~= sv.take(k as int));
            assert(sv.take(k + 1).last() == sorted@[k as int] as int);
            assert(string_views(parts@) =~= before + seq![st@, d@]);
            assert(strings_view(ids@) =~= strings_view(before_ids).push(ids@[k as int]@));
            assert(sv.take(k + 1).map_values(|i: int| ents@[i].id@) =~= sv.take(k as int).map_values(
                |i: int| ents@[i].id@,
            ).push(ents@[sorted@[k as int] as int].id@));
        }
        k = k + 1;
    }
    assert(sv.take(k as int) =~= sv);
    let text = join_parts(parts);
    let mut attrs = Attrs::new();
    attrs.insert_text("line", group.line.as_str());
    attrs.insert_list("profile_entity_ids", ids);
    GraphNode {
        id: wargear_node_id(group.datasheet_id.as_str(), group.line.as_str()),
        kind: copy_str("Wargear"),
        label,
        text,
        attrs,
        source_url: wargear_source_url(group, ents, index),
    }
}

fn wargear_source_url(group: &WargearGroup, ents: &Vec<Entity>, index: &StringHashMap<usize>) -> (r: Option<String>)
    requires
        indexes_last(index@, ents@, ents@.len() as int),
        forall|k: int| 0 <= k < group.profiles@.len() ==> #[trigger] group.profiles@[k] < ents@.len(),
    ensures
        opt_view(r) == first_profile_link(ents@, group_view(*group).2, 0),
{
    let ghost pv = group_view(*group).2;
    let mut k: usize = 0;
    while k < group.profiles.len()
        invariant
            k <= group.profiles@.len(),
            pv == group_view(*group).2,
            forall|m: int| 0 <= m < group.profiles@.len() ==> #[trigger] group.profiles@[m] < ents@.len(),
            indexes_last(index@, ents@, ents@.len() as int),
            first_profile_link(ents@, pv, 0) == first_profile_link(ents@, pv, k as int),
        decreases group.profiles@.len() - k,
    {
        assert(pv[k as int] == group.profiles@[k as int] as int);
        if let Some(id) = ref_id(&ents[group.profiles[k]], "datasheet_id") {
            let link = link_of(ents, index, id);
            if link.is_some() {
                return link;
            }
        }
        k = k + 1;
    }
    None
}

} // verus!
