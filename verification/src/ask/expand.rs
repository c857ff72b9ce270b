//! Expanding retrieved passages along the graph: the seeds' factions, the
//! datasheets they name, those datasheets' keywords, abilities and
//! detachments, capped at 32 nodes.

use vstd::prelude::*;

use crate::ask::bundle::{LoadedBundle, node_spec};
use crate::graph::attrs::{copy_strings, strings_view};
use crate::graph::model::EdgeRecord;
use crate::text::{copy_str, str_eq};

verus! {

/// The edge kinds a seed is expanded along.
pub open spec fn expand_kinds() -> Seq<Seq<char>> {
    seq![
        "FACTION_HAS_DATASHEET"@,
        "FACTION_HAS_DETACHMENT"@,
        "FACTION_HAS_ABILITY"@,
        "FACTION_HAS_STRATAGEM"@,
        "FACTION_HAS_ENHANCEMENT"@,
        "FACTION_HAS_DETACHMENT_ABILITY"@,
        "DATASHEET_HAS_KEYWORD"@,
        "DATASHEET_HAS_ABILITY"@,
        "DETACHMENT_HAS_ABILITY"@,
        "DETACHMENT_HAS_STRATAGEM"@,
        "DETACHMENT_HAS_ENHANCEMENT"@,
        "DATASHEET_HAS_DETACHMENT_ABILITY"@,
    ]
}

/// The seed kinds whose neighboring datasheets are added too.
pub open spec fn extra_seed_kinds() -> Seq<Seq<char>> {
    seq!["Keyword"@, "Ability"@, "Stratagem"@, "Enhancement"@, "Detachment"@, "DetachmentAbility"@]
}

/// The views of a list of string slices.
pub open spec fn strs_view(v: Seq<&str>) -> Seq<Seq<char>> {
    v.map_values(|s: &str| s@)
}

/// The node ids around which context is gathered, and the gathered ids.
pub struct ContextNodes {
    pub seeds: Vec<String>,
    pub nodes: Vec<String>,
}

/// The kind of the node indexed under `id`, or nothing.
pub open spec fn kind_of_id(b: LoadedBundle, id: Seq<char>) -> Seq<char> {
    match node_spec(b, id) {
        Some(n) => n.kind@,
        None => Seq::empty(),
    }
}

/// The other end of `e`, when `id` is one of its ends (`from` first).
pub open spec fn neighbor_of(e: EdgeRecord, id: Seq<char>) -> Option<Seq<char>> {
    if e.from@ == id {
        Some(e.to@)
    } else if e.to@ == id {
        Some(e.from@)
    } else {
        None
    }
}

/// The neighbors of `id` along the first `n` edges whose kind is listed.
pub open spec fn adjacent_upto(edges: Seq<EdgeRecord>, id: Seq<char>, kinds: Seq<Seq<char>>, n: int) -> Seq<Seq<char>>
    decreases n,
{
    if n <= 0 || n > edges.len() {
        Seq::empty()
    } else {
        let prev = adjacent_upto(edges, id, kinds, n - 1);
        if kinds.contains(edges[n - 1].kind@) {
            match neighbor_of(edges[n - 1], id) {
                Some(x) => prev.push(x),
                None => prev,
            }
        } else {
            prev
        }
    }
}

/// The neighbors of `id` along edges of the listed kinds, in edge order.
pub open spec fn adjacent_spec(b: LoadedBundle, id: Seq<char>, kinds: Seq<Seq<char>>) -> Seq<Seq<char>> {
    adjacent_upto(b.edges@, id, kinds, b.edges@.len() as int)
}

/// `id` appended unless already present.
pub open spec fn push_unique_spec(out: Seq<Seq<char>>, id: Seq<char>) -> Seq<Seq<char>> {
    if out.contains(id) {
        out
    } else {
        out.push(id)
    }
}

/// Appends, in order and once each, the ids whose node is of kind `expected`.
pub open spec fn push_kind_spec(b: LoadedBundle, ids: Seq<Seq<char>>, expected: Seq<char>, out: Seq<Seq<char>>) -> Seq<Seq<char>>
    decreases ids.len(),
{
    if ids.len() == 0 {
        out
    } else {
        let o = push_kind_spec(b, ids.drop_last(), expected, out);
        if kind_of_id(b, ids.last()) == expected {
            push_unique_spec(o, ids.last())
        } else {
            o
        }
    }
}

/// Appends each id of `ids` not yet present, in order.
pub open spec fn merge_spec(out: Seq<Seq<char>>, ids: Seq<Seq<char>>) -> Seq<Seq<char>>
    decreases ids.len(),
{
    if ids.len() == 0 {
        out
    } else {
        push_unique_spec(merge_spec(out, ids.drop_last()), ids.last())
    }
}

/// The node ids of the passages at the first `n` seed positions that exist.
pub open spec fn seeds_upto(b: LoadedBundle, sp: Seq<usize>, n: int) -> Seq<Seq<char>>
    decreases n,
{
    if n <= 0 || n > sp.len() {
        Seq::empty()
    } else if sp[n - 1] < b.passages@.len() {
        seeds_upto(b, sp, n - 1).push(b.passages@[sp[n - 1] as int].node_id@)
    } else {
        seeds_upto(b, sp, n - 1)
    }
}

/// The seeds' factions, from the first `n` seeds.
pub open spec fn factions_upto(b: LoadedBundle, seeds: Seq<Seq<char>>, n: int) -> Seq<Seq<char>>
    decreases n,
{
    if n <= 0 || n > seeds.len() {
        Seq::empty()
    } else {
        push_kind_spec(b, adjacent_spec(b, seeds[n - 1], expand_kinds()), "Faction"@, factions_upto(b, seeds, n - 1))
    }
}

/// The seeds that are datasheets, once each, from the first `n` seeds.
pub open spec fn seed_datasheets_upto(b: LoadedBundle, seeds: Seq<Seq<char>>, n: int) -> Seq<Seq<char>>
    decreases n,
{
    if n <= 0 || n > seeds.len() {
        Seq::empty()
    } else if kind_of_id(b, seeds[n - 1]) == "Datasheet"@ {
        push_unique_spec(seed_datasheets_upto(b, seeds, n - 1), seeds[n - 1])
    } else {
        seed_datasheets_upto(b, seeds, n - 1)
    }
}

/// The datasheets next to keyword, ability, stratagem, enhancement,
/// detachment and detachment-ability seeds, from the first `n` seeds.
pub open spec fn extras_upto(b: LoadedBundle, seeds: Seq<Seq<char>>, n: int) -> Seq<Seq<char>>
    decreases n,
{
    if n <= 0 || n > seeds.len() {
        Seq::empty()
    } else if extra_seed_kinds().contains(kind_of_id(b, seeds[n - 1])) {
        push_kind_spec(b, adjacent_spec(b, seeds[n - 1], expand_kinds()), "Datasheet"@, extras_upto(b, seeds, n - 1))
    } else {
        extras_upto(b, seeds, n - 1)
    }
}

/// The first `n` ids of `e` that are not in `d`.
pub open spec fn without_upto(e: Seq<Seq<char>>, d: Seq<Seq<char>>, n: int) -> Seq<Seq<char>>
    decreases n,
{
    if n <= 0 || n > e.len() {
        Seq::empty()
    } else if d.contains(e[n - 1]) {
        without_upto(e, d, n - 1)
    } else {
        without_upto(e, d, n - 1).push(e[n - 1])
    }
}

/// At most the first eight.
pub open spec fn first_eight(e: Seq<Seq<char>>) -> Seq<Seq<char>> {
    if e.len() > 8 {
        e.take(8)
    } else {
        e
    }
}

/// The datasheets of the context: datasheet seeds, then at most eight other
/// datasheets next to the other seeds.
pub open spec fn datasheets_spec(b: LoadedBundle, seeds: Seq<Seq<char>>) -> Seq<Seq<char>> {
    let d0 = seed_datasheets_upto(b, seeds, seeds.len() as int);
    let ex = extras_upto(b, seeds, seeds.len() as int);
    d0 + first_eight(without_upto(ex, d0, ex.len() as int))
}

/// The nodes of kind `expected` next to the first `n` datasheets along edges
/// of kind `edge_kind`.
pub open spec fn around_upto(b: LoadedBundle, ds: Seq<Seq<char>>, edge_kind: Seq<char>, expected: Seq<char>, n: int) -> Seq<Seq<char>>
    decreases n,
{
    if n <= 0 || n > ds.len() {
        Seq::empty()
    } else {
        push_kind_spec(b, adjacent_spec(b, ds[n - 1], seq![edge_kind]), expected, around_upto(b, ds, edge_kind, expected, n - 1))
    }
}

/// The detachments of the first `m` detachment abilities in `ab`, added to `acc`.
pub open spec fn detachments_via(b: LoadedBundle, ab: Seq<Seq<char>>, m: int, acc: Seq<Seq<char>>) -> Seq<Seq<char>>
    decreases m,
{
    if m <= 0 || m > ab.len() {
        acc
    } else {
        push_kind_spec(
            b,
            adjacent_spec(b, ab[m - 1], seq!["DETACHMENT_HAS_ABILITY"@]),
            "Detachment"@,
            detachments_via(b, ab, m - 1, acc),
        )
    }
}

/// The detachments of the first `n` datasheets' detachment abilities.
pub open spec fn datasheet_detachments(b: LoadedBundle, ds: Seq<Seq<char>>, n: int) -> Seq<Seq<char>>
    decreases n,
{
    if n <= 0 || n > ds.len() {
        Seq::empty()
    } else {
        let ab = adjacent_spec(b, ds[n - 1], seq!["DATASHEET_HAS_DETACHMENT_ABILITY"@]);
        detachments_via(b, ab, ab.len() as int, datasheet_detachments(b, ds, n - 1))
    }
}

/// `acc` with the detachments of the first `n` stratagem and enhancement seeds.
pub open spec fn seed_detachments(b: LoadedBundle, seeds: Seq<Seq<char>>, n: int, acc: Seq<Seq<char>>) -> Seq<Seq<char>>
    decreases n,
{
    if n <= 0 || n > seeds.len() {
        acc
    } else {
        let prev = seed_detachments(b, seeds, n - 1, acc);
        let k = kind_of_id(b, seeds[n - 1]);
        if k == "Stratagem"@ {
            push_kind_spec(b, adjacent_spec(b, seeds[n - 1], seq!["DETACHMENT_HAS_STRATAGEM"@]), "Detachment"@, prev)
        } else if k == "Enhancement"@ {
            push_kind_spec(b, adjacent_spec(b, seeds[n - 1], seq!["DETACHMENT_HAS_ENHANCEMENT"@]), "Detachment"@, prev)
        } else {
            prev
        }
    }
}

/// The first `n` datasheets that are not seeds, once each.
pub open spec fn others_upto(seeds: Seq<Seq<char>>, ds: Seq<Seq<char>>, n: int) -> Seq<Seq<char>>
    decreases n,
{
    if n <= 0 || n > ds.len() {
        Seq::empty()
    } else if seeds.contains(ds[n - 1]) {
        others_upto(seeds, ds, n - 1)
    } else {
        push_unique_spec(others_upto(seeds, ds, n - 1), ds[n - 1])
    }
}

/// The context's node ids before the cap: the seeds, then each new faction,
/// keyword, ability, detachment and other datasheet.
pub open spec fn gathered_spec(b: LoadedBundle, seeds: Seq<Seq<char>>) -> Seq<Seq<char>> {
    let n = seeds.len() as int;
    let ds = datasheets_spec(b, seeds);
    let f = factions_upto(b, seeds, n);
    let k = around_upto(b, ds, "DATASHEET_HAS_KEYWORD"@, "Keyword"@, ds.len() as int);
    let a = around_upto(b, ds, "DATASHEET_HAS_ABILITY"@, "Ability"@, ds.len() as int);
    let d = seed_detachments(b, seeds, n, datasheet_detachments(b, ds, ds.len() as int));
    let o = others_upto(seeds, ds, ds.len() as int);
    merge_spec(merge_spec(merge_spec(merge_spec(merge_spec(seeds, f), k), a), d), o)
}

/// The context's node ids: the gathered ids, cut to 32, or to the seeds when
/// there are 32 seeds or more.
pub open spec fn context_spec(b: LoadedBundle, seeds: Seq<Seq<char>>) -> Seq<Seq<char>> {
    let g = gathered_spec(b, seeds);
    if g.len() > 32 {
        if seeds.len() >= 32 {
            g.take(seeds.len() as int)
        } else {
            g.take(32)
        }
    } else {
        g
    }
}

/// Whether `v` holds `s`.
pub fn has_string(v: &Vec<String>, s: &str) -> (r: bool)
    ensures
        r == strings_view(v@).contains(s@),
{
    let mut j: usize = 0;
    while j < v.len()
        invariant
            j <= v@.len(),
            forall|m: int| 0 <= m < j ==> #[trigger] strings_view(v@)[m] != s@,
        decreases v@.len() - j,
    {
        if str_eq(v[j].as_str(), s) {
            assert(strings_view(v@)[j as int] == s@);
            return true;
        }
        j = j + 1;
    }
    false
}

fn listed(kinds: &Vec<&str>, k: &str) -> (r: bool)
    ensures
        r == strs_view(kinds@).contains(k@),
{
    let mut j: usize = 0;
    while j < kinds.len()
        invariant
            j <= kinds@.len(),
            forall|m: int| 0 <= m < j ==> #[trigger] strs_view(kinds@)[m] != k@,
        decreases kinds@.len() - j,
    {
        if str_eq(kinds[j], k) {
            assert(strs_view(kinds@)[j as int] == k@);
            return true;
        }
        j = j + 1;
    }
    false
}

fn expand_kind_list() -> (v: Vec<&'static str>)
    ensures
        strs_view(v@) == expand_kinds(),
{
    let v = vec![
        "FACTION_HAS_DATASHEET",
        "FACTION_HAS_DETACHMENT",
        "FACTION_HAS_ABILITY",
        "FACTION_HAS_STRATAGEM",
        "FACTION_HAS_ENHANCEMENT",
        "FACTION_HAS_DETACHMENT_ABILITY",
        "DATASHEET_HAS_KEYWORD",
        "DATASHEET_HAS_ABILITY",
        "DETACHMENT_HAS_ABILITY",
        "DETACHMENT_HAS_STRATAGEM",
        "DETACHMENT_HAS_ENHANCEMENT",
        "DATASHEET_HAS_DETACHMENT_ABILITY",
    ];
    assert(strs_view(v@) =~= expand_kinds());
    v
}

fn extra_kind_list() -> (v: Vec<&'static str>)
    ensures
        strs_view(v@) == extra_seed_kinds(),
{
    let v = vec!["Keyword", "Ability", "Stratagem", "Enhancement", "Detachment", "DetachmentAbility"];
    assert(strs_view(v@) =~= extra_seed_kinds());
    v
}

fn one_kind(k: &'static str) -> (v: Vec<&'static str>)
    ensures
        strs_view(v@) == seq![k@],
{
    let v = vec![k];
    assert(strs_view(v@) =~= seq![k@]);
    v
}

/// The kind of the node indexed under `id`, or the empty string.
fn kind<'a>(b: &'a LoadedBundle, id: &str) -> (r: &'a str)
    ensures
        r@ == kind_of_id(*b, id@),
{
    match b.node(id) {
        Some(n) => n.kind.as_str(),
        None => {
            proof {
                reveal_strlit("");
            }
            ""
        },
    }
}

/// The neighbors of `id` along edges of the listed kinds.
fn adjacent(b: &LoadedBundle, id: &str, kinds: &Vec<&str>) -> (r: Vec<String>)
    ensures
        strings_view(r@) == adjacent_spec(*b, id@, strs_view(kinds@)),
{
    let ghost kv = strs_view(kinds@);
    let mut r: Vec<String> = Vec::new();
    let mut i: usize = 0;
    while i < b.edges.len()
        invariant
            i <= b.edges@.len(),
            kv == strs_view(kinds@),
            strings_view(r@) == adjacent_upto(b.edges@, id@, kv, i as int),
        decreases b.edges@.len() - i,
    {
        let e = &b.edges[i];
        let ghost before = strings_view(r@);
        if listed(kinds, e.kind.as_str()) {
            if str_eq(e.from.as_str(), id) {
                r.push(copy_str(e.to.as_str()));
                assert(strings_view(r@) =~= before.push(e.to@));
            } else if str_eq(e.to.as_str(), id) {
                r.push(copy_str(e.from.as_str()));
                assert(strings_view(r@) =~= before.push(e.from@));
            }
        }
        i = i + 1;
    }
    r
}

/// Appends `id` unless it is already there.
fn push_unique(out: &mut Vec<String>, id: &str)
    ensures
        strings_view(final(out)@) == push_unique_spec(strings_view(old(out)@), id@),
{
    if !has_string(out, id) {
        let ghost before = strings_view(out@);
        out.push(copy_str(id));
        assert(strings_view(out@) =~= before.push(id@));
    }
}

/// Appends, once each, the ids whose node is of kind `expected`.
fn push_kind(b: &LoadedBundle, ids: &Vec<String>, expected: &str, out: &mut Vec<String>)
    ensures
        strings_view(final(out)@) == push_kind_spec(*b, strings_view(ids@), expected@, strings_view(old(out)@)),
{
    let ghost start = strings_view(out@);
    let ghost iv = strings_view(ids@);
    let mut i: usize = 0;
    while i < ids.len()
        invariant
            i <= ids@.len(),
            iv == strings_view(ids@),
            strings_view(out@) == push_kind_spec(*b, iv.take(i as int), expected@, start),
        decreases ids@.len() - i,
    {
        proof {
            assert(iv.take(i + 1).drop_last() =~= iv.take(i as int));
            assert(iv.take(i + 1).last() == ids@[i as int]@);
        }
        if str_eq(kind(b, ids[i].as_str()), expected) {
            push_unique(out, ids[i].as_str());
        }
        i = i + 1;
    }
    assert(iv.take(i as int) =~= iv);
}

/// Appends each id of `ids` that is not there yet.
fn merge_into(out: &mut Vec<String>, ids: &Vec<String>)
    ensures
        strings_view(final(out)@) == merge_spec(strings_view(old(out)@), strings_view(ids@)),
{
    let ghost start = strings_view(out@);
    let ghost iv = strings_view(ids@);
    let mut i: usize = 0;
    while i < ids.len()
        invariant
            i <= ids@.len(),
            iv == strings_view(ids@),
            strings_view(out@) == merge_spec(start, iv.take(i as int)),
        decreases ids@.len() - i,
    {
        proof {
            assert(iv.take(i + 1).drop_last() =~= iv.take(i as int));
            assert(iv.take(i + 1).last() == ids@[i as int]@);
        }
        push_unique(out, ids[i].as_str());
        i = i + 1;
    }
    assert(iv.take(i as int) =~= iv);
}

fn seed_ids(b: &LoadedBundle, sp: &[usize]) -> (r: Vec<String>)
    ensures
        strings_view(r@) == seeds_upto(*b, sp@, sp@.len() as int),
{
    let mut r: Vec<String> = Vec::new();
    let mut i: usize = 0;
    while i < sp.len()
        invariant
            i <= sp@.len(),
            strings_view(r@) == seeds_upto(*b, sp@, i as int),
        decreases sp@.len() - i,
    {
        let index = sp[i];
        if index < b.passages.len() {
            let ghost before = strings_view(r@);
            r.push(copy_str(b.passages[index].node_id.as_str()));
            assert(strings_view(r@) =~= before.push(b.passages@[index as int].node_id@));
        }
        i = i + 1;
    }
    r
}

fn seed_factions(b: &LoadedBundle, seeds: &Vec<String>) -> (r: Vec<String>)
    ensures
        strings_view(r@) == factions_upto(*b, strings_view(seeds@), seeds@.len() as int),
{
    let kinds = expand_kind_list();
    let ghost sv = strings_view(seeds@);
    let mut r: Vec<String> = Vec::new();
    let mut i: usize = 0;
    while i < seeds.len()
        invariant
            i <= seeds@.len(),
            sv == strings_view(seeds@),
            strs_view(kinds@) == expand_kinds(),
            strings_view(r@) == factions_upto(*b, sv, i as int),
        decreases seeds@.len() - i,
    {
        let adj = adjacent(b, seeds[i].as_str(), &kinds);
        push_kind(b, &adj, "Faction", &mut r);
        i = i + 1;
    }
    r
}

fn context_datasheets(b: &LoadedBundle, seeds: &Vec<String>) -> (r: Vec<String>)
    ensures
        strings_view(r@) == datasheets_spec(*b, strings_view(seeds@)),
{
    let ghost sv = strings_view(seeds@);
    let mut datasheets: Vec<String> = Vec::new();
    let mut i: usize = 0;
    while i < seeds.len()
        invariant
            i <= seeds@.len(),
            sv == strings_view(seeds@),
            strings_view(datasheets@) == seed_datasheets_upto(*b, sv, i as int),
        decreases seeds@.len() - i,
    {
        if str_eq(kind(b, seeds[i].as_str()), "Datasheet") {
            push_unique(&mut datasheets, seeds[i].as_str());
        }
        i = i + 1;
    }
    let kinds = expand_kind_list();
    let extra = extra_kind_list();
    let mut extras: Vec<String> = Vec::new();
    let mut i: usize = 0;
    while i < seeds.len()
        invariant
            i <= seeds@.len(),
            sv == strings_view(seeds@),
            strs_view(kinds@) == expand_kinds(),
            strs_view(extra@) == extra_seed_kinds(),
            strings_view(extras@) == extras_upto(*b, sv, i as int),
        decreases seeds@.len() - i,
    {
        if listed(&extra, kind(b, seeds[i].as_str())) {
            let adj = adjacent(b, seeds[i].as_str(), &kinds);
            push_kind(b, &adj, "Datasheet", &mut extras);
        }
        i = i + 1;
    }
    let ghost ev = strings_view(extras@);
    let ghost d0 = strings_view(datasheets@);
    let mut kept: Vec<String> = Vec::new();
    let mut j: usize = 0;
    while j < extras.len()
        invariant
            j <= extras@.len(),
            ev == strings_view(extras@),
            d0 == strings_view(datasheets@),
            strings_view(kept@) == without_upto(ev, d0, j as int),
        decreases extras@.len() - j,
    {
        if !has_string(&datasheets, extras[j].as_str()) {
            let ghost before = strings_view(kept@);
            kept.push(copy_str(extras[j].as_str()));
            assert(strings_view(kept@) =~= before.push(ev[j as int]));
        }
        j = j + 1;
    }
    let ghost wv = strings_view(kept@);
    kept.truncate(8);
    proof {
        if wv.len() > 8 {
            assert(strings_view(kept@) =~= wv.take(8));
        } else {
            assert(strings_view(kept@) =~= wv);
        }
    }
    let ghost fv = strings_view(kept@);
    datasheets.append(&mut kept);
    assert(strings_view(datasheets@) =~= d0 + fv);
    datasheets
}

fn around(b: &LoadedBundle, ds: &Vec<String>, edge_kind: &'static str, expected: &str) -> (r: Vec<String>)
    ensures
        strings_view(r@) == around_upto(*b, strings_view(ds@), edge_kind@, expected@, ds@.len() as int),
{
    let kinds = one_kind(edge_kind);
    let ghost dv = strings_view(ds@);
    let mut r: Vec<String> = Vec::new();
    let mut i: usize = 0;
    while i < ds.len()
        invariant
            i <= ds@.len(),
            dv == strings_view(ds@),
            strs_view(kinds@) == seq![edge_kind@],
            strings_view(r@) == around_upto(*b, dv, edge_kind@, expected@, i as int),
        decreases ds@.len() - i,
    {
        let adj = adjacent(b, ds[i].as_str(), &kinds);
        push_kind(b, &adj, expected, &mut r);
        i = i + 1;
    }
    r
}

fn context_detachments(b: &LoadedBundle, seeds: &Vec<String>, ds: &Vec<String>) -> (r: Vec<String>)
    ensures
        strings_view(r@) == seed_detachments(
            *b,
            strings_view(seeds@),
            seeds@.len() as int,
            datasheet_detachments(*b, strings_view(ds@), ds@.len() as int),
        ),
{
    let ghost dv = strings_view(ds@);
    let ghost sv = strings_view(seeds@);
    let via = one_kind("DATASHEET_HAS_DETACHMENT_ABILITY");
    let of = one_kind("DETACHMENT_HAS_ABILITY");
    let mut r: Vec<String> = Vec::new();
    let mut i: usize = 0;
    while i < ds.len()
        invariant
            i <= ds@.len(),
            dv == strings_view(ds@),
            strs_view(via@) == seq!["DATASHEET_HAS_DETACHMENT_ABILITY"@],
            strs_view(of@) == seq!["DETACHMENT_HAS_ABILITY"@],
            strings_view(r@) == datasheet_detachments(*b, dv, i as int),
        decreases ds@.len() - i,
    {
        let abilities = adjacent(b, ds[i].as_str(), &via);
        let ghost av = strings_view(abilities@);
        let ghost acc = strings_view(r@);
        let mut m: usize = 0;
        while m < abilities.len()
            invariant
                m <= abilities@.len(),
                av == strings_view(abilities@),
                strs_view(of@) == seq!["DETACHMENT_HAS_ABILITY"@],
                strings_view(r@) == detachments_via(*b, av, m as int, acc),
            decreases abilities@.len() - m,
        {
            let adj = adjacent(b, abilities[m].as_str(), &of);
            push_kind(b, &adj, "Detachment", &mut r);
            m = m + 1;
        }
        i = i + 1;
    }
    let ghost base = strings_view(r@);
    let strat = one_kind("DETACHMENT_HAS_STRATAGEM");
    let enh = one_kind("DETACHMENT_HAS_ENHANCEMENT");
    let mut i: usize = 0;
    while i < seeds.len()
        invariant
            i <= seeds@.len(),
            sv == strings_view(seeds@),
            strs_view(strat@) == seq!["DETACHMENT_HAS_STRATAGEM"@],
            strs_view(enh@) == seq!["DETACHMENT_HAS_ENHANCEMENT"@],
            strings_view(r@) == seed_detachments(*b, sv, i as int, base),
        decreases seeds@.len() - i,
    {
        let k = kind(b, seeds[i].as_str());
        if str_eq(k, "Stratagem") {
            let adj = adjacent(b, seeds[i].as_str(), &strat);
            push_kind(b, &adj, "Detachment", &mut r);
        } else if str_eq(k, "Enhancement") {
            let adj = adjacent(b, seeds[i].as_str(), &enh);
            push_kind(b, &adj, "Detachment", &mut r);
        }
        i = i + 1;
    }
    r
}

fn other_datasheets(seeds: &Vec<String>, ds: &Vec<String>) -> (r: Vec<String>)
    ensures
        strings_view(r@) == others_upto(strings_view(seeds@), strings_view(ds@), ds@.len() as int),
{
    let ghost dv = strings_view(ds@);
    let mut r: Vec<String> = Vec::new();
    let mut i: usize = 0;
    while i < ds.len()
        invariant
            i <= ds@.len(),
            dv == strings_view(ds@),
            strings_view(r@) == others_upto(strings_view(seeds@), dv, i as int),
        decreases ds@.len() - i,
    {
        if !has_string(seeds, ds[i].as_str()) {
            push_unique(&mut r, ds[i].as_str());
        }
        i = i + 1;
    }
    r
}

/// The context of the passages at `seed_passages`: their node ids first,
/// then the seeds' factions, the datasheets' keywords, abilities and
/// detachments, and the other datasheets, each once, capped at 32 ids unless
/// the seeds alone exceed that.
pub fn expand(bundle: &LoadedBundle, seed_passages: &[usize]) -> (c: ContextNodes)
    ensures
        strings_view(c.seeds@) == seeds_upto(*bundle, seed_passages@, seed_passages@.len() as int),
        strings_view(c.nodes@) == context_spec(*bundle, strings_view(c.seeds@)),
{
    let seeds = seed_ids(bundle, seed_passages);
    let ghost sv = strings_view(seeds@);
    let factions = seed_factions(bundle, &seeds);
    let datasheets = context_datasheets(bundle, &seeds);
    let keywords = around(bundle, &datasheets, "DATASHEET_HAS_KEYWORD", "Keyword");
    let abilities = around(bundle, &datasheets, "DATASHEET_HAS_ABILITY", "Ability");
    let detachments = context_detachments(bundle, &seeds, &datasheets);
    let others = other_datasheets(&seeds, &datasheets);
    let mut nodes = copy_strings(&seeds);
    merge_into(&mut nodes, &factions);
    merge_into(&mut nodes, &keywords);
    merge_into(&mut nodes, &abilities);
    merge_into(&mut nodes, &detachments);
    merge_into(&mut nodes, &others);
    let seed_len = seeds.len();
    let ghost g = strings_view(nodes@);
    assert(g == gathered_spec(*bundle, sv));
    if nodes.len() > 32 {
        if seed_len >= 32 {
            nodes.truncate(seed_len);
        } else {
            nodes.truncate(32);
        }
    }
    proof {
        if g.len() > 32 {
            if seed_len >= 32 {
                lemma_gathered_starts_with_seeds(*bundle, sv);
                assert(strings_view(nodes@) =~= g.take(seed_len as int));
            } else {
                assert(strings_view(nodes@) =~= g.take(32));
            }
        }
    }
    ContextNodes { seeds, nodes }
}

proof fn lemma_merge_extends(out: Seq<Seq<char>>, ids: Seq<Seq<char>>)
    ensures
        merge_spec(out, ids).len() >= out.len(),
        merge_spec(out, ids).take(out.len() as int) == out,
    decreases ids.len(),
{
    if ids.len() > 0 {
        lemma_merge_extends(out, ids.drop_last());
        let m = merge_spec(out, ids.drop_last());
        assert(m.push(ids.last()).take(out.len() as int) =~= m.take(out.len() as int));
    }
}

/// The gathered ids start with the seeds.
pub proof fn lemma_gathered_starts_with_seeds(b: LoadedBundle, seeds: Seq<Seq<char>>)
    ensures
        gathered_spec(b, seeds).len() >= seeds.len(),
        gathered_spec(b, seeds).take(seeds.len() as int) == seeds,
{
    let n = seeds.len() as int;
    let ds = datasheets_spec(b, seeds);
    let f = factions_upto(b, seeds, n);
    let k = around_upto(b, ds, "DATASHEET_HAS_KEYWORD"@, "Keyword"@, ds.len() as int);
    let a = around_upto(b, ds, "DATASHEET_HAS_ABILITY"@, "Ability"@, ds.len() as int);
    let d = seed_detachments(b, seeds, n, datasheet_detachments(b, ds, ds.len() as int));
    let o = others_upto(seeds, ds, ds.len() as int);
    let m1 = merge_spec(seeds, f);
    let m2 = merge_spec(m1, k);
    let m3 = merge_spec(m2, a);
    let m4 = merge_spec(m3, d);
    let m5 = merge_spec(m4, o);
    lemma_merge_extends(seeds, f);
    lemma_merge_extends(m1, k);
    lemma_merge_extends(m2, a);
    lemma_merge_extends(m3, d);
    lemma_merge_extends(m4, o);
    assert(m5.take(n) =~= m4.take(m4.len() as int).take(n));
    assert(m4.take(n) =~= m3.take(m3.len() as int).take(n));
    assert(m3.take(n) =~= m2.take(m2.len() as int).take(n));
    assert(m2.take(n) =~= m1.take(m1.len() as int).take(n));
}

/// From position `n0` on, every id of `m` is new: not among the ids before it.
pub open spec fn fresh_from(m: Seq<Seq<char>>, n0: int) -> bool {
    forall|i: int| n0 <= i < m.len() ==> !(#[trigger] m.take(i)).contains(m[i])
}

proof fn lemma_merge_fresh(out: Seq<Seq<char>>, ids: Seq<Seq<char>>, n0: int)
    requires
        0 <= n0 <= out.len(),
        fresh_from(out, n0),
    ensures
        fresh_from(merge_spec(out, ids), n0),
    decreases ids.len(),
{
    if ids.len() > 0 {
        lemma_merge_fresh(out, ids.drop_last(), n0);
        let m = merge_spec(out, ids.drop_last());
        let x = ids.last();
        if !m.contains(x) {
            let m2 = m.push(x);
            assert forall|i: int| n0 <= i < m2.len() implies !(#[trigger] m2.take(i)).contains(m2[i]) by {
                if i < m.len() {
                    assert(m2.take(i) =~= m.take(i));
                    assert(m2[i] == m[i]);
                } else {
                    assert(m2.take(i) =~= m);
                }
            }
        }
    }
}

/// What the context promises: the seeds stay first; after them no id is a
/// seed and none repeats; at most 32 ids unless the seeds alone exceed that.
pub proof fn lemma_context_shape(b: LoadedBundle, seeds: Seq<Seq<char>>)
    ensures
        context_spec(b, seeds).len() >= seeds.len(),
        context_spec(b, seeds).take(seeds.len() as int) == seeds,
        context_spec(b, seeds).len() <= if seeds.len() > 32 { seeds.len() } else { 32 },
        fresh_from(context_spec(b, seeds), seeds.len() as int),
{
    let n = seeds.len() as int;
    let ds = datasheets_spec(b, seeds);
    let f = factions_upto(b, seeds, n);
    let k = around_upto(b, ds, "DATASHEET_HAS_KEYWORD"@, "Keyword"@, ds.len() as int);
    let a = around_upto(b, ds, "DATASHEET_HAS_ABILITY"@, "Ability"@, ds.len() as int);
    let d = seed_detachments(b, seeds, n, datasheet_detachments(b, ds, ds.len() as int));
    let o = others_upto(seeds, ds, ds.len() as int);
    let m1 = merge_spec(seeds, f);
    let m2 = merge_spec(m1, k);
    let m3 = merge_spec(m2, a);
    let m4 = merge_spec(m3, d);
    lemma_merge_extends(seeds, f);
    lemma_merge_extends(m1, k);
    lemma_merge_extends(m2, a);
    lemma_merge_extends(m3, d);
    lemma_merge_fresh(seeds, f, n);
    lemma_merge_fresh(m1, k, n);
    lemma_merge_fresh(m2, a, n);
    lemma_merge_fresh(m3, d, n);
    lemma_merge_fresh(m4, o, n);
    lemma_gathered_starts_with_seeds(b, seeds);
    let g = gathered_spec(b, seeds);
    let c = context_spec(b, seeds);
    if g.len() > 32 {
        let cut = if n >= 32 { n } else { 32 };
        assert(c =~= g.take(cut));
        assert(c.take(n) =~= g.take(n));
        assert forall|i: int| n <= i < c.len() implies !(#[trigger] c.take(i)).contains(c[i]) by {
            assert(c.take(i) =~= g.take(i));
            assert(c[i] == g[i]);
        }
    }
}

proof fn lemma_merge_contains(out: Seq<Seq<char>>, ids: Seq<Seq<char>>)
    ensures
        forall|x: Seq<char>| out.contains(x) ==> #[trigger] merge_spec(out, ids).contains(x),
        forall|m: int| 0 <= m < ids.len() ==> merge_spec(out, ids).contains(#[trigger] ids[m]),
    decreases ids.len(),
{
    if ids.len() > 0 {
        let t = ids.drop_last();
        lemma_merge_contains(out, t);
        let m0 = merge_spec(out, t);
        let r = merge_spec(out, ids);
        assert(r == push_unique_spec(m0, ids.last()));
        assert forall|x: Seq<char>| m0.contains(x) implies r.contains(x) by {
            if !m0.contains(ids.last()) {
                let j = choose|j: int| 0 <= j < m0.len() && m0[j] == x;
                assert(r[j] == x);
            }
        }
        if !m0.contains(ids.last()) {
            assert(r[m0.len() as int] == ids.last());
        }
        assert forall|m: int| 0 <= m < ids.len() implies r.contains(#[trigger] ids[m]) by {
            if m < t.len() {
                assert(t[m] == ids[m]);
                assert(m0.contains(t[m]));
            }
        }
        assert forall|x: Seq<char>| out.contains(x) implies #[trigger] r.contains(x) by {
            assert(m0.contains(x));
        }
    }
}

proof fn lemma_push_kind_contains(b: LoadedBundle, ids: Seq<Seq<char>>, expected: Seq<char>, out: Seq<Seq<char>>)
    ensures
        forall|x: Seq<char>| out.contains(x) ==> #[trigger] push_kind_spec(b, ids, expected, out).contains(x),
        forall|m: int|
            0 <= m < ids.len() && kind_of_id(b, ids[m]) == expected ==> push_kind_spec(b, ids, expected, out).contains(
                #[trigger] ids[m],
            ),
    decreases ids.len(),
{
    if ids.len() > 0 {
        let t = ids.drop_last();
        lemma_push_kind_contains(b, t, expected, out);
        let o = push_kind_spec(b, t, expected, out);
        let r = push_kind_spec(b, ids, expected, out);
        assert forall|x: Seq<char>| o.contains(x) implies r.contains(x) by {
            let j = choose|j: int| 0 <= j < o.len() && o[j] == x;
            if kind_of_id(b, ids.last()) == expected && !o.contains(ids.last()) {
                assert(r[j] == x);
            }
        }
        if kind_of_id(b, ids.last()) == expected && !o.contains(ids.last()) {
            assert(r[o.len() as int] == ids.last());
        }
        assert forall|m: int| 0 <= m < ids.len() && kind_of_id(b, ids[m]) == expected implies r.contains(
            #[trigger] ids[m],
        ) by {
            if m < t.len() {
                assert(t[m] == ids[m]);
                assert(o.contains(t[m]));
            }
        }
        assert forall|x: Seq<char>| out.contains(x) implies #[trigger] r.contains(x) by {
            assert(o.contains(x));
        }
    }
}

proof fn lemma_adjacent_has(edges: Seq<EdgeRecord>, id: Seq<char>, kinds: Seq<Seq<char>>, n: int, j: int)
    requires
        0 <= j < n <= edges.len(),
        kinds.contains(edges[j].kind@),
        neighbor_of(edges[j], id) is Some,
    ensures
        adjacent_upto(edges, id, kinds, n).contains(neighbor_of(edges[j], id)->0),
    decreases n,
{
    let prev = adjacent_upto(edges, id, kinds, n - 1);
    if j < n - 1 {
        lemma_adjacent_has(edges, id, kinds, n - 1, j);
        let m = choose|m: int| 0 <= m < prev.len() && prev[m] == neighbor_of(edges[j], id)->0;
        if kinds.contains(edges[n - 1].kind@) && neighbor_of(edges[n - 1], id) is Some {
            assert(adjacent_upto(edges, id, kinds, n)[m] == prev[m]);
        }
    } else {
        assert(adjacent_upto(edges, id, kinds, n)[prev.len() as int] == neighbor_of(edges[j], id)->0);
    }
}

proof fn lemma_seed_detachments_has(
    b: LoadedBundle,
    seeds: Seq<Seq<char>>,
    n: int,
    acc: Seq<Seq<char>>,
    i: int,
    d: Seq<char>,
)
    requires
        0 <= i < n <= seeds.len(),
        kind_of_id(b, d) == "Detachment"@,
        (kind_of_id(b, seeds[i]) == "Stratagem"@ && adjacent_spec(
            b,
            seeds[i],
            seq!["DETACHMENT_HAS_STRATAGEM"@],
        ).contains(d)) || (kind_of_id(b, seeds[i]) == "Enhancement"@ && adjacent_spec(
            b,
            seeds[i],
            seq!["DETACHMENT_HAS_ENHANCEMENT"@],
        ).contains(d)),
    ensures
        seed_detachments(b, seeds, n, acc).contains(d),
    decreases n,
{
    reveal_strlit("Stratagem");
    reveal_strlit("Enhancement");
    assert("Stratagem"@[0] != "Enhancement"@[0]);
    let prev = seed_detachments(b, seeds, n - 1, acc);
    let k = kind_of_id(b, seeds[n - 1]);
    let strat = adjacent_spec(b, seeds[n - 1], seq!["DETACHMENT_HAS_STRATAGEM"@]);
    let enh = adjacent_spec(b, seeds[n - 1], seq!["DETACHMENT_HAS_ENHANCEMENT"@]);
    lemma_push_kind_contains(b, strat, "Detachment"@, prev);
    lemma_push_kind_contains(b, enh, "Detachment"@, prev);
    if i < n - 1 {
        lemma_seed_detachments_has(b, seeds, n - 1, acc, i, d);
    } else if k == "Stratagem"@ {
        let m = choose|m: int| 0 <= m < strat.len() && strat[m] == d;
        assert(push_kind_spec(b, strat, "Detachment"@, prev).contains(strat[m]));
    } else {
        let m = choose|m: int| 0 <= m < enh.len() && enh[m] == d;
        assert(push_kind_spec(b, enh, "Detachment"@, prev).contains(enh[m]));
    }
}

/// A stratagem seed brings in the detachment that a `DETACHMENT_HAS_STRATAGEM`
/// edge joins to it, and an enhancement seed the one a
/// `DETACHMENT_HAS_ENHANCEMENT` edge joins to it: the detachment is gathered,
/// and it is among the context nodes unless the gathered list is cut at 32.
pub proof fn lemma_seed_detachment_gathered(b: LoadedBundle, seeds: Seq<Seq<char>>, i: int, e: int)
    requires
        0 <= i < seeds.len(),
        0 <= e < b.edges@.len(),
        b.edges@[e].to@ == seeds[i],
        kind_of_id(b, b.edges@[e].from@) == "Detachment"@,
        (kind_of_id(b, seeds[i]) == "Stratagem"@ && b.edges@[e].kind@ == "DETACHMENT_HAS_STRATAGEM"@) || (kind_of_id(
            b,
            seeds[i],
        ) == "Enhancement"@ && b.edges@[e].kind@ == "DETACHMENT_HAS_ENHANCEMENT"@),
    ensures
        gathered_spec(b, seeds).contains(b.edges@[e].from@),
        gathered_spec(b, seeds).len() <= 32 ==> context_spec(b, seeds).contains(b.edges@[e].from@),
{
    reveal_strlit("Stratagem");
    reveal_strlit("Enhancement");
    reveal_strlit("Detachment");
    let edge = b.edges@[e];
    let d = edge.from@;
    let s = seeds[i];
    assert(d != s) by {
        assert("Detachment"@[0] != "Stratagem"@[0]);
        assert("Detachment"@[0] != "Enhancement"@[0]);
    }
    assert(neighbor_of(edge, s) == Some(d));
    let ek = edge.kind@;
    assert(seq![ek][0] == ek);
    lemma_adjacent_has(b.edges@, s, seq![ek], b.edges@.len() as int, e);
    let n = seeds.len() as int;
    let ds = datasheets_spec(b, seeds);
    let f = factions_upto(b, seeds, n);
    let k = around_upto(b, ds, "DATASHEET_HAS_KEYWORD"@, "Keyword"@, ds.len() as int);
    let a = around_upto(b, ds, "DATASHEET_HAS_ABILITY"@, "Ability"@, ds.len() as int);
    let dl = seed_detachments(b, seeds, n, datasheet_detachments(b, ds, ds.len() as int));
    let o = others_upto(seeds, ds, ds.len() as int);
    let m1 = merge_spec(seeds, f);
    let m2 = merge_spec(m1, k);
    let m3 = merge_spec(m2, a);
    let m4 = merge_spec(m3, dl);
    lemma_seed_detachments_has(b, seeds, n, datasheet_detachments(b, ds, ds.len() as int), i, d);
    lemma_merge_contains(m3, dl);
    let j = choose|j: int| 0 <= j < dl.len() && dl[j] == d;
    assert(m4.contains(dl[j]));
    lemma_merge_contains(m4, o);
    assert(gathered_spec(b, seeds) == merge_spec(m4, o));
}

} // verus!
