//! Citations: the bracketed node ids of an answer that were in the prompt,
//! or the seeds when there are none, each with its title, link and up to
//! eight neighbor labels.

use vstd::prelude::*;

use crate::ask::bundle::{LoadedBundle, node_spec};
use crate::ask::expand::{ContextNodes, has_string, neighbor_of};
use crate::graph::attrs::{copy_strings, strings_view};
use crate::graph::groups::keyword_id;
use crate::graph::textutil::{quote_bytes, unreserved, upper_hex_digit};
use vstd::utf8::encode_utf8;
use crate::graph::model::{Passage, copy_opt, opt_view};
use crate::text::{chars_of, copy_str, find_char, find_from, lemma_find_from, str_eq, string_of, sub_chars};

verus! {

/// One cited node.
#[derive(Debug)]
pub struct Citation {
    pub node_id: String,
    pub title: String,
    pub wahapedia_link: Option<String>,
    pub neighbors: Vec<String>,
}

/// An ASCII letter or digit.
pub open spec fn ascii_alnum(c: char) -> bool {
    ('0' <= c && c <= '9') || ('a' <= c && c <= 'z') || ('A' <= c && c <= 'Z')
}

/// A character allowed in the kind segment of a node id.
pub open spec fn kind_char(c: char) -> bool {
    ascii_alnum(c) || c == '_'
}

/// A character allowed after the kind segment of a node id.
pub open spec fn tail_char(c: char) -> bool {
    ascii_alnum(c) || c == '_' || c == '-' || c == '.' || c == '~' || c == '%' || c == ':'
}

/// `10ed:`, a nonempty kind or table segment of letters, digits and `_`, a
/// colon, and a nonempty rest of letters, digits and `_-.~%:`. Edge ids are
/// not node ids.
pub open spec fn is_node_id_spec(v: Seq<char>) -> bool {
    let rest = v.skip(5);
    &&& v.len() >= 5
    &&& v.take(5) == "10ed:"@
    &&& !(rest.len() >= 5 && rest.take(5) == "edge:"@)
    &&& rest != "edge"@
    &&& find_from(rest, 0, ':') matches Some(p) && {
        let kind = rest.take(p);
        let tail = rest.skip(p + 1);
        &&& kind.len() > 0
        &&& forall|i: int| 0 <= i < kind.len() ==> kind_char(#[trigger] kind[i])
        &&& tail.len() > 0
        &&& forall|i: int| 0 <= i < tail.len() ==> tail_char(#[trigger] tail[i])
    }
}

/// Every id the builder writes is a node id: `10ed:`, a nonempty kind other
/// than `edge` made of ASCII letters, digits and `_`, a colon, and a nonempty
/// tail made of ASCII letters, digits and `_-.~%:`.
pub proof fn lemma_written_ids_are_node_ids(kind: Seq<char>, tail: Seq<char>)
    requires
        kind.len() > 0,
        kind != "edge"@,
        forall|i: int|
            0 <= i < kind.len() ==> ('0' <= #[trigger] kind[i] && kind[i] <= '9') || ('a' <= kind[i] && kind[i]
                <= 'z') || ('A' <= kind[i] && kind[i] <= 'Z') || kind[i] == '_',
        tail.len() > 0,
        forall|i: int|
            0 <= i < tail.len() ==> ('0' <= #[trigger] tail[i] && tail[i] <= '9') || ('a' <= tail[i] && tail[i]
                <= 'z') || ('A' <= tail[i] && tail[i] <= 'Z') || tail[i] == '_' || tail[i] == '-' || tail[i]
                == '.' || tail[i] == '~' || tail[i] == '%' || tail[i] == ':',
    ensures
        is_node_id_spec("10ed:"@ + kind + ":"@ + tail),
{
    reveal_strlit("10ed:");
    reveal_strlit(":");
    reveal_strlit("edge:");
    reveal_strlit("edge");
    let v = "10ed:"@ + kind + ":"@ + tail;
    let rest = kind + ":"@ + tail;
    let p = kind.len() as int;
    assert(v.take(5) =~= "10ed:"@);
    assert(v.skip(5) =~= rest);
    assert(rest[p] == ':');
    assert(forall|i: int| 0 <= i < p ==> #[trigger] rest[i] == kind[i]);
    if rest.len() >= 5 && rest.take(5) == "edge:"@ {
        let e = "edge:"@;
        assert(e[0] == 'e' && e[1] == 'd' && e[2] == 'g' && e[3] == 'e' && e[4] == ':');
        if p < 4 {
            assert(rest.take(5)[p] == rest[p]);
            assert(false);
        } else if p > 4 {
            assert(rest.take(5)[4] == kind[4]);
            assert(false);
        } else {
            assert(forall|i: int| 0 <= i < 4 ==> #[trigger] kind[i] == rest.take(5)[i]);
            assert(kind =~= "edge"@);
            assert(false);
        }
    }
    if rest == "edge"@ {
        assert(p < 4);
        assert("edge"@[p] == ':');
    }
    lemma_find_from(rest, 0, ':');
    match find_from(rest, 0, ':') {
        Some(j) => {
            if j < p {
                assert(rest[j] == kind[j]);
            }
            assert(j == p);
        },
        None => {
            assert(rest[p] != ':');
        },
    }
    assert(find_from(rest, 0, ':') == Some(p));
    assert(rest.take(p) =~= kind);
    assert(rest.skip(p + 1) =~= tail);
    assert(forall|i: int| 0 <= i < kind.len() ==> kind_char(#[trigger] kind[i]));
    assert(forall|i: int| 0 <= i < tail.len() ==> tail_char(#[trigger] tail[i]));
    assert(!(rest.len() >= 5 && rest.take(5) == "edge:"@));
    assert(rest != "edge"@);
    assert(v.len() >= 5);
}

/// Percent-encoded text is made of ASCII letters, digits and `_-.~%`, and is
/// no shorter than the bytes it encodes.
proof fn lemma_quoted_chars(b: Seq<u8>)
    ensures
        quote_bytes(b).len() >= b.len(),
        forall|i: int|
            0 <= i < quote_bytes(b).len() ==> ('0' <= #[trigger] quote_bytes(b)[i] && quote_bytes(b)[i] <= '9') || (
            'a' <= quote_bytes(b)[i] && quote_bytes(b)[i] <= 'z') || ('A' <= quote_bytes(b)[i] && quote_bytes(b)[i]
                <= 'Z') || quote_bytes(b)[i] == '_' || quote_bytes(b)[i] == '-' || quote_bytes(b)[i] == '.'
                || quote_bytes(b)[i] == '~' || quote_bytes(b)[i] == '%',
    decreases b.len(),
{
    if b.len() > 0 {
        let x = b.last();
        lemma_quoted_chars(b.drop_last());
        let prev = quote_bytes(b.drop_last());
        let piece = if unreserved(x) {
            seq![x as char]
        } else {
            seq!['%', upper_hex_digit(x as int / 16), upper_hex_digit(x as int % 16)]
        };
        assert(quote_bytes(b) == prev + piece);
        assert forall|i: int| 0 <= i < piece.len() implies ('0' <= #[trigger] piece[i] && piece[i] <= '9') || (
        'a' <= piece[i] && piece[i] <= 'z') || ('A' <= piece[i] && piece[i] <= 'Z') || piece[i] == '_'
            || piece[i] == '-' || piece[i] == '.' || piece[i] == '~' || piece[i] == '%' by {
            if unreserved(x) {
                assert(piece[i] == x as char);
            } else if i > 0 {
                let d = if i == 1 {
                    x as int / 16
                } else {
                    x as int % 16
                };
                assert(0 <= d < 16);
                assert(piece[i] == upper_hex_digit(d));
            }
        }
        let q = quote_bytes(b);
        assert forall|i: int| 0 <= i < q.len() implies ('0' <= #[trigger] q[i] && q[i] <= '9') || ('a' <= q[i]
            && q[i] <= 'z') || ('A' <= q[i] && q[i] <= 'Z') || q[i] == '_' || q[i] == '-' || q[i] == '.' || q[i]
            == '~' || q[i] == '%' by {
            if i < prev.len() {
                assert(q[i] == prev[i]);
            } else {
                assert(q[i] == piece[i - prev.len()]);
            }
        }
    }
}

/// The id of every keyword node, `10ed:keyword:` and the percent-encoded
/// normalized keyword, is a node id, so answers can cite keywords.
pub proof fn lemma_keyword_ids_are_node_ids(normalized: Seq<char>)
    requires
        normalized.len() > 0,
    ensures
        is_node_id_spec(keyword_id(normalized)),
{
    reveal_strlit("10ed:keyword:");
    reveal_strlit("10ed:");
    reveal_strlit("keyword");
    reveal_strlit(":");
    reveal_strlit("edge");
    let b = encode_utf8(normalized);
    assert(b.len() > 0);
    let q = quote_bytes(b);
    lemma_quoted_chars(b);
    assert(keyword_id(normalized) =~= "10ed:"@ + "keyword"@ + ":"@ + q);
    assert("keyword"@ != "edge"@) by {
        assert("keyword"@.len() != "edge"@.len());
    }
    lemma_written_ids_are_node_ids("keyword"@, q);
}

/// The bracketed strings of `s` from `i` on that are node ids, in order: each
/// `[` is closed by the next `]`.
pub open spec fn bracket_ids_from(s: Seq<char>, i: int) -> Seq<Seq<char>>
    decreases s.len() - i,
{
    if i < 0 || i > s.len() {
        Seq::empty()
    } else {
        match find_from(s, i, '[') {
            None => Seq::empty(),
            Some(st) => match find_from(s, st + 1, ']') {
                None => Seq::empty(),
                Some(en) => {
                    if en + 1 > i && en < s.len() {
                        let inner = s.subrange(st + 1, en);
                        let rest = bracket_ids_from(s, en + 1);
                        if is_node_id_spec(inner) {
                            seq![inner] + rest
                        } else {
                            rest
                        }
                    } else {
                        Seq::empty()
                    }
                },
            },
        }
    }
}

fn all_chars(s: &Vec<char>, from: usize, to: usize, tail: bool) -> (r: bool)
    requires
        from <= to <= s@.len(),
    ensures
        r == forall|i: int| from <= i < to ==> (if tail { tail_char(#[trigger] s@[i]) } else { kind_char(s@[i]) }),
{
    let mut i = from;
    while i < to
        invariant
            from <= i <= to <= s@.len(),
            forall|k: int| from <= k < i ==> (if tail { tail_char(#[trigger] s@[k]) } else { kind_char(s@[k]) }),
        decreases to - i,
    {
        let c = s[i];
        let alnum = ('0' <= c && c <= '9') || ('a' <= c && c <= 'z') || ('A' <= c && c <= 'Z');
        let ok = if tail {
            alnum || c == '_' || c == '-' || c == '.' || c == '~' || c == '%' || c == ':'
        } else {
            alnum || c == '_'
        };
        if !ok {
            return false;
        }
        i = i + 1;
    }
    true
}

fn has_prefix_at(s: &Vec<char>, at: usize, p: &str) -> (r: bool)
    requires
        at <= s@.len(),
    ensures
        r == (s@.len() - at >= p@.len() && s@.subrange(at as int, at + p@.len()) == p@),
{
    let pc = chars_of(p);
    if s.len() - at < pc.len() {
        return false;
    }
    let end = at + pc.len();
    let mut k: usize = 0;
    while k < pc.len()
        invariant
            k <= pc@.len(),
            pc@ == p@,
            end == at + pc@.len(),
            end <= s@.len(),
            forall|m: int| 0 <= m < k ==> s@[at + m] == pc@[m],
        decreases pc@.len() - k,
    {
        if s[at + k] != pc[k] {
            assert(s@.subrange(at as int, at + p@.len())[k as int] != p@[k as int]);
            return false;
        }
        k = k + 1;
    }
    assert(s@.subrange(at as int, at + p@.len()) =~= p@);
    true
}

/// Whether `value` is a node id (see `is_node_id_spec`).
pub fn is_node_id(value: &str) -> (r: bool)
    ensures
        r == is_node_id_spec(value@),
{
    let s = chars_of(value);
    proof {
        reveal_strlit("10ed:");
        reveal_strlit("edge:");
        reveal_strlit("edge");
    }
    if s.len() < 5 || !has_prefix_at(&s, 0, "10ed:") {
        proof {
            if s@.len() >= 5 {
                assert(s@.subrange(0, 5) =~= s@.take(5));
            }
        }
        return false;
    }
    assert(s@.subrange(0, 5) =~= s@.take(5));
    let ghost rest = s@.skip(5);
    let edge_prefix = has_prefix_at(&s, 5, "edge:");
    let is_edge = s.len() == 9 && has_prefix_at(&s, 5, "edge");
    proof {
        if s@.len() - 5 >= 5 {
            assert(s@.subrange(5, 10) =~= rest.take(5));
        }
        if s@.len() == 9 {
            assert(s@.subrange(5, 9) =~= rest);
        }
        if rest == "edge"@ {
            assert(s@.len() == 9);
            assert(s@.subrange(5, 9) =~= rest);
        }
    }
    if edge_prefix || is_edge {
        return false;
    }
    let colon = find_char(&s, 5, ':');
    proof {
        lemma_find_from(s@, 5, ':');
        lemma_find_from(rest, 0, ':');
        lemma_find_shift(s@, 5, 0, ':');
    }
    match colon {
        None => {
            assert(find_from(rest, 0, ':') is None);
            false
        },
        Some(p) => {
            proof {
                assert(rest.take(p - 5) =~= s@.subrange(5, p as int));
                assert(rest.skip(p - 5 + 1) =~= s@.subrange(p + 1, s@.len() as int));
            }
            let r = p > 5 && all_chars(&s, 5, p, false) && p + 1 < s.len() && all_chars(&s, p + 1, s.len(), true);
            proof {
                let kind = rest.take(p - 5);
                let tail = rest.skip(p - 5 + 1);
                assert(find_from(rest, 0, ':') == Some(p - 5));
                if r {
                    assert forall|i: int| 0 <= i < kind.len() implies kind_char(#[trigger] kind[i]) by {
                        assert(kind[i] == s@[5 + i]);
                    }
                    assert forall|i: int| 0 <= i < tail.len() implies tail_char(#[trigger] tail[i]) by {
                        assert(tail[i] == s@[p + 1 + i]);
                    }
                } else if p > 5 && p + 1 < s@.len() {
                    if !(forall|i: int| 5 <= i < p ==> kind_char(#[trigger] s@[i])) {
                        let i = choose|i: int| 5 <= i < p && !kind_char(#[trigger] s@[i]);
                        assert(kind[i - 5] == s@[i]);
                    } else {
                        let i = choose|i: int| p + 1 <= i < s@.len() && !tail_char(#[trigger] s@[i]);
                        assert(tail[i - p - 1] == s@[i]);
                    }
                }
            }
            r
        },
    }
}

/// `find_from` on a suffix is `find_from` on the whole, shifted.
proof fn lemma_find_shift(s: Seq<char>, off: int, i: int, c: char)
    requires
        0 <= off <= s.len(),
        0 <= i,
    ensures
        match find_from(s.skip(off), i, c) {
            Some(j) => find_from(s, off + i, c) == Some(off + j),
            None => find_from(s, off + i, c) is None,
        },
    decreases s.len() - off - i,
{
    if i < s.len() - off && s.skip(off)[i] != c {
        lemma_find_shift(s, off, i + 1, c);
    }
}

/// The bracketed node ids of `answer`, in order.
pub fn bracket_ids(answer: &str) -> (r: Vec<String>)
    ensures
        strings_view(r@) == bracket_ids_from(answer@, 0),
{
    let s = chars_of(answer);
    let slen = s.len();
    let mut ids: Vec<String> = Vec::new();
    let mut pos: usize = 0;
    loop
        invariant
            slen == s@.len(),
            pos <= s@.len(),
            s@ == answer@,
            strings_view(ids@) + bracket_ids_from(s@, pos as int) == bracket_ids_from(s@, 0),
        decreases s@.len() - pos,
    {
        proof {
            lemma_find_from(s@, pos as int, '[');
        }
        let start = match find_char(&s, pos, '[') {
            Some(st) => st,
            None => {
                assert(strings_view(ids@) =~= bracket_ids_from(s@, 0));
                return ids;
            },
        };
        proof {
            lemma_find_from(s@, start + 1, ']');
        }
        let end = match find_char(&s, start + 1, ']') {
            Some(en) => en,
            None => {
                assert(strings_view(ids@) =~= bracket_ids_from(s@, 0));
                return ids;
            },
        };
        let inner = string_of(sub_chars(&s, start + 1, end).as_slice());
        let ghost before = strings_view(ids@);
        if is_node_id(inner.as_str()) {
            ids.push(inner);
            assert(strings_view(ids@) =~= before + seq![s@.subrange(start + 1, end as int)]);
        }
        assert(strings_view(ids@) + bracket_ids_from(s@, end + 1) =~= bracket_ids_from(s@, 0));
        pos = end + 1;
    }
}

/// The prompt ids among the first `n` that the answer cites, in prompt order.
pub open spec fn cited_upto(nodes: Seq<Seq<char>>, cited: Seq<Seq<char>>, n: int) -> Seq<Seq<char>>
    decreases n,
{
    if n <= 0 || n > nodes.len() {
        Seq::empty()
    } else if cited.contains(nodes[n - 1]) {
        cited_upto(nodes, cited, n - 1).push(nodes[n - 1])
    } else {
        cited_upto(nodes, cited, n - 1)
    }
}

/// The ids to cite: the prompt ids the answer cites, in prompt order, or the
/// seeds when it cites none of them.
pub open spec fn cited_ids(nodes: Seq<Seq<char>>, seeds: Seq<Seq<char>>, answer: Seq<char>) -> Seq<Seq<char>> {
    let c = cited_upto(nodes, bracket_ids_from(answer, 0), nodes.len() as int);
    if c.len() == 0 {
        seeds
    } else {
        c
    }
}

/// The first passage for `id` from position `i` on.
pub open spec fn passage_for(passages: Seq<Passage>, id: Seq<char>, i: int) -> Option<Passage>
    decreases passages.len() - i,
{
    if i < 0 || i >= passages.len() {
        None
    } else if passages[i].node_id@ == id {
        Some(passages[i])
    } else {
        passage_for(passages, id, i + 1)
    }
}

/// The labels of the first nodes next to `id` along the first `n` edges, at
/// most eight.
pub open spec fn neighbor_labels_upto(b: LoadedBundle, id: Seq<char>, n: int) -> Seq<Seq<char>>
    decreases n,
{
    if n <= 0 || n > b.edges@.len() {
        Seq::empty()
    } else {
        let prev = neighbor_labels_upto(b, id, n - 1);
        if prev.len() >= 8 {
            prev
        } else {
            match neighbor_of(b.edges@[n - 1], id) {
                Some(other) => match node_spec(b, other) {
                    Some(node) => prev.push(node.label@),
                    None => prev,
                },
                None => prev,
            }
        }
    }
}

/// The title of a cited id: its passage's, else its node's label, else empty.
pub open spec fn cite_title(b: LoadedBundle, id: Seq<char>) -> Seq<char> {
    match passage_for(b.passages@, id, 0) {
        Some(p) => p.title@,
        None => match node_spec(b, id) {
            Some(n) => n.label@,
            None => Seq::empty(),
        },
    }
}

/// The link of a cited id: its passage's, else its node's source URL.
pub open spec fn cite_link(b: LoadedBundle, id: Seq<char>) -> Option<Seq<char>> {
    match passage_for(b.passages@, id, 0) {
        Some(p) if p.wahapedia_link is Some => opt_view(p.wahapedia_link),
        _ => match node_spec(b, id) {
            Some(n) => opt_view(n.source_url),
            None => None,
        },
    }
}

/// A citation's values.
pub open spec fn citation_matches(b: LoadedBundle, id: Seq<char>, c: Citation) -> bool {
    &&& c.node_id@ == id
    &&& c.title@ == cite_title(b, id)
    &&& opt_view(c.wahapedia_link) == cite_link(b, id)
    &&& strings_view(c.neighbors@) == neighbor_labels_upto(b, id, b.edges@.len() as int)
}

fn find_passage<'a>(passages: &'a Vec<Passage>, id: &str) -> (r: Option<&'a Passage>)
    ensures
        match r {
            Some(p) => passage_for(passages@, id@, 0) == Some(*p),
            None => passage_for(passages@, id@, 0) is None,
        },
{
    let mut i: usize = 0;
    while i < passages.len()
        invariant
            i <= passages@.len(),
            passage_for(passages@, id@, 0) == passage_for(passages@, id@, i as int),
        decreases passages@.len() - i,
    {
        if str_eq(passages[i].node_id.as_str(), id) {
            return Some(&passages[i]);
        }
        i = i + 1;
    }
    None
}

/// The labels of up to eight nodes next to `id`, in edge order.
pub fn neighbor_labels(b: &LoadedBundle, id: &str) -> (r: Vec<String>)
    ensures
        strings_view(r@) == neighbor_labels_upto(*b, id@, b.edges@.len() as int),
        r@.len() <= 8,
{
    let mut labels: Vec<String> = Vec::new();
    let mut i: usize = 0;
    while i < b.edges.len()
        invariant
            i <= b.edges@.len(),
            strings_view(labels@) == neighbor_labels_upto(*b, id@, i as int),
            labels@.len() < 8,
        decreases b.edges@.len() - i,
    {
        let e = &b.edges[i];
        let other = if str_eq(e.from.as_str(), id) {
            Some(e.to.as_str())
        } else if str_eq(e.to.as_str(), id) {
            Some(e.from.as_str())
        } else {
            None
        };
        if let Some(other) = other {
            if let Some(node) = b.node(other) {
                let ghost before = strings_view(labels@);
                labels.push(copy_str(node.label.as_str()));
                assert(strings_view(labels@) =~= before.push(node.label@));
                if labels.len() == 8 {
                    proof {
                        lemma_labels_stay(*b, id@, i + 1);
                    }
                    return labels;
                }
            }
        }
        i = i + 1;
    }
    labels
}

proof fn lemma_labels_stay(b: LoadedBundle, id: Seq<char>, n: int)
    requires
        0 <= n <= b.edges@.len(),
        neighbor_labels_upto(b, id, n).len() >= 8,
    ensures
        neighbor_labels_upto(b, id, b.edges@.len() as int) == neighbor_labels_upto(b, id, n),
    decreases b.edges@.len() - n,
{
    if n < b.edges@.len() {
        lemma_labels_stay(b, id, n + 1);
    }
}

/// The citation of `id`.
pub fn citation_for(b: &LoadedBundle, id: &str) -> (c: Citation)
    ensures
        citation_matches(*b, id@, c),
{
    let passage = find_passage(&b.passages, id);
    let node = b.node(id);
    let title = match passage {
        Some(p) => copy_str(p.title.as_str()),
        None => match node {
            Some(n) => copy_str(n.label.as_str()),
            None => String::new(),
        },
    };
    let link = match passage {
        Some(p) if p.wahapedia_link.is_some() => copy_opt(&p.wahapedia_link),
        _ => match node {
            Some(n) => copy_opt(&n.source_url),
            None => None,
        },
    };
    Citation { node_id: copy_str(id), title, wahapedia_link: link, neighbors: neighbor_labels(b, id) }
}

/// The citations of an answer: the prompt ids it cites in brackets, in
/// prompt order, or the seeds when it cites none of them.
pub fn citations(b: &LoadedBundle, answer: &str, context: &ContextNodes) -> (r: Vec<Citation>)
    ensures
        r@.len() == cited_ids(strings_view(context.nodes@), strings_view(context.seeds@), answer@).len(),
        forall|i: int|
            0 <= i < r@.len() ==> citation_matches(
                *b,
                #[trigger] cited_ids(strings_view(context.nodes@), strings_view(context.seeds@), answer@)[i],
                r@[i],
            ),
{
    let brackets = bracket_ids(answer);
    let ghost nv = strings_view(context.nodes@);
    let ghost bv = strings_view(brackets@);
    let mut cited: Vec<String> = Vec::new();
    let mut i: usize = 0;
    while i < context.nodes.len()
        invariant
            i <= context.nodes@.len(),
            nv == strings_view(context.nodes@),
            bv == strings_view(brackets@),
            bv == bracket_ids_from(answer@, 0),
            strings_view(cited@) == cited_upto(nv, bv, i as int),
        decreases context.nodes@.len() - i,
    {
        if has_string(&brackets, context.nodes[i].as_str()) {
            let ghost before = strings_view(cited@);
            cited.push(copy_str(context.nodes[i].as_str()));
            assert(strings_view(cited@) =~= before.push(nv[i as int]));
        }
        i = i + 1;
    }
    let ids = if cited.len() == 0 {
        copy_strings(&context.seeds)
    } else {
        cited
    };
    let ghost iv = strings_view(ids@);
    assert(iv == cited_ids(nv, strings_view(context.seeds@), answer@));
    let mut out: Vec<Citation> = Vec::new();
    let mut k: usize = 0;
    while k < ids.len()
        invariant
            k <= ids@.len(),
            iv == strings_view(ids@),
            out@.len() == k,
            forall|m: int| 0 <= m < k ==> citation_matches(*b, #[trigger] iv[m], out@[m]),
        decreases ids@.len() - k,
    {
        let c = citation_for(b, ids[k].as_str());
        out.push(c);
        k = k + 1;
    }
    out
}

proof fn lemma_cited_upto(nodes: Seq<Seq<char>>, cited: Seq<Seq<char>>, n: int)
    requires
        0 <= n <= nodes.len(),
    ensures
        forall|i: int|
            0 <= i < cited_upto(nodes, cited, n).len() ==> nodes.take(n).contains(
                #[trigger] cited_upto(nodes, cited, n)[i],
            ) && cited.contains(cited_upto(nodes, cited, n)[i]),
        (forall|j: int| 0 <= j < n ==> !cited.contains(#[trigger] nodes[j])) ==> cited_upto(nodes, cited, n).len() == 0,
    decreases n,
{
    if n > 0 {
        lemma_cited_upto(nodes, cited, n - 1);
        let prev = cited_upto(nodes, cited, n - 1);
        let cur = cited_upto(nodes, cited, n);
        assert forall|i: int| 0 <= i < cur.len() implies nodes.take(n).contains(#[trigger] cur[i]) && cited.contains(
            cur[i],
        ) by {
            if i < prev.len() {
                assert(cur[i] == prev[i]);
                let j = choose|j: int| 0 <= j < n - 1 && #[trigger] nodes.take(n - 1)[j] == prev[i];
                assert(nodes.take(n)[j] == prev[i]);
            } else {
                assert(nodes.take(n)[n - 1] == nodes[n - 1]);
            }
        }
    }
}

/// What is cited: when the answer brackets any prompt id, exactly those
/// prompt ids, each one both in the prompt and bracketed in the answer; when
/// it brackets none, the seeds.
pub proof fn lemma_cited_ids(nodes: Seq<Seq<char>>, seeds: Seq<Seq<char>>, answer: Seq<char>)
    ensures
        (forall|j: int| 0 <= j < nodes.len() ==> !bracket_ids_from(answer, 0).contains(#[trigger] nodes[j]))
            ==> cited_ids(nodes, seeds, answer) == seeds,
        cited_ids(nodes, seeds, answer) != seeds ==> forall|i: int|
            0 <= i < cited_ids(nodes, seeds, answer).len() ==> nodes.contains(
                #[trigger] cited_ids(nodes, seeds, answer)[i],
            ) && bracket_ids_from(answer, 0).contains(cited_ids(nodes, seeds, answer)[i]),
{
    let br = bracket_ids_from(answer, 0);
    lemma_cited_upto(nodes, br, nodes.len() as int);
    assert(nodes.take(nodes.len() as int) =~= nodes);
}

proof fn lemma_cited_upto_has(nodes: Seq<Seq<char>>, cited: Seq<Seq<char>>, n: int, j: int)
    requires
        0 <= j < n <= nodes.len(),
        cited.contains(nodes[j]),
    ensures
        cited_upto(nodes, cited, n).contains(nodes[j]),
    decreases n,
{
    let prev = cited_upto(nodes, cited, n - 1);
    if j < n - 1 {
        lemma_cited_upto_has(nodes, cited, n - 1, j);
        let m = choose|m: int| 0 <= m < prev.len() && prev[m] == nodes[j];
        assert(cited_upto(nodes, cited, n)[m] == nodes[j]);
    } else {
        assert(cited_upto(nodes, cited, n)[prev.len() as int] == nodes[j]);
    }
}

/// An answer that brackets a prompt node id cites it: when the text before
/// the first `[` holds no other `[` and the id holds no `]`, the citations
/// hold that id, and the seeds are not fallen back on.
pub proof fn lemma_bracketed_prompt_id_is_cited(
    nodes: Seq<Seq<char>>,
    seeds: Seq<Seq<char>>,
    pre: Seq<char>,
    id: Seq<char>,
    post: Seq<char>,
)
    requires
        nodes.contains(id),
        is_node_id_spec(id),
        forall|i: int| 0 <= i < pre.len() ==> #[trigger] pre[i] != '[',
        forall|i: int| 0 <= i < id.len() ==> #[trigger] id[i] != ']',
    ensures
        cited_ids(nodes, seeds, pre + seq!['['] + id + seq![']'] + post).contains(id),
{
    let answer = pre + seq!['['] + id + seq![']'] + post;
    let l = pre.len() as int;
    let en = l + 1 + id.len();
    assert(forall|i: int| 0 <= i < l ==> #[trigger] answer[i] == pre[i]);
    assert(forall|i: int| l + 1 <= i < en ==> #[trigger] answer[i] == id[i - l - 1]);
    assert(answer[l] == '[' && answer[en] == ']');
    lemma_find_from(answer, 0, '[');
    assert(find_from(answer, 0, '[') == Some(l));
    lemma_find_from(answer, l + 1, ']');
    assert(find_from(answer, l + 1, ']') == Some(en));
    assert(answer.subrange(l + 1, en) =~= id);
    let br = bracket_ids_from(answer, 0);
    assert(br == seq![id] + bracket_ids_from(answer, en + 1));
    assert(br[0] == id);
    let j = choose|j: int| 0 <= j < nodes.len() && nodes[j] == id;
    lemma_cited_upto_has(nodes, br, nodes.len() as int, j);
}

/// In particular an answer that brackets a prompt keyword id, percent
/// signs and all, cites that keyword.
pub proof fn lemma_bracketed_keyword_is_cited(
    nodes: Seq<Seq<char>>,
    seeds: Seq<Seq<char>>,
    pre: Seq<char>,
    normalized: Seq<char>,
    post: Seq<char>,
)
    requires
        normalized.len() > 0,
        nodes.contains(keyword_id(normalized)),
        forall|i: int| 0 <= i < pre.len() ==> #[trigger] pre[i] != '[',
    ensures
        cited_ids(nodes, seeds, pre + seq!['['] + keyword_id(normalized) + seq![']'] + post).contains(
            keyword_id(normalized),
        ),
{
    reveal_strlit("10ed:keyword:");
    let q = quote_bytes(encode_utf8(normalized));
    lemma_quoted_chars(encode_utf8(normalized));
    lemma_keyword_ids_are_node_ids(normalized);
    let id = keyword_id(normalized);
    let head = "10ed:keyword:"@;
    assert(id == head + q);
    assert forall|i: int| 0 <= i < id.len() implies #[trigger] id[i] != ']' by {
        if i < head.len() {
            assert(id[i] == head[i]);
        } else {
            assert(id[i] == q[i - head.len()]);
        }
    }
    lemma_bracketed_prompt_id_is_cited(nodes, seeds, pre, id, post);
}

} // verus!
