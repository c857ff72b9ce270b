//! Node and edge attributes: a map from keys to a string or a list of strings,
//! kept in key order.

use vstd::prelude::*;

use crate::foreign::{json_string, json_string_spec};
use crate::keyed::{
    entries_map, key_index, keys_sorted, lemma_entries_map, lemma_entries_map_len, lemma_sorted_entries,
    sorted_entries,
};
use crate::text::{
    append_chars, append_str, chars_eq, chars_less, chars_of, copy_str, join,
    lemma_seq_lt_irreflexive, lemma_seq_lt_total, lemma_seq_lt_transitive, seq_lt, string_of,
};

verus! {

/// One attribute value.
#[derive(Debug)]
pub enum AttrValue {
    Text(String),
    List(Vec<String>),
}

/// The mathematical value of an attribute.
pub enum AttrValueView {
    Text(Seq<char>),
    List(Seq<Seq<char>>),
}

/// The views of a list of strings.
pub open spec fn strings_view(v: Seq<String>) -> Seq<Seq<char>> {
    v.map_values(|s: String| s@)
}

impl View for AttrValue {
    type V = AttrValueView;

    open spec fn view(&self) -> AttrValueView {
        match self {
            AttrValue::Text(t) => AttrValueView::Text(t@),
            AttrValue::List(items) => AttrValueView::List(strings_view(items@)),
        }
    }
}

/// Attributes of a node or an edge, in increasing key order.
#[derive(Debug)]
pub struct Attrs {
    entries: Vec<(String, AttrValue)>,
}

/// The view of one entry.
pub open spec fn entry_view(e: (String, AttrValue)) -> (Seq<char>, AttrValueView) {
    (e.0@, e.1@)
}

impl Attrs {
    /// The entries, in key order.
    pub closed spec fn entries_view(&self) -> Seq<(Seq<char>, AttrValueView)> {
        self.entries@.map_values(|e: (String, AttrValue)| entry_view(e))
    }

    #[verifier::type_invariant]
    spec fn sorted(self) -> bool {
        keys_sorted(self.entries_view())
    }

    /// No attributes.
    pub fn new() -> (a: Attrs)
        ensures
            a.entries_view() == Seq::<(Seq<char>, AttrValueView)>::empty(),
            a@ == Map::<Seq<char>, AttrValueView>::empty(),
    {
        let a = Attrs { entries: Vec::new() };
        assert(a.entries_view() =~= Seq::<(Seq<char>, AttrValueView)>::empty());
        assert(a@ =~= Map::<Seq<char>, AttrValueView>::empty());
        a
    }

    /// The entries, in increasing key order.
    pub fn entries(&self) -> (r: &Vec<(String, AttrValue)>)
        ensures
            r@.map_values(|e: (String, AttrValue)| entry_view(e)) == self.entries_view(),
            keys_sorted(self.entries_view()),
    {
        proof {
            use_type_invariant(self);
        }
        &self.entries
    }

    /// The entries are in strictly increasing key order, as those of every
    /// `Attrs` value are.
    pub open spec fn is_sorted(&self) -> bool {
        keys_sorted(self.entries_view())
    }

    /// Sorted entries render as the canonical JSON of the map they spell.
    pub proof fn lemma_entries_json(&self)
        requires
            self.is_sorted(),
        ensures
            canonical_json(self.entries_view()) == attrs_json(self@),
    {
        lemma_sorted_entries(self.entries_view());
    }

    /// Number of attributes: one per key.
    pub fn len(&self) -> (n: usize)
        ensures
            n == self.entries_view().len(),
            self@.dom().finite(),
            n == self@.len(),
    {
        proof {
            use_type_invariant(self);
            lemma_entries_map_len(self.entries_view());
        }
        self.entries.len()
    }

    fn insert_value(&mut self, key: &str, value: AttrValue)
        ensures
            final(self)@ == old(self)@.insert(key@, value@),
    {
        proof {
            use_type_invariant(&*self);
        }
        let ghost old_entries = self.entries_view();
        let mut entries: Vec<(String, AttrValue)> = Vec::new();
        std::mem::swap(&mut entries, &mut self.entries);
        assert(entries@.map_values(|e: (String, AttrValue)| entry_view(e)) == old_entries);
        let k = chars_of(key);
        let mut i: usize = 0;
        while i < entries.len() && chars_less(&chars_of(entries[i].0.as_str()), &k)
            invariant
                i <= entries@.len(),
                entries@.map_values(|e: (String, AttrValue)| entry_view(e)) == old_entries,
                k@ == key@,
                forall|j: int| 0 <= j < i ==> seq_lt(#[trigger] old_entries[j].0, key@),
            decreases entries@.len() - i,
        {
            i = i + 1;
        }
        let ghost new_entry = (key@, value@);
        let same = i < entries.len() && chars_eq(&chars_of(entries[i].0.as_str()), &k);
        if same {
            entries.set(i, (copy_str(key), value));
        } else {
            entries.insert(i, (copy_str(key), value));
        }
        let ghost new_view = entries@.map_values(|e: (String, AttrValue)| entry_view(e));
        proof {
            if same {
                assert(new_view =~= old_entries.update(i as int, new_entry));
            } else {
                assert(new_view =~= old_entries.insert(i as int, new_entry));
                if i < old_entries.len() {
                    lemma_seq_lt_total(old_entries[i as int].0, key@);
                }
            }
            if !same && i < old_entries.len() {
                lemma_seq_lt_total(old_entries[i as int].0, key@);
                assert(seq_lt(key@, old_entries[i as int].0));
            }
            assert forall|a: int, b: int| 0 <= a < b < new_view.len() implies seq_lt(
                #[trigger] new_view[a].0,
                #[trigger] new_view[b].0,
            ) by {
                if !same {
                    if b > i {
                        let ob = b - 1;
                        assert(new_view[b] == old_entries[ob]);
                        if ob > i {
                            lemma_seq_lt_transitive(key@, old_entries[i as int].0, old_entries[ob].0);
                        }
                        assert(seq_lt(key@, old_entries[ob].0));
                        if a < i {
                            assert(new_view[a] == old_entries[a]);
                            lemma_seq_lt_transitive(old_entries[a].0, key@, old_entries[ob].0);
                        } else if a > i {
                            assert(new_view[a] == old_entries[a - 1]);
                        }
                    } else if b == i {
                        assert(new_view[a] == old_entries[a]);
                    } else {
                        assert(new_view[a] == old_entries[a]);
                        assert(new_view[b] == old_entries[b]);
                    }
                } else {
                    assert(new_view[a].0 == old_entries[a].0);
                    assert(new_view[b].0 == old_entries[b].0);
                }
            }
            assert(keys_sorted(new_view));
            let om = entries_map(old_entries);
            let nm = entries_map(new_view);
            let want = om.insert(key@, value@);
            assert forall|q: Seq<char>| #[trigger] nm.contains_key(q) == want.contains_key(q) by {
                if nm.contains_key(q) {
                    let j = choose|j: int| 0 <= j < new_view.len() && #[trigger] new_view[j].0 == q;
                    if q != key@ {
                        if same {
                            assert(old_entries[j].0 == q);
                        } else if j < i {
                            assert(old_entries[j].0 == q);
                        } else {
                            assert(old_entries[j - 1].0 == q);
                        }
                    }
                }
                if want.contains_key(q) && q != key@ {
                    let j = choose|j: int| 0 <= j < old_entries.len() && #[trigger] old_entries[j].0 == q;
                    if same || j < i {
                        assert(new_view[j].0 == q);
                    } else {
                        assert(new_view[j + 1].0 == q);
                    }
                }
                if q == key@ {
                    assert(new_view[i as int].0 == q);
                }
            }
            assert forall|q: Seq<char>| #[trigger] nm.contains_key(q) implies nm[q] == want[q] by {
                let j = choose|j: int| 0 <= j < new_view.len() && #[trigger] new_view[j].0 == q;
                lemma_entries_map(new_view, j);
                if q == key@ {
                    lemma_entries_map(new_view, i as int);
                } else {
                    if same || j < i {
                        assert(new_view[j] == old_entries[j]);
                        lemma_entries_map(old_entries, j);
                    } else {
                        assert(new_view[j] == old_entries[j - 1]);
                        lemma_entries_map(old_entries, j - 1);
                    }
                }
            }
            assert(nm =~= want);
        }
        self.entries = entries;
    }

    /// Sets `key` to the string `value`, replacing any value it had.
    pub fn insert_text(&mut self, key: &str, value: &str)
        ensures
            final(self)@ == old(self)@.insert(key@, AttrValueView::Text(value@)),
            final(self)@.len() == old(self)@.len() + if old(self)@.contains_key(key@) {
                0int
            } else {
                1int
            },
    {
        proof {
            use_type_invariant(&*self);
            lemma_entries_map_len(self.entries_view());
        }
        self.insert_value(key, AttrValue::Text(copy_str(value)));
    }

    /// Sets `key` to the list `values`, replacing any value it had.
    pub fn insert_list(&mut self, key: &str, values: Vec<String>)
        ensures
            final(self)@ == old(self)@.insert(key@, AttrValueView::List(strings_view(values@))),
            final(self)@.len() == old(self)@.len() + if old(self)@.contains_key(key@) {
                0int
            } else {
                1int
            },
    {
        proof {
            use_type_invariant(&*self);
            lemma_entries_map_len(self.entries_view());
        }
        self.insert_value(key, AttrValue::List(values));
    }

    /// The string stored at `key`, if that key holds a string.
    pub fn text(&self, key: &str) -> (r: Option<&str>)
        ensures
            match r {
                Some(t) => self@.contains_key(key@) && self@[key@] == AttrValueView::Text(t@),
                None => !self@.contains_key(key@) || self@[key@] is List,
            },
    {
        proof {
            use_type_invariant(self);
        }
        let k = chars_of(key);
        let mut i: usize = 0;
        while i < self.entries.len()
            invariant
                i <= self.entries@.len(),
                k@ == key@,
                keys_sorted(self.entries_view()),
                forall|j: int| 0 <= j < i ==> #[trigger] self.entries_view()[j].0 != key@,
            decreases self.entries@.len() - i,
        {
            if chars_eq(&chars_of(self.entries[i].0.as_str()), &k) {
                proof {
                    lemma_entries_map(self.entries_view(), i as int);
                }
                match &self.entries[i].1 {
                    AttrValue::Text(t) => {
                        return Some(t.as_str());
                    },
                    AttrValue::List(_) => {
                        return None;
                    },
                }
            }
            i = i + 1;
        }
        None
    }
}

impl View for Attrs {
    type V = Map<Seq<char>, AttrValueView>;

    closed spec fn view(&self) -> Map<Seq<char>, AttrValueView> {
        entries_map(self.entries_view())
    }
}

/// The JSON text of one attribute value.
pub open spec fn value_json(v: AttrValueView) -> Seq<char> {
    match v {
        AttrValueView::Text(t) => json_string_spec(t),
        AttrValueView::List(items) => seq!['['] + join(
            items.map_values(|t: Seq<char>| json_string_spec(t)),
            seq![','],
        ) + seq![']'],
    }
}

/// The JSON text of one entry, `"key":value`.
pub open spec fn entry_json(e: (Seq<char>, AttrValueView)) -> Seq<char> {
    json_string_spec(e.0) + seq![':'] + value_json(e.1)
}

/// Canonical attrs JSON: the entries in key order, compact separators.
pub open spec fn canonical_json(entries: Seq<(Seq<char>, AttrValueView)>) -> Seq<char> {
    seq!['{'] + join(entries.map_values(|e: (Seq<char>, AttrValueView)| entry_json(e)), seq![','])
        + seq!['}']
}

/// The canonical JSON text of an attribute map: its entries in key order.
pub open spec fn attrs_json(m: Map<Seq<char>, AttrValueView>) -> Seq<char> {
    canonical_json(sorted_entries(m))
}

/// Appends `items` rendered by `json_string`, comma-separated, inside brackets.
fn push_list_json(out: &mut Vec<char>, items: &Vec<String>)
    ensures
        final(out)@ == old(out)@ + value_json(AttrValueView::List(strings_view(items@))),
{
    let ghost start = out@;
    let ghost parts = strings_view(items@).map_values(|t: Seq<char>| json_string_spec(t));
    out.push('[');
    let mut k: usize = 0;
    while k < items.len()
        invariant
            k <= items@.len(),
            parts == strings_view(items@).map_values(|t: Seq<char>| json_string_spec(t)),
            out@ == start + seq!['['] + join(parts.take(k as int), seq![',']),
        decreases items@.len() - k,
    {
        proof {
            assert(parts.take(k + 1).drop_last() =~= parts.take(k as int));
            assert(parts[k as int] == json_string_spec(items@[k as int]@));
        }
        if k > 0 {
            out.push(',');
        }
        let j = chars_of(json_string(items[k].as_str()).as_str());
        append_chars(out, &j);
        k = k + 1;
        proof {
            if k == 1 {
                assert(parts.take(1) =~= seq![parts[0]]);
            }
        }
    }
    assert(parts.take(k as int) == parts);
    out.push(']');
}

/// The canonical JSON text of a set of attributes: keys in order, compact
/// separators, strings as `serde_json` writes them.
pub fn canonical_attrs(attrs: &Attrs) -> (r: String)
    ensures
        r@ == canonical_json(attrs.entries_view()),
        r@ == attrs_json(attrs@),
{
    let entries = attrs.entries();
    proof {
        lemma_sorted_entries(attrs.entries_view());
    }
    let ghost ev = attrs.entries_view();
    let ghost parts = ev.map_values(|e: (Seq<char>, AttrValueView)| entry_json(e));
    let mut out: Vec<char> = Vec::new();
    out.push('{');
    let mut k: usize = 0;
    while k < entries.len()
        invariant
            k <= entries@.len(),
            ev == entries@.map_values(|e: (String, AttrValue)| entry_view(e)),
            parts == ev.map_values(|e: (Seq<char>, AttrValueView)| entry_json(e)),
            out@ == seq!['{'] + join(parts.take(k as int), seq![',']),
        decreases entries@.len() - k,
    {
        proof {
            assert(parts.take(k + 1).drop_last() =~= parts.take(k as int));
            assert(ev[k as int] == entry_view(entries@[k as int]));
        }
        let ghost before = out@;
        if k > 0 {
            out.push(',');
        }
        let key = chars_of(json_string(entries[k].0.as_str()).as_str());
        append_chars(&mut out, &key);
        out.push(':');
        match &entries[k].1 {
            AttrValue::Text(t) => {
                let v = chars_of(json_string(t.as_str()).as_str());
                append_chars(&mut out, &v);
            },
            AttrValue::List(items) => {
                push_list_json(&mut out, items);
            },
        }
        proof {
            assert(out@ == before + (if k > 0 { seq![','] } else { Seq::empty() }) + parts[k as int]);
        }
        k = k + 1;
        proof {
            if k == 1 {
                assert(parts.take(1) =~= seq![parts[0]]);
            }
        }
    }
    assert(parts.take(k as int) == parts);
    out.push('}');
    string_of(out.as_slice())
}

/// A copy of a list of strings.
pub fn copy_strings(v: &Vec<String>) -> (r: Vec<String>)
    ensures
        strings_view(r@) == strings_view(v@),
{
    let mut r: Vec<String> = Vec::new();
    let mut i: usize = 0;
    while i < v.len()
        invariant
            i <= v@.len(),
            strings_view(r@) == strings_view(v@.take(i as int)),
            r@.len() == i,
        decreases v@.len() - i,
    {
        let ghost before = r@;
        let c = copy_str(v[i].as_str());
        assert(c@ == v@[i as int]@);
        r.push(c);
        proof {
            assert forall|k: int| 0 <= k < i + 1 implies #[trigger] strings_view(r@)[k] == strings_view(v@.take(i + 1))[k] by {
                if k < i {
                    assert(strings_view(r@)[k] == strings_view(before)[k]);
                    assert(strings_view(before)[k] == strings_view(v@.take(i as int))[k]);
                }
            }
            assert(v@.take(i + 1) =~= v@.take(i as int).push(v@[i as int]));
            assert(r@ =~= before.push(r@[i as int]));
        }
        i = i + 1;
        assert(strings_view(r@) =~= strings_view(v@.take(i as int)));
    }
    assert(v@.take(i as int) == v@);
    r
}


impl AttrValue {
    /// A copy of this value.
    pub fn copy(&self) -> (r: AttrValue)
        ensures
            r@ == self@,
    {
        match self {
            AttrValue::Text(t) => AttrValue::Text(copy_str(t.as_str())),
            AttrValue::List(items) => AttrValue::List(copy_strings(items)),
        }
    }
}

impl Attrs {
    /// A copy of these attributes.
    pub fn copy(&self) -> (r: Attrs)
        ensures
            r.entries_view() == self.entries_view(),
            r@ == self@,
    {
        proof {
            use_type_invariant(self);
        }
        let mut entries: Vec<(String, AttrValue)> = Vec::new();
        let mut i: usize = 0;
        while i < self.entries.len()
            invariant
                i <= self.entries@.len(),
                entries@.map_values(|e: (String, AttrValue)| entry_view(e))
                    == self.entries_view().take(i as int),
                entries@.len() == i,
            decreases self.entries@.len() - i,
        {
            let ghost before = entries@;
            entries.push((copy_str(self.entries[i].0.as_str()), self.entries[i].1.copy()));
            proof {
                assert(entries@ =~= before.push(entries@[i as int]));
                assert(self.entries_view().take(i + 1) =~= self.entries_view().take(i as int).push(
                    self.entries_view()[i as int],
                ));
            }
            i = i + 1;
            assert(entries@.map_values(|e: (String, AttrValue)| entry_view(e))
                =~= self.entries_view().take(i as int));
        }
        assert(self.entries_view().take(i as int) == self.entries_view());
        Attrs { entries }
    }
}

} // verus!
