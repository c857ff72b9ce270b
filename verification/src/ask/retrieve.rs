//! Label search: passages ranked by whether their case-folded title holds the
//! whole question, then by how many question words their title and text hold.

use vstd::prelude::*;

use crate::ask::bundle::LoadedBundle;
use crate::foreign::{case_fold, case_fold_spec};
use crate::graph::attrs::strings_view;
use crate::text::{chars_of, copy_str, is_whitespace, is_ws, string_of, sub_chars, trim, trim_chars};

verus! {

/// `needle` occurs in `hay`.
pub open spec fn has_sub(hay: Seq<char>, needle: Seq<char>) -> bool {
    exists|i: int| 0 <= i && i + needle.len() <= hay.len() && #[trigger] hay.subrange(i, i + needle.len()) == needle
}

/// The first position from `i` on that is not whitespace.
pub open spec fn skip_ws(s: Seq<char>, i: int) -> int
    decreases s.len() - i,
{
    if i < 0 || i >= s.len() || !is_ws(s[i]) {
        i
    } else {
        skip_ws(s, i + 1)
    }
}

/// The first position from `i` on that is whitespace, or the end.
pub open spec fn word_end(s: Seq<char>, i: int) -> int
    decreases s.len() - i,
{
    if i < 0 || i >= s.len() || is_ws(s[i]) {
        i
    } else {
        word_end(s, i + 1)
    }
}

proof fn lemma_skip_ws(s: Seq<char>, i: int)
    requires
        0 <= i <= s.len(),
    ensures
        i <= skip_ws(s, i) <= s.len(),
        skip_ws(s, i) < s.len() ==> !is_ws(s[skip_ws(s, i)]),
        forall|k: int| i <= k < skip_ws(s, i) ==> is_ws(#[trigger] s[k]),
    decreases s.len() - i,
{
    if i < s.len() && is_ws(s[i]) {
        lemma_skip_ws(s, i + 1);
    }
}

proof fn lemma_word_end(s: Seq<char>, i: int)
    requires
        0 <= i <= s.len(),
    ensures
        i <= word_end(s, i) <= s.len(),
        word_end(s, i) < s.len() ==> is_ws(s[word_end(s, i)]),
        forall|k: int| i <= k < word_end(s, i) ==> !is_ws(#[trigger] s[k]),
    decreases s.len() - i,
{
    if i < s.len() && !is_ws(s[i]) {
        lemma_word_end(s, i + 1);
    }
}

/// The whitespace-separated words of `s` from `i` on, as `split_whitespace`
/// yields them.
pub open spec fn words_from(s: Seq<char>, i: int) -> Seq<Seq<char>>
    decreases s.len() - i, 1int,
{
    if i < 0 || i >= s.len() {
        Seq::empty()
    } else {
        let st = skip_ws(s, i);
        if st >= s.len() || st < i {
            Seq::empty()
        } else {
            let en = word_end(s, st);
            if en <= st || en > s.len() {
                Seq::empty()
            } else {
                seq![s.subrange(st, en)] + words_from(s, en)
            }
        }
    }
}

/// The question words label search counts: the folded question's words of
/// two characters or more.
pub open spec fn long_words_upto(w: Seq<Seq<char>>, n: int) -> Seq<Seq<char>>
    decreases n,
{
    if n <= 0 || n > w.len() {
        Seq::empty()
    } else if w[n - 1].len() >= 2 {
        long_words_upto(w, n - 1).push(w[n - 1])
    } else {
        long_words_upto(w, n - 1)
    }
}

/// The case-folded, trimmed question.
pub open spec fn folded_question(q: Seq<char>) -> Seq<char> {
    case_fold_spec(trim(q))
}

/// The question's counted words.
pub open spec fn question_tokens(q: Seq<char>) -> Seq<Seq<char>> {
    let w = words_from(folded_question(q), 0);
    long_words_upto(w, w.len() as int)
}

/// How many of the first `n` tokens the title holds, plus how many the text
/// holds.
pub open spec fn hits_upto(title: Seq<char>, text: Seq<char>, tokens: Seq<Seq<char>>, n: int) -> int
    decreases n,
{
    if n <= 0 || n > tokens.len() {
        0
    } else {
        hits_upto(title, text, tokens, n - 1) + (if has_sub(title, tokens[n - 1]) { 1int } else { 0 }) + (
        if has_sub(text, tokens[n - 1]) {
            1int
        } else {
            0
        })
    }
}

/// A passage's score: its position, whether the folded title holds the whole
/// folded question, and its word hits.
pub type Score = (int, bool, int);

/// The score of passage `i`.
pub open spec fn score_of(b: LoadedBundle, q: Seq<char>, i: int) -> Score {
    let folded = folded_question(q);
    let title = case_fold_spec(b.passages@[i].title@);
    let text = case_fold_spec(b.passages@[i].text@);
    let tokens = question_tokens(q);
    (i, folded.len() > 0 && has_sub(title, folded), hits_upto(title, text, tokens, tokens.len() as int))
}

/// `a` ranks before `b`: an exact title match first, then more hits, then
/// the earlier passage.
pub open spec fn ranks_before(a: Score, b: Score) -> bool {
    (a.1 && !b.1) || (a.1 == b.1 && (a.2 > b.2 || (a.2 == b.2 && a.0 < b.0)))
}

/// `x` placed before the first element it ranks before.
pub open spec fn insert_ranked(s: Seq<Score>, x: Score) -> Seq<Score>
    decreases s.len(),
{
    if s.len() == 0 {
        seq![x]
    } else if ranks_before(x, s[0]) {
        seq![x] + s
    } else {
        seq![s[0]] + insert_ranked(s.drop_first(), x)
    }
}

/// The scored passages among the first `n` with an exact match or a hit,
/// ranked.
pub open spec fn ranked_upto(b: LoadedBundle, q: Seq<char>, n: int) -> Seq<Score>
    decreases n,
{
    if n <= 0 || n > b.passages@.len() {
        Seq::empty()
    } else {
        let prev = ranked_upto(b, q, n - 1);
        let s = score_of(b, q, n - 1);
        if s.1 || s.2 > 0 {
            insert_ranked(prev, s)
        } else {
            prev
        }
    }
}

/// The positions label search returns: the ranked passages' positions, the
/// first `top_k`.
pub open spec fn label_rank_spec(b: LoadedBundle, q: Seq<char>, top_k: int) -> Seq<int> {
    let r = ranked_upto(b, q, b.passages@.len() as int);
    let cut = if top_k < r.len() { top_k } else { r.len() as int };
    r.take(cut).map_values(|s: Score| s.0)
}

/// The positions label search returns, as `usize`.
pub open spec fn label_positions(b: LoadedBundle, q: Seq<char>, top_k: int) -> Seq<usize> {
    label_rank_spec(b, q, top_k).map_values(|i: int| i as usize)
}

/// The values of an exec score.
pub open spec fn score_view(t: (usize, bool, u128)) -> Score {
    (t.0 as int, t.1, t.2 as int)
}

/// The values of exec scores.
pub open spec fn score_views(v: Seq<(usize, bool, u128)>) -> Seq<Score> {
    v.map_values(|t: (usize, bool, u128)| score_view(t))
}

/// The views of a list of char vectors.
pub open spec fn char_vecs_view(v: Seq<Vec<char>>) -> Seq<Seq<char>> {
    v.map_values(|w: Vec<char>| w@)
}

fn contains_sub(hay: &Vec<char>, needle: &Vec<char>) -> (r: bool)
    ensures
        r == has_sub(hay@, needle@),
{
    let hl = hay.len();
    let nl = needle.len();
    if nl > hl {
        return false;
    }
    if nl == 0 {
        assert(hay@.subrange(0int, 0int + needle@.len()) =~= needle@);
        return true;
    }
    let last = hl - nl;
    let mut i: usize = 0;
    while i <= last
        invariant
            hl == hay@.len(),
            nl == needle@.len(),
            nl > 0,
            last + nl == hl,
            i <= last + 1,
            forall|k: int| 0 <= k < i ==> #[trigger] hay@.subrange(k, k + needle@.len()) != needle@,
        decreases last + 1 - i,
    {
        let mut j: usize = 0;
        let mut same = true;
        while j < nl
            invariant
                i <= last,
                last + nl == hl,
                hl == hay@.len(),
                nl == needle@.len(),
                j <= nl,
                same == forall|m: int| 0 <= m < j ==> hay@[i + m] == needle@[m],
            decreases nl - j,
        {
            if hay[i + j] != needle[j] {
                same = false;
            }
            j = j + 1;
        }
        if same {
            assert(hay@.subrange(i as int, i + needle@.len()) =~= needle@);
            return true;
        }
        proof {
            let m = choose|m: int| 0 <= m < needle@.len() && hay@[i + m] != needle@[m];
            assert(hay@.subrange(i as int, i + needle@.len())[m] != needle@[m]);
        }
        i = i + 1;
    }
    false
}

fn split_words(s: &Vec<char>) -> (r: Vec<Vec<char>>)
    ensures
        char_vecs_view(r@) == words_from(s@, 0),
{
    let mut r: Vec<Vec<char>> = Vec::new();
    let mut i: usize = 0;
    while i < s.len()
        invariant
            i <= s@.len(),
            char_vecs_view(r@) + words_from(s@, i as int) == words_from(s@, 0),
        decreases s@.len() - i,
    {
        proof {
            lemma_skip_ws(s@, i as int);
        }
        let mut st = i;
        while st < s.len() && is_whitespace(s[st])
            invariant
                i <= st <= s@.len(),
                skip_ws(s@, i as int) == skip_ws(s@, st as int),
            decreases s@.len() - st,
        {
            st = st + 1;
        }
        if st >= s.len() {
            assert(words_from(s@, i as int) =~= Seq::<Seq<char>>::empty());
            assert(char_vecs_view(r@) =~= words_from(s@, 0));
            return r;
        }
        proof {
            lemma_word_end(s@, st as int);
        }
        let mut en = st;
        while en < s.len() && !is_whitespace(s[en])
            invariant
                st <= en <= s@.len(),
                word_end(s@, st as int) == word_end(s@, en as int),
            decreases s@.len() - en,
        {
            en = en + 1;
        }
        let ghost before = char_vecs_view(r@);
        r.push(sub_chars(s, st, en));
        assert(char_vecs_view(r@) =~= before.push(s@.subrange(st as int, en as int)));
        assert(char_vecs_view(r@) + words_from(s@, en as int) =~= before + words_from(s@, i as int));
        i = en;
    }
    assert(words_from(s@, i as int) =~= Seq::<Seq<char>>::empty());
    assert(char_vecs_view(r@) =~= words_from(s@, 0));
    r
}

fn long_words(w: &Vec<Vec<char>>) -> (r: Vec<Vec<char>>)
    ensures
        char_vecs_view(r@) == long_words_upto(char_vecs_view(w@), w@.len() as int),
{
    let ghost wv = char_vecs_view(w@);
    let mut r: Vec<Vec<char>> = Vec::new();
    let mut i: usize = 0;
    while i < w.len()
        invariant
            i <= w@.len(),
            wv == char_vecs_view(w@),
            char_vecs_view(r@) == long_words_upto(wv, i as int),
        decreases w@.len() - i,
    {
        if w[i].len() >= 2 {
            let ghost before = char_vecs_view(r@);
            r.push(sub_chars(&w[i], 0, w[i].len()));
            assert(w@[i as int]@.subrange(0, w@[i as int]@.len() as int) =~= w@[i as int]@);
            assert(char_vecs_view(r@) =~= before.push(wv[i as int]));
        }
        i = i + 1;
    }
    r
}

fn count_hits(title: &Vec<char>, text: &Vec<char>, tokens: &Vec<Vec<char>>) -> (h: u128)
    ensures
        h == hits_upto(title@, text@, char_vecs_view(tokens@), tokens@.len() as int),
{
    let ghost tv = char_vecs_view(tokens@);
    let mut h: u128 = 0;
    let mut i: usize = 0;
    while i < tokens.len()
        invariant
            i <= tokens@.len(),
            tv == char_vecs_view(tokens@),
            h == hits_upto(title@, text@, tv, i as int),
            h <= 2 * i,
        decreases tokens@.len() - i,
    {
        if contains_sub(title, &tokens[i]) {
            h = h + 1;
        }
        if contains_sub(text, &tokens[i]) {
            h = h + 1;
        }
        i = i + 1;
    }
    h
}

fn rank_lt(a: &(usize, bool, u128), b: &(usize, bool, u128)) -> (r: bool)
    ensures
        r == ranks_before(score_view(*a), score_view(*b)),
{
    (a.1 && !b.1) || (a.1 == b.1 && (a.2 > b.2 || (a.2 == b.2 && a.0 < b.0)))
}

proof fn lemma_insert_ranked_at(s: Seq<Score>, x: Score, p: int)
    requires
        0 <= p <= s.len(),
        forall|j: int| 0 <= j < p ==> !ranks_before(x, #[trigger] s[j]),
        p < s.len() ==> ranks_before(x, s[p]),
    ensures
        insert_ranked(s, x) == s.take(p).push(x) + s.skip(p),
    decreases s.len(),
{
    if s.len() == 0 {
        assert(s.take(p).push(x) + s.skip(p) =~= seq![x]);
    } else if ranks_before(x, s[0]) {
        assert(p == 0);
        assert(s.take(p).push(x) + s.skip(p) =~= seq![x] + s);
    } else {
        let t = s.drop_first();
        assert forall|j: int| 0 <= j < p - 1 implies !ranks_before(x, #[trigger] t[j]) by {
            assert(t[j] == s[j + 1]);
        }
        lemma_insert_ranked_at(t, x, p - 1);
        assert(s.take(p).push(x) + s.skip(p) =~= seq![s[0]] + (t.take(p - 1).push(x) + t.skip(p - 1)));
    }
}

/// The positions of the passages that match the question by label, best
/// first, at most `top_k`.
pub fn label_rank(b: &LoadedBundle, question: &str, top_k: usize) -> (r: Vec<usize>)
    ensures
        r@.map_values(|i: usize| i as int) == label_rank_spec(*b, question@, top_k as int),
        r@ == label_positions(*b, question@, top_k as int),
{
    let trimmed = string_of(trim_chars(&chars_of(question)).as_slice());
    let folded = chars_of(case_fold(trimmed.as_str()).as_str());
    let words = split_words(&folded);
    let tokens = long_words(&words);
    assert(char_vecs_view(tokens@) == question_tokens(question@));
    let mut ranked: Vec<(usize, bool, u128)> = Vec::new();
    let mut i: usize = 0;
    while i < b.passages.len()
        invariant
            i <= b.passages@.len(),
            folded@ == folded_question(question@),
            char_vecs_view(tokens@) == question_tokens(question@),
            score_views(ranked@) == ranked_upto(*b, question@, i as int),
            forall|k: int| 0 <= k < ranked@.len() ==> #[trigger] ranked@[k].0 < i,
        decreases b.passages@.len() - i,
    {
        let title = chars_of(case_fold(b.passages[i].title.as_str()).as_str());
        let text = chars_of(case_fold(b.passages[i].text.as_str()).as_str());
        let exact = folded.len() > 0 && contains_sub(&title, &folded);
        let hits = count_hits(&title, &text, &tokens);
        let x = (i, exact, hits);
        assert(score_view(x) == score_of(*b, question@, i as int));
        if exact || hits > 0 {
            let ghost sv = score_views(ranked@);
            let mut p: usize = 0;
            while p < ranked.len() && !rank_lt(&x, &ranked[p])
                invariant
                    p <= ranked@.len(),
                    sv == score_views(ranked@),
                    forall|j: int| 0 <= j < p ==> !ranks_before(score_view(x), #[trigger] sv[j]),
                decreases ranked@.len() - p,
            {
                p = p + 1;
            }
            proof {
                lemma_insert_ranked_at(sv, score_view(x), p as int);
            }
            ranked.insert(p, x);
            assert(score_views(ranked@) =~= sv.take(p as int).push(score_view(x)) + sv.skip(p as int));
        }
        i = i + 1;
    }
    ranked.truncate(top_k);
    let ghost rv = score_views(ranked@);
    let mut out: Vec<usize> = Vec::new();
    let mut k: usize = 0;
    while k < ranked.len()
        invariant
            k <= ranked@.len(),
            out@.map_values(|i: usize| i as int) == score_views(ranked@).take(k as int).map_values(
                |s: Score| s.0,
            ),
        decreases ranked@.len() - k,
    {
        let ghost before = out@;
        out.push(ranked[k].0);
        proof {
            assert(score_views(ranked@).take(k + 1) =~= score_views(ranked@).take(k as int).push(
                score_views(ranked@)[k as int],
            ));
            assert(out@.map_values(|i: usize| i as int) =~= before.map_values(|i: usize| i as int).push(
                ranked@[k as int].0 as int,
            ));
        }
        k = k + 1;
    }
    assert(score_views(ranked@).take(k as int) =~= score_views(ranked@));
    proof {
        let spec = label_rank_spec(*b, question@, top_k as int);
        assert(out@.map_values(|i: usize| i as int) == spec);
        assert forall|m: int| 0 <= m < out@.len() implies #[trigger] out@[m] == spec[m] as usize by {
            assert(out@.map_values(|i: usize| i as int)[m] == out@[m] as int);
        }
        assert(out@ =~= label_positions(*b, question@, top_k as int));
    }
    out
}

/// Each score ranks before every later one.
pub open spec fn rank_sorted(s: Seq<Score>) -> bool {
    forall|i: int, j: int| 0 <= i < j < s.len() ==> ranks_before(#[trigger] s[i], #[trigger] s[j])
}

proof fn lemma_insert_ranked(s: Seq<Score>, x: Score)
    requires
        rank_sorted(s),
        forall|j: int| 0 <= j < s.len() ==> (#[trigger] s[j]).0 != x.0,
    ensures
        rank_sorted(insert_ranked(s, x)),
        insert_ranked(s, x).len() == s.len() + 1,
        forall|k: int| 0 <= k < insert_ranked(s, x).len() ==> (#[trigger] insert_ranked(s, x)[k] == x || s.contains(
            insert_ranked(s, x)[k],
        )),
    decreases s.len(),
{
    if s.len() == 0 {
    } else if ranks_before(x, s[0]) {
        let r = insert_ranked(s, x);
        assert forall|i: int, j: int| 0 <= i < j < r.len() implies ranks_before(#[trigger] r[i], #[trigger] r[j]) by {
            if i == 0 {
                assert(r[j] == s[j - 1]);
                if j > 1 {
                    assert(ranks_before(s[0], s[j - 1]));
                }
            } else {
                assert(r[i] == s[i - 1] && r[j] == s[j - 1]);
            }
        }
        assert forall|k: int| 0 <= k < r.len() implies (#[trigger] r[k] == x || s.contains(r[k])) by {
            if k > 0 {
                assert(r[k] == s[k - 1]);
            }
        }
    } else {
        let t = s.drop_first();
        assert forall|i: int, j: int| 0 <= i < j < t.len() implies ranks_before(#[trigger] t[i], #[trigger] t[j]) by {
            assert(t[i] == s[i + 1] && t[j] == s[j + 1]);
        }
        assert forall|j: int| 0 <= j < t.len() implies (#[trigger] t[j]).0 != x.0 by {
            assert(t[j] == s[j + 1]);
        }
        lemma_insert_ranked(t, x);
        let u = insert_ranked(t, x);
        let r = insert_ranked(s, x);
        assert(r == seq![s[0]] + u);
        assert(s[0].0 != x.0);
        assert(ranks_before(s[0], x));
        assert forall|i: int, j: int| 0 <= i < j < r.len() implies ranks_before(#[trigger] r[i], #[trigger] r[j]) by {
            if i == 0 {
                assert(r[j] == u[j - 1]);
                if u[j - 1] != x {
                    let m = choose|m: int| 0 <= m < t.len() && t[m] == u[j - 1];
                    assert(ranks_before(s[0], s[m + 1]));
                }
            } else {
                assert(r[i] == u[i - 1] && r[j] == u[j - 1]);
            }
        }
        assert forall|k: int| 0 <= k < r.len() implies (#[trigger] r[k] == x || s.contains(r[k])) by {
            if k == 0 {
                assert(s[0] == r[0]);
            } else {
                assert(r[k] == u[k - 1]);
                if u[k - 1] != x {
                    let m = choose|m: int| 0 <= m < t.len() && t[m] == u[k - 1];
                    assert(s[m + 1] == r[k]);
                }
            }
        }
    }
}

/// Label search ranks exact title matches first, then more word hits, and
/// ties in passage order; every ranked passage has an exact match or a hit.
pub proof fn lemma_ranked_sorted(b: LoadedBundle, q: Seq<char>, n: int)
    requires
        0 <= n <= b.passages@.len(),
    ensures
        rank_sorted(ranked_upto(b, q, n)),
        forall|k: int| 0 <= k < ranked_upto(b, q, n).len() ==> 0 <= (#[trigger] ranked_upto(b, q, n)[k]).0 < n,
        forall|k: int|
            0 <= k < ranked_upto(b, q, n).len() ==> (#[trigger] ranked_upto(b, q, n)[k]) == score_of(
                b,
                q,
                ranked_upto(b, q, n)[k].0,
            ) && (ranked_upto(b, q, n)[k].1 || ranked_upto(b, q, n)[k].2 > 0),
    decreases n,
{
    if n > 0 {
        lemma_ranked_sorted(b, q, n - 1);
        let prev = ranked_upto(b, q, n - 1);
        let x = score_of(b, q, n - 1);
        if x.1 || x.2 > 0 {
            lemma_insert_ranked(prev, x);
            let r = ranked_upto(b, q, n);
            assert forall|k: int| 0 <= k < r.len() implies 0 <= (#[trigger] r[k]).0 < n && r[k] == score_of(
                b,
                q,
                r[k].0,
            ) && (r[k].1 || r[k].2 > 0) by {
                if r[k] != x {
                    let m = choose|m: int| 0 <= m < prev.len() && prev[m] == r[k];
                    assert(prev[m].0 < n - 1);
                }
            }
        }
    }
}

proof fn lemma_hits_take(title: Seq<char>, text: Seq<char>, tokens: Seq<Seq<char>>, n: int)
    requires
        0 <= n <= tokens.len(),
    ensures
        hits_upto(title, text, tokens, n) == tokens.take(n).filter(|t: Seq<char>| has_sub(title, t)).len()
            + tokens.take(n).filter(|t: Seq<char>| has_sub(text, t)).len(),
    decreases n,
{
    reveal_with_fuel(Seq::filter, 1);
    if n > 0 {
        lemma_hits_take(title, text, tokens, n - 1);
        let t = tokens.take(n);
        assert(t.drop_last() =~= tokens.take(n - 1));
        assert(t.last() == tokens[n - 1]);
    } else {
        assert(tokens.take(0) =~= Seq::<Seq<char>>::empty());
    }
}

/// A passage's word hits are how many question tokens its title holds plus
/// how many its text holds.
pub proof fn lemma_hits_count(title: Seq<char>, text: Seq<char>, tokens: Seq<Seq<char>>)
    ensures
        hits_upto(title, text, tokens, tokens.len() as int) == tokens.filter(|t: Seq<char>| has_sub(title, t)).len()
            + tokens.filter(|t: Seq<char>| has_sub(text, t)).len(),
{
    lemma_hits_take(title, text, tokens, tokens.len() as int);
    assert(tokens.take(tokens.len() as int) =~= tokens);
}

proof fn lemma_long_words_keep(w: Seq<Seq<char>>, n: int, j: int)
    requires
        0 <= j < n <= w.len(),
        w[j].len() >= 2,
    ensures
        long_words_upto(w, n).contains(w[j]),
    decreases n,
{
    if j < n - 1 {
        lemma_long_words_keep(w, n - 1, j);
        let prev = long_words_upto(w, n - 1);
        let m = choose|m: int| 0 <= m < prev.len() && prev[m] == w[j];
        if w[n - 1].len() >= 2 {
            assert(long_words_upto(w, n)[m] == w[j]);
        }
    } else {
        let prev = long_words_upto(w, n - 1);
        assert(long_words_upto(w, n)[prev.len() as int] == w[j]);
    }
}

proof fn lemma_insert_ranked_keeps(s: Seq<Score>, x: Score)
    ensures
        insert_ranked(s, x).contains(x),
        forall|m: int| 0 <= m < s.len() ==> insert_ranked(s, x).contains(#[trigger] s[m]),
    decreases s.len(),
{
    let r = insert_ranked(s, x);
    if s.len() == 0 {
        assert(r[0] == x);
    } else if ranks_before(x, s[0]) {
        assert(r[0] == x);
        assert forall|m: int| 0 <= m < s.len() implies r.contains(#[trigger] s[m]) by {
            assert(r[m + 1] == s[m]);
        }
    } else {
        let t = s.drop_first();
        lemma_insert_ranked_keeps(t, x);
        let u = insert_ranked(t, x);
        assert(r == seq![s[0]] + u);
        let k = choose|k: int| 0 <= k < u.len() && u[k] == x;
        assert(r[k + 1] == x);
        assert forall|m: int| 0 <= m < s.len() implies r.contains(#[trigger] s[m]) by {
            if m == 0 {
                assert(r[0] == s[0]);
            } else {
                assert(t[m - 1] == s[m]);
                let k2 = choose|k2: int| 0 <= k2 < u.len() && u[k2] == t[m - 1];
                assert(r[k2 + 1] == s[m]);
            }
        }
    }
}

proof fn lemma_ranked_complete(b: LoadedBundle, q: Seq<char>, n: int, i: int)
    requires
        0 <= i < n <= b.passages@.len(),
        score_of(b, q, i).1 || score_of(b, q, i).2 > 0,
    ensures
        ranked_upto(b, q, n).contains(score_of(b, q, i)),
    decreases n,
{
    let prev = ranked_upto(b, q, n - 1);
    let x = score_of(b, q, n - 1);
    if i < n - 1 {
        lemma_ranked_complete(b, q, n - 1, i);
        let m = choose|m: int| 0 <= m < prev.len() && prev[m] == score_of(b, q, i);
        if x.1 || x.2 > 0 {
            lemma_insert_ranked_keeps(prev, x);
            assert(ranked_upto(b, q, n).contains(prev[m]));
        }
    } else {
        lemma_insert_ranked_keeps(prev, x);
    }
}

/// A passage whose case-folded title holds a word of the case-folded
/// question of two or more characters scores a hit and is ranked: exactly
/// the passages that outrank it stand before it, and it is returned whenever
/// fewer than `top_k` passages outrank it.
pub proof fn lemma_title_word_is_found(b: LoadedBundle, q: Seq<char>, i: int, w: Seq<char>, top_k: int)
    requires
        0 <= i < b.passages@.len(),
        words_from(folded_question(q), 0).contains(w),
        w.len() >= 2,
        has_sub(case_fold_spec(b.passages@[i].title@), w),
    ensures
        score_of(b, q, i).2 > 0,
        exists|k: int|
            0 <= k < ranked_upto(b, q, b.passages@.len() as int).len() && #[trigger] ranked_upto(
                b,
                q,
                b.passages@.len() as int,
            )[k] == score_of(b, q, i) && (forall|j: int|
                0 <= j < k ==> ranks_before(
                    #[trigger] ranked_upto(b, q, b.passages@.len() as int)[j],
                    score_of(b, q, i),
                )) && (forall|j: int|
                k < j < ranked_upto(b, q, b.passages@.len() as int).len() ==> !ranks_before(
                    #[trigger] ranked_upto(b, q, b.passages@.len() as int)[j],
                    score_of(b, q, i),
                )) && (k < top_k ==> label_rank_spec(b, q, top_k).contains(i)),
{
    let n = b.passages@.len() as int;
    let ws = words_from(folded_question(q), 0);
    let tokens = question_tokens(q);
    let title = case_fold_spec(b.passages@[i].title@);
    let text = case_fold_spec(b.passages@[i].text@);
    let j = choose|j: int| 0 <= j < ws.len() && ws[j] == w;
    lemma_long_words_keep(ws, ws.len() as int, j);
    let pred = |t: Seq<char>| has_sub(title, t);
    let m = choose|m: int| 0 <= m < tokens.len() && tokens[m] == w;
    tokens.lemma_filter_contains(pred, m);
    assert(tokens.filter(pred).contains(tokens[m]));
    lemma_hits_count(title, text, tokens);
    let sc = score_of(b, q, i);
    assert(sc.2 > 0);
    lemma_ranked_complete(b, q, n, i);
    lemma_ranked_sorted(b, q, n);
    let r = ranked_upto(b, q, n);
    let k = choose|k: int| 0 <= k < r.len() && r[k] == sc;
    assert forall|j2: int| k < j2 < r.len() implies !ranks_before(#[trigger] r[j2], sc) by {
        assert(ranks_before(r[k], r[j2]));
    }
    if k < top_k {
        let out = label_rank_spec(b, q, top_k);
        assert(out[k] == i);
    }
    assert(r[k] == sc);
}

} // verus!
