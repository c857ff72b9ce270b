//! Plain text for retrieval out of the HTML that corpus fields may hold.

use vstd::prelude::*;

use crate::text::{chars_of, string_of, trim_chars, char_from_u32, is_scalar, parse_u32_digits, parse_u32_spec, sub_chars, chars_eq, find_char, find_ci, find_from, find_ignore_case, is_whitespace, is_ws, lemma_find_ci_at, lemma_find_from, lower, starts_ci, starts_with_ci, to_lower, trim, trim_end, trim_start, lemma_trim_ends};

verus! {

/// A tag name ends at the end of input, `>`, `/`, or ASCII whitespace.
pub open spec fn tag_name_ends_at(s: Seq<char>, i: int) -> bool {
    i >= s.len() || s[i] == '>' || s[i] == '/' || s[i] == ' ' || s[i] == '\t' || s[i] == '\n'
        || s[i] == '\r'
}

fn tag_name_ends(s: &Vec<char>, i: usize) -> (b: bool)
    ensures
        b == tag_name_ends_at(s@, i as int),
{
    if i >= s.len() {
        return true;
    }
    let c = s[i];
    c == '>' || c == '/' || c == ' ' || c == '\t' || c == '\n' || c == '\r'
}

/// Where a `<tag ...> ... </tag>` element that opens at `i` ends (one past
/// its closing `>`), when it is complete.
pub open spec fn element_end(s: Seq<char>, tag: Seq<char>, i: int) -> Option<int> {
    let open = seq!['<'] + tag;
    let close = seq!['<', '/'] + tag;
    if starts_ci(s, i, open) && tag_name_ends_at(s, i + open.len()) {
        match find_from(s, i, '>') {
            Some(open_end) => match find_ci(s, open_end + 1, close) {
                Some(close_at) => if tag_name_ends_at(s, close_at + close.len()) {
                    match find_from(s, close_at, '>') {
                        Some(close_end) => Some(close_end + 1),
                        None => None,
                    }
                } else {
                    None
                },
                None => None,
            },
            None => None,
        }
    } else {
        None
    }
}

pub proof fn lemma_element_end(s: Seq<char>, tag: Seq<char>, i: int)
    ensures
        element_end(s, tag, i) matches Some(e) ==> i < e <= s.len(),
{
    let open = seq!['<'] + tag;
    let close = seq!['<', '/'] + tag;
    if let Some(open_end) = find_from(s, i, '>') {
        lemma_find_from(s, i, '>');
        if let Some(close_at) = find_ci(s, open_end + 1, close) {
            lemma_find_ci_at(s, open_end + 1, close);
            lemma_find_from(s, close_at, '>');
        }
    }
}

/// The text from `i` on with every complete `tag` element removed.
pub open spec fn strip_element_from(s: Seq<char>, tag: Seq<char>, i: int) -> Seq<char>
    decreases s.len() - i,
{
    if i < 0 || i >= s.len() {
        Seq::empty()
    } else {
        match element_end(s, tag, i) {
            Some(e) => {
                proof {
                    lemma_element_end(s, tag, i);
                }
                strip_element_from(s, tag, e)
            },
            None => seq![s[i]] + strip_element_from(s, tag, i + 1),
        }
    }
}

fn remove_element(s: &Vec<char>, tag: &Vec<char>) -> (out: Vec<char>)
    ensures
        out@ == strip_element_from(s@, tag@, 0),
{
    let mut open: Vec<char> = Vec::new();
    open.push('<');
    let mut close: Vec<char> = Vec::new();
    close.push('<');
    close.push('/');
    let mut t: usize = 0;
    while t < tag.len()
        invariant
            t <= tag@.len(),
            open@ == seq!['<'] + tag@.take(t as int),
            close@ == seq!['<', '/'] + tag@.take(t as int),
        decreases tag@.len() - t,
    {
        open.push(tag[t]);
        close.push(tag[t]);
        t = t + 1;
        assert(open@ == seq!['<'] + tag@.take(t as int));
        assert(close@ == seq!['<', '/'] + tag@.take(t as int));
    }
    assert(tag@.take(t as int) == tag@);
    let mut out: Vec<char> = Vec::new();
    let mut index: usize = 0;
    while index < s.len()
        invariant
            index <= s@.len(),
            open@ == seq!['<'] + tag@,
            close@ == seq!['<', '/'] + tag@,
            out@ + strip_element_from(s@, tag@, index as int) == strip_element_from(s@, tag@, 0),
        decreases s@.len() - index,
    {
        let ghost before = index;
        proof {
            lemma_element_end(s@, tag@, index as int);
        }
        let mut skip_to: Option<usize> = None;
        if starts_with_ci(s, index, &open) && index + open.len() <= s.len() && tag_name_ends(
            s,
            index + open.len(),
        ) {
            if let Some(open_end) = find_char(s, index, '>') {
                proof {
                    lemma_find_from(s@, index as int, '>');
                }
                if let Some(close_at) = find_ignore_case(s, open_end + 1, &close) {
                    proof {
                        lemma_find_ci_at(s@, open_end + 1, close@);
                    }
                    if tag_name_ends(s, close_at + close.len()) {
                        if let Some(close_end) = find_char(s, close_at, '>') {
                            skip_to = Some(close_end + 1);
                        }
                    }
                }
            }
        }
        assert(match skip_to {
            Some(e) => element_end(s@, tag@, before as int) == Some(e as int),
            None => element_end(s@, tag@, before as int) is None,
        });
        match skip_to {
            Some(e) => {
                index = e;
            },
            None => {
                out.push(s[index]);
                index = index + 1;
            },
        }
    }
    out
}

/// Tags that stand for a line break: `<br>`, `<br/>` and the closing tags of
/// paragraphs, divisions, list items, table rows and headings.
pub open spec fn is_break_name(t: Seq<char>) -> bool {
    ||| t == seq!['b', 'r']
    ||| t == seq!['b', 'r', '/']
    ||| t == seq!['/', 'p']
    ||| t == seq!['/', 'd', 'i', 'v']
    ||| t == seq!['/', 'l', 'i']
    ||| t == seq!['/', 't', 'r']
    ||| t == seq!['/', 'h', '1']
    ||| t == seq!['/', 'h', '2']
    ||| t == seq!['/', 'h', '3']
    ||| t == seq!['/', 'h', '4']
    ||| t == seq!['/', 'h', '5']
    ||| t == seq!['/', 'h', '6']
}

/// The inside of a tag with whitespace removed and ASCII letters lowercased.
pub open spec fn compact_tag(inside: Seq<char>) -> Seq<char> {
    inside.filter(|c: char| !is_ws(c)).map_values(|c: char| lower(c))
}

/// The text between `<` and `>` names a break tag.
pub open spec fn is_break_tag_spec(inside: Seq<char>) -> bool {
    is_break_name(compact_tag(inside))
}

fn is_break_tag(s: &Vec<char>, from: usize, to: usize) -> (b: bool)
    requires
        from <= to <= s@.len(),
    ensures
        b == is_break_tag_spec(s@.subrange(from as int, to as int)),
{
    let ghost inside = s@.subrange(from as int, to as int);
    let mut compact: Vec<char> = Vec::new();
    let mut k = from;
    while k < to
        invariant
            from <= k <= to,
            to <= s@.len(),
            inside == s@.subrange(from as int, to as int),
            compact@ == compact_tag(inside.take(k - from)),
        decreases to - k,
    {
        proof {
            let pre = inside.take(k - from);
            let nxt = inside.take(k - from + 1);
            assert(nxt.drop_last() == pre);
            assert(nxt.last() == s@[k as int]);
            reveal_with_fuel(Seq::filter, 1);
            assert(nxt.filter(|c: char| !is_ws(c)) == if !is_ws(s@[k as int]) {
                pre.filter(|c: char| !is_ws(c)).push(s@[k as int])
            } else {
                pre.filter(|c: char| !is_ws(c))
            });
        }
        let c = s[k];
        if !is_whitespace(c) {
            compact.push(to_lower(c));
        }
        k = k + 1;
        proof {
            let f = inside.take(k - from - 1).filter(|c: char| !is_ws(c));
            assert(f.push(c).map_values(|c: char| lower(c)) == f.map_values(|c: char| lower(c)).push(
                lower(c),
            ));
        }
    }
    assert(inside.take(to - from) == inside);
    let t = compact;
    chars_eq(&t, &vec!['b', 'r']) || chars_eq(&t, &vec!['b', 'r', '/']) || chars_eq(
        &t,
        &vec!['/', 'p'],
    ) || chars_eq(&t, &vec!['/', 'd', 'i', 'v']) || chars_eq(&t, &vec!['/', 'l', 'i'])
        || chars_eq(&t, &vec!['/', 't', 'r']) || chars_eq(&t, &vec!['/', 'h', '1']) || chars_eq(
        &t,
        &vec!['/', 'h', '2'],
    ) || chars_eq(&t, &vec!['/', 'h', '3']) || chars_eq(&t, &vec!['/', 'h', '4']) || chars_eq(
        &t,
        &vec!['/', 'h', '5'],
    ) || chars_eq(&t, &vec!['/', 'h', '6'])
}


/// The text from `i` on with every break tag replaced by a newline.
pub open spec fn breaks_from(s: Seq<char>, i: int) -> Seq<char>
    decreases s.len() - i,
{
    if i < 0 || i >= s.len() {
        Seq::empty()
    } else if s[i] == '<' && find_from(s, i, '>') is Some && is_break_tag_spec(
        s.subrange(i + 1, find_from(s, i, '>')->0),
    ) {
        proof {
            lemma_find_from(s, i, '>');
        }
        seq!['\n'] + breaks_from(s, find_from(s, i, '>')->0 + 1)
    } else {
        seq![s[i]] + breaks_from(s, i + 1)
    }
}

fn replace_break_tags(s: &Vec<char>) -> (out: Vec<char>)
    ensures
        out@ == breaks_from(s@, 0),
{
    let mut out: Vec<char> = Vec::new();
    let mut index: usize = 0;
    while index < s.len()
        invariant
            index <= s@.len(),
            out@ + breaks_from(s@, index as int) == breaks_from(s@, 0),
        decreases s@.len() - index,
    {
        proof {
            lemma_find_from(s@, index as int, '>');
        }
        if s[index] == '<' {
            if let Some(end) = find_char(s, index, '>') {
                if index + 1 <= end && is_break_tag(s, index + 1, end) {
                    out.push('\n');
                    index = end + 1;
                    continue;
                }
            }
        }
        out.push(s[index]);
        index = index + 1;
    }
    out
}

/// The text from `i` on with every `<...>` tag removed.
pub open spec fn untagged_from(s: Seq<char>, i: int) -> Seq<char>
    decreases s.len() - i,
{
    if i < 0 || i >= s.len() {
        Seq::empty()
    } else if s[i] == '<' && find_from(s, i, '>') is Some {
        proof {
            lemma_find_from(s, i, '>');
        }
        untagged_from(s, find_from(s, i, '>')->0 + 1)
    } else {
        seq![s[i]] + untagged_from(s, i + 1)
    }
}

fn remove_tags(s: &Vec<char>) -> (out: Vec<char>)
    ensures
        out@ == untagged_from(s@, 0),
{
    let mut out: Vec<char> = Vec::new();
    let mut index: usize = 0;
    while index < s.len()
        invariant
            index <= s@.len(),
            out@ + untagged_from(s@, index as int) == untagged_from(s@, 0),
        decreases s@.len() - index,
    {
        proof {
            lemma_find_from(s@, index as int, '>');
        }
        if s[index] == '<' {
            if let Some(end) = find_char(s, index, '>') {
                index = end + 1;
                continue;
            }
        }
        out.push(s[index]);
        index = index + 1;
    }
    out
}


/// A numeric character reference `&#nnn;` or `&#xhhh;`, when its value is a
/// Unicode scalar that fits in a `u32`.
pub open spec fn decode_numeric_spec(token: Seq<char>) -> Option<char> {
    if token.len() < 3 || token[0] != '&' || token[1] != '#' || token.last() != ';' {
        None
    } else {
        let body = token.subrange(2, token.len() - 1);
        let parsed = if body.len() > 0 && (body[0] == 'x' || body[0] == 'X') {
            parse_u32_spec(body.drop_first(), 16)
        } else {
            parse_u32_spec(body, 10)
        };
        match parsed {
            Some(v) => if is_scalar(v as int) {
                Some(v as char)
            } else {
                None
            },
            None => None,
        }
    }
}

/// The character an entity token (`&` through `;`) stands for.
pub open spec fn decode_one_spec(token: Seq<char>) -> Option<char> {
    if token == seq!['&', 'a', 'm', 'p', ';'] {
        Some('&')
    } else if token == seq!['&', 'l', 't', ';'] {
        Some('<')
    } else if token == seq!['&', 'g', 't', ';'] {
        Some('>')
    } else if token == seq!['&', 'q', 'u', 'o', 't', ';'] {
        Some('"')
    } else if token == seq!['&', 'a', 'p', 'o', 's', ';'] {
        Some('\'')
    } else if token == seq!['&', 'n', 'b', 's', 'p', ';'] {
        Some('\u{a0}')
    } else {
        decode_numeric_spec(token)
    }
}

fn decode_numeric(t: &Vec<char>) -> (r: Option<char>)
    ensures
        r == decode_numeric_spec(t@),
{
    let n = t.len();
    if n < 3 || t[0] != '&' || t[1] != '#' || t[n - 1] != ';' {
        return None;
    }
    let ghost body = t@.subrange(2, n - 1);
    let parsed = if n - 1 > 2 && (t[2] == 'x' || t[2] == 'X') {
        assert(body.drop_first() == t@.subrange(3, n - 1));
        parse_u32_digits(t, 3, n - 1, 16)
    } else {
        parse_u32_digits(t, 2, n - 1, 10)
    };
    match parsed {
        Some(v) => char_from_u32(v),
        None => None,
    }
}

fn decode_one(s: &Vec<char>, from: usize, to: usize) -> (r: Option<char>)
    requires
        from <= to <= s@.len(),
    ensures
        r == decode_one_spec(s@.subrange(from as int, to as int)),
{
    let t = sub_chars(s, from, to);
    if chars_eq(&t, &vec!['&', 'a', 'm', 'p', ';']) {
        Some('&')
    } else if chars_eq(&t, &vec!['&', 'l', 't', ';']) {
        Some('<')
    } else if chars_eq(&t, &vec!['&', 'g', 't', ';']) {
        Some('>')
    } else if chars_eq(&t, &vec!['&', 'q', 'u', 'o', 't', ';']) {
        Some('"')
    } else if chars_eq(&t, &vec!['&', 'a', 'p', 'o', 's', ';']) {
        Some('\'')
    } else if chars_eq(&t, &vec!['&', 'n', 'b', 's', 'p', ';']) {
        Some('\u{a0}')
    } else {
        decode_numeric(&t)
    }
}

/// The text from `i` on with each decodable entity replaced by its character.
pub open spec fn decoded_from(s: Seq<char>, i: int) -> Seq<char>
    decreases s.len() - i,
{
    if i < 0 || i >= s.len() {
        Seq::empty()
    } else if s[i] == '&' && find_from(s, i, ';') is Some && decode_one_spec(
        s.subrange(i, find_from(s, i, ';')->0 + 1),
    ) is Some {
        proof {
            lemma_find_from(s, i, ';');
        }
        seq![decode_one_spec(s.subrange(i, find_from(s, i, ';')->0 + 1))->0] + decoded_from(
            s,
            find_from(s, i, ';')->0 + 1,
        )
    } else {
        seq![s[i]] + decoded_from(s, i + 1)
    }
}

fn decode_entities(s: &Vec<char>) -> (out: Vec<char>)
    ensures
        out@ == decoded_from(s@, 0),
{
    let mut out: Vec<char> = Vec::new();
    let mut index: usize = 0;
    while index < s.len()
        invariant
            index <= s@.len(),
            out@ + decoded_from(s@, index as int) == decoded_from(s@, 0),
        decreases s@.len() - index,
    {
        proof {
            lemma_find_from(s@, index as int, ';');
        }
        if s[index] == '&' {
            if let Some(end) = find_char(s, index, ';') {
                if let Some(c) = decode_one(s, index, end + 1) {
                    out.push(c);
                    index = end + 1;
                    continue;
                }
            }
        }
        out.push(s[index]);
        index = index + 1;
    }
    out
}


/// Every run of whitespace in `line` replaced by one space.
pub open spec fn collapse_runs(line: Seq<char>) -> Seq<char>
    decreases line.len(),
{
    if line.len() == 0 {
        Seq::empty()
    } else {
        let prev = collapse_runs(line.drop_last());
        let c = line.last();
        if !is_ws(c) {
            prev.push(c)
        } else if line.len() >= 2 && is_ws(line[line.len() - 2]) {
            prev
        } else {
            prev.push(' ')
        }
    }
}

/// A line with whitespace runs collapsed, then trimmed.
pub open spec fn clean_line(line: Seq<char>) -> Seq<char> {
    trim(collapse_runs(line))
}

/// The lines of `s` (split on `\n`) from `i` on, each cleaned, rejoined with `\n`.
pub open spec fn clean_lines_from(s: Seq<char>, i: int) -> Seq<char>
    decreases s.len() - i,
{
    if i < 0 || i > s.len() {
        Seq::empty()
    } else {
        match find_from(s, i, '\n') {
            None => clean_line(s.subrange(i, s.len() as int)),
            Some(e) => {
                proof {
                    lemma_find_from(s, i, '\n');
                }
                clean_line(s.subrange(i, e)) + seq!['\n'] + clean_lines_from(s, e + 1)
            },
        }
    }
}

/// Runs of three or more newlines shortened to two.
pub open spec fn cap_newlines(s: Seq<char>) -> Seq<char>
    decreases s.len(),
{
    if s.len() == 0 {
        Seq::empty()
    } else {
        let n = s.len();
        let prev = cap_newlines(s.drop_last());
        if s[n - 1] == '\n' && n >= 3 && s[n - 2] == '\n' && s[n - 3] == '\n' {
            prev
        } else {
            prev.push(s[n - 1])
        }
    }
}

fn collapse_line(s: &Vec<char>, from: usize, to: usize) -> (out: Vec<char>)
    requires
        from <= to <= s@.len(),
    ensures
        out@ == clean_line(s@.subrange(from as int, to as int)),
{
    let ghost line = s@.subrange(from as int, to as int);
    let mut collapsed: Vec<char> = Vec::new();
    let mut k = from;
    while k < to
        invariant
            from <= k <= to,
            to <= s@.len(),
            line == s@.subrange(from as int, to as int),
            collapsed@ == collapse_runs(line.take(k - from)),
        decreases to - k,
    {
        proof {
            let t = line.take(k - from + 1);
            assert(t.drop_last() == line.take(k - from));
            assert(t.last() == s@[k as int]);
            if k > from {
                assert(t[t.len() - 2] == s@[k - 1]);
            }
        }
        let c = s[k];
        if !is_whitespace(c) {
            collapsed.push(c);
        } else if k > from && is_whitespace(s[k - 1]) {
        } else {
            collapsed.push(' ');
        }
        k = k + 1;
    }
    assert(line.take(to - from) == line);
    trim_chars(&collapsed)
}

fn cap_newline_runs(s: &Vec<char>) -> (out: Vec<char>)
    ensures
        out@ == cap_newlines(s@),
{
    let mut out: Vec<char> = Vec::new();
    let mut k: usize = 0;
    while k < s.len()
        invariant
            k <= s@.len(),
            out@ == cap_newlines(s@.take(k as int)),
        decreases s@.len() - k,
    {
        proof {
            let t = s@.take(k + 1);
            assert(t.drop_last() == s@.take(k as int));
        }
        if s[k] == '\n' && k >= 2 && s[k - 1] == '\n' && s[k - 2] == '\n' {
        } else {
            out.push(s[k]);
        }
        k = k + 1;
    }
    assert(s@.take(k as int) == s@);
    out
}

/// Whitespace cleanup: lines collapsed and trimmed, newline runs capped at
/// two, the whole trimmed.
pub open spec fn collapse_whitespace_spec(s: Seq<char>) -> Seq<char> {
    trim(cap_newlines(clean_lines_from(s, 0)))
}

fn collapse_whitespace(s: &Vec<char>) -> (out: Vec<char>)
    ensures
        out@ == collapse_whitespace_spec(s@),
{
    let mut joined: Vec<char> = Vec::new();
    let mut i: usize = 0;
    loop
        invariant_except_break
            i <= s@.len(),
            joined@ + clean_lines_from(s@, i as int) == clean_lines_from(s@, 0),
        ensures
            joined@ == clean_lines_from(s@, 0),
        decreases s@.len() - i,
    {
        proof {
            lemma_find_from(s@, i as int, '\n');
        }
        match find_char(s, i, '\n') {
            None => {
                let line = collapse_line(s, i, s.len());
                let mut k: usize = 0;
                let ghost before = joined@;
                while k < line.len()
                    invariant
                        k <= line@.len(),
                        joined@ == before + line@.take(k as int),
                    decreases line@.len() - k,
                {
                    joined.push(line[k]);
                    k = k + 1;
                    assert(joined@ == before + line@.take(k as int));
                }
                assert(line@.take(k as int) == line@);
                assert(clean_lines_from(s@, i as int) == line@);
                break ;
            },
            Some(e) => {
                assert(e < s.len());
                let next = e + 1;
                let line = collapse_line(s, i, e);
                let mut k: usize = 0;
                let ghost before = joined@;
                while k < line.len()
                    invariant
                        k <= line@.len(),
                        joined@ == before + line@.take(k as int),
                    decreases line@.len() - k,
                {
                    joined.push(line[k]);
                    k = k + 1;
                    assert(joined@ == before + line@.take(k as int));
                }
                assert(line@.take(k as int) == line@);
                joined.push('\n');
                i = next;
            },
        }
    }
    let capped = cap_newline_runs(&joined);
    trim_chars(&capped)
}

/// `html_to_text`: script and style elements removed, break tags turned into
/// newlines, remaining tags removed, entities decoded, whitespace cleaned up.
pub open spec fn html_to_text_spec(s: Seq<char>) -> Seq<char> {
    let no_script = strip_element_from(s, seq!['s', 'c', 'r', 'i', 'p', 't'], 0);
    let no_style = strip_element_from(no_script, seq!['s', 't', 'y', 'l', 'e'], 0);
    let broken = breaks_from(no_style, 0);
    let untagged = untagged_from(broken, 0);
    collapse_whitespace_spec(decoded_from(untagged, 0))
}

/// No three newlines in a row.
pub open spec fn no_triple_newline(s: Seq<char>) -> bool {
    forall|i: int| 0 <= i && i + 2 < s.len() ==> !(#[trigger] s[i] == '\n' && s[i + 1] == '\n' && s[i + 2] == '\n')
}

/// How many newlines `s` ends with.
pub open spec fn trailing_newlines(s: Seq<char>) -> nat
    decreases s.len(),
{
    if s.len() > 0 && s.last() == '\n' {
        1 + trailing_newlines(s.drop_last())
    } else {
        0
    }
}

proof fn lemma_cap_newlines_shape(s: Seq<char>)
    ensures
        no_triple_newline(cap_newlines(s)),
        trailing_newlines(cap_newlines(s)) == if trailing_newlines(s) < 2 {
            trailing_newlines(s)
        } else {
            2
        },
    decreases s.len(),
{
    if s.len() > 0 {
        let n = s.len() as int;
        let t = s.drop_last();
        let prev = cap_newlines(t);
        lemma_cap_newlines_shape(t);
        if s[n - 1] == '\n' {
            if n >= 3 && s[n - 2] == '\n' && s[n - 3] == '\n' {
                assert(t.last() == '\n');
                assert(t.drop_last().last() == '\n');
                reveal_with_fuel(trailing_newlines, 2);
                assert(trailing_newlines(t) >= 2);
            } else {
                if trailing_newlines(t) >= 2 {
                    reveal_with_fuel(trailing_newlines, 2);
                    assert(t.last() == '\n');
                    assert(t.drop_last().len() > 0 && t.drop_last().last() == '\n');
                    assert(s[n - 2] == t.last());
                    assert(s[n - 3] == t.drop_last().last());
                }
                let c = prev.push('\n');
                assert(c.drop_last() =~= prev);
                assert forall|i: int| 0 <= i && i + 2 < c.len() implies !(#[trigger] c[i] == '\n' && c[i + 1] == '\n' && c[i
                    + 2] == '\n') by {
                    if i + 2 < prev.len() {
                        assert(c[i] == prev[i] && c[i + 1] == prev[i + 1] && c[i + 2] == prev[i + 2]);
                    } else if prev[i] == '\n' && prev[i + 1] == '\n' {
                        assert(prev.last() == '\n');
                        assert(prev.drop_last().last() == '\n');
                        reveal_with_fuel(trailing_newlines, 2);
                        assert(trailing_newlines(prev) >= 2);
                    }
                }
            }
        } else {
            let c = prev.push(s[n - 1]);
            assert(c.drop_last() =~= prev);
            assert forall|i: int| 0 <= i && i + 2 < c.len() implies !(#[trigger] c[i] == '\n' && c[i + 1] == '\n' && c[i
                + 2] == '\n') by {
                if i + 2 < prev.len() {
                    assert(c[i] == prev[i] && c[i + 1] == prev[i + 1] && c[i + 2] == prev[i + 2]);
                }
            }
        }
    }
}

proof fn lemma_trim_start_no_triple(s: Seq<char>)
    requires
        no_triple_newline(s),
    ensures
        no_triple_newline(trim_start(s)),
    decreases s.len(),
{
    if s.len() > 0 && is_ws(s[0]) {
        let d = s.drop_first();
        assert forall|i: int| 0 <= i && i + 2 < d.len() implies !(#[trigger] d[i] == '\n' && d[i + 1] == '\n' && d[i + 2]
            == '\n') by {
            assert(d[i] == s[i + 1] && d[i + 1] == s[i + 2] && d[i + 2] == s[i + 3]);
        }
        lemma_trim_start_no_triple(d);
    }
}

proof fn lemma_trim_end_no_triple(s: Seq<char>)
    requires
        no_triple_newline(s),
    ensures
        no_triple_newline(trim_end(s)),
    decreases s.len(),
{
    if s.len() > 0 && is_ws(s.last()) {
        let d = s.drop_last();
        assert forall|i: int| 0 <= i && i + 2 < d.len() implies !(#[trigger] d[i] == '\n' && d[i + 1] == '\n' && d[i + 2]
            == '\n') by {
            assert(d[i] == s[i] && d[i + 1] == s[i + 1] && d[i + 2] == s[i + 2]);
        }
        lemma_trim_end_no_triple(d);
    }
}

/// Every whitespace character is a space or a newline, and no space stands
/// next to another whitespace character.
pub open spec fn tidy_spacing(s: Seq<char>) -> bool {
    &&& forall|i: int| 0 <= i < s.len() && is_ws(#[trigger] s[i]) ==> s[i] == ' ' || s[i] == '\n'
    &&& forall|i: int, j: int|
        0 <= i && j == i + 1 && j < s.len() ==> !(#[trigger] s[i] == ' ' && is_ws(#[trigger] s[j])) && !(
        is_ws(s[i]) && s[j] == ' ')
}

/// Every whitespace character is a space.
spec fn spaces_only(s: Seq<char>) -> bool {
    forall|i: int| 0 <= i < s.len() && is_ws(#[trigger] s[i]) ==> s[i] == ' '
}

proof fn lemma_tidy_subrange(s: Seq<char>, a: int, b: int)
    requires
        tidy_spacing(s),
        0 <= a <= b <= s.len(),
    ensures
        tidy_spacing(s.subrange(a, b)),
        spaces_only(s) ==> spaces_only(s.subrange(a, b)),
{
    let t = s.subrange(a, b);
    assert forall|i: int| 0 <= i < t.len() && is_ws(#[trigger] t[i]) implies t[i] == ' ' || t[i] == '\n' by {
        assert(t[i] == s[i + a]);
    }
    assert forall|i: int, j: int| 0 <= i && j == i + 1 && j < t.len() implies !(#[trigger] t[i] == ' ' && is_ws(
        #[trigger] t[j],
    )) && !(is_ws(t[i]) && t[j] == ' ') by {
        assert(t[i] == s[i + a] && t[j] == s[j + a]);
    }
    if spaces_only(s) {
        assert forall|i: int| 0 <= i < t.len() && is_ws(#[trigger] t[i]) implies t[i] == ' ' by {
            assert(t[i] == s[i + a]);
        }
    }
}

proof fn lemma_trim_start_tidy(s: Seq<char>)
    requires
        tidy_spacing(s),
    ensures
        tidy_spacing(trim_start(s)),
        spaces_only(s) ==> spaces_only(trim_start(s)),
    decreases s.len(),
{
    if s.len() > 0 && is_ws(s[0]) {
        lemma_tidy_subrange(s, 1, s.len() as int);
        assert(s.drop_first() == s.subrange(1, s.len() as int));
        lemma_trim_start_tidy(s.drop_first());
    }
}

proof fn lemma_trim_end_tidy(s: Seq<char>)
    requires
        tidy_spacing(s),
    ensures
        tidy_spacing(trim_end(s)),
        spaces_only(s) ==> spaces_only(trim_end(s)),
    decreases s.len(),
{
    if s.len() > 0 && is_ws(s.last()) {
        lemma_tidy_subrange(s, 0, s.len() - 1);
        assert(s.drop_last() == s.subrange(0, s.len() - 1));
        lemma_trim_end_tidy(s.drop_last());
    }
}

proof fn lemma_trim_tidy(s: Seq<char>)
    requires
        tidy_spacing(s),
    ensures
        tidy_spacing(trim(s)),
        spaces_only(s) ==> spaces_only(trim(s)),
{
    lemma_trim_start_tidy(s);
    lemma_trim_end_tidy(trim_start(s));
}

/// Two tidy texts joined stay tidy when the seam is.
proof fn lemma_tidy_concat(a: Seq<char>, b: Seq<char>)
    requires
        tidy_spacing(a),
        tidy_spacing(b),
        a.len() > 0 && b.len() > 0 ==> !(a.last() == ' ' && is_ws(b[0])) && !(is_ws(a.last()) && b[0] == ' '),
    ensures
        tidy_spacing(a + b),
{
    let c = a + b;
    assert forall|i: int| 0 <= i < c.len() && is_ws(#[trigger] c[i]) implies c[i] == ' ' || c[i] == '\n' by {
        if i < a.len() {
            assert(c[i] == a[i]);
        } else {
            assert(c[i] == b[i - a.len()]);
        }
    }
    assert forall|i: int, j: int| 0 <= i && j == i + 1 && j < c.len() implies !(#[trigger] c[i] == ' ' && is_ws(
        #[trigger] c[j],
    )) && !(is_ws(c[i]) && c[j] == ' ') by {
        if j < a.len() {
            assert(c[i] == a[i] && c[j] == a[j]);
        } else if i >= a.len() {
            assert(c[i] == b[i - a.len()] && c[j] == b[j - a.len()]);
        } else {
            assert(c[i] == a.last() && c[j] == b[0]);
        }
    }
}

proof fn lemma_collapse_runs_tidy(line: Seq<char>)
    ensures
        spaces_only(collapse_runs(line)),
        tidy_spacing(collapse_runs(line)),
        collapse_runs(line).len() > 0 <==> line.len() > 0,
        line.len() > 0 ==> (is_ws(collapse_runs(line).last()) <==> is_ws(line.last())),
    decreases line.len(),
{
    if line.len() > 0 {
        let t = line.drop_last();
        let prev = collapse_runs(t);
        lemma_collapse_runs_tidy(t);
        let c = line.last();
        if !is_ws(c) || !(line.len() >= 2 && is_ws(line[line.len() - 2])) {
            let x = if !is_ws(c) {
                c
            } else {
                ' '
            };
            assert(collapse_runs(line) == prev.push(x));
            assert(prev.push(x) =~= prev + seq![x]);
            if prev.len() > 0 {
                assert(t.last() == line[line.len() - 2]);
            }
            lemma_tidy_concat(prev, seq![x]);
            let r = prev.push(x);
            assert forall|i: int| 0 <= i < r.len() && is_ws(#[trigger] r[i]) implies r[i] == ' ' by {
                if i < prev.len() {
                    assert(r[i] == prev[i]);
                }
            }
        } else {
            assert(t.last() == line[line.len() - 2]);
        }
    }
}

proof fn lemma_clean_line_tidy(line: Seq<char>)
    ensures
        spaces_only(clean_line(line)),
        tidy_spacing(clean_line(line)),
        clean_line(line).len() > 0 ==> !is_ws(clean_line(line)[0]) && !is_ws(clean_line(line).last()),
{
    lemma_collapse_runs_tidy(line);
    lemma_trim_tidy(collapse_runs(line));
    lemma_trim_ends(collapse_runs(line));
}

proof fn lemma_clean_lines_tidy(s: Seq<char>, i: int)
    requires
        0 <= i <= s.len(),
    ensures
        tidy_spacing(clean_lines_from(s, i)),
        clean_lines_from(s, i).len() > 0 ==> clean_lines_from(s, i)[0] != ' ',
    decreases s.len() - i,
{
    lemma_find_from(s, i, '\n');
    match find_from(s, i, '\n') {
        None => {
            lemma_clean_line_tidy(s.subrange(i, s.len() as int));
        },
        Some(e) => {
            let line = clean_line(s.subrange(i, e));
            lemma_clean_line_tidy(s.subrange(i, e));
            lemma_clean_lines_tidy(s, e + 1);
            let rest = clean_lines_from(s, e + 1);
            let nl = seq!['\n'];
            lemma_tidy_concat(line, nl);
            lemma_tidy_concat(line + nl, rest);
            let r = line + nl + rest;
            assert(clean_lines_from(s, i) == r);
            if line.len() > 0 {
                assert(r[0] == line[0]);
            } else {
                assert(r[0] == '\n');
            }
        },
    }
}

proof fn lemma_cap_newlines_tidy(s: Seq<char>)
    requires
        tidy_spacing(s),
    ensures
        tidy_spacing(cap_newlines(s)),
        s.len() > 0 ==> cap_newlines(s).len() > 0 && cap_newlines(s).last() == s.last(),
    decreases s.len(),
{
    if s.len() > 0 {
        let n = s.len() as int;
        let t = s.drop_last();
        lemma_tidy_subrange(s, 0, n - 1);
        assert(t == s.subrange(0, n - 1));
        lemma_cap_newlines_tidy(t);
        let prev = cap_newlines(t);
        if s[n - 1] == '\n' && n >= 3 && s[n - 2] == '\n' && s[n - 3] == '\n' {
            assert(t.last() == s[n - 2]);
        } else {
            let x = s[n - 1];
            assert(prev.push(x) =~= prev + seq![x]);
            if prev.len() > 0 {
                assert(t.last() == s[n - 2]);
                assert(s[n - 2] == ' ' ==> !is_ws(s[n - 1]));
            }
            lemma_tidy_concat(prev, seq![x]);
        }
    }
}

/// Plain text never holds three newlines in a row, neither starts nor ends
/// with whitespace, holds no whitespace but spaces and newlines, and has no
/// space beside other whitespace.
pub proof fn lemma_html_text_shape(s: Seq<char>)
    ensures
        no_triple_newline(html_to_text_spec(s)),
        tidy_spacing(html_to_text_spec(s)),
        html_to_text_spec(s).len() > 0 ==> !is_ws(html_to_text_spec(s)[0]) && !is_ws(html_to_text_spec(s).last()),
{
    let no_script = strip_element_from(s, seq!['s', 'c', 'r', 'i', 'p', 't'], 0);
    let no_style = strip_element_from(no_script, seq!['s', 't', 'y', 'l', 'e'], 0);
    let broken = breaks_from(no_style, 0);
    let untagged = untagged_from(broken, 0);
    let capped = cap_newlines(clean_lines_from(decoded_from(untagged, 0), 0));
    lemma_cap_newlines_shape(clean_lines_from(decoded_from(untagged, 0), 0));
    lemma_trim_start_no_triple(capped);
    lemma_trim_end_no_triple(trim_start(capped));
    lemma_trim_ends(capped);
    lemma_clean_lines_tidy(decoded_from(untagged, 0), 0);
    lemma_cap_newlines_tidy(clean_lines_from(decoded_from(untagged, 0), 0));
    lemma_trim_tidy(capped);
}

/// A word of ASCII letters and digits, not empty.
pub open spec fn plain_word(w: Seq<char>) -> bool {
    &&& w.len() > 0
    &&& forall|i: int|
        0 <= i < w.len() ==> ('a' <= #[trigger] w[i] && w[i] <= 'z') || ('A' <= w[i] && w[i] <= 'Z') || (
        '0' <= w[i] && w[i] <= '9')
}

/// Letters and digits are neither whitespace nor markup.
proof fn lemma_plain_chars(w: Seq<char>)
    requires
        plain_word(w),
    ensures
        forall|i: int|
            0 <= i < w.len() ==> !is_ws(#[trigger] w[i]) && w[i] != '<' && w[i] != '>' && w[i] != '&' && w[i]
                != '\n' && lower(w[i]) != '<' && lower(w[i]) != '/',
{
    assert forall|i: int| 0 <= i < w.len() implies !is_ws(#[trigger] w[i]) && w[i] != '<' && w[i] != '>' && w[i]
        != '&' && w[i] != '\n' && lower(w[i]) != '<' && lower(w[i]) != '/' by {
        let c = w[i];
        if 'A' <= c && c <= 'Z' {
            assert(97 <= (c as u32) + 32 <= 122);
        }
    }
}

proof fn lemma_strip_nothing(s: Seq<char>, tag: Seq<char>, i: int)
    requires
        0 <= i <= s.len(),
        forall|j: int| i <= j < s.len() ==> #[trigger] element_end(s, tag, j) is None,
    ensures
        strip_element_from(s, tag, i) == s.skip(i),
    decreases s.len() - i,
{
    if i < s.len() {
        lemma_strip_nothing(s, tag, i + 1);
        assert(s.skip(i) =~= seq![s[i]] + s.skip(i + 1));
    } else {
        assert(s.skip(i) =~= Seq::<char>::empty());
    }
}

proof fn lemma_breaks_plain(s: Seq<char>, i: int, e: int)
    requires
        0 <= i <= e <= s.len(),
        forall|k: int| i <= k < e ==> #[trigger] s[k] != '<',
    ensures
        breaks_from(s, i) == s.subrange(i, e) + breaks_from(s, e),
    decreases e - i,
{
    if i < e {
        lemma_breaks_plain(s, i + 1, e);
        assert(s.subrange(i, e) =~= seq![s[i]] + s.subrange(i + 1, e));
    } else {
        assert(s.subrange(i, e) =~= Seq::<char>::empty());
    }
}

proof fn lemma_untagged_plain(s: Seq<char>, i: int)
    requires
        0 <= i <= s.len(),
        forall|k: int| i <= k < s.len() ==> #[trigger] s[k] != '<',
    ensures
        untagged_from(s, i) == s.skip(i),
    decreases s.len() - i,
{
    if i < s.len() {
        lemma_untagged_plain(s, i + 1);
        assert(s.skip(i) =~= seq![s[i]] + s.skip(i + 1));
    } else {
        assert(s.skip(i) =~= Seq::<char>::empty());
    }
}

proof fn lemma_decoded_plain(s: Seq<char>, i: int)
    requires
        0 <= i <= s.len(),
        forall|k: int| i <= k < s.len() ==> #[trigger] s[k] != '&',
    ensures
        decoded_from(s, i) == s.skip(i),
    decreases s.len() - i,
{
    if i < s.len() {
        lemma_decoded_plain(s, i + 1);
        assert(s.skip(i) =~= seq![s[i]] + s.skip(i + 1));
    } else {
        assert(s.skip(i) =~= Seq::<char>::empty());
    }
}

proof fn lemma_collapse_runs_plain(w: Seq<char>)
    requires
        forall|i: int| 0 <= i < w.len() ==> !is_ws(#[trigger] w[i]),
    ensures
        collapse_runs(w) == w,
    decreases w.len(),
{
    if w.len() > 0 {
        let t = w.drop_last();
        assert forall|i: int| 0 <= i < t.len() implies !is_ws(#[trigger] t[i]) by {
            assert(t[i] == w[i]);
        }
        lemma_collapse_runs_plain(t);
        assert(t.push(w.last()) =~= w);
    }
}

proof fn lemma_clean_word(w: Seq<char>)
    requires
        plain_word(w),
    ensures
        clean_line(w) == w,
{
    lemma_plain_chars(w);
    lemma_collapse_runs_plain(w);
    assert(!is_ws(w[0]));
    assert(trim_start(w) == w);
    assert(!is_ws(w.last()));
    assert(trim_end(w) == w);
}

proof fn lemma_cap_untouched(s: Seq<char>)
    requires
        no_triple_newline(s),
    ensures
        cap_newlines(s) == s,
    decreases s.len(),
{
    if s.len() > 0 {
        let n = s.len() as int;
        let t = s.drop_last();
        assert forall|i: int| 0 <= i && i + 2 < t.len() implies !(#[trigger] t[i] == '\n' && t[i + 1] == '\n' && t[i
            + 2] == '\n') by {
            assert(t[i] == s[i] && t[i + 1] == s[i + 1] && t[i + 2] == s[i + 2]);
        }
        lemma_cap_untouched(t);
        if n >= 3 {
            assert(!(s[n - 3] == '\n' && s[n - 2] == '\n' && s[n - 1] == '\n'));
        }
        assert(t.push(s[n - 1]) =~= s);
    }
}

proof fn lemma_no_element(a: Seq<char>, b: Seq<char>, tag: Seq<char>)
    requires
        plain_word(a),
        plain_word(b),
        tag.len() > 0,
        tag[0] == 's',
    ensures
        strip_element_from(a + seq!['<', '/', 'd', 'i', 'v', '>'] + b, tag, 0) == a + seq![
            '<',
            '/',
            'd',
            'i',
            'v',
            '>',
        ] + b,
{
    let s = a + seq!['<', '/', 'd', 'i', 'v', '>'] + b;
    let l = a.len() as int;
    let n = s.len() as int;
    lemma_plain_chars(a);
    lemma_plain_chars(b);
    assert forall|j: int| 0 <= j < n implies #[trigger] element_end(s, tag, j) is None by {
        let open = seq!['<'] + tag;
        assert(open[0] == '<' && open[1] == 's');
        if starts_ci(s, j, open) {
            assert(lower(s[j + 0]) == lower(open[0]));
            if j < l {
                assert(s[j] == a[j]);
            } else if l + 6 <= j {
                assert(s[j] == b[j - l - 6]);
            } else if j == l {
                assert(s[j + 1] == '/');
                assert(lower(s[j + 1]) == lower(open[1]));
            } else {
                assert(s[j] != '<');
            }
        }
    }
    lemma_strip_nothing(s, tag, 0);
    assert(s.skip(0) =~= s);
}

proof fn lemma_div_breaks(a: Seq<char>, b: Seq<char>)
    requires
        plain_word(a),
        plain_word(b),
    ensures
        breaks_from(a + seq!['<', '/', 'd', 'i', 'v', '>'] + b, 0) == a + seq!['\n'] + b,
{
    let s = a + seq!['<', '/', 'd', 'i', 'v', '>'] + b;
    let l = a.len() as int;
    let n = s.len() as int;
    lemma_plain_chars(a);
    lemma_plain_chars(b);
    assert(forall|k: int| 0 <= k < l ==> #[trigger] s[k] == a[k]);
    assert(forall|k: int| l + 6 <= k < n ==> #[trigger] s[k] == b[k - l - 6]);
    assert(s[l] == '<' && s[l + 1] == '/' && s[l + 2] == 'd' && s[l + 3] == 'i' && s[l + 4] == 'v' && s[l + 5]
        == '>');
    lemma_breaks_plain(s, 0, l);
    lemma_breaks_plain(s, l + 6, n);
    lemma_find_from(s, l, '>');
    assert(find_from(s, l, '>') == Some(l + 5));
    let inside = s.subrange(l + 1, l + 5);
    assert(inside =~= seq!['/', 'd', 'i', 'v']);
    assert(compact_tag(inside) =~= seq!['/', 'd', 'i', 'v']) by {
        reveal_with_fuel(Seq::filter, 5);
        assert(inside.filter(|c: char| !is_ws(c)) =~= inside);
    }
    assert(breaks_from(s, l) == seq!['\n'] + breaks_from(s, l + 6));
    assert(breaks_from(s, n) =~= Seq::<char>::empty());
    assert(s.subrange(0, l) =~= a);
    assert(s.subrange(l + 6, n) =~= b);
    assert(breaks_from(s, 0) =~= a + seq!['\n'] + b);
}

proof fn lemma_two_lines_clean(a: Seq<char>, b: Seq<char>)
    requires
        plain_word(a),
        plain_word(b),
    ensures
        collapse_whitespace_spec(decoded_from(untagged_from(a + seq!['\n'] + b, 0), 0)) == a + seq!['\n'] + b,
{
    let x = a + seq!['\n'] + b;
    let l = a.len() as int;
    lemma_plain_chars(a);
    lemma_plain_chars(b);
    assert(forall|k: int| 0 <= k < l ==> #[trigger] x[k] == a[k]);
    assert(forall|k: int| l + 1 <= k < x.len() ==> #[trigger] x[k] == b[k - l - 1]);
    assert(x[l] == '\n');
    lemma_untagged_plain(x, 0);
    assert(x.skip(0) =~= x);
    lemma_decoded_plain(x, 0);
    lemma_find_from(x, 0, '\n');
    assert(find_from(x, 0, '\n') == Some(l));
    lemma_find_from(x, l + 1, '\n');
    assert(find_from(x, l + 1, '\n') is None);
    assert(x.subrange(0, l) =~= a);
    assert(x.subrange(l + 1, x.len() as int) =~= b);
    lemma_clean_word(a);
    lemma_clean_word(b);
    assert(clean_lines_from(x, l + 1) == b);
    assert(clean_lines_from(x, 0) =~= x);
    assert forall|i: int| 0 <= i && i + 2 < x.len() implies !(#[trigger] x[i] == '\n' && x[i + 1] == '\n' && x[i + 2]
        == '\n') by {
        if x[i] == '\n' && x[i + 1] == '\n' {
            assert(i == l);
        }
    }
    lemma_cap_untouched(x);
    assert(!is_ws(x[0]));
    assert(trim_start(x) == x);
    assert(!is_ws(x.last()));
    assert(trim_end(x) == x);
}

/// A closing `</div>` between two plain words becomes a line break:
/// `html_to_text(a + "</div>" + b)` is `a`, a newline, then `b`.
pub proof fn lemma_closing_div_breaks_line(a: Seq<char>, b: Seq<char>)
    requires
        plain_word(a),
        plain_word(b),
    ensures
        html_to_text_spec(a + seq!['<', '/', 'd', 'i', 'v', '>'] + b) == a + seq!['\n'] + b,
{
    let s = a + seq!['<', '/', 'd', 'i', 'v', '>'] + b;
    lemma_no_element(a, b, seq!['s', 'c', 'r', 'i', 'p', 't']);
    lemma_no_element(a, b, seq!['s', 't', 'y', 'l', 'e']);
    lemma_div_breaks(a, b);
    lemma_two_lines_clean(a, b);
}

/// The tags that end a line: `<br>`, `<br/>`, and the closing tags of
/// paragraphs, divisions, list items, table rows and headings.
pub open spec fn line_break_tag(name: Seq<char>) -> bool {
    ||| name == seq!['b', 'r']
    ||| name == seq!['b', 'r', '/']
    ||| name == seq!['/', 'p']
    ||| name == seq!['/', 'd', 'i', 'v']
    ||| name == seq!['/', 'l', 'i']
    ||| name == seq!['/', 't', 'r']
    ||| name == seq!['/', 'h', '1']
    ||| name == seq!['/', 'h', '2']
    ||| name == seq!['/', 'h', '3']
    ||| name == seq!['/', 'h', '4']
    ||| name == seq!['/', 'h', '5']
    ||| name == seq!['/', 'h', '6']
}

proof fn lemma_break_name_chars(name: Seq<char>)
    requires
        line_break_tag(name),
    ensures
        2 <= name.len() <= 4,
        name[0] == 'b' || name[0] == '/',
        forall|i: int|
            0 <= i < name.len() ==> !is_ws(#[trigger] name[i]) && name[i] != '<' && name[i] != '>' && lower(name[i])
                == name[i],
{
}

proof fn lemma_no_element_around(a: Seq<char>, b: Seq<char>, name: Seq<char>, tag: Seq<char>)
    requires
        plain_word(a),
        plain_word(b),
        line_break_tag(name),
        tag.len() > 0,
        tag[0] == 's',
    ensures
        strip_element_from(a + seq!['<'] + name + seq!['>'] + b, tag, 0) == a + seq!['<'] + name + seq!['>'] + b,
{
    let s = a + seq!['<'] + name + seq!['>'] + b;
    let l = a.len() as int;
    let m = name.len() as int;
    let n = s.len() as int;
    lemma_plain_chars(a);
    lemma_plain_chars(b);
    lemma_break_name_chars(name);
    assert(forall|k: int| 0 <= k < l ==> #[trigger] s[k] == a[k]);
    assert(forall|k: int| l + 1 <= k < l + 1 + m ==> #[trigger] s[k] == name[k - l - 1]);
    assert(forall|k: int| l + 2 + m <= k < n ==> #[trigger] s[k] == b[k - l - 2 - m]);
    assert(s[l] == '<' && s[l + 1 + m] == '>');
    assert forall|j: int| 0 <= j < n implies #[trigger] element_end(s, tag, j) is None by {
        let open = seq!['<'] + tag;
        assert(open[0] == '<' && open[1] == 's');
        if starts_ci(s, j, open) {
            assert(lower(s[j + 0]) == lower(open[0]));
            if j == l {
                assert(lower(s[j + 1]) == lower(open[1]));
                assert(s[j + 1] == name[0]);
            }
        }
    }
    lemma_strip_nothing(s, tag, 0);
    assert(s.skip(0) =~= s);
}

proof fn lemma_tag_breaks(a: Seq<char>, b: Seq<char>, name: Seq<char>)
    requires
        plain_word(a),
        plain_word(b),
        line_break_tag(name),
    ensures
        breaks_from(a + seq!['<'] + name + seq!['>'] + b, 0) == a + seq!['\n'] + b,
{
    let s = a + seq!['<'] + name + seq!['>'] + b;
    let l = a.len() as int;
    let m = name.len() as int;
    let n = s.len() as int;
    lemma_plain_chars(a);
    lemma_plain_chars(b);
    lemma_break_name_chars(name);
    assert(forall|k: int| 0 <= k < l ==> #[trigger] s[k] == a[k]);
    assert(forall|k: int| l + 1 <= k < l + 1 + m ==> #[trigger] s[k] == name[k - l - 1]);
    assert(forall|k: int| l + 2 + m <= k < n ==> #[trigger] s[k] == b[k - l - 2 - m]);
    assert(s[l] == '<' && s[l + 1 + m] == '>');
    lemma_breaks_plain(s, 0, l);
    lemma_breaks_plain(s, l + 2 + m, n);
    lemma_find_from(s, l, '>');
    assert(find_from(s, l, '>') == Some(l + 1 + m));
    let inside = s.subrange(l + 1, l + 1 + m);
    assert(inside =~= name);
    assert(compact_tag(inside) =~= name) by {
        reveal_with_fuel(Seq::filter, 5);
        assert(inside.filter(|c: char| !is_ws(c)) =~= inside);
    }
    assert(is_break_name(name));
    assert(breaks_from(s, l) == seq!['\n'] + breaks_from(s, l + 2 + m));
    assert(breaks_from(s, n) =~= Seq::<char>::empty());
    assert(s.subrange(0, l) =~= a);
    assert(s.subrange(l + 2 + m, n) =~= b);
    assert(breaks_from(s, 0) =~= a + seq!['\n'] + b);
}

/// Every line-ending tag between two plain words becomes a line break:
/// `html_to_text(a + "<" + name + ">" + b)` is `a`, a newline, then `b`.
pub proof fn lemma_break_tag_breaks_line(a: Seq<char>, b: Seq<char>, name: Seq<char>)
    requires
        plain_word(a),
        plain_word(b),
        line_break_tag(name),
    ensures
        html_to_text_spec(a + seq!['<'] + name + seq!['>'] + b) == a + seq!['\n'] + b,
{
    lemma_no_element_around(a, b, name, seq!['s', 'c', 'r', 'i', 'p', 't']);
    lemma_no_element_around(a, b, name, seq!['s', 't', 'y', 'l', 'e']);
    lemma_tag_breaks(a, b, name);
    lemma_two_lines_clean(a, b);
}

/// Plain text for retrieval out of a field that may hold HTML.
pub fn html_to_text(input: &str) -> (out: String)
    ensures
        out@ == html_to_text_spec(input@),
{
    let s = chars_of(input);
    let no_script = remove_element(&s, &vec!['s', 'c', 'r', 'i', 'p', 't']);
    let no_style = remove_element(&no_script, &vec!['s', 't', 'y', 'l', 'e']);
    let broken = replace_break_tags(&no_style);
    let untagged = remove_tags(&broken);
    let decoded = decode_entities(&untagged);
    let cleaned = collapse_whitespace(&decoded);
    string_of(cleaned.as_slice())
}

} // verus!
