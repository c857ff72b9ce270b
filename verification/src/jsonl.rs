//! Framing of JSON Lines files and lowercase hex text, shared by the graph
//! builder and the question answerer.

use vstd::prelude::*;

use crate::foreign::{sha256_digest, sha256_spec};
use crate::text::{chars_of, find_char, find_from, lemma_find_from, push_char, sub_chars, string_of};

verus! {

/// The pieces of `s` from `i` on, split at each `\n`, as `str::split('\n')`.
pub open spec fn split_lines_from(s: Seq<char>, i: int) -> Seq<Seq<char>>
    decreases s.len() - i,
{
    if i < 0 || i > s.len() {
        Seq::empty()
    } else {
        match find_from(s, i, '\n') {
            None => seq![s.subrange(i, s.len() as int)],
            Some(e) => {
                proof {
                    lemma_find_from(s, i, '\n');
                }
                seq![s.subrange(i, e)] + split_lines_from(s, e + 1)
            },
        }
    }
}

/// The rows of a JSON Lines text: the pieces between newlines, without the
/// empty piece after a trailing newline.
pub open spec fn jsonl_rows_spec(s: Seq<char>) -> Seq<Seq<char>> {
    let pieces = split_lines_from(s, 0);
    if pieces.len() > 0 && pieces.last().len() == 0 {
        pieces.drop_last()
    } else {
        pieces
    }
}

/// The index of the first empty row from `i` on.
pub open spec fn first_blank_row(rows: Seq<Seq<char>>, i: int) -> Option<int>
    decreases rows.len() - i,
{
    if i < 0 || i >= rows.len() {
        None
    } else if rows[i].len() == 0 {
        Some(i)
    } else {
        first_blank_row(rows, i + 1)
    }
}

/// The views of a list of strings.
pub open spec fn string_views(v: Seq<String>) -> Seq<Seq<char>> {
    v.map_values(|s: String| s@)
}

/// The rows before the first blank row, or all rows when none is blank.
pub open spec fn rows_before_blank(rows: Seq<Seq<char>>) -> Seq<Seq<char>> {
    match first_blank_row(rows, 0) {
        Some(i) => rows.take(i),
        None => rows,
    }
}

/// Splits a JSON Lines text into its rows, up to the first blank row, and
/// gives the one-based line number of that blank row, if there is one.
pub fn jsonl_rows(text: &str) -> (r: (Vec<String>, Option<usize>))
    ensures
        string_views(r.0@) == rows_before_blank(jsonl_rows_spec(text@)),
        match r.1 {
            None => first_blank_row(jsonl_rows_spec(text@), 0) is None,
            Some(line) => first_blank_row(jsonl_rows_spec(text@), 0) matches Some(i) && line == i + 1,
        },
{
    let s = chars_of(text);
    let mut pieces: Vec<Vec<char>> = Vec::new();
    let mut i: usize = 0;
    loop
        invariant_except_break
            i <= s@.len(),
            pieces@.map_values(|p: Vec<char>| p@) + split_lines_from(s@, i as int) == split_lines_from(s@, 0),
        ensures
            pieces@.map_values(|p: Vec<char>| p@) == split_lines_from(s@, 0),
        decreases s@.len() - i,
    {
        proof {
            lemma_find_from(s@, i as int, '\n');
        }
        let ghost before = pieces@;
        match find_char(&s, i, '\n') {
            None => {
                pieces.push(sub_chars(&s, i, s.len()));
                assert(pieces@.map_values(|p: Vec<char>| p@) =~= before.map_values(|p: Vec<char>| p@) + split_lines_from(s@, i as int));
                break ;
            },
            Some(e) => {
                assert(e < s.len());
                pieces.push(sub_chars(&s, i, e));
                assert(pieces@.map_values(|p: Vec<char>| p@) =~= before.map_values(|p: Vec<char>| p@).push(s@.subrange(i as int, e as int)));
                i = e + 1;
            },
        }
    }
    let ghost all = pieces@.map_values(|p: Vec<char>| p@);
    if pieces.len() > 0 && pieces[pieces.len() - 1].len() == 0 {
        pieces.pop();
        assert(pieces@.map_values(|p: Vec<char>| p@) =~= all.drop_last());
    }
    let ghost rows = pieces@.map_values(|p: Vec<char>| p@);
    assert(rows == jsonl_rows_spec(text@));
    let mut out: Vec<String> = Vec::new();
    let mut k: usize = 0;
    while k < pieces.len()
        invariant
            k <= pieces@.len(),
            rows == pieces@.map_values(|p: Vec<char>| p@),
            rows == jsonl_rows_spec(text@),
            first_blank_row(rows, 0) == first_blank_row(rows, k as int),
            string_views(out@) == rows.take(k as int),
            out@.len() == k,
        decreases pieces@.len() - k,
    {
        if pieces[k].len() == 0 {
            assert(rows[k as int].len() == 0);
            return (out, Some(k + 1));
        }
        let ghost before = out@;
        let row = string_of(pieces[k].as_slice());
        out.push(row);
        proof {
            assert(out@ =~= before.push(row));
            assert(rows.take(k + 1) =~= rows.take(k as int).push(rows[k as int]));
            assert(string_views(out@) =~= string_views(before).push(row@));
        }
        k = k + 1;
    }
    assert(rows.take(k as int) =~= rows);
    (out, None)
}

/// The lowercase hex digit for a value below 16.
pub open spec fn hex_digit(d: int) -> char {
    if d < 10 {
        (d + 48) as char
    } else {
        (d + 87) as char
    }
}

/// Two lowercase hex digits per byte.
pub open spec fn hex_spec(b: Seq<u8>) -> Seq<char>
    decreases b.len(),
{
    if b.len() == 0 {
        Seq::empty()
    } else {
        hex_spec(b.drop_last()) + seq![hex_digit(b.last() as int / 16), hex_digit(b.last() as int % 16)]
    }
}

fn hex_char(d: u8) -> (c: char)
    requires
        d < 16,
    ensures
        c == hex_digit(d as int),
{
    if d < 10 {
        (d + 48) as char
    } else {
        (d + 87) as char
    }
}

/// Bytes as lowercase hex text.
pub fn hex_encode(bytes: &[u8]) -> (s: String)
    ensures
        s@ == hex_spec(bytes@),
{
    let mut out: Vec<char> = Vec::new();
    let mut i: usize = 0;
    while i < bytes.len()
        invariant
            i <= bytes@.len(),
            out@ == hex_spec(bytes@.take(i as int)),
        decreases bytes@.len() - i,
    {
        proof {
            assert(bytes@.take(i + 1).drop_last() =~= bytes@.take(i as int));
        }
        let b = bytes[i];
        out.push(hex_char(b / 16));
        out.push(hex_char(b % 16));
        i = i + 1;
    }
    assert(bytes@.take(i as int) =~= bytes@);
    string_of(out.as_slice())
}

/// The lowercase hex SHA-256 of a byte string.
pub fn sha256_hex(bytes: &[u8]) -> (s: String)
    ensures
        s@ == hex_spec(sha256_spec(bytes@)),
{
    let digest = sha256_digest(bytes);
    hex_encode(digest.as_slice())
}

} // verus!
