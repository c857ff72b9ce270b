//! Calls into `sha2`, `caseless`, `serde_json` and the standard library.
//! Each contract here is taken on trust; the doc comment of each item says
//! what it claims of the function it calls.

use sha2::Digest;
use vstd::prelude::*;
use vstd::utf8::{decode_utf8, valid_utf8};

use crate::jsonl::hex_digit;

verus! {

/// The SHA-256 digest of a byte string.
pub uninterp spec fn sha256_spec(data: Seq<u8>) -> Seq<u8>;

/// `sha2::Sha256::digest`: the SHA-256 digest of `data`, named by
/// `sha256_spec`; the digest is 32 bytes (the hasher's `OutputSize` is `U32`).
#[verifier::external_body]
pub(crate) fn sha256_digest(data: &[u8]) -> (r: Vec<u8>)
    ensures
        r@ == sha256_spec(data@),
        r@.len() == 32,
{
    sha2::Sha256::digest(data).to_vec()
}

/// Unicode default case folding of a string.
pub uninterp spec fn case_fold_spec(s: Seq<char>) -> Seq<char>;

/// `caseless::default_case_fold_str`: the default case folding of `s`, named
/// by `case_fold_spec`.
#[verifier::external_body]
pub(crate) fn case_fold(s: &str) -> (r: String)
    ensures
        r@ == case_fold_spec(s@),
{
    caseless::default_case_fold_str(s)
}

/// How JSON writes one character inside a string literal: a quote and a
/// backslash each after a backslash; backspace, tab, newline, form feed and
/// carriage return as a backslash and `b`, `t`, `n`, `f`, `r`; any other
/// character below U+0020 as a backslash, `u00` and two lowercase hex
/// digits; every other character as itself.
pub open spec fn json_char(c: char) -> Seq<char> {
    if c == '"' {
        seq!['\\', '"']
    } else if c == '\\' {
        seq!['\\', '\\']
    } else if c == '\u{8}' {
        seq!['\\', 'b']
    } else if c == '\t' {
        seq!['\\', 't']
    } else if c == '\n' {
        seq!['\\', 'n']
    } else if c == '\u{c}' {
        seq!['\\', 'f']
    } else if c == '\r' {
        seq!['\\', 'r']
    } else if (c as int) < 0x20 {
        seq!['\\', 'u', '0', '0', hex_digit(c as int / 16), hex_digit(c as int % 16)]
    } else {
        seq![c]
    }
}

/// The characters of `s`, each as JSON writes it inside a string literal.
pub open spec fn json_escaped(s: Seq<char>) -> Seq<char>
    decreases s.len(),
{
    if s.len() == 0 {
        Seq::empty()
    } else {
        json_escaped(s.drop_last()) + json_char(s.last())
    }
}

/// The JSON string literal for a string: a quote, its characters escaped,
/// a quote.
pub open spec fn json_string_spec(s: Seq<char>) -> Seq<char> {
    seq!['"'] + json_escaped(s) + seq!['"']
}

/// `serde_json::to_string` on a `&str`: the quoted JSON literal, escaped as
/// `json_char` says (serde_json's `ESCAPE` table and `write_char_escape`). Serializing a `str` writes into a `Vec<u8>`,
/// which cannot fail, so the error arm is never taken.
#[verifier::external_body]
pub(crate) fn json_string(s: &str) -> (r: String)
    ensures
        r@ == json_string_spec(s@),
{
    match serde_json::to_string(s) {
        Ok(text) => text,
        Err(_) => String::new(),
    }
}

/// `std::str::from_utf8`: the text the bytes encode when they are valid
/// UTF-8 (the standard definition: no overlong forms, no surrogates, nothing
/// above U+10FFFF), and nothing otherwise.
#[verifier::external_body]
pub(crate) fn utf8_text(bytes: &[u8]) -> (r: Option<&str>)
    ensures
        match r {
            Some(s) => valid_utf8(bytes@) && s@ == decode_utf8(bytes@),
            None => !valid_utf8(bytes@),
        },
{
    std::str::from_utf8(bytes).ok()
}

} // verus!
