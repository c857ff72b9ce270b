//! The answerer's saved settings and their defaults.

use vstd::prelude::*;

use crate::text::{chars_of, copy_str, trim, trim_chars};

verus! {

/// Passages retrieved when nothing else is set.
pub const DEFAULT_TOP_K: u32 = 8;

/// Answer tokens reserved out of the context when nothing else is set.
pub const DEFAULT_RESERVE: u32 = 1024;

/// What the settings screen remembers.
#[derive(Debug, PartialEq, Eq)]
pub struct Settings {
    pub bundle: Option<String>,
    pub chat_model: Option<String>,
    pub embed_model: Option<String>,
    pub top_k: u32,
    pub context_reserve: u32,
}

impl Default for Settings {
    fn default() -> (s: Settings)
        ensures
            s.bundle is None,
            s.chat_model is None,
            s.embed_model is None,
            s.top_k == DEFAULT_TOP_K,
            s.context_reserve == DEFAULT_RESERVE,
    {
        Settings { bundle: None, chat_model: None, embed_model: None, top_k: DEFAULT_TOP_K, context_reserve: DEFAULT_RESERVE }
    }
}

/// Loaded settings with a `top_k` outside 1..=32 set back to the default.
pub fn sanitize_settings(settings: Settings) -> (s: Settings)
    ensures
        s.bundle == settings.bundle,
        s.chat_model == settings.chat_model,
        s.embed_model == settings.embed_model,
        s.context_reserve == settings.context_reserve,
        s.top_k == if 1 <= settings.top_k <= 32 { settings.top_k } else { DEFAULT_TOP_K },
{
    let mut s = settings;
    if !(1 <= s.top_k && s.top_k <= 32) {
        s.top_k = DEFAULT_TOP_K;
    }
    s
}

/// The answer tokens a command-line query reserves.
pub fn query_reserve() -> (n: usize)
    ensures
        n == DEFAULT_RESERVE,
{
    DEFAULT_RESERVE as usize
}

/// The `top_k` a command-line query uses: the default when none is given,
/// the given value when it is from 1 to 32, and nothing otherwise.
pub fn query_top_k(given: Option<i64>) -> (r: Option<usize>)
    ensures
        match given {
            None => r == Some(DEFAULT_TOP_K as usize),
            Some(v) => if 1 <= v <= 32 { r == Some(v as usize) } else { r is None },
        },
{
    match given {
        None => Some(DEFAULT_TOP_K as usize),
        Some(v) => if 1 <= v && v <= 32 {
            Some(v as usize)
        } else {
            None
        },
    }
}

/// The `top_k` a form submits: its value brought into 1 to 32.
pub fn clamp_top_k(top_k: u32) -> (r: u32)
    ensures
        r == if top_k < 1 {
            1
        } else if top_k > 32 {
            32
        } else {
            top_k
        },
{
    if top_k < 1 {
        1
    } else if top_k > 32 {
        32
    } else {
        top_k
    }
}

/// The status shown while a submitted question is answered: the index is
/// built first when an embedding model is set.
pub fn working_status(embed_model: &str) -> (r: String)
    ensures
        r@ == if trim(embed_model@).len() == 0 {
            "Working…"@
        } else {
            "Building index…"@
        },
{
    if trim_chars(&chars_of(embed_model)).len() == 0 {
        copy_str("Working…")
    } else {
        copy_str("Building index…")
    }
}

} // verus!
