//! Corpus v1 entities as the graph builder reads them.

use vstd::prelude::*;

use crate::foreign::sha256_spec;
use crate::graph::error::{GraphError, GraphErrorView, colon_join};
use crate::jsonl::{first_blank_row, hex_spec, jsonl_rows, jsonl_rows_spec, rows_before_blank, sha256_hex, string_views};
use crate::text::{append_str, chars_of, copy_str, decimal, decimal_spec, str_eq, string_of};

verus! {

/// One row of `entities.jsonl`: its id, its source table, its string fields
/// and its references to other entities (a reference may be null).
#[derive(Debug)]
pub struct Entity {
    pub id: String,
    pub table: String,
    pub fields: Vec<(String, String)>,
    pub refs: Vec<(String, Option<String>)>,
}

/// A corpus v1 directory as read: its manifest values, its entities in file
/// order, and the SHA-256 of `entities.jsonl`.
#[derive(Debug)]
pub struct Corpus {
    pub edition: String,
    pub last_update: String,
    pub entities: Vec<Entity>,
    pub fingerprint: String,
}

/// The value of the first field named `name` from `i` on.
pub open spec fn lookup_field(fields: Seq<(String, String)>, name: Seq<char>, i: int) -> Option<Seq<char>>
    decreases fields.len() - i,
{
    if i < 0 || i >= fields.len() {
        None
    } else if fields[i].0@ == name {
        Some(fields[i].1@)
    } else {
        lookup_field(fields, name, i + 1)
    }
}

/// The field `name` of an entity, or the empty string when it has none.
pub open spec fn field_spec(e: Entity, name: Seq<char>) -> Seq<char> {
    match lookup_field(e.fields@, name, 0) {
        Some(v) => v,
        None => Seq::empty(),
    }
}

/// The first reference named `name` from `i` on.
pub open spec fn lookup_ref(refs: Seq<(String, Option<String>)>, name: Seq<char>, i: int) -> Option<Option<Seq<char>>>
    decreases refs.len() - i,
{
    if i < 0 || i >= refs.len() {
        None
    } else if refs[i].0@ == name {
        Some(
            match refs[i].1 {
                Some(v) => Some(v@),
                None => None,
            },
        )
    } else {
        lookup_ref(refs, name, i + 1)
    }
}

/// The id that reference `name` points at, when it is present, not null and
/// not empty.
pub open spec fn ref_spec(e: Entity, name: Seq<char>) -> Option<Seq<char>> {
    match lookup_ref(e.refs@, name, 0) {
        Some(Some(v)) => if v.len() > 0 {
            Some(v)
        } else {
            None
        },
        _ => None,
    }
}

/// The field `name` of an entity, or `""`.
pub fn field<'a>(entity: &'a Entity, name: &str) -> (r: &'a str)
    ensures
        r@ == field_spec(*entity, name@),
{
    let mut i: usize = 0;
    while i < entity.fields.len()
        invariant
            i <= entity.fields@.len(),
            lookup_field(entity.fields@, name@, 0) == lookup_field(entity.fields@, name@, i as int),
        decreases entity.fields@.len() - i,
    {
        if str_eq(entity.fields[i].0.as_str(), name) {
            return entity.fields[i].1.as_str();
        }
        i = i + 1;
    }
    proof {
        reveal_strlit("");
    }
    ""
}

/// The id that reference `name` points at, unless it is missing, null or empty.
pub fn ref_id<'a>(entity: &'a Entity, name: &str) -> (r: Option<&'a str>)
    ensures
        match r {
            Some(v) => ref_spec(*entity, name@) == Some(v@),
            None => ref_spec(*entity, name@) is None,
        },
{
    let mut i: usize = 0;
    while i < entity.refs.len()
        invariant
            i <= entity.refs@.len(),
            lookup_ref(entity.refs@, name@, 0) == lookup_ref(entity.refs@, name@, i as int),
        decreases entity.refs@.len() - i,
    {
        if str_eq(entity.refs[i].0.as_str(), name) {
            return match &entity.refs[i].1 {
                Some(v) => if !v.as_str().is_empty() {
                    proof {
                        assert(v@.len() > 0);
                    }
                    Some(v.as_str())
                } else {
                    proof {
                        assert(v@.len() == 0);
                    }
                    None
                },
                None => None,
            };
        }
        i = i + 1;
    }
    None
}

/// Refuses a corpus manifest whose `schema_version` is not the number 1;
/// `found` is the version as the manifest writes it.
pub fn check_schema_version(version: Option<u64>, found: &str, manifest_path: &str) -> (r: Result<(), GraphError>)
    ensures
        r is Ok <==> version == Some(1u64),
        r matches Err(e) ==> e@ == GraphErrorView::Read(
            colon_join(manifest_path@, "schema_version is not 1 (found "@ + found@ + ")"@),
        ),
{
    if version != Some(1u64) {
        let mut m = chars_of("schema_version is not 1 (found ");
        append_str(&mut m, found);
        append_str(&mut m, ")");
        return Err(GraphError::read(manifest_path, string_of(m.as_slice()).as_str()));
    }
    Ok(())
}

/// The rows of `entities.jsonl` up to its first blank row, and that blank
/// row refused with its one-based line number, if there is one. The rows
/// before it are parsed first, so that a malformed row above a blank one is
/// reported first.
pub fn corpus_rows(path: &str, text: &str) -> (r: (Vec<String>, Result<(), GraphError>))
    ensures
        string_views(r.0@) == rows_before_blank(jsonl_rows_spec(text@)),
        match r.1 {
            Ok(_) => first_blank_row(jsonl_rows_spec(text@), 0) is None,
            Err(e) => first_blank_row(jsonl_rows_spec(text@), 0) matches Some(i) && e@ == GraphErrorView::Read(
                colon_join(path@, "blank line "@ + decimal_spec((i + 1) as nat)),
            ),
        },
{
    let (rows, blank) = jsonl_rows(text);
    match blank {
        None => (rows, Ok(())),
        Some(line) => {
            let mut m = chars_of("blank line ");
            append_str(&mut m, decimal(line).as_str());
            (rows, Err(GraphError::read(path, string_of(m.as_slice()).as_str())))
        },
    }
}

/// The corpus of a manifest's edition and update date and the entities of
/// `entities.jsonl`, fingerprinted by the file's SHA-256 in lowercase hex.
pub fn corpus_from(edition: &str, last_update: &str, entities: Vec<Entity>, entity_bytes: &[u8]) -> (c: Corpus)
    ensures
        c.edition@ == edition@,
        c.last_update@ == last_update@,
        c.entities == entities,
        c.fingerprint@ == hex_spec(sha256_spec(entity_bytes@)),
{
    Corpus {
        edition: copy_str(edition),
        last_update: copy_str(last_update),
        entities,
        fingerprint: sha256_hex(entity_bytes),
    }
}

} // verus!
