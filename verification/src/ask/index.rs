//! The embedding index file: a fixed header naming the passages, nodes,
//! corpus and model it was built from, then one record per passage with its
//! node id and the bit patterns of its vector, all little-endian.

use vstd::prelude::*;
use vstd::utf8::{decode_utf8, encode_utf8, valid_utf8};

use crate::ask::bundle::{LoadedBundle, fingerprint_spec};
use crate::ask::model::EmbedIdentity;
use crate::foreign::utf8_text;
use crate::ask::error::{AskError, AskErrorView};
use crate::text::{copy_str, str_eq};

verus! {

/// The bytes an index file starts with, `WHASK1`.
pub open spec fn magic() -> Seq<u8> {
    seq![87u8, 72u8, 65u8, 83u8, 75u8, 49u8]
}

/// The header's length in bytes.
pub const HEADER_LEN: usize = 190;

/// The little-endian bytes of a `u32`.
pub open spec fn u32_bytes(v: u32) -> Seq<u8> {
    seq![(v & 0xff) as u8, ((v >> 8u32) & 0xff) as u8, ((v >> 16u32) & 0xff) as u8, ((v >> 24u32) & 0xff) as u8]
}

/// The little-endian bytes of a `u64`.
pub open spec fn u64_bytes(v: u64) -> Seq<u8> {
    seq![
        (v & 0xff) as u8,
        ((v >> 8u64) & 0xff) as u8,
        ((v >> 16u64) & 0xff) as u8,
        ((v >> 24u64) & 0xff) as u8,
        ((v >> 32u64) & 0xff) as u8,
        ((v >> 40u64) & 0xff) as u8,
        ((v >> 48u64) & 0xff) as u8,
        ((v >> 56u64) & 0xff) as u8,
    ]
}

/// The `u32` stored little-endian at `at`.
pub open spec fn le_u32(b: Seq<u8>, at: int) -> u32 {
    (b[at] as u32) | ((b[at + 1] as u32) << 8u32) | ((b[at + 2] as u32) << 16u32) | ((b[at + 3] as u32) << 24u32)
}

/// The `u64` stored little-endian at `at`.
pub open spec fn le_u64(b: Seq<u8>, at: int) -> u64 {
    (b[at] as u64) | ((b[at + 1] as u64) << 8u64) | ((b[at + 2] as u64) << 16u64) | ((b[at + 3] as u64) << 24u64)
        | ((b[at + 4] as u64) << 32u64) | ((b[at + 5] as u64) << 40u64) | ((b[at + 6] as u64) << 48u64) | ((
    b[at + 7] as u64) << 56u64)
}

proof fn lemma_u32_round_trip(v: u32)
    ensures
        le_u32(u32_bytes(v), 0) == v,
{
    let b = u32_bytes(v);
    let b0 = (v & 0xff) as u8;
    let b1 = ((v >> 8u32) & 0xff) as u8;
    let b2 = ((v >> 16u32) & 0xff) as u8;
    let b3 = ((v >> 24u32) & 0xff) as u8;
    assert(b[0] == b0 && b[1] == b1 && b[2] == b2 && b[3] == b3);
    assert((b0 as u32) | ((b1 as u32) << 8u32) | ((b2 as u32) << 16u32) | ((b3 as u32) << 24u32) == v) by (bit_vector)
        requires
            b0 == (v & 0xff) as u8,
            b1 == ((v >> 8u32) & 0xff) as u8,
            b2 == ((v >> 16u32) & 0xff) as u8,
            b3 == ((v >> 24u32) & 0xff) as u8,
    ;
}

proof fn lemma_u64_round_trip(v: u64)
    ensures
        le_u64(u64_bytes(v), 0) == v,
{
    let b = u64_bytes(v);
    let b0 = (v & 0xff) as u8;
    let b1 = ((v >> 8u64) & 0xff) as u8;
    let b2 = ((v >> 16u64) & 0xff) as u8;
    let b3 = ((v >> 24u64) & 0xff) as u8;
    let b4 = ((v >> 32u64) & 0xff) as u8;
    let b5 = ((v >> 40u64) & 0xff) as u8;
    let b6 = ((v >> 48u64) & 0xff) as u8;
    let b7 = ((v >> 56u64) & 0xff) as u8;
    assert(b[0] == b0 && b[1] == b1 && b[2] == b2 && b[3] == b3);
    assert(b[4] == b4 && b[5] == b5 && b[6] == b6 && b[7] == b7);
    assert((b0 as u64) | ((b1 as u64) << 8u64) | ((b2 as u64) << 16u64) | ((b3 as u64) << 24u64) | ((b4 as u64)
        << 32u64) | ((b5 as u64) << 40u64) | ((b6 as u64) << 48u64) | ((b7 as u64) << 56u64) == v) by (bit_vector)
        requires
            b0 == (v & 0xff) as u8,
            b1 == ((v >> 8u64) & 0xff) as u8,
            b2 == ((v >> 16u64) & 0xff) as u8,
            b3 == ((v >> 24u64) & 0xff) as u8,
            b4 == ((v >> 32u64) & 0xff) as u8,
            b5 == ((v >> 40u64) & 0xff) as u8,
            b6 == ((v >> 48u64) & 0xff) as u8,
            b7 == ((v >> 56u64) & 0xff) as u8,
    ;
}

/// An index header.
#[derive(Debug)]
pub struct Header {
    pub dimension: u32,
    pub count: u32,
    pub passage_sha: [u8; 32],
    pub model_sha: [u8; 32],
    pub nodes_sha: [u8; 32],
    pub fingerprint: [u8; 64],
    pub model_len: u64,
    pub model_mtime: u64,
}

/// An index header as values.
pub struct HeaderView {
    pub dimension: u32,
    pub count: u32,
    pub passage_sha: Seq<u8>,
    pub model_sha: Seq<u8>,
    pub nodes_sha: Seq<u8>,
    pub fingerprint: Seq<u8>,
    pub model_len: u64,
    pub model_mtime: u64,
}

/// The values of a header.
pub open spec fn header_view(h: Header) -> HeaderView {
    HeaderView {
        dimension: h.dimension,
        count: h.count,
        passage_sha: h.passage_sha@,
        model_sha: h.model_sha@,
        nodes_sha: h.nodes_sha@,
        fingerprint: h.fingerprint@,
        model_len: h.model_len,
        model_mtime: h.model_mtime,
    }
}

/// One passage's record: its node id and the bit patterns of its vector.
#[derive(Debug)]
pub struct IndexRecord {
    pub node_id: String,
    pub vector: Vec<u32>,
}

/// A record as values.
pub type RecordView = (Seq<char>, Seq<u32>);

/// The values of a record.
pub open spec fn record_view(r: IndexRecord) -> RecordView {
    (r.node_id@, r.vector@)
}

/// The values of a list of records.
pub open spec fn record_views(v: Seq<IndexRecord>) -> Seq<RecordView> {
    v.map_values(|r: IndexRecord| record_view(r))
}

/// The bytes of a header.
pub open spec fn header_bytes(h: HeaderView) -> Seq<u8> {
    magic() + u32_bytes(h.dimension) + u32_bytes(h.count) + h.passage_sha + h.model_sha + h.nodes_sha
        + h.fingerprint + u64_bytes(h.model_len) + u64_bytes(h.model_mtime)
}

/// The little-endian bytes of each word, in order.
pub open spec fn words_bytes(v: Seq<u32>) -> Seq<u8>
    decreases v.len(),
{
    if v.len() == 0 {
        Seq::empty()
    } else {
        u32_bytes(v[0]) + words_bytes(v.drop_first())
    }
}

/// A record's bytes: the id's byte length, the id's UTF-8 bytes, the vector.
pub open spec fn record_bytes(r: RecordView) -> Seq<u8> {
    u32_bytes(encode_utf8(r.0).len() as u32) + encode_utf8(r.0) + words_bytes(r.1)
}

/// The bytes of each record, in order.
pub open spec fn records_bytes(rs: Seq<RecordView>) -> Seq<u8>
    decreases rs.len(),
{
    if rs.len() == 0 {
        Seq::empty()
    } else {
        record_bytes(rs[0]) + records_bytes(rs.drop_first())
    }
}

/// The bytes of an index file.
pub open spec fn index_bytes_spec(h: HeaderView, rs: Seq<RecordView>) -> Seq<u8> {
    header_bytes(h) + records_bytes(rs)
}

/// The `k` records read from `b` at `cursor` with vectors of `dim` words, or
/// nothing when a length runs past the end or an id is not UTF-8.
pub open spec fn parse_records(b: Seq<u8>, dim: int, cursor: int, k: int) -> Option<Seq<RecordView>>
    decreases k,
{
    if k <= 0 {
        Some(Seq::empty())
    } else if cursor < 0 || cursor + 4 > b.len() {
        None
    } else {
        let id_len = le_u32(b, cursor) as int;
        let c1 = cursor + 4;
        if c1 + id_len > b.len() {
            None
        } else {
            let idb = b.subrange(c1, c1 + id_len);
            let c2 = c1 + id_len;
            if !valid_utf8(idb) || c2 + dim * 4 > b.len() {
                None
            } else {
                let v = Seq::new(dim as nat, |j: int| le_u32(b, c2 + 4 * j));
                match parse_records(b, dim, c2 + dim * 4, k - 1) {
                    Some(rest) => Some(seq![(decode_utf8(idb), v)] + rest),
                    None => None,
                }
            }
        }
    }
}

/// The header and records an index file holds, or nothing when it is short,
/// lacks the magic bytes, or a record does not read.
pub open spec fn parse_index_spec(b: Seq<u8>) -> Option<(HeaderView, Seq<RecordView>)> {
    if b.len() < 190 || b.take(6) != magic() {
        None
    } else {
        let h = HeaderView {
            dimension: le_u32(b, 6),
            count: le_u32(b, 10),
            passage_sha: b.subrange(14, 46),
            model_sha: b.subrange(46, 78),
            nodes_sha: b.subrange(78, 110),
            fingerprint: b.subrange(110, 174),
            model_len: le_u64(b, 174),
            model_mtime: le_u64(b, 182),
        };
        match parse_records(b, h.dimension as int, 190, h.count as int) {
            Some(rs) => Some((h, rs)),
            None => None,
        }
    }
}

proof fn lemma_words_bytes(v: Seq<u32>)
    ensures
        words_bytes(v).len() == 4 * v.len(),
        forall|j: int, t: int|
            0 <= j < v.len() && 0 <= t < 4 ==> #[trigger] words_bytes(v)[4 * j + t] == u32_bytes(v[j])[t],
    decreases v.len(),
{
    if v.len() > 0 {
        let rest = v.drop_first();
        lemma_words_bytes(rest);
        let w = words_bytes(v);
        assert(w == u32_bytes(v[0]) + words_bytes(rest));
        assert forall|j: int, t: int| 0 <= j < v.len() && 0 <= t < 4 implies #[trigger] w[4 * j + t] == u32_bytes(
            v[j],
        )[t] by {
            if j > 0 {
                assert(rest[j - 1] == v[j]);
                assert(4 * j + t - 4 == 4 * (j - 1) + t);
                assert(words_bytes(rest)[4 * (j - 1) + t] == u32_bytes(rest[j - 1])[t]);
            }
        }
    }
}

proof fn lemma_le_u32_at(b: Seq<u8>, at: int, v: u32)
    requires
        0 <= at,
        at + 4 <= b.len(),
        forall|t: int| 0 <= t < 4 ==> #[trigger] b[at + t] == u32_bytes(v)[t],
    ensures
        le_u32(b, at) == v,
{
    lemma_u32_round_trip(v);
    let u = u32_bytes(v);
    assert(b[at] == u[0] && b[at + 1] == u[1] && b[at + 2] == u[2] && b[at + 3] == u[3]) by {
        assert(b[at + 0] == u[0]);
    }
}

proof fn lemma_le_u64_at(b: Seq<u8>, at: int, v: u64)
    requires
        0 <= at,
        at + 8 <= b.len(),
        forall|t: int| 0 <= t < 8 ==> #[trigger] b[at + t] == u64_bytes(v)[t],
    ensures
        le_u64(b, at) == v,
{
    lemma_u64_round_trip(v);
    let u = u64_bytes(v);
    assert(b[at] == u[0] && b[at + 1] == u[1] && b[at + 2] == u[2] && b[at + 3] == u[3]) by {
        assert(b[at + 0] == u[0]);
    }
    assert(b[at + 4] == u[4] && b[at + 5] == u[5] && b[at + 6] == u[6] && b[at + 7] == u[7]);
}

/// The records fit an index: each vector has `dim` words and each id's
/// UTF-8 length fits in a `u32`.
pub open spec fn records_fit(rs: Seq<RecordView>, dim: int) -> bool {
    forall|i: int|
        0 <= i < rs.len() ==> (#[trigger] rs[i]).1.len() == dim && encode_utf8(rs[i].0).len() <= u32::MAX
}

proof fn lemma_parse_records(b: Seq<u8>, dim: int, cursor: int, rs: Seq<RecordView>)
    requires
        0 <= cursor <= b.len(),
        0 <= dim,
        b.subrange(cursor, b.len() as int) == records_bytes(rs),
        records_fit(rs, dim),
    ensures
        parse_records(b, dim, cursor, rs.len() as int) == Some(rs),
    decreases rs.len(),
{
    broadcast use vstd::utf8::encode_utf8_valid_utf8, vstd::utf8::encode_utf8_decode_utf8;

    if rs.len() > 0 {
        let r = rs[0];
        let rest = rs.drop_first();
        let id = encode_utf8(r.0);
        let l = id.len() as int;
        let rb = record_bytes(r);
        let all = b.subrange(cursor, b.len() as int);
        assert(all == rb + records_bytes(rest));
        lemma_words_bytes(r.1);
        assert(rs[0].1.len() == dim);
        assert(rb.len() == 4 + l + 4 * dim);
        assert(forall|i: int| 0 <= i < rb.len() ==> #[trigger] b[cursor + i] == rb[i]) by {
            assert forall|i: int| 0 <= i < rb.len() implies #[trigger] b[cursor + i] == rb[i] by {
                assert(all[i] == b[cursor + i]);
                assert(all[i] == rb[i]);
            }
        }
        assert(l <= u32::MAX);
        assert((l as u32) as int == l);
        lemma_le_u32_at(b, cursor, l as u32);
        let c1 = cursor + 4;
        let c2 = c1 + l;
        assert(b.subrange(c1, c1 + l) =~= id) by {
            assert forall|i: int| 0 <= i < l implies b.subrange(c1, c1 + l)[i] == id[i] by {
                assert(b[cursor + (4 + i)] == rb[4 + i]);
                assert(rb[4 + i] == id[i]);
            }
        }
        let v = Seq::new(dim as nat, |j: int| le_u32(b, c2 + 4 * j));
        assert(v =~= r.1) by {
            assert forall|j: int| 0 <= j < dim implies #[trigger] v[j] == r.1[j] by {
                assert forall|t: int| 0 <= t < 4 implies #[trigger] b[c2 + 4 * j + t] == u32_bytes(r.1[j])[t] by {
                    assert(b[cursor + (4 + l + (4 * j + t))] == rb[4 + l + (4 * j + t)]);
                    assert(cursor + (4 + l + (4 * j + t)) == c2 + 4 * j + t);
                    assert(words_bytes(r.1)[4 * j + t] == u32_bytes(r.1[j])[t]);
                }
                lemma_le_u32_at(b, c2 + 4 * j, r.1[j]);
            }
        }
        let next = c2 + dim * 4;
        assert(next == cursor + rb.len());
        assert(b.subrange(next, b.len() as int) =~= records_bytes(rest)) by {
            assert forall|i: int| 0 <= i < records_bytes(rest).len() implies b.subrange(next, b.len() as int)[i]
                == records_bytes(rest)[i] by {
                assert(all[rb.len() + i] == records_bytes(rest)[i]);
            }
        }
        assert forall|i: int| 0 <= i < rest.len() implies (#[trigger] rest[i]).1.len() == dim && encode_utf8(
            rest[i].0,
        ).len() <= u32::MAX by {
            assert(rest[i] == rs[i + 1]);
        }
        lemma_parse_records(b, dim, next, rest);
        assert(seq![(decode_utf8(id), v)] + rest =~= rs);
    }
}

/// Reading an index file gives back the header and records that were
/// written, when the header counts the records and each record fits it.
pub proof fn lemma_index_round_trip(h: HeaderView, rs: Seq<RecordView>)
    requires
        h.count == rs.len(),
        h.passage_sha.len() == 32,
        h.model_sha.len() == 32,
        h.nodes_sha.len() == 32,
        h.fingerprint.len() == 64,
        records_fit(rs, h.dimension as int),
    ensures
        parse_index_spec(index_bytes_spec(h, rs)) == Some((h, rs)),
{
    let b = index_bytes_spec(h, rs);
    let hb = header_bytes(h);
    assert(hb.len() == 190);
    assert(b.take(6) =~= magic());
    lemma_le_u32_at(b, 6, h.dimension);
    lemma_le_u32_at(b, 10, h.count);
    lemma_le_u64_at(b, 174, h.model_len);
    lemma_le_u64_at(b, 182, h.model_mtime);
    assert(b.subrange(14, 46) =~= h.passage_sha);
    assert(b.subrange(46, 78) =~= h.model_sha);
    assert(b.subrange(78, 110) =~= h.nodes_sha);
    assert(b.subrange(110, 174) =~= h.fingerprint);
    assert(b.subrange(190, b.len() as int) =~= records_bytes(rs));
    lemma_parse_records(b, h.dimension as int, 190, rs);
}

/// An index written for a bundle and a model reads back as reusable for
/// them, and as not reusable once the bundle's passages file hashes
/// differently or the model file hashes differently.
pub proof fn lemma_index_reuse(
    b: LoadedBundle,
    other: LoadedBundle,
    identity: EmbedIdentity,
    other_model: EmbedIdentity,
    dimension: u32,
    rs: Seq<RecordView>,
)
    requires
        rs.len() == b.passages@.len(),
        rs.len() <= u32::MAX,
        records_fit(rs, dimension as int),
        forall|i: int| 0 <= i < rs.len() ==> (#[trigger] rs[i]).0 == b.passages@[i].node_id@,
    ensures
        parse_index_spec(index_bytes_spec(header_for(b, identity, dimension, rs.len()), rs)) matches Some((h, r)) && {
            &&& header_matches_spec(h, b, identity, dimension)
            &&& records_match_spec(r, b)
            &&& other.passages_sha256@ != b.passages_sha256@ ==> !header_matches_spec(h, other, identity, dimension)
            &&& other_model.sha256@ != identity.sha256@ ==> !header_matches_spec(h, b, other_model, dimension)
        },
{
    let h = header_for(b, identity, dimension, rs.len());
    assert(b.passages_sha256@.len() == 32);
    assert(b.nodes_sha256@.len() == 32);
    assert(identity.sha256@.len() == 32);
    assert(fingerprint_spec(b.manifest.corpus_fingerprint@).len() == 64);
    lemma_index_round_trip(h, rs);
}

proof fn lemma_words_bytes_push(v: Seq<u32>, w: u32)
    ensures
        words_bytes(v.push(w)) == words_bytes(v) + u32_bytes(w),
    decreases v.len(),
{
    if v.len() == 0 {
        assert(v.push(w).drop_first() =~= Seq::<u32>::empty());
        assert(words_bytes(v.push(w).drop_first()) == Seq::<u8>::empty());
        assert(v.push(w)[0] == w);
        assert(words_bytes(v) == Seq::<u8>::empty());
        assert(words_bytes(v.push(w)) =~= u32_bytes(w));
    } else {
        assert(v.push(w).drop_first() =~= v.drop_first().push(w));
        lemma_words_bytes_push(v.drop_first(), w);
        assert(words_bytes(v.push(w)) =~= u32_bytes(v[0]) + (words_bytes(v.drop_first()) + u32_bytes(w)));
    }
}

proof fn lemma_records_bytes_push(rs: Seq<RecordView>, r: RecordView)
    ensures
        records_bytes(rs.push(r)) == records_bytes(rs) + record_bytes(r),
    decreases rs.len(),
{
    if rs.len() == 0 {
        assert(rs.push(r).drop_first() =~= Seq::<RecordView>::empty());
        assert(records_bytes(rs.push(r).drop_first()) == Seq::<u8>::empty());
        assert(rs.push(r)[0] == r);
        assert(records_bytes(rs) == Seq::<u8>::empty());
        assert(records_bytes(rs.push(r)) =~= record_bytes(r));
    } else {
        assert(rs.push(r).drop_first() =~= rs.drop_first().push(r));
        lemma_records_bytes_push(rs.drop_first(), r);
        assert(records_bytes(rs.push(r)) =~= record_bytes(rs[0]) + (records_bytes(rs.drop_first()) + record_bytes(r)));
    }
}

fn push_u32(out: &mut Vec<u8>, v: u32)
    ensures
        final(out)@ == old(out)@ + u32_bytes(v),
{
    out.push((v & 0xff) as u8);
    out.push(((v >> 8u32) & 0xff) as u8);
    out.push(((v >> 16u32) & 0xff) as u8);
    out.push(((v >> 24u32) & 0xff) as u8);
    assert(final(out)@ =~= old(out)@ + u32_bytes(v));
}

fn push_u64(out: &mut Vec<u8>, v: u64)
    ensures
        final(out)@ == old(out)@ + u64_bytes(v),
{
    out.push((v & 0xff) as u8);
    out.push(((v >> 8u64) & 0xff) as u8);
    out.push(((v >> 16u64) & 0xff) as u8);
    out.push(((v >> 24u64) & 0xff) as u8);
    out.push(((v >> 32u64) & 0xff) as u8);
    out.push(((v >> 40u64) & 0xff) as u8);
    out.push(((v >> 48u64) & 0xff) as u8);
    out.push(((v >> 56u64) & 0xff) as u8);
    assert(final(out)@ =~= old(out)@ + u64_bytes(v));
}

fn push_bytes(out: &mut Vec<u8>, b: &[u8])
    ensures
        final(out)@ == old(out)@ + b@,
{
    let ghost start = out@;
    let mut i: usize = 0;
    while i < b.len()
        invariant
            i <= b@.len(),
            out@ == start + b@.take(i as int),
        decreases b@.len() - i,
    {
        out.push(b[i]);
        assert(b@.take(i + 1) =~= b@.take(i as int).push(b@[i as int]));
        i = i + 1;
    }
    assert(b@.take(i as int) =~= b@);
}

/// The header written for a bundle, an embedding model and `count` records.
pub open spec fn header_for(b: LoadedBundle, identity: EmbedIdentity, dimension: u32, count: nat) -> HeaderView {
    HeaderView {
        dimension,
        count: count as u32,
        passage_sha: b.passages_sha256@,
        model_sha: identity.sha256@,
        nodes_sha: b.nodes_sha256@,
        fingerprint: fingerprint_spec(b.manifest.corpus_fingerprint@),
        model_len: identity.len,
        model_mtime: identity.mtime_secs,
    }
}

/// The bytes of the index for a bundle, an embedding model and its records.
pub fn index_bytes(
    bundle: &LoadedBundle,
    identity: &EmbedIdentity,
    dimension: u32,
    records: &Vec<IndexRecord>,
) -> (r: Vec<u8>)
    ensures
        r@ == index_bytes_spec(
            header_for(*bundle, *identity, dimension, records@.len()),
            record_views(records@),
        ),
{
    let mut out: Vec<u8> = Vec::new();
    out.push(87u8);
    out.push(72u8);
    out.push(65u8);
    out.push(83u8);
    out.push(75u8);
    out.push(49u8);
    assert(out@ =~= magic());
    push_u32(&mut out, dimension);
    push_u32(&mut out, records.len() as u32);
    push_bytes(&mut out, bundle.passages_sha256.as_slice());
    push_bytes(&mut out, identity.sha256.as_slice());
    push_bytes(&mut out, bundle.nodes_sha256.as_slice());
    let fp = bundle.fingerprint_bytes();
    push_bytes(&mut out, fp.as_slice());
    push_u64(&mut out, identity.len);
    push_u64(&mut out, identity.mtime_secs);
    let ghost head = out@;
    assert(head == header_bytes(header_for(*bundle, *identity, dimension, records@.len())));
    let ghost rv = record_views(records@);
    let mut i: usize = 0;
    while i < records.len()
        invariant
            i <= records@.len(),
            rv == record_views(records@),
            out@ == head + records_bytes(rv.take(i as int)),
        decreases records@.len() - i,
    {
        let rec = &records[i];
        let ghost before = out@;
        let id = rec.node_id.as_str().as_bytes();
        push_u32(&mut out, id.len() as u32);
        push_bytes(&mut out, id);
        let ghost mid = out@;
        let mut j: usize = 0;
        while j < rec.vector.len()
            invariant
                j <= rec.vector@.len(),
                out@ == mid + words_bytes(rec.vector@.take(j as int)),
            decreases rec.vector@.len() - j,
        {
            proof {
                lemma_words_bytes_push(rec.vector@.take(j as int), rec.vector@[j as int]);
                assert(rec.vector@.take(j + 1) =~= rec.vector@.take(j as int).push(rec.vector@[j as int]));
            }
            push_u32(&mut out, rec.vector[j]);
            j = j + 1;
        }
        proof {
            assert(rec.vector@.take(j as int) =~= rec.vector@);
            assert(rv[i as int] == record_view(*rec));
            lemma_records_bytes_push(rv.take(i as int), rv[i as int]);
            assert(rv.take(i + 1) =~= rv.take(i as int).push(rv[i as int]));
        }
        i = i + 1;
    }
    assert(rv.take(i as int) =~= rv);
    out
}

fn read_u32(b: &[u8], at: usize) -> (v: u32)
    requires
        at + 4 <= b@.len(),
    ensures
        v == le_u32(b@, at as int),
{
    (b[at] as u32) | ((b[at + 1] as u32) << 8u32) | ((b[at + 2] as u32) << 16u32) | ((b[at + 3] as u32) << 24u32)
}

fn read_u64(b: &[u8], at: usize) -> (v: u64)
    requires
        at + 8 <= b@.len(),
    ensures
        v == le_u64(b@, at as int),
{
    (b[at] as u64) | ((b[at + 1] as u64) << 8u64) | ((b[at + 2] as u64) << 16u64) | ((b[at + 3] as u64) << 24u64)
        | ((b[at + 4] as u64) << 32u64) | ((b[at + 5] as u64) << 40u64) | ((b[at + 6] as u64) << 48u64) | ((
    b[at + 7] as u64) << 56u64)
}

fn array32(b: &[u8], at: usize) -> (r: [u8; 32])
    requires
        at + 32 <= b@.len(),
    ensures
        r@ == b@.subrange(at as int, at + 32),
{
    let blen = b.len();
    let mut out = [0u8; 32];
    let mut i: usize = 0;
    while i < 32
        invariant
            i <= 32,
            blen == b@.len(),
            at + 32 <= b@.len(),
            out@ == Seq::new(32, |j: int| if j < i { b@[at + j] } else { 0u8 }),
        decreases 32 - i,
    {
        out[i] = b[at + i];
        i = i + 1;
        assert(out@ =~= Seq::new(32, |j: int| if j < i { b@[at + j] } else { 0u8 }));
    }
    assert(out@ =~= b@.subrange(at as int, at + 32));
    out
}

fn array64(b: &[u8], at: usize) -> (r: [u8; 64])
    requires
        at + 64 <= b@.len(),
    ensures
        r@ == b@.subrange(at as int, at + 64),
{
    let blen = b.len();
    let mut out = [0u8; 64];
    let mut i: usize = 0;
    while i < 64
        invariant
            i <= 64,
            blen == b@.len(),
            at + 64 <= b@.len(),
            out@ == Seq::new(64, |j: int| if j < i { b@[at + j] } else { 0u8 }),
        decreases 64 - i,
    {
        out[i] = b[at + i];
        i = i + 1;
        assert(out@ =~= Seq::new(64, |j: int| if j < i { b@[at + j] } else { 0u8 }));
    }
    assert(out@ =~= b@.subrange(at as int, at + 64));
    out
}

fn copy_range(b: &[u8], from: usize, to: usize) -> (r: Vec<u8>)
    requires
        from <= to <= b@.len(),
    ensures
        r@ == b@.subrange(from as int, to as int),
{
    let mut r: Vec<u8> = Vec::new();
    let mut i = from;
    while i < to
        invariant
            from <= i <= to <= b@.len(),
            r@ == b@.subrange(from as int, i as int),
        decreases to - i,
    {
        r.push(b[i]);
        i = i + 1;
        assert(r@ =~= b@.subrange(from as int, i as int));
    }
    r
}

/// Reads an index file: its header and records, or nothing when the file is
/// short, lacks the magic bytes, or a record runs past the end or has an id
/// that is not UTF-8.
pub fn read_index(bytes: &[u8]) -> (r: Option<(Header, Vec<IndexRecord>)>)
    ensures
        match r {
            Some((h, rs)) => parse_index_spec(bytes@) == Some((header_view(h), record_views(rs@))),
            None => parse_index_spec(bytes@) is None,
        },
{
    if bytes.len() < HEADER_LEN {
        return None;
    }
    if !(bytes[0] == 87 && bytes[1] == 72 && bytes[2] == 65 && bytes[3] == 83 && bytes[4] == 75 && bytes[5] == 49) {
        proof {
            if bytes@.take(6) == magic() {
                assert(bytes@.take(6)[0] == 87u8 && bytes@.take(6)[5] == 49u8);
            }
        }
        return None;
    }
    assert(bytes@.take(6) =~= magic());
    let h = Header {
        dimension: read_u32(bytes, 6),
        count: read_u32(bytes, 10),
        passage_sha: array32(bytes, 14),
        model_sha: array32(bytes, 46),
        nodes_sha: array32(bytes, 78),
        fingerprint: array64(bytes, 110),
        model_len: read_u64(bytes, 174),
        model_mtime: read_u64(bytes, 182),
    };
    let ghost b = bytes@;
    let blen = bytes.len();
    let dim = h.dimension;
    let count = h.count;
    let mut cursor: usize = HEADER_LEN;
    let mut recs: Vec<IndexRecord> = Vec::new();
    let mut k: u32 = 0;
    while k < count
        invariant
            b == bytes@,
            blen == bytes@.len(),
            b.len() >= 190,
            b.take(6) == magic(),
            dim == le_u32(b, 6),
            count == le_u32(b, 10),
            190 <= cursor <= bytes@.len(),
            k <= count,
            parse_records(b, dim as int, 190, count as int) == match parse_records(b, dim as int, cursor as int, (count - k) as int) {
                Some(rest) => Some(record_views(recs@) + rest),
                None => None::<Seq<RecordView>>,
            },
        decreases count - k,
    {
        if bytes.len() - cursor < 4 {
            assert(parse_records(b, dim as int, cursor as int, (count - k) as int) is None);
            return None;
        }
        let id_len = read_u32(bytes, cursor) as usize;
        let c1 = cursor + 4;
        if bytes.len() - c1 < id_len {
            assert(parse_records(b, dim as int, cursor as int, (count - k) as int) is None);
            return None;
        }
        let idb = copy_range(bytes, c1, c1 + id_len);
        let c2 = c1 + id_len;
        let text = match utf8_text(idb.as_slice()) {
            Some(t) => t,
            None => {
                return None;
            },
        };
        if ((bytes.len() - c2) as u64) < (dim as u64) * 4 {
            return None;
        }
        let vlen = (dim as usize) * 4;
        let mut v: Vec<u32> = Vec::new();
        let mut j: usize = 0;
        while j < dim as usize
            invariant
                b == bytes@,
                blen == bytes@.len(),
                c2 + vlen <= bytes@.len(),
                vlen == dim * 4,
                j <= dim,
                v@ == Seq::new(j as nat, |m: int| le_u32(b, c2 + 4 * m)),
            decreases dim - j,
        {
            v.push(read_u32(bytes, c2 + 4 * j));
            j = j + 1;
            assert(v@ =~= Seq::new(j as nat, |m: int| le_u32(b, c2 + 4 * m)));
        }
        let rec = IndexRecord { node_id: copy_str(text), vector: v };
        let ghost before = record_views(recs@);
        recs.push(rec);
        proof {
            assert(record_views(recs@) =~= before.push((decode_utf8(b.subrange(c1 as int, c2 as int)), Seq::new(
                dim as nat,
                |m: int| le_u32(b, c2 + 4 * m),
            ))));
            let next = parse_records(b, dim as int, (c2 + vlen) as int, (count - k - 1) as int);
            match next {
                Some(rest) => {
                    assert(before + (seq![(decode_utf8(b.subrange(c1 as int, c2 as int)), Seq::new(
                        dim as nat,
                        |m: int| le_u32(b, c2 + 4 * m),
                    ))] + rest) =~= record_views(recs@) + rest);
                },
                None => {},
            }
        }
        cursor = c2 + vlen;
        k = k + 1;
    }
    Some((h, recs))
}

fn same_bytes(a: &[u8], b: &[u8]) -> (r: bool)
    ensures
        r == (a@ == b@),
{
    if a.len() != b.len() {
        return false;
    }
    let mut i: usize = 0;
    while i < a.len()
        invariant
            i <= a@.len() == b@.len(),
            forall|j: int| 0 <= j < i ==> a@[j] == b@[j],
        decreases a@.len() - i,
    {
        if a[i] != b[i] {
            return false;
        }
        i = i + 1;
    }
    assert(a@ =~= b@);
    true
}

/// The stored header was written for this bundle and model: same dimension,
/// passage count, passage, node and model hashes, and corpus fingerprint.
pub open spec fn header_matches_spec(h: HeaderView, b: LoadedBundle, identity: EmbedIdentity, dimension: u32) -> bool {
    &&& h.dimension == dimension
    &&& h.count == b.passages@.len() as u32
    &&& h.passage_sha == b.passages_sha256@
    &&& h.nodes_sha == b.nodes_sha256@
    &&& h.fingerprint == fingerprint_spec(b.manifest.corpus_fingerprint@)
    &&& h.model_sha == identity.sha256@
}

/// Whether a stored header was written for this bundle and model.
pub fn header_matches(header: &Header, bundle: &LoadedBundle, identity: &EmbedIdentity, dimension: u32) -> (r: bool)
    ensures
        r == header_matches_spec(header_view(*header), *bundle, *identity, dimension),
{
    let fp = bundle.fingerprint_bytes();
    header.dimension == dimension && header.count == bundle.passages.len() as u32 && same_bytes(
        header.passage_sha.as_slice(),
        bundle.passages_sha256.as_slice(),
    ) && same_bytes(header.nodes_sha.as_slice(), bundle.nodes_sha256.as_slice()) && same_bytes(
        header.fingerprint.as_slice(),
        fp.as_slice(),
    ) && same_bytes(header.model_sha.as_slice(), identity.sha256.as_slice())
}

/// The stored records are one per passage, in passage order.
pub open spec fn records_match_spec(rs: Seq<RecordView>, b: LoadedBundle) -> bool {
    &&& rs.len() == b.passages@.len()
    &&& forall|i: int| 0 <= i < rs.len() ==> (#[trigger] rs[i]).0 == b.passages@[i].node_id@
}

/// Whether the stored records are one per passage, in passage order.
pub fn records_match(records: &Vec<IndexRecord>, bundle: &LoadedBundle) -> (r: bool)
    ensures
        r == records_match_spec(record_views(records@), *bundle),
{
    if records.len() != bundle.passages.len() {
        return false;
    }
    let mut i: usize = 0;
    while i < records.len()
        invariant
            i <= records@.len() == bundle.passages@.len(),
            forall|j: int| 0 <= j < i ==> (#[trigger] record_views(records@)[j]).0 == bundle.passages@[j].node_id@,
        decreases records@.len() - i,
    {
        if !str_eq(records[i].node_id.as_str(), bundle.passages[i].node_id.as_str()) {
            assert(record_views(records@)[i as int].0 != bundle.passages@[i as int].node_id@);
            return false;
        }
        assert(record_views(records@)[i as int].0 == bundle.passages@[i as int].node_id@);
        i = i + 1;
    }
    true
}

/// A stored index can stand in for embedding the passages again: its header
/// was written for this bundle and model, and it holds one record per
/// passage in passage order.
pub fn index_reusable(header: &Header, records: &Vec<IndexRecord>, bundle: &LoadedBundle, identity: &EmbedIdentity, dimension: u32) -> (r: bool)
    ensures
        r == (header_matches_spec(header_view(*header), *bundle, *identity, dimension) && records_match_spec(
            record_views(records@),
            *bundle,
        )),
{
    header_matches(header, bundle, identity, dimension) && records_match(records, bundle)
}

/// A stored header was written for a model file of this length and
/// modification time.
pub fn same_model_file(header: &Header, len: u64, mtime_secs: u64) -> (r: bool)
    ensures
        r == (header.model_len == len && header.model_mtime == mtime_secs),
{
    header.model_len == len && header.model_mtime == mtime_secs
}

/// Refuses a passage vector whose length is not the model's dimension.
pub fn check_dimension(len: usize, dimension: u32) -> (r: Result<(), AskError>)
    ensures
        r is Ok <==> len == dimension,
        r matches Err(e) ==> e@ == AskErrorView::Model("embedding dimension does not match the model"@),
{
    if len != dimension as usize {
        return Err(AskError::model("embedding dimension does not match the model"));
    }
    Ok(())
}

} // verus!
