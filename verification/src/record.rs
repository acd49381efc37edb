//! The persisted vector record, the in-process text chunk, and the fixed
//! binary encoding under which records are kept in the durable store: every
//! string is length-prefixed UTF-8, every embedding entry an offset 64-bit
//! little-endian word.

use vstd::prelude::*;
use vstd::bytes::{spec_u64_to_le_bytes, spec_u64_from_le_bytes, lemma_auto_spec_u64_to_from_le_bytes, u64_to_le_bytes, u64_from_le_bytes};
use vstd::utf8::{encode_utf8, decode_utf8, valid_utf8};
use vstd::string::StrSliceExecFns;
use vstd::string::StringSliceAdditionalSpecFns;
use crate::{COMP_MAX, DIM_MAX, EMBED_DIM, valid_vector};

verus! {

/// A record as kept in the vector store.
pub struct VectorDocument {
    /// Primary key, unique within a store.
    pub id: String,
    /// The chunk text itself.
    pub content: String,
    /// Exact address of the page the chunk came from.
    pub source_url: String,
    /// Title of that page.
    pub source_title: String,
    /// Fixed-point embedding vector.
    pub embedding: Vec<i64>,
    /// Free-form string pairs describing the chunk.
    pub metadata: Vec<(String, String)>,
}

/// A chunk held in the in-process cache, the fallback search surface.
pub struct TextChunk {
    /// Identifier derived from the sanitized source title and the chunk's
    /// ordinal index.
    pub id: String,
    /// The chunk text itself.
    pub content: String,
    /// Exact address of the page the chunk came from.
    pub source_url: String,
    /// Title of that page.
    pub source_title: String,
    /// Fixed-point embedding vector, once one has been attached.
    pub embedding: Option<Vec<i64>>,
    /// Free-form string pairs describing the chunk.
    pub metadata: Vec<(String, String)>,
}

/// Mathematical image of a [`VectorDocument`].
pub ghost struct DocV {
    pub id: Seq<char>,
    pub content: Seq<char>,
    pub source_url: Seq<char>,
    pub source_title: Seq<char>,
    pub embedding: Seq<i64>,
    pub metadata: Seq<(Seq<char>, Seq<char>)>,
}

impl View for VectorDocument {
    type V = DocV;

    open spec fn view(&self) -> DocV {
        DocV {
            id: self.id@,
            content: self.content@,
            source_url: self.source_url@,
            source_title: self.source_title@,
            embedding: self.embedding@,
            metadata: self.metadata@.map_values(|p: (String, String)| (p.0@, p.1@)),
        }
    }
}

/// A record is storable when its embedding is valid and of the fixed
/// dimensionality.
pub open spec fn storable_doc(d: DocV) -> bool {
    valid_vector(d.embedding) && d.embedding.len() == EMBED_DIM
}

/// Mathematical image of a [`TextChunk`].
pub ghost struct ChunkV {
    pub id: Seq<char>,
    pub content: Seq<char>,
    pub source_url: Seq<char>,
    pub source_title: Seq<char>,
    pub embedding: Option<Seq<i64>>,
    pub metadata: Seq<(Seq<char>, Seq<char>)>,
}

impl View for TextChunk {
    type V = ChunkV;

    open spec fn view(&self) -> ChunkV {
        ChunkV {
            id: self.id@,
            content: self.content@,
            source_url: self.source_url@,
            source_title: self.source_title@,
            embedding: match self.embedding {
                Some(e) => Some(e@),
                None => None,
            },
            metadata: self.metadata@.map_values(|p: (String, String)| (p.0@, p.1@)),
        }
    }
}

impl Clone for VectorDocument {
    /// A clone carries the same mathematical value.
    fn clone(&self) -> (r: Self)
        ensures
            r@ == self@,
    {
        let r = VectorDocument {
            id: self.id.clone(),
            content: self.content.clone(),
            source_url: self.source_url.clone(),
            source_title: self.source_title.clone(),
            embedding: self.embedding.clone(),
            metadata: clone_pairs(&self.metadata),
        };
        proof {
            assert(r@.metadata =~= self@.metadata);
            assert(r@.embedding =~= self@.embedding);
        }
        r
    }
}

impl Clone for TextChunk {
    /// A clone carries the same mathematical value.
    fn clone(&self) -> (r: Self)
        ensures
            r@ == self@,
    {
        let embedding = match &self.embedding {
            Some(e) => Some(e.clone()),
            None => None,
        };
        let r = TextChunk {
            id: self.id.clone(),
            content: self.content.clone(),
            source_url: self.source_url.clone(),
            source_title: self.source_title.clone(),
            embedding,
            metadata: clone_pairs(&self.metadata),
        };
        proof {
            assert(r@.metadata =~= self@.metadata);
            match &self.embedding {
                Some(e) => {
                    assert(r@.embedding matches Some(s) && s =~= e@);
                },
                None => {},
            }
            assert(r@ == self@);
        }
        r
    }
}

fn clone_pairs(ps: &Vec<(String, String)>) -> (r: Vec<(String, String)>)
    ensures
        r@.map_values(|p: (String, String)| (p.0@, p.1@)) == ps@.map_values(
            |p: (String, String)| (p.0@, p.1@),
        ),
{
    let mut r: Vec<(String, String)> = Vec::new();
    let mut i: usize = 0;
    while i < ps.len()
        invariant
            i <= ps@.len(),
            r@.len() == i,
            forall|t: int|
                0 <= t < i ==> (#[trigger] r@[t]).0@ == ps@[t].0@ && r@[t].1@ == ps@[t].1@,
        decreases ps@.len() - i,
    {
        let k = ps[i].0.clone();
        let v = ps[i].1.clone();
        r.push((k, v));
        i = i + 1;
    }
    proof {
        assert(r@.map_values(|p: (String, String)| (p.0@, p.1@)) =~= ps@.map_values(
            |p: (String, String)| (p.0@, p.1@),
        ));
    }
    r
}

/// A 64-bit little-endian length prefix.
pub open spec fn len_bytes(n: int) -> Seq<u8> {
    spec_u64_to_le_bytes(n as u64)
}

/// Length-prefixed UTF-8 encoding of a string.
pub open spec fn str_enc(s: Seq<char>) -> Seq<u8> {
    len_bytes(encode_utf8(s).len() as int) + encode_utf8(s)
}

/// One embedding entry, offset by `COMP_MAX` so that it is non-negative.
pub open spec fn entry_bytes(x: i64) -> Seq<u8> {
    spec_u64_to_le_bytes((x + COMP_MAX) as u64)
}

/// The embedding entries, one 8-byte word each.
pub open spec fn embed_body(v: Seq<i64>) -> Seq<u8>
    decreases v.len(),
{
    if v.len() == 0 {
        Seq::empty()
    } else {
        entry_bytes(v[0]) + embed_body(v.drop_first())
    }
}

/// Count-prefixed embedding encoding.
pub open spec fn embed_enc(v: Seq<i64>) -> Seq<u8> {
    len_bytes(v.len() as int) + embed_body(v)
}

/// The metadata pairs, each two length-prefixed strings.
pub open spec fn pairs_body(ps: Seq<(Seq<char>, Seq<char>)>) -> Seq<u8>
    decreases ps.len(),
{
    if ps.len() == 0 {
        Seq::empty()
    } else {
        str_enc(ps[0].0) + str_enc(ps[0].1) + pairs_body(ps.drop_first())
    }
}

/// Count-prefixed metadata encoding.
pub open spec fn pairs_enc(ps: Seq<(Seq<char>, Seq<char>)>) -> Seq<u8> {
    len_bytes(ps.len() as int) + pairs_body(ps)
}

/// The full binary encoding of a record: its six fields in order.
pub open spec fn doc_enc(d: DocV) -> Seq<u8> {
    str_enc(d.id) + str_enc(d.content) + str_enc(d.source_url) + str_enc(d.source_title)
        + embed_enc(d.embedding) + pairs_enc(d.metadata)
}

/// The store key of a record: the UTF-8 bytes of its id.
pub open spec fn key_bytes(id: Seq<char>) -> Seq<u8> {
    encode_utf8(id)
}

pub proof fn lemma_embed_body_push(v: Seq<i64>, x: i64)
    ensures
        embed_body(v.push(x)) == embed_body(v) + entry_bytes(x),
    decreases v.len(),
{
    let p = v.push(x);
    if v.len() == 0 {
        assert(p[0] == x);
        assert(p.drop_first() =~= Seq::<i64>::empty());
        assert(embed_body(p) == entry_bytes(x) + embed_body(Seq::<i64>::empty()));
        assert(entry_bytes(x) + Seq::<u8>::empty() =~= entry_bytes(x));
        assert(embed_body(v) + entry_bytes(x) =~= entry_bytes(x));
    } else {
        lemma_embed_body_push(v.drop_first(), x);
        assert(p.drop_first() =~= v.drop_first().push(x));
        assert(p[0] == v[0]);
        assert(entry_bytes(v[0]) + (embed_body(v.drop_first()) + entry_bytes(x)) =~= (entry_bytes(
            v[0],
        ) + embed_body(v.drop_first())) + entry_bytes(x));
    }
}

pub proof fn lemma_pairs_body_push(ps: Seq<(Seq<char>, Seq<char>)>, p: (Seq<char>, Seq<char>))
    ensures
        pairs_body(ps.push(p)) == pairs_body(ps) + str_enc(p.0) + str_enc(p.1),
    decreases ps.len(),
{
    let q = ps.push(p);
    assert(q.len() > 0);
    assert(pairs_body(q) == str_enc(q[0].0) + str_enc(q[0].1) + pairs_body(q.drop_first()));
    if ps.len() == 0 {
        assert(q[0] == p);
        assert(q.drop_first() =~= Seq::<(Seq<char>, Seq<char>)>::empty());
        assert(pairs_body(q.drop_first()) == Seq::<u8>::empty());
        assert(pairs_body(ps) == Seq::<u8>::empty());
        assert(str_enc(q[0].0) + str_enc(q[0].1) + pairs_body(q.drop_first()) =~= pairs_body(ps)
            + str_enc(p.0) + str_enc(p.1));
    } else {
        lemma_pairs_body_push(ps.drop_first(), p);
        assert(q.drop_first() =~= ps.drop_first().push(p));
        assert(q[0] == ps[0]);
        assert(pairs_body(ps) == str_enc(ps[0].0) + str_enc(ps[0].1) + pairs_body(ps.drop_first()));
        assert(str_enc(ps[0].0) + str_enc(ps[0].1) + (pairs_body(ps.drop_first()) + str_enc(p.0)
            + str_enc(p.1)) =~= (str_enc(ps[0].0) + str_enc(ps[0].1) + pairs_body(ps.drop_first()))
            + str_enc(p.0) + str_enc(p.1));
    }
}

/// Appends the bytes of `b` to `out`.
fn push_slice(out: &mut Vec<u8>, b: &[u8])
    ensures
        final(out)@ == old(out)@ + b@,
{
    let mut i: usize = 0;
    while i < b.len()
        invariant
            i <= b@.len(),
            out@ == old(out)@ + b@.take(i as int),
        decreases b@.len() - i,
    {
        out.push(b[i]);
        proof {
            assert(old(out)@ + b@.take(i as int + 1) =~= (old(out)@ + b@.take(i as int)).push(
                b@[i as int],
            ));
        }
        i = i + 1;
    }
    proof {
        assert(b@.take(b@.len() as int) =~= b@);
    }
}

/// Appends a little-endian 64-bit word.
fn push_u64le(out: &mut Vec<u8>, x: u64)
    ensures
        final(out)@ == old(out)@ + spec_u64_to_le_bytes(x),
{
    let b = u64_to_le_bytes(x);
    push_slice(out, b.as_slice());
}

/// Appends the length-prefixed UTF-8 encoding of `s`.
fn push_string(out: &mut Vec<u8>, s: &String)
    ensures
        final(out)@ == old(out)@ + str_enc(s@),
{
    let bytes = s.as_str().as_bytes();
    push_u64le(out, bytes.len() as u64);
    push_slice(out, bytes);
    proof {
        assert(old(out)@ + len_bytes(encode_utf8(s@).len() as int) + encode_utf8(s@) =~= old(out)@
            + str_enc(s@));
    }
}

/// Appends the count-prefixed embedding encoding.
fn push_embedding(out: &mut Vec<u8>, v: &Vec<i64>)
    requires
        valid_vector(v@),
    ensures
        final(out)@ == old(out)@ + embed_enc(v@),
{
    push_u64le(out, v.len() as u64);
    let ghost base = out@;
    let mut i: usize = 0;
    proof {
        assert(v@.take(0) =~= Seq::<i64>::empty());
        assert(base + embed_body(v@.take(0)) =~= base);
    }
    while i < v.len()
        invariant
            valid_vector(v@),
            i <= v@.len(),
            out@ == base + embed_body(v@.take(i as int)),
        decreases v@.len() - i,
    {
        let x = v[i];
        proof {
            assert(-COMP_MAX <= v@[i as int] <= COMP_MAX);
        }
        push_u64le(out, (x + COMP_MAX) as u64);
        proof {
            lemma_embed_body_push(v@.take(i as int), x);
            assert(v@.take(i as int).push(x) =~= v@.take(i as int + 1));
            assert(base + embed_body(v@.take(i as int)) + entry_bytes(x) =~= base + (embed_body(
                v@.take(i as int),
            ) + entry_bytes(x)));
        }
        i = i + 1;
    }
    proof {
        assert(v@.take(v@.len() as int) =~= v@);
        assert(base + embed_body(v@) =~= old(out)@ + embed_enc(v@)) by {
            assert(base == old(out)@ + len_bytes(v@.len() as int));
        }
    }
}

/// Appends the count-prefixed metadata encoding.
fn push_pairs(out: &mut Vec<u8>, ps: &Vec<(String, String)>)
    ensures
        final(out)@ == old(out)@ + pairs_enc(
            ps@.map_values(|p: (String, String)| (p.0@, p.1@)),
        ),
{
    let ghost psv = ps@.map_values(|p: (String, String)| (p.0@, p.1@));
    push_u64le(out, ps.len() as u64);
    let ghost base = out@;
    let mut i: usize = 0;
    proof {
        assert(psv.take(0) =~= Seq::<(Seq<char>, Seq<char>)>::empty());
        assert(base + pairs_body(psv.take(0)) =~= base);
    }
    while i < ps.len()
        invariant
            psv == ps@.map_values(|p: (String, String)| (p.0@, p.1@)),
            i <= ps@.len(),
            out@ == base + pairs_body(psv.take(i as int)),
        decreases ps@.len() - i,
    {
        push_string(out, &ps[i].0);
        push_string(out, &ps[i].1);
        proof {
            assert(psv[i as int] == (ps@[i as int].0@, ps@[i as int].1@));
            lemma_pairs_body_push(psv.take(i as int), psv[i as int]);
            assert(psv.take(i as int).push(psv[i as int]) =~= psv.take(i as int + 1));
            assert(base + pairs_body(psv.take(i as int)) + str_enc(psv[i as int].0) + str_enc(
                psv[i as int].1,
            ) =~= base + pairs_body(psv.take(i as int + 1)));
        }
        i = i + 1;
    }
    proof {
        assert(psv.take(psv.len() as int) =~= psv);
        assert(base + pairs_body(psv) =~= old(out)@ + pairs_enc(psv)) by {
            assert(base == old(out)@ + len_bytes(psv.len() as int));
        }
    }
}

/// Encodes a record into its binary form.
pub fn encode_document(d: &VectorDocument) -> (r: Vec<u8>)
    requires
        valid_vector(d@.embedding),
    ensures
        r@ == doc_enc(d@),
{
    let mut out: Vec<u8> = Vec::new();
    push_string(&mut out, &d.id);
    push_string(&mut out, &d.content);
    push_string(&mut out, &d.source_url);
    push_string(&mut out, &d.source_title);
    push_embedding(&mut out, &d.embedding);
    push_pairs(&mut out, &d.metadata);
    proof {
        assert(out@ =~= doc_enc(d@));
    }
    out
}

/// The store key of a record: the UTF-8 bytes of its id.
pub fn encode_key(id: &String) -> (r: Vec<u8>)
    ensures
        r@ == key_bytes(id@),
{
    let bytes = id.as_str().as_bytes();
    let mut out: Vec<u8> = Vec::new();
    push_slice(&mut out, bytes);
    proof {
        assert(out@ =~= key_bytes(id@));
    }
    out
}


/// Relies on `String::from_utf8`: succeeds exactly on valid UTF-8 and
/// returns the string holding those bytes, whose characters are their
/// decoding.
#[verifier::external_body]
fn string_from_utf8(bytes: Vec<u8>) -> (r: Option<String>)
    ensures
        match r {
            Some(s) => valid_utf8(bytes@) && s@ == decode_utf8(bytes@),
            None => !valid_utf8(bytes@),
        },
{
    String::from_utf8(bytes).ok()
}

/// A part of a piece of the buffer is a part of the buffer, shifted.
proof fn lemma_slice_at(b: Seq<u8>, p: int, whole: Seq<u8>, off: int, part: Seq<u8>)
    requires
        0 <= p,
        p + whole.len() <= b.len(),
        b.subrange(p, p + whole.len()) == whole,
        0 <= off,
        off + part.len() <= whole.len(),
        whole.subrange(off, off + part.len()) == part,
    ensures
        b.subrange(p + off, p + off + part.len()) == part,
{
    assert(b.subrange(p + off, p + off + part.len()) =~= part) by {
        assert forall|j: int| 0 <= j < part.len() implies b[p + off + j] == part[j] by {
            assert(b.subrange(p, p + whole.len())[off + j] == b[p + off + j]);
            assert(whole.subrange(off, off + part.len())[j] == whole[off + j]);
        }
    }
}

/// Reads the little-endian 64-bit word at `pos`.
fn read_u64le(bytes: &Vec<u8>, pos: usize) -> (r: u64)
    requires
        pos + 8 <= bytes@.len(),
    ensures
        r == spec_u64_from_le_bytes(bytes@.subrange(pos as int, pos as int + 8)),
{
    let total = bytes.len();
    let mut sub: Vec<u8> = Vec::new();
    let mut i: usize = 0;
    while i < 8
        invariant
            total == bytes@.len(),
            pos + 8 <= total,
            i <= 8,
            sub@ =~= bytes@.subrange(pos as int, pos as int + i as int),
        decreases 8 - i,
    {
        sub.push(bytes[pos + i]);
        proof {
            assert(sub@ =~= bytes@.subrange(pos as int, pos as int + i as int + 1));
        }
        i = i + 1;
    }
    u64_from_le_bytes(sub.as_slice())
}

/// A sequence is its own full subrange.
proof fn lemma_subrange_full(s: Seq<u8>)
    ensures
        s.subrange(0, s.len() as int) == s,
{
    assert(s.subrange(0, s.len() as int) =~= s);
}

/// Layout of a record encoding: where each of the six fields sits.
proof fn lemma_doc_enc_layout(b: Seq<u8>, dv: DocV)
    requires
        b == doc_enc(dv),
    ensures
        ({
            let e1 = str_enc(dv.id);
            let e2 = str_enc(dv.content);
            let e3 = str_enc(dv.source_url);
            let e4 = str_enc(dv.source_title);
            let e5 = embed_enc(dv.embedding);
            let e6 = pairs_enc(dv.metadata);
            let o1 = e1.len() as int;
            let o2 = o1 + e2.len();
            let o3 = o2 + e3.len();
            let o4 = o3 + e4.len();
            let o5 = o4 + e5.len();
            let o6 = o5 + e6.len();
            &&& b.len() == o6
            &&& b.subrange(0, o1) == e1
            &&& b.subrange(o1, o2) == e2
            &&& b.subrange(o2, o3) == e3
            &&& b.subrange(o3, o4) == e4
            &&& b.subrange(o4, o5) == e5
            &&& b.subrange(o5, o6) == e6
        }),
{
    let e1 = str_enc(dv.id);
    let e2 = str_enc(dv.content);
    let e3 = str_enc(dv.source_url);
    let e4 = str_enc(dv.source_title);
    let e5 = embed_enc(dv.embedding);
    let e6 = pairs_enc(dv.metadata);
    let o1 = e1.len() as int;
    let o2 = o1 + e2.len();
    let o3 = o2 + e3.len();
    let o4 = o3 + e4.len();
    let o5 = o4 + e5.len();
    let o6 = o5 + e6.len();
    assert(b.subrange(0, o1) =~= e1);
    assert(b.subrange(o1, o2) =~= e2);
    assert(b.subrange(o2, o3) =~= e3);
    assert(b.subrange(o3, o4) =~= e4);
    assert(b.subrange(o4, o5) =~= e5);
    assert(b.subrange(o5, o6) =~= e6);
}

/// Reads a length-prefixed UTF-8 string at `pos`, checking everything: the
/// result is `Some` exactly when a well-formed string encoding sits there
/// (and then it is that string).
fn read_string_checked(bytes: &Vec<u8>, pos: usize) -> (r: Option<(String, usize)>)
    requires
        pos <= bytes@.len(),
    ensures
        r matches Some(p) ==> {
            &&& pos as int + str_enc(p.0@).len() <= bytes@.len()
            &&& bytes@.subrange(pos as int, pos as int + str_enc(p.0@).len() as int) == str_enc(
                p.0@,
            )
            &&& p.1 == pos as int + str_enc(p.0@).len()
        },
        forall|sv: Seq<char>|
            (pos as int + (#[trigger] str_enc(sv)).len() <= bytes@.len() && bytes@.subrange(
                pos as int,
                pos as int + str_enc(sv).len() as int,
            ) == str_enc(sv)) ==> (r matches Some(p) && p.0@ == sv && p.1 == pos as int + str_enc(
                sv,
            ).len()),
{
    let total = bytes.len();
    proof {
        lemma_auto_spec_u64_to_from_le_bytes();
    }
    if total - pos < 8 {
        proof {
            assert forall|sv: Seq<char>|
                !(pos as int + (#[trigger] str_enc(sv)).len() <= bytes@.len() && bytes@.subrange(
                    pos as int,
                    pos as int + str_enc(sv).len() as int,
                ) == str_enc(sv)) by {
                assert(str_enc(sv).len() >= 8);
            }
        }
        return None;
    }
    let n64 = read_u64le(bytes, pos);
    if n64 > (total - (pos + 8)) as u64 {
        proof {
            assert forall|sv: Seq<char>|
                !(pos as int + (#[trigger] str_enc(sv)).len() <= bytes@.len() && bytes@.subrange(
                    pos as int,
                    pos as int + str_enc(sv).len() as int,
                ) == str_enc(sv)) by {
                if pos as int + str_enc(sv).len() <= bytes@.len() && bytes@.subrange(
                    pos as int,
                    pos as int + str_enc(sv).len() as int,
                ) == str_enc(sv) {
                    let u = encode_utf8(sv);
                    assert(str_enc(sv).subrange(0, 8) =~= len_bytes(u.len() as int));
                    lemma_slice_at(bytes@, pos as int, str_enc(sv), 0, len_bytes(u.len() as int));
                    assert(n64 == u.len() as u64);
                    assert(u.len() <= total - (pos + 8));
                }
            }
        }
        return None;
    }
    let n = n64 as usize;
    let mut sub: Vec<u8> = Vec::new();
    let mut i: usize = 0;
    while i < n
        invariant
            total == bytes@.len(),
            pos + 8 + n <= total,
            i <= n,
            sub@ =~= bytes@.subrange(pos as int + 8, pos as int + 8 + i as int),
        decreases n - i,
    {
        sub.push(bytes[pos + 8 + i]);
        proof {
            assert(sub@ =~= bytes@.subrange(pos as int + 8, pos as int + 8 + i as int + 1));
        }
        i = i + 1;
    }
    let ghost subv = sub@;
    proof {
        assert(subv =~= bytes@.subrange(pos as int + 8, pos as int + 8 + n as int));
    }
    match string_from_utf8(sub) {
        Some(st) => {
            proof {
                vstd::utf8::decode_utf8_encode_utf8(subv);
                assert(encode_utf8(st@) == subv);
                assert(bytes@.subrange(pos as int, pos as int + 8) == spec_u64_to_le_bytes(n64));
                assert(len_bytes(encode_utf8(st@).len() as int) == spec_u64_to_le_bytes(n64)) by {
                    assert(encode_utf8(st@).len() == n);
                    assert((n as u64) == n64);
                }
                assert(bytes@.subrange(pos as int, pos as int + str_enc(st@).len() as int) =~=
                    str_enc(st@)) by {
                    assert(str_enc(st@).len() == 8 + n);
                    assert forall|j: int| 0 <= j < 8 + n implies bytes@[pos as int + j] == str_enc(
                        st@,
                    )[j] by {
                        if j < 8 {
                            assert(bytes@.subrange(pos as int, pos as int + 8)[j] == bytes@[
                                pos as int + j]);
                            assert(str_enc(st@)[j] == len_bytes(encode_utf8(st@).len() as int)[j]);
                        } else {
                            assert(subv[j - 8] == bytes@[pos as int + j]);
                            assert(str_enc(st@)[j] == encode_utf8(st@)[j - 8]);
                        }
                    }
                }
                assert forall|sv: Seq<char>|
                    (pos as int + (#[trigger] str_enc(sv)).len() <= bytes@.len()
                        && bytes@.subrange(
                        pos as int,
                        pos as int + str_enc(sv).len() as int,
                    ) == str_enc(sv)) implies (st@ == sv && pos as int + 8 + n == pos as int
                    + str_enc(sv).len()) by {
                    let u = encode_utf8(sv);
                    assert(str_enc(sv).subrange(0, 8) =~= len_bytes(u.len() as int));
                    lemma_slice_at(bytes@, pos as int, str_enc(sv), 0, len_bytes(u.len() as int));
                    assert(n64 == u.len() as u64);
                    assert(u.len() == n);
                    assert(str_enc(sv).subrange(8, 8 + u.len() as int) =~= u);
                    lemma_slice_at(bytes@, pos as int, str_enc(sv), 8, u);
                    assert(subv =~= u);
                    vstd::utf8::encode_utf8_decode_utf8(sv);
                    assert(st@ == decode_utf8(u));
                }
            }
            Some((st, pos + 8 + n))
        },
        None => {
            proof {
                assert forall|sv: Seq<char>|
                    !(pos as int + (#[trigger] str_enc(sv)).len() <= bytes@.len()
                        && bytes@.subrange(
                        pos as int,
                        pos as int + str_enc(sv).len() as int,
                    ) == str_enc(sv)) by {
                    if pos as int + str_enc(sv).len() <= bytes@.len() && bytes@.subrange(
                        pos as int,
                        pos as int + str_enc(sv).len() as int,
                    ) == str_enc(sv) {
                        let u = encode_utf8(sv);
                        assert(str_enc(sv).subrange(0, 8) =~= len_bytes(u.len() as int));
                        lemma_slice_at(
                            bytes@,
                            pos as int,
                            str_enc(sv),
                            0,
                            len_bytes(u.len() as int),
                        );
                        assert(n64 == u.len() as u64);
                        assert(u.len() == n);
                        assert(str_enc(sv).subrange(8, 8 + u.len() as int) =~= u);
                        lemma_slice_at(bytes@, pos as int, str_enc(sv), 8, u);
                        assert(subv =~= u);
                        vstd::utf8::encode_utf8_valid_utf8(sv);
                        assert(valid_utf8(subv));
                    }
                }
            }
            None
        },
    }
}

proof fn lemma_embed_body_len(v: Seq<i64>)
    ensures
        embed_body(v).len() == 8 * v.len(),
    decreases v.len(),
{
    lemma_auto_spec_u64_to_from_le_bytes();
    if v.len() > 0 {
        lemma_embed_body_len(v.drop_first());
    }
}

/// Byte layout of the embedding body: 8 bytes per entry, in order.
proof fn lemma_embed_body_index(v: Seq<i64>, i: int)
    requires
        0 <= i < v.len(),
    ensures
        embed_body(v).len() == 8 * v.len(),
        embed_body(v).subrange(8 * i, 8 * i + 8) == entry_bytes(v[i]),
    decreases v.len(),
{
    lemma_auto_spec_u64_to_from_le_bytes();
    lemma_embed_body_len(v);
    lemma_embed_body_len(v.drop_first());
    let body = embed_body(v);
    assert(body == entry_bytes(v[0]) + embed_body(v.drop_first()));
    if i == 0 {
        assert(body.subrange(0, 8) =~= entry_bytes(v[0]));
    } else {
        lemma_embed_body_index(v.drop_first(), i - 1);
        assert(v.drop_first()[i - 1] == v[i]);
        assert(body.subrange(8 * i, 8 * i + 8) =~= embed_body(v.drop_first()).subrange(
            8 * (i - 1),
            8 * (i - 1) + 8,
        ));
    }
}

/// Reads a count-prefixed embedding at `pos`, checking everything: the
/// result is `Some` exactly when a well-formed encoding of a valid vector
/// sits there (and then it is that vector).
fn read_embedding_checked(bytes: &Vec<u8>, pos: usize) -> (r: Option<(Vec<i64>, usize)>)
    requires
        pos <= bytes@.len(),
    ensures
        r matches Some(p) ==> {
            &&& valid_vector(p.0@)
            &&& pos as int + embed_enc(p.0@).len() <= bytes@.len()
            &&& bytes@.subrange(pos as int, pos as int + embed_enc(p.0@).len() as int)
                == embed_enc(p.0@)
            &&& p.1 == pos as int + embed_enc(p.0@).len()
        },
        forall|ev: Seq<i64>|
            (valid_vector(ev) && pos as int + (#[trigger] embed_enc(ev)).len() <= bytes@.len()
                && bytes@.subrange(pos as int, pos as int + embed_enc(ev).len() as int)
                == embed_enc(ev)) ==> (r matches Some(p) && p.0@ == ev && p.1 == pos as int
                + embed_enc(ev).len()),
{
    let total = bytes.len();
    proof {
        lemma_auto_spec_u64_to_from_le_bytes();
    }
    if total - pos < 8 {
        proof {
            assert forall|ev: Seq<i64>|
                !(valid_vector(ev) && pos as int + (#[trigger] embed_enc(ev)).len()
                    <= bytes@.len() && bytes@.subrange(
                    pos as int,
                    pos as int + embed_enc(ev).len() as int,
                ) == embed_enc(ev)) by {
                lemma_embed_body_len(ev);
                assert(embed_enc(ev).len() >= 8);
            }
        }
        return None;
    }
    let n64 = read_u64le(bytes, pos);
    let ghost prem = |ev: Seq<i64>|
        valid_vector(ev) && pos as int + embed_enc(ev).len() <= bytes@.len() && bytes@.subrange(
            pos as int,
            pos as int + embed_enc(ev).len() as int,
        ) == embed_enc(ev);
    proof {
        assert forall|ev: Seq<i64>| #[trigger] prem(ev) implies n64 == ev.len() as u64 && 8 * (
        n64 as int) <= total - pos - 8 by {
            lemma_embed_body_len(ev);
            assert(embed_enc(ev).subrange(0, 8) =~= len_bytes(ev.len() as int));
            lemma_slice_at(bytes@, pos as int, embed_enc(ev), 0, len_bytes(ev.len() as int));
            assert(n64 == ev.len() as u64);
        }
    }
    if n64 > DIM_MAX as u64 || n64 > ((total - (pos + 8)) / 8) as u64 {
        proof {
            assert forall|ev: Seq<i64>| !(#[trigger] prem(ev)) by {
                if prem(ev) {
                    lemma_embed_body_len(ev);
                    assert(ev.len() <= DIM_MAX);
                    assert(8 * ev.len() <= total - pos - 8);
                    assert(ev.len() as int <= (total - (pos + 8)) / 8);
                }
            }
            assert forall|ev: Seq<i64>|
                !(valid_vector(ev) && pos as int + (#[trigger] embed_enc(ev)).len()
                    <= bytes@.len() && bytes@.subrange(
                    pos as int,
                    pos as int + embed_enc(ev).len() as int,
                ) == embed_enc(ev)) by {
                assert(!prem(ev));
            }
        }
        return None;
    }
    let n = n64 as usize;
    let base = pos + 8;
    proof {
        assert(8 * (n as int) <= total - pos - 8) by {
            assert(n as int <= (total - (pos + 8)) / 8);
            assert(8 * ((total - (pos + 8)) / 8) <= total - (pos + 8)) by (nonlinear_arith)
                requires
                    total - (pos + 8) >= 0,
            ;
            assert(8 * (n as int) <= 8 * ((total - (pos + 8)) / 8)) by (nonlinear_arith)
                requires
                    n as int <= (total - (pos + 8)) / 8,
            ;
        }
    }
    let mut v: Vec<i64> = Vec::new();
    let mut i: usize = 0;
    while i < n
        invariant
            total == bytes@.len(),
            base == pos + 8,
            8 * (n as int) <= total - pos - 8,
            n <= DIM_MAX,
            n64 == n as u64,
            n64 == spec_u64_from_le_bytes(bytes@.subrange(pos as int, pos as int + 8)),
            prem == (|ev: Seq<i64>|
                valid_vector(ev) && pos as int + embed_enc(ev).len() <= bytes@.len()
                    && bytes@.subrange(
                    pos as int,
                    pos as int + embed_enc(ev).len() as int,
                ) == embed_enc(ev)),
            i <= n,
            v@.len() == i,
            forall|t: int| 0 <= t < i ==> -COMP_MAX <= #[trigger] v@[t] <= COMP_MAX,
            forall|t: int|
                0 <= t < i ==> ((#[trigger] v@[t]) + COMP_MAX) as u64 == spec_u64_from_le_bytes(
                    bytes@.subrange(base as int + 8 * t, base as int + 8 * t + 8),
                ),
        decreases n - i,
    {
        proof {
            assert(8 * (i as int) + 8 <= 8 * (n as int)) by (nonlinear_arith)
                requires
                    i as int + 1 <= n as int,
            ;
            assert(0 <= 8 * (i as int)) by (nonlinear_arith)
                requires
                    0 <= i as int,
            ;
        }
        let off = base + 8 * i;
        let w = read_u64le(bytes, off);
        if w > (2 * COMP_MAX) as u64 {
            proof {
                lemma_auto_spec_u64_to_from_le_bytes();
                assert forall|ev: Seq<i64>|
                    !(valid_vector(ev) && pos as int + (#[trigger] embed_enc(ev)).len()
                        <= bytes@.len() && bytes@.subrange(
                        pos as int,
                        pos as int + embed_enc(ev).len() as int,
                    ) == embed_enc(ev)) by {
                    if prem(ev) {
                        lemma_embed_body_len(ev);
                        assert(embed_enc(ev).subrange(0, 8) =~= len_bytes(ev.len() as int));
                        lemma_slice_at(
                            bytes@,
                            pos as int,
                            embed_enc(ev),
                            0,
                            len_bytes(ev.len() as int),
                        );
                        assert(n64 == ev.len() as u64);
                        assert(i < ev.len());
                        lemma_embed_body_index(ev, i as int);
                        assert(embed_enc(ev).subrange(
                            8 + 8 * (i as int),
                            8 + 8 * (i as int) + 8,
                        ) =~= embed_body(ev).subrange(8 * (i as int), 8 * (i as int) + 8)) by {
                            assert forall|j: int|
                                0 <= j < 8 implies #[trigger] embed_enc(ev)[8 + 8 * (i as int) + j]
                                    == embed_body(ev)[8 * (i as int) + j] by {
                                assert(embed_enc(ev) == len_bytes(ev.len() as int) + embed_body(
                                    ev,
                                ));
                            }
                        }
                        lemma_slice_at(
                            bytes@,
                            pos as int,
                            embed_enc(ev),
                            8 + 8 * (i as int),
                            entry_bytes(ev[i as int]),
                        );
                        assert(bytes@.subrange(off as int, off as int + 8) == entry_bytes(
                            ev[i as int],
                        ));
                        assert(w == (ev[i as int] + COMP_MAX) as u64);
                        assert(-COMP_MAX <= ev[i as int] <= COMP_MAX);
                    }
                }
            }
            return None;
        }
        let x = (w as i64) - COMP_MAX;
        v.push(x);
        proof {
            lemma_auto_spec_u64_to_from_le_bytes();
            assert(((x + COMP_MAX) as u64) == w);
            assert(forall|t: int|
                0 <= t < i ==> ((#[trigger] v@[t]) + COMP_MAX) as u64 == spec_u64_from_le_bytes(
                    bytes@.subrange(base as int + 8 * t, base as int + 8 * t + 8),
                ));
        }
        i = i + 1;
    }
    let p2 = base + 8 * n;
    proof {
        lemma_auto_spec_u64_to_from_le_bytes();
        lemma_embed_body_len(v@);
        assert(valid_vector(v@));
        assert(bytes@.subrange(pos as int, pos as int + embed_enc(v@).len() as int) =~= embed_enc(
            v@,
        )) by {
            assert(embed_enc(v@).len() == 8 + 8 * (n as int));
            assert forall|j: int|
                0 <= j < 8 + 8 * (n as int) implies bytes@[pos as int + j] == #[trigger] embed_enc(
                v@,
            )[j] by {
                if j < 8 {
                    assert(bytes@.subrange(pos as int, pos as int + 8)[j] == bytes@[pos as int
                        + j]);
                    assert(spec_u64_to_le_bytes(n64)[j] == bytes@[pos as int + j]);
                    assert(len_bytes(v@.len() as int) == spec_u64_to_le_bytes(n64)) by {
                        assert((v@.len() as u64) == n64);
                    }
                    assert(embed_enc(v@)[j] == len_bytes(v@.len() as int)[j]);
                } else {
                    let t = (j - 8) / 8;
                    let rem = (j - 8) % 8;
                    assert(j - 8 == 8 * t + rem && 0 <= rem < 8 && 0 <= t < n) by {
                        vstd::arithmetic::div_mod::lemma_fundamental_div_mod(j - 8, 8);
                        assert(8 * t + rem < 8 * (n as int) ==> t < n as int) by (nonlinear_arith)
                            requires
                                0 <= rem < 8,
                        ;
                    }
                    lemma_embed_body_index(v@, t);
                    assert(embed_enc(v@)[j] == embed_body(v@)[j - 8]);
                    assert(embed_body(v@).subrange(8 * t, 8 * t + 8)[rem] == embed_body(v@)[j - 8]);
                    assert(entry_bytes(v@[t]) == spec_u64_to_le_bytes((v@[t] + COMP_MAX) as u64));
                    assert(spec_u64_to_le_bytes((v@[t] + COMP_MAX) as u64) == spec_u64_to_le_bytes(
                        spec_u64_from_le_bytes(
                            bytes@.subrange(base as int + 8 * t, base as int + 8 * t + 8),
                        ),
                    ));
                    assert(bytes@.subrange(base as int + 8 * t, base as int + 8 * t + 8)[rem]
                        == bytes@[pos as int + j]);
                }
            }
        }
        assert forall|ev: Seq<i64>|
            (valid_vector(ev) && pos as int + (#[trigger] embed_enc(ev)).len() <= bytes@.len()
                && bytes@.subrange(pos as int, pos as int + embed_enc(ev).len() as int)
                == embed_enc(ev)) implies (v@ == ev && p2 == pos as int + embed_enc(ev).len()) by {
            assert(prem(ev));
            assert(n64 == ev.len() as u64);
            assert(ev.len() == n);
            lemma_embed_body_len(ev);
            assert(v@ =~= ev) by {
                assert forall|t: int| 0 <= t < n implies v@[t] == ev[t] by {
                    lemma_embed_body_index(ev, t);
                    assert(embed_enc(ev).subrange(8 + 8 * t, 8 + 8 * t + 8) =~= embed_body(
                        ev,
                    ).subrange(8 * t, 8 * t + 8)) by {
                        assert forall|j: int|
                            0 <= j < 8 implies #[trigger] embed_enc(ev)[8 + 8 * t + j]
                                == embed_body(ev)[8 * t + j] by {
                            assert(embed_enc(ev) == len_bytes(ev.len() as int) + embed_body(ev));
                        }
                    }
                    lemma_slice_at(
                        bytes@,
                        pos as int,
                        embed_enc(ev),
                        8 + 8 * t,
                        entry_bytes(ev[t]),
                    );
                    assert(((v@[t] + COMP_MAX) as u64) == spec_u64_from_le_bytes(
                        bytes@.subrange(base as int + 8 * t, base as int + 8 * t + 8),
                    ));
                    assert(((ev[t] + COMP_MAX) as u64) == ((v@[t] + COMP_MAX) as u64));
                    assert(-COMP_MAX <= ev[t] <= COMP_MAX);
                }
            }
        }
    }
    Some((v, p2))
}

/// Every pair takes at least one byte, so the count fits the buffer.
proof fn lemma_pairs_body_min_len(ps: Seq<(Seq<char>, Seq<char>)>)
    ensures
        pairs_body(ps).len() >= ps.len(),
    decreases ps.len(),
{
    lemma_auto_spec_u64_to_from_le_bytes();
    if ps.len() > 0 {
        lemma_pairs_body_min_len(ps.drop_first());
    }
}

/// The pair bodies of a concatenation are the concatenated pair bodies.
proof fn lemma_pairs_body_cat(a: Seq<(Seq<char>, Seq<char>)>, b: Seq<(Seq<char>, Seq<char>)>)
    ensures
        pairs_body(a + b) == pairs_body(a) + pairs_body(b),
    decreases a.len(),
{
    if a.len() == 0 {
        assert(a + b =~= b);
        assert(pairs_body(a) + pairs_body(b) =~= pairs_body(b));
    } else {
        lemma_pairs_body_cat(a.drop_first(), b);
        assert((a + b).len() > 0);
        assert((a + b)[0] == a[0]);
        assert((a + b).drop_first() =~= a.drop_first() + b);
        assert(pairs_body(a + b) == str_enc(a[0].0) + str_enc(a[0].1) + pairs_body(
            a.drop_first() + b,
        ));
        assert(pairs_body(a) == str_enc(a[0].0) + str_enc(a[0].1) + pairs_body(a.drop_first()));
        assert(str_enc(a[0].0) + str_enc(a[0].1) + (pairs_body(a.drop_first()) + pairs_body(b))
            =~= (str_enc(a[0].0) + str_enc(a[0].1) + pairs_body(a.drop_first())) + pairs_body(b));
    }
}

/// Reads count-prefixed metadata pairs at `pos`, checking everything: the
/// result is `Some` exactly when a well-formed pairs encoding sits there
/// (and then it is those pairs).
fn read_pairs_checked(bytes: &Vec<u8>, pos: usize) -> (r: Option<(Vec<(String, String)>, usize)>)
    requires
        pos <= bytes@.len(),
    ensures
        r matches Some(p) ==> {
            let pv = p.0@.map_values(|q: (String, String)| (q.0@, q.1@));
            &&& pos as int + pairs_enc(pv).len() <= bytes@.len()
            &&& bytes@.subrange(pos as int, pos as int + pairs_enc(pv).len() as int) == pairs_enc(
                pv,
            )
            &&& p.1 == pos as int + pairs_enc(pv).len()
        },
        forall|qv: Seq<(Seq<char>, Seq<char>)>|
            (pos as int + (#[trigger] pairs_enc(qv)).len() <= bytes@.len() && bytes@.subrange(
                pos as int,
                pos as int + pairs_enc(qv).len() as int,
            ) == pairs_enc(qv)) ==> (r matches Some(p) && p.0@.map_values(
                |q: (String, String)| (q.0@, q.1@),
            ) == qv && p.1 == pos as int + pairs_enc(qv).len()),
{
    let total = bytes.len();
    proof {
        lemma_auto_spec_u64_to_from_le_bytes();
    }
    let ghost prem = |qv: Seq<(Seq<char>, Seq<char>)>|
        pos as int + pairs_enc(qv).len() <= bytes@.len() && bytes@.subrange(
            pos as int,
            pos as int + pairs_enc(qv).len() as int,
        ) == pairs_enc(qv);
    if total - pos < 8 {
        proof {
            assert forall|qv: Seq<(Seq<char>, Seq<char>)>|
                !(pos as int + (#[trigger] pairs_enc(qv)).len() <= bytes@.len()
                    && bytes@.subrange(
                    pos as int,
                    pos as int + pairs_enc(qv).len() as int,
                ) == pairs_enc(qv)) by {
                assert(pairs_enc(qv).len() >= 8);
            }
        }
        return None;
    }
    let n64 = read_u64le(bytes, pos);
    proof {
        assert forall|qv: Seq<(Seq<char>, Seq<char>)>| #[trigger]
            prem(qv) implies n64 == qv.len() as u64 && pairs_body(qv).len() <= total - pos - 8 by {
            lemma_pairs_body_min_len(qv);
            assert(pairs_enc(qv).subrange(0, 8) =~= len_bytes(qv.len() as int));
            lemma_slice_at(bytes@, pos as int, pairs_enc(qv), 0, len_bytes(qv.len() as int));
        }
    }
    if n64 > (total - (pos + 8)) as u64 {
        proof {
            assert forall|qv: Seq<(Seq<char>, Seq<char>)>|
                !(pos as int + (#[trigger] pairs_enc(qv)).len() <= bytes@.len()
                    && bytes@.subrange(
                    pos as int,
                    pos as int + pairs_enc(qv).len() as int,
                ) == pairs_enc(qv)) by {
                if prem(qv) {
                    lemma_pairs_body_min_len(qv);
                    assert(qv.len() <= total - pos - 8);
                }
            }
        }
        return None;
    }
    let n = n64 as usize;
    let mut out: Vec<(String, String)> = Vec::new();
    let mut i: usize = 0;
    let mut cur = pos + 8;
    proof {
        assert(out@.map_values(|q: (String, String)| (q.0@, q.1@)) =~= Seq::<
            (Seq<char>, Seq<char>),
        >::empty());
        assert(pairs_body(Seq::<(Seq<char>, Seq<char>)>::empty()) == Seq::<u8>::empty());
        assert(bytes@.subrange(pos as int + 8, pos as int + 8) =~= Seq::<u8>::empty());
        assert forall|qv: Seq<(Seq<char>, Seq<char>)>| #[trigger]
            prem(qv) implies qv.len() == n && out@.map_values(|q: (String, String)| (q.0@, q.1@))
                == qv.take(0) by {
            assert(n64 == qv.len() as u64);
            lemma_pairs_body_min_len(qv);
            assert(pairs_enc(qv).len() == 8 + pairs_body(qv).len());
            assert(qv.len() <= total - pos - 8);
            assert(qv.take(0) =~= Seq::<(Seq<char>, Seq<char>)>::empty());
        }
    }
    while i < n
        invariant
            total == bytes@.len(),
            pos + 8 <= total,
            i <= n,
            out@.len() == i,
            pos as int + 8 + pairs_body(
                out@.map_values(|q: (String, String)| (q.0@, q.1@)),
            ).len() == cur as int,
            cur <= total,
            bytes@.subrange(pos as int + 8, cur as int) == pairs_body(
                out@.map_values(|q: (String, String)| (q.0@, q.1@)),
            ),
            n64 == n as u64,
            prem == (|qv: Seq<(Seq<char>, Seq<char>)>|
                pos as int + pairs_enc(qv).len() <= bytes@.len() && bytes@.subrange(
                    pos as int,
                    pos as int + pairs_enc(qv).len() as int,
                ) == pairs_enc(qv)),
            forall|qv: Seq<(Seq<char>, Seq<char>)>| #[trigger]
                prem(qv) ==> qv.len() == n && out@.map_values(|q: (String, String)| (q.0@, q.1@))
                    == qv.take(i as int),
        decreases n - i,
    {
        let ghost outv = out@.map_values(|q: (String, String)| (q.0@, q.1@));
        proof {
            assert forall|qv: Seq<(Seq<char>, Seq<char>)>| #[trigger]
                prem(qv) implies (cur as int + str_enc(qv[i as int].0).len() + str_enc(
                qv[i as int].1,
            ).len() <= total && bytes@.subrange(
                cur as int,
                cur as int + str_enc(qv[i as int].0).len() as int,
            ) == str_enc(qv[i as int].0) && bytes@.subrange(
                cur as int + str_enc(qv[i as int].0).len(),
                cur as int + str_enc(qv[i as int].0).len() + str_enc(qv[i as int].1).len(),
            ) == str_enc(qv[i as int].1)) by {
                lemma_auto_spec_u64_to_from_le_bytes();
                assert(outv == qv.take(i as int));
                assert(qv =~= qv.take(i as int) + qv.skip(i as int));
                lemma_pairs_body_cat(qv.take(i as int), qv.skip(i as int));
                assert(pairs_enc(qv) == len_bytes(qv.len() as int) + pairs_body(qv));
                assert(pairs_body(qv) == pairs_body(qv.take(i as int)) + pairs_body(
                    qv.skip(i as int),
                ));
                let tail = qv.skip(i as int);
                assert(tail.len() > 0);
                assert(tail[0] == qv[i as int]);
                assert(pairs_body(tail) == str_enc(tail[0].0) + str_enc(tail[0].1) + pairs_body(
                    tail.drop_first(),
                ));
                assert(pairs_enc(qv).subrange(
                    8 + pairs_body(qv.take(i as int)).len() as int,
                    pairs_enc(qv).len() as int,
                ) =~= pairs_body(tail)) by {
                    assert forall|j: int|
                        0 <= j < pairs_body(tail).len() implies #[trigger] pairs_enc(qv)[8
                        + pairs_body(qv.take(i as int)).len() + j] == pairs_body(tail)[j] by {
                        assert(pairs_enc(qv)[8 + pairs_body(qv.take(i as int)).len() + j]
                            == pairs_body(qv)[pairs_body(qv.take(i as int)).len() + j]);
                        assert(pairs_body(qv)[pairs_body(qv.take(i as int)).len() + j]
                            == pairs_body(tail)[j]);
                    }
                }
                lemma_slice_at(
                    bytes@,
                    pos as int,
                    pairs_enc(qv),
                    8 + pairs_body(qv.take(i as int)).len() as int,
                    pairs_body(tail),
                );
                assert(cur as int == pos as int + 8 + pairs_body(qv.take(i as int)).len());
                assert(pairs_body(tail).subrange(0, str_enc(tail[0].0).len() as int) =~= str_enc(
                    tail[0].0,
                ));
                lemma_slice_at(bytes@, cur as int, pairs_body(tail), 0, str_enc(tail[0].0));
                assert(pairs_body(tail).subrange(
                    str_enc(tail[0].0).len() as int,
                    str_enc(tail[0].0).len() as int + str_enc(tail[0].1).len() as int,
                ) =~= str_enc(tail[0].1));
                lemma_slice_at(
                    bytes@,
                    cur as int,
                    pairs_body(tail),
                    str_enc(tail[0].0).len() as int,
                    str_enc(tail[0].1),
                );
            }
        }
        let k = match read_string_checked(bytes, cur) {
            Some(p) => p,
            None => {
                proof {
                    assert forall|qv: Seq<(Seq<char>, Seq<char>)>|
                        !(pos as int + (#[trigger] pairs_enc(qv)).len() <= bytes@.len()
                            && bytes@.subrange(
                            pos as int,
                            pos as int + pairs_enc(qv).len() as int,
                        ) == pairs_enc(qv)) by {
                        if prem(qv) {
                        }
                    }
                }
                return None;
            },
        };
        let (ks, p1) = k;
        proof {
            assert(p1 <= total);
        }
        let v = match read_string_checked(bytes, p1) {
            Some(p) => p,
            None => {
                proof {
                    assert forall|qv: Seq<(Seq<char>, Seq<char>)>|
                        !(pos as int + (#[trigger] pairs_enc(qv)).len() <= bytes@.len()
                            && bytes@.subrange(
                            pos as int,
                            pos as int + pairs_enc(qv).len() as int,
                        ) == pairs_enc(qv)) by {
                        if prem(qv) {
                            assert(ks@ == qv[i as int].0);
                            assert(p1 == cur as int + str_enc(qv[i as int].0).len());
                        }
                    }
                }
                return None;
            },
        };
        let (vs, p2) = v;
        out.push((ks, vs));
        proof {
            let outv2 = out@.map_values(|q: (String, String)| (q.0@, q.1@));
            assert(outv2 =~= outv.push((ks@, vs@)));
            lemma_pairs_body_push(outv, (ks@, vs@));
            assert(bytes@.subrange(pos as int + 8, p2 as int) =~= pairs_body(outv2)) by {
                assert(pairs_body(outv2) == pairs_body(outv) + str_enc(ks@) + str_enc(vs@));
                assert forall|j: int|
                    0 <= j < pairs_body(outv2).len() implies bytes@[pos as int + 8 + j]
                        == #[trigger] pairs_body(outv2)[j] by {
                    if j < pairs_body(outv).len() {
                        assert(bytes@.subrange(pos as int + 8, cur as int)[j] == bytes@[pos as int
                            + 8 + j]);
                    } else if j < pairs_body(outv).len() + str_enc(ks@).len() {
                        let jj = j - pairs_body(outv).len();
                        assert(bytes@.subrange(cur as int, cur as int + str_enc(ks@).len() as int)[
                            jj] == bytes@[cur as int + jj]);
                        assert(pairs_body(outv2)[j] == str_enc(ks@)[jj]);
                    } else {
                        let jj = j - pairs_body(outv).len() - str_enc(ks@).len();
                        assert(bytes@.subrange(p1 as int, p1 as int + str_enc(vs@).len() as int)[
                            jj] == bytes@[p1 as int + jj]);
                        assert(pairs_body(outv2)[j] == str_enc(vs@)[jj]);
                    }
                }
            }
            assert forall|qv: Seq<(Seq<char>, Seq<char>)>| #[trigger]
                prem(qv) implies qv.len() == n && outv2 == qv.take(i as int + 1) by {
                assert(ks@ == qv[i as int].0);
                assert(vs@ == qv[i as int].1);
                assert(outv.push((ks@, vs@)) =~= qv.take(i as int + 1));
            }
        }
        cur = p2;
        i = i + 1;
    }
    proof {
        let outv = out@.map_values(|q: (String, String)| (q.0@, q.1@));
        assert(bytes@.subrange(pos as int, pos as int + pairs_enc(outv).len() as int) =~=
            pairs_enc(outv)) by {
            assert(pairs_enc(outv).len() == 8 + pairs_body(outv).len());
            assert forall|j: int|
                0 <= j < pairs_enc(outv).len() implies bytes@[pos as int + j] == #[trigger]
            pairs_enc(outv)[j] by {
                if j < 8 {
                    assert(bytes@.subrange(pos as int, pos as int + 8)[j] == bytes@[pos as int
                        + j]);
                    assert(len_bytes(outv.len() as int) == spec_u64_to_le_bytes(n64)) by {
                        assert((outv.len() as u64) == n64);
                    }
                    assert(pairs_enc(outv)[j] == len_bytes(outv.len() as int)[j]);
                } else {
                    assert(bytes@.subrange(pos as int + 8, cur as int)[j - 8] == bytes@[pos as int
                        + j]);
                    assert(pairs_enc(outv)[j] == pairs_body(outv)[j - 8]);
                }
            }
        }
        assert forall|qv: Seq<(Seq<char>, Seq<char>)>|
            (pos as int + (#[trigger] pairs_enc(qv)).len() <= bytes@.len() && bytes@.subrange(
                pos as int,
                pos as int + pairs_enc(qv).len() as int,
            ) == pairs_enc(qv)) implies (outv == qv && cur as int == pos as int + pairs_enc(
            qv,
        ).len()) by {
            assert(prem(qv));
            assert(outv == qv.take(n as int));
            assert(qv.take(n as int) =~= qv);
        }
    }
    Some((out, cur))
}

/// Six abutting pieces that each match a record's fields assemble to the
/// record's encoding.
proof fn lemma_doc_enc_assemble(b: Seq<u8>, d: DocV, p1: int, p2: int, p3: int, p4: int, p5: int)
    requires
        0 <= p1 <= p2 <= p3 <= p4 <= p5 <= b.len(),
        b.subrange(0, p1) == str_enc(d.id),
        b.subrange(p1, p2) == str_enc(d.content),
        b.subrange(p2, p3) == str_enc(d.source_url),
        b.subrange(p3, p4) == str_enc(d.source_title),
        b.subrange(p4, p5) == embed_enc(d.embedding),
        b.subrange(p5, b.len() as int) == pairs_enc(d.metadata),
    ensures
        b == doc_enc(d),
{
    assert(b =~= doc_enc(d)) by {
        assert forall|j: int| 0 <= j < b.len() implies b[j] == #[trigger] doc_enc(d)[j] by {
            if j < p1 {
                assert(b.subrange(0, p1)[j] == b[j]);
            } else if j < p2 {
                assert(b.subrange(p1, p2)[j - p1] == b[j]);
            } else if j < p3 {
                assert(b.subrange(p2, p3)[j - p2] == b[j]);
            } else if j < p4 {
                assert(b.subrange(p3, p4)[j - p3] == b[j]);
            } else if j < p5 {
                assert(b.subrange(p4, p5)[j - p4] == b[j]);
            } else {
                assert(b.subrange(p5, b.len() as int)[j - p5] == b[j]);
            }
        }
    }
}

/// Reads the first two leading length-prefixed strings of a record
/// encoding.
#[verifier::rlimit(100)]
#[verifier::spinoff_prover]
fn try_decode_head_strings(bytes: &Vec<u8>) -> (r: Option<(String, String, usize)>)
    ensures
        r matches Some(p) ==> {
            let (a, b, p2) = p;
            &&& p2 as int == str_enc(a@).len() + str_enc(b@).len()
            &&& p2 <= bytes@.len()
            &&& bytes@.subrange(0, str_enc(a@).len() as int) == str_enc(a@)
            &&& bytes@.subrange(str_enc(a@).len() as int, p2 as int) == str_enc(b@)
        },
        forall|dv: DocV|
            (#[trigger] storable_doc(dv) && bytes@ == doc_enc(dv)) ==> (r matches Some(p) && p.0@
                == dv.id && p.1@ == dv.content && p.2 as int == str_enc(dv.id).len() + str_enc(
                dv.content,
            ).len()),
{
    let ghost prem = |dv: DocV| storable_doc(dv) && bytes@ == doc_enc(dv);
    proof {
        lemma_auto_spec_u64_to_from_le_bytes();
        assert forall|dv: DocV| #[trigger] prem(dv) implies {
            let e1 = str_enc(dv.id);
            &&& 0 + e1.len() <= bytes@.len()
            &&& bytes@.subrange(0, e1.len() as int) == e1
        } by {
            lemma_doc_enc_layout(bytes@, dv);
        }
    }
    let r1 = match read_string_checked(bytes, 0) {
        Some(p) => p,
        None => {
            proof {
                assert forall|dv: DocV|
                    !(#[trigger] storable_doc(dv) && bytes@ == doc_enc(dv)) by {
                    if prem(dv) {
                        assert(bytes@.subrange(0, str_enc(dv.id).len() as int) == str_enc(dv.id));
                    }
                }
            }
            return None;
        },
    };
    let (id, p1) = r1;
    proof {
        assert forall|dv: DocV| #[trigger] prem(dv) implies {
            let e2 = str_enc(dv.content);
            &&& id@ == dv.id
            &&& p1 as int + e2.len() <= bytes@.len()
            &&& bytes@.subrange(p1 as int, p1 as int + e2.len() as int) == e2
        } by {
            lemma_doc_enc_layout(bytes@, dv);
            lemma_subrange_full(doc_enc(dv));
            assert(bytes@.subrange(0, 0 + doc_enc(dv).len() as int) == doc_enc(dv));
            lemma_slice_at(
                bytes@,
                0,
                doc_enc(dv),
                str_enc(dv.id).len() as int,
                str_enc(dv.content),
            );
        }
    }
    let r2 = match read_string_checked(bytes, p1) {
        Some(p) => p,
        None => {
            proof {
                assert forall|dv: DocV|
                    !(#[trigger] storable_doc(dv) && bytes@ == doc_enc(dv)) by {
                    if prem(dv) {
                        assert(bytes@.subrange(
                            p1 as int,
                            p1 as int + str_enc(dv.content).len() as int,
                        ) == str_enc(dv.content));
                    }
                }
            }
            return None;
        },
    };
    let (content, p2) = r2;
    proof {
        assert forall|dv: DocV|
            (#[trigger] storable_doc(dv) && bytes@ == doc_enc(dv)) implies (id@ == dv.id
                && content@ == dv.content && p2 as int == str_enc(dv.id).len() + str_enc(
                dv.content,
            ).len()) by {
            assert(prem(dv));
            assert(bytes@.subrange(p1 as int, p1 as int + str_enc(dv.content).len() as int)
                == str_enc(dv.content));
        }
    }
    Some((id, content, p2))
}

/// Reads the four leading length-prefixed strings of a record encoding.
#[verifier::rlimit(100)]
#[verifier::spinoff_prover]
fn try_decode_strings(bytes: &Vec<u8>) -> (r: Option<(String, String, String, String, usize)>)
    ensures
        r matches Some(p) ==> {
            let (a, b, c, u, p4) = p;
            &&& p4 as int == str_enc(a@).len() + str_enc(b@).len() + str_enc(c@).len() + str_enc(
                u@,
            ).len()
            &&& p4 <= bytes@.len()
            &&& bytes@.subrange(0, str_enc(a@).len() as int) == str_enc(a@)
            &&& bytes@.subrange(
                str_enc(a@).len() as int,
                str_enc(a@).len() as int + str_enc(b@).len() as int,
            ) == str_enc(b@)
            &&& bytes@.subrange(
                str_enc(a@).len() as int + str_enc(b@).len() as int,
                str_enc(a@).len() as int + str_enc(b@).len() as int + str_enc(c@).len() as int,
            ) == str_enc(c@)
            &&& bytes@.subrange(
                str_enc(a@).len() as int + str_enc(b@).len() as int + str_enc(c@).len() as int,
                p4 as int,
            ) == str_enc(u@)
        },
        forall|dv: DocV|
            (#[trigger] storable_doc(dv) && bytes@ == doc_enc(dv)) ==> (r matches Some(p) && p.0@
                == dv.id && p.1@ == dv.content && p.2@ == dv.source_url && p.3@ == dv.source_title
                && p.4 as int == str_enc(dv.id).len() + str_enc(dv.content).len() + str_enc(
                dv.source_url,
            ).len() + str_enc(dv.source_title).len()),
{
    let ghost prem = |dv: DocV| storable_doc(dv) && bytes@ == doc_enc(dv);
    let rh = match try_decode_head_strings(bytes) {
        Some(p) => p,
        None => {
            proof {
                assert forall|dv: DocV|
                    !(#[trigger] storable_doc(dv) && bytes@ == doc_enc(dv)) by {
                    if prem(dv) {
                    }
                }
            }
            return None;
        },
    };
    let (id, content, p2) = rh;
    let rt = match try_decode_tail_strings(bytes, p2) {
        Some(p) => p,
        None => {
            proof {
                assert forall|dv: DocV|
                    !(#[trigger] storable_doc(dv) && bytes@ == doc_enc(dv)) by {
                    if prem(dv) {
                    }
                }
            }
            return None;
        },
    };
    let (source_url, source_title, p4) = rt;
    proof {
        assert forall|dv: DocV|
            (#[trigger] storable_doc(dv) && bytes@ == doc_enc(dv)) implies (id@ == dv.id
                && content@ == dv.content && source_url@ == dv.source_url && source_title@
                == dv.source_title && p4 as int == str_enc(dv.id).len() + str_enc(
                dv.content,
            ).len() + str_enc(dv.source_url).len() + str_enc(dv.source_title).len()) by {
            assert(prem(dv));
        }
    }
    Some((id, content, source_url, source_title, p4))
}

/// Reads the third and fourth leading strings of a record encoding, given
/// where the first two end.
#[verifier::rlimit(100)]
#[verifier::spinoff_prover]
fn try_decode_tail_strings(bytes: &Vec<u8>, p2: usize) -> (r: Option<(String, String, usize)>)
    requires
        p2 <= bytes@.len(),
        forall|dv: DocV|
            (#[trigger] storable_doc(dv) && bytes@ == doc_enc(dv)) ==> p2 as int == str_enc(
                dv.id,
            ).len() + str_enc(dv.content).len(),
    ensures
        r matches Some(p) ==> {
            let (c, u, p4) = p;
            &&& p4 as int == p2 as int + str_enc(c@).len() + str_enc(u@).len()
            &&& p4 <= bytes@.len()
            &&& bytes@.subrange(p2 as int, p2 as int + str_enc(c@).len() as int) == str_enc(c@)
            &&& bytes@.subrange(p2 as int + str_enc(c@).len() as int, p4 as int) == str_enc(u@)
        },
        forall|dv: DocV|
            (#[trigger] storable_doc(dv) && bytes@ == doc_enc(dv)) ==> (r matches Some(p) && p.0@
                == dv.source_url && p.1@ == dv.source_title && p.2 as int == str_enc(
                dv.id,
            ).len() + str_enc(dv.content).len() + str_enc(dv.source_url).len() + str_enc(
                dv.source_title,
            ).len()),
{
    let ghost prem = |dv: DocV| storable_doc(dv) && bytes@ == doc_enc(dv);
    proof {
        lemma_auto_spec_u64_to_from_le_bytes();
        assert forall|dv: DocV| #[trigger] prem(dv) implies {
            let e3 = str_enc(dv.source_url);
            &&& p2 as int + e3.len() <= bytes@.len()
            &&& bytes@.subrange(p2 as int, p2 as int + e3.len() as int) == e3
        } by {
            lemma_doc_enc_layout(bytes@, dv);
            lemma_subrange_full(doc_enc(dv));
            assert(bytes@.subrange(0, 0 + doc_enc(dv).len() as int) == doc_enc(dv));
            lemma_slice_at(
                bytes@,
                0,
                doc_enc(dv),
                str_enc(dv.id).len() as int + str_enc(dv.content).len() as int,
                str_enc(dv.source_url),
            );
        }
    }
    let r3 = match read_string_checked(bytes, p2) {
        Some(p) => p,
        None => {
            proof {
                assert forall|dv: DocV|
                    !(#[trigger] storable_doc(dv) && bytes@ == doc_enc(dv)) by {
                    if prem(dv) {
                        assert(bytes@.subrange(
                            p2 as int,
                            p2 as int + str_enc(dv.source_url).len() as int,
                        ) == str_enc(dv.source_url));
                    }
                }
            }
            return None;
        },
    };
    let (source_url, p3) = r3;
    proof {
        assert forall|dv: DocV| #[trigger] prem(dv) implies {
            let e4 = str_enc(dv.source_title);
            &&& source_url@ == dv.source_url
            &&& p3 as int + e4.len() <= bytes@.len()
            &&& bytes@.subrange(p3 as int, p3 as int + e4.len() as int) == e4
        } by {
            lemma_doc_enc_layout(bytes@, dv);
            lemma_subrange_full(doc_enc(dv));
            assert(bytes@.subrange(0, 0 + doc_enc(dv).len() as int) == doc_enc(dv));
            lemma_slice_at(
                bytes@,
                0,
                doc_enc(dv),
                str_enc(dv.id).len() as int + str_enc(dv.content).len() as int + str_enc(
                    dv.source_url,
                ).len() as int,
                str_enc(dv.source_title),
            );
        }
    }
    let r4 = match read_string_checked(bytes, p3) {
        Some(p) => p,
        None => {
            proof {
                assert forall|dv: DocV|
                    !(#[trigger] storable_doc(dv) && bytes@ == doc_enc(dv)) by {
                    if prem(dv) {
                        assert(bytes@.subrange(
                            p3 as int,
                            p3 as int + str_enc(dv.source_title).len() as int,
                        ) == str_enc(dv.source_title));
                    }
                }
            }
            return None;
        },
    };
    let (source_title, p4) = r4;
    proof {
        assert forall|dv: DocV|
            (#[trigger] storable_doc(dv) && bytes@ == doc_enc(dv)) implies (source_url@
                == dv.source_url && source_title@ == dv.source_title && p4 as int == str_enc(
                dv.id,
            ).len() + str_enc(dv.content).len() + str_enc(dv.source_url).len() + str_enc(
                dv.source_title,
            ).len()) by {
            assert(prem(dv));
            lemma_doc_enc_layout(bytes@, dv);
        }
    }
    Some((source_url, source_title, p4))
}

/// Decodes a record from its binary form, checking everything: the result
/// is `Some(d)` exactly when the buffer is the encoding of some storable
/// record, and then `d` is that record.  Foreign or damaged bytes yield
/// `None`.
#[verifier::rlimit(100)]
#[verifier::spinoff_prover]
pub fn try_decode_document(bytes: &Vec<u8>) -> (r: Option<VectorDocument>)
    ensures
        r matches Some(d) ==> bytes@ == doc_enc(d@) && storable_doc(d@),
        forall|dv: DocV|
            (#[trigger] storable_doc(dv) && bytes@ == doc_enc(dv)) ==> (r matches Some(d) && d@
                == dv),
{
    let total = bytes.len();
    let ghost prem = |dv: DocV| storable_doc(dv) && bytes@ == doc_enc(dv);
    proof {
        lemma_auto_spec_u64_to_from_le_bytes();
    }
    let parsed = match try_decode_strings(bytes) {
        Some(p) => p,
        None => {
            proof {
                assert forall|dv: DocV|
                    !(#[trigger] storable_doc(dv) && bytes@ == doc_enc(dv)) by {
                    if prem(dv) {
                    }
                }
            }
            return None;
        },
    };
    let (id, content, source_url, source_title, p4) = parsed;
    proof {
        assert forall|dv: DocV| #[trigger] prem(dv) implies {
            let e5 = embed_enc(dv.embedding);
            &&& id@ == dv.id
            &&& content@ == dv.content
            &&& source_url@ == dv.source_url
            &&& source_title@ == dv.source_title
            &&& valid_vector(dv.embedding)
            &&& p4 as int + e5.len() <= bytes@.len()
            &&& bytes@.subrange(p4 as int, p4 as int + e5.len() as int) == e5
        } by {
            lemma_doc_enc_layout(bytes@, dv);
            lemma_subrange_full(doc_enc(dv));
            assert(bytes@.subrange(0, 0 + doc_enc(dv).len() as int) == doc_enc(dv));
            lemma_slice_at(
                bytes@,
                0,
                doc_enc(dv),
                str_enc(dv.id).len() as int + str_enc(dv.content).len() as int + str_enc(
                    dv.source_url,
                ).len() as int + str_enc(dv.source_title).len() as int,
                embed_enc(dv.embedding),
            );
        }
    }
    let r5 = match read_embedding_checked(bytes, p4) {
        Some(p) => p,
        None => {
            proof {
                assert forall|dv: DocV|
                    !(#[trigger] storable_doc(dv) && bytes@ == doc_enc(dv)) by {
                    if prem(dv) {
                    }
                }
            }
            return None;
        },
    };
    let (embedding, p5) = r5;
    proof {
        assert forall|dv: DocV| #[trigger] prem(dv) implies {
            let e6 = pairs_enc(dv.metadata);
            &&& embedding@ == dv.embedding
            &&& p5 as int + e6.len() <= bytes@.len()
            &&& bytes@.subrange(p5 as int, p5 as int + e6.len() as int) == e6
        } by {
            lemma_doc_enc_layout(bytes@, dv);
            lemma_subrange_full(doc_enc(dv));
            assert(bytes@.subrange(0, 0 + doc_enc(dv).len() as int) == doc_enc(dv));
            lemma_slice_at(
                bytes@,
                0,
                doc_enc(dv),
                str_enc(dv.id).len() as int + str_enc(dv.content).len() as int + str_enc(
                    dv.source_url,
                ).len() as int + str_enc(dv.source_title).len() as int + embed_enc(
                    dv.embedding,
                ).len() as int,
                pairs_enc(dv.metadata),
            );
        }
    }
    let r6 = match read_pairs_checked(bytes, p5) {
        Some(p) => p,
        None => {
            proof {
                assert forall|dv: DocV|
                    !(#[trigger] storable_doc(dv) && bytes@ == doc_enc(dv)) by {
                    if prem(dv) {
                    }
                }
            }
            return None;
        },
    };
    let (metadata, p6) = r6;
    if p6 != total {
        proof {
            assert forall|dv: DocV| !(#[trigger] storable_doc(dv) && bytes@ == doc_enc(dv)) by {
                if prem(dv) {
                    lemma_doc_enc_layout(bytes@, dv);
                    assert(metadata@.map_values(|q: (String, String)| (q.0@, q.1@)) == dv.metadata);
                }
            }
        }
        return None;
    }
    if embedding.len() != EMBED_DIM {
        proof {
            assert forall|dv: DocV| !(#[trigger] storable_doc(dv) && bytes@ == doc_enc(dv)) by {
                if prem(dv) {
                    assert(dv.embedding.len() == EMBED_DIM);
                }
            }
        }
        return None;
    }
    let d = VectorDocument { id, content, source_url, source_title, embedding, metadata };
    proof {
        let q1 = str_enc(d@.id).len() as int;
        let q2 = q1 + str_enc(d@.content).len() as int;
        let q3 = q2 + str_enc(d@.source_url).len() as int;
        lemma_doc_enc_assemble(bytes@, d@, q1, q2, q3, p4 as int, p5 as int);
        assert forall|dv: DocV|
            (#[trigger] storable_doc(dv) && bytes@ == doc_enc(dv)) implies d@ == dv by {
            assert(prem(dv));
            assert(bytes@.subrange(p5 as int, p5 as int + pairs_enc(dv.metadata).len() as int)
                == pairs_enc(dv.metadata));
            assert(metadata@.map_values(|q: (String, String)| (q.0@, q.1@)) == dv.metadata);
            assert(embedding@ == dv.embedding);
        }
    }
    Some(d)
}

} // verus!
