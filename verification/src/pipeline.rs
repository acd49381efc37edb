//! The ingestion and retrieval pipeline: a page is chunked, each retained
//! chunk embedded and cached, and the cache persisted as vector records;
//! a query is embedded and answered from the store, falling back to the
//! in-process cache when the store yields nothing.

use vstd::prelude::*;
use vstd::string::StrSliceExecFns;
use vstd::string::StringExecFns;
use vstd::string::StringSliceAdditionalSpecFns;
use vstd::utf8::encode_utf8;
use crate::{EMBED_DIM, valid_vector};
use crate::chars::{is_space_spec, is_space, trim_spec, trim_str, decimal_spec, usize_to_string, push_char, str_eq};
use crate::chunker::{chunks_spec, split_into_chunks};
use crate::config::EmbeddingConfig;
use crate::embedding::{chosen_embedding, embedding_from_remote};
use crate::errors::AppResult;
use crate::record::{TextChunk, ChunkV, VectorDocument};
use crate::similarity::{cosine_sim_spec, cosine_similarity};
use crate::store::{VectorDatabase, storable, doc_insert_all, lemma_doc_insert_all_cat, rank_scored, sorted_desc};
use crate::record::{key_bytes, DocV};
use crate::validation::is_alphanumeric_spec;

verus! {

/// A retrieved chunk with its similarity to the query.
pub struct SimilarityResult {
    /// The retrieved chunk (its embedding is not carried back).
    pub chunk: TextChunk,
    /// Fixed-point cosine similarity to the query.
    pub similarity_score: i64,
}

/// Stands for what `str::to_lowercase` returns: the Unicode lowercase
/// rendering of the string, a function of its characters alone.
pub uninterp spec fn lower_of(s: Seq<char>) -> Seq<char>;

/// Relies on `str::to_lowercase`: deterministic Unicode lowercasing; an
/// empty string stays empty.
#[verifier::external_body]
fn to_lowercase_str(s: &str) -> (r: String)
    ensures
        r@ == lower_of(s@),
        s@.len() == 0 ==> r@.len() == 0,
{
    s.to_lowercase()
}

/// A character the sanitized title keeps.
pub open spec fn keep_char(c: char) -> bool {
    is_alphanumeric_spec(c) || is_space_spec(c)
}

/// Spaces become underscores; everything else kept stays itself.
pub open spec fn underscore_char(c: char) -> char {
    if c == ' ' {
        '_'
    } else {
        c
    }
}

/// The sanitized title before lowercasing: only alphanumeric and whitespace
/// characters kept, spaces turned into underscores.
pub open spec fn sanitize_mid(t: Seq<char>) -> Seq<char>
    decreases t.len(),
{
    if t.len() == 0 {
        Seq::empty()
    } else {
        sanitize_mid(t.drop_last()) + if keep_char(t.last()) {
            seq![underscore_char(t.last())]
        } else {
            Seq::empty()
        }
    }
}

/// The sanitized title: kept characters, underscored, lowercased.
pub open spec fn sanitize_spec(t: Seq<char>) -> Seq<char> {
    lower_of(sanitize_mid(t))
}

/// The id of the chunk with ordinal `k` of a page: the sanitized title, an
/// underscore, and the ordinal in decimal.
pub open spec fn chunk_id_spec(title: Seq<char>, k: int) -> Seq<char> {
    sanitize_spec(title) + "_"@ + decimal_spec(k as nat)
}

/// A chunk is retained when its trimmed text is at least 50 bytes.
pub open spec fn chunk_retained(c: Seq<char>) -> bool {
    (encode_utf8(trim_spec(c)).len() as usize) >= 50
}

/// The remote embedding offered for chunk `k`, if the caller supplied one.
pub open spec fn remote_at(remotes: Seq<Option<Seq<i64>>>, k: int) -> Option<Seq<i64>> {
    if 0 <= k < remotes.len() {
        remotes[k]
    } else {
        None
    }
}

/// The cached chunk built for chunk `k` of a page.
pub open spec fn chunk_v(
    title: Seq<char>,
    url: Seq<char>,
    content: Seq<char>,
    byte_len: int,
    k: int,
    remote: Option<Seq<i64>>,
) -> ChunkV {
    ChunkV {
        id: chunk_id_spec(title, k),
        content: content,
        source_url: url,
        source_title: title,
        embedding: Some(chosen_embedding(content, byte_len, remote)),
        metadata: seq![("source_type"@, "wiki"@), ("chunk_index"@, decimal_spec(k as nat))],
    }
}

/// The chunks cached for a page: for each retained chunk (at least 50
/// trimmed bytes), the cache entry built from it with its offered remote
/// embedding, in chunk order.
pub open spec fn processed_prefix(
    title: Seq<char>,
    url: Seq<char>,
    cs: Seq<Seq<char>>,
    rem: Seq<Option<Seq<i64>>>,
    k: int,
) -> Seq<ChunkV>
    decreases k,
{
    if k <= 0 {
        Seq::empty()
    } else {
        processed_prefix(title, url, cs, rem, k - 1) + if chunk_retained(cs[k - 1]) {
            seq![
                chunk_v(
                    title,
                    url,
                    cs[k - 1],
                    encode_utf8(cs[k - 1]).len() as usize as int,
                    k - 1,
                    remote_at(rem, k - 1),
                ),
            ]
        } else {
            Seq::empty()
        }
    }
}

/// The record a cached chunk is persisted as.
pub open spec fn doc_of_chunk(c: ChunkV) -> crate::record::DocV {
    crate::record::DocV {
        id: c.id,
        content: c.content,
        source_url: c.source_url,
        source_title: c.source_title,
        embedding: match c.embedding {
            Some(e) => e,
            None => Seq::empty(),
        },
        metadata: c.metadata,
    }
}

/// The similarity score a cached chunk gets against the query embedding.
pub open spec fn cache_score(qe: Seq<i64>, c: ChunkV) -> int {
    match c.embedding {
        Some(e) => cosine_sim_spec(qe, e),
        None => 0,
    }
}

/// A retrieved result drawn from a stored record: the chunk copies the
/// record's fields, carries no embedding back, and is scored by the
/// record's cosine similarity to the query embedding.
pub open spec fn store_result_ok(
    docs: Map<Seq<u8>, crate::record::DocV>,
    qe: Seq<i64>,
    c: ChunkV,
    s: i64,
) -> bool {
    &&& c.embedding is None
    &&& docs.contains_key(key_bytes(c.id))
    &&& {
        let dd = docs[key_bytes(c.id)];
        &&& dd.id == c.id
        &&& dd.content == c.content
        &&& dd.source_url == c.source_url
        &&& dd.source_title == c.source_title
        &&& dd.metadata == c.metadata
        &&& s == cosine_sim_spec(qe, dd.embedding)
    }
}

/// A retrieved result drawn from the in-process cache: some cached chunk
/// with its cosine similarity to the query embedding.
pub open spec fn cache_result_ok(cache: Seq<ChunkV>, qe: Seq<i64>, c: ChunkV, s: i64) -> bool {
    exists|t: int| 0 <= t < cache.len() && c == #[trigger] cache[t] && s == cache_score(qe, cache[t])
}

/// A cached chunk is well formed when it carries a storable embedding.
pub open spec fn cached_chunk_wf(c: ChunkV) -> bool {
    match c.embedding {
        Some(e) => valid_vector(e) && e.len() == EMBED_DIM,
        None => false,
    }
}

/// The ingestion and retrieval pipeline, owning the in-process chunk cache.
pub struct EmbeddingService {
    config: EmbeddingConfig,
    chunks: Vec<TextChunk>,
}

impl EmbeddingService {
    /// The pipeline is well formed: its chunking configuration is valid and
    /// every cached chunk carries a storable embedding.
    pub closed spec fn wf(self) -> bool {
        &&& self.config.valid()
        &&& forall|i: int|
            0 <= i < self.chunks@.len() ==> cached_chunk_wf((#[trigger] self.chunks@[i])@)
    }

    /// The cached chunks.
    pub closed spec fn cache(self) -> Seq<ChunkV> {
        self.chunks@.map_values(|c: TextChunk| c@)
    }

    /// The configured words per chunk.
    pub closed spec fn chunk_size_spec(self) -> int {
        self.config.chunk_size as int
    }

    /// The configured chunk overlap in words.
    pub closed spec fn overlap_spec(self) -> int {
        self.config.chunk_overlap as int
    }

    /// A fresh pipeline with an empty cache.
    pub fn new(config: EmbeddingConfig) -> (r: EmbeddingService)
        requires
            config.valid(),
        ensures
            r.wf(),
            r.cache().len() == 0,
            r.chunk_size_spec() == config.chunk_size as int,
            r.overlap_spec() == config.chunk_overlap as int,
    {
        let r = EmbeddingService { config, chunks: Vec::new() };
        proof {
            assert(r.cache() =~= Seq::<ChunkV>::empty());
        }
        r
    }

    /// Splits content into this pipeline's overlapping word windows.
    pub fn split_into_chunks(&self, content: &str) -> (r: Vec<String>)
        requires
            self.wf(),
        ensures
            r@.map_values(|c: String| c@) == chunks_spec(
                content@,
                self.chunk_size_spec(),
                self.overlap_spec(),
            ),
    {
        split_into_chunks(content, self.config.chunk_size, self.config.chunk_overlap)
    }

    /// Sanitizes a page title into an id stem: alphanumeric and whitespace
    /// characters kept, spaces underscored, lowercased.
    pub fn sanitize_title(&self, title: &str) -> (r: String)
        ensures
            r@ == sanitize_spec(title@),
    {
        let n = title.unicode_len();
        let mut mid = String::new();
        let mut i: usize = 0;
        proof {
            assert(title@.take(0) =~= Seq::<char>::empty());
            assert(mid@ =~= sanitize_mid(title@.take(0)));
        }
        while i < n
            invariant
                n == title@.len(),
                i <= n,
                mid@ == sanitize_mid(title@.take(i as int)),
            decreases n - i,
        {
            let c = title.get_char(i);
            proof {
                let t = title@.take(i as int + 1);
                assert(t.drop_last() =~= title@.take(i as int));
                assert(t.last() == title@[i as int]);
            }
            if c.is_alphanumeric() || is_space(c) {
                let c2 = if c == ' ' {
                    '_'
                } else {
                    c
                };
                push_char(&mut mid, c2);
                proof {
                    assert(mid@ =~= sanitize_mid(title@.take(i as int)) + seq![
                        underscore_char(title@[i as int]),
                    ]);
                }
            } else {
                proof {
                    assert(mid@ =~= sanitize_mid(title@.take(i as int)) + Seq::<char>::empty());
                }
            }
            i = i + 1;
        }
        proof {
            assert(title@.take(n as int) =~= title@);
        }
        to_lowercase_str(mid.as_str())
    }

    /// The id of the chunk with ordinal `k` of the given page.
    fn chunk_id(&self, title: &str, k: usize) -> (r: String)
        ensures
            r@ == chunk_id_spec(title@, k as int),
    {
        let mut r = self.sanitize_title(title);
        proof {
            reveal_strlit("_");
        }
        push_char(&mut r, '_');
        let digits = usize_to_string(k);
        r.append(digits.as_str());
        proof {
            assert(sanitize_spec(title@).push('_') =~= sanitize_spec(title@) + "_"@);
        }
        r
    }

    /// Embeds a text, taking a usable remote vector when one is supplied and
    /// the deterministic fallback otherwise; the result always has exactly
    /// [`EMBED_DIM`] entries.
    pub fn embed_text(&self, text: &str, remote: Option<Vec<i64>>) -> (r: AppResult<Vec<i64>>)
        ensures
            r matches Ok(v) && v@.len() == EMBED_DIM && valid_vector(v@) && v@
                == chosen_embedding(
                text@,
                text.spec_bytes().len() as usize as int,
                match remote {
                    Some(v0) => Some(v0@),
                    None => None,
                },
            ),
    {
        Ok(embedding_from_remote(text, remote))
    }

    /// How many chunks the in-process cache holds.
    pub fn get_chunk_count(&self) -> (r: usize)
        ensures
            r == self.cache().len(),
    {
        self.chunks.len()
    }

    /// Ingests one page: chunks its content, discards chunks under 50
    /// trimmed bytes as noise, embeds each retained chunk (taking a usable
    /// supplied remote embedding, falling back to the deterministic one),
    /// appends it to the in-process cache, and upserts the page's records
    /// into the store in batches of the configured size.  A storage failure
    /// is reported but does not unwind the cache, which remains a valid
    /// fallback search surface.
    pub fn process_wiki_page(
        &mut self,
        db: &mut VectorDatabase,
        title: &str,
        url: &str,
        content: &str,
        remotes: &Vec<Option<Vec<i64>>>,
    ) -> (r: AppResult<()>)
        requires
            old(self).wf(),
            old(db).wf(),
        ensures
            final(self).wf(),
            final(db).wf(),
            final(db).is_ephemeral() == old(db).is_ephemeral(),
            final(self).chunk_size_spec() == old(self).chunk_size_spec(),
            final(self).overlap_spec() == old(self).overlap_spec(),
            final(self).cache() == old(self).cache() + processed_prefix(
                title@,
                url@,
                chunks_spec(content@, old(self).chunk_size_spec(), old(self).overlap_spec()),
                remotes@.map_values(
                    |o: Option<Vec<i64>>|
                        match o {
                            Some(v) => Some(v@),
                            None => None,
                        },
                ),
                chunks_spec(content@, old(self).chunk_size_spec(), old(self).overlap_spec()).len()
                    as int,
            ),
            r is Ok ==> final(db).docs() == doc_insert_all(
                old(db).docs(),
                processed_prefix(
                    title@,
                    url@,
                    chunks_spec(content@, old(self).chunk_size_spec(), old(self).overlap_spec()),
                    remotes@.map_values(
                        |o: Option<Vec<i64>>|
                            match o {
                                Some(v) => Some(v@),
                                None => None,
                            },
                    ),
                    chunks_spec(
                        content@,
                        old(self).chunk_size_spec(),
                        old(self).overlap_spec(),
                    ).len() as int,
                ).map_values(|c: ChunkV| doc_of_chunk(c)),
            ),
            r matches Err(e) ==> e is StorageError,
    {
        let chunks = self.split_into_chunks(content);
        let ghost cs = chunks@.map_values(|c: String| c@);
        let ghost rem = remotes@.map_values(
            |o: Option<Vec<i64>>|
                match o {
                    Some(v) => Some(v@),
                    None => None,
                },
        );
        let ghost cfg0 = self.config;
        let ghost cache0 = self.cache();
        let ghost db0 = old(db).docs();
        let mut batch_docs: Vec<VectorDocument> = Vec::new();
        let mut store_failed = false;
        let ghost mut inserted: Seq<DocV> = Seq::empty();
        let mut k: usize = 0;
        proof {
            assert(self.cache() =~= cache0 + processed_prefix(title@, url@, cs, rem, 0));
            assert(inserted + batch_docs@.map_values(|d: VectorDocument| d@) =~= processed_prefix(
                title@,
                url@,
                cs,
                rem,
                0,
            ).map_values(|c: ChunkV| doc_of_chunk(c)));
        }
        while k < chunks.len()
            invariant
                old(self).wf(),
                cs == chunks@.map_values(|c: String| c@),
                rem == remotes@.map_values(
                    |o: Option<Vec<i64>>|
                        match o {
                            Some(v) => Some(v@),
                            None => None,
                        },
                ),
                k <= chunks@.len(),
                self.config == cfg0,
                cfg0 == old(self).config,
                cache0 == old(self).cache(),
                db0 == old(db).docs(),
                self.wf(),
                db.wf(),
                db.is_ephemeral() == old(db).is_ephemeral(),
                self.cache() == cache0 + processed_prefix(title@, url@, cs, rem, k as int),
                forall|j: int|
                    0 <= j < batch_docs@.len() ==> storable((#[trigger] batch_docs@[j])@),
                inserted + batch_docs@.map_values(|d: VectorDocument| d@) == processed_prefix(
                    title@,
                    url@,
                    cs,
                    rem,
                    k as int,
                ).map_values(|c: ChunkV| doc_of_chunk(c)),
                !store_failed ==> db.docs() == doc_insert_all(db0, inserted),
            decreases chunks@.len() - k,
        {
            let chunk = &chunks[k];
            let trimmed = trim_str(chunk.as_str());
            proof {
                assert(chunk@ == cs[k as int]);
            }
            if trimmed.as_str().len() >= 50 {
                let id = self.chunk_id(title, k);
                let remote: Option<Vec<i64>> = if k < remotes.len() {
                    match &remotes[k] {
                        Some(v) => Some(v.clone()),
                        None => None,
                    }
                } else {
                    None
                };
                proof {
                    assert(match remote {
                        Some(v) => Some(v@) == remote_at(rem, k as int),
                        None => None::<Seq<i64>> == remote_at(rem, k as int),
                    });
                }
                let emb = embedding_from_remote(chunk.as_str(), remote);
                let mut metadata: Vec<(String, String)> = Vec::new();
                metadata.push(("source_type".to_owned(), "wiki".to_owned()));
                metadata.push(("chunk_index".to_owned(), usize_to_string(k)));
                let mut metadata2: Vec<(String, String)> = Vec::new();
                metadata2.push(("source_type".to_owned(), "wiki".to_owned()));
                metadata2.push(("chunk_index".to_owned(), usize_to_string(k)));
                let doc = VectorDocument {
                    id: id.clone(),
                    content: chunk.clone(),
                    source_url: url.to_owned(),
                    source_title: title.to_owned(),
                    embedding: emb.clone(),
                    metadata: metadata2,
                };
                let tc = TextChunk {
                    id,
                    content: chunk.clone(),
                    source_url: url.to_owned(),
                    source_title: title.to_owned(),
                    embedding: Some(emb),
                    metadata,
                };
                let ghost cv = chunk_v(
                    title@,
                    url@,
                    cs[k as int],
                    encode_utf8(cs[k as int]).len() as usize as int,
                    k as int,
                    remote_at(rem, k as int),
                );
                proof {
                    assert(tc@.metadata =~= seq![
                        ("source_type"@, "wiki"@),
                        ("chunk_index"@, decimal_spec(k as nat)),
                    ]);
                    assert(doc@.metadata =~= seq![
                        ("source_type"@, "wiki"@),
                        ("chunk_index"@, decimal_spec(k as nat)),
                    ]);
                    assert(tc@ == cv);
                    assert(doc@ == doc_of_chunk(cv));
                    assert(chunk_retained(cs[k as int]));
                    assert(storable(doc@));
                }
                let ghost prev_cache = self.cache();
                let ghost prev_pending = batch_docs@.map_values(|d: VectorDocument| d@);
                self.chunks.push(tc);
                batch_docs.push(doc);
                proof {
                    assert(self.cache() =~= prev_cache.push(cv));
                    assert(self.cache() =~= cache0 + processed_prefix(
                        title@,
                        url@,
                        cs,
                        rem,
                        k as int + 1,
                    ));
                    assert(batch_docs@.map_values(|d: VectorDocument| d@) =~= prev_pending.push(
                        doc_of_chunk(cv),
                    ));
                    assert(processed_prefix(title@, url@, cs, rem, k as int + 1).map_values(
                        |c: ChunkV| doc_of_chunk(c),
                    ) =~= processed_prefix(title@, url@, cs, rem, k as int).map_values(
                        |c: ChunkV| doc_of_chunk(c),
                    ).push(doc_of_chunk(cv)));
                    assert(inserted + batch_docs@.map_values(|d: VectorDocument| d@) =~=
                        processed_prefix(title@, url@, cs, rem, k as int + 1).map_values(
                        |c: ChunkV| doc_of_chunk(c),
                    ));
                }
                if batch_docs.len() >= self.config.batch_size && self.config.batch_size > 0 {
                    let ghost pending = batch_docs@.map_values(|d: VectorDocument| d@);
                    let to_insert = batch_docs;
                    batch_docs = Vec::new();
                    match db.insert_documents(to_insert) {
                        Ok(()) => {
                            proof {
                                if !store_failed {
                                    lemma_doc_insert_all_cat(db0, inserted, pending);
                                }
                                inserted = inserted + pending;
                                assert(batch_docs@.map_values(|d: VectorDocument| d@) =~= Seq::<
                                    DocV,
                                >::empty());
                                assert(inserted + batch_docs@.map_values(
                                    |d: VectorDocument| d@,
                                ) =~= inserted);
                            }
                        },
                        Err(_) => {
                            store_failed = true;
                            proof {
                                inserted = inserted + pending;
                                assert(batch_docs@.map_values(|d: VectorDocument| d@) =~= Seq::<
                                    DocV,
                                >::empty());
                                assert(inserted + batch_docs@.map_values(
                                    |d: VectorDocument| d@,
                                ) =~= inserted);
                            }
                        },
                    }
                }
            } else {
                proof {
                    assert(!chunk_retained(cs[k as int]));
                    assert(self.cache() =~= cache0 + processed_prefix(
                        title@,
                        url@,
                        cs,
                        rem,
                        k as int + 1,
                    ));
                    assert(processed_prefix(title@, url@, cs, rem, k as int + 1).map_values(
                        |c: ChunkV| doc_of_chunk(c),
                    ) =~= processed_prefix(title@, url@, cs, rem, k as int).map_values(
                        |c: ChunkV| doc_of_chunk(c),
                    ));
                }
            }
            k = k + 1;
        }
        if batch_docs.len() > 0 {
            let ghost pending = batch_docs@.map_values(|d: VectorDocument| d@);
            let to_insert = batch_docs;
            batch_docs = Vec::new();
            match db.insert_documents(to_insert) {
                Ok(()) => {
                    proof {
                        if !store_failed {
                            lemma_doc_insert_all_cat(db0, inserted, pending);
                        }
                        inserted = inserted + pending;
                    }
                },
                Err(_) => {
                    store_failed = true;
                    proof {
                        inserted = inserted + pending;
                    }
                },
            }
        } else {
            proof {
                assert(inserted =~= inserted + batch_docs@.map_values(|d: VectorDocument| d@));
            }
        }
        proof {
            assert(cs.take(cs.len() as int) =~= cs);
            assert(inserted =~= processed_prefix(title@, url@, cs, rem, cs.len() as int).map_values(
                |c: ChunkV| doc_of_chunk(c),
            ));
        }
        if store_failed {
            return Err(
                crate::errors::AppError::StorageError(
                    "a record batch could not be persisted; cached chunks remain searchable".to_owned(),
                ),
            );
        }
        Ok(())
    }

    /// Retrieves the chunks most similar to a query: embeds the query,
    /// searches the store, and, when the store yields nothing but the
    /// in-process cache is populated, ranks the cache instead.  Scores
    /// never increase along the result, which holds at most `limit`
    /// entries; every result carries its true cosine similarity to the
    /// chosen query embedding.
    pub fn search_similar(
        &self,
        db: &VectorDatabase,
        query: &str,
        remote: Option<Vec<i64>>,
        limit: usize,
    ) -> (r: AppResult<Vec<SimilarityResult>>)
        requires
            self.wf(),
            db.wf(),
        ensures
            r matches Ok(rs) ==> {
                let qe = chosen_embedding(
                    query@,
                    query.spec_bytes().len() as usize as int,
                    match remote {
                        Some(v) => Some(v@),
                        None => None,
                    },
                );
                &&& rs@.len() == (if vstd::math::min(limit as int, db.docs().len() as int) > 0 {
                    vstd::math::min(limit as int, db.docs().len() as int)
                } else if self.cache().len() > 0 {
                    vstd::math::min(limit as int, self.cache().len() as int)
                } else {
                    0int
                })
                &&& rs@.len() <= limit
                &&& forall|a: int, b: int|
                    0 <= a < b < rs@.len() ==> (#[trigger] rs@[a]).similarity_score >= (
                    #[trigger] rs@[b]).similarity_score
                &&& (if vstd::math::min(limit as int, db.docs().len() as int) > 0 {
                    forall|i: int|
                        0 <= i < rs@.len() ==> store_result_ok(
                            db.docs(),
                            qe,
                            (#[trigger] rs@[i]).chunk@,
                            rs@[i].similarity_score,
                        )
                } else {
                    forall|i: int|
                        0 <= i < rs@.len() ==> cache_result_ok(
                            self.cache(),
                            qe,
                            (#[trigger] rs@[i]).chunk@,
                            rs@[i].similarity_score,
                        )
                })
            },
            r matches Err(e) ==> e is StorageError,
    {
        let emb = embedding_from_remote(query, remote);
        let results = match db.search_similar(emb.clone(), limit) {
            Ok(rs) => rs,
            Err(e) => {
                return Err(e);
            },
        };
        if results.len() == 0 && self.chunks.len() > 0 {
            let mut scored: Vec<(TextChunk, i64)> = Vec::new();
            let mut i: usize = 0;
            while i < self.chunks.len()
                invariant
                    self.wf(),
                    valid_vector(emb@),
                    i <= self.chunks@.len(),
                    scored@.len() == i,
                    forall|t: int|
                        0 <= t < i ==> (#[trigger] scored@[t]).0@ == self.cache()[t]
                            && scored@[t].1 == cache_score(emb@, self.cache()[t]),
                decreases self.chunks@.len() - i,
            {
                match &self.chunks[i].embedding {
                    Some(ce) => {
                        proof {
                            assert(cached_chunk_wf(self.chunks@[i as int]@));
                        }
                        let score = cosine_similarity(&emb, ce);
                        let c = self.chunks[i].clone();
                        proof {
                            assert(c@ == self.cache()[i as int]);
                            assert(ce@ == match self.cache()[i as int].embedding {
                                Some(e) => e,
                                None => Seq::<i64>::empty(),
                            });
                        }
                        scored.push((c, score));
                    },
                    None => {
                        proof {
                            assert(cached_chunk_wf(self.chunks@[i as int]@));
                            assert(false);
                        }
                    },
                }
                i = i + 1;
            }
            let ghost scored0 = scored@;
            proof {
                assert(scored0.len() == self.cache().len());
            }
            let ranked = rank_scored(scored, limit);
            proof {
                assert forall|t: int|
                    0 <= t < ranked@.len() implies cache_result_ok(
                    self.cache(),
                    emb@,
                    (#[trigger] ranked@[t]).0@,
                    ranked@[t].1,
                ) by {
                    assert(scored0.to_multiset().count(ranked@[t]) > 0);
                    scored0.to_multiset_ensures();
                    assert(scored0.contains(ranked@[t]));
                    let t2 = choose|t2: int| 0 <= t2 < scored0.len() && scored0[t2] == ranked@[t];
                    assert(scored0[t2].0@ == self.cache()[t2] && scored0[t2].1 == cache_score(
                        emb@,
                        self.cache()[t2],
                    ));
                }
            }
            let mut out: Vec<SimilarityResult> = Vec::new();
            let mut j: usize = 0;
            while j < ranked.len()
                invariant
                    self.wf(),
                    valid_vector(emb@),
                    sorted_desc(ranked@),
                    ranked@.len() <= limit,
                    forall|t: int|
                        0 <= t < ranked@.len() ==> cache_result_ok(
                            self.cache(),
                            emb@,
                            (#[trigger] ranked@[t]).0@,
                            ranked@[t].1,
                        ),
                    j <= ranked@.len(),
                    out@.len() == j,
                    forall|t2: int|
                        0 <= t2 < j ==> (#[trigger] out@[t2]).similarity_score == ranked@[t2].1
                            && out@[t2].chunk@ == ranked@[t2].0@,
                decreases ranked@.len() - j,
            {
                let c = ranked[j].0.clone();
                let s = ranked[j].1;
                out.push(SimilarityResult { chunk: c, similarity_score: s });
                j = j + 1;
            }
            proof {
                assert forall|i2: int|
                    0 <= i2 < out@.len() implies cache_result_ok(
                    self.cache(),
                    emb@,
                    (#[trigger] out@[i2]).chunk@,
                    out@[i2].similarity_score,
                ) by {
                    assert(out@[i2].chunk@ == ranked@[i2].0@);
                }
            }
            return Ok(out);
        }
        let mut out: Vec<SimilarityResult> = Vec::new();
        let mut i: usize = 0;
        while i < results.len()
            invariant
                self.wf(),
                db.wf(),
                valid_vector(emb@),
                sorted_desc(results@),
                results@.len() <= limit,
                forall|t: int|
                    0 <= t < results@.len() ==> {
                        let (d, s) = #[trigger] results@[t];
                        &&& db.docs().contains_key(key_bytes(d@.id))
                        &&& db.docs()[key_bytes(d@.id)] == d@
                        &&& s == cosine_sim_spec(emb@, d@.embedding)
                    },
                i <= results@.len(),
                out@.len() == i,
                forall|t2: int|
                    0 <= t2 < i ==> (#[trigger] out@[t2]).similarity_score == results@[t2].1
                        && store_result_ok(
                        db.docs(),
                        emb@,
                        out@[t2].chunk@,
                        out@[t2].similarity_score,
                    ),
            decreases results@.len() - i,
        {
            let d = results[i].0.clone();
            let s = results[i].1;
            proof {
                assert(d@ == results@[i as int].0@);
            }
            let chunk = TextChunk {
                id: d.id,
                content: d.content,
                source_url: d.source_url,
                source_title: d.source_title,
                embedding: None,
                metadata: d.metadata,
            };
            proof {
                assert(chunk@.id == results@[i as int].0@.id);
                assert(store_result_ok(db.docs(), emb@, chunk@, s));
            }
            out.push(SimilarityResult { chunk, similarity_score: s });
            i = i + 1;
        }
        Ok(out)
    }

    /// The cached chunks that came from the given source address.
    pub fn get_chunks_for_source(&self, source_url: &str) -> (r: Vec<TextChunk>)
        ensures
            r@.map_values(|c: TextChunk| c@) == self.cache().filter(
                |c: ChunkV| c.source_url == source_url@,
            ),
    {
        let mut r: Vec<TextChunk> = Vec::new();
        let mut i: usize = 0;
        proof {
            reveal(Seq::filter);
            let pred = |c: ChunkV| c.source_url == source_url@;
            assert(self.cache().take(0) =~= Seq::<ChunkV>::empty());
            assert(Seq::<ChunkV>::empty().filter(pred) =~= Seq::<ChunkV>::empty());
            assert(r@.map_values(|c: TextChunk| c@) =~= Seq::<ChunkV>::empty());
        }
        while i < self.chunks.len()
            invariant
                i <= self.chunks@.len(),
                r@.map_values(|c: TextChunk| c@) == self.cache().take(i as int).filter(
                    |c: ChunkV| c.source_url == source_url@,
                ),
            decreases self.chunks@.len() - i,
        {
            let ghost pred = |c: ChunkV| c.source_url == source_url@;
            proof {
                reveal(Seq::filter);
                let t = self.cache().take(i as int + 1);
                assert(t.drop_last() =~= self.cache().take(i as int));
                assert(t.last() == self.cache()[i as int]);
                assert(t.filter(pred) == if pred(t.last()) {
                    t.drop_last().filter(pred).push(t.last())
                } else {
                    t.drop_last().filter(pred)
                });
            }
            if str_eq(self.chunks[i].source_url.as_str(), source_url) {
                let c = self.chunks[i].clone();
                let ghost old_map = r@.map_values(|c: TextChunk| c@);
                r.push(c);
                proof {
                    assert(self.cache()[i as int].source_url == source_url@);
                    assert(r@.map_values(|c: TextChunk| c@) =~= old_map.push(
                        self.cache()[i as int],
                    ));
                }
            } else {
                proof {
                    assert(self.cache()[i as int].source_url != source_url@);
                }
            }
            i = i + 1;
        }
        proof {
            reveal(Seq::filter);
            assert(self.cache().take(self.cache().len() as int) =~= self.cache());
        }
        r
    }
}

} // verus!
