//! The vector store: batched persistence of records in an embedded
//! key-value tree and nearest-neighbour search by cosine similarity over a
//! full linear scan.  A durable on-disk mode and an ephemeral in-memory
//! fallback mode share the same code and contracts.

use vstd::prelude::*;
use vstd::seq_lib::group_seq_properties;
use vstd::multiset::Multiset;
use crate::{EMBED_DIM, valid_vector};
use crate::chars::str_eq;
use crate::errors::{AppError, AppResult};
use crate::record::{VectorDocument, DocV, doc_enc, key_bytes, storable_doc, encode_document, encode_key, try_decode_document};
use crate::similarity::{cosine_sim_spec, cosine_similarity};
use vstd::utf8::{encode_utf8_decode_utf8};

verus! {

#[verifier::external_type_specification]
#[verifier::external_body]
pub struct ExDb(sled::Db);

#[verifier::external_type_specification]
#[verifier::external_body]
pub struct ExBatch(sled::Batch);

/// Stands for the contents of a sled tree: the finite map from keys to
/// values it holds.
pub uninterp spec fn db_map(db: sled::Db) -> Map<Seq<u8>, Seq<u8>>;

/// Stands for the pending writes of a sled batch: for each touched key,
/// `Some` value to be set or `None` for removal.
pub uninterp spec fn batch_writes(b: sled::Batch) -> Map<Seq<u8>, Option<Seq<u8>>>;

/// The map that applying the writes `w` to `m` produces: a `Some` write sets
/// the key, a `None` write removes it, untouched keys keep their value.
pub open spec fn apply_writes(m: Map<Seq<u8>, Seq<u8>>, w: Map<Seq<u8>, Option<Seq<u8>>>) -> Map<
    Seq<u8>,
    Seq<u8>,
> {
    Map::new(
        |k: Seq<u8>|
            if w.contains_key(k) {
                w[k] is Some
            } else {
                m.contains_key(k)
            },
        |k: Seq<u8>|
            if w.contains_key(k) {
                w[k]->0
            } else {
                m[k]
            },
    )
}

pub proof fn lemma_apply_empty(m: Map<Seq<u8>, Seq<u8>>)
    ensures
        apply_writes(m, Map::empty()) == m,
{
    assert(apply_writes(m, Map::empty()) =~= m);
}

pub proof fn lemma_apply_insert(
    m: Map<Seq<u8>, Seq<u8>>,
    w: Map<Seq<u8>, Option<Seq<u8>>>,
    k: Seq<u8>,
    v: Seq<u8>,
)
    ensures
        apply_writes(m, w.insert(k, Some(v))) == apply_writes(m, w).insert(k, v),
{
    assert(apply_writes(m, w.insert(k, Some(v))) =~= apply_writes(m, w).insert(k, v));
}

/// A record is storable when its embedding is valid and of the fixed
/// dimensionality.
pub open spec fn storable(d: DocV) -> bool {
    storable_doc(d)
}

/// The entry `k -> bytes` holds a record: the bytes encode some storable
/// record whose id has exactly these key bytes.
pub open spec fn entry_doc_ok(k: Seq<u8>, bytes: Seq<u8>) -> bool {
    exists|dv: DocV| #[trigger] storable(dv) && bytes == doc_enc(dv) && k == key_bytes(dv.id)
}

/// The raw byte map `m` realises the record map `mm`: `mm` is exactly the
/// decodable part of `m` — every record of `mm` sits encoded in `m` under
/// its id's key bytes, and every other entry of `m` (foreign or damaged
/// bytes) holds no record at all.
pub open spec fn consistent(m: Map<Seq<u8>, Seq<u8>>, mm: Map<Seq<u8>, DocV>) -> bool {
    &&& m.dom().finite()
    &&& mm.dom().subset_of(m.dom())
    &&& forall|k: Seq<u8>|
        #[trigger] mm.contains_key(k) ==> m[k] == doc_enc(mm[k]) && k == key_bytes(mm[k].id)
            && storable(mm[k])
    &&& forall|k: Seq<u8>|
        m.contains_key(k) && !(#[trigger] mm.contains_key(k)) ==> !entry_doc_ok(k, m[k])
}

/// The record map any byte map realises: its decodable entries.
pub open spec fn canonical_model(m: Map<Seq<u8>, Seq<u8>>) -> Map<Seq<u8>, DocV> {
    Map::new(
        |k: Seq<u8>| m.contains_key(k) && entry_doc_ok(k, m[k]),
        |k: Seq<u8>|
            choose|dv: DocV| #[trigger] storable(dv) && m[k] == doc_enc(dv) && k == key_bytes(
                dv.id,
            ),
    )
}

/// Every finite byte map realises its canonical record map.
pub proof fn lemma_canonical_consistent(m: Map<Seq<u8>, Seq<u8>>)
    requires
        m.dom().finite(),
    ensures
        consistent(m, canonical_model(m)),
{
    let mm = canonical_model(m);
    assert(mm.dom().subset_of(m.dom()));
    assert forall|k: Seq<u8>| #[trigger] mm.contains_key(k) implies m[k] == doc_enc(mm[k]) && k
        == key_bytes(mm[k].id) && storable(mm[k]) by {
        assert(entry_doc_ok(k, m[k]));
        let dv = choose|dv: DocV| #[trigger] storable(dv) && m[k] == doc_enc(dv) && k == key_bytes(
            dv.id,
        );
        assert(mm[k] == dv);
    }
}

/// Applying finitely many writes to a finite map leaves a finite map.
pub proof fn lemma_apply_finite(m: Map<Seq<u8>, Seq<u8>>, w: Map<Seq<u8>, Option<Seq<u8>>>)
    requires
        m.dom().finite(),
        w.dom().finite(),
    ensures
        apply_writes(m, w).dom().finite(),
{
    let a = apply_writes(m, w);
    let u = m.dom().union(w.dom());
    vstd::set::axiom_set_union_finite(m.dom(), w.dom());
    assert(a.dom().subset_of(u));
    vstd::set_lib::lemma_len_subset(a.dom(), u);
}

/// Two distinct ids have distinct store keys.
pub proof fn lemma_key_bytes_injective(a: Seq<char>, b: Seq<char>)
    requires
        key_bytes(a) == key_bytes(b),
    ensures
        a == b,
{
    encode_utf8_decode_utf8(a);
    encode_utf8_decode_utf8(b);
}

/// Record map after inserting the given records in order (a later record
/// with the same id replaces an earlier one).
pub open spec fn doc_insert_all(mm: Map<Seq<u8>, DocV>, ds: Seq<DocV>) -> Map<Seq<u8>, DocV>
    decreases ds.len(),
{
    if ds.len() == 0 {
        mm
    } else {
        doc_insert_all(mm, ds.drop_last()).insert(key_bytes(ds.last().id), ds.last())
    }
}

/// Record insertion composes over concatenation of batches.
pub proof fn lemma_doc_insert_all_cat(mm: Map<Seq<u8>, DocV>, a: Seq<DocV>, b: Seq<DocV>)
    ensures
        doc_insert_all(mm, a + b) == doc_insert_all(doc_insert_all(mm, a), b),
    decreases b.len(),
{
    if b.len() == 0 {
        assert(a + b =~= a);
    } else {
        lemma_doc_insert_all_cat(mm, a, b.drop_last());
        assert((a + b).drop_last() =~= a + b.drop_last());
        assert((a + b).last() == b.last());
    }
}

/// Byte map after inserting the encodings of the given records in order.
pub open spec fn enc_insert_all(m: Map<Seq<u8>, Seq<u8>>, ds: Seq<DocV>) -> Map<Seq<u8>, Seq<u8>>
    decreases ds.len(),
{
    if ds.len() == 0 {
        m
    } else {
        enc_insert_all(m, ds.drop_last()).insert(key_bytes(ds.last().id), doc_enc(ds.last()))
    }
}

/// Inserting encodings preserves the link between bytes and records.
pub proof fn lemma_insert_all_consistent(
    m: Map<Seq<u8>, Seq<u8>>,
    mm: Map<Seq<u8>, DocV>,
    ds: Seq<DocV>,
)
    requires
        consistent(m, mm),
        forall|i: int| 0 <= i < ds.len() ==> storable(#[trigger] ds[i]),
    ensures
        consistent(enc_insert_all(m, ds), doc_insert_all(mm, ds)),
    decreases ds.len(),
{
    if ds.len() > 0 {
        assert(forall|i: int| 0 <= i < ds.len() - 1 ==> ds.drop_last()[i] == #[trigger] ds[i]);
        lemma_insert_all_consistent(m, mm, ds.drop_last());
        let m1 = enc_insert_all(m, ds.drop_last());
        let mm1 = doc_insert_all(mm, ds.drop_last());
        let d = ds.last();
        let kd = key_bytes(d.id);
        let m2 = m1.insert(kd, doc_enc(d));
        let mm2 = mm1.insert(kd, d);
        assert(consistent(m2, mm2)) by {
            assert(m2.dom() =~= m1.dom().insert(kd));
            vstd::set::axiom_set_insert_finite(m1.dom(), kd);
            assert(mm2.dom().subset_of(m2.dom()));
            assert(storable(ds[ds.len() - 1]));
            assert forall|k: Seq<u8>|
                m2.contains_key(k) && !(#[trigger] mm2.contains_key(k)) implies !entry_doc_ok(
                k,
                m2[k],
            ) by {
                assert(k != kd);
                assert(m2[k] == m1[k]);
            }
        }
    }
}

/// Inserting records with fresh, pairwise distinct ids grows the record map
/// by exactly their number.
pub proof fn lemma_insert_all_count(mm: Map<Seq<u8>, DocV>, ds: Seq<DocV>)
    requires
        mm.dom().finite(),
        forall|i: int, j: int| 0 <= i < j < ds.len() ==> (#[trigger] ds[i]).id != (#[trigger] ds[j]).id,
        forall|i: int| 0 <= i < ds.len() ==> !mm.contains_key(key_bytes((#[trigger] ds[i]).id)),
    ensures
        doc_insert_all(mm, ds).dom().finite(),
        doc_insert_all(mm, ds).len() == mm.len() + ds.len(),
        forall|k: Seq<u8>|
            #[trigger] doc_insert_all(mm, ds).contains_key(k) <==> (mm.contains_key(k) || (
            exists|i: int| 0 <= i < ds.len() && k == key_bytes((#[trigger] ds[i]).id))),
    decreases ds.len(),
{
    if ds.len() > 0 {
        let prev = ds.drop_last();
        assert(forall|i: int| 0 <= i < prev.len() ==> prev[i] == #[trigger] ds[i]);
        lemma_insert_all_count(mm, prev);
        let d = ds.last();
        let k = key_bytes(d.id);
        assert(!doc_insert_all(mm, prev).contains_key(k)) by {
            if doc_insert_all(mm, prev).contains_key(k) {
                if mm.contains_key(k) {
                    assert(!mm.contains_key(key_bytes(ds[ds.len() - 1].id)));
                } else {
                    let i = choose|i: int| 0 <= i < prev.len() && k == key_bytes(prev[i].id);
                    lemma_key_bytes_injective(prev[i].id, d.id);
                }
            }
        }
        assert(doc_insert_all(mm, ds) == doc_insert_all(mm, prev).insert(k, d));
        assert(doc_insert_all(mm, prev).insert(k, d).dom() =~= doc_insert_all(
            mm,
            prev,
        ).dom().insert(k));
        vstd::set::axiom_set_insert_len(doc_insert_all(mm, prev).dom(), k);
        assert forall|kk: Seq<u8>| #[trigger]
            doc_insert_all(mm, ds).contains_key(kk) <==> (mm.contains_key(kk) || (exists|i: int|
                0 <= i < ds.len() && kk == key_bytes((#[trigger] ds[i]).id))) by {
            if doc_insert_all(mm, ds).contains_key(kk) {
                if kk == k {
                    assert(kk == key_bytes(ds[ds.len() - 1].id));
                }
            }
            if exists|i: int| 0 <= i < ds.len() && kk == key_bytes((ds[i]).id) {
                let i = choose|i: int| 0 <= i < ds.len() && kk == key_bytes((ds[i]).id);
                if i < ds.len() - 1 {
                    assert(prev[i] == ds[i]);
                }
            }
        }
    }
}

/// What remains after deleting every record whose source is `u`.
pub open spec fn delete_source_spec(mm: Map<Seq<u8>, DocV>, u: Seq<char>) -> Map<Seq<u8>, DocV> {
    Map::new(
        |k: Seq<u8>| mm.contains_key(k) && mm[k].source_url != u,
        |k: Seq<u8>| mm[k],
    )
}

/// Deleting by source removes exactly the records whose source is `u` and
/// leaves every other record untouched.
pub proof fn lemma_delete_source_exact(mm: Map<Seq<u8>, DocV>, u: Seq<char>)
    ensures
        forall|k: Seq<u8>| #[trigger]
            delete_source_spec(mm, u).contains_key(k) <==> (mm.contains_key(k) && mm[k].source_url
                != u),
        forall|k: Seq<u8>| #[trigger]
            delete_source_spec(mm, u).contains_key(k) ==> delete_source_spec(mm, u)[k] == mm[k],
{
}

/// The durable vector store, or its ephemeral in-memory fallback.
pub struct VectorDatabase {
    db: sled::Db,
    ephemeral: bool,
    model: Ghost<Map<Seq<u8>, DocV>>,
}

/// Relies on `sled::open`: opens (creating it if missing) the tree stored
/// at `path` and recovers whatever finitely many entries were persisted
/// there.  Nothing is assumed about the recovered bytes themselves; entries
/// that are not record encodings are treated as foreign and ignored.
#[verifier::external_body]
fn open_db(path: &str) -> (r: Result<sled::Db, String>)
    ensures
        r matches Ok(db) ==> db_map(db).dom().finite(),
{
    sled::open(path).map_err(|e| e.to_string())
}

/// The byte map holds nothing.
pub open spec fn no_contents(m: Map<Seq<u8>, Seq<u8>>) -> bool {
    m == Map::<Seq<u8>, Seq<u8>>::empty()
}

/// The batch holds no writes.
pub open spec fn no_writes(w: Map<Seq<u8>, Option<Seq<u8>>>) -> bool {
    w == Map::<Seq<u8>, Option<Seq<u8>>>::empty()
}

/// Relies on `sled::Config::temporary`: opens a fresh tree in a temporary
/// directory, so it starts empty and outlives nothing.
#[verifier::external_body]
fn open_temp_db() -> (r: Result<sled::Db, String>)
    ensures
        r matches Ok(db) ==> no_contents(db_map(db)),
{
    sled::Config::new().temporary(true).open().map_err(|e| e.to_string())
}

/// Relies on `sled::Batch::default`: a new batch holds no writes.
#[verifier::external_body]
fn new_batch() -> (b: sled::Batch)
    ensures
        no_writes(batch_writes(b)),
{
    sled::Batch::default()
}

/// Relies on `sled::Batch::insert`: records that the key is to be set to the
/// value, replacing any earlier write of the same key.
#[verifier::external_body]
fn batch_insert(b: &mut sled::Batch, k: &Vec<u8>, v: &Vec<u8>)
    ensures
        batch_writes(*final(b)) == batch_writes(*old(b)).insert(k@, Some(v@)),
{
    b.insert(k.as_slice(), v.as_slice());
}

/// Relies on `sled::Batch::remove`: records that the key is to be removed,
/// replacing any earlier write of the same key.
#[verifier::external_body]
fn batch_remove(b: &mut sled::Batch, k: &Vec<u8>)
    ensures
        batch_writes(*final(b)) == batch_writes(*old(b)).insert(k@, None),
{
    b.remove(k.as_slice());
}

impl VectorDatabase {
    /// The store is well formed: its raw contents realise its record map.
    pub closed spec fn wf(self) -> bool {
        consistent(db_map(self.db), self.model@)
    }

    /// The records the store holds, keyed by their ids' key bytes.
    pub closed spec fn docs(self) -> Map<Seq<u8>, DocV> {
        self.model@
    }

    /// Whether this store is the non-durable fallback.
    pub closed spec fn is_ephemeral(self) -> bool {
        self.ephemeral
    }

    /// Relies on `sled::Tree::apply_batch`: applies all the batch's writes.
    /// On an error the tree may be left with any subset of them applied.
    #[verifier::external_body]
    fn apply_batch_raw(&mut self, b: sled::Batch) -> (r: Result<(), String>)
        ensures
            final(self).ephemeral == old(self).ephemeral,
            final(self).model == old(self).model,
            r is Ok ==> db_map(final(self).db) == apply_writes(
                db_map(old(self).db),
                batch_writes(b),
            ),
            r is Err ==> exists|w2: Map<Seq<u8>, Option<Seq<u8>>>|
                #![all_triggers]
                w2.submap_of(batch_writes(b)) && db_map(final(self).db) == apply_writes(
                    db_map(old(self).db),
                    w2,
                ),
    {
        self.db.apply_batch(b).map_err(|e| e.to_string())
    }

    /// Relies on `sled::Tree::flush`: blocks until all prior writes are
    /// durable on disk; changes no contents.
    #[verifier::external_body]
    fn flush_raw(&self) -> (r: Result<usize, String>) {
        self.db.flush().map_err(|e| e.to_string())
    }

    /// Relies on `sled::Tree::iter`: yields each key and value the tree
    /// holds, every key exactly once.
    #[verifier::external_body]
    fn entries(&self) -> (r: Result<Vec<(Vec<u8>, Vec<u8>)>, String>)
        ensures
            r matches Ok(es) ==> {
                &&& es@.len() == db_map(self.db).len()
                &&& forall|i: int|
                    0 <= i < es@.len() ==> db_map(self.db).contains_key(
                        (#[trigger] es@[i]).0@,
                    ) && db_map(self.db)[es@[i].0@] == es@[i].1@
                &&& forall|i: int, j: int|
                    0 <= i < j < es@.len() ==> (#[trigger] es@[i]).0@ != (#[trigger] es@[j]).0@
                &&& forall|k: Seq<u8>| #[trigger]
                    db_map(self.db).contains_key(k) ==> exists|i: int|
                        0 <= i < es@.len() && (es@[i]).0@ == k
            },
    {
        let mut out: Vec<(Vec<u8>, Vec<u8>)> = Vec::new();
        for entry in self.db.iter() {
            let (k, v) = entry.map_err(|e| e.to_string())?;
            out.push((k.to_vec(), v.to_vec()));
        }
        Ok(out)
    }

    /// Opens the durable store at the given on-disk location.
    pub fn new(path: &str) -> (r: Result<VectorDatabase, AppError>)
        ensures
            r matches Ok(s) ==> s.wf() && !s.is_ephemeral(),
            r matches Err(e) ==> e is StorageError,
    {
        match open_db(path) {
            Ok(db) => {
                proof {
                    lemma_canonical_consistent(db_map(db));
                }
                Ok(
                    VectorDatabase {
                        db,
                        ephemeral: false,
                        model: Ghost(canonical_model(db_map(db))),
                    },
                )
            },
            Err(e) => Err(AppError::StorageError(e)),
        }
    }

    /// Opens the ephemeral in-memory fallback store, which starts empty.
    pub fn new_fallback() -> (r: Result<VectorDatabase, AppError>)
        ensures
            r matches Ok(s) ==> s.wf() && s.is_ephemeral() && s.docs() == Map::<
                Seq<u8>,
                DocV,
            >::empty(),
            r matches Err(e) ==> e is StorageError,
    {
        match open_temp_db() {
            Ok(db) => {
                let s = VectorDatabase {
                    db,
                    ephemeral: true,
                    model: Ghost(Map::<Seq<u8>, DocV>::empty()),
                };
                proof {
                    assert(db_map(s.db).dom() =~= Map::<Seq<u8>, DocV>::empty().dom());
                }
                Ok(s)
            },
            Err(e) => Err(AppError::StorageError(e)),
        }
    }

    /// Prepares the store for use; nothing is left to set up.
    pub fn initialize(&self) -> (r: AppResult<()>)
        ensures
            r is Ok,
    {
        Ok(())
    }

    /// Scans the tree and decodes every record entry, skipping foreign or
    /// damaged bytes as the degraded-read policy asks: the result lists
    /// exactly the records the store holds, each once.
    fn load_documents(&self) -> (r: Result<Vec<VectorDocument>, String>)
        requires
            self.wf(),
        ensures
            r matches Ok(ds) ==> {
                &&& ds@.len() == self.docs().len()
                &&& forall|i: int|
                    0 <= i < ds@.len() ==> self.docs().contains_key(
                        key_bytes((#[trigger] ds@[i])@.id),
                    ) && self.docs()[key_bytes(ds@[i]@.id)] == ds@[i]@
                &&& forall|i: int, j: int|
                    0 <= i < j < ds@.len() ==> key_bytes((#[trigger] ds@[i])@.id) != key_bytes(
                        (#[trigger] ds@[j])@.id,
                    )
                &&& forall|k: Seq<u8>|
                    #[trigger] self.docs().contains_key(k) ==> exists|i: int|
                        0 <= i < ds@.len() && key_bytes(ds@[i]@.id) == k
            },
    {
        let ghost m = db_map(self.db);
        let ghost mm = self.model@;
        let mut es = match self.entries() {
            Ok(es) => es,
            Err(e) => {
                return Err(e);
            },
        };
        let ghost es0 = es@;
        let mut ds: Vec<VectorDocument> = Vec::new();
        let ghost mut seen = Set::<Seq<u8>>::empty();
        while es.len() > 0
            invariant
                self.wf(),
                m == db_map(self.db),
                mm == self.model@,
                es@.len() <= es0.len(),
                forall|i: int| 0 <= i < es@.len() ==> #[trigger] es@[i] == es0[i],
                forall|i: int|
                    0 <= i < es0.len() ==> m.contains_key((#[trigger] es0[i]).0@) && m[es0[i].0@]
                        == es0[i].1@,
                forall|i: int, j: int|
                    0 <= i < j < es0.len() ==> (#[trigger] es0[i]).0@ != (#[trigger] es0[j]).0@,
                forall|k: Seq<u8>| #[trigger]
                    m.contains_key(k) ==> exists|i: int| 0 <= i < es0.len() && (es0[i]).0@ == k,
                seen.finite(),
                seen.len() == ds@.len(),
                forall|k: Seq<u8>|
                    #[trigger] seen.contains(k) <==> (mm.contains_key(k) && exists|j: int|
                        es@.len() <= j < es0.len() && (#[trigger] es0[j]).0@ == k),
                forall|i: int|
                    0 <= i < ds@.len() ==> mm.contains_key(key_bytes((#[trigger] ds@[i])@.id))
                        && mm[key_bytes(ds@[i]@.id)] == ds@[i]@ && seen.contains(
                        key_bytes(ds@[i]@.id),
                    ),
                forall|i: int, j: int|
                    0 <= i < j < ds@.len() ==> key_bytes((#[trigger] ds@[i])@.id) != key_bytes(
                        (#[trigger] ds@[j])@.id,
                    ),
                forall|k: Seq<u8>|
                    #[trigger] seen.contains(k) ==> exists|i: int|
                        0 <= i < ds@.len() && key_bytes(ds@[i]@.id) == k,
            decreases es@.len(),
        {
            let ghost old_es = es@;
            let pair = match es.pop() {
                Some(p) => p,
                None => {
                    proof {
                        assert(false);
                    }
                    continue ;
                },
            };
            let (kb, vb) = pair;
            let ghost j = old_es.len() - 1;
            proof {
                assert(pair == old_es[j]);
                assert(old_es[j] == es0[j]);
                assert(m.contains_key(kb@) && m[kb@] == vb@);
            }
            match try_decode_document(&vb) {
                Some(d) => {
                    let key2 = encode_key(&d.id);
                    if bytes_eq(&kb, &key2) {
                        proof {
                            assert(storable(d@) && vb@ == doc_enc(d@) && kb@ == key_bytes(d@.id));
                            assert(entry_doc_ok(kb@, m[kb@]));
                            assert(mm.contains_key(kb@));
                            assert(storable(mm[kb@]) && vb@ == doc_enc(mm[kb@]));
                            assert(storable_doc(mm[kb@]) && vb@ == doc_enc(mm[kb@]));
                            assert(d@ == mm[kb@]);
                            assert(!seen.contains(kb@)) by {
                                if seen.contains(kb@) {
                                    let j2 = choose|j2: int|
                                        old_es.len() <= j2 < es0.len() && (es0[j2]).0@ == kb@;
                                    assert((es0[j]).0@ == (es0[j2]).0@ && j < j2);
                                }
                            }
                        }
                        let ghost old_ds = ds@;
                        ds.push(d);
                        proof {
                            vstd::set::axiom_set_insert_finite(seen, kb@);
                            vstd::set::axiom_set_insert_len(seen, kb@);
                            seen = seen.insert(kb@);
                            assert forall|k: Seq<u8>|
                                #[trigger] seen.contains(k) <==> (mm.contains_key(k) && exists|
                                j2: int,
                            |
                                es@.len() <= j2 < es0.len() && (#[trigger] es0[j2]).0@ == k) by {
                                if k == kb@ {
                                    assert((es0[j]).0@ == k && es@.len() <= j < es0.len());
                                }
                            }
                            assert forall|k: Seq<u8>|
                                #[trigger] seen.contains(k) implies exists|i: int|
                                0 <= i < ds@.len() && key_bytes(ds@[i]@.id) == k by {
                                if k == kb@ {
                                    assert(ds@[ds@.len() - 1] == d);
                                    assert(key_bytes(ds@[ds@.len() - 1]@.id) == kb@);
                                } else {
                                    let i = choose|i: int|
                                        0 <= i < old_ds.len() && key_bytes(old_ds[i]@.id) == k;
                                    assert(ds@[i] == old_ds[i]);
                                    assert(key_bytes(ds@[i]@.id) == k);
                                }
                            }
                        }
                    } else {
                        proof {
                            assert(!mm.contains_key(kb@)) by {
                                if mm.contains_key(kb@) {
                                    assert(storable_doc(mm[kb@]) && vb@ == doc_enc(mm[kb@]));
                                    assert(d@ == mm[kb@]);
                                    assert(kb@ == key_bytes(mm[kb@].id));
                                    assert(key2@ == key_bytes(d@.id));
                                }
                            }
                            assert forall|k: Seq<u8>|
                                #[trigger] seen.contains(k) <==> (mm.contains_key(k) && exists|
                                j2: int,
                            |
                                es@.len() <= j2 < es0.len() && (#[trigger] es0[j2]).0@ == k) by {
                                if k == kb@ {
                                    assert(!mm.contains_key(k));
                                }
                            }
                        }
                    }
                },
                None => {
                    proof {
                        assert(!mm.contains_key(kb@)) by {
                            if mm.contains_key(kb@) {
                                assert(storable_doc(mm[kb@]) && vb@ == doc_enc(mm[kb@]));
                            }
                        }
                        assert forall|k: Seq<u8>|
                            #[trigger] seen.contains(k) <==> (mm.contains_key(k) && exists|
                            j2: int,
                        | es@.len() <= j2 < es0.len() && (#[trigger] es0[j2]).0@ == k) by {
                            if k == kb@ {
                                assert(!mm.contains_key(k));
                            }
                        }
                    }
                },
            }
        }
        proof {
            assert(seen =~= mm.dom()) by {
                assert forall|k: Seq<u8>| mm.contains_key(k) implies seen.contains(k) by {
                    assert(mm.dom().subset_of(m.dom()));
                    assert(m.contains_key(k));
                }
            }
            assert(ds@.len() == mm.dom().len());
        }
        Ok(ds)
    }

    /// The number of records the store holds.
    pub fn count_documents(&self) -> (r: AppResult<usize>)
        requires
            self.wf(),
        ensures
            r matches Ok(n) ==> n == self.docs().len(),
            r matches Err(e) ==> e is StorageError,
    {
        match self.load_documents() {
            Ok(ds) => Ok(ds.len()),
            Err(e) => Err(AppError::StorageError(e)),
        }
    }

    /// Inserts a batch of records atomically and flushes them to durable
    /// storage.  An empty batch is a no-op success.  On success the store
    /// holds exactly the old records plus the given ones (a record replaces
    /// any older record with the same id); on a storage error the store
    /// still holds only well-formed records.
    pub fn insert_documents(&mut self, documents: Vec<VectorDocument>) -> (r: AppResult<()>)
        requires
            old(self).wf(),
            forall|i: int| 0 <= i < documents@.len() ==> storable((#[trigger] documents@[i])@),
        ensures
            final(self).wf(),
            final(self).is_ephemeral() == old(self).is_ephemeral(),
            documents@.len() == 0 ==> r is Ok,
            r is Ok ==> final(self).docs() == doc_insert_all(
                old(self).docs(),
                documents@.map_values(|d: VectorDocument| d@),
            ),
            r matches Err(e) ==> e is StorageError,
    {
        let ghost m0 = db_map(self.db);
        let ghost mm0 = self.model@;
        if documents.len() == 0 {
            proof {
                assert(documents@.map_values(|d: VectorDocument| d@) =~= Seq::<DocV>::empty());
            }
            return Ok(());
        }
        let ghost dvs = documents@.map_values(|d: VectorDocument| d@);
        let mut batch = new_batch();
        let mut i: usize = 0;
        proof {
            lemma_apply_empty(m0);
            assert(dvs.take(0) =~= Seq::<DocV>::empty());
        }
        while i < documents.len()
            invariant
                dvs == documents@.map_values(|d: VectorDocument| d@),
                forall|t: int| 0 <= t < documents@.len() ==> storable((#[trigger] documents@[t])@),
                i <= documents@.len(),
                m0 == db_map(self.db),
                apply_writes(m0, batch_writes(batch)) == enc_insert_all(m0, dvs.take(i as int)),
                batch_writes(batch).dom().finite(),
                forall|k: Seq<u8>| #[trigger]
                    batch_writes(batch).contains_key(k) ==> exists|dv: DocV|
                        batch_writes(batch)[k] == Some(doc_enc(dv)) && k == key_bytes(dv.id)
                            && storable(dv),
            decreases documents@.len() - i,
        {
            let d = &documents[i];
            let key = encode_key(&d.id);
            let value = encode_document(d);
            let ghost w0 = batch_writes(batch);
            batch_insert(&mut batch, &key, &value);
            proof {
                assert(dvs[i as int] == documents@[i as int]@);
                lemma_apply_insert(m0, w0, key@, value@);
                let t = dvs.take(i as int + 1);
                assert(t.drop_last() =~= dvs.take(i as int));
                assert(t.last() == dvs[i as int]);
                assert(enc_insert_all(m0, t) == enc_insert_all(m0, dvs.take(i as int)).insert(
                    key_bytes(dvs[i as int].id),
                    doc_enc(dvs[i as int]),
                ));
                assert(apply_writes(m0, batch_writes(batch)) == enc_insert_all(m0, t));
                assert forall|k: Seq<u8>| #[trigger]
                    batch_writes(batch).contains_key(k) implies exists|dv: DocV|
                    batch_writes(batch)[k] == Some(doc_enc(dv)) && k == key_bytes(dv.id)
                        && storable(dv) by {
                    if k == key@ {
                        let dv = dvs[i as int];
                        assert(batch_writes(batch)[k] == Some(doc_enc(dv)) && k == key_bytes(dv.id)
                            && storable(dv));
                    }
                }
            }
            i = i + 1;
        }
        proof {
            assert(dvs.take(dvs.len() as int) =~= dvs);
        }
        let ghost bw = batch_writes(batch);
        let applied = self.apply_batch_raw(batch);
        match applied {
            Ok(()) => {
                proof {
                    self.model@ = doc_insert_all(mm0, dvs);
                    lemma_insert_all_consistent(m0, mm0, dvs);
                }
            },
            Err(e) => {
                proof {
                    let w2 = choose|w2: Map<Seq<u8>, Option<Seq<u8>>>|
                        #![all_triggers]
                        w2.submap_of(bw) && db_map(self.db) == apply_writes(m0, w2);
                    assert(w2.dom().subset_of(bw.dom()));
                    vstd::set_lib::lemma_len_subset(w2.dom(), bw.dom());
                    lemma_apply_finite(m0, w2);
                    lemma_canonical_consistent(db_map(self.db));
                    self.model@ = canonical_model(db_map(self.db));
                }
                return Err(AppError::StorageError(e));
            },
        }
        match self.flush_raw() {
            Ok(_) => Ok(()),
            Err(e) => Err(AppError::StorageError(e)),
        }
    }

    /// Similarity search: scores every stored record against the query by
    /// cosine similarity and returns the records sorted by strictly
    /// non-increasing score, truncated to `limit`.  The result is a prefix
    /// of a full descending ranking that enumerates every stored record
    /// exactly once.
    pub fn search_similar(&self, embedding: Vec<i64>, limit: usize) -> (r: AppResult<
        Vec<(VectorDocument, i64)>,
    >)
        requires
            self.wf(),
            valid_vector(embedding@),
        ensures
            r matches Ok(res) ==> {
                &&& res@.len() == vstd::math::min(limit as int, self.docs().len() as int)
                &&& sorted_desc(res@)
                &&& forall|i: int|
                    0 <= i < res@.len() ==> {
                        let (d, s) = #[trigger] res@[i];
                        &&& self.docs().contains_key(key_bytes(d@.id))
                        &&& self.docs()[key_bytes(d@.id)] == d@
                        &&& s == cosine_sim_spec(embedding@, d@.embedding)
                    }
                &&& exists|full: Seq<(VectorDocument, i64)>|
                    #![all_triggers]
                    {
                        &&& sorted_desc(full)
                        &&& full.len() == self.docs().len()
                        &&& res@ == full.take(vstd::math::min(limit as int, full.len() as int))
                        &&& forall|i: int|
                            0 <= i < full.len() ==> {
                                let (d, s) = #[trigger] full[i];
                                &&& self.docs().contains_key(key_bytes(d@.id))
                                &&& self.docs()[key_bytes(d@.id)] == d@
                                &&& s == cosine_sim_spec(embedding@, d@.embedding)
                            }
                        &&& forall|i: int, j: int|
                            0 <= i < j < full.len() ==> key_bytes((#[trigger] full[i]).0@.id)
                                != key_bytes((#[trigger] full[j]).0@.id)
                        &&& forall|k: Seq<u8>|
                            #[trigger] self.docs().contains_key(k) ==> exists|i: int|
                                0 <= i < full.len() && key_bytes(full[i].0@.id) == k
                    }
            },
            r matches Err(e) ==> e is StorageError,
    {
        let ds = match self.load_documents() {
            Ok(ds) => ds,
            Err(e) => {
                return Err(AppError::StorageError(e));
            },
        };
        let mut scored: Vec<(VectorDocument, i64)> = Vec::new();
        let mut i: usize = 0;
        while i < ds.len()
            invariant
                self.wf(),
                valid_vector(embedding@),
                i <= ds@.len(),
                ds@.len() == self.docs().len(),
                forall|t: int|
                    0 <= t < ds@.len() ==> self.docs().contains_key(
                        key_bytes((#[trigger] ds@[t])@.id),
                    ) && self.docs()[key_bytes(ds@[t]@.id)] == ds@[t]@ && storable(ds@[t]@),
                forall|t: int, u: int|
                    0 <= t < u < ds@.len() ==> key_bytes((#[trigger] ds@[t])@.id) != key_bytes(
                        (#[trigger] ds@[u])@.id,
                    ),
                forall|k: Seq<u8>|
                    #[trigger] self.docs().contains_key(k) ==> exists|t: int|
                        0 <= t < ds@.len() && key_bytes(ds@[t]@.id) == k,
                scored@.len() == i,
                forall|t: int|
                    0 <= t < i ==> {
                        let (d, s) = #[trigger] scored@[t];
                        &&& d@ == ds@[t]@
                        &&& s == cosine_sim_spec(embedding@, d@.embedding)
                    },
            decreases ds@.len() - i,
        {
            proof {
                assert(self.docs().contains_key(key_bytes(ds@[i as int]@.id)));
                assert(storable(ds@[i as int]@));
            }
            let d = ds[i].clone();
            let score = cosine_similarity(&embedding, &d.embedding);
            scored.push((d, score));
            i = i + 1;
        }
        let ghost scored0 = scored@;
        proof {
            assert(scored0.len() == self.docs().len());
            assert forall|t: int|
                0 <= t < scored0.len() implies {
                let (d, s) = #[trigger] scored0[t];
                &&& self.docs().contains_key(key_bytes(d@.id))
                &&& self.docs()[key_bytes(d@.id)] == d@
                &&& s == cosine_sim_spec(embedding@, d@.embedding)
            } by {
                assert(scored0[t].0@ == ds@[t]@);
            }
            assert forall|t: int, u: int|
                0 <= t < u < scored0.len() implies key_bytes((#[trigger] scored0[t]).0@.id)
                    != key_bytes((#[trigger] scored0[u]).0@.id) by {
                assert(scored0[t].0@ == ds@[t]@ && scored0[u].0@ == ds@[u]@);
            }
            assert forall|k: Seq<u8>|
                #[trigger] self.docs().contains_key(k) implies exists|t: int|
                0 <= t < scored0.len() && key_bytes(scored0[t].0@.id) == k by {
                let t = choose|t: int| 0 <= t < ds@.len() && key_bytes(ds@[t]@.id) == k;
                assert(key_bytes(scored0[t].0@.id) == k);
            }
            assert(scored0.no_duplicates()) by {
                assert forall|t: int, u: int|
                    0 <= t < scored0.len() && 0 <= u < scored0.len() && t != u implies scored0[t]
                    != scored0[u] by {
                    if t < u {
                        assert(key_bytes(scored0[t].0@.id) != key_bytes(scored0[u].0@.id));
                    } else {
                        assert(key_bytes(scored0[u].0@.id) != key_bytes(scored0[t].0@.id));
                    }
                }
            }
        }
        let res = rank_scored(scored, limit);
        proof {
            let full = choose|full: Seq<(VectorDocument, i64)>|
                #![all_triggers]
                full.to_multiset() == scored0.to_multiset() && sorted_desc(full) && res@
                    == full.take(vstd::math::min(limit as int, full.len() as int));
            scored0.to_multiset_ensures();
            full.to_multiset_ensures();
            scored0.lemma_multiset_has_no_duplicates();
            assert(full.len() == scored0.len());
            assert forall|i2: int|
                0 <= i2 < full.len() implies {
                let (d, s) = #[trigger] full[i2];
                &&& self.docs().contains_key(key_bytes(d@.id))
                &&& self.docs()[key_bytes(d@.id)] == d@
                &&& s == cosine_sim_spec(embedding@, d@.embedding)
            } by {
                assert(full.contains(full[i2]));
                assert(full.to_multiset().count(full[i2]) > 0);
                assert(scored0.to_multiset().count(full[i2]) > 0);
                assert(scored0.contains(full[i2]));
                let t = choose|t: int| 0 <= t < scored0.len() && scored0[t] == full[i2];
                assert(scored0[t] == full[i2]);
            }
            assert forall|i2: int, j2: int|
                0 <= i2 < j2 < full.len() implies key_bytes((#[trigger] full[i2]).0@.id)
                    != key_bytes((#[trigger] full[j2]).0@.id) by {
                if key_bytes(full[i2].0@.id) == key_bytes(full[j2].0@.id) {
                    let x = full[i2];
                    let y = full[j2];
                    if x == y {
                        let dropped = full.remove(i2);
                        full.to_multiset_ensures();
                        assert(dropped.to_multiset() =~= full.to_multiset().remove(x));
                        assert(dropped[j2 - 1] == y);
                        assert(dropped.contains(x));
                        dropped.to_multiset_ensures();
                        assert(dropped.to_multiset().count(x) > 0);
                        assert(full.to_multiset().count(x) >= 2);
                        assert(scored0.to_multiset().count(x) >= 2);
                        assert(scored0.to_multiset().count(x) > 0);
                        assert(scored0.contains(x));
                        assert(scored0.to_multiset().count(x) == 1);
                    } else {
                        assert(full.contains(x) && full.contains(y));
                        assert(scored0.to_multiset().count(x) > 0 && scored0.to_multiset().count(
                            y,
                        ) > 0);
                        assert(scored0.contains(x) && scored0.contains(y));
                        let t1 = choose|t: int| 0 <= t < scored0.len() && scored0[t] == x;
                        let t2 = choose|t: int| 0 <= t < scored0.len() && scored0[t] == y;
                        assert(t1 != t2);
                        if t1 < t2 {
                            assert(key_bytes(scored0[t1].0@.id) != key_bytes(scored0[t2].0@.id));
                        } else {
                            assert(key_bytes(scored0[t2].0@.id) != key_bytes(scored0[t1].0@.id));
                        }
                    }
                }
            }
            assert forall|k: Seq<u8>|
                #[trigger] self.docs().contains_key(k) implies exists|i2: int|
                0 <= i2 < full.len() && key_bytes(full[i2].0@.id) == k by {
                let t = choose|t: int| 0 <= t < scored0.len() && key_bytes(scored0[t].0@.id) == k;
                let x = scored0[t];
                assert(scored0.contains(x));
                assert(scored0.to_multiset().count(x) > 0);
                assert(full.to_multiset().count(x) > 0);
                assert(full.contains(x));
                let i2 = choose|i2: int| 0 <= i2 < full.len() && full[i2] == x;
                assert(key_bytes(full[i2].0@.id) == k);
            }
            assert forall|i2: int|
                0 <= i2 < res@.len() implies {
                let (d, s) = #[trigger] res@[i2];
                &&& self.docs().contains_key(key_bytes(d@.id))
                &&& self.docs()[key_bytes(d@.id)] == d@
                &&& s == cosine_sim_spec(embedding@, d@.embedding)
            } by {
                assert(res@[i2] == full[i2]);
            }
        }
        Ok(res)
    }

    /// Removes every record whose source address is exactly `source_url`
    /// and leaves all other records (and any foreign entries) untouched.
    pub fn delete_by_source(&mut self, source_url: &str) -> (r: AppResult<()>)
        requires
            old(self).wf(),
        ensures
            final(self).wf(),
            final(self).is_ephemeral() == old(self).is_ephemeral(),
            r is Ok ==> final(self).docs() == delete_source_spec(old(self).docs(), source_url@),
            r matches Err(e) ==> e is StorageError,
    {
        let ghost m0 = db_map(self.db);
        let ghost mm0 = self.model@;
        let target = source_url.to_owned();
        let mut es = match self.entries() {
            Ok(es) => es,
            Err(e) => {
                return Err(AppError::StorageError(e));
            },
        };
        let ghost es0 = es@;
        let mut batch = new_batch();
        while es.len() > 0
            invariant
                old(self).wf(),
                *self == *old(self),
                m0 == db_map(self.db),
                mm0 == self.model@,
                target@ == source_url@,
                es@.len() <= es0.len(),
                forall|i: int| 0 <= i < es@.len() ==> #[trigger] es@[i] == es0[i],
                forall|i: int|
                    0 <= i < es0.len() ==> m0.contains_key((#[trigger] es0[i]).0@) && m0[es0[
                        i].0@] == es0[i].1@,
                forall|i: int, j: int|
                    0 <= i < j < es0.len() ==> (#[trigger] es0[i]).0@ != (#[trigger] es0[j]).0@,
                forall|k: Seq<u8>| #[trigger]
                    m0.contains_key(k) ==> exists|i: int|
                        0 <= i < es0.len() && (es0[i]).0@ == k,
                batch_writes(batch).dom().finite(),
                forall|k: Seq<u8>| #[trigger]
                    batch_writes(batch).contains_key(k) <==> exists|i: int|
                        es@.len() <= i < es0.len() && (#[trigger] es0[i]).0@ == k
                            && mm0.contains_key(k) && mm0[k].source_url == source_url@,
                forall|k: Seq<u8>| #[trigger]
                    batch_writes(batch).contains_key(k) ==> batch_writes(batch)[k] is None,
            decreases es@.len(),
        {
            let ghost old_es = es@;
            let pair = match es.pop() {
                Some(p) => p,
                None => {
                    proof {
                        assert(false);
                    }
                    continue ;
                },
            };
            let (kb, vb) = pair;
            let ghost j = old_es.len() - 1;
            proof {
                assert(pair == old_es[j]);
                assert(old_es[j] == es0[j]);
                assert(es0[j].0@ == kb@);
                assert(m0.contains_key(kb@) && m0[kb@] == vb@);
            }
            let mut remove_this = false;
            match try_decode_document(&vb) {
                Some(d) => {
                    let key2 = encode_key(&d.id);
                    if bytes_eq(&kb, &key2) {
                        proof {
                            assert(storable(d@) && vb@ == doc_enc(d@) && kb@ == key_bytes(d@.id));
                            assert(entry_doc_ok(kb@, m0[kb@]));
                            assert(mm0.contains_key(kb@));
                            assert(storable_doc(mm0[kb@]) && vb@ == doc_enc(mm0[kb@]));
                            assert(d@ == mm0[kb@]);
                        }
                        if str_eq(d.source_url.as_str(), target.as_str()) {
                            remove_this = true;
                            proof {
                                assert(mm0[kb@].source_url == source_url@);
                            }
                        } else {
                            proof {
                                assert(mm0[kb@].source_url != source_url@);
                            }
                        }
                    } else {
                        proof {
                            assert(!mm0.contains_key(kb@)) by {
                                if mm0.contains_key(kb@) {
                                    assert(storable_doc(mm0[kb@]) && vb@ == doc_enc(mm0[kb@]));
                                    assert(d@ == mm0[kb@]);
                                    assert(kb@ == key_bytes(mm0[kb@].id));
                                    assert(key2@ == key_bytes(d@.id));
                                }
                            }
                        }
                    }
                },
                None => {
                    proof {
                        assert(!mm0.contains_key(kb@)) by {
                            if mm0.contains_key(kb@) {
                                assert(storable_doc(mm0[kb@]) && vb@ == doc_enc(mm0[kb@]));
                            }
                        }
                    }
                },
            }
            if remove_this {
                let ghost w0 = batch_writes(batch);
                batch_remove(&mut batch, &kb);
                proof {
                    assert forall|k: Seq<u8>| #[trigger]
                        batch_writes(batch).contains_key(k) <==> exists|i: int|
                            es@.len() <= i < es0.len() && (#[trigger] es0[i]).0@ == k
                                && mm0.contains_key(k) && mm0[k].source_url == source_url@ by {
                        if k == kb@ {
                            assert(es0[j].0@ == k && mm0.contains_key(k) && mm0[k].source_url
                                == source_url@);
                        } else {
                            assert(batch_writes(batch).contains_key(k) == w0.contains_key(k));
                        }
                    }
                }
            } else {
                proof {
                    assert(!(mm0.contains_key(kb@) && mm0[kb@].source_url == source_url@));
                    assert forall|k: Seq<u8>| #[trigger]
                        batch_writes(batch).contains_key(k) <==> exists|i: int|
                            es@.len() <= i < es0.len() && (#[trigger] es0[i]).0@ == k
                                && mm0.contains_key(k) && mm0[k].source_url == source_url@ by {
                        if k == kb@ {
                            if exists|i: int|
                                es@.len() <= i < es0.len() && (es0[i]).0@ == k && mm0.contains_key(
                                    k,
                                ) && mm0[k].source_url == source_url@ {
                                let i = choose|i: int|
                                    es@.len() <= i < es0.len() && (es0[i]).0@ == k
                                        && mm0.contains_key(k) && mm0[k].source_url == source_url@;
                                assert(false);
                            }
                        }
                    }
                }
            }
        }
        let ghost bw = batch_writes(batch);
        proof {
            assert(es@.len() == 0);
            assert(apply_writes(m0, bw) =~= enc_delete_spec(m0, mm0, source_url@)) by {
                assert forall|k: Seq<u8>| true implies {
                    (apply_writes(m0, bw).contains_key(k) <==> (m0.contains_key(k) && !(
                    mm0.contains_key(k) && mm0[k].source_url == source_url@))) && (apply_writes(
                        m0,
                        bw,
                    ).contains_key(k) ==> apply_writes(m0, bw)[k] == m0[k])
                } by {
                    if bw.contains_key(k) {
                        let i = choose|i: int|
                            0 <= i < es0.len() && (es0[i]).0@ == k && mm0.contains_key(k)
                                && mm0[k].source_url == source_url@;
                        assert(m0.contains_key(k));
                    }
                    if m0.contains_key(k) && mm0.contains_key(k) && mm0[k].source_url
                        == source_url@ {
                        let i = choose|i: int| 0 <= i < es0.len() && (es0[i]).0@ == k;
                        assert((es0[i]).0@ == k && mm0.contains_key(k) && mm0[k].source_url
                            == source_url@);
                        assert(bw.contains_key(k));
                    }
                }
            }
        }
        let applied = self.apply_batch_raw(batch);
        match applied {
            Ok(()) => {
                proof {
                    self.model@ = delete_source_spec(mm0, source_url@);
                    assert(consistent(db_map(self.db), self.model@)) by {
                        let m1 = db_map(self.db);
                        let mm1 = self.model@;
                        assert(m1 == enc_delete_spec(m0, mm0, source_url@));
                        assert(m1.dom().subset_of(m0.dom()));
                        vstd::set_lib::lemma_len_subset(m1.dom(), m0.dom());
                        assert(mm1.dom().subset_of(m1.dom())) by {
                            assert forall|k: Seq<u8>| mm1.contains_key(k) implies m1.contains_key(
                                k,
                            ) by {
                                assert(mm0.contains_key(k) && mm0[k].source_url != source_url@);
                                assert(m0.contains_key(k));
                            }
                        }
                        assert forall|k: Seq<u8>|
                            m1.contains_key(k) && !(#[trigger] mm1.contains_key(k)) implies
                            !entry_doc_ok(k, m1[k]) by {
                            assert(m0.contains_key(k));
                            assert(m1[k] == m0[k]);
                            if mm0.contains_key(k) {
                                assert(mm0[k].source_url == source_url@ || mm1.contains_key(k));
                            } else {
                                assert(!entry_doc_ok(k, m0[k]));
                            }
                        }
                    }
                }
            },
            Err(e) => {
                proof {
                    let w2 = choose|w2: Map<Seq<u8>, Option<Seq<u8>>>|
                        #![all_triggers]
                        w2.submap_of(bw) && db_map(self.db) == apply_writes(m0, w2);
                    assert(w2.dom().subset_of(bw.dom()));
                    vstd::set_lib::lemma_len_subset(w2.dom(), bw.dom());
                    lemma_apply_finite(m0, w2);
                    lemma_canonical_consistent(db_map(self.db));
                    self.model@ = canonical_model(db_map(self.db));
                }
                return Err(AppError::StorageError(e));
            },
        }
        match self.flush_raw() {
            Ok(_) => Ok(()),
            Err(e) => Err(AppError::StorageError(e)),
        }
    }
}

/// Whether two byte strings are equal.
fn bytes_eq(a: &Vec<u8>, b: &Vec<u8>) -> (r: bool)
    ensures
        r == (a@ == b@),
{
    if a.len() != b.len() {
        return false;
    }
    let mut i: usize = 0;
    while i < a.len()
        invariant
            a@.len() == b@.len(),
            i <= a@.len(),
            forall|t: int| 0 <= t < i ==> a@[t] == #[trigger] b@[t],
        decreases a@.len() - i,
    {
        if a[i] != b[i] {
            return false;
        }
        i = i + 1;
    }
    proof {
        assert(a@ =~= b@);
    }
    true
}

/// Every well-formed store holds finitely many records, so counting
/// arguments (such as the growth of the count under a fresh insert batch)
/// apply to it.
pub proof fn lemma_docs_finite(s: VectorDatabase)
    requires
        s.wf(),
    ensures
        s.docs().dom().finite(),
{
    assert(s.docs().dom().subset_of(db_map(s.db).dom()));
    vstd::set_lib::lemma_len_subset(s.docs().dom(), db_map(s.db).dom());
}

/// Whether a store-open failure looks like a stale lock, the one failure
/// the self-healing retry (wipe the directory, open again) is meant for.
pub fn is_lock_error(msg: &str) -> (r: bool)
    ensures
        r == (crate::chars::contains_spec(msg@, "lock"@) || crate::chars::contains_spec(
            msg@,
            "locked"@,
        )),
{
    crate::chars::contains_str(msg, "lock") || crate::chars::contains_str(msg, "locked")
}

/// The byte map after deleting every record whose source is `u`.
pub open spec fn enc_delete_spec(
    m: Map<Seq<u8>, Seq<u8>>,
    mm: Map<Seq<u8>, DocV>,
    u: Seq<char>,
) -> Map<Seq<u8>, Seq<u8>> {
    Map::new(
        |k: Seq<u8>| m.contains_key(k) && !(mm.contains_key(k) && mm[k].source_url == u),
        |k: Seq<u8>| m[k],
    )
}

/// Scores in the sequence never increase.
pub open spec fn sorted_desc<T>(s: Seq<(T, i64)>) -> bool {
    forall|i: int, j: int| 0 <= i < j < s.len() ==> (#[trigger] s[i]).1 >= (#[trigger] s[j]).1
}

/// Sorts the scored items by strictly non-increasing score and keeps at most
/// `limit` of them: the result is a prefix of some full descending
/// rearrangement of the input.
pub fn rank_scored<T>(items: Vec<(T, i64)>, limit: usize) -> (r: Vec<(T, i64)>)
    ensures
        r@.len() == vstd::math::min(limit as int, items@.len() as int),
        sorted_desc(r@),
        forall|i: int| 0 <= i < r@.len() ==> items@.to_multiset().count(#[trigger] r@[i]) > 0,
        exists|full: Seq<(T, i64)>|
            #![all_triggers]
            full.to_multiset() == items@.to_multiset() && sorted_desc(full) && r@ == full.take(
                vstd::math::min(limit as int, full.len() as int),
            ),
{
    let ghost items0 = items@;
    let mut rest = items;
    let mut out: Vec<(T, i64)> = Vec::new();
    proof {
        out@.to_multiset_ensures();
        rest@.to_multiset_ensures();
        assert(out@.to_multiset().add(rest@.to_multiset()) =~= items0.to_multiset());
    }
    while rest.len() > 0
        invariant
            out@.to_multiset().add(rest@.to_multiset()) == items0.to_multiset(),
            sorted_desc(out@),
            forall|i: int, j: int|
                0 <= i < out@.len() && 0 <= j < rest@.len() ==> (#[trigger] out@[i]).1 >= (
                #[trigger] rest@[j]).1,
        decreases rest@.len(),
    {
        let mut best: usize = 0;
        let mut k: usize = 1;
        while k < rest.len()
            invariant
                rest@.len() > 0,
                best < k <= rest@.len() || (k <= 1 && best == 0),
                best < rest@.len(),
                forall|j: int| 0 <= j < k ==> rest@[best as int].1 >= (#[trigger] rest@[j]).1,
            decreases rest@.len() - k,
        {
            if rest[k].1 > rest[best].1 {
                best = k;
            }
            k = k + 1;
        }
        let ghost old_rest = rest@;
        let ghost old_out = out@;
        let x = rest.remove(best);
        out.push(x);
        proof {
            old_rest.to_multiset_ensures();
            old_out.to_multiset_ensures();
            assert(rest@ == old_rest.remove(best as int));
            assert(rest@.to_multiset() == old_rest.to_multiset().remove(x));
            assert(out@.to_multiset() == old_out.to_multiset().insert(x));
            assert(old_rest.to_multiset().count(x) > 0) by {
                assert(old_rest[best as int] == x);
                assert(old_rest.contains(x));
            }
            assert(out@.to_multiset().add(rest@.to_multiset()) =~= old_out.to_multiset().add(
                old_rest.to_multiset(),
            ));
            assert(sorted_desc(out@)) by {
                assert(forall|i: int| 0 <= i < old_out.len() ==> out@[i] == (#[trigger] old_out[i]));
                assert(out@[out@.len() - 1] == x);
            }
            assert(forall|j: int|
                0 <= j < rest@.len() ==> exists|t: int|
                    0 <= t < old_rest.len() && (#[trigger] rest@[j]) == old_rest[t]);
            assert forall|i: int, j: int|
                0 <= i < out@.len() && 0 <= j < rest@.len() implies (#[trigger] out@[i]).1 >= (
            #[trigger] rest@[j]).1 by {
                let t = choose|t: int| 0 <= t < old_rest.len() && rest@[j] == old_rest[t];
                assert(x.1 >= old_rest[t].1);
                if i < old_out.len() {
                    assert(out@[i] == old_out[i]);
                } else {
                    assert(out@[i] == x);
                }
            }
        }
    }
    proof {
        rest@.to_multiset_ensures();
        out@.to_multiset_ensures();
        items0.to_multiset_ensures();
        assert(rest@.to_multiset() =~= Multiset::<(T, i64)>::empty());
        assert(out@.to_multiset() =~= items0.to_multiset());
        assert(out@.len() == items0.len());
    }
    let ghost full = out@;
    let mut r = out;
    r.truncate(limit);
    proof {
        if limit as int <= full.len() {
            assert(r@ == full.subrange(0, limit as int));
            assert(full.subrange(0, limit as int) =~= full.take(
                vstd::math::min(limit as int, full.len() as int),
            ));
        } else {
            assert(r@ == full);
            assert(full =~= full.take(vstd::math::min(limit as int, full.len() as int)));
        }
        assert forall|i: int|
            0 <= i < r@.len() implies items0.to_multiset().count(#[trigger] r@[i]) > 0 by {
            full.to_multiset_ensures();
            assert(r@[i] == full[i]);
            assert(full.contains(full[i]));
        }
    }
    r
}

} // verus!
