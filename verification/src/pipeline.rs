//! The duplicate detection pipeline: one pass per ingestion or reverse
//! search. A cryptographic checksum of the raw content bytes is looked up
//! first; an exact match short-circuits everything else. Otherwise, for
//! content types with visual-signature support, the fingerprint is extracted,
//! bucket keys are derived, candidates are retrieved by bucket overlap and
//! ranked by distance. Ingestion additionally persists the new content row
//! together with its signature in one step, so no reader ever observes a
//! signed content item without its signature.
use vstd::prelude::*;

use crate::decode::{decode_image, decoded_of, DeclaredFormat};
use crate::fingerprint::{compute_signature, spec_extract, Fingerprint};
use crate::matcher::{
    candidate_passes, hamming, lemma_distance_self, match_of, rank, rank_matches, sorted_matches,
    stems_from, SimilarMatch, Threshold,
};
use crate::store::{contains_id, lookup, SigModel, SignatureStore};
use crate::words::{generate_indexes, shares_bucket, spec_words};
use crate::{ContentType, Error, IntegerIdentifiable};

verus! {

/// Mathematical model of one content record.
pub ghost struct RecordModel {
    pub content_id: i32,
    pub checksum: Seq<u8>,
    pub content_type: ContentType,
}

/// One registered content item: its id, the checksum of its raw bytes, and
/// its content type.
pub struct ContentRecord {
    pub content_id: i32,
    pub checksum: Vec<u8>,
    pub content_type: ContentType,
}

impl View for ContentRecord {
    type V = RecordModel;

    open spec fn view(&self) -> RecordModel {
        RecordModel {
            content_id: self.content_id,
            checksum: self.checksum@,
            content_type: self.content_type,
        }
    }
}

impl IntegerIdentifiable for ContentRecord {
    open spec fn spec_id(&self) -> i32 {
        self.content_id
    }

    fn id(&self) -> (r: i32) {
        self.content_id
    }
}

/// Whether some record of `rs` carries the id.
pub open spec fn rec_contains_id(rs: Seq<RecordModel>, id: i32) -> bool {
    exists|i: int| 0 <= i < rs.len() && (#[trigger] rs[i]).content_id == id
}

/// Whether some record of `rs` carries the checksum.
pub open spec fn rec_contains_checksum(rs: Seq<RecordModel>, sum: Seq<u8>) -> bool {
    exists|i: int| 0 <= i < rs.len() && (#[trigger] rs[i]).checksum == sum
}

/// The first record carrying the checksum, if any.
pub open spec fn find_checksum(rs: Seq<RecordModel>, sum: Seq<u8>) -> Option<RecordModel>
    decreases rs.len(),
{
    if rs.len() == 0 {
        None
    } else if rs[0].checksum == sum {
        Some(rs[0])
    } else {
        find_checksum(rs.drop_first(), sum)
    }
}

/// A sequence without the checksum finds no record for it.
pub proof fn lemma_find_checksum_absent(rs: Seq<RecordModel>, sum: Seq<u8>)
    requires
        !rec_contains_checksum(rs, sum),
    ensures
        find_checksum(rs, sum) is None,
    decreases rs.len(),
{
    if rs.len() > 0 {
        assert(rs[0].checksum != sum);
        assert(!rec_contains_checksum(rs.drop_first(), sum)) by {
            assert forall|i: int|
                0 <= i < rs.drop_first().len() implies (#[trigger] rs.drop_first()[i]).checksum
                != sum by {
                assert(rs.drop_first()[i] == rs[i + 1]);
            }
        }
        lemma_find_checksum_absent(rs.drop_first(), sum);
    }
}

/// A match at an index behind a match-free prefix is what the search finds.
pub proof fn lemma_find_checksum_first(rs: Seq<RecordModel>, sum: Seq<u8>, i: int)
    requires
        0 <= i < rs.len(),
        rs[i].checksum == sum,
        forall|t: int| 0 <= t < i ==> (#[trigger] rs[t]).checksum != sum,
    ensures
        find_checksum(rs, sum) == Some(rs[i]),
    decreases rs.len(),
{
    if i > 0 {
        assert(rs[0].checksum != sum);
        assert(rs.drop_first()[i - 1] == rs[i]);
        assert forall|t: int|
            0 <= t < i - 1 implies (#[trigger] rs.drop_first()[t]).checksum != sum by {
            assert(rs.drop_first()[t] == rs[t + 1]);
        }
        lemma_find_checksum_first(rs.drop_first(), sum, i - 1);
    }
}

/// A ranked entry explained by the store: some stored row shares a bucket
/// with the query's buckets, lies within the threshold, and yields it.
pub open spec fn match_from_store(
    m: SimilarMatch,
    store: Seq<SigModel>,
    q: Seq<bool>,
    thr: Threshold,
) -> bool {
    exists|j: int|
        0 <= j < store.len() && shares_bucket((#[trigger] store[j]).words, spec_words(q))
            && candidate_passes(store[j], q, thr) && m == match_of(store[j], q)
}

/// What a correct similarity result for query fingerprint `q` over a store
/// looks like: the ranked entries are exactly the stored signatures that
/// share a bucket with the query and lie strictly within the distance
/// threshold, sorted ascending by distance with ties broken by content id.
pub open spec fn similar_correct(
    sim: Seq<SimilarMatch>,
    store: Seq<SigModel>,
    q: Seq<bool>,
    thr: Threshold,
) -> bool {
    let cands = store.filter(|m: SigModel| shares_bucket(m.words, spec_words(q)));
    &&& sorted_matches(sim)
    &&& sim.to_multiset() == rank_matches(cands, q, thr).to_multiset()
    &&& forall|t: int| 0 <= t < sim.len() ==> match_from_store(#[trigger] sim[t], store, q, thr)
    &&& forall|j: int|
        0 <= j < store.len() && shares_bucket((#[trigger] store[j]).words, spec_words(q))
            && candidate_passes(store[j], q, thr) ==> sim.contains(match_of(store[j], q))
}

/// What a correct pipeline pass returns: an exact checksum match
/// short-circuits with an empty similarity list; otherwise the similarity
/// list is correct for the query signature, or empty when the content type
/// carries no signature.
pub open spec fn search_correct(
    recs: Seq<RecordModel>,
    store: Seq<SigModel>,
    thr: Threshold,
    checksum: Seq<u8>,
    sig: Option<Seq<bool>>,
    exact: Option<i32>,
    sim: Seq<SimilarMatch>,
) -> bool {
    match find_checksum(recs, checksum) {
        Some(rec) => exact == Some(rec.content_id) && sim == Seq::<SimilarMatch>::empty(),
        None => exact is None && match sig {
            None => sim == Seq::<SimilarMatch>::empty(),
            Some(q) => similar_correct(sim, store, q, thr),
        },
    }
}

/// The fingerprint that a reverse search or ingestion of these bytes works
/// with: present exactly when the content type supports signatures and the
/// bytes decode under their declared format to a non-degenerate grid.
pub open spec fn applicable_signature(
    bytes: Seq<u8>,
    format: DeclaredFormat,
    ct: ContentType,
) -> Option<Seq<bool>> {
    if ct.spec_supports_signature() && (decoded_of(bytes, format) matches Some(g) && g.width >= 1
        && g.height >= 1) {
        Some(spec_extract(decoded_of(bytes, format).unwrap()))
    } else {
        None
    }
}

/// Whether the bytes fail to decode under their declared format to a usable
/// grid: no grid at all, or a zero-area one.
pub open spec fn decode_degenerate(bytes: Seq<u8>, format: DeclaredFormat) -> bool {
    match decoded_of(bytes, format) {
        None => true,
        Some(g) => g.width == 0 || g.height == 0,
    }
}

/// The result of one reverse-search pass.
pub struct ReverseSearchResult {
    pub exact_match: Option<i32>,
    pub similar: Vec<SimilarMatch>,
}

/// The result of one ingestion pass: the exact match (nothing was created),
/// or the id created for the new content together with its similarity list.
pub struct IngestOutcome {
    pub exact_match: Option<i32>,
    pub created: Option<i32>,
    pub similar: Vec<SimilarMatch>,
}

/// The pipeline state: the registered content records, the signature store,
/// the validated similarity threshold, and the next content id to assign.
pub struct DuplicateDetectionPipeline {
    pub records: Vec<ContentRecord>,
    pub store: SignatureStore,
    pub threshold: Threshold,
    pub next_content_id: i32,
}

impl DuplicateDetectionPipeline {
    /// The registered content records, as specifications see them.
    pub open spec fn recs(self) -> Seq<RecordModel> {
        self.records@.map_values(|r: ContentRecord| r@)
    }

    /// Pipeline invariant: the threshold is valid, the store is consistent,
    /// content ids and checksums are unique, ids stay below the next id to
    /// assign, and a signature row exists for a content item if and only if
    /// its type supports visual signatures.
    pub open spec fn inv(self) -> bool {
        &&& self.threshold.wf()
        &&& self.store.inv()
        &&& forall|i: int, j: int|
            0 <= i < j < self.recs().len() ==> (#[trigger] self.recs()[i]).content_id != (
            #[trigger] self.recs()[j]).content_id
        &&& forall|i: int, j: int|
            0 <= i < j < self.recs().len() ==> (#[trigger] self.recs()[i]).checksum != (
            #[trigger] self.recs()[j]).checksum
        &&& forall|i: int|
            0 <= i < self.recs().len() ==> (#[trigger] self.recs()[i]).content_id
                < self.next_content_id
        &&& forall|i: int|
            0 <= i < self.recs().len() ==> (contains_id(
                self.store@,
                (#[trigger] self.recs()[i]).content_id,
            ) <==> self.recs()[i].content_type.spec_supports_signature())
        &&& forall|j: int|
            0 <= j < self.store@.len() ==> rec_contains_id(
                self.recs(),
                (#[trigger] self.store@[j]).content_id,
            )
    }

    /// Creates a pipeline with a validated threshold and an empty corpus.
    pub fn new(threshold: Threshold) -> (p: DuplicateDetectionPipeline)
        requires
            threshold.wf(),
        ensures
            p.inv(),
            p.recs().len() == 0,
            p.store@.len() == 0,
            p.threshold == threshold,
            p.next_content_id == 1,
    {
        DuplicateDetectionPipeline {
            records: Vec::new(),
            store: SignatureStore::new(),
            threshold,
            next_content_id: 1,
        }
    }

    /// One reverse-search pass over an already-computed signature: exact
    /// checksum match first, then candidate retrieval and ranking. Nothing
    /// is persisted.
    pub fn reverse_search(&self, checksum: &Vec<u8>, signature: Option<&Fingerprint>) -> (r:
        ReverseSearchResult)
        requires
            self.inv(),
            signature matches Some(fp) ==> fp.wf(),
        ensures
            search_correct(
                self.recs(),
                self.store@,
                self.threshold,
                checksum@,
                match signature {
                    Some(fp) => Some(fp@),
                    None => None,
                },
                r.exact_match,
                r.similar@,
            ),
    {
        // Step 1 and 2: exact-match short circuit on the checksum.
        if let Some(id) = self.find_exact(checksum) {
            return ReverseSearchResult { exact_match: Some(id), similar: Vec::new() };
        }
        // Steps 3 to 5: extract, index, retrieve candidates, rank.
        match signature {
            None => ReverseSearchResult { exact_match: None, similar: Vec::new() },
            Some(fp) => {
                let buckets = generate_indexes(fp);
                let cands = self.store.find_candidates(&buckets);
                let ranked = rank(fp, &cands, &self.threshold);
                proof {
                    lemma_similar_correct(self.store@, cands@, ranked@, fp@, self.threshold);
                }
                ReverseSearchResult { exact_match: None, similar: ranked }
            },
        }
    }

    /// Looks up a content record by exact checksum.
    #[verifier::loop_isolation(false)]
    fn find_exact(&self, checksum: &Vec<u8>) -> (r: Option<i32>)
        requires
            self.inv(),
        ensures
            match r {
                Some(id) => find_checksum(self.recs(), checksum@) matches Some(rec)
                    && rec.content_id == id,
                None => find_checksum(self.recs(), checksum@) is None,
            },
    {
        let n = self.records.len();
        let mut i: usize = 0;
        while i < n
            invariant
                i <= n,
                forall|t: int| 0 <= t < i ==> (#[trigger] self.recs()[t]).checksum != checksum@,
            decreases n - i,
        {
            if bytes_eq(&self.records[i].checksum, checksum) {
                proof {
                    lemma_find_checksum_first(self.recs(), checksum@, i as int);
                }
                return Some(self.records[i].content_id);
            }
            i = i + 1;
        }
        proof {
            lemma_find_checksum_absent(self.recs(), checksum@);
        }
        None
    }
}

/// Glue between the store's candidate query, the matcher's ranking, and the
/// store-level statement of a correct similarity result.
proof fn lemma_similar_correct(
    store: Seq<SigModel>,
    cands: Seq<crate::store::StoredSignature>,
    ranked: Seq<SimilarMatch>,
    q: Seq<bool>,
    thr: Threshold,
)
    requires
        cands.map_values(|c: crate::store::StoredSignature| c@) == store.filter(
            |m: SigModel| shares_bucket(m.words, spec_words(q)),
        ),
        forall|t: int| 0 <= t < cands.len() ==> store.contains((#[trigger] cands[t])@),
        sorted_matches(ranked),
        ranked.to_multiset() == rank_matches(
            cands.map_values(|c: crate::store::StoredSignature| c@),
            q,
            thr,
        ).to_multiset(),
        forall|t: int|
            0 <= t < ranked.len() ==> stems_from(#[trigger] ranked[t], cands, q, thr),
        forall|i: int|
            0 <= i < cands.len() && candidate_passes((#[trigger] cands[i])@, q, thr)
                ==> ranked.contains(match_of(cands[i]@, q)),
    ensures
        similar_correct(ranked, store, q, thr),
{
    let pred = |m: SigModel| shares_bucket(m.words, spec_words(q));
    let cviews = cands.map_values(|c: crate::store::StoredSignature| c@);
    // Soundness: each ranked entry stems from a stored, sharing, passing row.
    assert forall|t: int| 0 <= t < ranked.len() implies match_from_store(
        #[trigger] ranked[t],
        store,
        q,
        thr,
    ) by {
        assert(stems_from(ranked[t], cands, q, thr));
        let i = choose|i: int|
            0 <= i < cands.len() && candidate_passes((#[trigger] cands[i])@, q, thr) && ranked[t]
                == match_of(cands[i]@, q);
        assert(store.contains(cands[i]@));
        let j = choose|j: int| 0 <= j < store.len() && store[j] == cands[i]@;
        assert(cviews[i] == cands[i]@);
        assert(store.filter(pred)[i] == cviews[i]);
        Seq::lemma_filter_pred(store, pred, i);
        assert(shares_bucket((#[trigger] store[j]).words, spec_words(q)));
        assert(candidate_passes(store[j], q, thr) && ranked[t] == match_of(store[j], q));
    }
    // Completeness: each stored, sharing, passing row appears in the ranking.
    assert forall|j: int|
        0 <= j < store.len() && shares_bucket((#[trigger] store[j]).words, spec_words(q))
            && candidate_passes(store[j], q, thr) implies ranked.contains(
        match_of(store[j], q),
    ) by {
        Seq::lemma_filter_contains(store, pred, j);
        assert(store.filter(pred).contains(store[j]));
        let t = choose|t: int|
            0 <= t < store.filter(pred).len() && store.filter(pred)[t] == store[j];
        assert(cviews[t] == store[j]);
        assert(cands[t]@ == store[j]);
        assert(candidate_passes(cands[t]@, q, thr));
        assert(ranked.contains(match_of(cands[t]@, q)));
    }
}

/// Pushing a row changes which ids a signature sequence holds by exactly
/// that row's id.
proof fn lemma_sig_contains_id_push(s: Seq<SigModel>, m: SigModel, x: i32)
    ensures
        contains_id(s.push(m), x) == (contains_id(s, x) || m.content_id == x),
{
    if contains_id(s, x) {
        let t = choose|t: int| 0 <= t < s.len() && (#[trigger] s[t]).content_id == x;
        assert((#[trigger] s.push(m)[t]).content_id == x);
    }
    if m.content_id == x {
        assert((#[trigger] s.push(m)[s.len() as int]).content_id == x);
    }
    if contains_id(s.push(m), x) {
        let t = choose|t: int| 0 <= t < s.push(m).len() && (#[trigger] s.push(m)[t]).content_id
            == x;
        if t < s.len() {
            assert((#[trigger] s[t]).content_id == x);
        } else {
            assert(s.push(m)[t] == m);
        }
    }
}

/// Pushing a record changes which ids a record sequence holds by exactly
/// that record's id.
proof fn lemma_rec_contains_id_push(rs: Seq<RecordModel>, m: RecordModel, x: i32)
    ensures
        rec_contains_id(rs.push(m), x) == (rec_contains_id(rs, x) || m.content_id == x),
{
    if rec_contains_id(rs, x) {
        let t = choose|t: int| 0 <= t < rs.len() && (#[trigger] rs[t]).content_id == x;
        assert((#[trigger] rs.push(m)[t]).content_id == x);
    }
    if m.content_id == x {
        assert((#[trigger] rs.push(m)[rs.len() as int]).content_id == x);
    }
    if rec_contains_id(rs.push(m), x) {
        let t = choose|t: int| 0 <= t < rs.push(m).len() && (#[trigger] rs.push(m)[t]).content_id
            == x;
        if t < rs.len() {
            assert((#[trigger] rs[t]).content_id == x);
        } else {
            assert(rs.push(m)[t] == m);
        }
    }
}

/// A search that finds no record means no record carries the checksum.
pub proof fn lemma_find_checksum_none(rs: Seq<RecordModel>, sum: Seq<u8>)
    requires
        find_checksum(rs, sum) is None,
    ensures
        !rec_contains_checksum(rs, sum),
    decreases rs.len(),
{
    if rs.len() > 0 {
        assert(rs[0].checksum != sum);
        lemma_find_checksum_none(rs.drop_first(), sum);
        assert forall|i: int|
            0 <= i < rs.len() implies (#[trigger] rs[i]).checksum != sum by {
            if i > 0 {
                assert(rs.drop_first()[i - 1] == rs[i]);
                assert((#[trigger] rs.drop_first()[i - 1]).checksum != sum);
            }
        }
    }
}

/// What a correct ingestion pass does: an exact checksum match
/// short-circuits, creating nothing; otherwise a fresh id is assigned, the
/// record is registered, its signature (when the type supports one) is
/// stored in the same step, and the similarity list over the prior corpus
/// is returned.
pub open spec fn ingest_correct(
    pre: DuplicateDetectionPipeline,
    post: DuplicateDetectionPipeline,
    checksum: Seq<u8>,
    ct: ContentType,
    sig: Option<Seq<bool>>,
    exact: Option<i32>,
    created: Option<i32>,
    sim: Seq<SimilarMatch>,
) -> bool {
    match find_checksum(pre.recs(), checksum) {
        Some(rec) => exact == Some(rec.content_id) && created is None && sim == Seq::<
            SimilarMatch,
        >::empty() && post == pre,
        None => {
            &&& exact is None
            &&& created == Some(pre.next_content_id)
            &&& match sig {
                None => sim == Seq::<SimilarMatch>::empty(),
                Some(q) => similar_correct(sim, pre.store@, q, pre.threshold),
            }
            &&& post.next_content_id == pre.next_content_id + 1
            &&& post.threshold == pre.threshold
            &&& post.recs() == pre.recs().push(
                RecordModel { content_id: pre.next_content_id, checksum, content_type: ct },
            )
            &&& post.store@ == (match sig {
                Some(q) => pre.store@.push(
                    SigModel {
                        content_id: pre.next_content_id,
                        fingerprint: q,
                        words: spec_words(q),
                    },
                ),
                None => pre.store@,
            })
        },
    }
}

impl DuplicateDetectionPipeline {
    /// One ingestion pass over an already-computed signature. An exact
    /// checksum match short-circuits and creates nothing. Otherwise the
    /// content record and, for signed types, its signature row are persisted
    /// together — atomically, so no reader observes one without the other —
    /// and the ranked similarity list over the prior corpus is returned.
    pub fn ingest(
        &mut self,
        checksum: Vec<u8>,
        content_type: ContentType,
        signature: Option<Fingerprint>,
    ) -> (out: IngestOutcome)
        requires
            old(self).inv(),
            (signature is Some) <==> content_type.spec_supports_signature(),
            signature matches Some(fp) ==> fp.wf(),
            old(self).next_content_id < i32::MAX,
        ensures
            final(self).inv(),
            ingest_correct(
                *old(self),
                *final(self),
                checksum@,
                content_type,
                match signature {
                    Some(fp) => Some(fp@),
                    None => None,
                },
                out.exact_match,
                out.created,
                out.similar@,
            ),
    {
        let ghost pre = *old(self);
        let res = self.reverse_search(&checksum, signature.as_ref());
        if let Some(id) = res.exact_match {
            proof {
                if find_checksum(pre.recs(), checksum@) is None {
                    assert(res.exact_match is None);
                    assert(false);
                }
            }
            return IngestOutcome { exact_match: Some(id), created: None, similar: res.similar };
        }
        proof {
            if find_checksum(pre.recs(), checksum@) is Some {
                assert(res.exact_match is Some);
                assert(false);
            }
            lemma_find_checksum_none(pre.recs(), checksum@);
        }
        let id = self.next_content_id;
        self.next_content_id = id + 1;
        let ghost checksum_view = checksum@;
        self.records.push(ContentRecord { content_id: id, checksum, content_type });
        let ghost newrec = RecordModel {
            content_id: id,
            checksum: checksum_view,
            content_type,
        };
        proof {
            assert(self.recs() =~= pre.recs().push(newrec));
        }
        match signature {
            Some(fp) => {
                let ghost fpv = fp@;
                let buckets = generate_indexes(&fp);
                let insert_result = self.store.insert(id, fp, buckets);
                proof {
                    if insert_result is Err {
                        assert(contains_id(pre.store@, id));
                        let j = choose|j: int|
                            0 <= j < pre.store@.len() && (#[trigger] pre.store@[j]).content_id
                                == id;
                        assert(rec_contains_id(pre.recs(), id));
                        let t = choose|t: int|
                            0 <= t < pre.recs().len() && (#[trigger] pre.recs()[t]).content_id
                                == id;
                        assert(false);
                    }
                    lemma_ingest_invariant(
                        pre,
                        *self,
                        newrec,
                        Some(SigModel { content_id: id, fingerprint: fpv, words: spec_words(fpv) }),
                    );
                }
            },
            None => {
                proof {
                    if contains_id(pre.store@, id) {
                        let j = choose|j: int|
                            0 <= j < pre.store@.len() && (#[trigger] pre.store@[j]).content_id
                                == id;
                        assert(rec_contains_id(pre.recs(), id));
                        let t = choose|t: int|
                            0 <= t < pre.recs().len() && (#[trigger] pre.recs()[t]).content_id
                                == id;
                        assert(false);
                    }
                    lemma_ingest_invariant(pre, *self, newrec, None);
                }
            },
        }
        IngestOutcome { exact_match: None, created: Some(id), similar: res.similar }
    }
}

/// After registering a fresh record (and, for signed types, its signature
/// row) the pipeline invariant holds again.
proof fn lemma_ingest_invariant(
    pre: DuplicateDetectionPipeline,
    post: DuplicateDetectionPipeline,
    newrec: RecordModel,
    newsig: Option<SigModel>,
)
    requires
        pre.inv(),
        newrec.content_id == pre.next_content_id,
        pre.next_content_id < i32::MAX,
        !rec_contains_checksum(pre.recs(), newrec.checksum),
        post.recs() == pre.recs().push(newrec),
        post.threshold == pre.threshold,
        post.next_content_id == pre.next_content_id + 1,
        post.store.inv(),
        match newsig {
            Some(m) => newrec.content_type.spec_supports_signature() && m.content_id
                == newrec.content_id && post.store@ == pre.store@.push(m),
            None => !newrec.content_type.spec_supports_signature() && post.store@ == pre.store@
                && !contains_id(pre.store@, newrec.content_id),
        },
    ensures
        post.inv(),
{
    let rs = pre.recs();
    let n = rs.len() as int;
    // Ids and checksums stay unique; ids stay below the next id.
    assert forall|i: int, j: int|
        0 <= i < j < post.recs().len() implies (#[trigger] post.recs()[i]).content_id != (
        #[trigger] post.recs()[j]).content_id by {
        if j < n {
            assert(rs[i].content_id != rs[j].content_id);
        } else {
            assert(post.recs()[i] == rs[i]);
            assert((#[trigger] rs[i]).content_id < pre.next_content_id);
        }
    }
    assert forall|i: int, j: int|
        0 <= i < j < post.recs().len() implies (#[trigger] post.recs()[i]).checksum != (
        #[trigger] post.recs()[j]).checksum by {
        if j < n {
            assert(rs[i].checksum != rs[j].checksum);
        } else {
            assert(post.recs()[i] == rs[i]);
            assert((#[trigger] rs[i]).checksum != newrec.checksum);
        }
    }
    assert forall|i: int|
        0 <= i < post.recs().len() implies (#[trigger] post.recs()[i]).content_id
        < post.next_content_id by {
        if i < n {
            assert(post.recs()[i] == rs[i]);
            assert((#[trigger] rs[i]).content_id < pre.next_content_id);
        }
    }
    // A signature row exists exactly for the signed content types.
    assert forall|i: int|
        0 <= i < post.recs().len() implies (contains_id(
        post.store@,
        (#[trigger] post.recs()[i]).content_id,
    ) <==> post.recs()[i].content_type.spec_supports_signature()) by {
        match newsig {
            Some(m) => {
                lemma_sig_contains_id_push(pre.store@, m, post.recs()[i].content_id);
                if i < n {
                    assert(post.recs()[i] == rs[i]);
                    assert((#[trigger] rs[i]).content_id < pre.next_content_id);
                    assert(contains_id(pre.store@, rs[i].content_id)
                        <==> rs[i].content_type.spec_supports_signature());
                } else {
                    assert(post.recs()[i] == newrec);
                }
            },
            None => {
                if i < n {
                    assert(post.recs()[i] == rs[i]);
                    assert(contains_id(pre.store@, rs[i].content_id)
                        <==> rs[i].content_type.spec_supports_signature());
                } else {
                    assert(post.recs()[i] == newrec);
                }
            },
        }
    }
    // Every signature row belongs to a registered record.
    assert forall|j: int|
        0 <= j < post.store@.len() implies rec_contains_id(
        post.recs(),
        (#[trigger] post.store@[j]).content_id,
    ) by {
        lemma_rec_contains_id_push(rs, newrec, post.store@[j].content_id);
        match newsig {
            Some(m) => {
                if j < pre.store@.len() {
                    assert(post.store@[j] == pre.store@[j]);
                    assert(rec_contains_id(rs, (#[trigger] pre.store@[j]).content_id));
                } else {
                    assert(post.store@[j] == m);
                }
            },
            None => {
                assert(rec_contains_id(rs, (#[trigger] pre.store@[j]).content_id));
            },
        }
    }
}

/// Computes the perceptual signature of uploaded content when its type
/// supports one: raster content is decoded and fingerprinted, other content
/// types are skipped without error. A decode failure or a zero-area image is
/// reported as a decode error, never as a default fingerprint.
pub fn compute_signature_if_applicable(
    bytes: &[u8],
    format: DeclaredFormat,
    content_type: ContentType,
) -> (r: Result<Option<Fingerprint>, Error>)
    ensures
        match r {
            Ok(opt) => match opt {
                Some(fp) => content_type.spec_supports_signature() && fp.wf() && (decoded_of(
                    bytes@,
                    format,
                ) matches Some(g) && g.width >= 1 && g.height >= 1 && fp@ == spec_extract(g)),
                None => !content_type.spec_supports_signature(),
            },
            Err(e) => e == Error::Decode && content_type.spec_supports_signature()
                && decode_degenerate(bytes@, format),
        },
{
    if !content_type.supports_signature() {
        return Ok(None);
    }
    match decode_image(bytes, format) {
        Err(e) => Err(e),
        Ok(grid) => match compute_signature(&grid) {
            Ok(fp) => Ok(Some(fp)),
            Err(e) => Err(e),
        },
    }
}

impl DuplicateDetectionPipeline {
    /// One reverse-search pass over raw content bytes. The checksum is
    /// looked up first: an exact match is answered without ever decoding the
    /// bytes. Only then is the signature computed when applicable and the
    /// search run. A decode failure aborts the whole request; no partial
    /// result is returned.
    pub fn reverse_search_bytes(
        &self,
        checksum: &Vec<u8>,
        bytes: &[u8],
        format: DeclaredFormat,
        content_type: ContentType,
    ) -> (r: Result<ReverseSearchResult, Error>)
        requires
            self.inv(),
        ensures
            match r {
                Ok(res) => search_correct(
                    self.recs(),
                    self.store@,
                    self.threshold,
                    checksum@,
                    applicable_signature(bytes@, format, content_type),
                    res.exact_match,
                    res.similar@,
                ),
                Err(e) => e == Error::Decode && content_type.spec_supports_signature()
                    && decode_degenerate(bytes@, format) && find_checksum(
                    self.recs(),
                    checksum@,
                ) is None,
            },
    {
        // Steps 1 and 2 come first: byte-identical content is reported as
        // the exact match whether or not its bytes decode.
        if let Some(id) = self.find_exact(checksum) {
            return Ok(ReverseSearchResult { exact_match: Some(id), similar: Vec::new() });
        }
        let signature = match compute_signature_if_applicable(bytes, format, content_type) {
            Ok(s) => s,
            Err(e) => {
                return Err(e);
            },
        };
        Ok(self.reverse_search(checksum, signature.as_ref()))
    }

    /// One ingestion pass over raw content bytes. The checksum is looked up
    /// first: an exact match short-circuits, creating nothing, without ever
    /// decoding the bytes. Only then is the signature computed when
    /// applicable and ingestion run. A decode failure aborts the entire
    /// ingestion; the content row is not created.
    pub fn ingest_bytes(
        &mut self,
        checksum: Vec<u8>,
        bytes: &[u8],
        format: DeclaredFormat,
        content_type: ContentType,
    ) -> (r: Result<IngestOutcome, Error>)
        requires
            old(self).inv(),
            old(self).next_content_id < i32::MAX,
        ensures
            final(self).inv(),
            match r {
                Ok(out) => ingest_correct(
                    *old(self),
                    *final(self),
                    checksum@,
                    content_type,
                    applicable_signature(bytes@, format, content_type),
                    out.exact_match,
                    out.created,
                    out.similar@,
                ),
                Err(e) => *final(self) == *old(self) && e == Error::Decode
                    && content_type.spec_supports_signature() && decode_degenerate(bytes@, format)
                    && find_checksum(old(self).recs(), checksum@) is None,
            },
    {
        // Steps 1 and 2 come first: byte-identical content short-circuits
        // whether or not its bytes decode.
        if let Some(id) = self.find_exact(&checksum) {
            return Ok(IngestOutcome { exact_match: Some(id), created: None, similar: Vec::new() });
        }
        let signature = match compute_signature_if_applicable(bytes, format, content_type) {
            Ok(s) => s,
            Err(e) => {
                return Err(e);
            },
        };
        Ok(self.ingest(checksum, content_type, signature))
    }
}

/// Type exclusion: every entry of a correct similarity result is the id of a
/// registered content item whose type supports visual signatures. Content
/// without signature support never appears in, nor contributes to, a
/// similarity result.
pub proof fn lemma_type_exclusion(
    p: DuplicateDetectionPipeline,
    q: Seq<bool>,
    sim: Seq<SimilarMatch>,
    t: int,
)
    requires
        p.inv(),
        similar_correct(sim, p.store@, q, p.threshold),
        0 <= t < sim.len(),
    ensures
        exists|i: int|
            0 <= i < p.recs().len() && (#[trigger] p.recs()[i]).content_id == sim[t].content_id
                && p.recs()[i].content_type.spec_supports_signature(),
{
    assert(match_from_store(sim[t], p.store@, q, p.threshold));
    let j = choose|j: int|
        0 <= j < p.store@.len() && shares_bucket((#[trigger] p.store@[j]).words, spec_words(q))
            && candidate_passes(p.store@[j], q, p.threshold) && sim[t] == match_of(
            p.store@[j],
            q,
        );
    assert(rec_contains_id(p.recs(), p.store@[j].content_id));
    let i = choose|i: int|
        0 <= i < p.recs().len() && (#[trigger] p.recs()[i]).content_id == p.store@[j].content_id;
    assert(contains_id(p.store@, p.recs()[i].content_id)) by {
        assert((#[trigger] p.store@[j]).content_id == p.recs()[i].content_id);
    }
    assert(p.recs()[i].content_type.spec_supports_signature());
    assert(sim[t].content_id == p.store@[j].content_id);
}

/// A stored signature bit-identical to the query that shares at least one
/// bucket with it is always reported, with distance exactly zero, and the
/// ranking places zero-distance entries before any entry of nonzero
/// distance. This needs the similarity threshold strictly below 1: at
/// exactly 1 the strict distance cutoff of ranking discards even distance
/// zero, so nothing at all is reported.
pub proof fn lemma_identical_signature_reported(
    sim: Seq<SimilarMatch>,
    store: Seq<SigModel>,
    q: Seq<bool>,
    thr: Threshold,
    j: int,
)
    requires
        thr.wf(),
        thr.num < thr.den,
        similar_correct(sim, store, q, thr),
        0 <= j < store.len(),
        store[j].fingerprint == q,
        shares_bucket(store[j].words, spec_words(q)),
    ensures
        sim.contains(SimilarMatch { content_id: store[j].content_id, distance_bits: 0 }),
        forall|t1: int, t2: int|
            0 <= t1 < t2 < sim.len() ==> (#[trigger] sim[t1]).distance_bits <= (
            #[trigger] sim[t2]).distance_bits,
{
    lemma_distance_self(q);
    assert(hamming(q, store[j].fingerprint) == 0);
    assert(candidate_passes(store[j], q, thr)) by {
        assert(0 * (thr.den as int) == 0) by (nonlinear_arith);
        assert(112 * ((thr.den - thr.num) as int) >= 112);
    }
    assert(sim.contains(match_of(store[j], q)));
    assert(match_of(store[j], q) == (SimilarMatch {
        content_id: store[j].content_id,
        distance_bits: 0,
    }));
}

/// Exact-match short circuit: after ingesting content whose checksum was
/// new, a search for byte-identical content reports the freshly created item
/// as the exact match, with an empty similarity list.
pub proof fn lemma_exact_match_short_circuit(
    pre: DuplicateDetectionPipeline,
    post: DuplicateDetectionPipeline,
    checksum: Seq<u8>,
    ct: ContentType,
    sig: Option<Seq<bool>>,
    exact: Option<i32>,
    id: i32,
    sim: Seq<SimilarMatch>,
    sig2: Option<Seq<bool>>,
    exact2: Option<i32>,
    sim2: Seq<SimilarMatch>,
)
    requires
        ingest_correct(pre, post, checksum, ct, sig, exact, Some(id), sim),
        search_correct(post.recs(), post.store@, post.threshold, checksum, sig2, exact2, sim2),
    ensures
        exact2 == Some(id),
        sim2 == Seq::<SimilarMatch>::empty(),
{
    if find_checksum(pre.recs(), checksum) is Some {
        assert(false);
    }
    lemma_find_checksum_none(pre.recs(), checksum);
    let n = pre.recs().len() as int;
    assert(post.recs()[n].checksum == checksum);
    assert forall|t: int| 0 <= t < n implies (#[trigger] post.recs()[t]).checksum != checksum by {
        assert(post.recs()[t] == pre.recs()[t]);
        assert((#[trigger] pre.recs()[t]).checksum != checksum);
    }
    lemma_find_checksum_first(post.recs(), checksum, n);
    assert(post.recs()[n].content_id == id);
}

impl ContentRecord {
    /// Returns a copy holding the same id, checksum and content type.
    pub fn duplicate(&self) -> (r: ContentRecord)
        ensures
            r@ == self@,
    {
        let checksum = self.checksum.clone();
        proof {
            assert(checksum@ =~= self.checksum@);
        }
        ContentRecord { content_id: self.content_id, checksum, content_type: self.content_type }
    }
}

/// A prefix one element longer holds an id exactly when the shorter prefix
/// holds it or the new record carries it.
proof fn lemma_rec_contains_id_take_succ(rs: Seq<RecordModel>, id: i32, i: int)
    requires
        0 <= i < rs.len(),
    ensures
        rec_contains_id(rs.take(i + 1), id) == (rec_contains_id(rs.take(i), id)
            || rs[i].content_id == id),
{
    assert(rs.take(i + 1) =~= rs.take(i).push(rs[i]));
    if rec_contains_id(rs.take(i), id) {
        let t = choose|t: int|
            0 <= t < rs.take(i).len() && (#[trigger] rs.take(i)[t]).content_id == id;
        assert((#[trigger] rs.take(i + 1)[t]).content_id == id);
    }
    if rs[i].content_id == id {
        assert((#[trigger] rs.take(i + 1)[i]).content_id == id);
    }
    if rec_contains_id(rs.take(i + 1), id) {
        let t = choose|t: int|
            0 <= t < rs.take(i + 1).len() && (#[trigger] rs.take(i + 1)[t]).content_id == id;
        if t < i {
            assert((#[trigger] rs.take(i)[t]).content_id == id);
        } else {
            assert(rs.take(i + 1)[t] == rs[i]);
        }
    }
}

/// Filtering out one id leaves the presence of every other id unchanged.
proof fn lemma_sig_contains_id_filter(s: Seq<SigModel>, id: i32, x: i32)
    requires
        x != id,
    ensures
        contains_id(s.filter(|m: SigModel| m.content_id != id), x) == contains_id(s, x),
{
    let pred = |m: SigModel| m.content_id != id;
    if contains_id(s.filter(pred), x) {
        let t = choose|t: int|
            0 <= t < s.filter(pred).len() && (#[trigger] s.filter(pred)[t]).content_id == x;
        crate::store::lemma_filter_elems_contained(s, pred);
        assert(s.contains(s.filter(pred)[t]));
        let w = choose|w: int| 0 <= w < s.len() && s[w] == s.filter(pred)[t];
        assert((#[trigger] s[w]).content_id == x);
    }
    if contains_id(s, x) {
        let w = choose|w: int| 0 <= w < s.len() && (#[trigger] s[w]).content_id == x;
        Seq::lemma_filter_contains(s, pred, w);
        assert(s.filter(pred).contains(s[w]));
        let t = choose|t: int| 0 <= t < s.filter(pred).len() && s.filter(pred)[t] == s[w];
        assert((#[trigger] s.filter(pred)[t]).content_id == x);
    }
}

/// Filtering out one id leaves the presence of every other record id
/// unchanged.
proof fn lemma_rec_contains_id_filter(rs: Seq<RecordModel>, id: i32, x: i32)
    requires
        x != id,
    ensures
        rec_contains_id(rs.filter(|r: RecordModel| r.content_id != id), x) == rec_contains_id(
            rs,
            x,
        ),
{
    let pred = |r: RecordModel| r.content_id != id;
    if rec_contains_id(rs.filter(pred), x) {
        let t = choose|t: int|
            0 <= t < rs.filter(pred).len() && (#[trigger] rs.filter(pred)[t]).content_id == x;
        crate::store::lemma_filter_elems_contained(rs, pred);
        assert(rs.contains(rs.filter(pred)[t]));
        let w = choose|w: int| 0 <= w < rs.len() && rs[w] == rs.filter(pred)[t];
        assert((#[trigger] rs[w]).content_id == x);
    }
    if rec_contains_id(rs, x) {
        let w = choose|w: int| 0 <= w < rs.len() && (#[trigger] rs[w]).content_id == x;
        Seq::lemma_filter_contains(rs, pred, w);
        assert(rs.filter(pred).contains(rs[w]));
        let t = choose|t: int| 0 <= t < rs.filter(pred).len() && rs.filter(pred)[t] == rs[w];
        assert((#[trigger] rs.filter(pred)[t]).content_id == x);
    }
}

/// After removing one content item and its signature row the pipeline
/// invariant holds again.
proof fn lemma_delete_invariant(
    pre: DuplicateDetectionPipeline,
    post: DuplicateDetectionPipeline,
    id: i32,
)
    requires
        pre.inv(),
        post.store.inv(),
        post.recs() == pre.recs().filter(|r: RecordModel| r.content_id != id),
        post.store@ == pre.store@.filter(|m: SigModel| m.content_id != id),
        post.threshold == pre.threshold,
        post.next_content_id == pre.next_content_id,
    ensures
        post.inv(),
{
    let predr = |r: RecordModel| r.content_id != id;
    let preds = |m: SigModel| m.content_id != id;
    let fr = pre.recs().filter(predr);
    crate::store::lemma_filter_elems_contained(pre.recs(), predr);
    let idkey = |r: RecordModel| r.content_id;
    let sumkey = |r: RecordModel| r.checksum;
    crate::store::lemma_filter_distinct_keys(pre.recs(), predr, idkey);
    crate::store::lemma_filter_distinct_keys(pre.recs(), predr, sumkey);
    assert forall|i: int, j: int|
        0 <= i < j < fr.len() implies (#[trigger] fr[i]).content_id != (
    #[trigger] fr[j]).content_id by {
        assert(idkey(fr[i]) != idkey(fr[j]));
    }
    assert forall|i: int, j: int|
        0 <= i < j < fr.len() implies (#[trigger] fr[i]).checksum != (
    #[trigger] fr[j]).checksum by {
        assert(sumkey(fr[i]) != sumkey(fr[j]));
    }
    assert forall|i: int|
        0 <= i < fr.len() implies (#[trigger] fr[i]).content_id < post.next_content_id by {
        assert(pre.recs().contains(fr[i]));
        let w = choose|w: int| 0 <= w < pre.recs().len() && pre.recs()[w] == fr[i];
        assert((#[trigger] pre.recs()[w]).content_id < pre.next_content_id);
    }
    assert forall|i: int|
        0 <= i < fr.len() implies (contains_id(post.store@, (#[trigger] fr[i]).content_id)
        <==> fr[i].content_type.spec_supports_signature()) by {
        Seq::lemma_filter_pred(pre.recs(), predr, i);
        assert(pre.recs().contains(fr[i]));
        let w = choose|w: int| 0 <= w < pre.recs().len() && pre.recs()[w] == fr[i];
        assert(contains_id(pre.store@, (#[trigger] pre.recs()[w]).content_id)
            <==> pre.recs()[w].content_type.spec_supports_signature());
        lemma_sig_contains_id_filter(pre.store@, id, fr[i].content_id);
    }
    assert forall|j: int|
        0 <= j < post.store@.len() implies rec_contains_id(
        post.recs(),
        (#[trigger] post.store@[j]).content_id,
    ) by {
        Seq::lemma_filter_pred(pre.store@, preds, j);
        crate::store::lemma_filter_elems_contained(pre.store@, preds);
        assert(pre.store@.contains(post.store@[j]));
        let w = choose|w: int| 0 <= w < pre.store@.len() && pre.store@[w] == post.store@[j];
        assert(rec_contains_id(pre.recs(), (#[trigger] pre.store@[w]).content_id));
        lemma_rec_contains_id_filter(pre.recs(), id, post.store@[j].content_id);
    }
}

impl DuplicateDetectionPipeline {
    /// Deletes a content item: its record and, cascading with it, its
    /// signature row are removed together. Reports whether the item existed.
    #[verifier::loop_isolation(false)]
    pub fn delete_content(&mut self, content_id: i32) -> (removed: bool)
        requires
            old(self).inv(),
        ensures
            final(self).inv(),
            removed == rec_contains_id(old(self).recs(), content_id),
            final(self).recs() == old(self).recs().filter(
                |r: RecordModel| r.content_id != content_id,
            ),
            final(self).store@ == old(self).store@.filter(
                |m: SigModel| m.content_id != content_id,
            ),
            final(self).threshold == old(self).threshold,
            final(self).next_content_id == old(self).next_content_id,
    {
        let ghost pre = *old(self);
        let ghost predr = |r: RecordModel| r.content_id != content_id;
        let _had_signature = self.store.delete(content_id);
        let n = self.records.len();
        let mut kept: Vec<ContentRecord> = Vec::new();
        let mut removed = false;
        let mut i: usize = 0;
        while i < n
            invariant
                i <= n,
                self.records@ == pre.records@,
                kept@.map_values(|c: ContentRecord| c@) == pre.recs().take(i as int).filter(
                    predr,
                ),
                removed == rec_contains_id(pre.recs().take(i as int), content_id),
            decreases n - i,
        {
            let ghost kv = kept@.map_values(|c: ContentRecord| c@);
            proof {
                crate::store::lemma_filter_take_succ(pre.recs(), predr, i as int);
                lemma_rec_contains_id_take_succ(pre.recs(), content_id, i as int);
            }
            if self.records[i].content_id != content_id {
                let row = self.records[i].duplicate();
                kept.push(row);
                proof {
                    assert(kept@.map_values(|c: ContentRecord| c@) =~= kv.push(
                        pre.recs()[i as int],
                    ));
                }
            } else {
                removed = true;
            }
            i = i + 1;
        }
        proof {
            assert(pre.recs().take(n as int) =~= pre.recs());
        }
        self.records = kept;
        proof {
            lemma_delete_invariant(pre, *self, content_id);
        }
        removed
    }
}

/// Two signature sequences with the same id at every position hold any
/// given id together or not at all.
proof fn lemma_same_ids_same_contains(s1: Seq<SigModel>, s2: Seq<SigModel>, x: i32)
    requires
        s1.len() == s2.len(),
        forall|i: int|
            0 <= i < s1.len() ==> (#[trigger] s1[i]).content_id == (#[trigger] s2[i]).content_id,
    ensures
        contains_id(s1, x) == contains_id(s2, x),
{
    if contains_id(s1, x) {
        let i = choose|i: int| 0 <= i < s1.len() && (#[trigger] s1[i]).content_id == x;
        assert((#[trigger] s2[i]).content_id == x);
    }
    if contains_id(s2, x) {
        let i = choose|i: int| 0 <= i < s2.len() && (#[trigger] s2[i]).content_id == x;
        assert((#[trigger] s1[i]).content_id == x);
    }
}

impl DuplicateDetectionPipeline {
    /// Finds the index of the record keyed by a content id known to exist.
    #[verifier::loop_isolation(false)]
    fn record_index_of(&self, content_id: i32) -> (i: usize)
        requires
            rec_contains_id(self.recs(), content_id),
        ensures
            i < self.recs().len(),
            self.recs()[i as int].content_id == content_id,
    {
        let n = self.records.len();
        let mut i: usize = 0;
        while i < n
            invariant
                i <= n,
                forall|t: int| 0 <= t < i ==> (#[trigger] self.recs()[t]).content_id != content_id,
            decreases n - i,
        {
            if self.records[i].content_id == content_id {
                proof {
                    assert((#[trigger] self.recs()[i as int]).content_id == content_id);
                }
                return i;
            }
            i = i + 1;
        }
        proof {
            assert(false);
        }
        0
    }

    /// Content replacement between two signed items: their raw bytes are
    /// exchanged, so the two records trade checksums and content types, and
    /// the two signature rows trade payloads — in one step, so no reader
    /// observes a half-swapped pair. Every row keeps its content id.
    #[verifier::loop_isolation(false)]
    pub fn swap_content(&mut self, id_a: i32, id_b: i32)
        requires
            old(self).inv(),
            rec_contains_id(old(self).recs(), id_a),
            rec_contains_id(old(self).recs(), id_b),
            forall|i: int|
                0 <= i < old(self).recs().len() && ((#[trigger] old(self).recs()[i]).content_id
                    == id_a || old(self).recs()[i].content_id == id_b) ==> old(
                    self,
                ).recs()[i].content_type.spec_supports_signature(),
        ensures
            final(self).inv(),
            final(self).threshold == old(self).threshold,
            final(self).next_content_id == old(self).next_content_id,
            final(self).recs().len() == old(self).recs().len(),
            forall|i: int|
                0 <= i < old(self).recs().len() ==> (#[trigger] final(self).recs()[i]).content_id
                    == old(self).recs()[i].content_id,
            forall|i: int, j: int|
                0 <= i < old(self).recs().len() && 0 <= j < old(self).recs().len() && (
                #[trigger] old(self).recs()[i]).content_id == id_a && (#[trigger] old(
                    self,
                ).recs()[j]).content_id == id_b ==> final(self).recs()[i] == (RecordModel {
                    content_id: id_a,
                    checksum: old(self).recs()[j].checksum,
                    content_type: old(self).recs()[j].content_type,
                }) && final(self).recs()[j] == (RecordModel {
                    content_id: id_b,
                    checksum: old(self).recs()[i].checksum,
                    content_type: old(self).recs()[i].content_type,
                }),
            forall|i: int|
                0 <= i < old(self).recs().len() && (#[trigger] old(self).recs()[i]).content_id
                    != id_a && old(self).recs()[i].content_id != id_b ==> final(self).recs()[i]
                    == old(self).recs()[i],
            lookup(final(self).store@, id_a) == (match lookup(old(self).store@, id_b) {
                Some(m) => Some(
                    SigModel { content_id: id_a, fingerprint: m.fingerprint, words: m.words },
                ),
                None => None,
            }),
            lookup(final(self).store@, id_b) == (match lookup(old(self).store@, id_a) {
                Some(m) => Some(
                    SigModel { content_id: id_b, fingerprint: m.fingerprint, words: m.words },
                ),
                None => None,
            }),
            forall|x: i32|
                x != id_a && x != id_b ==> #[trigger] lookup(final(self).store@, x) == lookup(
                    old(self).store@,
                    x,
                ),
    {
        let ghost pre = *old(self);
        let ia = self.record_index_of(id_a);
        let ib = self.record_index_of(id_b);
        let ra = self.records[ia].duplicate();
        let rb = self.records[ib].duplicate();
        self.records.set(
            ia,
            ContentRecord { content_id: id_a, checksum: rb.checksum, content_type: rb.content_type },
        );
        self.records.set(
            ib,
            ContentRecord { content_id: id_b, checksum: ra.checksum, content_type: ra.content_type },
        );
        proof {
            // Both items carry a signature row: the records support
            // signatures, and the invariant ties support to a stored row.
            assert(contains_id(pre.store@, id_a)) by {
                assert(pre.recs()[ia as int].content_type.spec_supports_signature());
            }
            assert(contains_id(pre.store@, id_b)) by {
                assert(pre.recs()[ib as int].content_type.spec_supports_signature());
            }
        }
        self.store.swap(id_a, id_b);
        proof {
            let prer = pre.recs();
            let postr = self.recs();
            assert(postr.len() == prer.len());
            // Ids are untouched; payload positions ia and ib are exchanged.
            assert forall|i: int|
                0 <= i < prer.len() implies (#[trigger] postr[i]).content_id
                == prer[i].content_id by {}
            // Ids distinct, so ia and ib are the only positions carrying the
            // two ids, and every checksum moved injectively.
            assert forall|i: int, j: int|
                0 <= i < j < postr.len() implies (#[trigger] postr[i]).checksum != (
            #[trigger] postr[j]).checksum by {
                let si: int = if i == ia {
                    ib as int
                } else if i == ib {
                    ia as int
                } else {
                    i
                };
                let sj: int = if j == ia {
                    ib as int
                } else if j == ib {
                    ia as int
                } else {
                    j
                };
                assert(postr[i].checksum == prer[si].checksum);
                assert(postr[j].checksum == prer[sj].checksum);
                if si < sj {
                    assert((#[trigger] prer[si]).checksum != (#[trigger] prer[sj]).checksum);
                } else {
                    assert(si != sj);
                    assert((#[trigger] prer[sj]).checksum != (#[trigger] prer[si]).checksum);
                }
            }
            // Support still matches stored rows: ids kept their positions in
            // the store, and the two swapped records both support signatures.
            assert forall|i: int|
                0 <= i < postr.len() implies (contains_id(
                self.store@,
                (#[trigger] postr[i]).content_id,
            ) <==> postr[i].content_type.spec_supports_signature()) by {
                lemma_same_ids_same_contains(self.store@, pre.store@, postr[i].content_id);
                assert(contains_id(pre.store@, (#[trigger] prer[i]).content_id)
                    <==> prer[i].content_type.spec_supports_signature());
            }
            assert forall|j: int|
                0 <= j < self.store@.len() implies rec_contains_id(
                postr,
                (#[trigger] self.store@[j]).content_id,
            ) by {
                assert(self.store@[j].content_id == pre.store@[j].content_id);
                assert(rec_contains_id(prer, (#[trigger] pre.store@[j]).content_id));
                let w = choose|w: int|
                    0 <= w < prer.len() && (#[trigger] prer[w]).content_id
                        == pre.store@[j].content_id;
                assert((#[trigger] postr[w]).content_id == pre.store@[j].content_id);
            }
        }
    }
}

/// Compares two byte strings for equality.
#[verifier::loop_isolation(false)]
fn bytes_eq(a: &Vec<u8>, b: &Vec<u8>) -> (r: bool)
    ensures
        r == (a@ == b@),
{
    if a.len() != b.len() {
        return false;
    }
    let n = a.len();
    let mut i: usize = 0;
    while i < n
        invariant
            i <= n,
            a@.len() == b@.len() == n,
            forall|t: int| 0 <= t < i ==> a@[t] == b@[t],
        decreases n - i,
    {
        if a[i] != b[i] {
            return false;
        }
        i = i + 1;
    }
    proof {
        assert(a@ =~= b@);
    }
    true
}

} // verus!

