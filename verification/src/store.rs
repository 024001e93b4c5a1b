//! The signature store: a mapping from content id to fingerprint and bucket
//! keys, with at most one signature per content id. Retrieval by bucket
//! overlap is the sub-linear candidate query of the pipeline and never omits
//! a true bucket-level match. The store emulates the persisted layout of one
//! row per signed content item.
use vstd::prelude::*;

use crate::fingerprint::Fingerprint;
use crate::words::{shares_bucket, Buckets};
use crate::{Error, IntegerIdentifiable};

verus! {

/// Mathematical model of one stored signature row.
pub ghost struct SigModel {
    pub content_id: i32,
    pub fingerprint: Seq<bool>,
    pub words: Seq<Option<i32>>,
}

impl SigModel {
    /// The row holds a full-length fingerprint and a full set of bucket slots.
    pub open spec fn wf(self) -> bool {
        self.fingerprint.len() == crate::fingerprint::FP_BITS && self.words.len()
            == crate::words::WORD_COUNT
    }
}

/// One stored signature row: a content id together with its fingerprint and
/// bucket keys.
pub struct StoredSignature {
    pub content_id: i32,
    pub fingerprint: Fingerprint,
    pub buckets: Buckets,
}

impl View for StoredSignature {
    type V = SigModel;

    open spec fn view(&self) -> SigModel {
        SigModel {
            content_id: self.content_id,
            fingerprint: self.fingerprint@,
            words: self.buckets@,
        }
    }
}

impl StoredSignature {
    /// The row's fingerprint and bucket sequence have their fixed lengths.
    pub open spec fn wf(self) -> bool {
        self@.wf()
    }

    /// Returns a copy holding the same id, fingerprint and buckets.
    pub fn duplicate(&self) -> (r: StoredSignature)
        ensures
            r@ == self@,
    {
        StoredSignature {
            content_id: self.content_id,
            fingerprint: self.fingerprint.duplicate(),
            buckets: self.buckets.duplicate(),
        }
    }
}

impl IntegerIdentifiable for StoredSignature {
    open spec fn spec_id(&self) -> i32 {
        self.content_id
    }

    fn id(&self) -> (r: i32) {
        self.content_id
    }
}

/// Whether some row of `s` is keyed by `id`.
pub open spec fn contains_id(s: Seq<SigModel>, id: i32) -> bool {
    exists|i: int| 0 <= i < s.len() && (#[trigger] s[i]).content_id == id
}

/// No two rows share a content id: the uniqueness invariant of the store.
pub open spec fn ids_distinct(s: Seq<SigModel>) -> bool {
    forall|i: int, j: int|
        0 <= i < j < s.len() ==> (#[trigger] s[i]).content_id != (#[trigger] s[j]).content_id
}

/// The first row of `s` keyed by `id`, if any.
pub open spec fn lookup(s: Seq<SigModel>, id: i32) -> Option<SigModel>
    decreases s.len(),
{
    if s.len() == 0 {
        None
    } else if s[0].content_id == id {
        Some(s[0])
    } else {
        lookup(s.drop_first(), id)
    }
}

/// A sequence without a row keyed by `id` looks it up as absent.
pub proof fn lemma_lookup_absent(s: Seq<SigModel>, id: i32)
    requires
        !contains_id(s, id),
    ensures
        lookup(s, id) is None,
    decreases s.len(),
{
    if s.len() > 0 {
        assert(s[0].content_id != id);
        assert(!contains_id(s.drop_first(), id)) by {
            assert forall|i: int|
                0 <= i < s.drop_first().len() implies (#[trigger] s.drop_first()[i]).content_id
                != id by {
                assert(s.drop_first()[i] == s[i + 1]);
            }
        }
        lemma_lookup_absent(s.drop_first(), id);
    }
}

/// Under the uniqueness invariant, the row at any index is what a lookup of
/// its id returns.
pub proof fn lemma_lookup_of_index(s: Seq<SigModel>, i: int)
    requires
        ids_distinct(s),
        0 <= i < s.len(),
    ensures
        lookup(s, s[i].content_id) == Some(s[i]),
    decreases s.len(),
{
    if i == 0 {
    } else {
        assert(s[0].content_id != s[i].content_id);
        assert(ids_distinct(s.drop_first())) by {
            assert forall|p: int, q: int|
                0 <= p < q < s.drop_first().len() implies (#[trigger] s.drop_first()[p]).content_id
                != (#[trigger] s.drop_first()[q]).content_id by {
                assert(s.drop_first()[p] == s[p + 1]);
                assert(s.drop_first()[q] == s[q + 1]);
            }
        }
        lemma_lookup_of_index(s.drop_first(), i - 1);
        assert(s.drop_first()[i - 1] == s[i]);
    }
}

/// Every element of a filtered sequence is an element of the original.
pub(crate) proof fn lemma_filter_elems_contained<A>(s: Seq<A>, pred: spec_fn(A) -> bool)
    ensures
        forall|t: int|
            0 <= t < s.filter(pred).len() ==> s.contains(#[trigger] s.filter(pred)[t]),
{
    assert forall|t: int|
        0 <= t < s.filter(pred).len() implies s.contains(#[trigger] s.filter(pred)[t]) by {
        assert(s.filter(pred).contains(s.filter(pred)[t]));
        Seq::lemma_filter_contains_rev(s, pred, s.filter(pred)[t]);
    }
}

/// Filtering keeps any pairwise-distinct key pairwise distinct.
pub(crate) proof fn lemma_filter_distinct_keys<A, K>(
    s: Seq<A>,
    pred: spec_fn(A) -> bool,
    key: spec_fn(A) -> K,
)
    requires
        forall|i: int, j: int|
            #![trigger s[i], s[j]]
            0 <= i < j < s.len() ==> key(s[i]) != key(s[j]),
    ensures
        forall|i: int, j: int|
            #![trigger s.filter(pred)[i], s.filter(pred)[j]]
            0 <= i < j < s.filter(pred).len() ==> key(s.filter(pred)[i]) != key(
                s.filter(pred)[j],
            ),
    decreases s.len(),
{
    reveal(Seq::filter);
    if s.len() > 0 {
        let dl = s.drop_last();
        lemma_filter_distinct_keys(dl, pred, key);
        if pred(s.last()) {
            let f = dl.filter(pred);
            lemma_filter_elems_contained(dl, pred);
            assert forall|p: int, q: int|
                #![trigger f.push(s.last())[p], f.push(s.last())[q]]
                0 <= p < q < f.push(s.last()).len() implies key(f.push(s.last())[p]) != key(
                f.push(s.last())[q],
            ) by {
                if q == f.len() {
                    assert(dl.contains(f[p]));
                    let w = choose|w: int| 0 <= w < dl.len() && dl[w] == f[p];
                    assert(s[w] == dl[w]);
                    assert(s[s.len() - 1] == s.last());
                }
            }
        }
    }
}

/// Filtering keeps the uniqueness invariant.
proof fn lemma_filter_ids_distinct(s: Seq<SigModel>, pred: spec_fn(SigModel) -> bool)
    requires
        ids_distinct(s),
    ensures
        ids_distinct(s.filter(pred)),
{
    let key = |m: SigModel| m.content_id;
    lemma_filter_distinct_keys(s, pred, key);
    assert forall|i: int, j: int|
        0 <= i < j < s.filter(pred).len() implies (#[trigger] s.filter(pred)[i]).content_id != (
        #[trigger] s.filter(pred)[j]).content_id by {
        assert(key(s.filter(pred)[i]) != key(s.filter(pred)[j]));
    }
}

/// The durable store: one signature row per signed content item, keyed by a
/// unique content id.
pub struct SignatureStore {
    pub rows: Vec<StoredSignature>,
}

impl View for SignatureStore {
    type V = Seq<SigModel>;

    open spec fn view(&self) -> Seq<SigModel> {
        self.rows@.map_values(|r: StoredSignature| r@)
    }
}

impl SignatureStore {
    /// Store invariant: ids are unique and every row is well-formed.
    pub open spec fn inv(self) -> bool {
        &&& ids_distinct(self@)
        &&& forall|i: int| 0 <= i < self@.len() ==> (#[trigger] self@[i]).wf()
    }

    /// Creates an empty store.
    pub fn new() -> (s: SignatureStore)
        ensures
            s.inv(),
            s@.len() == 0,
    {
        SignatureStore { rows: Vec::new() }
    }

    /// Number of stored signatures.
    pub fn len(&self) -> (n: usize)
        ensures
            n == self@.len(),
    {
        self.rows.len()
    }

    /// Whether a signature row exists for `content_id`.
    #[verifier::loop_isolation(false)]
    pub fn contains(&self, content_id: i32) -> (r: bool)
        ensures
            r == contains_id(self@, content_id),
    {
        let n = self.rows.len();
        let mut i: usize = 0;
        while i < n
            invariant
                i <= n,
                forall|t: int| 0 <= t < i ==> (#[trigger] self@[t]).content_id != content_id,
            decreases n - i,
        {
            if self.rows[i].content_id == content_id {
                proof {
                    assert((#[trigger] self@[i as int]).content_id == content_id);
                }
                return true;
            }
            i = i + 1;
        }
        false
    }

    /// Inserts the signature of a newly signed content item. Fails, changing
    /// nothing, when a signature already exists for the id: the uniqueness
    /// invariant is enforced, a duplicate insert is an integrity violation.
    pub fn insert(&mut self, content_id: i32, fingerprint: Fingerprint, buckets: Buckets) -> (r:
        Result<(), Error>)
        requires
            old(self).inv(),
            fingerprint.wf(),
            buckets.wf(),
        ensures
            final(self).inv(),
            match r {
                Ok(_) => !contains_id(old(self)@, content_id) && final(self)@ == old(
                    self,
                )@.push(
                    SigModel { content_id, fingerprint: fingerprint@, words: buckets@ },
                ),
                Err(e) => e == Error::DuplicateSignatureViolation && contains_id(
                    old(self)@,
                    content_id,
                ) && final(self)@ == old(self)@,
            },
    {
        if self.contains(content_id) {
            return Err(Error::DuplicateSignatureViolation);
        }
        let ghost pre = self@;
        self.rows.push(StoredSignature { content_id, fingerprint, buckets });
        proof {
            let m = SigModel { content_id, fingerprint: fingerprint@, words: buckets@ };
            assert(self@ =~= pre.push(m));
        }
        Ok(())
    }

    /// Exact lookup of the signature stored for a content id; absent when the
    /// content has no signature.
    #[verifier::loop_isolation(false)]
    pub fn find_by_content(&self, content_id: i32) -> (r: Option<StoredSignature>)
        requires
            self.inv(),
        ensures
            match r {
                Some(row) => contains_id(self@, content_id) && row.wf() && row@.content_id
                    == content_id && lookup(self@, content_id) == Some(row@),
                None => !contains_id(self@, content_id) && lookup(self@, content_id) is None,
            },
    {
        let n = self.rows.len();
        let mut i: usize = 0;
        while i < n
            invariant
                i <= n,
                forall|t: int| 0 <= t < i ==> (#[trigger] self@[t]).content_id != content_id,
            decreases n - i,
        {
            if self.rows[i].content_id == content_id {
                proof {
                    lemma_lookup_of_index(self@, i as int);
                }
                return Some(self.rows[i].duplicate());
            }
            i = i + 1;
        }
        proof {
            lemma_lookup_absent(self@, content_id);
        }
        None
    }

    /// The sub-linear retrieval primitive: returns exactly the stored
    /// signatures sharing at least one bucket key with the query buckets.
    /// No true bucket-level match is ever omitted.
    #[verifier::loop_isolation(false)]
    pub fn find_candidates(&self, query: &Buckets) -> (cands: Vec<StoredSignature>)
        requires
            self.inv(),
            query.wf(),
        ensures
            cands@.map_values(|c: StoredSignature| c@) == self@.filter(
                |m: SigModel| shares_bucket(m.words, query@),
            ),
            forall|t: int| 0 <= t < cands@.len() ==> (#[trigger] cands@[t]).wf(),
            forall|t: int| 0 <= t < cands@.len() ==> self@.contains(#[trigger] cands@[t]@),
    {
        let ghost pred = |m: SigModel| shares_bucket(m.words, query@);
        let n = self.rows.len();
        let mut cands: Vec<StoredSignature> = Vec::new();
        let mut i: usize = 0;
        while i < n
            invariant
                i <= n,
                cands@.map_values(|c: StoredSignature| c@) == self@.take(i as int).filter(pred),
                forall|t: int| 0 <= t < cands@.len() ==> (#[trigger] cands@[t]).wf(),
                forall|t: int| 0 <= t < cands@.len() ==> self@.contains(#[trigger] cands@[t]@),
            decreases n - i,
        {
            let ghost pre = cands@.map_values(|c: StoredSignature| c@);
            proof {
                lemma_filter_take_succ(self@, pred, i as int);
            }
            if shares(&self.rows[i].buckets, query) {
                let row = self.rows[i].duplicate();
                cands.push(row);
                proof {
                    assert(self@[i as int] == self.rows@[i as int]@);
                    assert(cands@.map_values(|c: StoredSignature| c@) =~= pre.push(
                        self@[i as int],
                    ));
                }
            }
            i = i + 1;
        }
        proof {
            assert(self@.take(n as int) =~= self@);
        }
        cands
    }

    /// Deletes the signature of a content item, if any; reports whether a
    /// row was removed. Used when the content item itself is deleted.
    #[verifier::loop_isolation(false)]
    pub fn delete(&mut self, content_id: i32) -> (removed: bool)
        requires
            old(self).inv(),
        ensures
            final(self).inv(),
            final(self)@ == old(self)@.filter(|m: SigModel| m.content_id != content_id),
            removed == contains_id(old(self)@, content_id),
    {
        let ghost pred = |m: SigModel| m.content_id != content_id;
        let n = self.rows.len();
        let mut kept: Vec<StoredSignature> = Vec::new();
        let mut removed = false;
        let mut i: usize = 0;
        while i < n
            invariant
                i <= n,
                kept@.map_values(|c: StoredSignature| c@) == old(self)@.take(i as int).filter(
                    pred,
                ),
                forall|t: int| 0 <= t < kept@.len() ==> (#[trigger] kept@[t]).wf(),
                removed == contains_id(old(self)@.take(i as int), content_id),
                self@ == old(self)@,
            decreases n - i,
        {
            let ghost pre = kept@.map_values(|c: StoredSignature| c@);
            proof {
                lemma_filter_take_succ(self@, pred, i as int);
                lemma_contains_id_take_succ(old(self)@, content_id, i as int);
            }
            if self.rows[i].content_id != content_id {
                let row = self.rows[i].duplicate();
                kept.push(row);
                proof {
                    assert(kept@.map_values(|c: StoredSignature| c@) =~= pre.push(
                        self@[i as int],
                    ));
                }
            } else {
                removed = true;
            }
            i = i + 1;
        }
        proof {
            assert(old(self)@.take(n as int) =~= old(self)@);
            lemma_filter_ids_distinct(old(self)@, pred);
        }
        self.rows = kept;
        removed
    }

    /// Replaces the fingerprint and buckets stored for a content id, if a row
    /// exists; reports whether a row was updated. Used when content bytes are
    /// replaced wholesale.
    #[verifier::loop_isolation(false)]
    pub fn update(&mut self, content_id: i32, fingerprint: Fingerprint, buckets: Buckets) -> (
        updated: bool)
        requires
            old(self).inv(),
            fingerprint.wf(),
            buckets.wf(),
        ensures
            final(self).inv(),
            final(self)@.len() == old(self)@.len(),
            updated == contains_id(old(self)@, content_id),
            forall|i: int|
                0 <= i < old(self)@.len() ==> final(self)@[i] == (if old(
                    self,
                )@[i].content_id == content_id {
                    SigModel { content_id, fingerprint: fingerprint@, words: buckets@ }
                } else {
                    old(self)@[i]
                }),
    {
        let n = self.rows.len();
        let mut i: usize = 0;
        while i < n
            invariant
                i <= n,
                forall|t: int| 0 <= t < i ==> (#[trigger] self@[t]).content_id != content_id,
                self@ == old(self)@,
            decreases n - i,
        {
            if self.rows[i].content_id == content_id {
                proof {
                    assert((#[trigger] old(self)@[i as int]).content_id == content_id);
                }
                self.rows.set(i, StoredSignature { content_id, fingerprint, buckets });
                proof {
                    assert(self@ =~= old(self)@.update(
                        i as int,
                        SigModel { content_id, fingerprint: fingerprint@, words: buckets@ },
                    ));
                    assert forall|j: int|
                        0 <= j < old(self)@.len() && j != i implies (#[trigger] old(
                        self,
                    )@[j]).content_id != content_id by {
                        if j < i {
                            assert(old(self)@[j].content_id != old(self)@[i as int].content_id);
                        } else {
                            assert(old(self)@[i as int].content_id != old(self)@[j].content_id);
                        }
                    }
                }
                return true;
            }
            i = i + 1;
        }
        false
    }

    /// Atomically exchanges the fingerprints and buckets stored under two
    /// content ids, keeping the uniqueness invariant throughout: no row is
    /// lost or duplicated, every row keeps its content id, and the two ids
    /// simply trade payloads. Used when content bytes are swapped between
    /// two items.
    #[verifier::loop_isolation(false)]
    pub fn swap(&mut self, id_a: i32, id_b: i32)
        requires
            old(self).inv(),
            contains_id(old(self)@, id_a),
            contains_id(old(self)@, id_b),
        ensures
            final(self).inv(),
            final(self)@.len() == old(self)@.len(),
            forall|i: int|
                0 <= i < old(self)@.len() ==> (#[trigger] final(self)@[i]).content_id == old(
                    self,
                )@[i].content_id,
            lookup(final(self)@, id_a) == (match lookup(old(self)@, id_b) {
                Some(m) => Some(
                    SigModel { content_id: id_a, fingerprint: m.fingerprint, words: m.words },
                ),
                None => None,
            }),
            lookup(final(self)@, id_b) == (match lookup(old(self)@, id_a) {
                Some(m) => Some(
                    SigModel { content_id: id_b, fingerprint: m.fingerprint, words: m.words },
                ),
                None => None,
            }),
            forall|x: i32|
                x != id_a && x != id_b ==> #[trigger] lookup(final(self)@, x) == lookup(
                    old(self)@,
                    x,
                ),
    {
        let ia = self.index_of(id_a);
        let ib = self.index_of(id_b);
        let row_a = self.rows[ia].duplicate();
        let row_b = self.rows[ib].duplicate();
        self.rows.set(
            ia,
            StoredSignature { content_id: id_a, fingerprint: row_b.fingerprint, buckets: row_b.buckets },
        );
        self.rows.set(
            ib,
            StoredSignature { content_id: id_b, fingerprint: row_a.fingerprint, buckets: row_a.buckets },
        );
        proof {
            let pre = old(self)@;
            let post = self@;
            assert(post.len() == pre.len());
            assert forall|i: int|
                0 <= i < pre.len() implies (#[trigger] post[i]).content_id
                == pre[i].content_id by {}
            assert(ids_distinct(post));
            assert(final(self).inv());
            lemma_lookup_of_index(pre, ia as int);
            lemma_lookup_of_index(pre, ib as int);
            lemma_lookup_of_index(post, ia as int);
            lemma_lookup_of_index(post, ib as int);
            assert forall|x: i32| x != id_a && x != id_b implies #[trigger] lookup(post, x)
                == lookup(pre, x) by {
                if contains_id(pre, x) {
                    let j = choose|j: int| 0 <= j < pre.len() && (#[trigger] pre[j]).content_id
                        == x;
                    lemma_lookup_of_index(pre, j);
                    lemma_lookup_of_index(post, j);
                    assert(post[j] == pre[j]);
                } else {
                    lemma_lookup_absent(pre, x);
                    assert(!contains_id(post, x)) by {
                        assert forall|t: int|
                            0 <= t < post.len() implies (#[trigger] post[t]).content_id != x by {
                            assert(pre[t].content_id == post[t].content_id);
                        }
                    }
                    lemma_lookup_absent(post, x);
                }
            }
        }
    }

    /// Finds the index of the row keyed by a content id known to exist.
    #[verifier::loop_isolation(false)]
    fn index_of(&self, content_id: i32) -> (i: usize)
        requires
            self.inv(),
            contains_id(self@, content_id),
        ensures
            i < self@.len(),
            self@[i as int].content_id == content_id,
    {
        let n = self.rows.len();
        let mut i: usize = 0;
        while i < n
            invariant
                i <= n,
                forall|t: int| 0 <= t < i ==> (#[trigger] self@[t]).content_id != content_id,
            decreases n - i,
        {
            if self.rows[i].content_id == content_id {
                return i;
            }
            i = i + 1;
        }
        proof {
            assert(false);
        }
        0
    }
}

/// Completeness of bucket retrieval: any stored row sharing at least one
/// bucket with the query appears in the filtered candidate set; none is
/// silently dropped.
pub proof fn lemma_bucket_completeness(s: Seq<SigModel>, q: Seq<Option<i32>>, i: int)
    requires
        0 <= i < s.len(),
        shares_bucket(s[i].words, q),
    ensures
        s.filter(|m: SigModel| shares_bucket(m.words, q)).contains(s[i]),
{
    Seq::lemma_filter_contains(s, |m: SigModel| shares_bucket(m.words, q), i);
}

/// A prefix one element longer holds an id exactly when the shorter prefix
/// holds it or the new element carries it.
proof fn lemma_contains_id_take_succ(s: Seq<SigModel>, id: i32, i: int)
    requires
        0 <= i < s.len(),
    ensures
        contains_id(s.take(i + 1), id) == (contains_id(s.take(i), id) || s[i].content_id == id),
{
    assert(s.take(i + 1) =~= s.take(i).push(s[i]));
    if contains_id(s.take(i), id) {
        let t = choose|t: int|
            0 <= t < s.take(i).len() && (#[trigger] s.take(i)[t]).content_id == id;
        assert((#[trigger] s.take(i + 1)[t]).content_id == id);
    }
    if s[i].content_id == id {
        assert((#[trigger] s.take(i + 1)[i]).content_id == id);
    }
    if contains_id(s.take(i + 1), id) {
        let t = choose|t: int|
            0 <= t < s.take(i + 1).len() && (#[trigger] s.take(i + 1)[t]).content_id == id;
        if t < i {
            assert((#[trigger] s.take(i)[t]).content_id == id);
        } else {
            assert(s.take(i + 1)[t] == s[i]);
        }
    }
}

/// Filtering a prefix one element longer extends the filtered sequence by
/// the new element exactly when it satisfies the predicate.
pub(crate) proof fn lemma_filter_take_succ<A>(s: Seq<A>, pred: spec_fn(A) -> bool, i: int)
    requires
        0 <= i < s.len(),
    ensures
        s.take(i + 1).filter(pred) == (if pred(s[i]) {
            s.take(i).filter(pred).push(s[i])
        } else {
            s.take(i).filter(pred)
        }),
{
    Seq::lemma_take_succ(s, i);
    Seq::filter_distributes_over_add(s.take(i), seq![s[i]], pred);
    assert(seq![s[i]].filter(pred) =~= (if pred(s[i]) {
        seq![s[i]]
    } else {
        Seq::<A>::empty()
    })) by {
        reveal_with_fuel(Seq::filter, 2);
        assert(seq![s[i]].drop_last() =~= Seq::<A>::empty());
    }
    if pred(s[i]) {
        assert(s.take(i).filter(pred) + seq![s[i]] =~= s.take(i).filter(pred).push(s[i]));
    } else {
        assert(s.take(i).filter(pred) + Seq::<A>::empty() =~= s.take(i).filter(pred));
    }
}

/// Decides whether two bucket sequences share a bucket key in some slot.
#[verifier::loop_isolation(false)]
fn shares(a: &Buckets, b: &Buckets) -> (r: bool)
    requires
        a.wf(),
        b.wf(),
    ensures
        r == shares_bucket(a@, b@),
{
    let mut k: usize = 0;
    while k < 8
        invariant
            k <= 8,
            forall|t: int| 0 <= t < k ==> !((#[trigger] a@[t]) is Some && a@[t] == b@[t]),
        decreases 8 - k,
    {
        if let (Some(x), Some(y)) = (a.words[k], b.words[k]) {
            if x == y {
                assert(a@[k as int] is Some && a@[k as int] == b@[k as int]);
                return true;
            }
        }
        k = k + 1;
    }
    false
}

} // verus!
