//! Similarity matching: the normalized Hamming distance between two
//! fingerprints, the validated similarity threshold, and threshold filtering
//! with deterministic ranking of candidates.
//!
//! A distance is represented by its numerator: the number of differing bits
//! out of `FP_BITS`. The normalized distance of fingerprints differing in
//! `k` of their `N` bits is exactly `k / N`, so it always lies in [0, 1].
use vstd::prelude::*;

use vstd::set_lib::{lemma_int_range, lemma_len_subset};

use crate::fingerprint::{Fingerprint, FP_BITS};
use crate::store::{SigModel, StoredSignature};
use crate::IntegerIdentifiable;

verus! {

/// Number of positions below `n` where `a` and `b` differ.
pub open spec fn hamming_prefix(a: Seq<bool>, b: Seq<bool>, n: int) -> int
    decreases n,
{
    if n <= 0 {
        0
    } else {
        hamming_prefix(a, b, n - 1) + if a[n - 1] != b[n - 1] {
            1int
        } else {
            0int
        }
    }
}

/// Number of positions where two equal-length bit vectors differ: the
/// numerator of their normalized Hamming distance.
pub open spec fn hamming(a: Seq<bool>, b: Seq<bool>) -> int {
    hamming_prefix(a, b, a.len() as int)
}

/// The set of positions where two bit vectors differ.
pub open spec fn differing_positions(a: Seq<bool>, b: Seq<bool>) -> Set<int> {
    Set::new(|i: int| 0 <= i < a.len() && a[i] != b[i])
}

proof fn lemma_hamming_prefix_self(a: Seq<bool>, n: int)
    ensures
        hamming_prefix(a, a, n) == 0,
    decreases n,
{
    if n > 0 {
        lemma_hamming_prefix_self(a, n - 1);
    }
}

/// A fingerprint is at distance zero from itself.
pub proof fn lemma_distance_self(a: Seq<bool>)
    ensures
        hamming(a, a) == 0,
{
    lemma_hamming_prefix_self(a, a.len() as int);
}

proof fn lemma_hamming_prefix_symmetric(a: Seq<bool>, b: Seq<bool>, n: int)
    ensures
        hamming_prefix(a, b, n) == hamming_prefix(b, a, n),
    decreases n,
{
    if n > 0 {
        lemma_hamming_prefix_symmetric(a, b, n - 1);
    }
}

/// Distance is symmetric.
pub proof fn lemma_distance_symmetric(a: Seq<bool>, b: Seq<bool>)
    requires
        a.len() == b.len(),
    ensures
        hamming(a, b) == hamming(b, a),
{
    lemma_hamming_prefix_symmetric(a, b, a.len() as int);
}

proof fn lemma_hamming_prefix_bounds(a: Seq<bool>, b: Seq<bool>, n: int)
    requires
        n >= 0,
    ensures
        0 <= hamming_prefix(a, b, n) <= n,
    decreases n,
{
    if n > 0 {
        lemma_hamming_prefix_bounds(a, b, n - 1);
    }
}

/// The distance numerator lies between 0 and the fingerprint length, so the
/// normalized distance lies in [0, 1].
pub proof fn lemma_distance_bounds(a: Seq<bool>, b: Seq<bool>)
    ensures
        0 <= hamming(a, b) <= a.len(),
{
    lemma_hamming_prefix_bounds(a, b, a.len() as int);
}

proof fn lemma_hamming_prefix_counts(a: Seq<bool>, b: Seq<bool>, n: int)
    requires
        0 <= n <= a.len(),
    ensures
        ({
            let s = Set::new(|i: int| 0 <= i < n && a[i] != b[i]);
            s.finite() && hamming_prefix(a, b, n) == s.len()
        }),
    decreases n,
{
    broadcast use vstd::set::group_set_axioms;

    let s = Set::new(|i: int| 0 <= i < n && a[i] != b[i]);
    lemma_int_range(0, n);
    let range = vstd::set_lib::set_int_range(0, n);
    assert(s.subset_of(range));
    lemma_len_subset(s, range);
    if n > 0 {
        lemma_hamming_prefix_counts(a, b, n - 1);
        let prev = Set::new(|i: int| 0 <= i < n - 1 && a[i] != b[i]);
        if a[n - 1] != b[n - 1] {
            assert(s =~= prev.insert(n - 1));
            assert(!prev.contains(n - 1));
            assert(s.len() == prev.len() + 1);
        } else {
            assert(s =~= prev);
        }
    } else {
        assert(s =~= Set::empty());
    }
}

/// Exactness of the metric: the distance numerator is the cardinality of the
/// set of positions where the two fingerprints differ, so two fingerprints of
/// length N differing in exactly k bits have normalized distance k / N.
pub proof fn lemma_distance_counts_differing_bits(a: Seq<bool>, b: Seq<bool>)
    ensures
        differing_positions(a, b).finite(),
        hamming(a, b) == differing_positions(a, b).len(),
{
    lemma_hamming_prefix_counts(a, b, a.len() as int);
    assert(differing_positions(a, b) =~= Set::new(
        |i: int| 0 <= i < a.len() && a[i] != b[i],
    ));
}

/// Computes the distance numerator of two fingerprints: in how many of their
/// `FP_BITS` positions they differ.
#[verifier::loop_isolation(false)]
pub fn distance_bits(a: &Fingerprint, b: &Fingerprint) -> (d: u32)
    requires
        a.wf(),
        b.wf(),
    ensures
        d == hamming(a@, b@),
        d <= FP_BITS,
{
    let mut d: u32 = 0;
    let mut i: usize = 0;
    while i < FP_BITS
        invariant
            i <= 112,
            d == hamming_prefix(a@, b@, i as int),
            d <= i,
        decreases 112 - i,
    {
        if a.bits[i] != b.bits[i] {
            d = d + 1;
        }
        i = i + 1;
    }
    d
}

/// A validated similarity threshold: the fraction `num / den`, which must lie
/// in the interval (0, 1]. Candidates are kept when their normalized distance
/// is strictly below `1 - num / den`.
#[derive(Clone, Copy, Debug, PartialEq, Eq, Structural)]
pub struct Threshold {
    pub num: u32,
    pub den: u32,
}

impl Threshold {
    /// The fraction lies in (0, 1].
    pub open spec fn wf(self) -> bool {
        1 <= self.num <= self.den
    }

    /// Validates a configured similarity threshold once, at configuration
    /// load: fractions outside (0, 1] are rejected.
    pub fn new(num: u32, den: u32) -> (r: Result<Threshold, crate::Error>)
        ensures
            match r {
                Ok(t) => 1 <= num <= den && t == (Threshold { num, den }) && t.wf(),
                Err(e) => !(1 <= num <= den) && e == crate::Error::InvalidThresholdConfig,
            },
    {
        if 1 <= num && num <= den {
            Ok(Threshold { num, den })
        } else {
            Err(crate::Error::InvalidThresholdConfig)
        }
    }

    /// Whether a distance numerator `k` passes the threshold: `k / FP_BITS`
    /// is strictly below the distance threshold `1 - num / den`.
    pub open spec fn spec_passes(self, k: int) -> bool {
        k * self.den < FP_BITS * (self.den - self.num)
    }

    /// Decides whether a distance numerator passes the threshold.
    pub fn passes(&self, k: u32) -> (r: bool)
        requires
            self.wf(),
            k <= 112,
        ensures
            r == self.spec_passes(k as int),
    {
        proof {
            vstd::arithmetic::mul::lemma_mul_upper_bound(
                k as int,
                112,
                self.den as int,
                u32::MAX as int,
            );
        }
        (k as u64) * (self.den as u64) < 112u64 * ((self.den - self.num) as u64)
    }
}

/// One ranked similarity result: a candidate content id and its distance
/// numerator (the normalized distance is `distance_bits / FP_BITS`).
#[derive(Clone, Copy, Debug, PartialEq, Eq, Structural)]
pub struct SimilarMatch {
    pub content_id: i32,
    pub distance_bits: u32,
}

impl IntegerIdentifiable for SimilarMatch {
    open spec fn spec_id(&self) -> i32 {
        self.content_id
    }

    fn id(&self) -> (r: i32) {
        self.content_id
    }
}

/// Whether a candidate survives threshold filtering: its distance to the
/// query is strictly below the distance threshold.
pub open spec fn candidate_passes(c: SigModel, q: Seq<bool>, thr: Threshold) -> bool {
    thr.spec_passes(hamming(q, c.fingerprint))
}

/// The ranked entry a candidate row contributes.
pub open spec fn match_of(c: SigModel, q: Seq<bool>) -> SimilarMatch {
    SimilarMatch { content_id: c.content_id, distance_bits: hamming(q, c.fingerprint) as u32 }
}

/// Threshold filtering as a function from candidate row to optional entry.
pub open spec fn match_fn(q: Seq<bool>, thr: Threshold) -> spec_fn(SigModel) -> Option<
    SimilarMatch,
> {
    |c: SigModel|
        if candidate_passes(c, q, thr) {
            Some(match_of(c, q))
        } else {
            None
        }
}

/// The surviving candidates of a candidate sequence, in candidate order.
pub open spec fn rank_matches(cands: Seq<SigModel>, q: Seq<bool>, thr: Threshold) -> Seq<
    SimilarMatch,
> {
    cands.filter_map(match_fn(q, thr))
}

/// Ranking order: ascending by distance, exact ties broken by ascending
/// content id for deterministic output.
pub open spec fn match_le(x: SimilarMatch, y: SimilarMatch) -> bool {
    x.distance_bits < y.distance_bits || (x.distance_bits == y.distance_bits && x.content_id
        <= y.content_id)
}

/// A ranked sequence is sorted by the ranking order.
pub open spec fn sorted_matches(s: Seq<SimilarMatch>) -> bool {
    forall|i: int, j: int| 0 <= i < j < s.len() ==> match_le(#[trigger] s[i], #[trigger] s[j])
}

/// A ranked entry stems from some passing candidate of the candidate list.
pub open spec fn stems_from(
    m: SimilarMatch,
    cands: Seq<StoredSignature>,
    q: Seq<bool>,
    thr: Threshold,
) -> bool {
    exists|i: int|
        0 <= i < cands.len() && candidate_passes((#[trigger] cands[i])@, q, thr) && m == match_of(
            cands[i]@,
            q,
        )
}

/// Decides the ranking order.
fn match_le_exec(a: &SimilarMatch, b: &SimilarMatch) -> (r: bool)
    ensures
        r == match_le(*a, *b),
{
    if a.distance_bits != b.distance_bits {
        a.distance_bits < b.distance_bits
    } else {
        a.content_id <= b.content_id
    }
}

/// An element mapped to `Some` appears in the `filter_map` image.
proof fn lemma_filter_map_member<A, B>(s: Seq<A>, f: spec_fn(A) -> Option<B>, i: int, b: B)
    requires
        0 <= i < s.len(),
        f(s[i]) == Some(b),
    ensures
        s.filter_map(f).contains(b),
    decreases s.len(),
{
    if i == s.len() - 1 {
        assert(s.filter_map(f) == s.drop_last().filter_map(f) + seq![b]);
        assert(s.filter_map(f)[s.filter_map(f).len() - 1] == b);
    } else {
        assert(s.drop_last()[i] == s[i]);
        lemma_filter_map_member(s.drop_last(), f, i, b);
        let rest = s.drop_last().filter_map(f);
        let t = choose|t: int| 0 <= t < rest.len() && rest[t] == b;
        assert(s.filter_map(f)[t] == b);
    }
}

/// Inserting into a sequence inserts into its multiset.
proof fn lemma_insert_to_multiset<A>(s: Seq<A>, i: int, a: A)
    requires
        0 <= i <= s.len(),
    ensures
        s.insert(i, a).to_multiset() == s.to_multiset().insert(a),
{
    broadcast use vstd::seq_lib::group_to_multiset_ensures;

    let left = s.subrange(0, i);
    let right = s.subrange(i, s.len() as int);
    vstd::seq_lib::lemma_multiset_commutative(left.push(a), right);
    vstd::seq_lib::lemma_multiset_commutative(left, right);
    assert(s =~= left + right);
    assert(left.push(a).to_multiset() =~= left.to_multiset().insert(a));
    assert(left.to_multiset().insert(a).add(right.to_multiset()) =~= left.to_multiset().add(
        right.to_multiset(),
    ).insert(a));
}

/// Filters candidates by the similarity threshold and ranks the survivors:
/// ascending by distance, exact ties by ascending content id. The result
/// holds exactly the candidates whose distance is strictly below
/// `1 - similarity_threshold`, and its order is deterministic.
#[verifier::loop_isolation(false)]
pub fn rank(query: &Fingerprint, candidates: &Vec<StoredSignature>, threshold: &Threshold) -> (
    ranked: Vec<SimilarMatch>)
    requires
        query.wf(),
        threshold.wf(),
        forall|i: int| 0 <= i < candidates@.len() ==> (#[trigger] candidates@[i]).wf(),
    ensures
        sorted_matches(ranked@),
        ranked@.to_multiset() == rank_matches(
            candidates@.map_values(|c: StoredSignature| c@),
            query@,
            *threshold,
        ).to_multiset(),
        forall|t: int|
            0 <= t < ranked@.len() ==> stems_from(
                #[trigger] ranked@[t],
                candidates@,
                query@,
                *threshold,
            ),
        forall|i: int|
            0 <= i < candidates@.len() && candidate_passes(
                (#[trigger] candidates@[i])@,
                query@,
                *threshold,
            ) ==> ranked@.contains(match_of(candidates@[i]@, query@)),
{
    broadcast use vstd::seq_lib::group_to_multiset_ensures;

    let ghost cviews = candidates@.map_values(|c: StoredSignature| c@);
    let ghost f = match_fn(query@, *threshold);

    // Threshold filtering, in candidate order.
    let n = candidates.len();
    let mut pre: Vec<SimilarMatch> = Vec::new();
    let mut i: usize = 0;
    while i < n
        invariant
            i <= n,
            pre@ == cviews.take(i as int).filter_map(f),
        decreases n - i,
    {
        proof {
            cviews.lemma_filter_map_take_succ(f, i as int);
        }
        let d = distance_bits(query, &candidates[i].fingerprint);
        if threshold.passes(d) {
            let entry = SimilarMatch { content_id: candidates[i].content_id, distance_bits: d };
            pre.push(entry);
            proof {
                assert(f(cviews[i as int]) == Some(entry));
            }
        } else {
            proof {
                assert(f(cviews[i as int]) is None);
            }
        }
        i = i + 1;
    }
    proof {
        assert(cviews.take(n as int) =~= cviews);
    }

    // Insertion sort by the ranking order.
    let mut ranked: Vec<SimilarMatch> = Vec::new();
    let mut t: usize = 0;
    while t < pre.len()
        invariant
            t <= pre@.len(),
            sorted_matches(ranked@),
            ranked@.to_multiset() == pre@.take(t as int).to_multiset(),
        decreases pre@.len() - t,
    {
        let x = pre[t];
        let mut pos: usize = 0;
        while pos < ranked.len() && match_le_exec(&ranked[pos], &x)
            invariant
                pos <= ranked@.len(),
                forall|u: int| 0 <= u < pos ==> match_le(#[trigger] ranked@[u], x),
            decreases ranked@.len() - pos,
        {
            pos = pos + 1;
        }
        let ghost before = ranked@;
        ranked.insert(pos, x);
        proof {
            before.insert_ensures(pos as int, x);
            lemma_insert_to_multiset(before, pos as int, x);
            assert(pre@.take(t as int + 1) =~= pre@.take(t as int).push(pre@[t as int]));
            assert forall|u: int, v: int|
                0 <= u < v < ranked@.len() implies match_le(
                #[trigger] ranked@[u],
                #[trigger] ranked@[v],
            ) by {
                if v < pos {
                    assert(ranked@[u] == before[u] && ranked@[v] == before[v]);
                } else if u > pos {
                    assert(ranked@[u] == before[u - 1] && ranked@[v] == before[v - 1]);
                } else if v == pos {
                    assert(ranked@[u] == before[u]);
                    assert(match_le(before[u], x));
                } else if u == pos {
                    assert(ranked@[v] == before[v - 1]);
                    if pos < before.len() {
                        assert(!match_le(before[pos as int], x));
                        assert(match_le(x, before[v - 1]));
                    }
                } else {
                    assert(u < pos && v > pos);
                    assert(ranked@[u] == before[u] && ranked@[v] == before[v - 1]);
                    assert(match_le(before[u], x));
                }
            }
        }
        t = t + 1;
    }
    proof {
        assert(pre@.take(pre@.len() as int) =~= pre@);
        // Soundness: every ranked entry stems from a passing candidate.
        assert forall|u: int| 0 <= u < ranked@.len() implies stems_from(
            #[trigger] ranked@[u],
            candidates@,
            query@,
            *threshold,
        ) by {
            assert(ranked@.contains(ranked@[u]));
            assert(ranked@.to_multiset().count(ranked@[u]) > 0);
            assert(pre@.to_multiset().count(ranked@[u]) > 0);
            assert(pre@.contains(ranked@[u]));
            cviews.lemma_filter_map_contains(f, ranked@[u]);
            let c = choose|c: SigModel| #[trigger] cviews.contains(c) && f(c) == Some(ranked@[u]);
            let i = choose|i: int| 0 <= i < cviews.len() && cviews[i] == c;
            assert(candidates@[i]@ == c);
            assert(candidate_passes(c, query@, *threshold) && ranked@[u] == match_of(c, query@));
        }
        // Completeness: every passing candidate appears in the ranking.
        assert forall|i: int|
            0 <= i < candidates@.len() && candidate_passes(
                (#[trigger] candidates@[i])@,
                query@,
                *threshold,
            ) implies ranked@.contains(match_of(candidates@[i]@, query@)) by {
            let c = cviews[i];
            assert(f(c) == Some(match_of(c, query@)));
            lemma_filter_map_member(cviews, f, i, match_of(c, query@));
            assert(pre@.contains(match_of(c, query@)));
            assert(pre@.to_multiset().count(match_of(c, query@)) > 0);
            assert(ranked@.to_multiset().count(match_of(c, query@)) > 0);
            assert(ranked@.contains(match_of(c, query@)));
        }
    }
    ranked
}


/// Determinism of ranking: the ranking order is total and antisymmetric, so
/// any two sorted sequences holding the same entries are identical. Together
/// with the contract of `rank` this pins the ranked output down completely.
pub proof fn lemma_ranking_deterministic(s1: Seq<SimilarMatch>, s2: Seq<SimilarMatch>)
    requires
        sorted_matches(s1),
        sorted_matches(s2),
        s1.to_multiset() == s2.to_multiset(),
    ensures
        s1 == s2,
    decreases s1.len(),
{
    broadcast use vstd::seq_lib::group_to_multiset_ensures;

    if s1.len() == 0 {
        assert(s1.to_multiset().len() == 0);
        assert(s2.len() == 0);
        assert(s1 =~= s2);
    } else {
        assert(s1.to_multiset().len() > 0);
        assert(s2.len() > 0);
        let x = s1[0];
        let y = s2[0];
        // Each head occurs in the other sequence, and sortedness puts the
        // other head at or before it: the heads bound each other.
        assert(s1.contains(x));
        assert(s1.to_multiset().count(x) > 0);
        assert(s2.to_multiset().count(x) > 0);
        assert(s2.contains(x));
        let j = choose|j: int| 0 <= j < s2.len() && s2[j] == x;
        assert(match_le(y, x)) by {
            if j > 0 {
                assert(match_le(s2[0], s2[j]));
            }
        }
        assert(s2.contains(y));
        assert(s2.to_multiset().count(y) > 0);
        assert(s1.to_multiset().count(y) > 0);
        assert(s1.contains(y));
        let i = choose|i: int| 0 <= i < s1.len() && s1[i] == y;
        assert(match_le(x, y)) by {
            if i > 0 {
                assert(match_le(s1[0], s1[i]));
            }
        }
        // The order is antisymmetric, so the heads are equal.
        assert(x.distance_bits == y.distance_bits && x.content_id == y.content_id);
        assert(x == y);
        // The tails are sorted and hold the same entries: recurse.
        let t1 = s1.drop_first();
        let t2 = s2.drop_first();
        assert(s1.remove(0) =~= t1);
        assert(s2.remove(0) =~= t2);
        assert(t1.to_multiset() == s1.to_multiset().remove(x));
        assert(t2.to_multiset() == s2.to_multiset().remove(y));
        assert(sorted_matches(t1)) by {
            assert forall|p: int, q: int|
                0 <= p < q < t1.len() implies match_le(#[trigger] t1[p], #[trigger] t1[q]) by {
                assert(t1[p] == s1[p + 1] && t1[q] == s1[q + 1]);
                assert(match_le(s1[p + 1], s1[q + 1]));
            }
        }
        assert(sorted_matches(t2)) by {
            assert forall|p: int, q: int|
                0 <= p < q < t2.len() implies match_le(#[trigger] t2[p], #[trigger] t2[q]) by {
                assert(t2[p] == s2[p + 1] && t2[q] == s2[q + 1]);
                assert(match_le(s2[p + 1], s2[q + 1]));
            }
        }
        lemma_ranking_deterministic(t1, t2);
        assert forall|p: int| 0 <= p < s1.len() implies s1[p] == s2[p] by {
            if p > 0 {
                assert(t1[p - 1] == t2[p - 1]);
            }
        }
        assert(s1 =~= s2);
    }
}

} // verus!
