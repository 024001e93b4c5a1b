//! Bucket index generation: a fingerprint is cut into a fixed number of
//! disjoint slices, and each non-degenerate slice is read as a small integer
//! bucket key ("word"). Two fingerprints that agree on at least one slice
//! share a bucket, which is what makes sub-linear candidate retrieval work.
use vstd::prelude::*;

use crate::fingerprint::Fingerprint;

verus! {

/// Number of bucket keys derived from one fingerprint.
pub const WORD_COUNT: usize = 8;

/// Number of fingerprint bits a single bucket key is read from.
pub const WORD_BITS: usize = 14;

/// Value of two raised to the power `e`.
pub open spec fn pow2(e: int) -> int
    decreases e,
{
    if e <= 0 {
        1
    } else {
        2 * pow2(e - 1)
    }
}

/// The integer read from the first `n` bits of the slice of `bits` starting
/// at `base`, with bit `base + j` carrying weight two to the `j`.
pub open spec fn slice_value(bits: Seq<bool>, base: int, n: int) -> int
    decreases n,
{
    if n <= 0 {
        0
    } else {
        slice_value(bits, base, n - 1) + if bits[base + n - 1] {
            pow2(n - 1)
        } else {
            0
        }
    }
}

/// A slice is degenerate when all its bits are equal: such a region of the
/// fingerprint is non-discriminative and yields no bucket.
pub open spec fn slice_uniform(bits: Seq<bool>, base: int) -> bool {
    forall|j: int| 0 <= j < 14 ==> #[trigger] bits[base + j] == bits[base]
}

/// The bucket keys of a fingerprint: slice `k` covers bits
/// `k * WORD_BITS .. (k + 1) * WORD_BITS`; a degenerate slice yields `None`
/// rather than a sentinel value.
pub open spec fn spec_words(bits: Seq<bool>) -> Seq<Option<i32>> {
    Seq::new(
        8,
        |k: int|
            if slice_uniform(bits, k * 14) {
                None
            } else {
                Some(slice_value(bits, k * 14, 14) as i32)
            },
    )
}

/// Two bucket sequences share a bucket when some slot holds the same key in
/// both; absent slots never collide.
pub open spec fn shares_bucket(a: Seq<Option<i32>>, b: Seq<Option<i32>>) -> bool {
    exists|k: int| #![trigger a[k], b[k]] 0 <= k < 8 && a[k] is Some && a[k] == b[k]
}

/// The fixed-length ordered bucket key sequence of one fingerprint.
pub struct Buckets {
    pub words: Vec<Option<i32>>,
}

impl View for Buckets {
    type V = Seq<Option<i32>>;

    open spec fn view(&self) -> Seq<Option<i32>> {
        self.words@
    }
}

impl Buckets {
    /// A bucket sequence holds exactly `WORD_COUNT` slots.
    pub open spec fn wf(self) -> bool {
        self@.len() == WORD_COUNT
    }

    /// Returns a copy holding the same bucket keys.
    pub fn duplicate(&self) -> (r: Buckets)
        ensures
            r@ == self@,
    {
        let words = self.words.clone();
        proof {
            assert(words@ =~= self.words@);
        }
        Buckets { words }
    }
}

/// Powers of two up to the slice width stay within a word-sized bound.
proof fn lemma_pow2_bounds(e: int)
    requires
        0 <= e <= 14,
    ensures
        1 <= pow2(e) <= 16384,
    decreases 14 - e,
{
    if e == 14 {
        reveal_with_fuel(pow2, 15);
    } else {
        lemma_pow2_bounds(e + 1);
    }
}

/// Slice values are below two to the slice width.
proof fn lemma_slice_value_bounds(bits: Seq<bool>, base: int, n: int)
    requires
        n >= 0,
    ensures
        0 <= slice_value(bits, base, n) < pow2(n),
    decreases n,
{
    if n > 0 {
        lemma_slice_value_bounds(bits, base, n - 1);
    }
}

/// Derives the bucket keys of a fingerprint. Pure: the same fingerprint
/// yields the same buckets on every call; a degenerate slice is reported as
/// absent, not as a sentinel integer.
#[verifier::loop_isolation(false)]
pub fn generate_indexes(fp: &Fingerprint) -> (b: Buckets)
    requires
        fp.wf(),
    ensures
        b.wf(),
        b@ == spec_words(fp@),
{
    let mut words: Vec<Option<i32>> = Vec::new();
    let mut k: usize = 0;
    while k < WORD_COUNT
        invariant
            k <= 8,
            words@.len() == k,
            forall|i: int| 0 <= i < k ==> words@[i] == spec_words(fp@)[i],
        decreases 8 - k,
    {
        let base = k * WORD_BITS;
        assert(base + 14 <= 112) by (nonlinear_arith)
            requires
                k < 8,
                base == k * 14,
        ;
        // Degeneracy test: does any bit of the slice differ from the first?
        let first = fp.bits[base];
        let mut uniform = true;
        let mut j: usize = 1;
        while j < 14
            invariant
                1 <= j <= 14,
                uniform == (forall|t: int|
                    0 <= t < j ==> #[trigger] fp@[base + t] == fp@[base as int]),
            decreases 14 - j,
        {
            if fp.bits[base + j] != first {
                uniform = false;
            }
            j = j + 1;
        }
        if uniform {
            words.push(None);
        } else {
            // Read the slice as an integer, low bit first.
            let mut value: u32 = 0;
            let mut weight: u32 = 1;
            let mut j: usize = 0;
            while j < 14
                invariant
                    j <= 14,
                    weight == pow2(j as int),
                    weight <= 16384,
                    value == slice_value(fp@, base as int, j as int),
                    value < weight,
                decreases 14 - j,
            {
                proof {
                    lemma_slice_value_bounds(fp@, base as int, j as int);
                    lemma_pow2_bounds(j + 1);
                }
                if fp.bits[base + j] {
                    value = value + weight;
                }
                weight = weight * 2;
                j = j + 1;
            }
            words.push(Some(value as i32));
            proof {
                lemma_slice_value_bounds(fp@, base as int, 14);
                assert(!slice_uniform(fp@, base as int));
            }
        }
        k = k + 1;
        proof {
            assert(forall|i: int| 0 <= i < k ==> words@[i] == spec_words(fp@)[i]);
        }
    }
    let b = Buckets { words };
    proof {
        assert(b@ =~= spec_words(fp@));
    }
    b
}

} // verus!
