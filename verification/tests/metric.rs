use visual_dedup::fingerprint::{Fingerprint, FP_BITS};
use visual_dedup::matcher::{distance_bits, rank, SimilarMatch, Threshold};
use visual_dedup::store::StoredSignature;
use visual_dedup::words::{generate_indexes, Buckets};
use visual_dedup::Error;

fn fp_with_flips(flips: &[usize]) -> Fingerprint {
    let mut bits = vec![false; FP_BITS];
    for &i in flips {
        bits[i] = true;
    }
    Fingerprint { bits }
}

#[test]
fn distance_to_self_is_zero() {
    let f = fp_with_flips(&[0, 5, 17, 80]);
    assert_eq!(distance_bits(&f, &f), 0);
}

#[test]
fn distance_is_symmetric() {
    let f = fp_with_flips(&[0, 5, 17, 80]);
    let g = fp_with_flips(&[2, 5, 44]);
    assert_eq!(distance_bits(&f, &g), distance_bits(&g, &f));
}

#[test]
fn distance_is_bounded() {
    let zeros = fp_with_flips(&[]);
    let ones = Fingerprint {
        bits: vec![true; FP_BITS],
    };
    let d = distance_bits(&zeros, &ones);
    assert_eq!(d as usize, FP_BITS);
    assert!(distance_bits(&zeros, &zeros) as usize <= FP_BITS);
}

#[test]
fn distance_counts_differing_bits_exactly() {
    // Two fingerprints differing in exactly k bits have distance k / N.
    let base = fp_with_flips(&[]);
    let five_off = fp_with_flips(&[0, 1, 30, 60, 111]);
    assert_eq!(distance_bits(&base, &five_off), 5);
    let one_off = fp_with_flips(&[64]);
    assert_eq!(distance_bits(&base, &one_off), 1);
}

#[test]
fn threshold_validation() {
    assert!(Threshold::new(4, 5).is_ok());
    assert!(Threshold::new(5, 5).is_ok());
    assert!(Threshold::new(1, 1000).is_ok());
    assert!(matches!(
        Threshold::new(0, 5),
        Err(Error::InvalidThresholdConfig)
    ));
    assert!(matches!(
        Threshold::new(6, 5),
        Err(Error::InvalidThresholdConfig)
    ));
    assert!(matches!(
        Threshold::new(5, 0),
        Err(Error::InvalidThresholdConfig)
    ));
    assert!(matches!(
        Threshold::new(0, 0),
        Err(Error::InvalidThresholdConfig)
    ));
}

fn candidate(id: i32, fp: Fingerprint) -> StoredSignature {
    let buckets = generate_indexes(&fp);
    StoredSignature {
        content_id: id,
        fingerprint: fp,
        buckets,
    }
}

#[test]
fn rank_filters_and_orders_by_distance() {
    // Threshold 4/5: distance cutoff is 1/5, i.e. keep when 5 * k < 112.
    let threshold = Threshold::new(4, 5).unwrap();
    let query = fp_with_flips(&[]);
    let c1 = candidate(11, fp_with_flips(&[0, 1])); // distance 2
    let c2 = candidate(7, fp_with_flips(&[0, 1, 2, 3, 4])); // distance 5
    let c3 = candidate(3, {
        // distance 30: at or beyond the cutoff, must be discarded
        let flips: Vec<usize> = (0..30).collect();
        fp_with_flips(&flips)
    });
    let candidates = vec![c3, c2, c1];
    let ranked = rank(&query, &candidates, &threshold);
    assert_eq!(
        ranked,
        vec![
            SimilarMatch {
                content_id: 11,
                distance_bits: 2
            },
            SimilarMatch {
                content_id: 7,
                distance_bits: 5
            },
        ]
    );
}

#[test]
fn rank_breaks_ties_by_content_id() {
    let threshold = Threshold::new(4, 5).unwrap();
    let query = fp_with_flips(&[]);
    let a = candidate(9, fp_with_flips(&[10, 20, 30]));
    let b = candidate(2, fp_with_flips(&[40, 50, 60]));
    let c = candidate(5, fp_with_flips(&[70, 80, 90]));
    let ranked = rank(&query, &vec![a, b, c], &threshold);
    let ids: Vec<i32> = ranked.iter().map(|m| m.content_id).collect();
    assert_eq!(ids, vec![2, 5, 9]);
    assert!(ranked.iter().all(|m| m.distance_bits == 3));
}

#[test]
fn rank_boundary_is_strict() {
    // 5 * k < 112 keeps k = 22 and discards k = 23 (cutoff 22.4 bits).
    let threshold = Threshold::new(4, 5).unwrap();
    let query = fp_with_flips(&[]);
    let kept: Vec<usize> = (0..22).collect();
    let dropped: Vec<usize> = (0..23).collect();
    let cands = vec![
        candidate(1, fp_with_flips(&kept)),
        candidate(2, fp_with_flips(&dropped)),
    ];
    let ranked = rank(&query, &cands, &threshold);
    assert_eq!(ranked.len(), 1);
    assert_eq!(ranked[0].content_id, 1);
    assert_eq!(ranked[0].distance_bits, 22);
}

#[test]
fn rank_with_exact_similarity_threshold_keeps_only_identical() {
    // Similarity 1 means distance must be strictly below 0: nothing passes.
    let threshold = Threshold::new(1, 1).unwrap();
    let query = fp_with_flips(&[]);
    let same = candidate(1, fp_with_flips(&[]));
    let ranked = rank(&query, &vec![same], &threshold);
    assert!(ranked.is_empty());
}

#[test]
fn buckets_duplicate_copies() {
    let b = Buckets {
        words: vec![Some(3), None, Some(7), None, None, None, None, Some(1)],
    };
    let c = b.duplicate();
    assert_eq!(b.words, c.words);
}
