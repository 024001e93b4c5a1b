use visual_dedup::fingerprint::{Fingerprint, FP_BITS};
use visual_dedup::store::SignatureStore;
use visual_dedup::words::generate_indexes;
use visual_dedup::Error;
use visual_dedup::IntegerIdentifiable;

fn fp_pattern(slice_bits: [bool; 14]) -> Fingerprint {
    // Repeats a 14-bit pattern over all eight slices, so the bucket of every
    // slice is determined by the pattern.
    let mut bits = Vec::new();
    for _k in 0..8 {
        for j in 0..14 {
            bits.push(slice_bits[j]);
        }
    }
    assert_eq!(bits.len(), FP_BITS);
    Fingerprint { bits }
}

const PATTERN_A: [bool; 14] = [
    true, false, true, false, true, false, true, false, true, false, true, false, true, false,
];
const PATTERN_B: [bool; 14] = [
    false, true, false, true, false, true, false, true, false, true, false, true, false, true,
];

fn insert_fp(store: &mut SignatureStore, id: i32, fp: &Fingerprint) {
    let buckets = generate_indexes(fp);
    store.insert(id, fp.duplicate(), buckets).unwrap();
}

#[test]
fn insert_and_find_by_content() {
    let mut store = SignatureStore::new();
    let fp = fp_pattern(PATTERN_A);
    insert_fp(&mut store, 42, &fp);
    assert_eq!(store.len(), 1);
    let row = store.find_by_content(42).unwrap();
    assert_eq!(row.content_id, 42);
    assert_eq!(row.fingerprint.bits, fp.bits);
    assert!(store.find_by_content(43).is_none());
}

#[test]
fn duplicate_insert_is_a_violation() {
    let mut store = SignatureStore::new();
    let fp = fp_pattern(PATTERN_A);
    insert_fp(&mut store, 1, &fp);
    let buckets = generate_indexes(&fp);
    assert!(matches!(
        store.insert(1, fp.duplicate(), buckets),
        Err(Error::DuplicateSignatureViolation)
    ));
    assert_eq!(store.len(), 1);
}

#[test]
fn find_candidates_returns_every_bucket_match() {
    // a and b share every bucket with the query; c shares none.
    let mut store = SignatureStore::new();
    let fp_a = fp_pattern(PATTERN_A);
    let fp_c = fp_pattern(PATTERN_B);
    insert_fp(&mut store, 1, &fp_a);
    insert_fp(&mut store, 2, &fp_a);
    insert_fp(&mut store, 3, &fp_c);
    let query = generate_indexes(&fp_pattern(PATTERN_A));
    let cands = store.find_candidates(&query);
    let mut ids: Vec<i32> = cands.iter().map(|c| c.content_id).collect();
    ids.sort();
    assert_eq!(ids, vec![1, 2]);
}

#[test]
fn absent_buckets_never_collide() {
    // A degenerate fingerprint has no buckets at all: even an identical
    // stored fingerprint is no bucket-level match, absence is not a sentinel.
    let mut store = SignatureStore::new();
    let flat = Fingerprint {
        bits: vec![false; FP_BITS],
    };
    insert_fp(&mut store, 1, &flat);
    let query = generate_indexes(&flat);
    assert_eq!(query.words, vec![None; 8]);
    let cands = store.find_candidates(&query);
    assert!(cands.is_empty());
}

#[test]
fn delete_removes_the_row() {
    let mut store = SignatureStore::new();
    let fp = fp_pattern(PATTERN_A);
    insert_fp(&mut store, 1, &fp);
    insert_fp(&mut store, 2, &fp);
    assert!(store.delete(1));
    assert_eq!(store.len(), 1);
    assert!(store.find_by_content(1).is_none());
    assert!(store.find_by_content(2).is_some());
    assert!(!store.delete(1));
}

#[test]
fn update_replaces_the_payload() {
    let mut store = SignatureStore::new();
    let fp_a = fp_pattern(PATTERN_A);
    let fp_b = fp_pattern(PATTERN_B);
    insert_fp(&mut store, 1, &fp_a);
    let buckets_b = generate_indexes(&fp_b);
    assert!(store.update(1, fp_b.duplicate(), buckets_b));
    let row = store.find_by_content(1).unwrap();
    assert_eq!(row.fingerprint.bits, fp_b.bits);
    // Updating an absent id changes nothing.
    let buckets_a = generate_indexes(&fp_a);
    assert!(!store.update(9, fp_a.duplicate(), buckets_a));
    assert_eq!(store.len(), 1);
}

#[test]
fn swap_exchanges_payloads_without_losing_rows() {
    let mut store = SignatureStore::new();
    let fp_a = fp_pattern(PATTERN_A);
    let fp_b = fp_pattern(PATTERN_B);
    let fp_c = Fingerprint {
        bits: vec![true; FP_BITS],
    };
    insert_fp(&mut store, 1, &fp_a);
    insert_fp(&mut store, 2, &fp_b);
    insert_fp(&mut store, 3, &fp_c);
    store.swap(1, 2);
    assert_eq!(store.len(), 3);
    let row1 = store.find_by_content(1).unwrap();
    let row2 = store.find_by_content(2).unwrap();
    let row3 = store.find_by_content(3).unwrap();
    assert_eq!(row1.fingerprint.bits, fp_b.bits);
    assert_eq!(row2.fingerprint.bits, fp_a.bits);
    assert_eq!(row3.fingerprint.bits, fp_c.bits);
    assert_eq!(row1.content_id, 1);
    assert_eq!(row2.content_id, 2);
}

#[test]
fn swap_back_restores_the_original_state() {
    let mut store = SignatureStore::new();
    let fp_a = fp_pattern(PATTERN_A);
    let fp_b = fp_pattern(PATTERN_B);
    insert_fp(&mut store, 1, &fp_a);
    insert_fp(&mut store, 2, &fp_b);
    store.swap(1, 2);
    store.swap(1, 2);
    assert_eq!(store.find_by_content(1).unwrap().fingerprint.bits, fp_a.bits);
    assert_eq!(store.find_by_content(2).unwrap().fingerprint.bits, fp_b.bits);
}

#[test]
fn rows_are_integer_identifiable() {
    let mut store = SignatureStore::new();
    let fp = fp_pattern(PATTERN_A);
    insert_fp(&mut store, 27, &fp);
    let row = store.find_by_content(27).unwrap();
    assert_eq!(row.id(), 27);
}
