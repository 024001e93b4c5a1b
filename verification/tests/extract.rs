use visual_dedup::fingerprint::{compute_signature, Fingerprint, FP_BITS};
use visual_dedup::grid::PixelGrid;
use visual_dedup::decode::DeclaredFormat;
use visual_dedup::pipeline::compute_signature_if_applicable;
use visual_dedup::words::generate_indexes;
use visual_dedup::ContentType;
use visual_dedup::Error;

/// The fingerprint the 2x2 test image must produce: each pixel is replicated
/// over a quarter of the canonical grid, so every row of cells reads
/// [10, 10, 10, 10, 200, 200, 200, 200].
fn two_by_two_expected_bits() -> Vec<bool> {
    let mut bits = Vec::new();
    for _r in 0..8 {
        for c in 0..7 {
            // cell(c) >= cell(c + 1): false only across the 10 -> 200 step.
            bits.push(c != 3);
        }
    }
    for _i in 0..56 {
        // All vertical neighbours are equal.
        bits.push(true);
    }
    bits
}

fn two_by_two_grid() -> PixelGrid {
    PixelGrid::new(2, 2, vec![10, 200, 10, 200]).unwrap()
}

#[test]
fn extract_two_by_two_pattern() {
    let grid = two_by_two_grid();
    let fp = compute_signature(&grid).unwrap();
    assert_eq!(fp.bits.len(), FP_BITS);
    assert_eq!(fp.bits, two_by_two_expected_bits());
}

#[test]
fn extract_deterministic() {
    let grid = two_by_two_grid();
    let fp1 = compute_signature(&grid).unwrap();
    let fp2 = compute_signature(&grid).unwrap();
    assert_eq!(fp1.bits, fp2.bits);
}

#[test]
fn extract_rejects_zero_area() {
    let empty = PixelGrid::new(0, 0, Vec::new()).unwrap();
    assert!(matches!(compute_signature(&empty), Err(Error::Decode)));
    let zero_width = PixelGrid::new(0, 5, Vec::new()).unwrap();
    assert!(matches!(compute_signature(&zero_width), Err(Error::Decode)));
}

#[test]
fn grid_new_checks_dimensions() {
    assert!(PixelGrid::new(2, 2, vec![1, 2, 3]).is_none());
    assert!(PixelGrid::new(2, 2, vec![1, 2, 3, 4]).is_some());
}

#[test]
fn extract_single_pixel() {
    let grid = PixelGrid::new(1, 1, vec![77]).unwrap();
    let fp = compute_signature(&grid).unwrap();
    // A constant image compares equal everywhere: all bits are true.
    assert_eq!(fp.bits, vec![true; FP_BITS]);
}

#[test]
fn extract_robust_to_resizing() {
    // The same left-dark / right-bright step at two resolutions.
    let mut large = Vec::new();
    for _y in 0..64 {
        for x in 0..64 {
            large.push(if x < 32 { 10 } else { 200 });
        }
    }
    let mut small = Vec::new();
    for _y in 0..16 {
        for x in 0..16 {
            small.push(if x < 8 { 10 } else { 200 });
        }
    }
    let fp_large = compute_signature(&PixelGrid::new(64, 64, large).unwrap()).unwrap();
    let fp_small = compute_signature(&PixelGrid::new(16, 16, small).unwrap()).unwrap();
    assert_eq!(fp_large.bits, fp_small.bits);
}

fn luma_png(width: u32, height: u32, pixels: Vec<u8>) -> Vec<u8> {
    let img = image::GrayImage::from_raw(width, height, pixels).unwrap();
    let mut cursor = std::io::Cursor::new(Vec::new());
    image::DynamicImage::ImageLuma8(img)
        .write_to(&mut cursor, image::ImageFormat::Png)
        .unwrap();
    cursor.into_inner()
}

#[test]
fn signature_from_decoded_bytes_matches_grid() {
    // Decoding must reproduce the raw samples: the fingerprint computed from
    // encoded bytes equals the one computed from the grid directly.
    let bytes = luma_png(2, 2, vec![10, 200, 10, 200]);
    let fp = compute_signature_if_applicable(&bytes, DeclaredFormat::Png, ContentType::Image)
        .unwrap()
        .unwrap();
    assert_eq!(fp.bits, two_by_two_expected_bits());
}

#[test]
fn signature_skipped_for_unsupported_types() {
    let bytes = luma_png(2, 2, vec![10, 200, 10, 200]);
    assert!(compute_signature_if_applicable(&bytes, DeclaredFormat::Png, ContentType::Video)
        .unwrap()
        .is_none());
    assert!(compute_signature_if_applicable(&bytes, DeclaredFormat::Png, ContentType::Flash)
        .unwrap()
        .is_none());
    assert!(compute_signature_if_applicable(&bytes, DeclaredFormat::Png, ContentType::Youtube)
        .unwrap()
        .is_none());
}

#[test]
fn signature_decode_failure() {
    let garbage = vec![0u8, 1, 2, 3, 4, 5, 6, 7];
    assert!(matches!(
        compute_signature_if_applicable(&garbage, DeclaredFormat::Png, ContentType::Image),
        Err(Error::Decode)
    ));
}

#[test]
fn words_of_two_by_two_pattern() {
    let fp = Fingerprint {
        bits: two_by_two_expected_bits(),
    };
    let buckets = generate_indexes(&fp);
    assert_eq!(buckets.words.len(), 8);
    // Slice 0 holds two rows of [T,T,T,F,T,T,T]: bits 3 and 10 are false.
    let expected: i32 = (0..14)
        .filter(|j| *j != 3 && *j != 10)
        .map(|j| 1 << j)
        .sum();
    assert_eq!(buckets.words[0], Some(expected));
    assert_eq!(expected, 15351);
    // Slices 4 to 7 cover the all-true vertical bits: degenerate, no bucket.
    assert_eq!(buckets.words[4], None);
    assert_eq!(buckets.words[7], None);
}

#[test]
fn words_deterministic_and_absent_for_uniform() {
    let fp = Fingerprint {
        bits: vec![false; FP_BITS],
    };
    let b1 = generate_indexes(&fp);
    let b2 = generate_indexes(&fp);
    assert_eq!(b1.words, b2.words);
    assert_eq!(b1.words, vec![None; 8]);
}
