use visual_dedup::decode::DeclaredFormat;
use visual_dedup::matcher::Threshold;
use visual_dedup::pipeline::DuplicateDetectionPipeline;
use visual_dedup::user_token::{create_user_token, AccessError};
use visual_dedup::ContentType;
use visual_dedup::Error;

fn pipeline() -> DuplicateDetectionPipeline {
    // Similarity threshold 4/5: keep candidates with distance below 1/5.
    DuplicateDetectionPipeline::new(Threshold::new(4, 5).unwrap())
}

fn encode(img: image::GrayImage, format: image::ImageFormat) -> Vec<u8> {
    let mut cursor = std::io::Cursor::new(Vec::new());
    image::DynamicImage::ImageLuma8(img)
        .write_to(&mut cursor, format)
        .unwrap();
    cursor.into_inner()
}

/// A checkerboard of 8-pixel tiles: strong structure in every direction, so
/// every bucket slice is non-degenerate and block averages are decisive.
fn checkerboard() -> image::GrayImage {
    image::GrayImage::from_fn(64, 64, |x, y| {
        if (x / 8 + y / 8) % 2 == 0 {
            image::Luma([235u8])
        } else {
            image::Luma([20u8])
        }
    })
}

#[test]
fn exact_match_short_circuit() {
    let mut p = pipeline();
    let bytes = encode(checkerboard(), image::ImageFormat::Png);
    let checksum = b"checksum-of-a".to_vec();

    let first = p
        .ingest_bytes(checksum.clone(), &bytes, DeclaredFormat::Png, ContentType::Image)
        .unwrap();
    assert_eq!(first.created, Some(1));
    assert_eq!(first.exact_match, None);

    // Byte-identical upload: reported as the exact match, nothing created,
    // similarity list empty.
    let second = p
        .ingest_bytes(checksum.clone(), &bytes, DeclaredFormat::Png, ContentType::Image)
        .unwrap();
    assert_eq!(second.exact_match, Some(1));
    assert_eq!(second.created, None);
    assert!(second.similar.is_empty());

    let search = p
        .reverse_search_bytes(&checksum, &bytes, DeclaredFormat::Png, ContentType::Image)
        .unwrap();
    assert_eq!(search.exact_match, Some(1));
    assert!(search.similar.is_empty());
}

#[test]
fn near_duplicate_is_found() {
    let mut p = pipeline();
    let png = encode(checkerboard(), image::ImageFormat::Png);
    let jpeg = encode(checkerboard(), image::ImageFormat::Jpeg);
    assert_ne!(png, jpeg);

    let ingested = p
        .ingest_bytes(b"checksum-png".to_vec(), &png, DeclaredFormat::Png, ContentType::Image)
        .unwrap();
    let id = ingested.created.unwrap();

    // The recompressed copy has a different checksum but the same visual
    // content: no exact match, but the original ranks as a near duplicate
    // with distance below 1 - similarity_threshold.
    let search = p
        .reverse_search_bytes(&b"checksum-jpeg".to_vec(), &jpeg, DeclaredFormat::Jpeg, ContentType::Image)
        .unwrap();
    assert_eq!(search.exact_match, None);
    let hit = search
        .similar
        .iter()
        .find(|m| m.content_id == id)
        .expect("the original must rank as a near duplicate");
    // distance < 1/5 means 5 * distance_bits < 112.
    assert!(5 * hit.distance_bits < 112);
}

#[test]
fn type_exclusion() {
    let mut p = pipeline();
    let png = encode(checkerboard(), image::ImageFormat::Png);
    let jpeg = encode(checkerboard(), image::ImageFormat::Jpeg);

    // The same bytes uploaded as a video: no signature is computed or stored.
    let video = p
        .ingest_bytes(b"checksum-video".to_vec(), &png, DeclaredFormat::Png, ContentType::Video)
        .unwrap();
    let video_id = video.created.unwrap();
    assert!(p.store.find_by_content(video_id).is_none());

    let image_outcome = p
        .ingest_bytes(b"checksum-image".to_vec(), &png, DeclaredFormat::Png, ContentType::Image)
        .unwrap();
    let image_id = image_outcome.created.unwrap();
    assert!(p.store.find_by_content(image_id).is_some());

    // A reverse search over visually identical content never reports the
    // signature-less item.
    let search = p
        .reverse_search_bytes(&b"checksum-query".to_vec(), &jpeg, DeclaredFormat::Jpeg, ContentType::Image)
        .unwrap();
    assert!(search.similar.iter().all(|m| m.content_id != video_id));
    assert!(search.similar.iter().any(|m| m.content_id == image_id));
}

#[test]
fn unrelated_content_does_not_rank() {
    let mut p = pipeline();
    let checker = encode(checkerboard(), image::ImageFormat::Png);
    // A very different image: diagonal gradient.
    let gradient = encode(
        image::GrayImage::from_fn(64, 64, |x, y| image::Luma([(3 * (x + y) / 2) as u8])),
        image::ImageFormat::Png,
    );
    p.ingest_bytes(b"checksum-1".to_vec(), &checker, DeclaredFormat::Png, ContentType::Image)
        .unwrap();
    let search = p
        .reverse_search_bytes(&b"checksum-2".to_vec(), &gradient, DeclaredFormat::Png, ContentType::Image)
        .unwrap();
    assert_eq!(search.exact_match, None);
    assert!(search.similar.is_empty());
}

#[test]
fn decode_failure_aborts_ingestion() {
    let mut p = pipeline();
    let garbage = vec![1u8, 2, 3];
    let r = p.ingest_bytes(b"checksum-bad".to_vec(), &garbage, DeclaredFormat::Png, ContentType::Image);
    assert!(matches!(r, Err(Error::Decode)));
    // Nothing was created: the next upload still gets id 1.
    let png = encode(checkerboard(), image::ImageFormat::Png);
    let ok = p
        .ingest_bytes(b"checksum-good".to_vec(), &png, DeclaredFormat::Png, ContentType::Image)
        .unwrap();
    assert_eq!(ok.created, Some(1));
}

#[test]
fn reverse_search_decode_failure_has_no_partial_result() {
    let mut p = pipeline();
    let png = encode(checkerboard(), image::ImageFormat::Png);
    p.ingest_bytes(b"checksum-a".to_vec(), &png, DeclaredFormat::Png, ContentType::Image)
        .unwrap();
    let r = p.reverse_search_bytes(&b"checksum-b".to_vec(), &[9u8, 9, 9], DeclaredFormat::Png, ContentType::Image);
    assert!(matches!(r, Err(Error::Decode)));
}

#[test]
fn unsupported_type_searches_without_signature() {
    let mut p = pipeline();
    let png = encode(checkerboard(), image::ImageFormat::Png);
    p.ingest_bytes(b"checksum-a".to_vec(), &png, DeclaredFormat::Png, ContentType::Image)
        .unwrap();
    // A video upload of different bytes: no exact match and, because videos
    // carry no signature, an empty similarity list rather than an error.
    let search = p
        .reverse_search_bytes(&b"checksum-b".to_vec(), &png[1..], DeclaredFormat::Png, ContentType::Video)
        .unwrap();
    assert_eq!(search.exact_match, None);
    assert!(search.similar.is_empty());
}

#[test]
fn create_user_token_for_self() {
    let granted = create_user_token(Some(7), 7, true, false).unwrap();
    assert_eq!(granted.version, 0);
    assert!(!granted.enabled);
    assert_eq!(granted.user, "");
    assert_eq!(granted.token, "");
    assert_eq!(granted.note, "");
    assert_eq!(granted.expiration_time, "");
    assert_eq!(granted.creation_time, "");
    assert_eq!(granted.last_edit_time, "");
    assert_eq!(granted.last_usage_time, "");

    let denied = create_user_token(Some(7), 7, false, true);
    assert!(matches!(denied, Err(AccessError::InsufficientPrivilege)));
}

#[test]
fn create_user_token_for_others() {
    assert!(create_user_token(Some(3), 7, false, true).is_ok());
    assert!(create_user_token(None, 7, false, true).is_ok());
    assert!(matches!(
        create_user_token(Some(3), 7, true, false),
        Err(AccessError::InsufficientPrivilege)
    ));
    assert!(matches!(
        create_user_token(None, 7, true, false),
        Err(AccessError::InsufficientPrivilege)
    ));
}

#[test]
fn empty_corpus_finds_nothing() {
    let p = pipeline();
    let png = encode(checkerboard(), image::ImageFormat::Png);
    let search = p
        .reverse_search_bytes(&b"checksum-x".to_vec(), &png, DeclaredFormat::Png, ContentType::Image)
        .unwrap();
    assert_eq!(search.exact_match, None);
    assert!(search.similar.is_empty());
}

#[test]
fn ingestion_assigns_sequential_ids() {
    let mut p = pipeline();
    let png = encode(checkerboard(), image::ImageFormat::Png);
    let jpeg = encode(checkerboard(), image::ImageFormat::Jpeg);
    let gradient = encode(
        image::GrayImage::from_fn(64, 64, |x, y| image::Luma([(3 * (x + y) / 2) as u8])),
        image::ImageFormat::Png,
    );
    let a = p
        .ingest_bytes(b"c-1".to_vec(), &png, DeclaredFormat::Png, ContentType::Image)
        .unwrap();
    let b = p
        .ingest_bytes(b"c-2".to_vec(), &jpeg, DeclaredFormat::Jpeg, ContentType::Image)
        .unwrap();
    let c = p
        .ingest_bytes(b"c-3".to_vec(), &gradient, DeclaredFormat::Png, ContentType::Image)
        .unwrap();
    assert_eq!(a.created, Some(1));
    assert_eq!(b.created, Some(2));
    assert_eq!(c.created, Some(3));
    // The second upload already sees the first as a near duplicate.
    assert!(b.similar.iter().any(|m| m.content_id == 1));
}

#[test]
fn deleting_content_cascades_to_its_signature() {
    let mut p = pipeline();
    let png = encode(checkerboard(), image::ImageFormat::Png);
    let jpeg = encode(checkerboard(), image::ImageFormat::Jpeg);
    let id = p
        .ingest_bytes(b"c-del".to_vec(), &png, DeclaredFormat::Png, ContentType::Image)
        .unwrap()
        .created
        .unwrap();
    assert!(p.store.find_by_content(id).is_some());

    assert!(p.delete_content(id));
    assert!(p.store.find_by_content(id).is_none());

    // Neither the checksum nor the signature is found any more.
    let search = p
        .reverse_search_bytes(&b"c-del".to_vec(), &jpeg, DeclaredFormat::Jpeg, ContentType::Image)
        .unwrap();
    assert_eq!(search.exact_match, None);
    assert!(search.similar.is_empty());

    // Deleting again reports that nothing existed.
    assert!(!p.delete_content(id));
}

#[test]
fn swapping_content_trades_checksums_and_signatures() {
    let mut p = pipeline();
    let checker = encode(checkerboard(), image::ImageFormat::Png);
    let gradient = encode(
        image::GrayImage::from_fn(64, 64, |x, y| image::Luma([(3 * (x + y) / 2) as u8])),
        image::ImageFormat::Png,
    );
    let a = p
        .ingest_bytes(b"sum-checker".to_vec(), &checker, DeclaredFormat::Png, ContentType::Image)
        .unwrap()
        .created
        .unwrap();
    let b = p
        .ingest_bytes(b"sum-gradient".to_vec(), &gradient, DeclaredFormat::Png, ContentType::Image)
        .unwrap()
        .created
        .unwrap();
    let sig_a = p.store.find_by_content(a).unwrap().fingerprint.bits;
    let sig_b = p.store.find_by_content(b).unwrap().fingerprint.bits;
    assert_ne!(sig_a, sig_b);

    p.swap_content(a, b);

    // The signature payloads traded places; ids and row count are intact.
    assert_eq!(p.store.find_by_content(a).unwrap().fingerprint.bits, sig_b);
    assert_eq!(p.store.find_by_content(b).unwrap().fingerprint.bits, sig_a);
    assert_eq!(p.store.len(), 2);

    // The checksums traded places too: the checkerboard bytes now exactly
    // match content b.
    let search = p
        .reverse_search_bytes(&b"sum-checker".to_vec(), &checker, DeclaredFormat::Png, ContentType::Image)
        .unwrap();
    assert_eq!(search.exact_match, Some(b));
}

#[test]
fn exact_match_wins_over_decode_failure() {
    // Spec order: the checksum lookup comes before decoding. Byte-identical
    // content is reported as the exact match even when its bytes do not
    // decode under the declared visual type.
    let mut p = pipeline();
    let undecodable = b"opaque payload, never decoded".to_vec();
    let stored = p
        .ingest_bytes(
            b"sum-opaque".to_vec(),
            &undecodable,
            DeclaredFormat::Png,
            ContentType::Video,
        )
        .unwrap()
        .created
        .unwrap();

    let search = p
        .reverse_search_bytes(
            &b"sum-opaque".to_vec(),
            &undecodable,
            DeclaredFormat::Png,
            ContentType::Image,
        )
        .unwrap();
    assert_eq!(search.exact_match, Some(stored));
    assert!(search.similar.is_empty());

    let second = p
        .ingest_bytes(
            b"sum-opaque".to_vec(),
            &undecodable,
            DeclaredFormat::Png,
            ContentType::Image,
        )
        .unwrap();
    assert_eq!(second.exact_match, Some(stored));
    assert_eq!(second.created, None);
}

#[test]
fn declared_format_is_binding() {
    // Decoding is pinned to the declared format: PNG bytes declared as JPEG
    // do not decode, they fail.
    let mut p = pipeline();
    let png = encode(checkerboard(), image::ImageFormat::Png);
    let r = p.ingest_bytes(
        b"sum-mislabeled".to_vec(),
        &png,
        DeclaredFormat::Jpeg,
        ContentType::Image,
    );
    assert!(matches!(r, Err(Error::Decode)));
}

#[test]
fn identical_signature_ranks_first_with_distance_zero() {
    let mut p = pipeline();
    let checker = encode(checkerboard(), image::ImageFormat::Png);
    // A visually close but not identical image: the first tile darkened
    // below its neighbours, flipping a few comparison bits.
    let near = encode(
        image::GrayImage::from_fn(64, 64, |x, y| {
            if x < 8 && y < 8 {
                image::Luma([10u8])
            } else if (x / 8 + y / 8) % 2 == 0 {
                image::Luma([235u8])
            } else {
                image::Luma([20u8])
            }
        }),
        image::ImageFormat::Png,
    );
    let a = p
        .ingest_bytes(b"sum-a".to_vec(), &checker, DeclaredFormat::Png, ContentType::Image)
        .unwrap()
        .created
        .unwrap();
    p.ingest_bytes(b"sum-b".to_vec(), &near, DeclaredFormat::Png, ContentType::Image)
        .unwrap();

    // The same pixels under a different checksum: a is reported first, at
    // distance exactly zero.
    let search = p
        .reverse_search_bytes(&b"sum-c".to_vec(), &checker, DeclaredFormat::Png, ContentType::Image)
        .unwrap();
    assert_eq!(search.exact_match, None);
    assert!(!search.similar.is_empty());
    assert_eq!(search.similar[0].content_id, a);
    assert_eq!(search.similar[0].distance_bits, 0);
}
