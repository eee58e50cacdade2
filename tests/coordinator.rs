use bucket::{
    after_attempt, bucket_size, digest_matches, distinct_versions, first_mismatch, ChunkBody,
    DownloadBucket, DownloadContext, DownloadDrop, NextMove, RETRY_COUNT,
};

fn drop(file: &str, index: usize, length: usize, checksum: &str) -> DownloadDrop {
    DownloadDrop {
        index,
        filename: file.to_string(),
        path: file.to_string(),
        start: 0,
        length,
        checksum: checksum.to_string(),
        permissions: 0,
    }
}

fn bucket(version: &str) -> DownloadBucket {
    DownloadBucket { game_id: "g".to_string(), version: version.to_string(), drops: Vec::new() }
}

#[test]
fn retries_with_growing_backoff() {
    assert_eq!(RETRY_COUNT, 3);
    assert_eq!(after_attempt(1, true), NextMove::Finished);
    assert_eq!(after_attempt(1, false), NextMove::RetryAfter { attempt: 2, wait_ms: 500 });
    assert_eq!(after_attempt(2, false), NextMove::RetryAfter { attempt: 3, wait_ms: 1000 });
    assert_eq!(after_attempt(3, false), NextMove::GiveUp);
    assert_eq!(after_attempt(3, true), NextMove::Finished);
}

#[test]
fn versions_listed_once() {
    let buckets = vec![bucket("v2"), bucket("v1"), bucket("v2"), bucket("v3"), bucket("v1")];
    assert_eq!(distinct_versions(&buckets), vec!["v2".to_string(), "v1".to_string(), "v3".to_string()]);
    assert!(distinct_versions(&Vec::new()).is_empty());
}

#[test]
fn bucket_size_sums_lengths() {
    assert_eq!(bucket_size(&[drop("a", 0, 10, ""), drop("b", 0, 32, "")]), Some(42));
    assert_eq!(bucket_size(&[]), Some(0));
    assert_eq!(bucket_size(&[drop("a", 0, usize::MAX, ""), drop("b", 0, 1, "")]), None);
}

#[test]
fn digest_compared_as_lowercase_hex() {
    let digest = md5::compute(b"abc").0.to_vec();
    assert!(digest_matches(&digest, &drop("a", 0, 3, "900150983cd24fb0d6963f7d28e17f72")));
    assert!(!digest_matches(&digest, &drop("a", 0, 3, "900150983CD24FB0D6963F7D28E17F72")));
    assert!(!digest_matches(&digest, &drop("a", 0, 3, "")));
}

#[test]
fn first_mismatch_found() {
    let d1 = md5::compute(b"one").0.to_vec();
    let d2 = md5::compute(b"two").0.to_vec();
    let good = vec![drop("a", 0, 3, &hex::encode(&d1)), drop("b", 0, 3, &hex::encode(&d2))];
    assert_eq!(first_mismatch(&vec![d1.clone(), d2.clone()], &good), None);
    assert_eq!(first_mismatch(&vec![d1.clone(), d1.clone()], &good), Some(1));
}

#[test]
fn chunk_body_lists_drops_in_order() {
    let context = DownloadContext { context: "ctx".to_string() };
    let drops = vec![drop("a", 3, 1, ""), drop("b", 0, 1, "")];
    let body = ChunkBody::create(&context, &drops);
    assert_eq!(body.context, "ctx");
    let files: Vec<(String, usize)> = body.files.iter().map(|f| (f.filename.clone(), f.chunk_index)).collect();
    assert_eq!(files, vec![("a".to_string(), 3), ("b".to_string(), 0)]);
}
