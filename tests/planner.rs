use bucket::{generate_buckets, generate_buckets_with_limits, DownloadBucket, DropChunk, MAX_FILES_PER_BUCKET, TARGET_BUCKET_SIZE};

fn chunk(lengths: Vec<usize>, version: &str) -> DropChunk {
    let checksums = (0..lengths.len()).map(|i| format!("c{}", i + 1)).collect();
    DropChunk {
        permissions: 0,
        ids: Vec::new(),
        checksums,
        lengths,
        version_name: version.to_string(),
    }
}

fn shape(buckets: &[DownloadBucket]) -> Vec<Vec<(usize, usize)>> {
    buckets.iter().map(|b| b.drops.iter().map(|d| (d.start, d.length)).collect()).collect()
}

#[test]
fn second_drop_seals_first_bucket() {
    let manifest = vec![("a.bin".to_string(), chunk(vec![10, 20], "v1"))];
    let buckets = generate_buckets_with_limits("g".to_string(), "root", &manifest, 25, 255);
    assert_eq!(shape(&buckets), vec![vec![(0, 10)], vec![(10, 20)]]);
    assert_eq!(buckets[0].drops[0].checksum, "c1");
    assert_eq!(buckets[1].drops[0].checksum, "c2");
    assert_eq!(buckets[1].drops[0].index, 1);
    assert_eq!(buckets[0].version, "v1");
    assert_eq!(buckets[0].game_id, "g");
    assert_eq!(buckets[0].drops[0].filename, "a.bin");
}

#[test]
fn oversized_drop_goes_alone_first() {
    let manifest = vec![("f".to_string(), chunk(vec![5, 30, 5], "v"))];
    let buckets = generate_buckets_with_limits("g".to_string(), "root", &manifest, 25, 255);
    assert_eq!(shape(&buckets), vec![vec![(5, 30)], vec![(0, 5), (35, 5)]]);
}

#[test]
fn drop_count_limit_seals_bucket() {
    let manifest = vec![("f".to_string(), chunk(vec![1, 1, 1, 1, 1], "v"))];
    let buckets = generate_buckets_with_limits("g".to_string(), "root", &manifest, 1000, 2);
    assert_eq!(shape(&buckets), vec![vec![(0, 1), (1, 1)], vec![(2, 1), (3, 1)], vec![(4, 1)]]);
}

#[test]
fn versions_fill_separate_buckets() {
    let manifest = vec![
        ("a".to_string(), chunk(vec![4, 4], "v1")),
        ("b".to_string(), chunk(vec![4], "v2")),
        ("c".to_string(), chunk(vec![4], "v1")),
    ];
    let buckets = generate_buckets_with_limits("g".to_string(), "root", &manifest, 10, 255);
    let summary: Vec<(String, usize)> = buckets.iter().map(|b| (b.version.clone(), b.drops.len())).collect();
    assert_eq!(summary, vec![("v1".to_string(), 2), ("v1".to_string(), 1), ("v2".to_string(), 1)]);
    assert_eq!(buckets[1].drops[0].filename, "c");
}

#[test]
fn exact_target_is_solo() {
    let manifest = vec![("f".to_string(), chunk(vec![25, 24, 1], "v"))];
    let buckets = generate_buckets_with_limits("g".to_string(), "root", &manifest, 25, 255);
    assert_eq!(shape(&buckets), vec![vec![(0, 25)], vec![(25, 24)], vec![(49, 1)]]);
}

#[test]
fn empty_manifest_plans_nothing() {
    let buckets = generate_buckets("g".to_string(), "root", &Vec::new());
    assert!(buckets.is_empty());
}

#[test]
fn server_limits() {
    assert_eq!(TARGET_BUCKET_SIZE, 63_000_000);
    assert_eq!(MAX_FILES_PER_BUCKET, 255);
}

#[test]
fn default_limits_pack_small_files_together() {
    let manifest = vec![
        ("x".to_string(), chunk(vec![40_000_000, 20_000_000], "v")),
        ("y".to_string(), chunk(vec![3_000_000, 70_000_000], "v")),
    ];
    let buckets = generate_buckets("g".to_string(), "root", &manifest);
    assert_eq!(
        shape(&buckets),
        vec![vec![(0, 40_000_000), (40_000_000, 20_000_000)], vec![(3_000_000, 70_000_000)], vec![(0, 3_000_000)]]
    );
}

#[test]
fn planned_buckets_respect_limits() {
    let mut manifest = Vec::new();
    for f in 0..20usize {
        let lengths: Vec<usize> = (0..(f % 7 + 1)).map(|i| (f * 37 + i * 11) % 60 + 1).collect();
        let version = if f % 3 == 0 { "v1" } else { "v2" };
        manifest.push((format!("file{}", f), chunk(lengths, version)));
    }
    let target = 50;
    let max = 3;
    let buckets = generate_buckets_with_limits("g".to_string(), "root", &manifest, target, max);
    let mut count = 0;
    for b in &buckets {
        let total: usize = b.drops.iter().map(|d| d.length).sum();
        assert!(!b.drops.is_empty());
        if b.drops.iter().any(|d| d.length >= target) {
            assert_eq!(b.drops.len(), 1);
        } else {
            assert!(total < target);
            assert!(b.drops.len() <= max);
        }
        count += b.drops.len();
    }
    let expected: usize = manifest.iter().map(|(_, c)| c.lengths.len()).sum();
    assert_eq!(count, expected);
}

#[test]
fn drops_tile_their_file() {
    let manifest = vec![("f".to_string(), chunk(vec![3, 0, 7, 2], "v"))];
    let buckets = generate_buckets_with_limits("g".to_string(), "root", &manifest, 1000, 255);
    let drops = &buckets[0].drops;
    assert_eq!(drops[0].start, 0);
    for w in drops.windows(2) {
        assert_eq!(w[1].start, w[0].start + w[0].length);
        assert_eq!(w[1].index, w[0].index + 1);
    }
    let total: usize = drops.iter().map(|d| d.length).sum();
    assert_eq!(total, 12);
}

#[test]
fn drop_path_is_beneath_install_dir() {
    let manifest = vec![("sub/a.bin".to_string(), chunk(vec![1], "v"))];
    let buckets = generate_buckets_with_limits("g".to_string(), "games/x", &manifest, 10, 255);
    assert_eq!(buckets[0].drops[0].path, "games/x/sub/a.bin");
}
