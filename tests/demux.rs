use bucket::{ranges_fit, CopyCursor, CopyStep, DownloadDrop, RangeHasher, StreamEnded, MAX_PACKET_LENGTH};

fn drop(file: &str, index: usize, start: usize, length: usize) -> DownloadDrop {
    DownloadDrop {
        index,
        filename: file.to_string(),
        path: file.to_string(),
        start,
        length,
        checksum: String::new(),
        permissions: 0,
    }
}

struct FileImage {
    name: String,
    bytes: Vec<u8>,
}

/// Runs a copy of `stream` into in-memory files, reading at most `chunk`
/// bytes at a time; returns the digests and the number of reads made.
fn run(
    stream: &[u8],
    drops: &[DownloadDrop],
    files: &mut Vec<FileImage>,
    chunk: usize,
) -> Result<(Vec<Vec<u8>>, usize), StreamEnded> {
    let mut hashers: Vec<RangeHasher> = drops.iter().map(|_| RangeHasher::new()).collect();
    let mut cursor = CopyCursor::new();
    let mut pos = 0;
    let mut reads = 0;
    let mut write_at = vec![0usize; drops.len()];
    loop {
        match cursor.next_step(drops) {
            CopyStep::Finished => break,
            CopyStep::Position { drop, seek_to } => {
                assert_eq!(seek_to.is_some(), drops[drop].start != 0);
                write_at[drop] = seek_to.unwrap_or(0);
                cursor.mark_positioned(drops);
            }
            CopyStep::Read { drop, max, offset } => {
                assert_eq!(offset, write_at[drop]);
                reads += 1;
                let n = max.min(chunk).min(stream.len() - pos);
                let data = &stream[pos..pos + n];
                pos += n;
                hashers[drop].update(data);
                let file = files.iter_mut().find(|f| f.name == drops[drop].filename).unwrap();
                if file.bytes.len() < offset + n {
                    file.bytes.resize(offset + n, 0);
                }
                file.bytes[offset..offset + n].copy_from_slice(data);
                write_at[drop] += n;
                cursor.record_read(drops, n)?;
            }
        }
    }
    Ok((hashers.into_iter().map(|h| h.finish()).collect(), reads))
}

fn image(name: &str) -> FileImage {
    FileImage { name: name.to_string(), bytes: Vec::new() }
}

#[test]
fn stream_round_trip() {
    let stream: Vec<u8> = (0..50_000u32).map(|i| (i * 7 % 251) as u8).collect();
    let drops = vec![drop("a", 0, 0, 20_000), drop("b", 3, 500, 25_000), drop("c", 0, 0, 5_000)];
    let mut files = vec![image("a"), image("b"), image("c")];
    let (digests, _) = run(&stream, &drops, &mut files, usize::MAX).unwrap();
    assert_eq!(files[0].bytes, stream[0..20_000].to_vec());
    assert_eq!(files[1].bytes[500..], stream[20_000..45_000]);
    assert_eq!(files[2].bytes, stream[45_000..].to_vec());
    assert_eq!(digests[0], md5::compute(&stream[0..20_000]).0.to_vec());
    assert_eq!(digests[1], md5::compute(&stream[20_000..45_000]).0.to_vec());
    assert_eq!(digests[2], md5::compute(&stream[45_000..]).0.to_vec());
}

#[test]
fn reads_never_exceed_packet_or_remaining() {
    let stream = vec![9u8; MAX_PACKET_LENGTH * 2 + 3];
    let drops = vec![drop("a", 0, 0, MAX_PACKET_LENGTH * 2 + 3)];
    let mut files = vec![image("a")];
    let (_, reads) = run(&stream, &drops, &mut files, usize::MAX).unwrap();
    assert_eq!(reads, 3);
}

#[test]
fn short_reads_still_complete() {
    let stream: Vec<u8> = (0..1000u32).map(|i| i as u8).collect();
    let drops = vec![drop("a", 0, 0, 600), drop("a", 1, 600, 400)];
    let mut files = vec![image("a")];
    let (digests, reads) = run(&stream, &drops, &mut files, 7).unwrap();
    assert_eq!(files[0].bytes, stream);
    assert_eq!(reads, 86 + 58);
    assert_eq!(digests[1], md5::compute(&stream[600..]).0.to_vec());
}

#[test]
fn rerun_overwrites_same_ranges() {
    let stream: Vec<u8> = (0..300u32).map(|i| (i * 3) as u8).collect();
    let drops = vec![drop("a", 0, 0, 100), drop("a", 2, 200, 200)];
    let mut files = vec![image("a")];
    let (first, _) = run(&stream, &drops, &mut files, usize::MAX).unwrap();
    let after_first = files[0].bytes.clone();
    let (second, _) = run(&stream, &drops, &mut files, usize::MAX).unwrap();
    assert_eq!(first, second);
    assert_eq!(files[0].bytes, after_first);
}

#[test]
fn empty_drop_reads_nothing() {
    let drops = vec![drop("a", 0, 0, 0)];
    let mut files = vec![image("a")];
    let (digests, reads) = run(&[], &drops, &mut files, usize::MAX).unwrap();
    assert_eq!(reads, 0);
    assert_eq!(digests[0], md5::compute(b"").0.to_vec());
    assert_eq!(hex::encode(&digests[0]), "d41d8cd98f00b204e9800998ecf8427e");
}

#[test]
fn two_ranges_of_one_file() {
    let stream: Vec<u8> = (0..30u8).collect();
    let drops = vec![drop("f", 2, 40, 10), drop("f", 0, 0, 20)];
    let mut files = vec![image("f")];
    let (digests, _) = run(&stream, &drops, &mut files, usize::MAX).unwrap();
    assert_eq!(files[0].bytes.len(), 50);
    assert_eq!(files[0].bytes[40..50], stream[0..10]);
    assert_eq!(files[0].bytes[0..20], stream[10..30]);
    assert_eq!(digests[0], md5::compute(&stream[0..10]).0.to_vec());
    assert_eq!(digests[1], md5::compute(&stream[10..30]).0.to_vec());
}

#[test]
fn stream_ending_early_is_an_error() {
    let stream = vec![1u8; 15];
    let drops = vec![drop("a", 0, 0, 10), drop("b", 0, 0, 10)];
    let mut files = vec![image("a"), image("b")];
    assert_eq!(run(&stream, &drops, &mut files, usize::MAX).unwrap_err(), StreamEnded { drop: 1 });
}

#[test]
fn overflowing_ranges_are_detected() {
    assert!(ranges_fit(&[drop("a", 0, 10, 20)]));
    assert!(!ranges_fit(&[drop("a", 0, usize::MAX, 1)]));
}
