use bucket::{check_content_lengths, parse_lengths, DownloadDrop, LengthsError};

fn drops(lengths: &[usize]) -> Vec<DownloadDrop> {
    let mut start = 0;
    lengths
        .iter()
        .enumerate()
        .map(|(i, &length)| {
            let d = DownloadDrop {
                index: i,
                filename: "f".to_string(),
                path: "f".to_string(),
                start,
                length,
                checksum: String::new(),
                permissions: 0,
            };
            start += length;
            d
        })
        .collect()
}

#[test]
fn mismatch_at_second_position() {
    let r = check_content_lengths(b"10,30", &drops(&[10, 20]));
    assert_eq!(r, Err(LengthsError::Mismatch { position: 1, expected: 20, got: 30 }));
}

#[test]
fn matching_lengths_pass() {
    assert_eq!(check_content_lengths(b"10,20", &drops(&[10, 20])), Ok(()));
}

#[test]
fn too_many_lengths() {
    assert_eq!(check_content_lengths(b"10,20,5", &drops(&[10, 20])), Err(LengthsError::TooMany { count: 3 }));
}

#[test]
fn too_few_lengths() {
    assert_eq!(check_content_lengths(b"10", &drops(&[10, 20])), Err(LengthsError::TooFew { count: 1 }));
}

#[test]
fn malformed_length() {
    assert_eq!(check_content_lengths(b"10,2x", &drops(&[10, 20])), Err(LengthsError::Malformed { position: 1 }));
    assert_eq!(check_content_lengths(b"10,", &drops(&[10, 0])), Err(LengthsError::Malformed { position: 1 }));
}

#[test]
fn parse_reads_each_field() {
    assert_eq!(parse_lengths(b"0,12,,x,007"), vec![Some(0), Some(12), None, None, Some(7)]);
    assert_eq!(parse_lengths(b""), vec![None]);
    assert_eq!(parse_lengths(b"18446744073709551615"), vec![Some(usize::MAX)]);
    assert_eq!(parse_lengths(b"18446744073709551616"), vec![None]);
}
