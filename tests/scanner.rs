use rand::Rng;
use selfstorage::marker::get_magic_bytes;
use selfstorage::scanner::{copy_until_seq, MarkerScanner};

fn get_random_bytes(n: usize) -> Vec<u8> {
    let mut rng = rand::thread_rng();
    let mut v = Vec::with_capacity(n);
    for _ in 0..n {
        v.push(rng.gen())
    }
    v
}

/// Runs a scanner over `input` in chunks of `size`, as a stream copy would.
fn copy_in_chunks(input: &[u8], marker: &[u8], size: usize) -> Vec<u8> {
    let mut scanner = MarkerScanner::new(marker);
    let mut out = Vec::new();
    for chunk in input.chunks(size) {
        scanner.feed(chunk, &mut out);
        if scanner.is_found() {
            break;
        }
    }
    scanner.flush(&mut out);
    out
}

#[test]
fn test_copy_until_seq_short() {
    let input = b"HelloWorld";
    let mut output = Vec::new();
    let bytes_copied = copy_until_seq(input, &mut output, b"World");
    assert_eq!(bytes_copied, 5);
    assert_eq!(&output[..5], b"Hello");
    assert!(output[5..].iter().all(|b| *b == b"\x00"[0]));
    assert_eq!(output.len(), 5);
}

#[test]
fn test_copy_until_seq_long() {
    let (s, m, e) = (1_000_000, 100, 1_000);
    let start = get_random_bytes(s);
    let mid = get_random_bytes(m);
    let end = get_random_bytes(e);

    let mut full = Vec::with_capacity(s + m + e);
    for b in start.iter() {
        full.push(*b)
    }
    for b in mid.iter() {
        full.push(*b)
    }
    for b in end.iter() {
        full.push(*b)
    }

    let mut hopefully_start = Vec::new();
    copy_until_seq(&full, &mut hopefully_start, &mid);

    assert_eq!(start.len(), hopefully_start.len());
    assert_eq!(start, hopefully_start);
}

#[test]
fn copy_without_marker_copies_everything() {
    let mut output = vec![7u8];
    let n = copy_until_seq(b"no delimiter here", &mut output, b"XYZ");
    assert_eq!(n, 17);
    assert_eq!(output, b"\x07no delimiter here".to_vec());
}

#[test]
fn copy_with_empty_marker_writes_nothing() {
    let mut output = vec![1u8, 2, 3];
    let n = copy_until_seq(b"HelloWorld", &mut output, b"");
    assert_eq!(n, 0);
    assert_eq!(output, vec![1u8, 2, 3]);
}

#[test]
fn copy_stops_at_first_of_two_markers() {
    let mut output = Vec::new();
    let n = copy_until_seq(b"abXYcdXYef", &mut output, b"XY");
    assert_eq!(n, 2);
    assert_eq!(output, b"ab".to_vec());
}

#[test]
fn copy_finds_self_overlapping_marker() {
    let mut output = Vec::new();
    let n = copy_until_seq(b"xaaab", &mut output, b"aab");
    assert_eq!(n, 2);
    assert_eq!(output, b"xa".to_vec());

    let mut output = Vec::new();
    let n = copy_until_seq(b"abababac", &mut output, b"ababac");
    assert_eq!(n, 2);
    assert_eq!(output, b"ab".to_vec());
}

#[test]
fn copy_marker_at_start_and_end() {
    let mut output = Vec::new();
    assert_eq!(copy_until_seq(b"XYrest", &mut output, b"XY"), 0);
    assert!(output.is_empty());
    let mut output = Vec::new();
    assert_eq!(copy_until_seq(b"restXY", &mut output, b"XY"), 4);
    assert_eq!(output, b"rest".to_vec());
}

#[test]
fn copy_unfinished_marker_at_end_is_copied() {
    let mut output = Vec::new();
    assert_eq!(copy_until_seq(b"restXYZ", &mut output, b"XYZW"), 7);
    assert_eq!(output, b"restXYZ".to_vec());
}

#[test]
fn chunked_scan_matches_whole_copy() {
    let marker = get_magic_bytes();
    let mut input = b"program bytes ---begin-self-storage-".to_vec();
    input.extend_from_slice(&marker);
    input.extend_from_slice(b"payload");
    let mut whole = Vec::new();
    copy_until_seq(&input, &mut whole, &marker);
    for size in [1usize, 2, 3, 5, 7, 24, 1024] {
        assert_eq!(copy_in_chunks(&input, &marker, size), whole);
    }
    // The region's tail and the marker's first bytes already form a marker.
    assert_eq!(whole, b"program bytes ".to_vec());
}

#[test]
fn feed_reports_where_marker_ends() {
    let mut scanner = MarkerScanner::new(b"XY");
    let mut out = Vec::new();
    assert_eq!(scanner.feed(b"abX", &mut out), 3);
    assert!(!scanner.is_found());
    assert_eq!(scanner.feed(b"Ycd", &mut out), 1);
    assert!(scanner.is_found());
    scanner.flush(&mut out);
    assert_eq!(out, b"ab".to_vec());
}

#[test]
fn magic_bytes_value() {
    assert_eq!(get_magic_bytes(), b"---begin-self-storage---".to_vec());
    assert_eq!(get_magic_bytes().len(), 24);
}
