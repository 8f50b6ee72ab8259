use selfstorage::image::{build_image, payload_after_marker, stored_payload};
use selfstorage::marker::get_magic_bytes;
use selfstorage::reader::PayloadBuffer;
use selfstorage::scanner::MarkerScanner;

fn program() -> Vec<u8> {
    b"\x7fELF program text and data".to_vec()
}

#[test]
fn image_without_marker_has_empty_payload() {
    assert_eq!(stored_payload(&program()), Vec::<u8>::new());
    assert_eq!(stored_payload(b""), Vec::<u8>::new());
}

#[test]
fn build_then_read_round_trips() {
    let image = build_image(&program(), b"hello");
    let mut expected = program();
    expected.extend_from_slice(&get_magic_bytes());
    expected.extend_from_slice(b"hello");
    assert_eq!(image, expected);
    assert_eq!(stored_payload(&image), b"hello".to_vec());
}

#[test]
fn empty_payload_round_trips() {
    let image = build_image(&program(), b"");
    assert_eq!(stored_payload(&image), Vec::<u8>::new());
    assert_eq!(image.len(), program().len() + 24);
}

#[test]
fn payload_with_marker_prefix_round_trips() {
    let payload = b"---begin-self".to_vec();
    let image = build_image(&program(), &payload);
    assert_eq!(stored_payload(&image), payload);
}

#[test]
fn payload_holding_whole_marker_round_trips() {
    let mut payload = b"before ".to_vec();
    payload.extend_from_slice(&get_magic_bytes());
    payload.extend_from_slice(b" after");
    let image = build_image(&program(), &payload);
    assert_eq!(stored_payload(&image), payload);
}

#[test]
fn second_store_replaces_first() {
    let first = build_image(&program(), b"hello");
    let second = build_image(&first, b"world");
    assert_eq!(stored_payload(&second), b"world".to_vec());
    assert_eq!(second.len(), program().len() + 24 + 5);
}

#[test]
fn reading_twice_gives_same_payload() {
    let image = build_image(&program(), b"stable");
    let a = stored_payload(&image);
    let b = stored_payload(&image);
    assert_eq!(a, b);
    assert_eq!(a, b"stable".to_vec());
}

#[test]
fn streamed_read_matches_whole_read() {
    let image = build_image(&program(), b"streamed payload");
    let marker = get_magic_bytes();
    for size in [1usize, 4, 24, 1024] {
        let mut scanner = MarkerScanner::new(&marker);
        let mut payload = Vec::new();
        let mut chunks = image.chunks(size);
        while let Some(chunk) = chunks.next() {
            if let Some(rest) = payload_after_marker(&mut scanner, chunk) {
                payload.extend_from_slice(&rest);
                for c in chunks.by_ref() {
                    payload.extend_from_slice(c);
                }
                break;
            }
        }
        assert_eq!(payload, b"streamed payload".to_vec());
    }
}

#[test]
fn payload_buffer_hands_out_in_order() {
    let mut buffer = PayloadBuffer::new(b"abcde".to_vec());
    let mut buf = [0u8; 3];
    assert_eq!(buffer.take_into(&mut buf), 3);
    assert_eq!(&buf, b"abc");
    let mut buf = [9u8; 4];
    assert_eq!(buffer.take_into(&mut buf), 2);
    assert_eq!(&buf, b"de\x09\x09");
    assert!(buffer.is_empty());
    assert_eq!(buffer.take_into(&mut buf), 0);
}

#[test]
fn region_ending_in_partial_marker_shifts_payload() {
    // The region ends with the marker's first 21 bytes, and the marker's last
    // three repeat its first three: the appended marker completes an earlier one.
    let image = build_image(b"x---begin-self-storage", b"hi");
    assert_eq!(stored_payload(&image), b"begin-self-storage---hi".to_vec());
}
