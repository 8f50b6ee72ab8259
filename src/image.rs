//! Executable images: a program region, one marker, then the payload.
//!
//! The store path builds the image that carries a new payload; the read path
//! finds the payload of an image, either whole or as a stream of chunks.
use vstd::prelude::*;
use crate::marker::{get_magic_bytes, lemma_magic_bytes_len, magic_bytes, MARKER_LEN};
use crate::scanner::{
    after_marker, before_marker, contains_marker, first_marker, is_first_marker,
    lemma_first_marker, lemma_first_marker_unique, occurs_at, MarkerScanner,
};

verus! {

/// The image that carries `payload`: the program region of `current`, the
/// marker, then the payload.
pub open spec fn stored_image(current: Seq<u8>, payload: Seq<u8>) -> Seq<u8> {
    before_marker(current, magic_bytes()) + magic_bytes() + payload
}

/// The payload that `image` carries; empty if it holds no marker.
pub open spec fn image_payload(image: Seq<u8>) -> Seq<u8> {
    after_marker(image, magic_bytes())
}

/// No occurrence of the marker starts inside the program region of `current`
/// once a marker is appended to it. This fails only where the region ends with
/// a part of the marker that, followed by the marker, completes it.
pub open spec fn region_delimits(current: Seq<u8>) -> bool {
    !contains_marker(before_marker(current, magic_bytes()) + magic_bytes().drop_last(), magic_bytes())
}

/// Appends `s[start..]` to `out`.
fn append_from(s: &[u8], start: usize, out: &mut Vec<u8>)
    requires
        start <= s@.len(),
    ensures
        final(out)@ == old(out)@ + s@.skip(start as int),
{
    let mut i: usize = start;
    while i < s.len()
        invariant
            start <= i <= s@.len(),
            out@ == old(out)@ + s@.subrange(start as int, i as int),
        decreases s@.len() - i,
    {
        out.push(s[i]);
        i = i + 1;
        assert(out@ =~= old(out)@ + s@.subrange(start as int, i as int));
    }
    assert(s@.subrange(start as int, i as int) =~= s@.skip(start as int));
}

/// Builds the image that carries `payload` from the image `current`: its
/// program region (every byte before its first marker), one marker, then
/// `payload`. The old payload is dropped, not kept.
pub fn build_image(current: &[u8], payload: &[u8]) -> (r: Vec<u8>)
    ensures
        r@ == stored_image(current@, payload@),
{
    let marker = get_magic_bytes();
    let mut r: Vec<u8> = Vec::new();
    crate::scanner::copy_until_seq(current, &mut r, marker.as_slice());
    append_from(marker.as_slice(), 0, &mut r);
    append_from(payload, 0, &mut r);
    assert(marker@.skip(0) =~= marker@);
    assert(payload@.skip(0) =~= payload@);
    assert(Seq::<u8>::empty() + before_marker(current@, magic_bytes()) =~= before_marker(current@, magic_bytes()));
    r
}

/// Feeds a chunk of an image to a scanner that looks for the marker, dropping
/// the bytes before it. Once the marker is found, returns the rest of the
/// chunk: the first bytes of the payload.
pub fn payload_after_marker(scanner: &mut MarkerScanner, chunk: &[u8]) -> (r: Option<Vec<u8>>)
    requires
        old(scanner).wf(),
        !old(scanner).found(),
        old(scanner).marker() == magic_bytes(),
    ensures
        final(scanner).wf(),
        final(scanner).marker() == magic_bytes(),
        final(scanner).found() == contains_marker(old(scanner).seen() + chunk@, magic_bytes()),
        final(scanner).found() == r.is_some(),
        final(scanner).found() ==> final(scanner).seen() + r.unwrap()@ == old(scanner).seen() + chunk@,
        final(scanner).found() ==> final(scanner).seen() == (old(scanner).seen() + chunk@).take(
            first_marker(old(scanner).seen() + chunk@, magic_bytes()) + MARKER_LEN,
        ),
        !final(scanner).found() ==> final(scanner).seen() == old(scanner).seen() + chunk@,
{
    proof {
        lemma_magic_bytes_len();
    }
    let mut dropped: Vec<u8> = Vec::new();
    let used = scanner.feed(chunk, &mut dropped);
    if scanner.is_found() {
        let mut rest: Vec<u8> = Vec::new();
        append_from(chunk, used, &mut rest);
        assert(scanner.seen() + rest@ =~= old(scanner).seen() + chunk@);
        Some(rest)
    } else {
        None
    }
}

/// Reading an image as a stream: once the scanner has consumed `seen`, the
/// bytes up to and including the first marker, everything after it in the
/// image is the payload, whatever the chunks were.
pub proof fn lemma_stream_payload(image: Seq<u8>, seen: Seq<u8>)
    requires
        contains_marker(image, magic_bytes()),
        seen == image.take(first_marker(image, magic_bytes()) + MARKER_LEN),
    ensures
        image_payload(image) == image.skip(seen.len() as int),
        seen + image_payload(image) == image,
{
    lemma_magic_bytes_len();
    lemma_first_marker(image, magic_bytes());
    assert(seen + image.skip(seen.len() as int) =~= image);
}

/// Reading is repeatable: two reads of one unchanged image, each of which
/// consumed the image up to its marker (in chunks of any sizes) and kept the
/// rest, yield the same bytes, and those bytes are the image's payload.
pub proof fn lemma_read_repeatable(
    image: Seq<u8>,
    seen_a: Seq<u8>,
    rest_a: Seq<u8>,
    seen_b: Seq<u8>,
    rest_b: Seq<u8>,
)
    requires
        contains_marker(image, magic_bytes()),
        seen_a == image.take(first_marker(image, magic_bytes()) + MARKER_LEN),
        seen_b == image.take(first_marker(image, magic_bytes()) + MARKER_LEN),
        seen_a + rest_a == image,
        seen_b + rest_b == image,
    ensures
        rest_a == rest_b,
        rest_a == image_payload(image),
{
    lemma_stream_payload(image, seen_a);
    assert(rest_a =~= (seen_a + rest_a).skip(seen_a.len() as int));
    assert(rest_b =~= (seen_b + rest_b).skip(seen_b.len() as int));
}

/// The payload of `image`: the bytes after its first marker, or nothing if it
/// holds none.
pub fn stored_payload(image: &[u8]) -> (r: Vec<u8>)
    ensures
        r@ == image_payload(image@),
{
    let marker = get_magic_bytes();
    proof {
        lemma_magic_bytes_len();
    }
    let mut scanner = MarkerScanner::new(marker.as_slice());
    match payload_after_marker(&mut scanner, image) {
        Some(rest) => {
            proof {
                assert(Seq::<u8>::empty() + image@ =~= image@);
                lemma_stream_payload(image@, scanner.seen());
            }
            rest
        },
        None => {
            assert(Seq::<u8>::empty() + image@ =~= image@);
            Vec::new()
        },
    }
}

/// Round trip: the image built to carry `payload` carries exactly `payload`,
/// whatever its bytes (a copy of the marker among them included), provided no
/// marker starts inside the program region once the delimiter follows it.
pub proof fn lemma_round_trip(current: Seq<u8>, payload: Seq<u8>)
    requires
        region_delimits(current),
    ensures
        image_payload(stored_image(current, payload)) == payload,
        before_marker(stored_image(current, payload), magic_bytes())
            == before_marker(current, magic_bytes()),
{
    let m = magic_bytes();
    lemma_magic_bytes_len();
    let b = before_marker(current, m);
    let img = stored_image(current, payload);
    let p = b.len() as int;
    let head = b + m.drop_last();
    assert(img.subrange(p, p + m.len()) =~= m);
    assert forall|k: int| 0 <= k < p implies !occurs_at(img, m, k) by {
        assert(img.subrange(k, k + m.len()) =~= head.subrange(k, k + m.len()));
        if occurs_at(img, m, k) {
            assert(occurs_at(head, m, k));
        }
    }
    assert(is_first_marker(img, m, p));
    lemma_first_marker_unique(img, m, p);
    assert(img.skip(p + m.len()) =~= payload);
    assert(img.take(p) =~= b);
}

} // verus!
