//! The marker that separates the program region of an image from its payload.
use vstd::prelude::*;

verus! {

/// Length of the marker in bytes.
pub const MARKER_LEN: usize = 24;

/// The marker as it is kept in the program: byte-reversed, so that the marker
/// itself never appears verbatim in the compiled program text.
pub open spec fn magic_bytes_rev() -> Seq<u8> {
    seq![
        45u8, 45u8, 45u8, 101u8, 103u8, 97u8, 114u8, 111u8, 116u8, 115u8, 45u8, 102u8,
        108u8, 101u8, 115u8, 45u8, 110u8, 105u8, 103u8, 101u8, 98u8, 45u8, 45u8, 45u8,
    ]
}

/// The marker: the reversal of what the program keeps.
pub open spec fn magic_bytes() -> Seq<u8> {
    magic_bytes_rev().reverse()
}

/// The marker has its fixed length.
pub proof fn lemma_magic_bytes_len()
    ensures
        magic_bytes().len() == MARKER_LEN,
{
    assert(magic_bytes_rev().len() == 24);
}

/// Rebuilds the marker from its reversed form.
pub fn get_magic_bytes() -> (r: Vec<u8>)
    ensures
        r@ == magic_bytes(),
        r@.len() == MARKER_LEN,
{
    let rev: [u8; 24] = [
        45u8, 45u8, 45u8, 101u8, 103u8, 97u8, 114u8, 111u8, 116u8, 115u8, 45u8, 102u8,
        108u8, 101u8, 115u8, 45u8, 110u8, 105u8, 103u8, 101u8, 98u8, 45u8, 45u8, 45u8,
    ];
    assert(rev@ == magic_bytes_rev());
    let mut r: Vec<u8> = Vec::with_capacity(MARKER_LEN);
    let mut i: usize = MARKER_LEN;
    while i > 0
        invariant
            i <= MARKER_LEN,
            rev@ == magic_bytes_rev(),
            r@.len() == MARKER_LEN - i,
            forall|k: int| 0 <= k < r@.len() ==> r@[k] == rev@[MARKER_LEN - 1 - k],
        decreases i,
    {
        i = i - 1;
        r.push(rev[i]);
    }
    assert(r@ =~= magic_bytes());
    r
}

} // verus!
