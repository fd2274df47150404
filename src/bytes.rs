//! Little-endian integers and NUL-terminated strings in a byte sequence.
use vstd::prelude::*;

verus! {

/// The unsigned integer that four bytes starting at `p` encode, least
/// significant byte first.
pub open spec fn le_u32_at(b: Seq<u8>, p: int) -> nat {
    (b[p] as nat) + 256 * (b[p + 1] as nat) + 65536 * (b[p + 2] as nat) + 16777216 * (
    b[p + 3] as nat)
}

/// Decodes the little-endian `u32` stored at `data[pos..pos + 4]`.
pub fn read_u32_le(data: &[u8], pos: usize) -> (r: u32)
    requires
        pos + 4 <= data@.len(),
    ensures
        r as nat == le_u32_at(data@, pos as int),
{
    let b0 = data[pos] as u32;
    let b1 = data[pos + 1] as u32;
    let b2 = data[pos + 2] as u32;
    let b3 = data[pos + 3] as u32;
    assert(b0 + 256 * b1 + 65536 * b2 + 16777216 * b3 <= u32::MAX) by (nonlinear_arith)
        requires
            b0 < 256,
            b1 < 256,
            b2 < 256,
            b3 < 256,
    ;
    b0 + 256 * b1 + 65536 * b2 + 16777216 * b3
}

/// Index of the first NUL byte at or after `p`, or the length of `b` when
/// there is none.
pub open spec fn nul_index(b: Seq<u8>, p: int) -> int
    decreases b.len() - p,
{
    if p >= b.len() {
        b.len() as int
    } else if b[p] == 0 {
        p
    } else {
        nul_index(b, p + 1)
    }
}

/// Where reading resumes after a NUL-terminated string that starts at `p`:
/// just past the terminator, or the end when there is none.
pub open spec fn after_cstring(b: Seq<u8>, p: int) -> int {
    if nul_index(b, p) < b.len() {
        nul_index(b, p) + 1
    } else {
        b.len() as int
    }
}

/// The text that lossy UTF-8 decoding makes of some bytes.
pub uninterp spec fn utf8_lossy(b: Seq<u8>) -> Seq<char>;

/// Relies on `String::from_utf8_lossy`: its result is a function of the
/// bytes alone, and no bytes decode to no text.
#[verifier::external_body]
fn decode_lossy(b: &[u8]) -> (r: String)
    ensures
        r@ == utf8_lossy(b@),
        b@.len() == 0 ==> r@.len() == 0,
{
    String::from_utf8_lossy(b).into_owned()
}

/// The NUL found from `p` on lies between `p` and the end, and no byte
/// before it is NUL.
pub proof fn lemma_nul_index_bounds(b: Seq<u8>, p: int)
    requires
        0 <= p <= b.len(),
    ensures
        p <= nul_index(b, p) <= b.len(),
        nul_index(b, p) < b.len() ==> b[nul_index(b, p)] == 0,
        forall|i: int| p <= i < nul_index(b, p) ==> b[i] != 0,
    decreases b.len() - p,
{
    if p < b.len() && b[p] != 0 {
        lemma_nul_index_bounds(b, p + 1);
    }
}

/// Reads the NUL-terminated string that starts at `pos`. The terminator is
/// dropped and the bytes before it are decoded as UTF-8, invalid sequences
/// replaced; where no NUL follows, every remaining byte is taken. Returns
/// the text and the position just past what was consumed.
pub fn read_cstring(data: &[u8], pos: usize) -> (r: (String, usize))
    requires
        pos <= data@.len(),
    ensures
        r.0@ == utf8_lossy(data@.subrange(pos as int, nul_index(data@, pos as int))),
        r.1 as int == after_cstring(data@, pos as int),
        (forall|i: int| pos <= i < data@.len() ==> data@[i] != 0) ==> {
            &&& r.0@ == utf8_lossy(data@.subrange(pos as int, data@.len() as int))
            &&& r.1 == data@.len()
        },
{
    proof {
        lemma_nul_index_bounds(data@, pos as int);
    }
    let mut end: usize = pos;
    while end < data.len() && data[end] != 0
        invariant
            pos <= end <= data@.len(),
            nul_index(data@, end as int) == nul_index(data@, pos as int),
        decreases data@.len() - end,
    {
        end = end + 1;
    }
    let name = decode_lossy(vstd::slice::slice_subrange(data, pos, end));
    if end < data.len() {
        (name, end + 1)
    } else {
        (name, end)
    }
}

} // verus!
