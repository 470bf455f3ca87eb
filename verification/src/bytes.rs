//! 32-bit numbers and runs of bytes in a byte buffer.

use vstd::prelude::*;

verus! {

/// The four bytes of `v`, least significant first.
pub open spec fn le_bytes(v: u32) -> Seq<u8> {
    seq![
        (v % 256) as u8,
        ((v / 256) % 256) as u8,
        ((v / 65536) % 256) as u8,
        (v / 16777216) as u8,
    ]
}

/// The number whose four bytes, least significant first, start at `at`.
pub open spec fn le_value(bytes: Seq<u8>, at: int) -> u32 {
    (bytes[at] + 256 * bytes[at + 1] + 65536 * bytes[at + 2] + 16777216 * bytes[at + 3]) as u32
}

/// `bytes` with `piece` written over it from `at` on.
pub open spec fn splice(bytes: Seq<u8>, at: int, piece: Seq<u8>) -> Seq<u8> {
    Seq::new(
        bytes.len(),
        |i: int|
            if at <= i < at + piece.len() {
                piece[i - at]
            } else {
                bytes[i]
            },
    )
}

/// Reading back a number from where its bytes were written gives the number.
pub proof fn lemma_le_value_of_splice(bytes: Seq<u8>, at: int, v: u32)
    requires
        0 <= at,
        at + 4 <= bytes.len(),
    ensures
        le_value(splice(bytes, at, le_bytes(v)), at) == v,
{
    let out = splice(bytes, at, le_bytes(v));
    assert(out[at] == le_bytes(v)[0]);
    assert(out[at + 1] == le_bytes(v)[1]);
    assert(out[at + 2] == le_bytes(v)[2]);
    assert(out[at + 3] == le_bytes(v)[3]);
}

/// A number read at `at` depends on the four bytes from `at` alone.
pub proof fn lemma_le_value_frame(a: Seq<u8>, b: Seq<u8>, at: int)
    requires
        0 <= at,
        at + 4 <= a.len(),
        at + 4 <= b.len(),
        forall|i: int| at <= i < at + 4 ==> a[i] == b[i],
    ensures
        le_value(a, at) == le_value(b, at),
{
}

/// The number stored in the four bytes from `at`, least significant first.
pub fn read_u32(data: &[u8], at: usize) -> (v: u32)
    requires
        at + 4 <= data.len(),
    ensures
        v == le_value(data@, at as int),
{
    let b0: u32 = data[at] as u32;
    let b1: u32 = data[at + 1] as u32;
    let b2: u32 = data[at + 2] as u32;
    let b3: u32 = data[at + 3] as u32;
    b0 + 256 * b1 + 65536 * b2 + 16777216 * b3
}

/// Stores `v` in the four bytes from `at`, least significant first.
pub fn write_u32(data: &mut Vec<u8>, at: usize, v: u32)
    requires
        at + 4 <= old(data).len(),
    ensures
        final(data)@ == splice(old(data)@, at as int, le_bytes(v)),
{
    data[at] = (v % 256) as u8;
    data[at + 1] = ((v / 256) % 256) as u8;
    data[at + 2] = ((v / 65536) % 256) as u8;
    data[at + 3] = (v / 16777216) as u8;
    assert(data@ =~= splice(old(data)@, at as int, le_bytes(v)));
}

/// Writes `piece` over `data` from `at` on.
pub fn write_bytes(data: &mut Vec<u8>, at: usize, piece: &[u8])
    requires
        at + piece.len() <= old(data).len(),
    ensures
        final(data)@ == splice(old(data)@, at as int, piece@),
{
    let mut i: usize = 0;
    while i < piece.len()
        invariant
            i <= piece.len(),
            data.len() == old(data).len(),
            at + piece.len() <= data.len(),
            data@ == splice(old(data)@, at as int, piece@.subrange(0, i as int)),
        decreases piece.len() - i,
    {
        data[at + i] = piece[i];
        i += 1;
        assert(data@ =~= splice(old(data)@, at as int, piece@.subrange(0, i as int)));
    }
    assert(piece@.subrange(0, i as int) =~= piece@);
}

/// A copy of the `len` bytes of `data` from `at` on.
pub fn copy_bytes(data: &[u8], at: usize, len: usize) -> (out: Vec<u8>)
    requires
        at + len <= data.len(),
    ensures
        out@ == data@.subrange(at as int, at + len),
{
    let mut out: Vec<u8> = Vec::new();
    let mut i: usize = 0;
    while i < len
        invariant
            i <= len,
            at + len <= data.len(),
            out@ == data@.subrange(at as int, at + i),
        decreases len - i,
    {
        out.push(data[at + i]);
        i += 1;
        assert(out@ =~= data@.subrange(at as int, at + i));
    }
    out
}

} // verus!
