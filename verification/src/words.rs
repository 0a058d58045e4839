//! Byte-sequence views of frame payloads.
//!
//! Every multi-byte integer held in a frame is little-endian; these spec
//! functions give the canonical reading and writing of 32-bit words (page
//! table entries) and 64-bit words (machine-word values) inside a frame's
//! 4096-byte payload.

use vstd::prelude::*;

verus! {

/// Every byte of the sequence is zero.
pub open spec fn all_zero(s: Seq<u8>) -> bool {
    forall|i: int| 0 <= i < s.len() ==> s[i] == 0
}

/// The start of the naturally aligned slot of width `sz` containing `i`.
pub open spec fn align_down(i: int, sz: int) -> int {
    i - i % sz
}

/// A 32-bit word assembled from four little-endian bytes.
pub open spec fn le_bytes_to_u32(b0: u8, b1: u8, b2: u8, b3: u8) -> u32 {
    (b0 as u32) | ((b1 as u32) << 8u32) | ((b2 as u32) << 16u32) | ((b3 as u32) << 24u32)
}

/// The four little-endian bytes of a 32-bit word.
pub open spec fn le_bytes_of_u32(v: u32) -> Seq<u8> {
    seq![
        ((v >> 0u32) & 0xFF) as u8,
        ((v >> 8u32) & 0xFF) as u8,
        ((v >> 16u32) & 0xFF) as u8,
        ((v >> 24u32) & 0xFF) as u8,
    ]
}

/// The 32-bit word stored at word index `w` of a payload.
pub open spec fn word_at(d: Seq<u8>, w: int) -> u32 {
    le_bytes_to_u32(d[4 * w], d[4 * w + 1], d[4 * w + 2], d[4 * w + 3])
}

/// The payload after storing word `v` at word index `w`.
pub open spec fn store_word(d: Seq<u8>, w: int, v: u32) -> Seq<u8> {
    Seq::new(d.len(), |k: int|
        if 4 * w <= k < 4 * w + 4 {
            le_bytes_of_u32(v)[k - 4 * w]
        } else {
            d[k]
        })
}

/// A 64-bit word assembled from eight little-endian bytes.
pub open spec fn le_bytes_to_u64(
    b0: u8, b1: u8, b2: u8, b3: u8, b4: u8, b5: u8, b6: u8, b7: u8,
) -> u64 {
    (b0 as u64) | ((b1 as u64) << 8u64) | ((b2 as u64) << 16u64) | ((b3 as u64) << 24u64)
        | ((b4 as u64) << 32u64) | ((b5 as u64) << 40u64) | ((b6 as u64) << 48u64)
        | ((b7 as u64) << 56u64)
}

/// The eight little-endian bytes of a 64-bit word.
pub open spec fn le_bytes_of_u64(v: u64) -> Seq<u8> {
    seq![
        ((v >> 0u64) & 0xFF) as u8,
        ((v >> 8u64) & 0xFF) as u8,
        ((v >> 16u64) & 0xFF) as u8,
        ((v >> 24u64) & 0xFF) as u8,
        ((v >> 32u64) & 0xFF) as u8,
        ((v >> 40u64) & 0xFF) as u8,
        ((v >> 48u64) & 0xFF) as u8,
        ((v >> 56u64) & 0xFF) as u8,
    ]
}

/// The 64-bit word stored at byte offset `s` of a payload.
pub open spec fn qword_at(d: Seq<u8>, s: int) -> u64 {
    le_bytes_to_u64(
        d[s], d[s + 1], d[s + 2], d[s + 3], d[s + 4], d[s + 5], d[s + 6], d[s + 7],
    )
}

/// The payload after storing the 64-bit word `v` at byte offset `s`.
pub open spec fn store_qword(d: Seq<u8>, s: int, v: u64) -> Seq<u8> {
    Seq::new(d.len(), |k: int|
        if s <= k < s + 8 {
            le_bytes_of_u64(v)[k - s]
        } else {
            d[k]
        })
}

/// Reassembling the little-endian bytes of a 32-bit word gives it back.
pub proof fn lemma_u32_le_round_trip(v: u32)
    ensures
        le_bytes_to_u32(
            ((v >> 0u32) & 0xFF) as u8,
            ((v >> 8u32) & 0xFF) as u8,
            ((v >> 16u32) & 0xFF) as u8,
            ((v >> 24u32) & 0xFF) as u8,
        ) == v,
{
    assert(((((v >> 0u32) & 0xFF) as u8) as u32)
        | (((((v >> 8u32) & 0xFF) as u8) as u32) << 8u32)
        | (((((v >> 16u32) & 0xFF) as u8) as u32) << 16u32)
        | (((((v >> 24u32) & 0xFF) as u8) as u32) << 24u32) == v) by (bit_vector);
}

/// Reassembling the little-endian bytes of a 64-bit word gives it back.
pub proof fn lemma_u64_le_round_trip(v: u64)
    ensures
        le_bytes_to_u64(
            ((v >> 0u64) & 0xFF) as u8,
            ((v >> 8u64) & 0xFF) as u8,
            ((v >> 16u64) & 0xFF) as u8,
            ((v >> 24u64) & 0xFF) as u8,
            ((v >> 32u64) & 0xFF) as u8,
            ((v >> 40u64) & 0xFF) as u8,
            ((v >> 48u64) & 0xFF) as u8,
            ((v >> 56u64) & 0xFF) as u8,
        ) == v,
{
    assert(((((v >> 0u64) & 0xFF) as u8) as u64)
        | (((((v >> 8u64) & 0xFF) as u8) as u64) << 8u64)
        | (((((v >> 16u64) & 0xFF) as u8) as u64) << 16u64)
        | (((((v >> 24u64) & 0xFF) as u8) as u64) << 24u64)
        | (((((v >> 32u64) & 0xFF) as u8) as u64) << 32u64)
        | (((((v >> 40u64) & 0xFF) as u8) as u64) << 40u64)
        | (((((v >> 48u64) & 0xFF) as u8) as u64) << 48u64)
        | (((((v >> 56u64) & 0xFF) as u8) as u64) << 56u64) == v) by (bit_vector);
}

/// A word of zero bytes is the zero word.
pub proof fn lemma_zero_word()
    ensures
        le_bytes_to_u32(0, 0, 0, 0) == 0,
        le_bytes_to_u64(0, 0, 0, 0, 0, 0, 0, 0) == 0,
{
    assert((0u32 | (0u32 << 8u32) | (0u32 << 16u32) | (0u32 << 24u32)) == 0u32)
        by (bit_vector);
    assert((0u64 | (0u64 << 8u64) | (0u64 << 16u64) | (0u64 << 24u64) | (0u64 << 32u64)
        | (0u64 << 40u64) | (0u64 << 48u64) | (0u64 << 56u64)) == 0u64) by (bit_vector);
}

/// Every word of an all-zero payload is zero.
pub proof fn lemma_word_at_zero(d: Seq<u8>, j: int)
    requires
        all_zero(d),
        0 <= j,
        4 * j + 4 <= d.len(),
    ensures
        word_at(d, j) == 0,
{
    lemma_zero_word();
}

/// Storing a 32-bit word updates exactly its own word slot.
pub proof fn lemma_store_word(d: Seq<u8>, w: int, v: u32)
    requires
        0 <= w,
        4 * w + 4 <= d.len(),
    ensures
        store_word(d, w, v).len() == d.len(),
        word_at(store_word(d, w, v), w) == v,
        forall|j: int|
            0 <= j && 4 * j + 4 <= d.len() && j != w
                ==> word_at(#[trigger] store_word(d, w, v), j) == word_at(d, j),
        forall|k: int| 0 <= k < d.len() && !(4 * w <= k < 4 * w + 4)
            ==> store_word(d, w, v)[k] == d[k],
{
    lemma_u32_le_round_trip(v);
}

/// Storing a 64-bit word updates exactly the eight bytes of its slot.
pub proof fn lemma_store_qword(d: Seq<u8>, s: int, v: u64)
    requires
        0 <= s,
        s + 8 <= d.len(),
    ensures
        store_qword(d, s, v).len() == d.len(),
        qword_at(store_qword(d, s, v), s) == v,
        forall|k: int| 0 <= k < d.len() && !(s <= k < s + 8)
            ==> store_qword(d, s, v)[k] == d[k],
{
    lemma_u64_le_round_trip(v);
}

/// Aligning down stays within a payload whose length `sz` divides.
#[verifier::rlimit(100)]
pub proof fn lemma_align_down(i: int, sz: int, n: int)
    requires
        0 <= i < n,
        1 <= sz,
        n % sz == 0,
    ensures
        0 <= align_down(i, sz) <= i,
        align_down(i, sz) % sz == 0,
        align_down(i, sz) + sz <= n,
{
    assert(0 <= align_down(i, sz) <= i && align_down(i, sz) % sz == 0)
        by (nonlinear_arith)
        requires
            0 <= i < n,
            1 <= sz,
    ;
    assert(align_down(i, sz) + sz <= n) by (nonlinear_arith)
        requires
            0 <= i < n,
            1 <= sz,
            n % sz == 0,
    ;
}

} // verus!
