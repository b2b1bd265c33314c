//! Facts about single bits and bit fields, shared by the modules that pack
//! state into machine words.
use vstd::prelude::*;

verus! {

/// Whether bit `i` of `w` is set.
pub open spec fn bit(w: u64, i: int) -> bool {
    w & (1u64 << (i as u64)) != 0
}

pub proof fn lemma_set_bit(w: u64, i: u64, j: u64)
    by (bit_vector)
    requires
        i < 64,
        j < 64,
    ensures
        ((w | (1u64 << i)) & (1u64 << j) != 0) == (i == j || w & (1u64 << j) != 0),
{
}

pub proof fn lemma_clear_bit(w: u64, i: u64, j: u64)
    by (bit_vector)
    requires
        i < 64,
        j < 64,
    ensures
        ((w & !(1u64 << i)) & (1u64 << j) != 0) == (i != j && w & (1u64 << j) != 0),
{
}

pub proof fn lemma_all_ones(j: u64)
    by (bit_vector)
    requires
        j < 64,
    ensures
        0xFFFF_FFFF_FFFF_FFFFu64 & (1u64 << j) != 0,
{
}

/// Byte `k` of `w`, counting from the least significant one.
pub open spec fn byte_of(w: u64, k: u64) -> u8 {
    ((w >> (8 * k) as u64) & 0xFF) as u8
}

/// `w` with byte `k` replaced by `b`.
pub open spec fn with_byte(w: u64, k: u64, b: u8) -> u64 {
    (w & !(0xFFu64 << (8 * k) as u64)) | ((b as u64) << (8 * k) as u64)
}

pub proof fn lemma_with_byte(w: u64, k: u64, b: u8, j: u64)
    by (bit_vector)
    requires
        k < 8,
        j < 8,
    ensures
        byte_of(with_byte(w, k, b), j) == if j == k {
            b
        } else {
            byte_of(w, j)
        },
{
}

pub proof fn lemma_zero_byte(k: u64)
    by (bit_vector)
    requires
        k < 8,
    ensures
        byte_of(0, k) == 0,
{
}

/// The word with these bytes, least significant first.
pub open spec fn word_of(b0: u8, b1: u8, b2: u8, b3: u8, b4: u8, b5: u8, b6: u8, b7: u8) -> u64 {
    (b0 as u64) | ((b1 as u64) << 8) | ((b2 as u64) << 16) | ((b3 as u64) << 24) | ((b4 as u64)
        << 32) | ((b5 as u64) << 40) | ((b6 as u64) << 48) | ((b7 as u64) << 56)
}

pub proof fn lemma_word_bytes(w: u64)
    by (bit_vector)
    ensures
        word_of(
            byte_of(w, 0),
            byte_of(w, 1),
            byte_of(w, 2),
            byte_of(w, 3),
            byte_of(w, 4),
            byte_of(w, 5),
            byte_of(w, 6),
            byte_of(w, 7),
        ) == w,
{
}

pub proof fn lemma_bytes_word(b0: u8, b1: u8, b2: u8, b3: u8, b4: u8, b5: u8, b6: u8, b7: u8)
    by (bit_vector)
    ensures
        byte_of(word_of(b0, b1, b2, b3, b4, b5, b6, b7), 0) == b0,
        byte_of(word_of(b0, b1, b2, b3, b4, b5, b6, b7), 1) == b1,
        byte_of(word_of(b0, b1, b2, b3, b4, b5, b6, b7), 2) == b2,
        byte_of(word_of(b0, b1, b2, b3, b4, b5, b6, b7), 3) == b3,
        byte_of(word_of(b0, b1, b2, b3, b4, b5, b6, b7), 4) == b4,
        byte_of(word_of(b0, b1, b2, b3, b4, b5, b6, b7), 5) == b5,
        byte_of(word_of(b0, b1, b2, b3, b4, b5, b6, b7), 6) == b6,
        byte_of(word_of(b0, b1, b2, b3, b4, b5, b6, b7), 7) == b7,
{
}

pub proof fn lemma_word_sum(w: u64)
    by (bit_vector)
    ensures
        w == byte_of(w, 0) + 0x100 * byte_of(w, 1) + 0x1_0000 * byte_of(w, 2) + 0x100_0000
            * byte_of(w, 3) + 0x1_0000_0000 * byte_of(w, 4) + 0x100_0000_0000 * byte_of(w, 5)
            + 0x1_0000_0000_0000 * byte_of(w, 6) + 0x100_0000_0000_0000 * byte_of(w, 7),
{
}

} // verus!
