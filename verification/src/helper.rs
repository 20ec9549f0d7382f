//! Helper functions: the diffusion primitive and little-endian reads.
use vstd::prelude::*;

verus! {

/// The odd multiplier of the diffusion function.
pub const DIFFUSE_MUL: u64 = 0x6eed0e9da4d94a4f;

/// The multiplicative inverse of `DIFFUSE_MUL` modulo 2^64.
pub const UNDIFFUSE_MUL: u64 = 0x2f72b4215a3d8caf;

/// The middle step of the diffusion: the upper half of `x`, shifted right by
/// the amount that the top four bits of `x` hold, is folded into the lower
/// half. The upper half is left as it is, so the step undoes itself.
pub open spec fn spec_fold_shift(x: u64) -> u64 {
    x ^ ((x >> 32) >> (x >> 60))
}

/// The diffusion function as a mathematical function on 64-bit words.
#[verifier::opaque]
pub open spec fn spec_diffuse(x: u64) -> u64 {
    spec_fold_shift(x.wrapping_mul(DIFFUSE_MUL)).wrapping_mul(DIFFUSE_MUL)
}

/// The inverse of the diffusion function.
#[verifier::opaque]
pub open spec fn spec_undiffuse(x: u64) -> u64 {
    spec_fold_shift(x.wrapping_mul(UNDIFFUSE_MUL)).wrapping_mul(UNDIFFUSE_MUL)
}

/// The fold step is its own inverse.
pub proof fn lemma_fold_shift_involutive(x: u64)
    ensures
        spec_fold_shift(spec_fold_shift(x)) == x,
{
    assert(spec_fold_shift(spec_fold_shift(x)) == x) by (bit_vector);
}

/// Multiplying by one of the two constants and then by the other gives the
/// word back.
pub proof fn lemma_mul_inverse(x: u64)
    ensures
        x.wrapping_mul(DIFFUSE_MUL).wrapping_mul(UNDIFFUSE_MUL) == x,
        x.wrapping_mul(UNDIFFUSE_MUL).wrapping_mul(DIFFUSE_MUL) == x,
{
    assert(x.wrapping_mul(DIFFUSE_MUL).wrapping_mul(UNDIFFUSE_MUL) == x) by (bit_vector);
    assert(x.wrapping_mul(UNDIFFUSE_MUL).wrapping_mul(DIFFUSE_MUL) == x) by (bit_vector);
}

/// `spec_diffuse` and `spec_undiffuse` are inverse to each other on every
/// 64-bit word.
pub proof fn lemma_diffuse_undiffuse(x: u64)
    ensures
        spec_undiffuse(spec_diffuse(x)) == x,
        spec_diffuse(spec_undiffuse(x)) == x,
{
    reveal(spec_diffuse);
    reveal(spec_undiffuse);
    let d: u64 = spec_fold_shift(x.wrapping_mul(DIFFUSE_MUL));
    lemma_mul_inverse(d);
    lemma_fold_shift_involutive(x.wrapping_mul(DIFFUSE_MUL));
    lemma_mul_inverse(x);
    let u: u64 = spec_fold_shift(x.wrapping_mul(UNDIFFUSE_MUL));
    lemma_mul_inverse(u);
    lemma_fold_shift_involutive(x.wrapping_mul(UNDIFFUSE_MUL));
}

/// The diffusion function is injective: two words with the same image are
/// the same word.
pub proof fn lemma_diffuse_injective(x: u64, y: u64)
    requires
        spec_diffuse(x) == spec_diffuse(y),
    ensures
        x == y,
{
    lemma_diffuse_undiffuse(x);
    lemma_diffuse_undiffuse(y);
}

/// The diffusion function on four fixed words: it leaves zero where it
/// is, and scatters small numbers over the whole word.
pub proof fn lemma_diffuse_fixed_words()
    ensures
        spec_diffuse(0) == 0,
        spec_diffuse(1) == 15197155197312260123,
        spec_diffuse(2) == 1571904453004118546,
        spec_diffuse(94203824938) == 17289265692384716055,
{
    reveal(spec_diffuse);
    assert(spec_fold_shift(0u64.wrapping_mul(DIFFUSE_MUL)).wrapping_mul(DIFFUSE_MUL) == 0)
        by (bit_vector);
    assert(spec_fold_shift(1u64.wrapping_mul(DIFFUSE_MUL)).wrapping_mul(DIFFUSE_MUL)
        == 15197155197312260123) by (bit_vector);
    assert(spec_fold_shift(2u64.wrapping_mul(DIFFUSE_MUL)).wrapping_mul(DIFFUSE_MUL)
        == 1571904453004118546) by (bit_vector);
    assert(spec_fold_shift(94203824938u64.wrapping_mul(DIFFUSE_MUL)).wrapping_mul(DIFFUSE_MUL)
        == 17289265692384716055) by (bit_vector);
}

/// The diffusion function: a bijection on 64-bit words under which a small
/// change of the input changes many bits of the result.
pub fn diffuse(x: u64) -> (r: u64)
    ensures
        r == spec_diffuse(x),
        spec_undiffuse(r) == x,
{
    let y: u64 = x.wrapping_mul(DIFFUSE_MUL);
    let a: u64 = y >> 32;
    let b: u64 = y >> 60;
    assert(b < 64) by (bit_vector)
        requires
            b == y >> 60,
    ;
    let z: u64 = y ^ (a >> b);
    proof {
        reveal(spec_diffuse);
        lemma_diffuse_undiffuse(x);
    }
    z.wrapping_mul(DIFFUSE_MUL)
}

/// The inverse of `diffuse`.
pub fn undiffuse(x: u64) -> (r: u64)
    ensures
        r == spec_undiffuse(x),
        spec_diffuse(r) == x,
{
    let y: u64 = x.wrapping_mul(UNDIFFUSE_MUL);
    let a: u64 = y >> 32;
    let b: u64 = y >> 60;
    assert(b < 64) by (bit_vector)
        requires
            b == y >> 60,
    ;
    let z: u64 = y ^ (a >> b);
    proof {
        reveal(spec_undiffuse);
        lemma_diffuse_undiffuse(x);
    }
    z.wrapping_mul(UNDIFFUSE_MUL)
}

/// The number that a byte sequence stands for when it is read in
/// little-endian order: the byte at index `i` has the weight `256^i`.
pub open spec fn spec_le_value(s: Seq<u8>) -> nat
    decreases s.len(),
{
    if s.len() == 0 {
        0
    } else {
        s[0] as nat + 256 * spec_le_value(s.drop_first())
    }
}

/// The little-endian value of at most eight bytes, written out byte by byte.
pub open spec fn spec_le_sum(s: Seq<u8>) -> nat {
    (if s.len() > 0 { s[0] as nat } else { 0 })
    + (if s.len() > 1 { s[1] as nat * 0x100 } else { 0 })
    + (if s.len() > 2 { s[2] as nat * 0x1_0000 } else { 0 })
    + (if s.len() > 3 { s[3] as nat * 0x100_0000 } else { 0 })
    + (if s.len() > 4 { s[4] as nat * 0x1_0000_0000 } else { 0 })
    + (if s.len() > 5 { s[5] as nat * 0x100_0000_0000 } else { 0 })
    + (if s.len() > 6 { s[6] as nat * 0x1_0000_0000_0000 } else { 0 })
    + (if s.len() > 7 { s[7] as nat * 0x100_0000_0000_0000 } else { 0 })
}

/// For at most eight bytes the recursive value is the written-out sum, and
/// it fits in a 64-bit word.
pub proof fn lemma_le_value_is_sum(s: Seq<u8>)
    requires
        s.len() <= 8,
    ensures
        spec_le_value(s) == spec_le_sum(s),
        spec_le_value(s) <= u64::MAX,
        s.len() < 8 ==> spec_le_value(s) < 0x100_0000_0000_0000,
{
    reveal_with_fuel(spec_le_value, 10);
}

/// Zero bytes behind a sequence do not change its little-endian value.
pub proof fn lemma_le_value_zero_padded(s: Seq<u8>, n: nat)
    ensures
        spec_le_value(s + Seq::new(n, |i: int| 0u8)) == spec_le_value(s),
    decreases s.len(), n,
{
    let zeros = Seq::new(n, |i: int| 0u8);
    if s.len() > 0 {
        assert((s + zeros).drop_first() =~= s.drop_first() + zeros);
        lemma_le_value_zero_padded(s.drop_first(), n);
    } else if n > 0 {
        let fewer = Seq::new((n - 1) as nat, |i: int| 0u8);
        assert((s + zeros).drop_first() =~= s + fewer);
        lemma_le_value_zero_padded(s, (n - 1) as nat);
    } else {
        assert(s + zeros =~= s);
    }
}

/// The byte of a 64-bit word at index `i`, counted from the low end.
pub open spec fn spec_byte_of(x: u64, i: u64) -> u8 {
    ((x >> (8 * i)) & 0xff) as u8
}

/// The word whose bytes, from the low end, are `b0` to `b7`.
pub open spec fn spec_word_of(b0: u8, b1: u8, b2: u8, b3: u8, b4: u8, b5: u8, b6: u8, b7: u8) -> u64 {
    (b0 as u64) | (b1 as u64) << 8 | (b2 as u64) << 16 | (b3 as u64) << 24 | (b4 as u64) << 32 | (
    b5 as u64) << 40 | (b6 as u64) << 48 | (b7 as u64) << 56
}

/// The word made of eight bytes is the sum of their weighted values, and
/// its bytes are those eight.
proof fn lemma_word_of(b0: u8, b1: u8, b2: u8, b3: u8, b4: u8, b5: u8, b6: u8, b7: u8)
    ensures
        spec_word_of(b0, b1, b2, b3, b4, b5, b6, b7) == b0 as nat + b1 as nat * 0x100 + b2 as nat
            * 0x1_0000 + b3 as nat * 0x100_0000 + b4 as nat * 0x1_0000_0000 + b5 as nat
            * 0x100_0000_0000 + b6 as nat * 0x1_0000_0000_0000 + b7 as nat
            * 0x100_0000_0000_0000,
        spec_byte_of(spec_word_of(b0, b1, b2, b3, b4, b5, b6, b7), 0) == b0,
        spec_byte_of(spec_word_of(b0, b1, b2, b3, b4, b5, b6, b7), 1) == b1,
        spec_byte_of(spec_word_of(b0, b1, b2, b3, b4, b5, b6, b7), 2) == b2,
        spec_byte_of(spec_word_of(b0, b1, b2, b3, b4, b5, b6, b7), 3) == b3,
        spec_byte_of(spec_word_of(b0, b1, b2, b3, b4, b5, b6, b7), 4) == b4,
        spec_byte_of(spec_word_of(b0, b1, b2, b3, b4, b5, b6, b7), 5) == b5,
        spec_byte_of(spec_word_of(b0, b1, b2, b3, b4, b5, b6, b7), 6) == b6,
        spec_byte_of(spec_word_of(b0, b1, b2, b3, b4, b5, b6, b7), 7) == b7,
{
    let w = spec_word_of(b0, b1, b2, b3, b4, b5, b6, b7);
    assert(w == b0 as u64 + (b1 as u64) * 0x100 + (b2 as u64) * 0x1_0000 + (b3 as u64)
        * 0x100_0000 + (b4 as u64) * 0x1_0000_0000 + (b5 as u64) * 0x100_0000_0000 + (b6 as u64)
        * 0x1_0000_0000_0000 + (b7 as u64) * 0x100_0000_0000_0000) by (bit_vector)
        requires
            w == spec_word_of(b0, b1, b2, b3, b4, b5, b6, b7),
    ;
    assert(spec_byte_of(w, 0) == b0 && spec_byte_of(w, 1) == b1 && spec_byte_of(w, 2) == b2
        && spec_byte_of(w, 3) == b3 && spec_byte_of(w, 4) == b4 && spec_byte_of(w, 5) == b5
        && spec_byte_of(w, 6) == b6 && spec_byte_of(w, 7) == b7) by (bit_vector)
        requires
            w == spec_word_of(b0, b1, b2, b3, b4, b5, b6, b7),
    ;
}

/// The byte of `s` at index `i`, and zero behind its end.
pub open spec fn spec_byte_at(s: Seq<u8>, i: int) -> u8 {
    if 0 <= i < s.len() {
        s[i]
    } else {
        0
    }
}

/// The little-endian value of at most eight bytes holds the byte at index
/// `i` in its bits `8 * i` to `8 * i + 7`, and zero bits above the last byte.
pub proof fn lemma_le_value_bytes(s: Seq<u8>, i: u64)
    requires
        s.len() <= 8,
        i < 8,
    ensures
        spec_le_value(s) <= u64::MAX,
        spec_byte_of(spec_le_value(s) as u64, i) == spec_byte_at(s, i as int),
{
    lemma_le_value_is_sum(s);
    lemma_word_of(
        spec_byte_at(s, 0),
        spec_byte_at(s, 1),
        spec_byte_at(s, 2),
        spec_byte_at(s, 3),
        spec_byte_at(s, 4),
        spec_byte_at(s, 5),
        spec_byte_at(s, 6),
        spec_byte_at(s, 7),
    );
}

/// Two bytes joined with `|` and a shift are the sum of their weighted values.
proof fn lemma_join_bytes(lo: u8, hi: u8)
    ensures
        (lo as u64) | ((hi as u64) << 8) == lo as u64 + (hi as u64) * 0x100,
{
    assert((lo as u64) | ((hi as u64) << 8) == lo as u64 + (hi as u64) * 0x100) by (bit_vector);
}

/// Two 16-bit halves joined with `|` and a shift are the sum of their
/// weighted values.
proof fn lemma_join_halves(lo: u64, hi: u64)
    requires
        lo < 0x1_0000,
        hi < 0x1_0000,
    ensures
        lo | (hi << 16) == lo + hi * 0x1_0000,
{
    assert(lo | (hi << 16) == lo + hi * 0x1_0000) by (bit_vector)
        requires
            lo < 0x1_0000,
            hi < 0x1_0000,
    ;
}

/// Two 32-bit halves joined with `|` and a shift are the sum of their
/// weighted values.
proof fn lemma_join_at_32(lo: u64, hi: u64)
    requires
        lo < 0x1_0000_0000,
        hi < 0x1_0000_0000,
    ensures
        lo | (hi << 32) == lo + hi * 0x1_0000_0000,
{
    assert(lo | (hi << 32) == lo + hi * 0x1_0000_0000) by (bit_vector)
        requires
            lo < 0x1_0000_0000,
            hi < 0x1_0000_0000,
    ;
}

/// Six bytes and a seventh joined with `|` and a shift are the sum of their
/// weighted values.
proof fn lemma_join_at_48(lo: u64, hi: u64)
    requires
        lo < 0x1_0000_0000_0000,
        hi < 0x100,
    ensures
        lo | (hi << 48) == lo + hi * 0x1_0000_0000_0000,
{
    assert(lo | (hi << 48) == lo + hi * 0x1_0000_0000_0000) by (bit_vector)
        requires
            lo < 0x1_0000_0000_0000,
            hi < 0x100,
    ;
}

/// Read the two bytes at `at` as a little-endian 16-bit integer.
fn read_u16_at(buf: &[u8], at: usize) -> (r: u64)
    requires
        at + 2 <= buf.len(),
    ensures
        r == buf@[at as int] + buf@[at + 1] * 0x100,
{
    let lo: u8 = buf[at];
    let hi: u8 = buf[at + 1];
    proof {
        lemma_join_bytes(lo, hi);
    }
    (lo as u64) | ((hi as u64) << 8)
}

/// Read the four bytes at `at` as a little-endian 32-bit integer.
fn read_u32_at(buf: &[u8], at: usize) -> (r: u64)
    requires
        at + 4 <= buf.len(),
    ensures
        r == buf@[at as int] + buf@[at + 1] * 0x100 + buf@[at + 2] * 0x1_0000 + buf@[at + 3]
            * 0x100_0000,
{
    let lo: u64 = read_u16_at(buf, at);
    let hi: u64 = read_u16_at(buf, at + 2);
    proof {
        lemma_join_halves(lo, hi);
    }
    lo | (hi << 16)
}

/// Read a buffer of fewer than 8 bytes as a little-endian integer.
///
/// The byte at index `i` lands in bits `8 * i` to `8 * i + 7` of the result
/// and the bits above the last byte are zero. A buffer of 8 bytes or more
/// gives 0.
pub fn read_int(buf: &[u8]) -> (r: u64)
    ensures
        buf.len() < 8 ==> r == spec_le_value(buf@),
        buf.len() >= 8 ==> r == 0,
{
    proof {
        if buf.len() < 8 {
            lemma_le_value_is_sum(buf@);
        }
    }
    // Each length is covered by the widest reads that fit, widest first.
    match buf.len() {
        // u8.
        1 => buf[0] as u64,
        // u16.
        2 => read_u16_at(buf, 0),
        3 => {
            // u16 + u8.
            let a: u64 = read_u16_at(buf, 0);
            let b: u64 = buf[2] as u64;
            proof {
                lemma_join_halves(a, b);
            }
            a | (b << 16)
        },
        // u32.
        4 => read_u32_at(buf, 0),
        5 => {
            // u32 + u8.
            let a: u64 = read_u32_at(buf, 0);
            let b: u64 = buf[4] as u64;
            proof {
                lemma_join_at_32(a, b);
            }
            a | (b << 32)
        },
        6 => {
            // u32 + u16.
            let a: u64 = read_u32_at(buf, 0);
            let b: u64 = read_u16_at(buf, 4);
            proof {
                lemma_join_at_32(a, b);
            }
            a | (b << 32)
        },
        7 => {
            // u32 + u16 + u8.
            let a: u64 = read_u32_at(buf, 0);
            let b: u64 = read_u16_at(buf, 4);
            let c: u64 = buf[6] as u64;
            proof {
                lemma_join_at_32(a, b);
                lemma_join_at_48(a | (b << 32), c);
            }
            a | (b << 32) | (c << 48)
        },
        _ => 0,
    }
}

/// Read a little-endian 64-bit integer from the first 8 bytes of some buffer.
pub fn read_u64(buf: &[u8]) -> (r: u64)
    requires
        buf.len() >= 8,
    ensures
        r == spec_le_value(buf@.subrange(0, 8)),
{
    let a: u64 = read_u32_at(buf, 0);
    let b: u64 = read_u32_at(buf, 4);
    proof {
        lemma_le_value_is_sum(buf@.subrange(0, 8));
        lemma_join_at_32(a, b);
    }
    a | (b << 32)
}

} // verus!
