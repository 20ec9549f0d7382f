//! The hash of a whole buffer, and the mathematical model of the digest.
use crate::helper::{
    diffuse, read_int, read_u64, spec_diffuse, spec_fold_shift, spec_le_value, DIFFUSE_MUL,
};
use vstd::prelude::*;
use vstd::slice::slice_subrange;

verus! {

/// The seed of the first lane.
pub const SEED_A: u64 = 0x16f11fe89b0d677c;

/// The seed of the second lane.
pub const SEED_B: u64 = 0xb480a793d8e6c86c;

/// The seed of the third lane.
pub const SEED_C: u64 = 0x6fe2e5aaf078ebc9;

/// The seed of the fourth lane.
pub const SEED_D: u64 = 0x14f994a4c5259381;

/// The four lanes before any input.
pub open spec fn spec_seeds() -> Seq<u64> {
    seq![SEED_A, SEED_B, SEED_C, SEED_D]
}

/// The `i`-th block of eight bytes of `s`, read in little-endian order.
pub open spec fn spec_block(s: Seq<u8>, i: int) -> u64 {
    spec_le_value(s.subrange(8 * i, 8 * i + 8)) as u64
}

/// The lanes after `word` has been folded into lane `lane`.
pub open spec fn spec_fold(lanes: Seq<u64>, lane: int, word: u64) -> Seq<u64> {
    lanes.update(lane, spec_diffuse(lanes[lane] ^ word))
}

/// The lanes after the first `k` blocks of `s` have been folded in, one
/// after the other, the first into lane `lane` and each next one into the
/// next lane in rotation.
pub open spec fn spec_fold_blocks(lanes: Seq<u64>, lane: int, s: Seq<u8>, k: nat) -> Seq<u64>
    decreases k,
{
    if k == 0 {
        lanes
    } else {
        spec_fold(
            spec_fold_blocks(lanes, lane, s, (k - 1) as nat),
            (lane + k - 1) % 4,
            spec_block(s, k - 1),
        )
    }
}

/// The lanes after a tail of fewer than eight bytes has been folded into
/// lane `lane`. An empty tail changes nothing.
pub open spec fn spec_fold_tail(lanes: Seq<u64>, lane: int, tail: Seq<u8>) -> Seq<u64> {
    if tail.len() == 0 {
        lanes
    } else {
        spec_fold(lanes, lane, spec_le_value(tail) as u64)
    }
}

/// The digest of four lanes and the number of bytes that went into them.
pub open spec fn spec_finalize(lanes: Seq<u64>, written: u64) -> u64 {
    spec_diffuse(lanes[0] ^ lanes[1] ^ lanes[2] ^ lanes[3] ^ written)
}

/// The number of bytes as a 64-bit word.
pub open spec fn spec_length_word(n: nat) -> u64 {
    (n % 0x1_0000_0000_0000_0000) as u64
}

/// The bytes of `s` that lie behind its last full block.
pub open spec fn spec_left_over(s: Seq<u8>) -> Seq<u8> {
    s.subrange(8 * (s.len() / 8) as int, s.len() as int)
}

/// The SeaHash digest of a byte sequence.
pub open spec fn spec_hash(s: Seq<u8>) -> u64 {
    let k = s.len() / 8;
    let lanes = spec_fold_blocks(spec_seeds(), 0, s, k);
    spec_finalize(
        spec_fold_tail(lanes, k as int % 4, spec_left_over(s)),
        spec_length_word(s.len()),
    )
}

/// The digest of the empty input, which is the diffusion of the four seeds
/// combined.
pub const EMPTY_DIGEST: u64 = 0xc920ca43256fdcb9;

/// The digest of the empty input is the diffusion of the four seeds
/// combined with `^`, a fixed word.
pub proof fn lemma_hash_empty()
    ensures
        spec_hash(Seq::empty()) == spec_diffuse(SEED_A ^ SEED_B ^ SEED_C ^ SEED_D),
        spec_hash(Seq::empty()) == EMPTY_DIGEST,
{
    let all: u64 = SEED_A ^ SEED_B ^ SEED_C ^ SEED_D;
    assert(all ^ 0 == all) by (bit_vector);
    reveal(spec_diffuse);
    assert(spec_fold_shift(all.wrapping_mul(DIFFUSE_MUL)).wrapping_mul(DIFFUSE_MUL)
        == EMPTY_DIGEST) by (bit_vector)
        requires
            all == SEED_A ^ SEED_B ^ SEED_C ^ SEED_D,
    ;
}

/// The digest is a function of the bytes alone: two sequences of the same
/// length that hold the same byte at every index have the same digest.
pub proof fn lemma_hash_determined(a: Seq<u8>, b: Seq<u8>)
    requires
        a.len() == b.len(),
        forall|i: int| 0 <= i < a.len() ==> a[i] == b[i],
    ensures
        spec_hash(a) == spec_hash(b),
{
    assert(a =~= b);
}

/// Folding blocks reads only the bytes of those blocks: two sequences that
/// agree on their first `8 * k` bytes give the same lanes.
pub proof fn lemma_fold_blocks_prefix(lanes: Seq<u64>, lane: int, s: Seq<u8>, t: Seq<u8>, k: nat)
    requires
        8 * k <= s.len(),
        8 * k <= t.len(),
        s.subrange(0, 8 * k as int) == t.subrange(0, 8 * k as int),
    ensures
        spec_fold_blocks(lanes, lane, s, k) == spec_fold_blocks(lanes, lane, t, k),
    decreases k,
{
    if k > 0 {
        let j: int = k - 1;
        let head_s = s.subrange(0, 8 * k as int);
        let head_t = t.subrange(0, 8 * k as int);
        assert(s.subrange(0, 8 * j) =~= head_s.subrange(0, 8 * j));
        assert(t.subrange(0, 8 * j) =~= head_t.subrange(0, 8 * j));
        lemma_fold_blocks_prefix(lanes, lane, s, t, j as nat);
        assert(s.subrange(8 * j, 8 * j + 8) =~= head_s.subrange(8 * j, 8 * j + 8));
        assert(t.subrange(8 * j, 8 * j + 8) =~= head_t.subrange(8 * j, 8 * j + 8));
    }
}

/// Going on in rotation from a lane index that was reduced modulo four
/// reaches the same lane as going on from the index itself.
pub proof fn lemma_rotation(a: int, b: int)
    requires
        0 <= a,
        0 <= b,
    ensures
        (a % 4 + b) % 4 == (a + b) % 4,
{
}

/// Folding `i + j` blocks is folding the first `i` and then, from the lane
/// that the rotation has reached, the `j` blocks that follow them.
pub proof fn lemma_fold_blocks_split(lanes: Seq<u64>, lane: int, s: Seq<u8>, i: nat, j: nat)
    requires
        0 <= lane < 4,
        8 * (i + j) <= s.len(),
    ensures
        spec_fold_blocks(lanes, lane, s, i + j) == spec_fold_blocks(
            spec_fold_blocks(lanes, lane, s, i),
            (lane + i) % 4,
            s.subrange(8 * i as int, s.len() as int),
            j,
        ),
    decreases j,
{
    if j > 0 {
        let rest = s.subrange(8 * i as int, s.len() as int);
        let m: int = j - 1;
        lemma_fold_blocks_split(lanes, lane, s, i, m as nat);
        let word = spec_block(s, i + m);
        assert(spec_block(rest, m) == word) by {
            assert(rest.subrange(8 * m, 8 * m + 8) =~= s.subrange(8 * (i + m), 8 * (i + m) + 8));
        }
        let to = (lane + (i + j) - 1) % 4;
        assert(((lane + i) % 4 + j - 1) % 4 == to) by {
            lemma_rotation(lane + i, j - 1);
        }
        let before = spec_fold_blocks(lanes, lane, s, i + m as nat);
        assert(spec_fold_blocks(lanes, lane, s, i + j) == spec_fold(before, to, word));
        let inner = spec_fold_blocks(lanes, lane, s, i);
        assert(spec_fold_blocks(inner, (lane + i) % 4, rest, j) == spec_fold(
            spec_fold_blocks(inner, (lane + i) % 4, rest, m as nat),
            to,
            word,
        ));
    }
}

/// Folding blocks keeps the number of lanes.
pub proof fn lemma_fold_blocks_len(lanes: Seq<u64>, lane: int, s: Seq<u8>, k: nat)
    requires
        lanes.len() == 4,
    ensures
        spec_fold_blocks(lanes, lane, s, k).len() == lanes.len(),
    decreases k,
{
    if k > 0 {
        lemma_fold_blocks_len(lanes, lane, s, (k - 1) as nat);
    }
}

/// Fold `word` into lane `lane`.
pub fn fold(lanes: &mut [u64; 4], lane: usize, word: u64)
    requires
        lane < 4,
    ensures
        final(lanes)@ == spec_fold(old(lanes)@, lane as int, word),
{
    lanes[lane] = diffuse(lanes[lane] ^ word);
}

/// Combine the lanes and the number of bytes written into the digest.
pub fn finalize(lanes: &[u64; 4], written: u64) -> (r: u64)
    ensures
        r == spec_finalize(lanes@, written),
{
    diffuse(lanes[0] ^ lanes[1] ^ lanes[2] ^ lanes[3] ^ written)
}

/// The lane after `lane` in rotation.
pub fn next_lane(lane: usize) -> (r: usize)
    requires
        lane < 4,
    ensures
        r == (lane + 1) % 4,
{
    if lane == 3 {
        0
    } else {
        lane + 1
    }
}

/// Fold the full blocks of `buf` from index `from` on into the lanes, the
/// first into lane `lane`. Returns the lane that the rotation has reached and
/// the index of the first byte behind the last full block.
pub fn fold_blocks(lanes: &mut [u64; 4], lane: usize, buf: &[u8], from: usize) -> (r: (
    usize,
    usize,
))
    requires
        lane < 4,
        from <= buf.len(),
    ensures
        final(lanes)@ == spec_fold_blocks(
            old(lanes)@,
            lane as int,
            buf@.subrange(from as int, buf.len() as int),
            ((buf.len() - from) / 8) as nat,
        ),
        r.0 == (lane + (buf.len() - from) / 8) % 4,
        r.1 == from + 8 * ((buf.len() - from) / 8),
{
    let n: usize = buf.len();
    let ghost rest = buf@.subrange(from as int, n as int);
    let ghost first = lanes@;
    let mut to: usize = lane;
    let mut at: usize = from;
    while n - at >= 8
        invariant
            n == buf.len(),
            from <= at <= n,
            lane < 4,
            to < 4,
            rest == buf@.subrange(from as int, n as int),
            (at - from) % 8 == 0,
            to == (lane + (at - from) / 8) % 4,
            lanes@ == spec_fold_blocks(first, lane as int, rest, ((at - from) / 8) as nat),
        decreases n - at,
    {
        let ghost j: int = (at - from) / 8;
        let block = slice_subrange(buf, at, at + 8);
        assert(block@.subrange(0, 8) =~= rest.subrange(8 * j, 8 * j + 8));
        let word: u64 = read_u64(block);
        fold(lanes, to, word);
        to = next_lane(to);
        at = at + 8;
        assert((at - from) / 8 == j + 1);
    }
    (to, at)
}

/// Hash some buffer.
///
/// The buffer is taken as consecutive blocks of eight bytes and a tail of
/// fewer than eight. Each block, and then the tail if it is not empty, is
/// folded into the next lane in rotation; the lanes and the length give the
/// digest.
pub fn hash(buf: &[u8]) -> (r: u64)
    ensures
        r == spec_hash(buf@),
{
    let n: usize = buf.len();
    let mut lanes: [u64; 4] = [SEED_A, SEED_B, SEED_C, SEED_D];
    assert(lanes@ =~= spec_seeds());
    assert(buf@.subrange(0, n as int) =~= buf@);
    let (lane, at) = fold_blocks(&mut lanes, 0, buf, 0);
    if n - at > 0 {
        let word: u64 = read_int(slice_subrange(buf, at, n));
        fold(&mut lanes, lane, word);
    }
    finalize(&lanes, n as u64)
}

} // verus!
