//! The streaming hasher: the digest of input that comes in pieces.
use crate::buffer::{
    finalize, fold, fold_blocks, lemma_fold_blocks_len, lemma_fold_blocks_prefix,
    lemma_fold_blocks_split, lemma_rotation, next_lane, spec_finalize, spec_fold_blocks,
    spec_fold_tail, spec_hash, spec_left_over, spec_length_word, spec_seeds, SEED_A, SEED_B,
    SEED_C, SEED_D,
};
use crate::helper::{read_int, read_u64};
use vstd::prelude::*;
use vstd::slice::slice_subrange;

verus! {

/// What a streaming hasher holds, as mathematical values.
pub struct HasherState {
    /// The four lanes.
    pub lanes: Seq<u64>,
    /// The lane that the next block goes into.
    pub lane: int,
    /// The bytes written since the last full block, fewer than eight.
    pub pending: Seq<u8>,
    /// The number of bytes written so far, as a 64-bit word.
    pub written: u64,
}

impl HasherState {
    /// Four lanes, a lane index below four and fewer than eight pending bytes.
    pub open spec fn valid(self) -> bool {
        &&& self.lanes.len() == 4
        &&& 0 <= self.lane < 4
        &&& self.pending.len() < 8
    }
}

/// The state of a new hasher: the seeds, nothing pending, nothing written.
pub open spec fn spec_new() -> HasherState {
    HasherState { lanes: spec_seeds(), lane: 0, pending: Seq::empty(), written: 0 }
}

/// The state after `bytes` has been written to a hasher in state `st`: the
/// pending bytes and the new ones are taken together, their full blocks are
/// folded in, and what is left over is pending.
pub open spec fn spec_write(st: HasherState, bytes: Seq<u8>) -> HasherState {
    let all = st.pending + bytes;
    let k = all.len() / 8;
    HasherState {
        lanes: spec_fold_blocks(st.lanes, st.lane, all, k),
        lane: (st.lane + k) % 4,
        pending: spec_left_over(all),
        written: spec_length_word(st.written as nat + bytes.len()),
    }
}

/// The digest that a hasher in state `st` gives.
pub open spec fn spec_finish(st: HasherState) -> u64 {
    spec_finalize(spec_fold_tail(st.lanes, st.lane, st.pending), st.written)
}

/// The state after each chunk of `chunks` has been written in turn.
pub open spec fn spec_write_all(st: HasherState, chunks: Seq<Seq<u8>>) -> HasherState
    decreases chunks.len(),
{
    if chunks.len() == 0 {
        st
    } else {
        spec_write(spec_write_all(st, chunks.drop_last()), chunks.last())
    }
}

/// The chunks of `chunks` laid end to end.
pub open spec fn spec_concat(chunks: Seq<Seq<u8>>) -> Seq<u8>
    decreases chunks.len(),
{
    if chunks.len() == 0 {
        Seq::empty()
    } else {
        spec_concat(chunks.drop_last()) + chunks.last()
    }
}

/// Writing keeps a state valid.
pub proof fn lemma_write_valid(st: HasherState, bytes: Seq<u8>)
    requires
        st.valid(),
    ensures
        spec_write(st, bytes).valid(),
{
    let all = st.pending + bytes;
    lemma_fold_blocks_len(st.lanes, st.lane, all, all.len() / 8);
}

/// What is pending after `a`, followed by `b`, is what of `pending`, `a`
/// and `b` together lies behind the full blocks of `pending` and `a`.
proof fn lemma_left_over_then(pending: Seq<u8>, a: Seq<u8>, b: Seq<u8>)
    ensures
        ({
            let all1 = pending + a;
            let all = pending + (a + b);
            let k1 = all1.len() / 8;
            &&& all.subrange(8 * k1 as int, all.len() as int) == spec_left_over(all1) + b
            &&& all.subrange(0, 8 * k1 as int) == all1.subrange(0, 8 * k1 as int)
        }),
{
    let all1 = pending + a;
    let all = pending + (a + b);
    let k1 = all1.len() / 8;
    assert(all.subrange(8 * k1 as int, all.len() as int) =~= spec_left_over(all1) + b);
    assert(all.subrange(0, 8 * k1 as int) =~= all1.subrange(0, 8 * k1 as int));
}

/// Counting `a` and then `b` bytes in a 64-bit word is counting `a + b`.
proof fn lemma_length_word_add(w: u64, a: nat, b: nat)
    ensures
        spec_length_word(spec_length_word(w as nat + a) as nat + b) == spec_length_word(
            w as nat + (a + b),
        ),
{
    vstd::arithmetic::div_mod::lemma_add_mod_noop(
        (w as nat + a) as int,
        b as int,
        0x1_0000_0000_0000_0000,
    );
    vstd::arithmetic::div_mod::lemma_small_mod(
        spec_length_word(w as nat + a) as nat,
        0x1_0000_0000_0000_0000,
    );
    vstd::arithmetic::div_mod::lemma_add_mod_noop(
        spec_length_word(w as nat + a) as int,
        b as int,
        0x1_0000_0000_0000_0000,
    );
}

/// Writing `a` and then `b` leaves a hasher in the state that writing `a`
/// and `b` as one piece leaves it in.
pub proof fn lemma_write_write(st: HasherState, a: Seq<u8>, b: Seq<u8>)
    requires
        st.valid(),
    ensures
        spec_write(spec_write(st, a), b) == spec_write(st, a + b),
{
    let all1 = st.pending + a;
    let k1 = all1.len() / 8;
    let mid = spec_write(st, a);
    let all2 = mid.pending + b;
    let k2 = all2.len() / 8;
    let all = st.pending + (a + b);
    let k = all.len() / 8;
    lemma_left_over_then(st.pending, a, b);
    assert(mid.pending == spec_left_over(all1));
    assert(all.subrange(8 * k1 as int, all.len() as int) == all2);
    assert(all.len() == 8 * k1 + all2.len());
    assert(k == k1 + k2);
    assert(spec_write(st, a + b).lanes == spec_write(mid, b).lanes) by {
        lemma_fold_blocks_split(st.lanes, st.lane, all, k1, k2);
        lemma_fold_blocks_prefix(st.lanes, st.lane, all, all1, k1);
    }
    assert(spec_write(st, a + b).pending == spec_write(mid, b).pending) by {
        assert(all.subrange(8 * k as int, all.len() as int) =~= all2.subrange(
            8 * k2 as int,
            all2.len() as int,
        ));
    }
    assert(spec_write(st, a + b).lane == spec_write(mid, b).lane) by {
        lemma_rotation(st.lane + k1, k2 as int);
    }
    assert(spec_write(st, a + b).written == spec_write(mid, b).written) by {
        lemma_length_word_add(st.written, a.len(), b.len());
    }
}

/// A new hasher to which `s` has been written as one piece gives the digest
/// of `s`.
pub proof fn lemma_finish_one_write(s: Seq<u8>)
    ensures
        spec_finish(spec_write(spec_new(), s)) == spec_hash(s),
{
    assert(spec_new().pending + s =~= s);
}

/// Writing nothing leaves a valid state as it is.
pub proof fn lemma_write_nothing(st: HasherState)
    requires
        st.valid(),
    ensures
        spec_write(st, Seq::empty()) == st,
{
    let all = st.pending + Seq::<u8>::empty();
    assert(all =~= st.pending);
    assert(all.subrange(0, all.len() as int) =~= st.pending);
}

/// Writing the chunks of a partition in turn leaves a new hasher in the
/// state that writing the whole sequence as one piece leaves it in.
pub proof fn lemma_write_all_is_one_write(chunks: Seq<Seq<u8>>)
    ensures
        spec_write_all(spec_new(), chunks).valid(),
        spec_write_all(spec_new(), chunks) == spec_write(spec_new(), spec_concat(chunks)),
    decreases chunks.len(),
{
    if chunks.len() == 0 {
        lemma_write_nothing(spec_new());
    } else {
        let front = chunks.drop_last();
        lemma_write_all_is_one_write(front);
        lemma_write_write(spec_new(), spec_concat(front), chunks.last());
        lemma_write_valid(spec_new(), spec_concat(chunks));
    }
}

/// Chunking invariance: a new hasher to which the chunks of any partition
/// of a byte sequence have been written in turn gives the digest of the
/// whole sequence.
pub proof fn lemma_chunking_invariance(chunks: Seq<Seq<u8>>)
    ensures
        spec_finish(spec_write_all(spec_new(), chunks)) == spec_hash(spec_concat(chunks)),
{
    lemma_write_all_is_one_write(chunks);
    lemma_finish_one_write(spec_concat(chunks));
}

/// A write that leaves fewer than eight bytes pending in all folds nothing:
/// the new bytes are added to the pending ones.
proof fn lemma_write_short(st: HasherState, bytes: Seq<u8>)
    requires
        st.valid(),
        st.pending.len() + bytes.len() < 8,
    ensures
        spec_write(st, bytes).lanes == st.lanes,
        spec_write(st, bytes).lane == st.lane,
        spec_write(st, bytes).pending == st.pending + bytes,
{
    let all = st.pending + bytes;
    assert(spec_left_over(all) =~= all);
}

/// The number of bytes of a write that fill the pending bytes up to a block:
/// none where nothing is pending.
spec fn spec_taken(st: HasherState) -> int {
    if st.pending.len() == 0 {
        0
    } else {
        8 - st.pending.len()
    }
}

/// A write that completes at least one block, or finds nothing pending, is
/// the fold of the block that the pending bytes begin, where there is one,
/// and then of the blocks of the new bytes that follow it.
proof fn lemma_write_blocks(st: HasherState, bytes: Seq<u8>)
    requires
        st.valid(),
        st.pending.len() == 0 || st.pending.len() + bytes.len() >= 8,
    ensures
        ({
            let taken = spec_taken(st);
            let rest = bytes.subrange(taken, bytes.len() as int);
            let first = st.pending + bytes.subrange(0, taken);
            let lanes = spec_fold_tail(st.lanes, st.lane, first);
            let lane = if taken == 0 {
                st.lane
            } else {
                (st.lane + 1) % 4
            };
            &&& spec_write(st, bytes).lanes == spec_fold_blocks(lanes, lane, rest, rest.len() / 8)
            &&& spec_write(st, bytes).lane == (lane + rest.len() / 8) % 4
            &&& spec_write(st, bytes).pending == spec_left_over(rest)
        }),
{
    let all = st.pending + bytes;
    let taken = spec_taken(st);
    let rest = bytes.subrange(taken, bytes.len() as int);
    if taken == 0 {
        assert(all =~= bytes);
        assert(rest =~= bytes);
        assert(st.pending + bytes.subrange(0, 0) =~= Seq::<u8>::empty());
    } else {
        let first = st.pending + bytes.subrange(0, taken);
        let j = rest.len() / 8;
        assert(all.subrange(0, 8) =~= first);
        assert(all.subrange(8, all.len() as int) =~= rest);
        assert(all.len() / 8 == 1 + j);
        assert(spec_fold_blocks(st.lanes, st.lane, all, 1) == spec_fold_tail(
            st.lanes,
            st.lane,
            first,
        )) by {
            reveal_with_fuel(spec_fold_blocks, 2);
        }
        lemma_fold_blocks_split(st.lanes, st.lane, all, 1, j);
        lemma_rotation(st.lane + 1, j as int);
        assert(spec_left_over(all) =~= spec_left_over(rest));
    }
}

/// Copy bytes of `bytes`, from index `from` on, into `tail`, from index
/// `held` on, until `tail` is full or `bytes` is at its end. Returns the
/// number of bytes copied.
fn fill(tail: &mut [u8; 8], held: usize, bytes: &[u8], from: usize) -> (taken: usize)
    requires
        held <= 8,
        from <= bytes.len(),
    ensures
        taken == if bytes.len() - from < 8 - held {
            bytes.len() - from
        } else {
            8 - held
        },
        final(tail)@.subrange(0, held + taken) == old(tail)@.subrange(0, held as int)
            + bytes@.subrange(from as int, from + taken),
{
    let n: usize = bytes.len();
    let ghost first = tail@;
    let mut taken: usize = 0;
    while held + taken < 8 && from + taken < n
        invariant
            n == bytes.len(),
            held + taken <= 8,
            from + taken <= n,
            first.len() == 8,
            tail@.subrange(0, held + taken) == first.subrange(0, held as int) + bytes@.subrange(
                from as int,
                from + taken,
            ),
        decreases n - from - taken,
    {
        let ghost before = tail@;
        let ghost joined = first.subrange(0, held as int) + bytes@.subrange(
            from as int,
            from + taken,
        );
        let byte: u8 = bytes[from + taken];
        tail[held + taken] = byte;
        assert(tail@ == before.update(held + taken, byte));
        assert(before.subrange(0, held + taken) == joined);
        assert(tail@.subrange(0, held + taken + 1) =~= joined.push(byte)) by {
            assert forall|i: int| 0 <= i < held + taken implies tail@[i] == joined[i] by {
                assert(before.subrange(0, held + taken)[i] == before[i]);
            }
        }
        assert(joined.push(byte) =~= first.subrange(0, held as int) + bytes@.subrange(
            from as int,
            from + taken + 1,
        ));
        taken = taken + 1;
    }
    taken
}

/// The streaming version of the algorithm.
#[derive(Clone, Copy)]
pub struct SeaHasher {
    /// The four lanes.
    lanes: [u64; 4],
    /// The lane that the next block goes into.
    lane: usize,
    /// The bytes written since the last full block, in `tail[..ntail]`.
    tail: [u8; 8],
    /// The number of bytes in `tail` that are in use.
    ntail: usize,
    /// The number of bytes written so far.
    written: u64,
}

impl View for SeaHasher {
    type V = HasherState;

    closed spec fn view(&self) -> HasherState {
        HasherState {
            lanes: self.lanes@,
            lane: self.lane as int,
            pending: self.tail@.subrange(0, self.ntail as int),
            written: self.written,
        }
    }
}

impl SeaHasher {
    #[verifier::type_invariant]
    spec fn inv(self) -> bool {
        &&& self.lane < 4
        &&& self.ntail < 8
    }

    /// Create a new `SeaHasher` with default state.
    pub fn new() -> (h: SeaHasher)
        ensures
            h@ == spec_new(),
    {
        let h = SeaHasher {
            lanes: [SEED_A, SEED_B, SEED_C, SEED_D],
            lane: 0,
            tail: [0; 8],
            ntail: 0,
            written: 0,
        };
        assert(h@.lanes =~= spec_seeds());
        assert(h@.pending =~= Seq::<u8>::empty());
        h
    }

    /// Write `bytes` to the hasher.
    ///
    /// The pending bytes are filled up to a block first; then the blocks of
    /// `bytes` are taken where they lie; what is left over becomes pending.
    pub fn write(&mut self, bytes: &[u8])
        ensures
            final(self)@ == spec_write(old(self)@, bytes@),
            final(self)@.valid(),
    {
        proof {
            use_type_invariant(&*self);
            lemma_write_valid(self@, bytes@);
        }
        let n: usize = bytes.len();
        let mut lanes: [u64; 4] = self.lanes;
        let mut lane: usize = self.lane;
        let mut tail: [u8; 8] = self.tail;
        let mut ntail: usize = self.ntail;
        let mut at: usize = 0;
        let ghost start = self@;
        if ntail > 0 {
            at = fill(&mut tail, ntail, bytes, 0);
            ntail = ntail + at;
            if ntail == 8 {
                let word: u64 = read_u64(tail.as_slice());
                fold(&mut lanes, lane, word);
                lane = next_lane(lane);
                ntail = 0;
            }
        }
        if ntail == 0 {
            let (to, next) = fold_blocks(&mut lanes, lane, bytes, at);
            lane = to;
            ntail = fill(&mut tail, 0, bytes, next);
            proof {
                lemma_write_blocks(start, bytes@);
                assert(tail@.subrange(0, ntail as int) =~= spec_left_over(
                    bytes@.subrange(at as int, n as int),
                ));
            }
        } else {
            proof {
                lemma_write_short(start, bytes@);
            }
        }
        proof {
            lemma_length_word_add(0, start.written as nat, n as nat);
            let goal = spec_write(start, bytes@);
            assert(lanes@ == goal.lanes);
            assert(lane == goal.lane);
            assert(tail@.subrange(0, ntail as int) == goal.pending);
            assert(self.written.wrapping_add(n as u64) == goal.written);
        }
        *self = SeaHasher {
            lanes,
            lane,
            tail,
            ntail,
            written: self.written.wrapping_add(n as u64),
        };
    }

    /// The digest of everything written so far. The hasher is left as it
    /// is: more can be written to it, and the digest asked for again.
    pub fn finish(&self) -> (r: u64)
        ensures
            r == spec_finish(self@),
    {
        proof {
            use_type_invariant(self);
        }
        let mut lanes: [u64; 4] = self.lanes;
        if self.ntail > 0 {
            let word: u64 = read_int(slice_subrange(self.tail.as_slice(), 0, self.ntail));
            fold(&mut lanes, self.lane, word);
        }
        finalize(&lanes, self.written)
    }
}

impl Default for SeaHasher {
    fn default() -> (h: SeaHasher)
        ensures
            h@ == spec_new(),
    {
        SeaHasher::new()
    }
}

impl core::hash::Hasher for SeaHasher {
    fn finish(&self) -> (r: u64)
        ensures
            r == spec_finish(self@),
    {
        SeaHasher::finish(self)
    }

    fn write(&mut self, bytes: &[u8])
        ensures
            final(self)@ == spec_write(old(self)@, bytes@),
            final(self)@.valid(),
    {
        SeaHasher::write(self, bytes)
    }
}

} // verus!
