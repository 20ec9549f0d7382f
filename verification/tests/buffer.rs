use seahash::buffer::{
    finalize, fold, fold_blocks, hash, next_lane, EMPTY_DIGEST, SEED_A, SEED_B, SEED_C, SEED_D,
};
use seahash::helper::{diffuse, read_int, read_u64};

/// The digest computed block by block from the public helpers.
fn hash_by_hand(buf: &[u8]) -> u64 {
    let mut lanes = [SEED_A, SEED_B, SEED_C, SEED_D];
    let mut lane = 0;
    let mut blocks = buf.chunks_exact(8);
    for block in &mut blocks {
        lanes[lane] = diffuse(lanes[lane] ^ read_u64(block));
        lane = (lane + 1) % 4;
    }
    let tail = blocks.remainder();
    if !tail.is_empty() {
        lanes[lane] = diffuse(lanes[lane] ^ read_int(tail));
    }
    diffuse(lanes[0] ^ lanes[1] ^ lanes[2] ^ lanes[3] ^ buf.len() as u64)
}

fn sample(len: usize) -> Vec<u8> {
    let mut x: u64 = 0x2545_f491_4f6c_dd1d;
    let mut v = Vec::with_capacity(len);
    for _ in 0..len {
        x = x.wrapping_mul(6364136223846793005).wrapping_add(1442695040888963407);
        v.push((x >> 56) as u8);
    }
    v
}

#[test]
fn hash_known_text() {
    assert_eq!(hash(b"to be or not to be"), 1988685042348123509);
}

#[test]
fn hash_empty_is_fixed() {
    assert_eq!(hash(&[]), 14492805990617963705);
    assert_eq!(hash(&[]), EMPTY_DIGEST);
    assert_eq!(hash(&[]), diffuse(SEED_A ^ SEED_B ^ SEED_C ^ SEED_D));
}

#[test]
fn seeds_differ() {
    let seeds = [SEED_A, SEED_B, SEED_C, SEED_D];
    for i in 0..4 {
        for j in 0..i {
            assert_ne!(seeds[i], seeds[j]);
        }
    }
}

#[test]
fn hash_fixed_values() {
    assert_eq!(hash(b"a"), 3009532316786026829);
    assert_eq!(hash(b"ab"), 14676070110421468767);
    assert_eq!(hash(b"01234567"), 15521160376093942845);
    assert_eq!(hash(b"012345678"), 4677441091929945787);
    assert_eq!(hash(b"to be or not to be "), 2741846540506366539);
    assert_eq!(hash(b"love is a wonderful terrible thing"), 4784284276849692846);
}

#[test]
fn hash_counting_bytes() {
    let bytes: Vec<u8> = (0..100).collect();
    assert_eq!(hash(&bytes[..32]), 3416832228826161231);
    assert_eq!(hash(&bytes[..33]), 5639858099146861076);
    assert_eq!(hash(&bytes), 3688912461243880892);
}

#[test]
fn hash_one_block_by_hand() {
    let buf = [1u8, 0, 0, 0, 0, 0, 0, 0];
    let expected = diffuse(diffuse(SEED_A ^ 1) ^ SEED_B ^ SEED_C ^ SEED_D ^ 8);
    assert_eq!(hash(&buf), expected);
}

#[test]
fn hash_tail_goes_to_the_next_lane() {
    let buf = [1u8, 0, 0, 0, 0, 0, 0, 0, 2, 3];
    let expected = diffuse(diffuse(SEED_A ^ 1) ^ diffuse(SEED_B ^ 770) ^ SEED_C ^ SEED_D ^ 10);
    assert_eq!(hash(&buf), expected);
}

#[test]
fn hash_fifth_block_returns_to_the_first_lane() {
    let mut buf = [0u8; 40];
    buf[32] = 5;
    let a = diffuse(diffuse(SEED_A) ^ 5);
    let expected = diffuse(a ^ diffuse(SEED_B) ^ diffuse(SEED_C) ^ diffuse(SEED_D) ^ 40);
    assert_eq!(hash(&buf), expected);
}

#[test]
fn hash_matches_by_hand_for_every_length() {
    let bytes = sample(300);
    for len in 0..bytes.len() {
        assert_eq!(hash(&bytes[..len]), hash_by_hand(&bytes[..len]));
    }
}

#[test]
fn hash_is_deterministic() {
    let bytes = sample(77);
    let first = hash(&bytes);
    for _ in 0..10 {
        assert_eq!(hash(&bytes), first);
    }
    let copy = bytes.clone();
    assert_eq!(hash(&copy), first);
}

#[test]
fn hash_changes_when_a_byte_is_appended() {
    let bytes = sample(130);
    for len in 0..bytes.len() - 1 {
        assert_ne!(hash(&bytes[..len]), hash(&bytes[..len + 1]));
    }
    // A zero byte at the end changes the length alone.
    let mut zeros = Vec::new();
    for _ in 0..40 {
        let before = hash(&zeros);
        zeros.push(0);
        assert_ne!(hash(&zeros), before);
    }
}

#[test]
fn hash_changes_when_a_byte_changes() {
    let bytes = sample(64);
    let unchanged = hash(&bytes);
    for i in 0..bytes.len() {
        let mut other = bytes.clone();
        other[i] ^= 1;
        assert_ne!(hash(&other), unchanged);
    }
}

#[test]
fn hash_at_every_alignment() {
    let bytes = sample(64);
    let mut shifted = vec![0u8; 72];
    for offset in 0..8 {
        shifted[offset..offset + 64].copy_from_slice(&bytes);
        assert_eq!(hash(&shifted[offset..offset + 64]), hash(&bytes));
    }
}

#[test]
fn hash_at_the_crate_root() {
    assert_eq!(seahash::hash(b"to be or not to be"), 1988685042348123509);
}

#[test]
fn fold_changes_one_lane() {
    let mut lanes = [1u64, 2, 3, 4];
    fold(&mut lanes, 2, 0x55);
    assert_eq!(lanes, [1, 2, diffuse(3 ^ 0x55), 4]);
    fold(&mut lanes, 0, 1);
    assert_eq!(lanes, [0, 2, diffuse(3 ^ 0x55), 4]);
    fold(&mut lanes, 3, 5);
    assert_eq!(lanes, [0, 2, diffuse(3 ^ 0x55), 15197155197312260123]);
}

#[test]
fn finalize_combines_lanes_and_length() {
    assert_eq!(finalize(&[0, 0, 0, 0], 0), 0);
    assert_eq!(finalize(&[1, 2, 4, 8], 16), diffuse(31));
    assert_eq!(finalize(&[7, 7, 5, 5], 1), 15197155197312260123);
    assert_eq!(finalize(&[SEED_A, SEED_B, SEED_C, SEED_D], 0), EMPTY_DIGEST);
}

#[test]
fn next_lane_rotates() {
    assert_eq!(next_lane(0), 1);
    assert_eq!(next_lane(1), 2);
    assert_eq!(next_lane(2), 3);
    assert_eq!(next_lane(3), 0);
}

#[test]
fn fold_blocks_takes_full_blocks_only() {
    let mut buf = [0u8; 21];
    buf[0] = 1;
    buf[8] = 2;
    buf[16] = 3;
    let mut lanes = [10u64, 20, 30, 40];
    let (lane, at) = fold_blocks(&mut lanes, 3, &buf, 0);
    assert_eq!((lane, at), (1, 16));
    assert_eq!(lanes, [diffuse(10 ^ 2), 20, 30, diffuse(40 ^ 1)]);
}

#[test]
fn fold_blocks_from_an_offset() {
    let mut buf = [0u8; 30];
    buf[5] = 1;
    buf[13] = 2;
    buf[21] = 3;
    let mut lanes = [10u64, 20, 30, 40];
    let (lane, at) = fold_blocks(&mut lanes, 1, &buf, 5);
    assert_eq!((lane, at), (0, 29));
    assert_eq!(lanes, [10, diffuse(20 ^ 1), diffuse(30 ^ 2), diffuse(40 ^ 3)]);
    let before = lanes;
    let (lane, at) = fold_blocks(&mut lanes, 2, &buf, 25);
    assert_eq!((lane, at), (2, 25));
    assert_eq!(lanes, before);
    let (lane, at) = fold_blocks(&mut lanes, 2, &buf, 30);
    assert_eq!((lane, at), (2, 30));
    assert_eq!(lanes, before);
}
