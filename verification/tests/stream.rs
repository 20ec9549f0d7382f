use core::hash::{BuildHasherDefault, Hasher};
use seahash::buffer::{hash, EMPTY_DIGEST};
use seahash::stream::SeaHasher;
use std::collections::HashMap;

fn sample(len: usize) -> Vec<u8> {
    let mut x: u64 = 0x853c_49e6_748f_ea9b;
    let mut v = Vec::with_capacity(len);
    for _ in 0..len {
        x = x.wrapping_mul(6364136223846793005).wrapping_add(1442695040888963407);
        v.push((x >> 56) as u8);
    }
    v
}

fn hash_in_chunks(bytes: &[u8], size: usize) -> u64 {
    let mut h = SeaHasher::new();
    for chunk in bytes.chunks(size) {
        h.write(chunk);
    }
    h.finish()
}

#[test]
fn stream_empty() {
    let h = SeaHasher::new();
    assert_eq!(h.finish(), hash(&[]));
    assert_eq!(h.finish(), EMPTY_DIGEST);
}

#[test]
fn stream_default_is_new() {
    let h = SeaHasher::default();
    assert_eq!(h.finish(), SeaHasher::new().finish());
    let mut a = SeaHasher::default();
    let mut b = SeaHasher::new();
    a.write(b"some bytes to hash");
    b.write(b"some bytes to hash");
    assert_eq!(a.finish(), b.finish());
}

#[test]
fn stream_known_text() {
    let mut h = SeaHasher::new();
    h.write(b"to be or not to be");
    assert_eq!(h.finish(), 1988685042348123509);
}

#[test]
fn stream_known_text_in_pieces() {
    let mut h = SeaHasher::new();
    h.write(b"to be ");
    h.write(b"or not");
    h.write(b" to be");
    assert_eq!(h.finish(), 1988685042348123509);
}

#[test]
fn stream_one_write_matches_hash() {
    let bytes = sample(200);
    for len in 0..bytes.len() {
        let mut h = SeaHasher::new();
        h.write(&bytes[..len]);
        assert_eq!(h.finish(), hash(&bytes[..len]));
    }
}

#[test]
fn stream_two_writes_match_hash() {
    let bytes = sample(48);
    for len in 0..=bytes.len() {
        for cut in 0..=len {
            let mut h = SeaHasher::new();
            h.write(&bytes[..cut]);
            h.write(&bytes[cut..len]);
            assert_eq!(h.finish(), hash(&bytes[..len]));
        }
    }
}

#[test]
fn stream_three_writes_match_hash() {
    let bytes = sample(27);
    let expected = hash(&bytes);
    for first in 0..=bytes.len() {
        for second in first..=bytes.len() {
            let mut h = SeaHasher::new();
            h.write(&bytes[..first]);
            h.write(&bytes[first..second]);
            h.write(&bytes[second..]);
            assert_eq!(h.finish(), expected);
        }
    }
}

#[test]
fn stream_single_byte_chunks() {
    let bytes = sample(100);
    for len in 0..bytes.len() {
        assert_eq!(hash_in_chunks(&bytes[..len], 1), hash(&bytes[..len]));
    }
}

#[test]
fn stream_every_chunk_size() {
    let bytes = sample(257);
    let expected = hash(&bytes);
    for size in 1..=bytes.len() {
        assert_eq!(hash_in_chunks(&bytes, size), expected);
    }
}

#[test]
fn stream_uneven_chunks() {
    let bytes = sample(1000);
    let expected = hash(&bytes);
    let mut h = SeaHasher::new();
    let mut at = 0;
    let mut step = 0;
    while at < bytes.len() {
        let size = core::cmp::min([0, 1, 7, 8, 9, 15, 16, 17, 3, 64, 5][step % 11], bytes.len() - at);
        h.write(&bytes[at..at + size]);
        at += size;
        step += 1;
    }
    assert_eq!(h.finish(), expected);
}

#[test]
fn stream_empty_write_changes_nothing() {
    let bytes = sample(21);
    let mut h = SeaHasher::new();
    h.write(&[]);
    assert_eq!(h.finish(), hash(&[]));
    h.write(&bytes[..5]);
    let before = h.finish();
    h.write(&[]);
    assert_eq!(h.finish(), before);
    h.write(&bytes[5..]);
    h.write(&[]);
    assert_eq!(h.finish(), hash(&bytes));
}

#[test]
fn stream_finish_twice() {
    let mut h = SeaHasher::new();
    h.write(b"finish me twice");
    let first = h.finish();
    assert_eq!(h.finish(), first);
    assert_eq!(h.finish(), hash(b"finish me twice"));
}

#[test]
fn stream_finish_then_write_more() {
    let bytes = sample(50);
    let mut h = SeaHasher::new();
    for len in 0..bytes.len() {
        assert_eq!(h.finish(), hash(&bytes[..len]));
        h.write(&bytes[len..len + 1]);
    }
    assert_eq!(h.finish(), hash(&bytes));
}

#[test]
fn stream_write_changes_the_digest() {
    let mut h = SeaHasher::new();
    let empty = h.finish();
    h.write(&[0]);
    let one = h.finish();
    assert_ne!(one, empty);
    h.write(&[0; 8]);
    assert_ne!(h.finish(), one);
}

#[test]
fn stream_appended_byte_changes_the_digest() {
    let bytes = sample(80);
    let mut h = SeaHasher::new();
    let mut before = h.finish();
    for b in &bytes {
        h.write(&[*b]);
        let after = h.finish();
        assert_ne!(after, before);
        before = after;
    }
}

#[test]
fn stream_copy_goes_its_own_way() {
    let mut a = SeaHasher::new();
    a.write(b"shared ");
    let mut b = a;
    let mut c = a.clone();
    a.write(b"first");
    b.write(b"second");
    c.write(b"first");
    assert_eq!(a.finish(), hash(b"shared first"));
    assert_eq!(b.finish(), hash(b"shared second"));
    assert_eq!(c.finish(), a.finish());
}

#[test]
fn stream_through_the_hasher_trait() {
    fn feed<H: Hasher>(h: &mut H) -> u64 {
        h.write(b"to be or ");
        h.write(b"not to be");
        h.finish()
    }
    let mut h = SeaHasher::new();
    assert_eq!(feed(&mut h), 1988685042348123509);
}

#[test]
fn stream_trait_integers_are_their_bytes() {
    let mut h = SeaHasher::new();
    h.write_u64(0x0102_0304_0506_0708);
    h.write_u8(9);
    h.write_u32(0xdead_beef);
    let mut bytes = Vec::new();
    bytes.extend_from_slice(&0x0102_0304_0506_0708u64.to_ne_bytes());
    bytes.push(9);
    bytes.extend_from_slice(&0xdead_beefu32.to_ne_bytes());
    assert_eq!(Hasher::finish(&h), hash(&bytes));
}

#[test]
fn stream_as_the_hasher_of_a_map() {
    let mut map: HashMap<String, u32, BuildHasherDefault<SeaHasher>> = HashMap::default();
    for i in 0..100u32 {
        map.insert(format!("key {}", i), i);
    }
    assert_eq!(map.len(), 100);
    for i in 0..100u32 {
        assert_eq!(map.get(&format!("key {}", i)), Some(&i));
    }
    assert_eq!(map.get("key 100"), None);
}

#[test]
fn stream_at_the_crate_root() {
    let mut h = seahash::SeaHasher::new();
    h.write(b"to be or not to be");
    assert_eq!(h.finish(), 1988685042348123509);
}

#[test]
fn stream_block_sized_writes() {
    let bytes = sample(64);
    let mut h = SeaHasher::new();
    for block in bytes.chunks(8) {
        h.write(block);
    }
    assert_eq!(h.finish(), hash(&bytes));
    let mut h = SeaHasher::new();
    h.write(&bytes[..3]);
    h.write(&bytes[3..8]);
    h.write(&bytes[8..40]);
    h.write(&bytes[40..41]);
    h.write(&bytes[41..64]);
    assert_eq!(h.finish(), hash(&bytes));
}
