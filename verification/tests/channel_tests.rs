use std::collections::HashSet;
use zkvm_rs::channel::{u64_le_bytes, Channel};
use zkvm_rs::field::{Fp, P};

#[test]
fn test_deterministic() {
    let mut c1 = Channel::new();
    let mut c2 = Channel::new();
    c1.absorb(b"hello");
    c2.absorb(b"hello");
    assert_eq!(c1.squeeze_field(), c2.squeeze_field());
}

#[test]
fn test_different_inputs_different_outputs() {
    let mut c1 = Channel::new();
    let mut c2 = Channel::new();
    c1.absorb(b"hello");
    c2.absorb(b"world");
    assert_ne!(c1.squeeze_field(), c2.squeeze_field());
}

#[test]
fn test_squeeze_indices() {
    let mut c = Channel::new();
    c.absorb(b"test");
    let indices = c.squeeze_indices(5, 100);
    assert_eq!(indices.len(), 5);
    for &idx in &indices {
        assert!(idx < 100);
    }
    let unique: HashSet<_> = indices.iter().collect();
    assert_eq!(unique.len(), 5);
}

#[test]
fn channel_squeeze_reads_sha256_of_transcript() {
    // SHA-256("abc") starts ba 78 16 bf 8f 01 cf ea; little-endian that is 0xeacf018fbf1678ba
    let mut c = Channel::new();
    c.absorb(b"abc");
    let raw: u64 = 0xeacf018fbf1678ba;
    assert_eq!(c.squeeze_field().value(), raw % P);
}

#[test]
fn channel_absorb_field_is_le_bytes() {
    let mut c1 = Channel::new();
    let mut c2 = Channel::new();
    c1.absorb_field(Fp::new(0x0102030405060708));
    c2.absorb(&[8, 7, 6, 5, 4, 3, 2, 1]);
    assert_eq!(c1.squeeze_field(), c2.squeeze_field());
    assert_eq!(u64_le_bytes(0x0102030405060708), vec![8, 7, 6, 5, 4, 3, 2, 1]);
}

#[test]
fn channel_squeezes_chain() {
    let mut c = Channel::new();
    c.absorb(b"x");
    let a = c.squeeze_field();
    let b = c.squeeze_field();
    assert_ne!(a, b);
}
