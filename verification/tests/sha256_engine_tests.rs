//! End-to-end digests, padding boundaries, and the construction contract of
//! the engine: known vectors, multi-block messages, and determinism across
//! instances.

use rand::Rng;
use sha256_gf2::circuit::{Bit, CircuitBuilder};
use sha256_gf2::sha256::SHA256GF2;

fn input_message_bytes(cb: &mut CircuitBuilder, bytes: &[u8]) -> Vec<Bit> {
    let mut bits: Vec<Bit> = Vec::new();
    for byte in bytes {
        for i in 0..8 {
            bits.push(cb.input((byte >> (7 - i)) & 1 == 1));
        }
    }
    bits
}

fn digest_bytes(cb: &CircuitBuilder, digest: &[Bit]) -> Vec<u8> {
    assert_eq!(digest.len(), 256);
    let mut out: Vec<u8> = Vec::new();
    for chunk in digest.chunks(8) {
        let mut byte: u8 = 0;
        for b in chunk {
            byte <<= 1;
            if cb.value(*b) {
                byte |= 1;
            }
        }
        out.push(byte);
    }
    out
}

fn hex_to_bytes(hex: &str) -> Vec<u8> {
    let chars: Vec<u32> = hex.chars().map(|c| c.to_digit(16).unwrap()).collect();
    chars.chunks(2).map(|p| ((p[0] << 4) | p[1]) as u8).collect()
}

fn sha256_of_bytes(bytes: &[u8]) -> Vec<u8> {
    let mut cb = CircuitBuilder::new();
    let msg = input_message_bytes(&mut cb, bytes);
    let mut engine = SHA256GF2::new();
    engine.update(&msg);
    let digest = engine.finalize(&mut cb);
    digest_bytes(&cb, &digest)
}

#[test]
fn test_sha256_empty_vector() {
    let digest = sha256_of_bytes(b"");
    let expected = hex_to_bytes("e3b0c44298fc1c149afbf4c8996fb92427ae41e4649b934ca495991b7852b855");
    assert_eq!(digest, expected);
}

#[test]
fn test_sha256_abc_vector() {
    let digest = sha256_of_bytes(b"abc");
    let expected = hex_to_bytes("ba7816bf8f01cfea414140de5dae2223b00361a396177a9cb410ff61f20015ad");
    assert_eq!(digest, expected);
}

#[test]
fn test_sha256_two_block_vector() {
    // 448 bits of message: padding rolls over into a second block.
    let digest = sha256_of_bytes(b"abcdbcdecdefdefgefghfghighijhijkijkljklmklmnlmnomnopnopq");
    let expected = hex_to_bytes("248d6a61d20638b8e5c026930c3e6039a33ce45964ff2167f6ecedd419db06c1");
    assert_eq!(digest, expected);
}

#[test]
fn test_digest_is_256_bits() {
    let mut cb = CircuitBuilder::new();
    let msg = input_message_bytes(&mut cb, b"hello");
    let mut engine = SHA256GF2::new();
    engine.update(&msg);
    let digest = engine.finalize(&mut cb);
    assert_eq!(digest.len(), 256);
}

#[test]
fn test_padding_boundaries() {
    // Message lengths 0, 447, 448 and 449 bits all pad to the next 512-bit
    // boundary: 512, 512, 1024 and 1024 bits.
    for (msg_bits, padded_bits) in [(0usize, 512usize), (447, 512), (448, 1024), (449, 1024)] {
        let mut cb = CircuitBuilder::new();
        let mut bits: Vec<Bit> = Vec::new();
        for i in 0..msg_bits {
            bits.push(cb.input(i % 3 == 0));
        }
        let mut engine = SHA256GF2::new();
        engine.update(&bits);
        let digest = engine.finalize(&mut cb);
        assert_eq!(digest.len(), 256);
        assert_eq!(engine.data.len(), padded_bits);
    }
}

#[test]
fn test_two_engines_identical_input() {
    let mut rng = rand::thread_rng();
    let bytes: Vec<u8> = (0..19).map(|_| rng.gen::<u8>()).collect();
    let d1 = sha256_of_bytes(&bytes);
    let d2 = sha256_of_bytes(&bytes);
    assert_eq!(d1, d2);
}

#[test]
fn test_incremental_update_matches_single() {
    let mut cb1 = CircuitBuilder::new();
    let msg1 = input_message_bytes(&mut cb1, b"abc");
    let mut e1 = SHA256GF2::new();
    e1.update(&msg1);
    let dg1 = e1.finalize(&mut cb1);
    let d1 = digest_bytes(&cb1, &dg1);

    let mut cb2 = CircuitBuilder::new();
    let part1 = input_message_bytes(&mut cb2, b"a");
    let part2 = input_message_bytes(&mut cb2, b"bc");
    let mut e2 = SHA256GF2::new();
    e2.update(&part1);
    e2.update(&part2);
    let dg2 = e2.finalize(&mut cb2);
    let d2 = digest_bytes(&cb2, &dg2);

    assert_eq!(d1, d2);
}

#[test]
fn test_fresh_engine_state() {
    let engine = SHA256GF2::new();
    assert_eq!(engine.data.len(), 0);
    assert!(!engine.finalized);
    let engine2 = SHA256GF2::default();
    assert_eq!(engine2.data.len(), 0);
    assert!(!engine2.finalized);
}

#[test]
fn test_engine_clone_carries_buffer() {
    let mut cb = CircuitBuilder::new();
    let msg = input_message_bytes(&mut cb, b"xy");
    let mut engine = SHA256GF2::new();
    engine.update(&msg);
    let copy = engine.clone();
    assert_eq!(copy.data.len(), 16);
    assert!(!copy.finalized);
    let dg1 = engine.finalize(&mut cb);
    let d1 = digest_bytes(&cb, &dg1);
    let mut copy2 = copy;
    let dg2 = copy2.finalize(&mut cb);
    let d2 = digest_bytes(&cb, &dg2);
    assert_eq!(d1, d2);
    assert!(copy2.finalized);
}

#[test]
fn test_one_bit_message() {
    // A single one bit: digest must differ from the empty message's.
    let mut cb = CircuitBuilder::new();
    let bit = vec![cb.input(true)];
    let mut engine = SHA256GF2::new();
    engine.update(&bit);
    let dg = engine.finalize(&mut cb);
    let digest = digest_bytes(&cb, &dg);
    let empty = sha256_of_bytes(b"");
    assert_eq!(digest.len(), 32);
    assert_ne!(digest, empty);
}
