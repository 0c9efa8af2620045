//! Per-bit gadget checks against their machine-integer formulas, on
//! randomized inputs, mirroring the word-level wiring of the circuits the
//! gadgets were designed for.

use rand::Rng;
use sha256_gf2::circuit::{Bit, CircuitBuilder};
use sha256_gf2::gadgets::{and_array, capital_sigma0, ch, maj, not_array, xor_array};
use sha256_gf2::word::{and, and_vec, not, not_vec, xor, xor_vec, Word};

fn input_word(cb: &mut CircuitBuilder, v: u32) -> Word {
    let mut bits: Vec<Bit> = Vec::new();
    for i in 0..32 {
        bits.push(cb.input((v >> (31 - i)) & 1 == 1));
    }
    Word { bits }
}

fn read_word(cb: &CircuitBuilder, w: &Word) -> u32 {
    let mut v: u32 = 0;
    for i in 0..32 {
        v <<= 1;
        if cb.value(w.bits[i]) {
            v |= 1;
        }
    }
    v
}

fn input_bits_vec(cb: &mut CircuitBuilder, v: u32) -> Vec<Bit> {
    let mut bits: Vec<Bit> = Vec::new();
    for i in 0..32 {
        bits.push(cb.input((v >> (31 - i)) & 1 == 1));
    }
    bits
}

fn read_bits_vec(cb: &CircuitBuilder, bits: &[Bit]) -> u32 {
    let mut v: u32 = 0;
    for i in 0..32 {
        v <<= 1;
        if cb.value(bits[i]) {
            v |= 1;
        }
    }
    v
}

#[test]
fn test_minimal_xor_circuit() {
    let mut rng = rand::thread_rng();
    for _ in 0..5 {
        let a_val: u32 = rng.gen();
        let b_val: u32 = rng.gen();
        let mut cb = CircuitBuilder::new();
        let a = input_bits_vec(&mut cb, a_val);
        let b = input_bits_vec(&mut cb, b_val);
        let xor_res = xor_vec(&mut cb, a, b);
        assert_eq!(read_bits_vec(&cb, &xor_res), a_val ^ b_val);
    }
    println!("MinimalXorCircuit passed.");
}

#[test]
fn test_vec_logic_circuit() {
    let mut rng = rand::thread_rng();
    for _ in 0..5 {
        let a_val: u32 = rng.gen();
        let b_val: u32 = rng.gen();
        let mut cb = CircuitBuilder::new();
        let a = input_bits_vec(&mut cb, a_val);
        let b = input_bits_vec(&mut cb, b_val);
        let xor_res = xor_vec(&mut cb, a.clone(), b.clone());
        let and_res = and_vec(&mut cb, a.clone(), b.clone());
        let not_res = not_vec(&mut cb, a);
        assert_eq!(read_bits_vec(&cb, &xor_res), a_val ^ b_val);
        assert_eq!(read_bits_vec(&cb, &and_res), a_val & b_val);
        assert_eq!(read_bits_vec(&cb, &not_res), !a_val);
    }
    println!("VecLogicCircuit passed.");
}

#[test]
fn test_xor3_single_layer() {
    let mut rng = rand::thread_rng();
    for _ in 0..5 {
        let a: u32 = rng.gen();
        let b: u32 = rng.gen();
        let c: u32 = rng.gen();
        let mut cb = CircuitBuilder::new();
        let aw = input_word(&mut cb, a);
        let bw = input_word(&mut cb, b);
        let cw = input_word(&mut cb, c);
        let tmp = xor(&mut cb, &aw, &bw);
        let t = xor(&mut cb, &tmp, &cw);
        assert_eq!(read_word(&cb, &t), a ^ b ^ c);
    }
    println!("Xor3TestCircuit test passed.");
}

#[test]
fn test_xor4_single_layer() {
    let mut rng = rand::thread_rng();
    for _ in 0..5 {
        let a: u32 = rng.gen();
        let b: u32 = rng.gen();
        let c: u32 = rng.gen();
        let d: u32 = rng.gen();
        let mut cb = CircuitBuilder::new();
        let aw = input_word(&mut cb, a);
        let bw = input_word(&mut cb, b);
        let cw = input_word(&mut cb, c);
        let dw = input_word(&mut cb, d);
        let tmp1 = xor(&mut cb, &aw, &bw);
        let tmp2 = xor(&mut cb, &cw, &dw);
        let t = xor(&mut cb, &tmp1, &tmp2);
        assert_eq!(read_word(&cb, &t), a ^ b ^ c ^ d);
    }
    println!("Xor4TestCircuit test passed.");
}

#[test]
fn test_xor5_single_layer() {
    let mut rng = rand::thread_rng();
    for _ in 0..5 {
        let a: u32 = rng.gen();
        let b: u32 = rng.gen();
        let c: u32 = rng.gen();
        let d: u32 = rng.gen();
        let e: u32 = rng.gen();
        let mut cb = CircuitBuilder::new();
        let aw = input_word(&mut cb, a);
        let bw = input_word(&mut cb, b);
        let cw = input_word(&mut cb, c);
        let dw = input_word(&mut cb, d);
        let ew = input_word(&mut cb, e);
        let tmp1 = xor(&mut cb, &aw, &bw);
        let tmp2 = xor(&mut cb, &cw, &dw);
        let tmp3 = xor(&mut cb, &tmp1, &tmp2);
        let t = xor(&mut cb, &tmp3, &ew);
        assert_eq!(read_word(&cb, &t), a ^ b ^ c ^ d ^ e);
    }
    println!("Xor5TestCircuit test passed.");
}

#[test]
fn test_and3_layer() {
    let mut rng = rand::thread_rng();
    for _ in 0..5 {
        let a: u32 = rng.gen();
        let b: u32 = rng.gen();
        let c: u32 = rng.gen();
        let mut cb = CircuitBuilder::new();
        let aw = input_word(&mut cb, a);
        let bw = input_word(&mut cb, b);
        let cw = input_word(&mut cb, c);
        let tmp = and(&mut cb, &aw, &bw);
        let t = and(&mut cb, &tmp, &cw);
        assert_eq!(read_word(&cb, &t), a & b & c);
    }
    println!("And3TestCircuit test passed.");
}

#[test]
fn test_and4_layer() {
    let mut rng = rand::thread_rng();
    for _ in 0..5 {
        let a: u32 = rng.gen();
        let b: u32 = rng.gen();
        let c: u32 = rng.gen();
        let d: u32 = rng.gen();
        let mut cb = CircuitBuilder::new();
        let aw = input_word(&mut cb, a);
        let bw = input_word(&mut cb, b);
        let cw = input_word(&mut cb, c);
        let dw = input_word(&mut cb, d);
        let tmp1 = and(&mut cb, &aw, &bw);
        let tmp2 = and(&mut cb, &cw, &dw);
        let t = and(&mut cb, &tmp1, &tmp2);
        assert_eq!(read_word(&cb, &t), a & b & c & d);
    }
    println!("And4TestCircuit test passed.");
}

#[test]
fn test_and5_layer() {
    let mut rng = rand::thread_rng();
    for _ in 0..5 {
        let a: u32 = rng.gen();
        let b: u32 = rng.gen();
        let c: u32 = rng.gen();
        let d: u32 = rng.gen();
        let e: u32 = rng.gen();
        let mut cb = CircuitBuilder::new();
        let aw = input_word(&mut cb, a);
        let bw = input_word(&mut cb, b);
        let cw = input_word(&mut cb, c);
        let dw = input_word(&mut cb, d);
        let ew = input_word(&mut cb, e);
        let tmp1 = and(&mut cb, &aw, &bw);
        let tmp2 = and(&mut cb, &cw, &dw);
        let tmp3 = and(&mut cb, &tmp1, &tmp2);
        let t = and(&mut cb, &tmp3, &ew);
        assert_eq!(read_word(&cb, &t), a & b & c & d & e);
    }
    println!("And5TestCircuit test passed.");
}

#[test]
fn test_ch_function_correctness() {
    let mut rng = rand::thread_rng();
    for _ in 0..5 {
        let x: u32 = rng.gen();
        let y: u32 = rng.gen();
        let z: u32 = rng.gen();
        let expected = (x & y) ^ ((!x) & z);
        let mut cb = CircuitBuilder::new();
        let xw = input_word(&mut cb, x);
        let yw = input_word(&mut cb, y);
        let zw = input_word(&mut cb, z);
        let result = ch(&mut cb, &xw, &yw, &zw);
        assert_eq!(read_word(&cb, &result), expected);
    }
    println!("ChTestCircuit test passed.");
}

#[test]
fn test_maj_correctness() {
    let mut rng = rand::thread_rng();
    for _ in 0..5 {
        let x: u32 = rng.gen();
        let y: u32 = rng.gen();
        let z: u32 = rng.gen();
        let expected = (x & y) ^ (x & z) ^ (y & z);
        let mut cb = CircuitBuilder::new();
        let xw = input_word(&mut cb, x);
        let yw = input_word(&mut cb, y);
        let zw = input_word(&mut cb, z);
        let result = maj(&mut cb, &xw, &yw, &zw);
        assert_eq!(read_word(&cb, &result), expected);
    }
    println!("MajTestCircuit test passed.");
}

#[test]
fn test_sigma0_single_layer() {
    let mut rng = rand::thread_rng();
    for _ in 0..5 {
        let x: u32 = rng.gen();
        let rot2 = x.rotate_right(2);
        let rot13 = x.rotate_right(13);
        let rot22 = x.rotate_right(22);
        let sigma = rot2 ^ rot13 ^ rot22;
        let mut cb = CircuitBuilder::new();
        let xw = input_word(&mut cb, x);
        let result = capital_sigma0(&mut cb, &xw);
        assert_eq!(read_word(&cb, &result), sigma);
    }
    println!("Sigma0TestCircuit test passed.");
}

#[test]
fn test_not_word_gadget() {
    let mut rng = rand::thread_rng();
    for _ in 0..5 {
        let x: u32 = rng.gen();
        let mut cb = CircuitBuilder::new();
        let xw = input_word(&mut cb, x);
        let r = not(&mut cb, &xw);
        assert_eq!(read_word(&cb, &r), !x);
    }
}

#[test]
fn test_constraints_recorded() {
    let mut cb = CircuitBuilder::new();
    let x = cb.input(true);
    let y = cb.input(true);
    let z = cb.input(false);
    cb.assert_equal(x, y);
    assert_eq!(cb.constraints.len(), 1);
    cb.assert_equal(x, z);
    assert_eq!(cb.constraints.len(), 2);
    assert_eq!(cb.value(x), true);
    assert_eq!(cb.value(z), false);
}

#[test]
fn test_array_logic_gadgets() {
    let mut rng = rand::thread_rng();
    for _ in 0..5 {
        let a_val: u32 = rng.gen();
        let b_val: u32 = rng.gen();
        let mut cb = CircuitBuilder::new();
        let a = input_word(&mut cb, a_val);
        let b = input_word(&mut cb, b_val);
        let xor_res = xor_array(&mut cb, &a, &b);
        let and_res = and_array(&mut cb, &a, &b);
        let not_res = not_array(&mut cb, &a);
        assert_eq!(read_word(&cb, &xor_res), a_val ^ b_val);
        assert_eq!(read_word(&cb, &and_res), a_val & b_val);
        assert_eq!(read_word(&cb, &not_res), !a_val);
    }
    println!("ArrayLogicCircuit passed.");
}
