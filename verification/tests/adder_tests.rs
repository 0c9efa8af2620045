//! The five adder strategies, the carry-save decomposition, constant
//! addition and multi-operand summation, checked bit-exactly against
//! wrapping machine arithmetic on randomized inputs.

use rand::Rng;
use sha256_gf2::brentkung::add_brentkung;
use sha256_gf2::circuit::{Bit, CircuitBuilder};
use sha256_gf2::hancarlson::{add_hancarlson, add_hancarlson_32_bits};
use sha256_gf2::koggestone::{add_koggestone_32_bits, add_koggestone_32_bits_prallel};
use sha256_gf2::ripple::{add_const, add_vanilla};
use sha256_gf2::sha256::k_at;
use sha256_gf2::wallace::{add, add_csa3, sum_all};
use sha256_gf2::word::{rotate_right, shift_right, Word};

fn input_word(cb: &mut CircuitBuilder, v: u32) -> Word {
    let mut bits: Vec<Bit> = Vec::new();
    for i in 0..32 {
        bits.push(cb.input((v >> (31 - i)) & 1 == 1));
    }
    Word { bits }
}

fn read_word(cb: &CircuitBuilder, w: &Word) -> u32 {
    let mut v: u32 = 0;
    for i in 0..32 {
        v <<= 1;
        if cb.value(w.bits[i]) {
            v |= 1;
        }
    }
    v
}

#[test]
fn test_koggestone_gf2() {
    let mut rng = rand::thread_rng();
    for _ in 0..5 {
        let a_val: u32 = rng.gen();
        let b_val: u32 = rng.gen();
        let expected = a_val.wrapping_add(b_val);
        let mut cb = CircuitBuilder::new();
        let a = input_word(&mut cb, a_val);
        let b = input_word(&mut cb, b_val);
        let sum = add_koggestone_32_bits(&mut cb, &a, &b);
        assert_eq!(read_word(&cb, &sum), expected);
    }
    println!("All Kogge-Stone GF2 adder tests passed.");
}

#[test]
fn test_koggestone_parallel_gf2() {
    let mut rng = rand::thread_rng();
    let n_tests = 5;
    for _ in 0..n_tests {
        let a_val: u32 = rng.gen();
        let b_val: u32 = rng.gen();
        let expected = a_val.wrapping_add(b_val);
        let mut cb = CircuitBuilder::new();
        let a = input_word(&mut cb, a_val);
        let b = input_word(&mut cb, b_val);
        let sum = add_koggestone_32_bits_prallel(&mut cb, &a, &b);
        assert_eq!(read_word(&cb, &sum), expected);
    }
    println!("All Kogge-Stone Parallel GF2 adder tests passed.");
}

#[test]
fn test_brentkung_gf2() {
    let mut rng = rand::thread_rng();
    for _ in 0..5 {
        let a_val: u32 = rng.gen();
        let b_val: u32 = rng.gen();
        let expected = a_val.wrapping_add(b_val);
        let mut cb = CircuitBuilder::new();
        let a = input_word(&mut cb, a_val);
        let b = input_word(&mut cb, b_val);
        let sum = add_brentkung(&mut cb, &a, &b);
        assert_eq!(read_word(&cb, &sum), expected);
    }
    println!("All Brent-Kung GF2 adder tests passed.");
}

#[test]
fn test_brentkung_sum_chain4() {
    let mut rng = rand::thread_rng();
    for _ in 0..5 {
        let a: u32 = rng.gen();
        let b: u32 = rng.gen();
        let c: u32 = rng.gen();
        let d: u32 = rng.gen();
        let sum1 = a.wrapping_add(b);
        let sum2 = c.wrapping_add(d);
        let sum3 = sum1.wrapping_add(sum2);
        let mut cb = CircuitBuilder::new();
        let aw = input_word(&mut cb, a);
        let bw = input_word(&mut cb, b);
        let cw = input_word(&mut cb, c);
        let dw = input_word(&mut cb, d);
        let s1 = add_brentkung(&mut cb, &aw, &bw);
        let s2 = add_brentkung(&mut cb, &cw, &dw);
        let s3 = add_brentkung(&mut cb, &s1, &s2);
        assert_eq!(read_word(&cb, &s3), sum3);
    }
    println!("Brent-Kung 4-input Sum Chain test passed.");
}

#[test]
fn test_hancarlson_gf2() {
    let mut rng = rand::thread_rng();
    for _ in 0..5 {
        let a_val: u32 = rng.gen();
        let b_val: u32 = rng.gen();
        let expected = a_val.wrapping_add(b_val);
        let mut cb = CircuitBuilder::new();
        let a = input_word(&mut cb, a_val);
        let b = input_word(&mut cb, b_val);
        let sum = add_hancarlson_32_bits(&mut cb, &a, &b);
        assert_eq!(read_word(&cb, &sum), expected);
    }
    println!("All Han-Carlson GF2 adder tests passed.");
}

#[test]
fn test_hancarlson_blocked() {
    let mut rng = rand::thread_rng();
    for _ in 0..5 {
        let a_val: u32 = rng.gen();
        let b_val: u32 = rng.gen();
        let expected = a_val.wrapping_add(b_val);
        let mut cb = CircuitBuilder::new();
        let a = input_word(&mut cb, a_val);
        let b = input_word(&mut cb, b_val);
        let sum = add_hancarlson(&mut cb, &a, &b);
        assert_eq!(read_word(&cb, &sum), expected);
    }
}

#[test]
fn test_vanilla_ripple() {
    let mut rng = rand::thread_rng();
    for _ in 0..5 {
        let a_val: u32 = rng.gen();
        let b_val: u32 = rng.gen();
        let expected = a_val.wrapping_add(b_val);
        let mut cb = CircuitBuilder::new();
        let a = input_word(&mut cb, a_val);
        let b = input_word(&mut cb, b_val);
        let sum = add_vanilla(&mut cb, &a, &b);
        assert_eq!(read_word(&cb, &sum), expected);
    }
}

#[test]
fn test_all_strategies_agree() {
    let mut rng = rand::thread_rng();
    let cases: Vec<(u32, u32)> = vec![
        (0, 0),
        (0xffff_ffff, 1),
        (0xffff_ffff, 0xffff_ffff),
        (rng.gen(), rng.gen()),
        (rng.gen(), rng.gen()),
    ];
    for (a_val, b_val) in cases {
        let expected = a_val.wrapping_add(b_val);
        let mut cb = CircuitBuilder::new();
        let a = input_word(&mut cb, a_val);
        let b = input_word(&mut cb, b_val);
        let r1 = add_vanilla(&mut cb, &a, &b);
        let r2 = add_koggestone_32_bits(&mut cb, &a, &b);
        let r3 = add_koggestone_32_bits_prallel(&mut cb, &a, &b);
        let r4 = add_brentkung(&mut cb, &a, &b);
        let r5 = add_hancarlson_32_bits(&mut cb, &a, &b);
        let r6 = add_hancarlson(&mut cb, &a, &b);
        assert_eq!(read_word(&cb, &r1), expected);
        assert_eq!(read_word(&cb, &r2), expected);
        assert_eq!(read_word(&cb, &r3), expected);
        assert_eq!(read_word(&cb, &r4), expected);
        assert_eq!(read_word(&cb, &r5), expected);
        assert_eq!(read_word(&cb, &r6), expected);
    }
}

#[test]
fn test_add_const_gf2() {
    let mut rng = rand::thread_rng();
    let b_const: u32 = 0x12345678;
    let n_tests = 5;
    for _ in 0..n_tests {
        let a_val: u32 = rng.gen();
        let expected = a_val.wrapping_add(b_const);
        let mut cb = CircuitBuilder::new();
        let a = input_word(&mut cb, a_val);
        let sum = add_const(&mut cb, &a, b_const);
        assert_eq!(read_word(&cb, &sum), expected);
    }
    println!("All add_const GF2 adder tests passed.");
}

#[test]
fn test_sum_input_plus_const_64() {
    let mut rng = rand::thread_rng();
    let mut inputs = [0u32; 64];
    let mut acc_expected = 0u32;
    for i in 0..64 {
        inputs[i] = rng.gen();
        let sum = inputs[i].wrapping_add(k_at(i));
        acc_expected = acc_expected.wrapping_add(sum);
    }
    let mut cb = CircuitBuilder::new();
    let mut acc = input_word(&mut cb, 0);
    for i in 0..64 {
        let round_input = input_word(&mut cb, inputs[i]);
        let sum = add_const(&mut cb, &round_input, k_at(i));
        acc = add(&mut cb, &acc, &sum);
    }
    assert_eq!(read_word(&cb, &acc), acc_expected);
    println!("Per-round input + constant accumulation test passed.");
}

#[test]
fn test_csa3_single() {
    let mut rng = rand::thread_rng();
    for _ in 0..5 {
        let a: u32 = rng.gen();
        let b: u32 = rng.gen();
        let c: u32 = rng.gen();
        let sum = a ^ b ^ c;
        let carry = ((a & b) ^ (a & c) ^ (b & c)) << 1;
        let mut cb = CircuitBuilder::new();
        let aw = input_word(&mut cb, a);
        let bw = input_word(&mut cb, b);
        let cw = input_word(&mut cb, c);
        let (s, cy) = add_csa3(&mut cb, &aw, &bw, &cw);
        assert_eq!(read_word(&cb, &s), sum);
        assert_eq!(read_word(&cb, &cy), carry);
    }
    println!("CSA3 adder passed!");
}

#[test]
fn test_csa3_chain() {
    let mut rng = rand::thread_rng();
    for _ in 0..5 {
        let a: u32 = rng.gen();
        let b: u32 = rng.gen();
        let c: u32 = rng.gen();
        let d: u32 = rng.gen();
        let e: u32 = rng.gen();
        let f: u32 = rng.gen();

        let sum1 = a ^ b ^ c;
        let carry1 = ((a & b) ^ (a & c) ^ (b & c)) << 1;
        let sum2 = d ^ e ^ f;
        let carry2 = ((d & e) ^ (d & f) ^ (e & f)) << 1;
        let sum3 = sum1 ^ carry1 ^ sum2;
        let carry3 = ((sum1 & carry1) ^ (sum1 & sum2) ^ (carry1 & sum2)) << 1;
        let sum4 = sum3 ^ carry3 ^ carry2;
        let carry4 = ((sum3 & carry3) ^ (sum3 & carry2) ^ (carry3 & carry2)) << 1;

        let mut cb = CircuitBuilder::new();
        let aw = input_word(&mut cb, a);
        let bw = input_word(&mut cb, b);
        let cw = input_word(&mut cb, c);
        let dw = input_word(&mut cb, d);
        let ew = input_word(&mut cb, e);
        let fw = input_word(&mut cb, f);
        let (s1, c1) = add_csa3(&mut cb, &aw, &bw, &cw);
        let (s2, c2) = add_csa3(&mut cb, &dw, &ew, &fw);
        let (s3, c3) = add_csa3(&mut cb, &s1, &c1, &s2);
        let (s4, c4) = add_csa3(&mut cb, &s3, &c3, &c2);
        assert_eq!(read_word(&cb, &s4), sum4);
        assert_eq!(read_word(&cb, &c4), carry4);
    }
    println!("CSA3 chain test passed!");
}

#[test]
fn test_koggestone_sum_chain() {
    let mut rng = rand::thread_rng();
    for _ in 0..5 {
        let a: u32 = rng.gen();
        let b: u32 = rng.gen();
        let c: u32 = rng.gen();
        let d: u32 = rng.gen();
        let e: u32 = rng.gen();
        let f: u32 = rng.gen();
        let g: u32 = rng.gen();

        let sum1 = a.wrapping_add(b);
        let sum2 = c.wrapping_add(d);
        let sum3 = sum1.wrapping_add(sum2);
        let sum4 = e.wrapping_add(f);
        let sum5 = sum3.wrapping_add(g);
        let sum6 = sum3.wrapping_add(sum4);

        let mut cb = CircuitBuilder::new();
        let aw = input_word(&mut cb, a);
        let bw = input_word(&mut cb, b);
        let cw = input_word(&mut cb, c);
        let dw = input_word(&mut cb, d);
        let ew = input_word(&mut cb, e);
        let fw = input_word(&mut cb, f);
        let gw = input_word(&mut cb, g);
        let s1 = add_koggestone_32_bits_prallel(&mut cb, &aw, &bw);
        let s2 = add_koggestone_32_bits_prallel(&mut cb, &cw, &dw);
        let s3 = add_koggestone_32_bits_prallel(&mut cb, &s1, &s2);
        let s4 = add_koggestone_32_bits_prallel(&mut cb, &ew, &fw);
        let s5 = add_koggestone_32_bits_prallel(&mut cb, &s3, &gw);
        let s6 = add_koggestone_32_bits_prallel(&mut cb, &s3, &s4);
        assert_eq!(read_word(&cb, &s5), sum5);
        assert_eq!(read_word(&cb, &s6), sum6);
    }
    println!("Sum chain test passed (sum5 and sum6 computed correctly).");
}

#[test]
fn test_wallace_bk_sum_chain() {
    let mut rng = rand::thread_rng();
    for _ in 0..5 {
        let a: u32 = rng.gen();
        let b: u32 = rng.gen();
        let c: u32 = rng.gen();
        let d: u32 = rng.gen();
        let e: u32 = rng.gen();
        let f: u32 = rng.gen();
        let g: u32 = rng.gen();

        let sum1 = a.wrapping_add(b);
        let sum2 = c.wrapping_add(d);
        let sum3 = sum1.wrapping_add(sum2);
        let sum4 = e.wrapping_add(f);
        let sum5 = sum3.wrapping_add(g);
        let sum6 = sum3.wrapping_add(sum4);

        let mut cb = CircuitBuilder::new();
        let aw = input_word(&mut cb, a);
        let bw = input_word(&mut cb, b);
        let cw = input_word(&mut cb, c);
        let dw = input_word(&mut cb, d);
        let ew = input_word(&mut cb, e);
        let fw = input_word(&mut cb, f);
        let gw = input_word(&mut cb, g);
        let (s1, c1) = add_csa3(&mut cb, &aw, &bw, &cw);
        let (s2, c2) = add_csa3(&mut cb, &dw, &ew, &fw);
        let (s3, c3) = add_csa3(&mut cb, &s1, &c1, &s2);
        let (s4, c4) = add_csa3(&mut cb, &s3, &c3, &c2);
        let out2 = add(&mut cb, &s4, &c4);
        let (s5a, c5) = add_csa3(&mut cb, &gw, &dw, &s1);
        let (s5b, c6) = add_csa3(&mut cb, &c1, &s5a, &c5);
        let out1 = add(&mut cb, &s5b, &c6);
        assert_eq!(read_word(&cb, &out1), sum5);
        assert_eq!(read_word(&cb, &out2), sum6);
    }
    println!("WallaceBKSumChain test passed with original sumchain logic.");
}

#[test]
fn test_sum_all_lists() {
    let mut rng = rand::thread_rng();
    for n in [1usize, 2, 3, 5, 8] {
        let vals: Vec<u32> = (0..n).map(|_| rng.gen()).collect();
        let mut expected = 0u32;
        for v in &vals {
            expected = expected.wrapping_add(*v);
        }
        let mut cb = CircuitBuilder::new();
        let mut words: Vec<Word> = Vec::new();
        for v in &vals {
            words.push(input_word(&mut cb, *v));
        }
        let r = sum_all(&mut cb, &words);
        assert_eq!(read_word(&cb, &r), expected);
    }
}

#[test]
fn test_rotate_shift_semantics() {
    let mut rng = rand::thread_rng();
    for _ in 0..3 {
        let x: u32 = rng.gen();
        for k in 0..32usize {
            let mut cb = CircuitBuilder::new();
            let xw = input_word(&mut cb, x);
            let rot = rotate_right(&xw, k);
            let shf = shift_right(&mut cb, &xw, k);
            assert_eq!(read_word(&cb, &rot), x.rotate_right(k as u32));
            assert_eq!(read_word(&cb, &shf), x >> k);
        }
    }
}
