//! The library's laws against the ordinary machine-integer reading of words:
//! every bit-string operation used by the gadgets agrees with the
//! corresponding `u32` operation, the carry-save pair followed by one add
//! yields the three-operand sum, and a word's value round-trips through its
//! bits.

use crate::bitmath::{
    add_words, bit_as_nat, csa_carry_words, csa_sum_words, le_val_k, lemma_add_words_value,
    lemma_csa_value, rev, word_val,
};
use crate::gadgets::{
    big_sigma0_bits, big_sigma1_bits, ch_bits, maj_bits, small_sigma0_bits, small_sigma1_bits,
};
use crate::word::{and_bits, not_bits, rotr_bits, shr_bits, u32_word, xor_bits};
use vstd::arithmetic::div_mod::{
    lemma_mod_breakdown, lemma_mod_sub_multiples_vanish, lemma_small_mod,
};
use vstd::arithmetic::power2::{lemma2_to64, lemma_pow2_adds, lemma_pow2_pos, pow2};
use vstd::bits::{lemma_u32_low_bits_mask_is_mod, lemma_u32_shr_is_div};
use vstd::prelude::*;

verus! {

/// `x` rotated right by `k` as a machine integer.
pub open spec fn rotr_u32(x: u32, k: u32) -> u32 {
    if k == 0 {
        x
    } else {
        (x >> k) | (x << ((32 - k) as u32))
    }
}

/// Bit `j` (significance order) of the exclusive-or is the exclusive-or of
/// the bits.
proof fn lemma_u32_bit_xor(x: u32, y: u32)
    by (bit_vector)
    ensures
        forall|j: u32|
            j < 32 ==> ((#[trigger] ((x ^ y) >> j)) & 1 == 1) == (((x >> j) & 1 == 1) != ((y >> j)
                & 1 == 1)),
{
}

/// Bit `j` of the logical-and is the conjunction of the bits.
proof fn lemma_u32_bit_and(x: u32, y: u32)
    by (bit_vector)
    ensures
        forall|j: u32|
            j < 32 ==> ((#[trigger] ((x & y) >> j)) & 1 == 1) == (((x >> j) & 1 == 1) && ((y >> j)
                & 1 == 1)),
{
}

/// Bit `j` of the complement is the negated bit.
proof fn lemma_u32_bit_not(x: u32)
    by (bit_vector)
    ensures
        forall|j: u32|
            j < 32 ==> ((#[trigger] ((!x) >> j)) & 1 == 1) == !((x >> j) & 1 == 1),
{
}

/// Bit `j` of a logical right shift reads `j + k`, or zero above the top.
proof fn lemma_u32_bit_shr(x: u32, k: u32)
    by (bit_vector)
    requires
        k < 32,
    ensures
        forall|j: u32|
            j < 32 ==> ((#[trigger] ((x >> k) >> j)) & 1 == 1) == (j + k < 32 && ((x >> ((j + k) as u32))
                & 1 == 1)),
{
}

/// Bit `j` of a right rotation reads `(j + k) mod 32`.
proof fn lemma_u32_bit_rotr(x: u32, k: u32)
    by (bit_vector)
    requires
        k < 32,
    ensures
        forall|j: u32|
            j < 32 ==> ((#[trigger] (rotr_u32(x, k) >> j)) & 1 == 1) == ((x >> (((j + k) as u32) % 32)) & 1
                == 1),
{
}

/// Big-endian index arithmetic under rotation: the source index of a rotated
/// bit corresponds to the rotated significance.
proof fn lemma_rot_index(i: int, k: int)
    requires
        0 <= i < 32,
        0 <= k < 32,
    ensures
        0 <= (i + 32 - k) % 32 < 32,
        31 - ((i + 32 - k) % 32) == ((31 - i) + k) % 32,
{
    if i >= k {
        lemma_mod_sub_multiples_vanish(i + 32 - k, 32);
        lemma_small_mod((i - k) as nat, 32);
        lemma_small_mod((31 - i + k) as nat, 32);
    } else {
        lemma_small_mod((i + 32 - k) as nat, 32);
        lemma_mod_sub_multiples_vanish(31 - i + k, 32);
        lemma_small_mod((k - i - 1) as nat, 32);
    }
}

/// The bits of the exclusive-or are the exclusive-or of the bits.
pub proof fn lemma_xor_bits_u32(x: u32, y: u32)
    ensures
        xor_bits(u32_word(x), u32_word(y)) == u32_word(x ^ y),
{
    lemma_u32_bit_xor(x, y);
    assert forall|i: int| 0 <= i < 32 implies xor_bits(u32_word(x), u32_word(y))[i] == u32_word(
        x ^ y,
    )[i] by {
        let j = (31 - i) as u32;
        assert(((x ^ y) >> j) & 1 == 1 <==> (((x >> j) & 1 == 1) != ((y >> j) & 1 == 1)));
    }
    assert(xor_bits(u32_word(x), u32_word(y)) =~= u32_word(x ^ y));
}

/// The bits of the logical-and are the conjunctions of the bits.
pub proof fn lemma_and_bits_u32(x: u32, y: u32)
    ensures
        and_bits(u32_word(x), u32_word(y)) == u32_word(x & y),
{
    lemma_u32_bit_and(x, y);
    assert forall|i: int| 0 <= i < 32 implies and_bits(u32_word(x), u32_word(y))[i] == u32_word(
        x & y,
    )[i] by {
        let j = (31 - i) as u32;
        assert(((x & y) >> j) & 1 == 1 <==> (((x >> j) & 1 == 1) && ((y >> j) & 1 == 1)));
    }
    assert(and_bits(u32_word(x), u32_word(y)) =~= u32_word(x & y));
}

/// The bits of the complement are the negated bits.
pub proof fn lemma_not_bits_u32(x: u32)
    ensures
        not_bits(u32_word(x)) == u32_word(!x),
{
    lemma_u32_bit_not(x);
    assert forall|i: int| 0 <= i < 32 implies not_bits(u32_word(x))[i] == u32_word(!x)[i] by {
        let j = (31 - i) as u32;
        assert(((!x) >> j) & 1 == 1 <==> !((x >> j) & 1 == 1));
    }
    assert(not_bits(u32_word(x)) =~= u32_word(!x));
}

/// Rotating the bit string right matches the machine rotation: standard
/// bitwise semantics of `rotate_right` for every offset.
pub proof fn lemma_rotr_bits_u32(x: u32, k: u32)
    requires
        k < 32,
    ensures
        rotr_bits(u32_word(x), k as int) == u32_word(rotr_u32(x, k)),
{
    lemma_u32_bit_rotr(x, k);
    assert forall|i: int| 0 <= i < 32 implies rotr_bits(u32_word(x), k as int)[i] == u32_word(
        rotr_u32(x, k),
    )[i] by {
        lemma_rot_index(i, k as int);
        let src = (i + 32 - k) % 32;
        assert(rotr_bits(u32_word(x), k as int)[i] == u32_word(x)[src]);
        let j = (31 - i) as u32;
        assert((rotr_u32(x, k) >> j) & 1 == 1 <==> ((x >> (((j + k) as u32) % 32)) & 1 == 1));
        assert(((j + k) as u32) % 32 == ((31 - i) + k as int) % 32);
        assert(u32_word(x)[src] == ((x >> ((31 - src) as u32)) & 1 == 1));
        assert((31 - src) as u32 == ((j + k) as u32) % 32);
    }
    assert(rotr_bits(u32_word(x), k as int) =~= u32_word(rotr_u32(x, k)));
}

/// Shifting the bit string right matches the machine shift: standard bitwise
/// semantics of `shift_right` for every offset.
pub proof fn lemma_shr_bits_u32(x: u32, k: u32)
    requires
        k < 32,
    ensures
        shr_bits(u32_word(x), k as int) == u32_word(x >> k),
{
    lemma_u32_bit_shr(x, k);
    assert forall|i: int| 0 <= i < 32 implies shr_bits(u32_word(x), k as int)[i] == u32_word(
        x >> k,
    )[i] by {
        let j = (31 - i) as u32;
        assert(((x >> k) >> j) & 1 == 1 <==> (j + k < 32 && ((x >> ((j + k) as u32)) & 1 == 1)));
        if i >= k {
            assert(((j + k) as u32) == (31 - (i - k)) as u32);
        }
    }
    assert(shr_bits(u32_word(x), k as int) =~= u32_word(x >> k));
}

/// `Ch` on bit strings is the machine formula `(x AND y) XOR (NOT x AND z)`.
pub proof fn lemma_ch_bits_u32(x: u32, y: u32, z: u32)
    ensures
        ch_bits(u32_word(x), u32_word(y), u32_word(z)) == u32_word((x & y) ^ (!x & z)),
{
    lemma_and_bits_u32(x, y);
    lemma_not_bits_u32(x);
    lemma_and_bits_u32(!x, z);
    lemma_xor_bits_u32(x & y, !x & z);
    assert(ch_bits(u32_word(x), u32_word(y), u32_word(z)) =~= xor_bits(
        and_bits(u32_word(x), u32_word(y)),
        and_bits(not_bits(u32_word(x)), u32_word(z)),
    ));
}

/// `Maj` on bit strings is the machine formula
/// `(x AND y) XOR (x AND z) XOR (y AND z)`.
pub proof fn lemma_maj_bits_u32(x: u32, y: u32, z: u32)
    ensures
        maj_bits(u32_word(x), u32_word(y), u32_word(z)) == u32_word(((x & y) ^ (x & z)) ^ (y & z)),
{
    lemma_and_bits_u32(x, y);
    lemma_and_bits_u32(x, z);
    lemma_and_bits_u32(y, z);
    lemma_xor_bits_u32(x & y, x & z);
    lemma_xor_bits_u32((x & y) ^ (x & z), y & z);
    assert(maj_bits(u32_word(x), u32_word(y), u32_word(z)) =~= xor_bits(
        xor_bits(and_bits(u32_word(x), u32_word(y)), and_bits(u32_word(x), u32_word(z))),
        and_bits(u32_word(y), u32_word(z)),
    ));
}

/// Schedule sigma-0 on bit strings is `ROTR7 XOR ROTR18 XOR SHR3` on machine
/// words.
pub proof fn lemma_small_sigma0_u32(x: u32)
    ensures
        small_sigma0_bits(u32_word(x)) == u32_word((rotr_u32(x, 7) ^ rotr_u32(x, 18)) ^ (x >> 3)),
{
    lemma_rotr_bits_u32(x, 7);
    lemma_rotr_bits_u32(x, 18);
    lemma_shr_bits_u32(x, 3);
    lemma_xor_bits_u32(rotr_u32(x, 7), rotr_u32(x, 18));
    lemma_xor_bits_u32(rotr_u32(x, 7) ^ rotr_u32(x, 18), x >> 3);
}

/// Schedule sigma-1 on bit strings is `ROTR17 XOR ROTR19 XOR SHR10` on
/// machine words.
pub proof fn lemma_small_sigma1_u32(x: u32)
    ensures
        small_sigma1_bits(u32_word(x)) == u32_word((rotr_u32(x, 17) ^ rotr_u32(x, 19)) ^ (x >> 10)),
{
    lemma_rotr_bits_u32(x, 17);
    lemma_rotr_bits_u32(x, 19);
    lemma_shr_bits_u32(x, 10);
    lemma_xor_bits_u32(rotr_u32(x, 17), rotr_u32(x, 19));
    lemma_xor_bits_u32(rotr_u32(x, 17) ^ rotr_u32(x, 19), x >> 10);
}

/// Compression Sigma-0 on bit strings is `ROTR2 XOR ROTR13 XOR ROTR22` on
/// machine words.
pub proof fn lemma_big_sigma0_u32(x: u32)
    ensures
        big_sigma0_bits(u32_word(x)) == u32_word(
            (rotr_u32(x, 2) ^ rotr_u32(x, 13)) ^ rotr_u32(x, 22),
        ),
{
    lemma_rotr_bits_u32(x, 2);
    lemma_rotr_bits_u32(x, 13);
    lemma_rotr_bits_u32(x, 22);
    lemma_xor_bits_u32(rotr_u32(x, 2), rotr_u32(x, 13));
    lemma_xor_bits_u32(rotr_u32(x, 2) ^ rotr_u32(x, 13), rotr_u32(x, 22));
}

/// Compression Sigma-1 on bit strings is `ROTR6 XOR ROTR11 XOR ROTR25` on
/// machine words.
pub proof fn lemma_big_sigma1_u32(x: u32)
    ensures
        big_sigma1_bits(u32_word(x)) == u32_word(
            (rotr_u32(x, 6) ^ rotr_u32(x, 11)) ^ rotr_u32(x, 25),
        ),
{
    lemma_rotr_bits_u32(x, 6);
    lemma_rotr_bits_u32(x, 11);
    lemma_rotr_bits_u32(x, 25);
    lemma_xor_bits_u32(rotr_u32(x, 6), rotr_u32(x, 11));
    lemma_xor_bits_u32(rotr_u32(x, 6) ^ rotr_u32(x, 11), rotr_u32(x, 25));
}

/// The low bits of a machine word's bit string are worth the word modulo the
/// corresponding power of two.
proof fn lemma_u32_le_bits_val(v: u32, k: int)
    requires
        0 <= k <= 32,
    ensures
        le_val_k(rev(u32_word(v)), k) == (v as nat) % pow2(k as nat),
    decreases k,
{
    if k == 0 {
        assert(pow2(0) == 1) by {
            lemma2_to64();
        }
        assert((v as nat) % 1 == 0) by (nonlinear_arith);
    } else {
        lemma_u32_le_bits_val(v, k - 1);
        let km1 = (k - 1) as u32;
        assert(rev(u32_word(v))[k - 1] == u32_word(v)[32 - k]);
        assert(u32_word(v)[32 - k] == ((v >> ((31 - (32 - k)) as u32)) & 1 == 1));
        assert((31 - (32 - k)) as u32 == km1);
        lemma_u32_shr_is_div(v, km1);
        lemma_u32_low_bits_mask_is_mod(v >> km1, 1);
        vstd::bits::lemma_low_bits_mask_values();
        assert(pow2(1) == 2) by {
            lemma2_to64();
        }
        let q = (v as nat) / pow2((k - 1) as nat);
        assert((v >> km1) as nat == q);
        assert(((v >> km1) & 1) as nat == q % 2);
        assert(bit_as_nat(rev(u32_word(v))[k - 1]) == q % 2);
        lemma_pow2_pos((k - 1) as nat);
        lemma_mod_breakdown(v as int, pow2((k - 1) as nat) as int, 2);
        lemma_pow2_adds((k - 1) as nat, 1);
        assert(pow2(k as nat) == pow2((k - 1) as nat) * 2);
        assert((v as int) % (pow2(k as nat) as int) == pow2((k - 1) as nat) * (q % 2) + (v as int)
            % (pow2((k - 1) as nat) as int));
    }
}

/// A machine word's value round-trips through its bit string.
pub proof fn lemma_u32_word_val(v: u32)
    ensures
        word_val(u32_word(v)) == v,
{
    lemma_u32_le_bits_val(v, 32);
    assert(pow2(32) == 0x1_0000_0000) by {
        lemma2_to64();
    }
    lemma_small_mod(v as nat, pow2(32));
}

/// The adders' contract read on machine words: for all 32-bit `x` and `y`
/// the sum word holds `(x + y) mod 2^32`, bit-exactly.
pub proof fn lemma_add_u32(x: u32, y: u32)
    ensures
        word_val(add_words(u32_word(x), u32_word(y))) as int == ((x + y) as int) % (pow2(
            32,
        ) as int),
{
    lemma_add_words_value(u32_word(x), u32_word(y));
    lemma_u32_word_val(x);
    lemma_u32_word_val(y);
}

/// Adding the carry-save sum and carry words with any correct adder yields
/// the three-operand sum modulo `2^32`.
pub proof fn lemma_csa_then_add(a: Seq<bool>, b: Seq<bool>, c: Seq<bool>)
    requires
        a.len() == 32,
        b.len() == 32,
        c.len() == 32,
    ensures
        word_val(add_words(csa_sum_words(a, b, c), csa_carry_words(a, b, c))) as int == ((word_val(
            a,
        ) + word_val(b) + word_val(c)) as int) % (pow2(32) as int),
{
    lemma_csa_value(a, b, c);
    lemma_add_words_value(csa_sum_words(a, b, c), csa_carry_words(a, b, c));
}

} // verus!
