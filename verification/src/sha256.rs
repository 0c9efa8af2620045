//! The SHA-256 engine: padding, hash state, message-schedule expansion, the
//! 64-round compression loop in its carry-save form, and digest extraction —
//! together with the functional specification of SHA-256 over bit sequences
//! that the engine is verified against.
//!
//! The compression loop builds each round's two working sums through four
//! carry-save stages and one propagating add per output; its contract states
//! that the words produced are bit-identical to the direct
//! `T1 = h + S1(e) + Ch(e,f,g) + K[i] + W[i]`, `T2 = S0(a) + Maj(a,b,c)`
//! formulation, which is what the specification below writes down.

use crate::bitmath::{
    add_words, csa_carry_words, csa_sum_words, lemma_add_words_value, lemma_csa_value,
    lemma_mod_add_congruent, lemma_word_val_inj, word_val,
};
use crate::circuit::{live_seq, vals_of, Bit, CircuitBuilder};
use crate::gadgets::{
    big_sigma0_bits, big_sigma1_bits, capital_sigma0, capital_sigma1, ch, ch_bits,
    lower_case_sigma0, lower_case_sigma1, maj, maj_bits, small_sigma0_bits, small_sigma1_bits,
};
use crate::ripple::add_const;
use crate::wallace::add_csa3;
use crate::word::{u32_to_bit, u32_word, u64_to_bit, u64_word, Word};
use vstd::arithmetic::div_mod::{
    lemma_add_mod_noop_right, lemma_mod_multiples_vanish, lemma_mod_self_0, lemma_small_mod,
};
use vstd::arithmetic::power2::{lemma_pow2_pos, pow2};
use vstd::prelude::*;

verus! {

broadcast use crate::circuit::lemma_vals_of_stable, crate::circuit::lemma_extends_trans;

/// The 64 round constants: one per compression round, `K[0]` first.
pub open spec fn k_spec(i: int) -> u32 {
    if i == 0 {
        0x428a2f98
    } else if i == 1 {
        0x71374491
    } else if i == 2 {
        0xb5c0fbcf
    } else if i == 3 {
        0xe9b5dba5
    } else if i == 4 {
        0x3956c25b
    } else if i == 5 {
        0x59f111f1
    } else if i == 6 {
        0x923f82a4
    } else if i == 7 {
        0xab1c5ed5
    } else if i == 8 {
        0xd807aa98
    } else if i == 9 {
        0x12835b01
    } else if i == 10 {
        0x243185be
    } else if i == 11 {
        0x550c7dc3
    } else if i == 12 {
        0x72be5d74
    } else if i == 13 {
        0x80deb1fe
    } else if i == 14 {
        0x9bdc06a7
    } else if i == 15 {
        0xc19bf174
    } else if i == 16 {
        0xe49b69c1
    } else if i == 17 {
        0xefbe4786
    } else if i == 18 {
        0x0fc19dc6
    } else if i == 19 {
        0x240ca1cc
    } else if i == 20 {
        0x2de92c6f
    } else if i == 21 {
        0x4a7484aa
    } else if i == 22 {
        0x5cb0a9dc
    } else if i == 23 {
        0x76f988da
    } else if i == 24 {
        0x983e5152
    } else if i == 25 {
        0xa831c66d
    } else if i == 26 {
        0xb00327c8
    } else if i == 27 {
        0xbf597fc7
    } else if i == 28 {
        0xc6e00bf3
    } else if i == 29 {
        0xd5a79147
    } else if i == 30 {
        0x06ca6351
    } else if i == 31 {
        0x14292967
    } else if i == 32 {
        0x27b70a85
    } else if i == 33 {
        0x2e1b2138
    } else if i == 34 {
        0x4d2c6dfc
    } else if i == 35 {
        0x53380d13
    } else if i == 36 {
        0x650a7354
    } else if i == 37 {
        0x766a0abb
    } else if i == 38 {
        0x81c2c92e
    } else if i == 39 {
        0x92722c85
    } else if i == 40 {
        0xa2bfe8a1
    } else if i == 41 {
        0xa81a664b
    } else if i == 42 {
        0xc24b8b70
    } else if i == 43 {
        0xc76c51a3
    } else if i == 44 {
        0xd192e819
    } else if i == 45 {
        0xd6990624
    } else if i == 46 {
        0xf40e3585
    } else if i == 47 {
        0x106aa070
    } else if i == 48 {
        0x19a4c116
    } else if i == 49 {
        0x1e376c08
    } else if i == 50 {
        0x2748774c
    } else if i == 51 {
        0x34b0bcb5
    } else if i == 52 {
        0x391c0cb3
    } else if i == 53 {
        0x4ed8aa4a
    } else if i == 54 {
        0x5b9cca4f
    } else if i == 55 {
        0x682e6ff3
    } else if i == 56 {
        0x748f82ee
    } else if i == 57 {
        0x78a5636f
    } else if i == 58 {
        0x84c87814
    } else if i == 59 {
        0x8cc70208
    } else if i == 60 {
        0x90befffa
    } else if i == 61 {
        0xa4506ceb
    } else if i == 62 {
        0xbef9a3f7
    } else if i == 63 {
        0xc67178f2
    } else {
        0
    }
}

/// The round constant `K[i]`, as executable code.
pub fn k_at(i: usize) -> (r: u32)
    requires
        i < 64,
    ensures
        r == k_spec(i as int),
{
    if i == 0 {
        0x428a2f98
    } else if i == 1 {
        0x71374491
    } else if i == 2 {
        0xb5c0fbcf
    } else if i == 3 {
        0xe9b5dba5
    } else if i == 4 {
        0x3956c25b
    } else if i == 5 {
        0x59f111f1
    } else if i == 6 {
        0x923f82a4
    } else if i == 7 {
        0xab1c5ed5
    } else if i == 8 {
        0xd807aa98
    } else if i == 9 {
        0x12835b01
    } else if i == 10 {
        0x243185be
    } else if i == 11 {
        0x550c7dc3
    } else if i == 12 {
        0x72be5d74
    } else if i == 13 {
        0x80deb1fe
    } else if i == 14 {
        0x9bdc06a7
    } else if i == 15 {
        0xc19bf174
    } else if i == 16 {
        0xe49b69c1
    } else if i == 17 {
        0xefbe4786
    } else if i == 18 {
        0x0fc19dc6
    } else if i == 19 {
        0x240ca1cc
    } else if i == 20 {
        0x2de92c6f
    } else if i == 21 {
        0x4a7484aa
    } else if i == 22 {
        0x5cb0a9dc
    } else if i == 23 {
        0x76f988da
    } else if i == 24 {
        0x983e5152
    } else if i == 25 {
        0xa831c66d
    } else if i == 26 {
        0xb00327c8
    } else if i == 27 {
        0xbf597fc7
    } else if i == 28 {
        0xc6e00bf3
    } else if i == 29 {
        0xd5a79147
    } else if i == 30 {
        0x06ca6351
    } else if i == 31 {
        0x14292967
    } else if i == 32 {
        0x27b70a85
    } else if i == 33 {
        0x2e1b2138
    } else if i == 34 {
        0x4d2c6dfc
    } else if i == 35 {
        0x53380d13
    } else if i == 36 {
        0x650a7354
    } else if i == 37 {
        0x766a0abb
    } else if i == 38 {
        0x81c2c92e
    } else if i == 39 {
        0x92722c85
    } else if i == 40 {
        0xa2bfe8a1
    } else if i == 41 {
        0xa81a664b
    } else if i == 42 {
        0xc24b8b70
    } else if i == 43 {
        0xc76c51a3
    } else if i == 44 {
        0xd192e819
    } else if i == 45 {
        0xd6990624
    } else if i == 46 {
        0xf40e3585
    } else if i == 47 {
        0x106aa070
    } else if i == 48 {
        0x19a4c116
    } else if i == 49 {
        0x1e376c08
    } else if i == 50 {
        0x2748774c
    } else if i == 51 {
        0x34b0bcb5
    } else if i == 52 {
        0x391c0cb3
    } else if i == 53 {
        0x4ed8aa4a
    } else if i == 54 {
        0x5b9cca4f
    } else if i == 55 {
        0x682e6ff3
    } else if i == 56 {
        0x748f82ee
    } else if i == 57 {
        0x78a5636f
    } else if i == 58 {
        0x84c87814
    } else if i == 59 {
        0x8cc70208
    } else if i == 60 {
        0x90befffa
    } else if i == 61 {
        0xa4506ceb
    } else if i == 62 {
        0xbef9a3f7
    } else if i == 63 {
        0xc67178f2
    } else {
        0
    }
}

/// The eight initial hash words `H[0]..H[7]`.
pub open spec fn h_init_spec(i: int) -> u32 {
    if i == 0 {
        0x6a09e667
    } else if i == 1 {
        0xbb67ae85
    } else if i == 2 {
        0x3c6ef372
    } else if i == 3 {
        0xa54ff53a
    } else if i == 4 {
        0x510e527f
    } else if i == 5 {
        0x9b05688c
    } else if i == 6 {
        0x1f83d9ab
    } else if i == 7 {
        0x5be0cd19
    } else {
        0
    }
}

/// The initial hash word `H[i]`, as executable code.
pub fn h_init_at(i: usize) -> (r: u32)
    requires
        i < 8,
    ensures
        r == h_init_spec(i as int),
{
    if i == 0 {
        0x6a09e667
    } else if i == 1 {
        0xbb67ae85
    } else if i == 2 {
        0x3c6ef372
    } else if i == 3 {
        0xa54ff53a
    } else if i == 4 {
        0x510e527f
    } else if i == 5 {
        0x9b05688c
    } else if i == 6 {
        0x1f83d9ab
    } else if i == 7 {
        0x5be0cd19
    } else {
        0
    }
}

/// The message-schedule word `W[i]` of one 512-bit block: the first sixteen
/// are read from the block, the rest derived by
/// `W[i] = s1(W[i-2]) + W[i-7] + s0(W[i-15]) + W[i-16]`.
pub open spec fn msg_sched(block: Seq<bool>, i: int) -> Seq<bool>
    decreases i,
{
    if i < 16 {
        block.subrange(32 * i, 32 * i + 32)
    } else {
        add_words(
            add_words(small_sigma1_bits(msg_sched(block, i - 2)), msg_sched(block, i - 7)),
            add_words(small_sigma0_bits(msg_sched(block, i - 15)), msg_sched(block, i - 16)),
        )
    }
}

/// Round temporary `T1 = h + S1(e) + Ch(e,f,g) + (W[i] + K[i])`.
pub open spec fn round_t1(prev: Seq<Seq<bool>>, block: Seq<bool>, i: int) -> Seq<bool> {
    add_words(
        add_words(prev[7], big_sigma1_bits(prev[4])),
        add_words(
            ch_bits(prev[4], prev[5], prev[6]),
            add_words(msg_sched(block, i), u32_word(k_spec(i))),
        ),
    )
}

/// Round temporary `T2 = S0(a) + Maj(a,b,c)`.
pub open spec fn round_t2(prev: Seq<Seq<bool>>) -> Seq<bool> {
    add_words(big_sigma0_bits(prev[0]), maj_bits(prev[0], prev[1], prev[2]))
}

/// The eight working variables after `i` rounds of the compression loop.
pub open spec fn compress_rounds(block: Seq<bool>, st: Seq<Seq<bool>>, i: int) -> Seq<Seq<bool>>
    decreases i,
{
    if i <= 0 {
        st
    } else {
        let p = compress_rounds(block, st, i - 1);
        seq![
            add_words(round_t1(p, block, i - 1), round_t2(p)),
            p[0],
            p[1],
            p[2],
            add_words(p[3], round_t1(p, block, i - 1)),
            p[4],
            p[5],
            p[6],
        ]
    }
}

/// One 512-bit block folded into the running state: 64 rounds, then each
/// state word is updated by adding its pre-block value.
pub open spec fn compress_block(st: Seq<Seq<bool>>, block: Seq<bool>) -> Seq<Seq<bool>> {
    Seq::new(8, |j: int| add_words(st[j], compress_rounds(block, st, 64)[j]))
}

/// The eight initial hash words.
pub open spec fn init_state_spec() -> Seq<Seq<bool>> {
    Seq::new(8, |j: int| u32_word(h_init_spec(j)))
}

/// How many zero bits padding inserts after the one bit for a message of `n`
/// bits: up to the next length congruent to 448 modulo 512.
pub open spec fn zero_pad_count(n: nat) -> int {
    (447 - n as int) % 512
}

/// A padded message: the message, a one bit, zeros to the boundary, and the
/// original length in 64 big-endian bits.
pub open spec fn pad_bits(msg: Seq<bool>) -> Seq<bool> {
    msg + seq![true] + Seq::new(zero_pad_count(msg.len()) as nat, |x: int| false) + u64_word(
        msg.len() as u64,
    )
}

/// The hash state after the first `nb` blocks of a padded message.
pub open spec fn sha_blocks(padded: Seq<bool>, nb: int) -> Seq<Seq<bool>>
    decreases nb,
{
    if nb <= 0 {
        init_state_spec()
    } else {
        compress_block(sha_blocks(padded, nb - 1), padded.subrange(512 * (nb - 1), 512 * nb))
    }
}

/// The 256 digest bits of a message: the concatenation of the eight state
/// words after every block of the padded message has been compressed.
pub open spec fn sha256_bits(msg: Seq<bool>) -> Seq<bool> {
    let padded = pad_bits(msg);
    let fin = sha_blocks(padded, padded.len() as int / 512);
    Seq::new(256, |i: int| fin[i / 32][i % 32])
}

/// The per-word values of a list of state words under one valuation.
pub open spec fn state_vals(cb: CircuitBuilder, st: Seq<Word>) -> Seq<Seq<bool>> {
    Seq::new(st.len(), |j: int| st[j].bitvals(cb))
}

/// Every schedule word is 32 bits wide.
pub proof fn lemma_msg_sched_len(block: Seq<bool>, i: int)
    requires
        block.len() == 512,
        0 <= i,
    ensures
        msg_sched(block, i).len() == 32,
    decreases i,
{
    if i >= 16 {
        lemma_msg_sched_len(block, i - 2);
        lemma_msg_sched_len(block, i - 7);
        lemma_msg_sched_len(block, i - 15);
        lemma_msg_sched_len(block, i - 16);
    }
}

/// The round state always holds eight 32-bit words.
pub proof fn lemma_state_shape(block: Seq<bool>, st: Seq<Seq<bool>>, i: int)
    requires
        st.len() == 8,
        forall|j: int| 0 <= j < 8 ==> (#[trigger] st[j]).len() == 32,
        0 <= i,
    ensures
        compress_rounds(block, st, i).len() == 8,
        forall|j: int| 0 <= j < 8 ==> (#[trigger] compress_rounds(block, st, i)[j]).len() == 32,
    decreases i,
{
    if i > 0 {
        lemma_state_shape(block, st, i - 1);
    }
}

/// Two engines fed identical message bits produce identical digests: the
/// digest is a function of the message values alone.
pub proof fn lemma_digest_deterministic(m1: Seq<bool>, m2: Seq<bool>)
    requires
        m1 == m2,
    ensures
        sha256_bits(m1) == sha256_bits(m2),
{
}

/// The SHA-256 construction engine: an append-only buffer of message bits,
/// consumed exactly once by `finalize`.
#[derive(Debug)]
pub struct SHA256GF2 {
    pub data: Vec<Bit>,
    pub finalized: bool,
}

impl Default for SHA256GF2 {
    fn default() -> (r: Self)
        ensures
            r.data@.len() == 0,
            r.finalized == false,
    {
        SHA256GF2 { data: Vec::new(), finalized: false }
    }
}

impl Clone for SHA256GF2 {
    fn clone(&self) -> (r: Self)
        ensures
            r.data@ == self.data@,
            r.finalized == self.finalized,
    {
        let mut data: Vec<Bit> = Vec::new();
        let n = self.data.len();
        for i in 0..n
            invariant
                n == self.data@.len(),
                data@.len() == i,
                forall|j: int| 0 <= j < i ==> data@[j] == self.data@[j],
        {
            data.push(self.data[i]);
        }
        proof {
            assert(data@ =~= self.data@);
        }
        SHA256GF2 { data, finalized: self.finalized }
    }
}

impl SHA256GF2 {
    /// All buffered message bits are wires of `cb`.
    pub open spec fn wf(self, cb: CircuitBuilder) -> bool {
        live_seq(cb, self.data@)
    }

    /// The buffered message, as values.
    pub open spec fn msg_vals(self, cb: CircuitBuilder) -> Seq<bool> {
        vals_of(cb, self.data@)
    }

    /// A fresh engine with an empty message buffer.
    pub fn new() -> (r: Self)
        ensures
            r.data@.len() == 0,
            r.finalized == false,
    {
        SHA256GF2 { data: Vec::new(), finalized: false }
    }

    /// Append message bits; the input need not be aligned to 512 bits.
    pub fn update(&mut self, data: &[Bit])
        requires
            old(self).finalized == false,
        ensures
            final(self).data@ == old(self).data@ + data@,
            final(self).finalized == false,
    {
        let ghost orig = self.data@;
        let n = data.len();
        for i in 0..n
            invariant
                n == data@.len(),
                self.finalized == false,
                self.data@.len() == orig.len() + i,
                forall|j: int| 0 <= j < orig.len() ==> self.data@[j] == orig[j],
                forall|j: int| 0 <= j < i ==> self.data@[orig.len() + j] == data@[j],
        {
            let b = *vstd::slice::slice_index_get(data, i);
            self.data.push(b);
        }
        proof {
            assert(self.data@ =~= orig + data@);
        }
    }

    /// One 512-bit block folded into the running hash state.  The loop uses
    /// the carry-save formulation — two three-operand stages per working sum,
    /// then one propagating add — and the contract states that the result is
    /// bit-identical to the direct `T1`/`T2` round recurrence.
    #[verifier::rlimit(100)]
    pub fn sha256_compress(
        &self,
        cb: &mut CircuitBuilder,
        state: &mut Vec<Word>,
        input: &Vec<Bit>,
    )
        requires
            old(cb).wf(),
            old(state)@.len() == 8,
            forall|j: int| 0 <= j < 8 ==> (#[trigger] old(state)@[j]).wf(*old(cb)),
            input@.len() == 512,
            live_seq(*old(cb), input@),
        ensures
            final(cb).wf(),
            final(cb).extends(*old(cb)),
            final(state)@.len() == 8,
            forall|j: int| 0 <= j < 8 ==> (#[trigger] final(state)@[j]).wf(*final(cb)),
            state_vals(*final(cb), final(state)@) == compress_block(
                state_vals(*old(cb), old(state)@),
                vals_of(*old(cb), input@),
            ),
    {
        let ghost cb0 = *cb;
        let ghost st0 = state_vals(cb0, state@);
        let ghost blockv = vals_of(cb0, input@);
        proof {
            assert forall|j: int| 0 <= j < 8 implies (#[trigger] st0[j]).len() == 32 by {
                assert(st0[j] == state@[j].bitvals(cb0));
            }
        }

        let mut a = state[0].clone();
        let mut b = state[1].clone();
        let mut c = state[2].clone();
        let mut d = state[3].clone();
        let mut e = state[4].clone();
        let mut f = state[5].clone();
        let mut g = state[6].clone();
        let mut h = state[7].clone();
        proof {
            assert(compress_rounds(blockv, st0, 0) == st0);
            assert(a.bitvals(cb0) == state@[0].bitvals(cb0));
            assert(b.bitvals(cb0) == state@[1].bitvals(cb0));
            assert(c.bitvals(cb0) == state@[2].bitvals(cb0));
            assert(d.bitvals(cb0) == state@[3].bitvals(cb0));
            assert(e.bitvals(cb0) == state@[4].bitvals(cb0));
            assert(f.bitvals(cb0) == state@[5].bitvals(cb0));
            assert(g.bitvals(cb0) == state@[6].bitvals(cb0));
            assert(h.bitvals(cb0) == state@[7].bitvals(cb0));
        }

        // W[0..16] are read straight from the block: handle copies, no gates.
        let mut w: Vec<Word> = Vec::new();
        for i in 0..16usize
            invariant
                *cb == cb0,
                cb0.wf(),
                input@.len() == 512,
                live_seq(cb0, input@),
                blockv == vals_of(cb0, input@),
                w@.len() == i,
                forall|t: int|
                    0 <= t < i ==> (#[trigger] w@[t]).wf(cb0) && w@[t].bitvals(cb0) == msg_sched(
                        blockv,
                        t,
                    ),
        {
            let mut bits: Vec<Bit> = Vec::new();
            for jj in 0..32usize
                invariant
                    i < 16,
                    input@.len() == 512,
                    bits@.len() == jj,
                    forall|t: int| 0 <= t < jj ==> bits@[t] == input@[32 * (i as int) + t],
            {
                bits.push(input[32 * i + jj]);
            }
            let wd = Word { bits };
            w.push(wd);
            proof {
                assert forall|t: int| 0 <= t < 32 implies cb0.live(
                    #[trigger] w@[i as int].bits@[t],
                ) by {
                    assert(w@[i as int].bits@[t] == input@[32 * (i as int) + t]);
                }
                assert(w@[i as int].bitvals(cb0) =~= msg_sched(blockv, i as int));
            }
        }

        // W[16..64]: three two-operand adds per schedule word.
        for i in 16..64usize
            invariant
                16 <= i <= 64,
                cb0.wf(),
                cb.wf(),
                cb.extends(cb0),
                blockv.len() == 512,
                w@.len() == i,
                forall|t: int|
                    0 <= t < i ==> (#[trigger] w@[t]).wf(*cb) && w@[t].bitvals(*cb) == msg_sched(
                        blockv,
                        t,
                    ),
        {
            let ghost cbh = *cb;
            let ghost wprev = w@;
            let s1g = lower_case_sigma1(cb, &w[i - 2]);
            let ghost cba = *cb;
            let s0sum = crate::wallace::add(cb, &s1g, &w[i - 7]);
            let ghost cbb = *cb;
            let s0g = lower_case_sigma0(cb, &w[i - 15]);
            let ghost cbc = *cb;
            let s1sum = crate::wallace::add(cb, &s0g, &w[i - 16]);
            let ghost cbd = *cb;
            let wi = crate::wallace::add(cb, &s0sum, &s1sum);
            w.push(wi);
            proof {
                let ii = i as int;
                assert(s1g.bitvals(cba) == small_sigma1_bits(msg_sched(blockv, ii - 2)));
                assert(w@[ii - 7] == wprev[ii - 7]);
                assert(wprev[ii - 7].bitvals(cba) == msg_sched(blockv, ii - 7));
                assert(s0sum.bitvals(cbb) == add_words(
                    small_sigma1_bits(msg_sched(blockv, ii - 2)),
                    msg_sched(blockv, ii - 7),
                ));
                assert(s0g.bitvals(cbc) == small_sigma0_bits(msg_sched(blockv, ii - 15)));
                assert(wprev[ii - 16].bitvals(cbc) == msg_sched(blockv, ii - 16));
                assert(s1sum.bitvals(cbd) == add_words(
                    small_sigma0_bits(msg_sched(blockv, ii - 15)),
                    msg_sched(blockv, ii - 16),
                ));
                assert(s0sum.bitvals(cbd) == s0sum.bitvals(cbb));
                assert(wi.bitvals(*cb) == add_words(s0sum.bitvals(cbd), s1sum.bitvals(cbd)));
                assert(wi.bitvals(*cb) == msg_sched(blockv, ii));
                assert forall|t: int|
                    0 <= t < ii + 1 implies (#[trigger] w@[t]).wf(*cb) && w@[t].bitvals(*cb)
                    == msg_sched(blockv, t) by {
                    if t < ii {
                        assert(w@[t] == wprev[t]);
                        assert(wprev[t].bitvals(cbh) == msg_sched(blockv, t));
                        assert(w@[t].bitvals(*cb) == w@[t].bitvals(cbh));
                    }
                }
            }
        }

        // The 64-round compression loop, in its carry-save form.
        let ghost cbw = *cb;
        for i in 0..64usize
            invariant
                cbw.wf(),
                cb.wf(),
                cb.extends(cbw),
                blockv.len() == 512,
                st0.len() == 8,
                forall|j: int| 0 <= j < 8 ==> (#[trigger] st0[j]).len() == 32,
                w@.len() == 64,
                forall|t: int|
                    0 <= t < 64 ==> (#[trigger] w@[t]).wf(cbw) && w@[t].bitvals(cbw) == msg_sched(
                        blockv,
                        t,
                    ),
                a.wf(*cb) && a.bitvals(*cb) == compress_rounds(blockv, st0, i as int)[0],
                b.wf(*cb) && b.bitvals(*cb) == compress_rounds(blockv, st0, i as int)[1],
                c.wf(*cb) && c.bitvals(*cb) == compress_rounds(blockv, st0, i as int)[2],
                d.wf(*cb) && d.bitvals(*cb) == compress_rounds(blockv, st0, i as int)[3],
                e.wf(*cb) && e.bitvals(*cb) == compress_rounds(blockv, st0, i as int)[4],
                f.wf(*cb) && f.bitvals(*cb) == compress_rounds(blockv, st0, i as int)[5],
                g.wf(*cb) && g.bitvals(*cb) == compress_rounds(blockv, st0, i as int)[6],
                h.wf(*cb) && h.bitvals(*cb) == compress_rounds(blockv, st0, i as int)[7],
        {
            let ghost cbh = *cb;
            let ghost prev = compress_rounds(blockv, st0, i as int);
            proof {
                lemma_state_shape(blockv, st0, i as int);
                lemma_msg_sched_len(blockv, i as int);
                assert(w@[i as int].bitvals(cbw) == msg_sched(blockv, i as int));
                assert(w@[i as int].bitvals(*cb) == w@[i as int].bitvals(cbw));
            }
            let kc = k_at(i);
            let w_plus_k = add_const(cb, &w[i], kc);
            let ghost cbr1 = *cb;
            let csig1 = capital_sigma1(cb, &e);
            let ghost cbr2 = *cb;
            let chefg = ch(cb, &e, &f, &g);
            let ghost cbr3 = *cb;
            let csig0 = capital_sigma0(cb, &a);
            let ghost cbr4 = *cb;
            let majabc = maj(cb, &a, &b, &c);
            let ghost cbr5 = *cb;
            let (s1c, c1c) = add_csa3(cb, &h, &w_plus_k, &csig1);
            let ghost cbr6 = *cb;
            let (s2c, c2c) = add_csa3(cb, &chefg, &csig0, &majabc);
            let ghost cbr7 = *cb;
            let (s3c, c3c) = add_csa3(cb, &s1c, &c1c, &s2c);
            let ghost cbr8 = *cb;
            let (s4c, c4c) = add_csa3(cb, &s3c, &c3c, &c2c);
            let ghost cbr9 = *cb;
            let t_2 = crate::wallace::add(cb, &s4c, &c4c);
            let ghost cbr10 = *cb;
            let (s5c, c5c) = add_csa3(cb, &d, &chefg, &s1c);
            let ghost cbr11 = *cb;
            let (s6c, c6c) = add_csa3(cb, &c1c, &s5c, &c5c);
            let ghost cbr12 = *cb;
            let t_1 = crate::wallace::add(cb, &s6c, &c6c);
            proof {
                let ii = i as int;
                let m = pow2(32) as int;
                lemma_pow2_pos(32);
                let av_ = prev[0];
                let bv_ = prev[1];
                let cv_ = prev[2];
                let dv = prev[3];
                let ev = prev[4];
                let fv = prev[5];
                let gv = prev[6];
                let hv = prev[7];
                let wks = add_words(msg_sched(blockv, ii), u32_word(k_spec(ii)));
                let sig1v = big_sigma1_bits(ev);
                let chv = ch_bits(ev, fv, gv);
                let sig0v = big_sigma0_bits(av_);
                let majv = maj_bits(av_, bv_, cv_);
                // What each gadget of the round produced.
                assert(w_plus_k.bitvals(cbr1) == wks);
                assert(csig1.bitvals(cbr2) == sig1v);
                assert(chefg.bitvals(cbr3) == chv);
                assert(csig0.bitvals(cbr4) == sig0v);
                assert(majabc.bitvals(cbr5) == majv);
                let s1v = csa_sum_words(hv, wks, sig1v);
                let c1v = csa_carry_words(hv, wks, sig1v);
                let s2v = csa_sum_words(chv, sig0v, majv);
                let c2v = csa_carry_words(chv, sig0v, majv);
                assert(h.bitvals(cbr5) == hv);
                assert(w_plus_k.bitvals(cbr5) == wks);
                assert(csig1.bitvals(cbr5) == sig1v);
                assert(s1c.bitvals(cbr6) == s1v);
                assert(c1c.bitvals(cbr6) == c1v);
                assert(chefg.bitvals(cbr6) == chv);
                assert(csig0.bitvals(cbr6) == sig0v);
                assert(majabc.bitvals(cbr6) == majv);
                assert(s2c.bitvals(cbr7) == s2v);
                assert(c2c.bitvals(cbr7) == c2v);
                let s3v = csa_sum_words(s1v, c1v, s2v);
                let c3v = csa_carry_words(s1v, c1v, s2v);
                assert(s1c.bitvals(cbr7) == s1v);
                assert(c1c.bitvals(cbr7) == c1v);
                assert(s3c.bitvals(cbr8) == s3v);
                assert(c3c.bitvals(cbr8) == c3v);
                let s4v = csa_sum_words(s3v, c3v, c2v);
                let c4v = csa_carry_words(s3v, c3v, c2v);
                assert(c2c.bitvals(cbr8) == c2v);
                assert(s4c.bitvals(cbr9) == s4v);
                assert(c4c.bitvals(cbr9) == c4v);
                assert(t_2.bitvals(cbr10) == add_words(s4v, c4v));
                let s5v = csa_sum_words(dv, chv, s1v);
                let c5v = csa_carry_words(dv, chv, s1v);
                assert(d.bitvals(cbr10) == dv);
                assert(chefg.bitvals(cbr10) == chv);
                assert(s1c.bitvals(cbr10) == s1v);
                assert(s5c.bitvals(cbr11) == s5v);
                assert(c5c.bitvals(cbr11) == c5v);
                let s6v = csa_sum_words(c1v, s5v, c5v);
                let c6v = csa_carry_words(c1v, s5v, c5v);
                assert(c1c.bitvals(cbr11) == c1v);
                assert(s6c.bitvals(cbr12) == s6v);
                assert(c6c.bitvals(cbr12) == c6v);
                assert(t_1.bitvals(*cb) == add_words(s6v, c6v));
                assert(t_2.bitvals(*cb) == t_2.bitvals(cbr10));
                // Word values of every stage.
                lemma_csa_value(hv, wks, sig1v);
                lemma_csa_value(chv, sig0v, majv);
                lemma_csa_value(s1v, c1v, s2v);
                lemma_csa_value(s3v, c3v, c2v);
                lemma_csa_value(dv, chv, s1v);
                lemma_csa_value(c1v, s5v, c5v);
                lemma_add_words_value(s4v, c4v);
                lemma_add_words_value(s6v, c6v);
                let vh = word_val(hv) as int;
                let vwk = word_val(wks) as int;
                let vsg1 = word_val(sig1v) as int;
                let vch = word_val(chv) as int;
                let vsg0 = word_val(sig0v) as int;
                let vmj = word_val(majv) as int;
                let vd = word_val(dv) as int;
                let vs1 = word_val(s1v) as int;
                let vc1 = word_val(c1v) as int;
                let vs2 = word_val(s2v) as int;
                let vc2 = word_val(c2v) as int;
                let vs3 = word_val(s3v) as int;
                let vc3 = word_val(c3v) as int;
                let vs4 = word_val(s4v) as int;
                let vc4 = word_val(c4v) as int;
                let vs5 = word_val(s5v) as int;
                let vc5 = word_val(c5v) as int;
                let vs6 = word_val(s6v) as int;
                let vc6 = word_val(c6v) as int;
                assert((vs1 + vc1) % m == (vh + vwk + vsg1) % m);
                assert((vs2 + vc2) % m == (vch + vsg0 + vmj) % m);
                assert((vs3 + vc3) % m == (vs1 + vc1 + vs2) % m);
                assert((vs4 + vc4) % m == (vs3 + vc3 + vc2) % m);
                assert((vs5 + vc5) % m == (vd + vch + vs1) % m);
                assert((vs6 + vc6) % m == (vc1 + vs5 + vc5) % m);
                // The two propagating adds, as values.
                assert(word_val(t_2.bitvals(*cb)) as int == (vs4 + vc4) % m);
                assert(word_val(t_1.bitvals(*cb)) as int == (vs6 + vc6) % m);
                // Fold the carry-save chain into one modular sum.
                lemma_mod_add_congruent(vs3 + vc3, vc2, vs1 + vc1 + vs2, vc2, m);
                lemma_mod_add_congruent(vs1 + vc1, vs2 + vc2, vh + vwk + vsg1, vs2 + vc2, m);
                lemma_mod_add_congruent(
                    vh + vwk + vsg1,
                    vs2 + vc2,
                    vh + vwk + vsg1,
                    vch + vsg0 + vmj,
                    m,
                );
                assert((vs4 + vc4) % m == (vh + vwk + vsg1 + vch + vsg0 + vmj) % m);
                lemma_mod_add_congruent(vc1, vs5 + vc5, vc1, vd + vch + vs1, m);
                lemma_mod_add_congruent(vd + vch, vs1 + vc1, vd + vch, vh + vwk + vsg1, m);
                assert((vs6 + vc6) % m == (vd + vch + vh + vwk + vsg1) % m);
                // The specification's direct sums have the same values.
                lemma_add_words_value(hv, sig1v);
                lemma_add_words_value(chv, wks);
                lemma_add_words_value(add_words(hv, sig1v), add_words(chv, wks));
                lemma_add_words_value(sig0v, majv);
                assert(round_t1(prev, blockv, ii) == add_words(
                    add_words(hv, sig1v),
                    add_words(chv, wks),
                ));
                assert(round_t2(prev) == add_words(sig0v, majv));
                vstd::arithmetic::div_mod::lemma_add_mod_noop(vh + vsg1, vch + vwk, m);
                assert(word_val(round_t1(prev, blockv, ii)) as int == (vh + vsg1 + vch + vwk)
                    % m);
                let vt1 = word_val(round_t1(prev, blockv, ii)) as int;
                let vt2 = word_val(round_t2(prev)) as int;
                lemma_add_words_value(round_t1(prev, blockv, ii), round_t2(prev));
                vstd::arithmetic::div_mod::lemma_add_mod_noop(
                    vh + vsg1 + vch + vwk,
                    vsg0 + vmj,
                    m,
                );
                assert(word_val(add_words(round_t1(prev, blockv, ii), round_t2(prev))) as int == (
                vh + vsg1 + vch + vwk + vsg0 + vmj) % m);
                lemma_add_words_value(dv, round_t1(prev, blockv, ii));
                lemma_add_mod_noop_right(vd, vh + vsg1 + vch + vwk, m);
                assert(word_val(add_words(dv, round_t1(prev, blockv, ii))) as int == (vd + vh
                    + vsg1 + vch + vwk) % m);
                // Bit-identical: equal values of 32-bit words are equal words.
                assert(t_2.bitvals(*cb).len() == 32);
                assert(t_1.bitvals(*cb).len() == 32);
                lemma_word_val_inj(
                    t_2.bitvals(*cb),
                    add_words(round_t1(prev, blockv, ii), round_t2(prev)),
                );
                lemma_word_val_inj(t_1.bitvals(*cb), add_words(dv, round_t1(prev, blockv, ii)));
                // The rotated working variables keep their values.
                assert(a.bitvals(*cb) == av_);
                assert(b.bitvals(*cb) == bv_);
                assert(c.bitvals(*cb) == cv_);
                assert(d.bitvals(*cb) == dv);
                assert(e.bitvals(*cb) == ev);
                assert(f.bitvals(*cb) == fv);
                assert(g.bitvals(*cb) == gv);
                assert(compress_rounds(blockv, st0, ii + 1) == seq![
                    add_words(round_t1(prev, blockv, ii), round_t2(prev)),
                    prev[0],
                    prev[1],
                    prev[2],
                    add_words(prev[3], round_t1(prev, blockv, ii)),
                    prev[4],
                    prev[5],
                    prev[6],
                ]);
            }
            h = g;
            g = f;
            f = e;
            e = t_1;
            d = c;
            c = b;
            b = a;
            a = t_2;
        }

        // Add the final working variables into the running state.
        let ghost r64 = compress_rounds(blockv, st0, 64);
        let ghost cbf0 = *cb;
        proof {
            lemma_state_shape(blockv, st0, 64);
            assert(state@[0].bitvals(cbf0) == state@[0].bitvals(cb0));
        }
        let ns0 = crate::wallace::add(cb, &state[0], &a);
        let ghost cbf1 = *cb;
        proof {
            assert(state@[1].bitvals(cbf1) == state@[1].bitvals(cb0));
            assert(b.bitvals(cbf1) == r64[1]);
        }
        let ns1 = crate::wallace::add(cb, &state[1], &b);
        let ghost cbf2 = *cb;
        proof {
            assert(state@[2].bitvals(cbf2) == state@[2].bitvals(cb0));
            assert(c.bitvals(cbf2) == r64[2]);
        }
        let ns2 = crate::wallace::add(cb, &state[2], &c);
        let ghost cbf3 = *cb;
        proof {
            assert(state@[3].bitvals(cbf3) == state@[3].bitvals(cb0));
            assert(d.bitvals(cbf3) == r64[3]);
        }
        let ns3 = crate::wallace::add(cb, &state[3], &d);
        let ghost cbf4 = *cb;
        proof {
            assert(state@[4].bitvals(cbf4) == state@[4].bitvals(cb0));
            assert(e.bitvals(cbf4) == r64[4]);
        }
        let ns4 = crate::wallace::add(cb, &state[4], &e);
        let ghost cbf5 = *cb;
        proof {
            assert(state@[5].bitvals(cbf5) == state@[5].bitvals(cb0));
            assert(f.bitvals(cbf5) == r64[5]);
        }
        let ns5 = crate::wallace::add(cb, &state[5], &f);
        let ghost cbf6 = *cb;
        proof {
            assert(state@[6].bitvals(cbf6) == state@[6].bitvals(cb0));
            assert(g.bitvals(cbf6) == r64[6]);
        }
        let ns6 = crate::wallace::add(cb, &state[6], &g);
        let ghost cbf7 = *cb;
        proof {
            assert(state@[7].bitvals(cbf7) == state@[7].bitvals(cb0));
            assert(h.bitvals(cbf7) == r64[7]);
        }
        let ns7 = crate::wallace::add(cb, &state[7], &h);
        let ghost cbf8 = *cb;

        state[0] = ns0;
        state[1] = ns1;
        state[2] = ns2;
        state[3] = ns3;
        state[4] = ns4;
        state[5] = ns5;
        state[6] = ns6;
        state[7] = ns7;
        proof {
            assert forall|j: int|
                0 <= j < 8 implies (#[trigger] state@[j]).wf(*cb) && state@[j].bitvals(*cb)
                == compress_block(st0, blockv)[j] by {
                if j == 0 {
                    assert(state@[0] == ns0);
                    assert(ns0.bitvals(cbf1) == add_words(st0[0], r64[0]));
                    assert(ns0.bitvals(*cb) == ns0.bitvals(cbf1));
                } else if j == 1 {
                    assert(state@[1] == ns1);
                    assert(ns1.bitvals(cbf2) == add_words(st0[1], r64[1]));
                    assert(ns1.bitvals(*cb) == ns1.bitvals(cbf2));
                } else if j == 2 {
                    assert(state@[2] == ns2);
                    assert(ns2.bitvals(cbf3) == add_words(st0[2], r64[2]));
                    assert(ns2.bitvals(*cb) == ns2.bitvals(cbf3));
                } else if j == 3 {
                    assert(state@[3] == ns3);
                    assert(ns3.bitvals(cbf4) == add_words(st0[3], r64[3]));
                    assert(ns3.bitvals(*cb) == ns3.bitvals(cbf4));
                } else if j == 4 {
                    assert(state@[4] == ns4);
                    assert(ns4.bitvals(cbf5) == add_words(st0[4], r64[4]));
                    assert(ns4.bitvals(*cb) == ns4.bitvals(cbf5));
                } else if j == 5 {
                    assert(state@[5] == ns5);
                    assert(ns5.bitvals(cbf6) == add_words(st0[5], r64[5]));
                    assert(ns5.bitvals(*cb) == ns5.bitvals(cbf6));
                } else if j == 6 {
                    assert(state@[6] == ns6);
                    assert(ns6.bitvals(cbf7) == add_words(st0[6], r64[6]));
                    assert(ns6.bitvals(*cb) == ns6.bitvals(cbf7));
                } else {
                    assert(state@[7] == ns7);
                    assert(ns7.bitvals(cbf8) == add_words(st0[7], r64[7]));
                }
                assert(compress_block(st0, blockv)[j] == add_words(st0[j], r64[j]));
            }
            assert(state_vals(*cb, state@) =~= compress_block(st0, blockv));
        }
    }

    /// Pad the buffered message, fold each 512-bit block into the hash
    /// state, and return the 256 digest bits.  Each engine instance is
    /// finalized exactly once; hash further data with a fresh engine.
    #[verifier::rlimit(100)]
    pub fn finalize(&mut self, cb: &mut CircuitBuilder) -> (r: Vec<Bit>)
        requires
            old(cb).wf(),
            old(self).wf(*old(cb)),
            old(self).finalized == false,
            old(self).data@.len() + 576 <= usize::MAX,
        ensures
            final(cb).wf(),
            final(cb).extends(*old(cb)),
            final(self).finalized == true,
            final(self).data@.len() as int == old(self).data@.len() + 1 + zero_pad_count(
                old(self).data@.len(),
            ) + 64,
            final(self).data@.len() as int % 512 == 0,
            live_seq(*final(cb), r@),
            r@.len() == 256,
            vals_of(*final(cb), r@) == sha256_bits(old(self).msg_vals(*old(cb))),
    {
        let ghost cb0 = *cb;
        let ghost msgv = vals_of(cb0, self.data@);
        let data_len = self.data.len();

        // Padding: a one bit, zeros to the boundary, the length in 64 bits.
        let one = cb.constant(true);
        self.data.push(one);
        let zero = cb.constant(false);
        let ghost cb1 = *cb;
        let ghost dsnap1 = self.data@;

        let rem = data_len % 512;
        let z: usize = if rem <= 447 {
            447 - rem
        } else {
            447 + 512 - rem
        };
        proof {
            let li = data_len as int;
            vstd::arithmetic::div_mod::lemma_fundamental_div_mod(li, 512);
            lemma_mod_multiples_vanish(-(li / 512), 447 - rem as int, 512);
            assert(447 - li == 512 * (-(li / 512)) + (447 - rem as int));
            if rem <= 447 {
                lemma_small_mod((447 - rem) as nat, 512);
            } else {
                vstd::arithmetic::div_mod::lemma_mod_add_multiples_vanish(447 - rem as int, 512);
                lemma_small_mod((959 - rem) as nat, 512);
            }
            assert(z as int == zero_pad_count(msgv.len()));
        }

        let mut t: usize = 0;
        while t < z
            invariant
                t <= z,
                z <= 511,
                data_len + 576 <= usize::MAX,
                dsnap1.len() == data_len + 1,
                cb1.wf(),
                *cb == cb1,
                cb1.live(zero),
                cb1.val(zero) == false,
                self.data@.len() == dsnap1.len() + t,
                forall|j: int| 0 <= j < dsnap1.len() ==> self.data@[j] == dsnap1[j],
                forall|j: int|
                    dsnap1.len() <= j < dsnap1.len() + t ==> self.data@[j] == zero,
                self.finalized == false,
            decreases z - t,
        {
            self.data.push(zero);
            t = t + 1;
        }

        let lenbits = u64_to_bit(cb, data_len as u64);
        let ghost cb2 = *cb;
        let ghost dsnap2 = self.data@;
        let mut t2: usize = 0;
        while t2 < 64
            invariant
                t2 <= 64,
                dsnap2.len() == data_len + 1 + z,
                data_len + 576 <= usize::MAX,
                lenbits@.len() == 64,
                cb2.wf(),
                *cb == cb2,
                live_seq(cb2, lenbits@),
                self.data@.len() == dsnap2.len() + t2,
                forall|j: int| 0 <= j < dsnap2.len() ==> self.data@[j] == dsnap2[j],
                forall|j: int|
                    0 <= j < t2 ==> self.data@[dsnap2.len() + j] == lenbits@[j],
                self.finalized == false,
            decreases 64 - t2,
        {
            self.data.push(lenbits[t2]);
            t2 = t2 + 1;
        }

        proof {
            let li = data_len as int;
            let mlen = msgv.len() as int;
            assert(mlen == li);
            assert(self.data@.len() == li + 1 + z + 64);
            // The appended wires carry exactly the padding the spec writes.
            assert(pad_bits(msgv).len() == li + 1 + z + 64);
            assert forall|idx: int|
                0 <= idx < self.data@.len() implies cb2.live(#[trigger] self.data@[idx])
                && cb2.val(self.data@[idx]) == pad_bits(msgv)[idx] by {
                if idx < mlen {
                    assert(self.data@[idx] == dsnap2[idx]);
                    assert(dsnap2[idx] == dsnap1[idx]);
                    assert(cb0.val(self.data@[idx]) == msgv[idx]);
                    assert(pad_bits(msgv)[idx] == msgv[idx]);
                } else if idx == mlen {
                    assert(self.data@[idx] == dsnap1[idx]);
                    assert(dsnap1[idx] == one);
                    assert(pad_bits(msgv)[idx] == true);
                } else if idx < mlen + 1 + z {
                    assert(self.data@[idx] == dsnap2[idx]);
                    assert(dsnap2[idx] == zero);
                    assert(pad_bits(msgv)[idx] == false);
                } else {
                    assert(self.data@[idx] == lenbits@[idx - (mlen + 1 + z)]);
                    assert(vals_of(cb2, lenbits@)[idx - (mlen + 1 + z)] == u64_word(
                        data_len as u64,
                    )[idx - (mlen + 1 + z)]);
                    assert(pad_bits(msgv)[idx] == u64_word(msgv.len() as u64)[idx - (mlen + 1
                        + z)]);
                }
            }
            assert(vals_of(cb2, self.data@) =~= pad_bits(msgv));
            // The padded length is a multiple of 512.
            lemma_add_mod_noop_right(li + 65, 447 - li, 512);
            lemma_mod_self_0(512);
            assert((li + 65 + zero_pad_count(msgv.len())) % 512 == 0);
        }

        // Initial hash state.
        let mut state: Vec<Word> = Vec::new();
        let ghost cbs = *cb;
        for j in 0..8usize
            invariant
                cbs.wf(),
                cb.wf(),
                cb.extends(cbs),
                state@.len() == j,
                forall|u: int|
                    0 <= u < j ==> (#[trigger] state@[u]).wf(*cb) && state@[u].bitvals(*cb)
                        == init_state_spec()[u],
        {
            let ghost cbj = *cb;
            let ghost sprev = state@;
            let hw = h_init_at(j);
            let wd = u32_to_bit(cb, hw);
            state.push(wd);
            proof {
                assert(init_state_spec()[j as int] == u32_word(h_init_spec(j as int)));
                assert forall|u: int|
                    0 <= u < j + 1 implies (#[trigger] state@[u]).wf(*cb) && state@[u].bitvals(
                    *cb,
                ) == init_state_spec()[u] by {
                    if u < j {
                        assert(state@[u] == sprev[u]);
                        assert(sprev[u].bitvals(cbj) == init_state_spec()[u]);
                    }
                }
            }
        }

        // One compression per 512-bit block.
        let ghost padded = pad_bits(msgv);
        let ghost cb3 = *cb;
        let ghost dfinal = self.data@;
        let total = self.data.len();
        let n_blocks = total / 512;
        proof {
            vstd::arithmetic::div_mod::lemma_fundamental_div_mod(total as int, 512);
            assert(total as int == 512 * (n_blocks as int));
            assert(vals_of(cb3, self.data@) == vals_of(cb2, self.data@));
            assert(sha_blocks(padded, 0) == init_state_spec());
            assert(state_vals(*cb, state@) =~= sha_blocks(padded, 0));
        }
        for blk in 0..n_blocks
            invariant
                cb3.wf(),
                cb.wf(),
                cb.extends(cb3),
                self.data@ == dfinal,
                self.finalized == false,
                total == dfinal.len(),
                total as int == 512 * (n_blocks as int),
                live_seq(cb3, dfinal),
                vals_of(cb3, dfinal) == padded,
                padded == pad_bits(msgv),
                padded.len() == total,
                state@.len() == 8,
                forall|u: int| 0 <= u < 8 ==> (#[trigger] state@[u]).wf(*cb),
                state_vals(*cb, state@) == sha_blocks(padded, blk as int),
        {
            let ghost cbh = *cb;
            let mut chunk: Vec<Bit> = Vec::new();
            for j3 in 0..512usize
                invariant
                    blk < n_blocks,
                    total == self.data@.len(),
                    total as int == 512 * (n_blocks as int),
                    self.data@ == dfinal,
                    chunk@.len() == j3,
                    forall|u: int|
                        0 <= u < j3 ==> chunk@[u] == dfinal[512 * (blk as int) + u],
            {
                proof {
                    assert(512 * (blk as int) + 512 <= 512 * (n_blocks as int)) by (nonlinear_arith)
                        requires
                            blk as int + 1 <= n_blocks as int,
                    ;
                }
                chunk.push(self.data[512 * blk + j3]);
            }
            proof {
                assert(512 * (blk as int) + 512 <= 512 * (n_blocks as int)) by (nonlinear_arith)
                    requires
                        blk as int + 1 <= n_blocks as int,
                ;
                assert forall|u: int| 0 <= u < 512 implies cb.live(#[trigger] chunk@[u])
                    && cb.val(chunk@[u]) == padded.subrange(
                    512 * (blk as int),
                    512 * (blk as int) + 512,
                )[u] by {
                    assert(chunk@[u] == dfinal[512 * (blk as int) + u]);
                    assert(cb3.val(dfinal[512 * (blk as int) + u]) == padded[512 * (blk as int)
                        + u]);
                }
                assert(vals_of(*cb, chunk@) =~= padded.subrange(
                    512 * (blk as int),
                    512 * (blk as int) + 512,
                ));
            }
            self.sha256_compress(cb, &mut state, &chunk);
            proof {
                assert(sha_blocks(padded, blk as int + 1) == compress_block(
                    sha_blocks(padded, blk as int),
                    padded.subrange(512 * (blk as int), 512 * (blk as int) + 512),
                ));
            }
        }

        // Digest: the eight state words, concatenated.
        let ghost fin = sha_blocks(padded, n_blocks as int);
        let ghost cb4 = *cb;
        let mut out: Vec<Bit> = Vec::new();
        for j in 0..8usize
            invariant
                cb4.wf(),
                *cb == cb4,
                state@.len() == 8,
                forall|u: int| 0 <= u < 8 ==> (#[trigger] state@[u]).wf(cb4),
                state_vals(cb4, state@) == fin,
                out@.len() == 32 * j,
                forall|idx: int|
                    0 <= idx < 32 * j ==> cb4.live(#[trigger] out@[idx]) && cb4.val(out@[idx])
                        == fin[idx / 32][idx % 32],
        {
            for t3 in 0..32usize
                invariant
                    j < 8,
                    cb4.wf(),
                    *cb == cb4,
                    state@.len() == 8,
                    forall|u: int| 0 <= u < 8 ==> (#[trigger] state@[u]).wf(cb4),
                    state_vals(cb4, state@) == fin,
                    out@.len() == 32 * j + t3,
                    forall|idx: int|
                        0 <= idx < 32 * j + t3 ==> cb4.live(#[trigger] out@[idx]) && cb4.val(
                            out@[idx],
                        ) == fin[idx / 32][idx % 32],
            {
                out.push(state[j].bits[t3]);
                proof {
                    let idx = 32 * (j as int) + t3 as int;
                    assert(idx / 32 == j as int && idx % 32 == t3 as int);
                    assert(state@[j as int].bitvals(cb4) == fin[j as int]);
                    assert(cb4.val(out@[idx]) == state@[j as int].bitvals(cb4)[t3 as int]);
                }
            }
        }
        proof {
            assert(padded.len() as int / 512 == n_blocks as int);
            assert(vals_of(*cb, out@) =~= sha256_bits(msgv));
        }
        self.finalized = true;
        out
    }
}
} // verus!
