//! 32-bit words of circuit signals and the per-bit gate primitives.
//!
//! A [`Word`] is exactly 32 wires in big-endian order: index 0 is the most
//! significant bit.  The functions here apply one gate per bit (`xor`, `and`,
//! `not`), reindex without gates (`rotate_right`), or shift with fresh zero
//! constants (`shift_right`, `shift_left`).

use crate::circuit::{live_seq, vals_of, Bit, CircuitBuilder};
use vstd::prelude::*;

verus! {

broadcast use crate::circuit::lemma_vals_of_stable, crate::circuit::lemma_extends_trans;

/// A fixed sequence of exactly 32 wires, most significant bit first.
pub struct Word {
    pub bits: Vec<Bit>,
}

impl Word {
    /// Exactly 32 bits, all of them wires `cb` has allocated.
    pub open spec fn wf(self, cb: CircuitBuilder) -> bool {
        self.bits@.len() == 32 && live_seq(cb, self.bits@)
    }

    /// The 32 values of the word under `cb`'s valuation, most significant
    /// first.
    pub open spec fn bitvals(self, cb: CircuitBuilder) -> Seq<bool> {
        vals_of(cb, self.bits@)
    }

    /// The number the word denotes.
    pub open spec fn uval(self, cb: CircuitBuilder) -> nat {
        crate::bitmath::word_val(self.bitvals(cb))
    }
}

impl Clone for Word {
    fn clone(&self) -> (r: Self)
        ensures
            r.bits@ == self.bits@,
    {
        let mut bits: Vec<Bit> = Vec::new();
        let n = self.bits.len();
        for i in 0..n
            invariant
                n == self.bits@.len(),
                bits@.len() == i,
                forall|j: int| 0 <= j < i ==> bits@[j] == self.bits@[j],
        {
            bits.push(self.bits[i]);
        }
        proof {
            assert(bits@ =~= self.bits@);
        }
        Word { bits }
    }
}

/// Bitwise exclusive-or of two equal-length bit strings.
pub open spec fn xor_bits(x: Seq<bool>, y: Seq<bool>) -> Seq<bool> {
    Seq::new(x.len(), |i: int| x[i] != y[i])
}

/// Bitwise logical-and of two equal-length bit strings.
pub open spec fn and_bits(x: Seq<bool>, y: Seq<bool>) -> Seq<bool> {
    Seq::new(x.len(), |i: int| x[i] && y[i])
}

/// Bitwise complement.
pub open spec fn not_bits(x: Seq<bool>) -> Seq<bool> {
    Seq::new(x.len(), |i: int| !x[i])
}

/// Rotation of a big-endian word right by `k`: the bit at index `i` comes
/// from index `(i + 32 - k) mod 32`.
pub open spec fn rotr_bits(x: Seq<bool>, k: int) -> Seq<bool> {
    Seq::new(32, |i: int| x[(i + 32 - k) % 32])
}

/// Logical shift of a big-endian word right by `k`: the top `k` bits become
/// zero.  The same index mapping shifts a little-endian word left by `k`.
pub open spec fn shr_bits(x: Seq<bool>, k: int) -> Seq<bool> {
    Seq::new(
        32,
        |i: int|
            if i < k {
                false
            } else {
                x[i - k]
            },
    )
}

/// The 32 bits of a `u32`, most significant first.
pub open spec fn u32_word(v: u32) -> Seq<bool> {
    Seq::new(32, |j: int| (v >> ((31 - j) as u32)) & 1 == 1)
}

/// The 64 bits of a `u64`, most significant first.
pub open spec fn u64_word(v: u64) -> Seq<bool> {
    Seq::new(64, |j: int| (v >> ((63 - j) as u64)) & 1 == 1)
}

/// Per-bit exclusive-or of two words: one `Xor` gate per bit.
pub fn xor(cb: &mut CircuitBuilder, a: &Word, b: &Word) -> (r: Word)
    requires
        old(cb).wf(),
        a.wf(*old(cb)),
        b.wf(*old(cb)),
    ensures
        final(cb).wf(),
        final(cb).extends(*old(cb)),
        r.wf(*final(cb)),
        r.bitvals(*final(cb)) == xor_bits(a.bitvals(*old(cb)), b.bitvals(*old(cb))),
{
    let ghost cb0 = *cb;
    let mut bits: Vec<Bit> = Vec::new();
    for i in 0..32usize
        invariant
            cb.wf(),
            cb.extends(cb0),
            cb0.wf(),
            a.wf(cb0),
            b.wf(cb0),
            bits@.len() == i,
            forall|j: int|
                0 <= j < i ==> cb.live(#[trigger] bits@[j]) && cb.val(bits@[j]) == (a.bitvals(
                    cb0,
                )[j] != b.bitvals(cb0)[j]),
    {
        let g = cb.xor_gate(a.bits[i], b.bits[i]);
        bits.push(g);
    }
    let r = Word { bits };
    proof {
        assert(r.bitvals(*cb) =~= xor_bits(a.bitvals(cb0), b.bitvals(cb0)));
    }
    r
}

/// Per-bit logical-and of two words: one `And` gate per bit.
pub fn and(cb: &mut CircuitBuilder, a: &Word, b: &Word) -> (r: Word)
    requires
        old(cb).wf(),
        a.wf(*old(cb)),
        b.wf(*old(cb)),
    ensures
        final(cb).wf(),
        final(cb).extends(*old(cb)),
        r.wf(*final(cb)),
        r.bitvals(*final(cb)) == and_bits(a.bitvals(*old(cb)), b.bitvals(*old(cb))),
{
    let ghost cb0 = *cb;
    let mut bits: Vec<Bit> = Vec::new();
    for i in 0..32usize
        invariant
            cb.wf(),
            cb.extends(cb0),
            cb0.wf(),
            a.wf(cb0),
            b.wf(cb0),
            bits@.len() == i,
            forall|j: int|
                0 <= j < i ==> cb.live(#[trigger] bits@[j]) && cb.val(bits@[j]) == (a.bitvals(
                    cb0,
                )[j] && b.bitvals(cb0)[j]),
    {
        let g = cb.and_gate(a.bits[i], b.bits[i]);
        bits.push(g);
    }
    let r = Word { bits };
    proof {
        assert(r.bitvals(*cb) =~= and_bits(a.bitvals(cb0), b.bitvals(cb0)));
    }
    r
}

/// Per-bit complement of a word: exclusive-or with the constant one.
pub fn not(cb: &mut CircuitBuilder, a: &Word) -> (r: Word)
    requires
        old(cb).wf(),
        a.wf(*old(cb)),
    ensures
        final(cb).wf(),
        final(cb).extends(*old(cb)),
        r.wf(*final(cb)),
        r.bitvals(*final(cb)) == not_bits(a.bitvals(*old(cb))),
{
    let ghost cb0 = *cb;
    let one = cb.constant(true);
    let ghost cb1 = *cb;
    let mut bits: Vec<Bit> = Vec::new();
    for i in 0..32usize
        invariant
            cb.wf(),
            cb.extends(cb1),
            cb1.extends(cb0),
            cb1.wf(),
            cb0.wf(),
            a.wf(cb0),
            cb1.live(one),
            cb1.val(one) == true,
            bits@.len() == i,
            forall|j: int|
                0 <= j < i ==> cb.live(#[trigger] bits@[j]) && cb.val(bits@[j]) == !a.bitvals(
                    cb0,
                )[j],
    {
        proof {
            assert(cb.val(one) == cb1.val(one));
            assert(cb.val(a.bits@[i as int]) == cb0.val(a.bits@[i as int]));
        }
        let g = cb.xor_gate(a.bits[i], one);
        bits.push(g);
    }
    let r = Word { bits };
    proof {
        assert(r.bitvals(*cb) =~= not_bits(a.bitvals(cb0)));
    }
    r
}

/// Exclusive-or of two equal-length signal vectors.
pub fn xor_vec(cb: &mut CircuitBuilder, a: Vec<Bit>, b: Vec<Bit>) -> (r: Vec<Bit>)
    requires
        old(cb).wf(),
        live_seq(*old(cb), a@),
        live_seq(*old(cb), b@),
        a@.len() == b@.len(),
    ensures
        final(cb).wf(),
        final(cb).extends(*old(cb)),
        live_seq(*final(cb), r@),
        vals_of(*final(cb), r@) == xor_bits(vals_of(*old(cb), a@), vals_of(*old(cb), b@)),
{
    let ghost cb0 = *cb;
    let mut bits: Vec<Bit> = Vec::new();
    let n = a.len();
    for i in 0..n
        invariant
            cb.wf(),
            cb.extends(cb0),
            cb0.wf(),
            live_seq(cb0, a@),
            live_seq(cb0, b@),
            a@.len() == n,
            b@.len() == n,
            bits@.len() == i,
            forall|j: int|
                0 <= j < i ==> cb.live(#[trigger] bits@[j]) && cb.val(bits@[j]) == (vals_of(
                    cb0,
                    a@,
                )[j] != vals_of(cb0, b@)[j]),
    {
        let g = cb.xor_gate(a[i], b[i]);
        bits.push(g);
    }
    proof {
        assert(vals_of(*cb, bits@) =~= xor_bits(vals_of(cb0, a@), vals_of(cb0, b@)));
    }
    bits
}

/// Logical-and of two equal-length signal vectors.
pub fn and_vec(cb: &mut CircuitBuilder, a: Vec<Bit>, b: Vec<Bit>) -> (r: Vec<Bit>)
    requires
        old(cb).wf(),
        live_seq(*old(cb), a@),
        live_seq(*old(cb), b@),
        a@.len() == b@.len(),
    ensures
        final(cb).wf(),
        final(cb).extends(*old(cb)),
        live_seq(*final(cb), r@),
        vals_of(*final(cb), r@) == and_bits(vals_of(*old(cb), a@), vals_of(*old(cb), b@)),
{
    let ghost cb0 = *cb;
    let mut bits: Vec<Bit> = Vec::new();
    let n = a.len();
    for i in 0..n
        invariant
            cb.wf(),
            cb.extends(cb0),
            cb0.wf(),
            live_seq(cb0, a@),
            live_seq(cb0, b@),
            a@.len() == n,
            b@.len() == n,
            bits@.len() == i,
            forall|j: int|
                0 <= j < i ==> cb.live(#[trigger] bits@[j]) && cb.val(bits@[j]) == (vals_of(
                    cb0,
                    a@,
                )[j] && vals_of(cb0, b@)[j]),
    {
        let g = cb.and_gate(a[i], b[i]);
        bits.push(g);
    }
    proof {
        assert(vals_of(*cb, bits@) =~= and_bits(vals_of(cb0, a@), vals_of(cb0, b@)));
    }
    bits
}

/// Complement of a signal vector.
pub fn not_vec(cb: &mut CircuitBuilder, a: Vec<Bit>) -> (r: Vec<Bit>)
    requires
        old(cb).wf(),
        live_seq(*old(cb), a@),
    ensures
        final(cb).wf(),
        final(cb).extends(*old(cb)),
        live_seq(*final(cb), r@),
        vals_of(*final(cb), r@) == not_bits(vals_of(*old(cb), a@)),
{
    let ghost cb0 = *cb;
    let one = cb.constant(true);
    let ghost cb1 = *cb;
    let mut bits: Vec<Bit> = Vec::new();
    let n = a.len();
    for i in 0..n
        invariant
            cb.wf(),
            cb.extends(cb1),
            cb1.extends(cb0),
            cb1.wf(),
            cb0.wf(),
            live_seq(cb0, a@),
            a@.len() == n,
            cb1.live(one),
            cb1.val(one) == true,
            bits@.len() == i,
            forall|j: int|
                0 <= j < i ==> cb.live(#[trigger] bits@[j]) && cb.val(bits@[j]) == !vals_of(
                    cb0,
                    a@,
                )[j],
    {
        proof {
            assert(cb.val(one) == cb1.val(one));
            assert(cb.val(a@[i as int]) == cb0.val(a@[i as int]));
        }
        let g = cb.xor_gate(a[i], one);
        bits.push(g);
    }
    proof {
        assert(vals_of(*cb, bits@) =~= not_bits(vals_of(cb0, a@)));
    }
    bits
}

/// A fresh vector holding the same wire handles.
pub(crate) fn copy_bits(v: &Vec<Bit>) -> (r: Vec<Bit>)
    ensures
        r@ == v@,
{
    let mut bits: Vec<Bit> = Vec::new();
    let n = v.len();
    for i in 0..n
        invariant
            n == v@.len(),
            bits@.len() == i,
            forall|j: int| 0 <= j < i ==> bits@[j] == v@[j],
    {
        bits.push(v[i]);
    }
    proof {
        assert(bits@ =~= v@);
    }
    bits
}

/// The four consecutive handles starting at `start`.
pub(crate) fn take4(v: &Vec<Bit>, start: usize) -> (r: Vec<Bit>)
    requires
        start + 4 <= v@.len(),
    ensures
        r@ == v@.subrange(start as int, start as int + 4),
{
    let n = v.len();
    proof {
        assert(start + 4 <= n);
    }
    let mut bits: Vec<Bit> = Vec::new();
    bits.push(v[start]);
    bits.push(v[start + 1]);
    bits.push(v[start + 2]);
    bits.push(v[start + 3]);
    proof {
        assert(bits@ =~= v@.subrange(start as int, start as int + 4));
    }
    bits
}

/// The word with its 32 wire handles in reverse order: the adders use this to
/// flip between big-endian words and little-endian carry chains.
pub(crate) fn reverse_word(w: &Word) -> (r: Word)
    requires
        w.bits@.len() == 32,
    ensures
        r.bits@.len() == 32,
        forall|i: int| 0 <= i < 32 ==> r.bits@[i] == w.bits@[31 - i],
{
    let mut bits: Vec<Bit> = Vec::new();
    for i in 0..32usize
        invariant
            w.bits@.len() == 32,
            bits@.len() == i,
            forall|j: int| 0 <= j < i ==> bits@[j] == w.bits@[31 - j],
    {
        bits.push(w.bits[31 - i]);
    }
    Word { bits }
}

/// The values of a reversed word are the reversed values.
pub(crate) proof fn lemma_reverse_vals(w: Word, r: Word, cb: CircuitBuilder)
    requires
        w.wf(cb),
        r.bits@.len() == 32,
        forall|i: int| 0 <= i < 32 ==> r.bits@[i] == w.bits@[31 - i],
    ensures
        r.wf(cb),
        r.bitvals(cb) == crate::bitmath::rev(w.bitvals(cb)),
{
    assert forall|i: int| 0 <= i < 32 implies cb.live(#[trigger] r.bits@[i]) by {
        assert(r.bits@[i] == w.bits@[31 - i]);
    }
    assert(r.bitvals(cb) =~= crate::bitmath::rev(w.bitvals(cb)));
}

/// Rotate a word right by `k` positions: a pure reindexing, no gates.
pub fn rotate_right(bits: &Word, k: usize) -> (r: Word)
    requires
        bits.bits@.len() == 32,
        k <= 31,
    ensures
        r.bits@.len() == 32,
        forall|i: int| 0 <= i < 32 ==> r.bits@[i] == bits.bits@[(i + 32 - k) % 32],
{
    let s = 32 - k;
    let mut out: Vec<Bit> = Vec::new();
    for i in 0..32usize
        invariant
            bits.bits@.len() == 32,
            s == 32 - k,
            k <= 31,
            out@.len() == i,
            forall|j: int| 0 <= j < i ==> out@[j] == bits.bits@[(j + 32 - k) % 32],
    {
        out.push(bits.bits[(i + s) % 32]);
    }
    Word { bits: out }
}

/// The values of a rotated word are the rotated values.
pub proof fn lemma_rotate_vals(w: Word, r: Word, k: int, cb: CircuitBuilder)
    requires
        w.wf(cb),
        r.bits@.len() == 32,
        0 <= k <= 31,
        forall|i: int| 0 <= i < 32 ==> r.bits@[i] == w.bits@[(i + 32 - k) % 32],
    ensures
        r.wf(cb),
        r.bitvals(cb) == rotr_bits(w.bitvals(cb), k),
{
    assert forall|i: int| 0 <= i < 32 implies cb.live(#[trigger] r.bits@[i]) by {
        assert(r.bits@[i] == w.bits@[(i + 32 - k) % 32]);
    }
    assert(r.bitvals(cb) =~= rotr_bits(w.bitvals(cb), k));
}

/// Shift a word right by `k`: the top `k` positions become fresh zero
/// constants, the rest reindex.
pub fn shift_right(cb: &mut CircuitBuilder, bits: &Word, k: usize) -> (r: Word)
    requires
        old(cb).wf(),
        bits.wf(*old(cb)),
        k <= 31,
    ensures
        final(cb).wf(),
        final(cb).extends(*old(cb)),
        r.wf(*final(cb)),
        r.bitvals(*final(cb)) == shr_bits(bits.bitvals(*old(cb)), k as int),
{
    let ghost cb0 = *cb;
    let zero = cb.constant(false);
    let ghost cb1 = *cb;
    let mut out: Vec<Bit> = Vec::new();
    for i in 0..32usize
        invariant
            cb.wf(),
            cb.extends(cb1),
            cb1.extends(cb0),
            cb1.wf(),
            cb0.wf(),
            bits.wf(cb0),
            k <= 31,
            cb1.live(zero),
            cb1.val(zero) == false,
            out@.len() == i,
            forall|j: int|
                0 <= j < i ==> cb.live(#[trigger] out@[j]) && cb.val(out@[j]) == shr_bits(
                    bits.bitvals(cb0),
                    k as int,
                )[j],
    {
        if i < k {
            out.push(zero);
            proof {
                assert(cb.val(zero) == cb1.val(zero));
            }
        } else {
            out.push(bits.bits[i - k]);
            proof {
                assert(cb.val(bits.bits@[i - k]) == cb0.val(bits.bits@[i - k]));
            }
        }
    }
    let r = Word { bits: out };
    proof {
        assert(r.bitvals(*cb) =~= shr_bits(bits.bitvals(cb0), k as int));
    }
    r
}

/// Shift towards higher indices by `k`, filling vacated positions with fresh
/// zero constants.  On the little-endian operands inside the prefix adders
/// this multiplies by `2^k`.
pub fn shift_left(input: &Word, shift: usize, cb: &mut CircuitBuilder) -> (r: Word)
    requires
        old(cb).wf(),
        input.wf(*old(cb)),
        shift <= 32,
    ensures
        final(cb).wf(),
        final(cb).extends(*old(cb)),
        r.wf(*final(cb)),
        r.bitvals(*final(cb)) == shr_bits(input.bitvals(*old(cb)), shift as int),
{
    let ghost cb0 = *cb;
    let zero = cb.constant(false);
    let ghost cb1 = *cb;
    let mut out: Vec<Bit> = Vec::new();
    for i in 0..32usize
        invariant
            cb.wf(),
            cb.extends(cb1),
            cb1.extends(cb0),
            cb1.wf(),
            cb0.wf(),
            input.wf(cb0),
            shift <= 32,
            cb1.live(zero),
            cb1.val(zero) == false,
            out@.len() == i,
            forall|j: int|
                0 <= j < i ==> cb.live(#[trigger] out@[j]) && cb.val(out@[j]) == shr_bits(
                    input.bitvals(cb0),
                    shift as int,
                )[j],
    {
        if i >= shift {
            out.push(input.bits[i - shift]);
            proof {
                assert(cb.val(input.bits@[i - shift]) == cb0.val(input.bits@[i - shift]));
            }
        } else {
            out.push(zero);
            proof {
                assert(cb.val(zero) == cb1.val(zero));
            }
        }
    }
    let r = Word { bits: out };
    proof {
        assert(r.bitvals(*cb) =~= shr_bits(input.bitvals(cb0), shift as int));
    }
    r
}

/// Parse a `u32` into 32 constant wires, most significant bit first.
pub fn u32_to_bit(cb: &mut CircuitBuilder, value: u32) -> (r: Word)
    requires
        old(cb).wf(),
    ensures
        final(cb).wf(),
        final(cb).extends(*old(cb)),
        r.wf(*final(cb)),
        r.bitvals(*final(cb)) == u32_word(value),
{
    let ghost cb0 = *cb;
    let mut bits: Vec<Bit> = Vec::new();
    for i in 0..32usize
        invariant
            cb.wf(),
            cb.extends(cb0),
            cb0.wf(),
            bits@.len() == i,
            forall|j: int|
                0 <= j < i ==> cb.live(#[trigger] bits@[j]) && cb.val(bits@[j]) == u32_word(
                    value,
                )[j],
    {
        let shift: u32 = (31 - i) as u32;
        let v = (value >> shift) & 1 == 1;
        let g = cb.constant(v);
        bits.push(g);
        proof {
            assert(u32_word(value)[i as int] == v);
        }
    }
    let r = Word { bits };
    proof {
        assert(r.bitvals(*cb) =~= u32_word(value));
    }
    r
}

/// Parse a `u64` into 64 constant wires, most significant bit first.
pub fn u64_to_bit(cb: &mut CircuitBuilder, value: u64) -> (r: Vec<Bit>)
    requires
        old(cb).wf(),
    ensures
        final(cb).wf(),
        final(cb).extends(*old(cb)),
        r@.len() == 64,
        live_seq(*final(cb), r@),
        vals_of(*final(cb), r@) == u64_word(value),
{
    let ghost cb0 = *cb;
    let mut bits: Vec<Bit> = Vec::new();
    for i in 0..64usize
        invariant
            cb.wf(),
            cb.extends(cb0),
            cb0.wf(),
            bits@.len() == i,
            forall|j: int|
                0 <= j < i ==> cb.live(#[trigger] bits@[j]) && cb.val(bits@[j]) == u64_word(
                    value,
                )[j],
    {
        let shift: u64 = (63 - i) as u64;
        let v = (value >> shift) & 1 == 1;
        let g = cb.constant(v);
        bits.push(g);
        proof {
            assert(u64_word(value)[i as int] == v);
        }
    }
    proof {
        assert(vals_of(*cb, bits@) =~= u64_word(value));
    }
    bits
}

} // verus!
