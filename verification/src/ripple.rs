//! The serial adder, the baseline of the five strategies: a 32-stage chain of one-bit full adders, and
//! its specialisation for a compile-time-known operand.

use crate::bitmath::{add_words, carry_k, maj3, rev, xor3};
use crate::circuit::{Bit, CircuitBuilder};
use crate::word::{u32_word, Word};
use vstd::prelude::*;

verus! {

broadcast use crate::circuit::lemma_vals_of_stable, crate::circuit::lemma_extends_trans;

/// One-bit full adder: returns the sum bit `a XOR b XOR carry` and the carry
/// out `majority(a, b, carry)`, built from exclusive-or and logical-and gates.
pub fn bit_add_with_carry(cb: &mut CircuitBuilder, a: Bit, b: Bit, carry: Bit) -> (r: (Bit, Bit))
    requires
        old(cb).wf(),
        old(cb).live(a),
        old(cb).live(b),
        old(cb).live(carry),
    ensures
        final(cb).wf(),
        final(cb).extends(*old(cb)),
        final(cb).live(r.0),
        final(cb).live(r.1),
        final(cb).val(r.0) == xor3(old(cb).val(a), old(cb).val(b), old(cb).val(carry)),
        final(cb).val(r.1) == maj3(old(cb).val(a), old(cb).val(b), old(cb).val(carry)),
{
    let sum = cb.xor_gate(a, b);
    let sum = cb.xor_gate(sum, carry);

    let ab = cb.and_gate(a, b);
    let ac = cb.and_gate(a, carry);
    let bc = cb.and_gate(b, carry);
    let abc = cb.and_gate(ab, carry);

    let carry_next = cb.xor_gate(ab, abc);
    let carry_next = cb.xor_gate(carry_next, abc);
    let carry_next = cb.xor_gate(carry_next, ac);
    let carry_next = cb.xor_gate(carry_next, bc);

    (sum, carry_next)
}

/// The serial ripple-carry adder: `(a + b) mod 2^32`, one full adder per bit
/// from the least significant end.
pub fn add_vanilla(cb: &mut CircuitBuilder, a: &Word, b: &Word) -> (r: Word)
    requires
        old(cb).wf(),
        a.wf(*old(cb)),
        b.wf(*old(cb)),
    ensures
        final(cb).wf(),
        final(cb).extends(*old(cb)),
        r.wf(*final(cb)),
        r.bitvals(*final(cb)) == add_words(a.bitvals(*old(cb)), b.bitvals(*old(cb))),
{
    let ghost cb0 = *cb;
    let ghost av = a.bitvals(cb0);
    let ghost bv = b.bitvals(cb0);
    let ghost la = rev(av);
    let ghost lb = rev(bv);

    let zero = cb.constant(false);
    let ghost cb1 = *cb;
    let mut c: Vec<Bit> = Vec::new();
    for k in 0..32usize
        invariant
            c@.len() == k,
            forall|j: int| 0 <= j < k ==> c@[j] == zero,
    {
        c.push(zero);
    }
    let mut carry = zero;

    let mut i: usize = 32;
    while i > 0
        invariant
            i <= 32,
            cb0.wf(),
            cb1.wf(),
            cb1.extends(cb0),
            cb.wf(),
            cb.extends(cb1),
            a.wf(cb0),
            b.wf(cb0),
            av == a.bitvals(cb0),
            bv == b.bitvals(cb0),
            la == rev(av),
            lb == rev(bv),
            c@.len() == 32,
            cb.live(carry),
            cb.val(carry) == carry_k(la, lb, false, 32 - i),
            forall|j: int|
                i <= j < 32 ==> cb.live(#[trigger] c@[j]) && cb.val(c@[j]) == add_words(av, bv)[j],
        decreases i,
    {
        i = i - 1;
        let ghost cbh = *cb;
        let ghost cprev = c@;
        proof {
            assert(cb.val(a.bits@[i as int]) == av[i as int]);
            assert(cb.val(b.bits@[i as int]) == bv[i as int]);
        }
        let (s, cnext) = bit_add_with_carry(cb, a.bits[i], b.bits[i], carry);
        c[i] = s;
        carry = cnext;
        proof {
            assert(la[31 - i] == av[i as int]);
            assert(lb[31 - i] == bv[i as int]);
            assert(add_words(av, bv)[i as int] == xor3(
                la[31 - i],
                lb[31 - i],
                carry_k(la, lb, false, 31 - i),
            ));
            assert(carry_k(la, lb, false, 32 - i) == maj3(
                la[31 - i],
                lb[31 - i],
                carry_k(la, lb, false, 31 - i),
            ));
            assert forall|j: int|
                i <= j < 32 implies cb.live(#[trigger] c@[j]) && cb.val(c@[j]) == add_words(
                av,
                bv,
            )[j] by {
                if j > i {
                    assert(c@[j] == cprev[j]);
                    assert(cbh.val(cprev[j]) == add_words(av, bv)[j]);
                }
            }
        }
    }
    let r = Word { bits: c };
    proof {
        assert(r.bitvals(*cb) =~= add_words(av, bv));
    }
    r
}

/// Ripple addition of a word and a compile-time constant: where the constant
/// bit is one the sum bit costs one extra complement, where it is zero only
/// the plain carry update remains.
pub fn add_const(cb: &mut CircuitBuilder, a: &Word, b: u32) -> (r: Word)
    requires
        old(cb).wf(),
        a.wf(*old(cb)),
    ensures
        final(cb).wf(),
        final(cb).extends(*old(cb)),
        r.wf(*final(cb)),
        r.bitvals(*final(cb)) == add_words(a.bitvals(*old(cb)), u32_word(b)),
{
    let ghost cb0 = *cb;
    let ghost av = a.bitvals(cb0);
    let ghost bv = u32_word(b);
    let ghost la = rev(av);
    let ghost lb = rev(bv);

    let zero = cb.constant(false);
    let one = cb.constant(true);
    let ghost cb1 = *cb;
    let mut c: Vec<Bit> = Vec::new();
    for k in 0..32usize
        invariant
            c@.len() == k,
            forall|j: int| 0 <= j < k ==> c@[j] == zero,
    {
        c.push(zero);
    }
    let mut ci = zero;

    let mut i: usize = 32;
    while i > 0
        invariant
            i <= 32,
            cb0.wf(),
            cb1.wf(),
            cb1.extends(cb0),
            cb.wf(),
            cb.extends(cb1),
            a.wf(cb0),
            av == a.bitvals(cb0),
            bv == u32_word(b),
            la == rev(av),
            lb == rev(bv),
            cb1.live(one),
            cb1.val(one) == true,
            c@.len() == 32,
            cb.live(ci),
            cb.val(ci) == carry_k(la, lb, false, 32 - i),
            forall|j: int|
                i <= j < 32 ==> cb.live(#[trigger] c@[j]) && cb.val(c@[j]) == add_words(av, bv)[j],
        decreases i,
    {
        i = i - 1;
        let ghost cbh = *cb;
        let ghost cprev = c@;
        proof {
            assert(cb.val(a.bits@[i as int]) == av[i as int]);
            assert(cb.val(one) == true);
            assert(bv[i as int] == ((b >> ((31 - i) as u32)) & 1 == 1));
        }
        let bit_set = (b >> ((31 - i) as u32)) & 1 == 1;
        if bit_set {
            // p = NOT a[i]; sum = p XOR carry; carry' = (p AND carry) XOR a[i]
            let p = cb.xor_gate(a.bits[i], one);
            let s = cb.xor_gate(p, ci);
            let t = cb.and_gate(ci, p);
            let cnext = cb.xor_gate(t, a.bits[i]);
            c[i] = s;
            ci = cnext;
        } else {
            // sum = a[i] XOR carry; carry' = a[i] AND carry
            let s = cb.xor_gate(a.bits[i], ci);
            let cnext = cb.and_gate(ci, a.bits[i]);
            c[i] = s;
            ci = cnext;
        }
        proof {
            assert(la[31 - i] == av[i as int]);
            assert(lb[31 - i] == bv[i as int]);
            assert(add_words(av, bv)[i as int] == xor3(
                la[31 - i],
                lb[31 - i],
                carry_k(la, lb, false, 31 - i),
            ));
            assert(carry_k(la, lb, false, 32 - i) == maj3(
                la[31 - i],
                lb[31 - i],
                carry_k(la, lb, false, 31 - i),
            ));
            assert forall|j: int|
                i <= j < 32 implies cb.live(#[trigger] c@[j]) && cb.val(c@[j]) == add_words(
                av,
                bv,
            )[j] by {
                if j > i {
                    assert(c@[j] == cprev[j]);
                    assert(cbh.val(cprev[j]) == add_words(av, bv)[j]);
                }
            }
        }
    }
    let r = Word { bits: c };
    proof {
        assert(r.bitvals(*cb) =~= add_words(av, bv));
    }
    r
}

} // verus!
