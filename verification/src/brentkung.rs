//! The Brent-Kung adder: eight 4-bit blocks, each a closed-form two-level
//! local prefix, with the group carries chained serially from block to block.

use crate::bitmath::{
    add_le, add_words, carry_k, lemma_carry_block, lemma_carry_congruent, maj3, rev, xor3,
};
use crate::circuit::{live_seq, vals_of, Bit, CircuitBuilder};
use crate::word::{lemma_reverse_vals, reverse_word, take4, Word};
use vstd::prelude::*;

verus! {

broadcast use crate::circuit::lemma_vals_of_stable, crate::circuit::lemma_extends_trans;

/// 4-bit Brent-Kung block: adds `a + b + carry_in` over little-endian 4-bit
/// operands, computing every carry from the two-level prefix of the block's
/// generate/propagate signals, and returns the four sum bits and the carry
/// out of the block.
pub(crate) fn brent_kung_adder_4_bits(
    cb: &mut CircuitBuilder,
    a: &Vec<Bit>,
    b: &Vec<Bit>,
    carry_in: Bit,
) -> (r: (Vec<Bit>, Bit))
    requires
        old(cb).wf(),
        a@.len() == 4,
        b@.len() == 4,
        live_seq(*old(cb), a@),
        live_seq(*old(cb), b@),
        old(cb).live(carry_in),
    ensures
        final(cb).wf(),
        final(cb).extends(*old(cb)),
        r.0@.len() == 4,
        live_seq(*final(cb), r.0@),
        final(cb).live(r.1),
        forall|j: int|
            0 <= j < 4 ==> final(cb).val(#[trigger] r.0@[j]) == xor3(
                vals_of(*old(cb), a@)[j],
                vals_of(*old(cb), b@)[j],
                carry_k(vals_of(*old(cb), a@), vals_of(*old(cb), b@), old(cb).val(carry_in), j),
            ),
        final(cb).val(r.1) == carry_k(
            vals_of(*old(cb), a@),
            vals_of(*old(cb), b@),
            old(cb).val(carry_in),
            4,
        ),
{
    let ghost cb0 = *cb;
    let ghost va = vals_of(cb0, a@);
    let ghost vb = vals_of(cb0, b@);
    let ghost cin = cb0.val(carry_in);

    // Generate and propagate of each of the four positions.
    let g0 = cb.and_gate(a[0], b[0]);
    let g1 = cb.and_gate(a[1], b[1]);
    let g2 = cb.and_gate(a[2], b[2]);
    let g3 = cb.and_gate(a[3], b[3]);
    let p0 = cb.xor_gate(a[0], b[0]);
    let p1 = cb.xor_gate(a[1], b[1]);
    let p2 = cb.xor_gate(a[2], b[2]);
    let p3 = cb.xor_gate(a[3], b[3]);

    // Two-level prefix combine over the block.
    let p1g0 = cb.and_gate(p1, g0);
    let p0p1 = cb.and_gate(p0, p1);
    let p2p3 = cb.and_gate(p2, p3);

    let g10 = cb.xor_gate(g1, p1g0);
    let t20 = cb.and_gate(p2, g10);
    let g20 = cb.xor_gate(g2, t20);
    let t30 = cb.and_gate(p3, g20);
    let g30 = cb.xor_gate(g3, t30);

    // Carries: prefix generate, or the incoming carry propagated through.
    let c0 = carry_in;
    let t1 = cb.and_gate(p0, c0);
    let c1 = cb.xor_gate(g0, t1);
    let t2 = cb.and_gate(p0p1, c0);
    let c2 = cb.xor_gate(g10, t2);
    let t3a = cb.and_gate(p2, c0);
    let t3 = cb.and_gate(p0p1, t3a);
    let c3 = cb.xor_gate(g20, t3);
    let t4a = cb.and_gate(p0p1, p2p3);
    let t4 = cb.and_gate(t4a, c0);
    let c4 = cb.xor_gate(g30, t4);

    // Sum bits.
    let s0 = cb.xor_gate(p0, c0);
    let s1 = cb.xor_gate(p1, c1);
    let s2 = cb.xor_gate(p2, c2);
    let s3 = cb.xor_gate(p3, c3);

    let mut sum: Vec<Bit> = Vec::new();
    sum.push(s0);
    sum.push(s1);
    sum.push(s2);
    sum.push(s3);

    proof {
        assert(carry_k(va, vb, cin, 0) == cin);
        assert(carry_k(va, vb, cin, 1) == maj3(va[0], vb[0], cin));
        assert(carry_k(va, vb, cin, 2) == maj3(va[1], vb[1], carry_k(va, vb, cin, 1)));
        assert(carry_k(va, vb, cin, 3) == maj3(va[2], vb[2], carry_k(va, vb, cin, 2)));
        assert(carry_k(va, vb, cin, 4) == maj3(va[3], vb[3], carry_k(va, vb, cin, 3)));
        assert(cb.val(c1) == carry_k(va, vb, cin, 1));
        assert(cb.val(c2) == carry_k(va, vb, cin, 2));
        assert(cb.val(c3) == carry_k(va, vb, cin, 3));
        assert(cb.val(c4) == carry_k(va, vb, cin, 4));
    }
    (sum, c4)
}

/// Brent-Kung adder: `(a + b) mod 2^32` via eight serially chained 4-bit
/// blocks.
pub fn add_brentkung(cb: &mut CircuitBuilder, a: &Word, b: &Word) -> (r: Word)
    requires
        old(cb).wf(),
        a.wf(*old(cb)),
        b.wf(*old(cb)),
    ensures
        final(cb).wf(),
        final(cb).extends(*old(cb)),
        r.wf(*final(cb)),
        r.bitvals(*final(cb)) == add_words(a.bitvals(*old(cb)), b.bitvals(*old(cb))),
{
    let ghost cb0 = *cb;
    let ghost av = a.bitvals(cb0);
    let ghost bv = b.bitvals(cb0);
    let ghost la = rev(av);
    let ghost lb = rev(bv);

    let ra = reverse_word(a);
    let rb = reverse_word(b);
    proof {
        lemma_reverse_vals(*a, ra, cb0);
        lemma_reverse_vals(*b, rb, cb0);
    }

    let mut ci = cb.constant(false);
    let mut c: Vec<Bit> = Vec::new();
    let mut blk: usize = 0;
    while blk < 8
        invariant
            blk <= 8,
            cb0.wf(),
            cb.wf(),
            cb.extends(cb0),
            ra.wf(cb0),
            rb.wf(cb0),
            ra.bitvals(cb0) == la,
            rb.bitvals(cb0) == lb,
            la == rev(av),
            lb == rev(bv),
            av.len() == 32,
            bv.len() == 32,
            c@.len() == 4 * blk,
            forall|j: int|
                0 <= j < 4 * blk ==> cb.live(#[trigger] c@[j]) && cb.val(c@[j]) == add_le(
                    la,
                    lb,
                )[j],
            cb.live(ci),
            cb.val(ci) == carry_k(la, lb, false, 4 * blk as int),
        decreases 8 - blk,
    {
        let start = blk * 4;
        let a4 = take4(&ra.bits, start);
        let b4 = take4(&rb.bits, start);
        let ghost cbh = *cb;
        let ghost cprev = c@;
        let ghost cinv = cbh.val(ci);
        proof {
            assert forall|j: int| 0 <= j < 4 implies cb.live(#[trigger] a4@[j]) && cb.live(
                b4@[j],
            ) && cb.val(a4@[j]) == la[start + j] && cb.val(b4@[j]) == lb[start + j] by {
                assert(a4@[j] == ra.bits@[start + j]);
                assert(b4@[j] == rb.bits@[start + j]);
                assert(cb0.val(ra.bits@[start + j]) == la[start + j]);
                assert(cb0.val(rb.bits@[start + j]) == lb[start + j]);
            }
        }
        let (sum4, cnext) = brent_kung_adder_4_bits(cb, &a4, &b4, ci);
        let ghost va4 = vals_of(cbh, a4@);
        let ghost vb4 = vals_of(cbh, b4@);
        proof {
            let st = start as int;
            assert forall|j: int| 0 <= j <= 4 implies carry_k(va4, vb4, cinv, j) == carry_k(
                la,
                lb,
                false,
                st + j,
            ) by {
                assert forall|m: int| 0 <= m < j implies va4[m] == la.skip(st)[m] && vb4[m]
                    == lb.skip(st)[m] by {
                    assert(va4[m] == cbh.val(a4@[m]));
                }
                lemma_carry_congruent(va4, vb4, la.skip(st), lb.skip(st), cinv, j);
                lemma_carry_block(la, lb, st, j);
            }
        }
        c.push(sum4[0]);
        c.push(sum4[1]);
        c.push(sum4[2]);
        c.push(sum4[3]);
        ci = cnext;
        proof {
            let st = start as int;
            assert forall|j: int|
                0 <= j < 4 * blk + 4 implies cb.live(#[trigger] c@[j]) && cb.val(c@[j]) == add_le(
                la,
                lb,
            )[j] by {
                if j < 4 * blk {
                    assert(c@[j] == cprev[j]);
                    assert(cbh.val(cprev[j]) == add_le(la, lb)[j]);
                } else {
                    let m = j - st;
                    assert(c@[j] == sum4@[m]);
                    assert(cb.val(sum4@[m]) == xor3(va4[m], vb4[m], carry_k(va4, vb4, cinv, m)));
                    assert(va4[m] == la[j] && vb4[m] == lb[j]);
                    assert(add_le(la, lb)[j] == xor3(la[j], lb[j], carry_k(la, lb, false, j)));
                }
            }
        }
        blk = blk + 1;
    }

    let sum_word = Word { bits: c };
    let r = reverse_word(&sum_word);
    proof {
        assert(sum_word.bitvals(*cb) =~= add_le(la, lb));
        lemma_reverse_vals(sum_word, r, *cb);
        assert(r.bitvals(*cb) == add_words(av, bv));
    }
    r
}

} // verus!
