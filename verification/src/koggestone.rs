//! Kogge-Stone prefix adders: the fully parallel prefix tree, in a serial
//! per-index form and in a uniform word-level form that applies the combine
//! operator at the five doubling shifts.

use crate::bitmath::{
    add_words, carry_k, lemma_carry_is_span, lemma_span_single, lemma_span_split, rev, span_gen,
    span_lo, span_prop, xor3,
};
use crate::circuit::{live_seq, vals_of, Bit, CircuitBuilder};
use crate::word::{
    and, and_bits, copy_bits, reverse_word, shift_left, shr_bits, xor, xor_bits, Word,
    lemma_reverse_vals,
};
use vstd::prelude::*;

verus! {

broadcast use crate::circuit::lemma_vals_of_stable, crate::circuit::lemma_extends_trans;

/// Per-bit generate signals of two little-endian operands.
pub open spec fn gen_seq(la: Seq<bool>, lb: Seq<bool>) -> Seq<bool> {
    Seq::new(32, |i: int| la[i] && lb[i])
}

/// Per-bit propagate signals of two little-endian operands.
pub open spec fn prop_seq(la: Seq<bool>, lb: Seq<bool>) -> Seq<bool> {
    Seq::new(32, |i: int| la[i] != lb[i])
}

/// The prefix-tree generate values after spans have grown to `gap` positions.
pub open spec fn span_gen_seq(la: Seq<bool>, lb: Seq<bool>, gap: int) -> Seq<bool> {
    Seq::new(32, |i: int| span_gen(la, lb, span_lo(i, gap), i))
}

/// The prefix-tree propagate values after spans have grown to `gap` positions.
pub open spec fn span_prop_seq(la: Seq<bool>, lb: Seq<bool>, gap: int) -> Seq<bool> {
    Seq::new(32, |i: int| span_prop(la, lb, span_lo(i, gap), i))
}

/// Propagate values in the word-level tree, where positions too low for a
/// full span have been zeroed by the shifted-in constants.
pub open spec fn span_prop_cut_seq(la: Seq<bool>, lb: Seq<bool>, gap: int) -> Seq<bool> {
    Seq::new(
        32,
        |i: int|
            if i >= gap - 1 {
                span_prop(la, lb, i - gap + 1, i)
            } else {
                false
            },
    )
}

/// Generate and propagate of each bit position: `g = a AND b`, `p = a XOR b`.
pub(crate) fn gen_prop(cb: &mut CircuitBuilder, ra: &Word, rb: &Word) -> (r: (Vec<Bit>, Vec<Bit>))
    requires
        old(cb).wf(),
        ra.wf(*old(cb)),
        rb.wf(*old(cb)),
    ensures
        final(cb).wf(),
        final(cb).extends(*old(cb)),
        live_seq(*final(cb), r.0@),
        live_seq(*final(cb), r.1@),
        vals_of(*final(cb), r.0@) == gen_seq(ra.bitvals(*old(cb)), rb.bitvals(*old(cb))),
        vals_of(*final(cb), r.1@) == prop_seq(ra.bitvals(*old(cb)), rb.bitvals(*old(cb))),
{
    let ghost cb0 = *cb;
    let ghost la = ra.bitvals(cb0);
    let ghost lb = rb.bitvals(cb0);
    let mut gbase: Vec<Bit> = Vec::new();
    let mut pbase: Vec<Bit> = Vec::new();
    for i in 0..32usize
        invariant
            cb0.wf(),
            cb.wf(),
            cb.extends(cb0),
            ra.wf(cb0),
            rb.wf(cb0),
            la == ra.bitvals(cb0),
            lb == rb.bitvals(cb0),
            gbase@.len() == i,
            pbase@.len() == i,
            forall|j: int|
                0 <= j < i ==> cb.live(#[trigger] gbase@[j]) && cb.val(gbase@[j]) == (la[j]
                    && lb[j]),
            forall|j: int|
                0 <= j < i ==> cb.live(#[trigger] pbase@[j]) && cb.val(pbase@[j]) == (la[j]
                    != lb[j]),
    {
        let ghost cbh = *cb;
        let ghost gprev = gbase@;
        let ghost pprev = pbase@;
        proof {
            assert(cb.val(ra.bits@[i as int]) == la[i as int]);
            assert(cb.val(rb.bits@[i as int]) == lb[i as int]);
        }
        let gi = cb.and_gate(ra.bits[i], rb.bits[i]);
        let pi = cb.xor_gate(ra.bits[i], rb.bits[i]);
        gbase.push(gi);
        pbase.push(pi);
        proof {
            assert forall|j: int|
                0 <= j < i + 1 implies cb.live(#[trigger] gbase@[j]) && cb.val(gbase@[j]) == (
            la[j] && lb[j]) by {
                if j < i {
                    assert(gbase@[j] == gprev[j]);
                    assert(cbh.val(gprev[j]) == (la[j] && lb[j]));
                }
            }
            assert forall|j: int|
                0 <= j < i + 1 implies cb.live(#[trigger] pbase@[j]) && cb.val(pbase@[j]) == (
            la[j] != lb[j]) by {
                if j < i {
                    assert(pbase@[j] == pprev[j]);
                    assert(cbh.val(pprev[j]) == (la[j] != lb[j]));
                }
            }
        }
    }
    proof {
        assert(vals_of(*cb, gbase@) =~= gen_seq(la, lb));
        assert(vals_of(*cb, pbase@) =~= prop_seq(la, lb));
    }
    (gbase, pbase)
}

/// Kogge-Stone adder, serial form: the prefix tree is walked index by index
/// with branch-on-index logic.  Returns `(a + b) mod 2^32`.
pub fn add_koggestone_32_bits(cb: &mut CircuitBuilder, a: &Word, b: &Word) -> (r: Word)
    requires
        old(cb).wf(),
        a.wf(*old(cb)),
        b.wf(*old(cb)),
    ensures
        final(cb).wf(),
        final(cb).extends(*old(cb)),
        r.wf(*final(cb)),
        r.bitvals(*final(cb)) == add_words(a.bitvals(*old(cb)), b.bitvals(*old(cb))),
{
    let ghost cb0 = *cb;
    let ghost av = a.bitvals(cb0);
    let ghost bv = b.bitvals(cb0);
    let ghost la = rev(av);
    let ghost lb = rev(bv);

    let ra = reverse_word(a);
    let rb = reverse_word(b);
    proof {
        lemma_reverse_vals(*a, ra, cb0);
        lemma_reverse_vals(*b, rb, cb0);
    }

    let (gbase, pbase) = gen_prop(cb, &ra, &rb);
    let ghost cb1 = *cb;

    let mut g_prefix = gbase;
    let mut p_prefix = copy_bits(&pbase);
    proof {
        assert forall|i: int| 0 <= i < 32 implies span_gen_seq(la, lb, 1)[i] == gen_seq(la, lb)[i]
            && span_prop_seq(la, lb, 1)[i] == prop_seq(la, lb)[i] by {
            lemma_span_single(la, lb, i);
        }
        assert(span_gen_seq(la, lb, 1) =~= gen_seq(la, lb));
        assert(span_prop_seq(la, lb, 1) =~= prop_seq(la, lb));
    }

    let mut gap: usize = 1;
    while gap < 32
        invariant
            gap == 1 || gap == 2 || gap == 4 || gap == 8 || gap == 16 || gap == 32,
            cb0.wf(),
            cb1.wf(),
            cb1.extends(cb0),
            cb.wf(),
            cb.extends(cb1),
            la == rev(av),
            lb == rev(bv),
            av.len() == 32,
            bv.len() == 32,
            live_seq(cb1, pbase@),
            pbase@.len() == 32,
            vals_of(cb1, pbase@) == prop_seq(la, lb),
            g_prefix@.len() == 32,
            p_prefix@.len() == 32,
            live_seq(*cb, g_prefix@),
            live_seq(*cb, p_prefix@),
            vals_of(*cb, g_prefix@) == span_gen_seq(la, lb, gap as int),
            vals_of(*cb, p_prefix@) == span_prop_seq(la, lb, gap as int),
        decreases 32 - gap,
    {
        let ghost cbh = *cb;
        let mut g_next: Vec<Bit> = Vec::new();
        let mut p_next: Vec<Bit> = Vec::new();
        for i in 0..32usize
            invariant
                gap == 1 || gap == 2 || gap == 4 || gap == 8 || gap == 16,
                cbh.wf(),
                cb.wf(),
                cb.extends(cbh),
                g_prefix@.len() == 32,
                p_prefix@.len() == 32,
                live_seq(cbh, g_prefix@),
                live_seq(cbh, p_prefix@),
                vals_of(cbh, g_prefix@) == span_gen_seq(la, lb, gap as int),
                vals_of(cbh, p_prefix@) == span_prop_seq(la, lb, gap as int),
                g_next@.len() == i,
                p_next@.len() == i,
                forall|j: int|
                    0 <= j < i ==> cb.live(#[trigger] g_next@[j]) && cb.val(g_next@[j])
                        == span_gen_seq(la, lb, 2 * (gap as int))[j],
                forall|j: int|
                    0 <= j < i ==> cb.live(#[trigger] p_next@[j]) && cb.val(p_next@[j])
                        == span_prop_seq(la, lb, 2 * (gap as int))[j],
        {
            let ghost cbi = *cb;
            let ghost gnprev = g_next@;
            let ghost pnprev = p_next@;
            proof {
                assert(cb.val(g_prefix@[i as int]) == span_gen_seq(la, lb, gap as int)[i as int]);
                assert(cb.val(p_prefix@[i as int]) == span_prop_seq(la, lb, gap as int)[i as int]);
                if i >= gap {
                    assert(cb.val(g_prefix@[i - gap]) == span_gen_seq(la, lb, gap as int)[i - gap]);
                    assert(cb.val(p_prefix@[i - gap]) == span_prop_seq(la, lb, gap as int)[i
                        - gap]);
                }
            }
            if i >= gap {
                let t = cb.and_gate(p_prefix[i], g_prefix[i - gap]);
                let gn = cb.xor_gate(g_prefix[i], t);
                let pn = cb.and_gate(p_prefix[i], p_prefix[i - gap]);
                g_next.push(gn);
                p_next.push(pn);
                proof {
                    let gi = gap as int;
                    let ii = i as int;
                    assert(span_lo(ii, gi) == ii - gi + 1);
                    assert(span_lo(ii - gi, gi) == span_lo(ii, 2 * gi));
                    lemma_span_split(la, lb, span_lo(ii, 2 * gi), ii - gi, ii);
                }
            } else {
                g_next.push(g_prefix[i]);
                p_next.push(p_prefix[i]);
                proof {
                    let gi = gap as int;
                    let ii = i as int;
                    assert(span_lo(ii, gi) == 0 && span_lo(ii, 2 * gi) == 0);
                }
            }
            proof {
                assert forall|j: int|
                    0 <= j < i + 1 implies cb.live(#[trigger] g_next@[j]) && cb.val(g_next@[j])
                    == span_gen_seq(la, lb, 2 * (gap as int))[j] by {
                    if j < i {
                        assert(g_next@[j] == gnprev[j]);
                        assert(cbi.val(gnprev[j]) == span_gen_seq(la, lb, 2 * (gap as int))[j]);
                    }
                }
                assert forall|j: int|
                    0 <= j < i + 1 implies cb.live(#[trigger] p_next@[j]) && cb.val(p_next@[j])
                    == span_prop_seq(la, lb, 2 * (gap as int))[j] by {
                    if j < i {
                        assert(p_next@[j] == pnprev[j]);
                        assert(cbi.val(pnprev[j]) == span_prop_seq(la, lb, 2 * (gap as int))[j]);
                    }
                }
            }
        }
        g_prefix = g_next;
        p_prefix = p_next;
        gap = gap * 2;
        proof {
            assert(vals_of(*cb, g_prefix@) =~= span_gen_seq(la, lb, gap as int));
            assert(vals_of(*cb, p_prefix@) =~= span_prop_seq(la, lb, gap as int));
        }
    }

    // Carry computation: with no incoming carry the prefix generate of the
    // span below each position is exactly its carry-in.
    let ghost cb2 = *cb;
    let zero = cb.constant(false);
    let ghost cb3 = *cb;
    let mut carries: Vec<Bit> = Vec::new();
    carries.push(zero);
    for i in 0..32usize
        invariant
            cb2.wf(),
            cb3.wf(),
            cb3.extends(cb2),
            cb.wf(),
            cb.extends(cb3),
            la == rev(av),
            lb == rev(bv),
            av.len() == 32,
            bv.len() == 32,
            g_prefix@.len() == 32,
            p_prefix@.len() == 32,
            live_seq(cb2, g_prefix@),
            live_seq(cb2, p_prefix@),
            vals_of(cb2, g_prefix@) == span_gen_seq(la, lb, 32),
            vals_of(cb2, p_prefix@) == span_prop_seq(la, lb, 32),
            cb3.live(zero),
            cb3.val(zero) == false,
            carries@.len() == i + 1,
            forall|j: int|
                0 <= j < i + 1 ==> cb.live(#[trigger] carries@[j]) && cb.val(carries@[j])
                    == carry_k(la, lb, false, j),
    {
        let ghost cbi = *cb;
        let ghost cprev = carries@;
        proof {
            assert(cb.val(g_prefix@[i as int]) == span_gen_seq(la, lb, 32)[i as int]);
            assert(cb.val(p_prefix@[i as int]) == span_prop_seq(la, lb, 32)[i as int]);
            assert(cb.val(carries@[0]) == false);
        }
        let c0 = carries[0];
        let t = cb.and_gate(p_prefix[i], c0);
        let ci = cb.xor_gate(g_prefix[i], t);
        carries.push(ci);
        proof {
            lemma_carry_is_span(la, lb, i + 1);
            assert(span_lo(i as int, 32) == 0);
            assert forall|j: int|
                0 <= j < i + 2 implies cb.live(#[trigger] carries@[j]) && cb.val(carries@[j])
                == carry_k(la, lb, false, j) by {
                if j < i + 1 {
                    assert(carries@[j] == cprev[j]);
                    assert(cbi.val(cprev[j]) == carry_k(la, lb, false, j));
                }
            }
        }
    }

    // Sum bits: p XOR carry-in, still little-endian.
    let ghost cb4 = *cb;
    let mut sum: Vec<Bit> = Vec::new();
    for i in 0..32usize
        invariant
            cb1.wf(),
            cb4.wf(),
            cb4.extends(cb1),
            cb.wf(),
            cb.extends(cb4),
            la == rev(av),
            lb == rev(bv),
            av.len() == 32,
            bv.len() == 32,
            live_seq(cb1, pbase@),
            pbase@.len() == 32,
            vals_of(cb1, pbase@) == prop_seq(la, lb),
            carries@.len() == 33,
            live_seq(cb4, carries@),
            forall|j: int|
                0 <= j < 33 ==> cb4.val(#[trigger] carries@[j]) == carry_k(la, lb, false, j),
            sum@.len() == i,
            forall|j: int|
                0 <= j < i ==> cb.live(#[trigger] sum@[j]) && cb.val(sum@[j]) == crate::bitmath::add_le(
                    la,
                    lb,
                )[j],
    {
        let ghost cbi = *cb;
        let ghost sprev = sum@;
        proof {
            assert(cb.val(pbase@[i as int]) == prop_seq(la, lb)[i as int]);
            assert(cb.val(carries@[i as int]) == carry_k(la, lb, false, i as int));
        }
        let si = cb.xor_gate(pbase[i], carries[i]);
        sum.push(si);
        proof {
            assert(crate::bitmath::add_le(la, lb)[i as int] == xor3(
                la[i as int],
                lb[i as int],
                carry_k(la, lb, false, i as int),
            ));
            assert forall|j: int|
                0 <= j < i + 1 implies cb.live(#[trigger] sum@[j]) && cb.val(sum@[j])
                == crate::bitmath::add_le(la, lb)[j] by {
                if j < i {
                    assert(sum@[j] == sprev[j]);
                    assert(cbi.val(sprev[j]) == crate::bitmath::add_le(la, lb)[j]);
                }
            }
        }
    }

    let sum_word = Word { bits: sum };
    let r = reverse_word(&sum_word);
    proof {
        assert(sum_word.bitvals(*cb) =~= crate::bitmath::add_le(la, lb));
        lemma_reverse_vals(sum_word, r, *cb);
        assert(r.bitvals(*cb) == add_words(av, bv));
    }
    r
}

/// One round of the word-level prefix tree: `g' = g XOR (p AND (g << s))`,
/// `p' = p AND (p << s)`, with the shifted-in positions zero.
pub fn prefix_step(cb: &mut CircuitBuilder, g: &Word, p: &Word, shift: usize) -> (r: (Word, Word))
    requires
        old(cb).wf(),
        g.wf(*old(cb)),
        p.wf(*old(cb)),
        shift <= 32,
    ensures
        final(cb).wf(),
        final(cb).extends(*old(cb)),
        r.0.wf(*final(cb)),
        r.1.wf(*final(cb)),
        r.0.bitvals(*final(cb)) == xor_bits(
            g.bitvals(*old(cb)),
            and_bits(p.bitvals(*old(cb)), shr_bits(g.bitvals(*old(cb)), shift as int)),
        ),
        r.1.bitvals(*final(cb)) == and_bits(
            p.bitvals(*old(cb)),
            shr_bits(p.bitvals(*old(cb)), shift as int),
        ),
{
    let g_shift = shift_left(g, shift, cb);
    let p_and_gshift = and(cb, p, &g_shift);
    let g_next = xor(cb, g, &p_and_gshift);

    let p_shift = shift_left(p, shift, cb);
    let p_next = and(cb, p, &p_shift);

    (g_next, p_next)
}

/// Kogge-Stone adder, parallel form: the combine operator is applied
/// uniformly to whole words at the five doubling shifts 1, 2, 4, 8, 16;
/// out-of-range positions pass through unchanged.  Returns `(a + b) mod 2^32`.
pub fn add_koggestone_32_bits_prallel(cb: &mut CircuitBuilder, a: &Word, b: &Word) -> (r: Word)
    requires
        old(cb).wf(),
        a.wf(*old(cb)),
        b.wf(*old(cb)),
    ensures
        final(cb).wf(),
        final(cb).extends(*old(cb)),
        r.wf(*final(cb)),
        r.bitvals(*final(cb)) == add_words(a.bitvals(*old(cb)), b.bitvals(*old(cb))),
{
    let ghost cb0 = *cb;
    let ghost av = a.bitvals(cb0);
    let ghost bv = b.bitvals(cb0);
    let ghost la = rev(av);
    let ghost lb = rev(bv);

    let ra = reverse_word(a);
    let rb = reverse_word(b);
    proof {
        lemma_reverse_vals(*a, ra, cb0);
        lemma_reverse_vals(*b, rb, cb0);
    }

    let p = xor(cb, &ra, &rb);
    let g = and(cb, &ra, &rb);
    let ghost cb1 = *cb;

    let mut g_prefix = g.clone();
    let mut p_prefix = p.clone();
    proof {
        assert(g_prefix.bitvals(cb1) =~= g.bitvals(cb1));
        assert(p_prefix.bitvals(cb1) =~= p.bitvals(cb1));
        assert forall|i: int|
            0 <= i < 32 implies span_gen_seq(la, lb, 1)[i] == g.bitvals(cb1)[i] && span_prop_cut_seq(
            la,
            lb,
            1,
        )[i] == p.bitvals(cb1)[i] by {
            lemma_span_single(la, lb, i);
        }
        assert(g_prefix.bitvals(cb1) =~= span_gen_seq(la, lb, 1));
        assert(p_prefix.bitvals(cb1) =~= span_prop_cut_seq(la, lb, 1));
    }

    let mut gap: usize = 1;
    while gap < 32
        invariant
            gap == 1 || gap == 2 || gap == 4 || gap == 8 || gap == 16 || gap == 32,
            cb0.wf(),
            cb1.wf(),
            cb1.extends(cb0),
            cb.wf(),
            cb.extends(cb1),
            la == rev(av),
            lb == rev(bv),
            av.len() == 32,
            bv.len() == 32,
            p.wf(cb1),
            p.bitvals(cb1) == prop_seq(la, lb),
            g_prefix.wf(*cb),
            p_prefix.wf(*cb),
            g_prefix.bitvals(*cb) == span_gen_seq(la, lb, gap as int),
            p_prefix.bitvals(*cb) == span_prop_cut_seq(la, lb, gap as int),
        decreases 32 - gap,
    {
        let ghost cbh = *cb;
        let (gn, pn) = prefix_step(cb, &g_prefix, &p_prefix, gap);
        proof {
            let gi = gap as int;
            let gv = span_gen_seq(la, lb, gi);
            let pv = span_prop_cut_seq(la, lb, gi);
            assert forall|i: int|
                0 <= i < 32 implies xor_bits(gv, and_bits(pv, shr_bits(gv, gi)))[i]
                == span_gen_seq(la, lb, 2 * gi)[i] by {
                if i >= gap {
                    assert(span_lo(i, gi) == i - gi + 1);
                    assert(span_lo(i - gi, gi) == span_lo(i, 2 * gi));
                    lemma_span_split(la, lb, span_lo(i, 2 * gi), i - gi, i);
                } else {
                    assert(span_lo(i, gi) == 0 && span_lo(i, 2 * gi) == 0);
                }
            }
            assert(xor_bits(gv, and_bits(pv, shr_bits(gv, gi))) =~= span_gen_seq(la, lb, 2 * gi));
            assert forall|i: int|
                0 <= i < 32 implies and_bits(pv, shr_bits(pv, gi))[i] == span_prop_cut_seq(
                la,
                lb,
                2 * gi,
            )[i] by {
                if i >= 2 * gi - 1 {
                    lemma_span_split(la, lb, i - 2 * gi + 1, i - gi, i);
                }
            }
            assert(and_bits(pv, shr_bits(pv, gi)) =~= span_prop_cut_seq(la, lb, 2 * gi));
        }
        g_prefix = gn;
        p_prefix = pn;
        gap = gap * 2;
    }

    let carry = shift_left(&g_prefix, 1, cb);
    let ghost cb5 = *cb;
    let sum = xor(cb, &p, &carry);
    proof {
        assert forall|i: int| 0 <= i < 32 implies sum.bitvals(*cb)[i] == crate::bitmath::add_le(
            la,
            lb,
        )[i] by {
            assert(carry.bitvals(cb5)[i] == shr_bits(span_gen_seq(la, lb, 32), 1)[i]);
            if i >= 1 {
                lemma_carry_is_span(la, lb, i);
                assert(span_lo(i - 1, 32) == 0);
            }
            assert(crate::bitmath::add_le(la, lb)[i] == xor3(
                la[i],
                lb[i],
                carry_k(la, lb, false, i),
            ));
        }
        assert(sum.bitvals(*cb) =~= crate::bitmath::add_le(la, lb));
    }
    let r = reverse_word(&sum);
    proof {
        lemma_reverse_vals(sum, r, *cb);
        assert(r.bitvals(*cb) == add_words(av, bv));
    }
    r
}

} // verus!
