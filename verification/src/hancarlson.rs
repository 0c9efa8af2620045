//! Han-Carlson adders: a full prefix tree on the even bit positions only,
//! with the odd positions closed by one extra local carry step — about half
//! the prefix gates of Kogge-Stone at one extra level of depth.

use crate::bitmath::{
    add_le, add_words, carry_k, lemma_carry_block, lemma_carry_congruent, lemma_carry_is_span,
    lemma_span_single, lemma_span_split, maj3, rev, span_gen, span_lo, span_prop, xor3,
};
use crate::circuit::{live_seq, vals_of, Bit, CircuitBuilder};
use crate::koggestone::{gen_prop, gen_seq, prop_seq};
use crate::word::{copy_bits, lemma_reverse_vals, reverse_word, take4, Word};
use vstd::prelude::*;

verus! {

broadcast use crate::circuit::lemma_vals_of_stable, crate::circuit::lemma_extends_trans;

/// Prefix generate values of the even-only tree: even positions carry a
/// grown span, odd positions still hold their single-bit generate.
pub open spec fn hc_gen_seq(la: Seq<bool>, lb: Seq<bool>, gap: int) -> Seq<bool> {
    Seq::new(
        32,
        |i: int|
            if i % 2 == 0 {
                span_gen(la, lb, span_lo(i, gap), i)
            } else {
                la[i] && lb[i]
            },
    )
}

/// Prefix propagate values of the even-only tree.
pub open spec fn hc_prop_seq(la: Seq<bool>, lb: Seq<bool>, gap: int) -> Seq<bool> {
    Seq::new(
        32,
        |i: int|
            if i % 2 == 0 {
                span_prop(la, lb, span_lo(i, gap), i)
            } else {
                la[i] != lb[i]
            },
    )
}

/// Han-Carlson adder over the full width: the prefix tree is built on even
/// positions only, and each odd position derives its carry from the even
/// carry below it.  Returns `(a + b) mod 2^32`.
pub fn add_hancarlson_32_bits(cb: &mut CircuitBuilder, a: &Word, b: &Word) -> (r: Word)
    requires
        old(cb).wf(),
        a.wf(*old(cb)),
        b.wf(*old(cb)),
    ensures
        final(cb).wf(),
        final(cb).extends(*old(cb)),
        r.wf(*final(cb)),
        r.bitvals(*final(cb)) == add_words(a.bitvals(*old(cb)), b.bitvals(*old(cb))),
{
    let ghost cb0 = *cb;
    let ghost av = a.bitvals(cb0);
    let ghost bv = b.bitvals(cb0);
    let ghost la = rev(av);
    let ghost lb = rev(bv);

    let ra = reverse_word(a);
    let rb = reverse_word(b);
    proof {
        lemma_reverse_vals(*a, ra, cb0);
        lemma_reverse_vals(*b, rb, cb0);
    }

    let (gbase, pbase) = gen_prop(cb, &ra, &rb);
    let ghost cb1 = *cb;

    let mut g_prefix = copy_bits(&gbase);
    let mut p_prefix = copy_bits(&pbase);
    proof {
        assert forall|i: int| 0 <= i < 32 implies hc_gen_seq(la, lb, 1)[i] == gen_seq(la, lb)[i]
            && hc_prop_seq(la, lb, 1)[i] == prop_seq(la, lb)[i] by {
            lemma_span_single(la, lb, i);
        }
        assert(hc_gen_seq(la, lb, 1) =~= gen_seq(la, lb));
        assert(hc_prop_seq(la, lb, 1) =~= prop_seq(la, lb));
    }

    let mut gap: usize = 1;
    while gap < 32
        invariant
            gap == 1 || gap == 2 || gap == 4 || gap == 8 || gap == 16 || gap == 32,
            cb0.wf(),
            cb1.wf(),
            cb1.extends(cb0),
            cb.wf(),
            cb.extends(cb1),
            la == rev(av),
            lb == rev(bv),
            av.len() == 32,
            bv.len() == 32,
            gbase@.len() == 32,
            pbase@.len() == 32,
            live_seq(cb1, gbase@),
            live_seq(cb1, pbase@),
            vals_of(cb1, gbase@) == gen_seq(la, lb),
            vals_of(cb1, pbase@) == prop_seq(la, lb),
            g_prefix@.len() == 32,
            p_prefix@.len() == 32,
            live_seq(*cb, g_prefix@),
            live_seq(*cb, p_prefix@),
            vals_of(*cb, g_prefix@) == hc_gen_seq(la, lb, gap as int),
            vals_of(*cb, p_prefix@) == hc_prop_seq(la, lb, gap as int),
        decreases 32 - gap,
    {
        let ghost cbh = *cb;
        let mut g_next: Vec<Bit> = Vec::new();
        let mut p_next: Vec<Bit> = Vec::new();
        for i in 0..32usize
            invariant
                gap == 1 || gap == 2 || gap == 4 || gap == 8 || gap == 16,
                cbh.wf(),
                cb.wf(),
                cb.extends(cbh),
                g_prefix@.len() == 32,
                p_prefix@.len() == 32,
                live_seq(cbh, g_prefix@),
                live_seq(cbh, p_prefix@),
                vals_of(cbh, g_prefix@) == hc_gen_seq(la, lb, gap as int),
                vals_of(cbh, p_prefix@) == hc_prop_seq(la, lb, gap as int),
                g_next@.len() == i,
                p_next@.len() == i,
                forall|j: int|
                    0 <= j < i ==> cb.live(#[trigger] g_next@[j]) && cb.val(g_next@[j])
                        == hc_gen_seq(la, lb, 2 * (gap as int))[j],
                forall|j: int|
                    0 <= j < i ==> cb.live(#[trigger] p_next@[j]) && cb.val(p_next@[j])
                        == hc_prop_seq(la, lb, 2 * (gap as int))[j],
        {
            let ghost cbi = *cb;
            let ghost gnprev = g_next@;
            let ghost pnprev = p_next@;
            proof {
                assert(cb.val(g_prefix@[i as int]) == hc_gen_seq(la, lb, gap as int)[i as int]);
                assert(cb.val(p_prefix@[i as int]) == hc_prop_seq(la, lb, gap as int)[i as int]);
                if i >= gap {
                    assert(cb.val(g_prefix@[i - gap]) == hc_gen_seq(la, lb, gap as int)[i - gap]);
                    assert(cb.val(p_prefix@[i - gap]) == hc_prop_seq(la, lb, gap as int)[i - gap]);
                }
            }
            if i >= gap && i % 2 == 0 {
                let t = cb.and_gate(p_prefix[i], g_prefix[i - gap]);
                let gn = cb.xor_gate(g_prefix[i], t);
                let pn = cb.and_gate(p_prefix[i], p_prefix[i - gap]);
                g_next.push(gn);
                p_next.push(pn);
                proof {
                    let gi = gap as int;
                    let ii = i as int;
                    assert(span_lo(ii, gi) == ii - gi + 1);
                    assert(span_lo(ii - gi, gi) == span_lo(ii, 2 * gi));
                    if (ii - gi) % 2 != 0 {
                        // The first round reaches one position down, to an
                        // odd node still holding its single-bit signals.
                        assert(gi == 1);
                        lemma_span_single(la, lb, ii - 1);
                    }
                    lemma_span_split(la, lb, span_lo(ii, 2 * gi), ii - gi, ii);
                }
            } else {
                g_next.push(g_prefix[i]);
                p_next.push(p_prefix[i]);
                proof {
                    let gi = gap as int;
                    let ii = i as int;
                    if ii % 2 == 0 {
                        assert(ii < gi);
                        assert(span_lo(ii, gi) == 0 && span_lo(ii, 2 * gi) == 0);
                    }
                }
            }
            proof {
                assert forall|j: int|
                    0 <= j < i + 1 implies cb.live(#[trigger] g_next@[j]) && cb.val(g_next@[j])
                    == hc_gen_seq(la, lb, 2 * (gap as int))[j] by {
                    if j < i {
                        assert(g_next@[j] == gnprev[j]);
                        assert(cbi.val(gnprev[j]) == hc_gen_seq(la, lb, 2 * (gap as int))[j]);
                    }
                }
                assert forall|j: int|
                    0 <= j < i + 1 implies cb.live(#[trigger] p_next@[j]) && cb.val(p_next@[j])
                    == hc_prop_seq(la, lb, 2 * (gap as int))[j] by {
                    if j < i {
                        assert(p_next@[j] == pnprev[j]);
                        assert(cbi.val(pnprev[j]) == hc_prop_seq(la, lb, 2 * (gap as int))[j]);
                    }
                }
            }
        }
        g_prefix = g_next;
        p_prefix = p_next;
        gap = gap * 2;
        proof {
            assert(vals_of(*cb, g_prefix@) =~= hc_gen_seq(la, lb, gap as int));
            assert(vals_of(*cb, p_prefix@) =~= hc_prop_seq(la, lb, gap as int));
        }
    }

    // Carry chain: even positions read the prefix tree, odd positions take
    // one local step from the carry below.
    let ghost cb2 = *cb;
    let zero = cb.constant(false);
    let mut carries: Vec<Bit> = Vec::new();
    carries.push(zero);
    for i in 0..32usize
        invariant
            cb1.wf(),
            cb2.wf(),
            cb2.extends(cb1),
            cb.wf(),
            cb.extends(cb2),
            la == rev(av),
            lb == rev(bv),
            av.len() == 32,
            bv.len() == 32,
            gbase@.len() == 32,
            pbase@.len() == 32,
            live_seq(cb1, gbase@),
            live_seq(cb1, pbase@),
            vals_of(cb1, gbase@) == gen_seq(la, lb),
            vals_of(cb1, pbase@) == prop_seq(la, lb),
            g_prefix@.len() == 32,
            live_seq(cb2, g_prefix@),
            vals_of(cb2, g_prefix@) == hc_gen_seq(la, lb, 32),
            carries@.len() == i + 1,
            forall|j: int|
                0 <= j < i + 1 ==> cb.live(#[trigger] carries@[j]) && cb.val(carries@[j])
                    == carry_k(la, lb, false, j),
    {
        let ghost cbi = *cb;
        let ghost cprev = carries@;
        if i % 2 == 0 {
            carries.push(g_prefix[i]);
            proof {
                assert(cb.val(g_prefix@[i as int]) == hc_gen_seq(la, lb, 32)[i as int]);
                assert(span_lo(i as int, 32) == 0);
                lemma_carry_is_span(la, lb, i + 1);
            }
        } else {
            proof {
                assert(cb.val(gbase@[i as int]) == gen_seq(la, lb)[i as int]);
                assert(cb.val(pbase@[i as int]) == prop_seq(la, lb)[i as int]);
                assert(cb.val(carries@[i as int]) == carry_k(la, lb, false, i as int));
            }
            let t = cb.and_gate(pbase[i], carries[i]);
            let ci = cb.xor_gate(gbase[i], t);
            carries.push(ci);
            proof {
                assert(carry_k(la, lb, false, i + 1) == maj3(
                    la[i as int],
                    lb[i as int],
                    carry_k(la, lb, false, i as int),
                ));
            }
        }
        proof {
            assert forall|j: int|
                0 <= j < i + 2 implies cb.live(#[trigger] carries@[j]) && cb.val(carries@[j])
                == carry_k(la, lb, false, j) by {
                if j < i + 1 {
                    assert(carries@[j] == cprev[j]);
                    assert(cbi.val(cprev[j]) == carry_k(la, lb, false, j));
                }
            }
        }
    }

    // Final summation.
    let ghost cb4 = *cb;
    let mut sum: Vec<Bit> = Vec::new();
    for i in 0..32usize
        invariant
            cb1.wf(),
            cb4.wf(),
            cb4.extends(cb1),
            cb.wf(),
            cb.extends(cb4),
            la == rev(av),
            lb == rev(bv),
            av.len() == 32,
            bv.len() == 32,
            live_seq(cb1, pbase@),
            pbase@.len() == 32,
            vals_of(cb1, pbase@) == prop_seq(la, lb),
            carries@.len() == 33,
            live_seq(cb4, carries@),
            forall|j: int|
                0 <= j < 33 ==> cb4.val(#[trigger] carries@[j]) == carry_k(la, lb, false, j),
            sum@.len() == i,
            forall|j: int|
                0 <= j < i ==> cb.live(#[trigger] sum@[j]) && cb.val(sum@[j]) == add_le(la, lb)[j],
    {
        let ghost cbi = *cb;
        let ghost sprev = sum@;
        proof {
            assert(cb.val(pbase@[i as int]) == prop_seq(la, lb)[i as int]);
            assert(cb.val(carries@[i as int]) == carry_k(la, lb, false, i as int));
        }
        let si = cb.xor_gate(pbase[i], carries[i]);
        sum.push(si);
        proof {
            assert(add_le(la, lb)[i as int] == xor3(
                la[i as int],
                lb[i as int],
                carry_k(la, lb, false, i as int),
            ));
            assert forall|j: int|
                0 <= j < i + 1 implies cb.live(#[trigger] sum@[j]) && cb.val(sum@[j]) == add_le(
                la,
                lb,
            )[j] by {
                if j < i {
                    assert(sum@[j] == sprev[j]);
                    assert(cbi.val(sprev[j]) == add_le(la, lb)[j]);
                }
            }
        }
    }

    let sum_word = Word { bits: sum };
    let r = reverse_word(&sum_word);
    proof {
        assert(sum_word.bitvals(*cb) =~= add_le(la, lb));
        lemma_reverse_vals(sum_word, r, *cb);
        assert(r.bitvals(*cb) == add_words(av, bv));
    }
    r
}

/// 4-bit Han-Carlson block: the prefix is built over the even positions and
/// each carry is derived from the combine operator — the span's generate, or
/// the incoming carry propagated through the whole span — so the block is
/// correct for any carry in, not only for a zero one.
pub fn han_carlson_adder_4_bits(
    cb: &mut CircuitBuilder,
    a: &Vec<Bit>,
    b: &Vec<Bit>,
    carry_in: Bit,
) -> (r: (Vec<Bit>, Bit))
    requires
        old(cb).wf(),
        a@.len() == 4,
        b@.len() == 4,
        live_seq(*old(cb), a@),
        live_seq(*old(cb), b@),
        old(cb).live(carry_in),
    ensures
        final(cb).wf(),
        final(cb).extends(*old(cb)),
        r.0@.len() == 4,
        live_seq(*final(cb), r.0@),
        final(cb).live(r.1),
        forall|j: int|
            0 <= j < 4 ==> final(cb).val(#[trigger] r.0@[j]) == xor3(
                vals_of(*old(cb), a@)[j],
                vals_of(*old(cb), b@)[j],
                carry_k(vals_of(*old(cb), a@), vals_of(*old(cb), b@), old(cb).val(carry_in), j),
            ),
        final(cb).val(r.1) == carry_k(
            vals_of(*old(cb), a@),
            vals_of(*old(cb), b@),
            old(cb).val(carry_in),
            4,
        ),
{
    let ghost cb0 = *cb;
    let ghost va = vals_of(cb0, a@);
    let ghost vb = vals_of(cb0, b@);
    let ghost cin = cb0.val(carry_in);

    // Generate and propagate.
    let g0 = cb.and_gate(a[0], b[0]);
    let g1 = cb.and_gate(a[1], b[1]);
    let g2 = cb.and_gate(a[2], b[2]);
    let g3 = cb.and_gate(a[3], b[3]);
    let p0 = cb.xor_gate(a[0], b[0]);
    let p1 = cb.xor_gate(a[1], b[1]);
    let p2 = cb.xor_gate(a[2], b[2]);
    let p3 = cb.xor_gate(a[3], b[3]);

    // Even-position prefix: grow position 2 over positions 1 and 0.
    let p2g1 = cb.and_gate(p2, g1);
    let gpre2 = cb.xor_gate(g2, p2g1);
    let ppre2 = cb.and_gate(p2, p1);
    let t0 = cb.and_gate(ppre2, g0);
    let gpre2 = cb.xor_gate(gpre2, t0);
    let ppre2 = cb.and_gate(ppre2, p0);

    // Carries: even positions from the prefix span and the incoming carry,
    // odd positions by one local step.
    let c0 = carry_in;
    let u1 = cb.and_gate(p0, c0);
    let c1 = cb.xor_gate(g0, u1);
    let u2 = cb.and_gate(p1, c1);
    let c2 = cb.xor_gate(g1, u2);
    let u3 = cb.and_gate(ppre2, c0);
    let c3 = cb.xor_gate(gpre2, u3);
    let u4 = cb.and_gate(p3, c3);
    let c4 = cb.xor_gate(g3, u4);

    // Sum bits.
    let s0 = cb.xor_gate(p0, c0);
    let s1 = cb.xor_gate(p1, c1);
    let s2 = cb.xor_gate(p2, c2);
    let s3 = cb.xor_gate(p3, c3);

    let mut sum: Vec<Bit> = Vec::new();
    sum.push(s0);
    sum.push(s1);
    sum.push(s2);
    sum.push(s3);

    proof {
        assert(carry_k(va, vb, cin, 0) == cin);
        assert(carry_k(va, vb, cin, 1) == maj3(va[0], vb[0], cin));
        assert(carry_k(va, vb, cin, 2) == maj3(va[1], vb[1], carry_k(va, vb, cin, 1)));
        assert(carry_k(va, vb, cin, 3) == maj3(va[2], vb[2], carry_k(va, vb, cin, 2)));
        assert(carry_k(va, vb, cin, 4) == maj3(va[3], vb[3], carry_k(va, vb, cin, 3)));
        assert(cb.val(c1) == carry_k(va, vb, cin, 1));
        assert(cb.val(c2) == carry_k(va, vb, cin, 2));
        assert(cb.val(c3) == carry_k(va, vb, cin, 3));
        assert(cb.val(c4) == carry_k(va, vb, cin, 4));
    }
    (sum, c4)
}

/// Han-Carlson adder built from four-bit blocks chained through their
/// carries.  Returns `(a + b) mod 2^32`.
pub fn add_hancarlson(cb: &mut CircuitBuilder, a: &Word, b: &Word) -> (r: Word)
    requires
        old(cb).wf(),
        a.wf(*old(cb)),
        b.wf(*old(cb)),
    ensures
        final(cb).wf(),
        final(cb).extends(*old(cb)),
        r.wf(*final(cb)),
        r.bitvals(*final(cb)) == add_words(a.bitvals(*old(cb)), b.bitvals(*old(cb))),
{
    let ghost cb0 = *cb;
    let ghost av = a.bitvals(cb0);
    let ghost bv = b.bitvals(cb0);
    let ghost la = rev(av);
    let ghost lb = rev(bv);

    let ra = reverse_word(a);
    let rb = reverse_word(b);
    proof {
        lemma_reverse_vals(*a, ra, cb0);
        lemma_reverse_vals(*b, rb, cb0);
    }

    let mut ci = cb.constant(false);
    let mut c: Vec<Bit> = Vec::new();
    let mut blk: usize = 0;
    while blk < 8
        invariant
            blk <= 8,
            cb0.wf(),
            cb.wf(),
            cb.extends(cb0),
            ra.wf(cb0),
            rb.wf(cb0),
            ra.bitvals(cb0) == la,
            rb.bitvals(cb0) == lb,
            la == rev(av),
            lb == rev(bv),
            av.len() == 32,
            bv.len() == 32,
            c@.len() == 4 * blk,
            forall|j: int|
                0 <= j < 4 * blk ==> cb.live(#[trigger] c@[j]) && cb.val(c@[j]) == add_le(
                    la,
                    lb,
                )[j],
            cb.live(ci),
            cb.val(ci) == carry_k(la, lb, false, 4 * blk as int),
        decreases 8 - blk,
    {
        let start = blk * 4;
        let a4 = take4(&ra.bits, start);
        let b4 = take4(&rb.bits, start);
        let ghost cbh = *cb;
        let ghost cprev = c@;
        let ghost cinv = cbh.val(ci);
        proof {
            assert forall|j: int| 0 <= j < 4 implies cb.live(#[trigger] a4@[j]) && cb.live(
                b4@[j],
            ) && cb.val(a4@[j]) == la[start + j] && cb.val(b4@[j]) == lb[start + j] by {
                assert(a4@[j] == ra.bits@[start + j]);
                assert(b4@[j] == rb.bits@[start + j]);
                assert(cb0.val(ra.bits@[start + j]) == la[start + j]);
                assert(cb0.val(rb.bits@[start + j]) == lb[start + j]);
            }
        }
        let (sum4, cnext) = han_carlson_adder_4_bits(cb, &a4, &b4, ci);
        let ghost va4 = vals_of(cbh, a4@);
        let ghost vb4 = vals_of(cbh, b4@);
        proof {
            let st = start as int;
            assert forall|j: int| 0 <= j <= 4 implies carry_k(va4, vb4, cinv, j) == carry_k(
                la,
                lb,
                false,
                st + j,
            ) by {
                assert forall|m: int| 0 <= m < j implies va4[m] == la.skip(st)[m] && vb4[m]
                    == lb.skip(st)[m] by {
                    assert(va4[m] == cbh.val(a4@[m]));
                }
                lemma_carry_congruent(va4, vb4, la.skip(st), lb.skip(st), cinv, j);
                lemma_carry_block(la, lb, st, j);
            }
        }
        c.push(sum4[0]);
        c.push(sum4[1]);
        c.push(sum4[2]);
        c.push(sum4[3]);
        ci = cnext;
        proof {
            let st = start as int;
            assert forall|j: int|
                0 <= j < 4 * blk + 4 implies cb.live(#[trigger] c@[j]) && cb.val(c@[j]) == add_le(
                la,
                lb,
            )[j] by {
                if j < 4 * blk {
                    assert(c@[j] == cprev[j]);
                    assert(cbh.val(cprev[j]) == add_le(la, lb)[j]);
                } else {
                    let m = j - st;
                    assert(c@[j] == sum4@[m]);
                    assert(cb.val(sum4@[m]) == xor3(va4[m], vb4[m], carry_k(va4, vb4, cinv, m)));
                    assert(va4[m] == la[j] && vb4[m] == lb[j]);
                    assert(add_le(la, lb)[j] == xor3(la[j], lb[j], carry_k(la, lb, false, j)));
                }
            }
        }
        blk = blk + 1;
    }

    let sum_word = Word { bits: c };
    let r = reverse_word(&sum_word);
    proof {
        assert(sum_word.bitvals(*cb) =~= add_le(la, lb));
        lemma_reverse_vals(sum_word, r, *cb);
        assert(r.bitvals(*cb) == add_words(av, bv));
    }
    r
}

} // verus!
