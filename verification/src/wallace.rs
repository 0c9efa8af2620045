//! Carry-save addition and multi-operand summation: the three-operand adder
//! that defers carry propagation, the default two-operand adder, and the
//! binary-tree accumulation of a list of words.

use crate::bitmath::{csa_carry_words, csa_sum_words, lemma_csa_value, maj3, rev, xor3};
use crate::circuit::{vals_of, Bit, CircuitBuilder};
use crate::word::{lemma_reverse_vals, reverse_word, Word};
use vstd::arithmetic::div_mod::{lemma_add_mod_noop_right, lemma_small_mod};
use vstd::arithmetic::power2::{lemma_pow2_pos, pow2};
use vstd::prelude::*;

verus! {

broadcast use crate::circuit::lemma_vals_of_stable, crate::circuit::lemma_extends_trans;

/// Carry-save adder over three operands: the sum word is the bitwise
/// exclusive-or, the carry word the bitwise majority shifted one position up,
/// so that one further two-operand add yields `a + b + c mod 2^32`.
pub fn add_csa3(cb: &mut CircuitBuilder, a: &Word, b: &Word, c: &Word) -> (r: (Word, Word))
    requires
        old(cb).wf(),
        a.wf(*old(cb)),
        b.wf(*old(cb)),
        c.wf(*old(cb)),
    ensures
        final(cb).wf(),
        final(cb).extends(*old(cb)),
        r.0.wf(*final(cb)),
        r.1.wf(*final(cb)),
        r.0.bitvals(*final(cb)) == csa_sum_words(
            a.bitvals(*old(cb)),
            b.bitvals(*old(cb)),
            c.bitvals(*old(cb)),
        ),
        r.1.bitvals(*final(cb)) == csa_carry_words(
            a.bitvals(*old(cb)),
            b.bitvals(*old(cb)),
            c.bitvals(*old(cb)),
        ),
{
    let ghost cb0 = *cb;
    let ghost av = a.bitvals(cb0);
    let ghost bv = b.bitvals(cb0);
    let ghost cv = c.bitvals(cb0);
    let ghost la = rev(av);
    let ghost lb = rev(bv);
    let ghost lc = rev(cv);

    let ra = reverse_word(a);
    let rb = reverse_word(b);
    let rc = reverse_word(c);
    proof {
        lemma_reverse_vals(*a, ra, cb0);
        lemma_reverse_vals(*b, rb, cb0);
        lemma_reverse_vals(*c, rc, cb0);
    }

    let zero = cb.constant(false);
    let ghost cb1 = *cb;
    let mut lsum: Vec<Bit> = Vec::new();
    let mut lcar: Vec<Bit> = Vec::new();
    lcar.push(zero);
    for i in 0..32usize
        invariant
            cb0.wf(),
            cb1.wf(),
            cb1.extends(cb0),
            cb.wf(),
            cb.extends(cb1),
            ra.wf(cb0),
            rb.wf(cb0),
            rc.wf(cb0),
            ra.bitvals(cb0) == la,
            rb.bitvals(cb0) == lb,
            rc.bitvals(cb0) == lc,
            la == rev(av),
            lb == rev(bv),
            lc == rev(cv),
            av.len() == 32,
            bv.len() == 32,
            cv.len() == 32,
            cb1.live(zero),
            cb1.val(zero) == false,
            lsum@.len() == i,
            lcar@.len() == i + 1,
            forall|j: int|
                0 <= j < i ==> cb.live(#[trigger] lsum@[j]) && cb.val(lsum@[j]) == xor3(
                    la[j],
                    lb[j],
                    lc[j],
                ),
            forall|j: int|
                0 <= j < i + 1 ==> cb.live(#[trigger] lcar@[j]) && cb.val(lcar@[j]) == (if j == 0 {
                    false
                } else {
                    maj3(la[j - 1], lb[j - 1], lc[j - 1])
                }),
    {
        let ghost cbh = *cb;
        let ghost sprev = lsum@;
        let ghost cprev = lcar@;
        proof {
            assert(cb.val(ra.bits@[i as int]) == la[i as int]);
            assert(cb.val(rb.bits@[i as int]) == lb[i as int]);
            assert(cb.val(rc.bits@[i as int]) == lc[i as int]);
        }
        let t = cb.xor_gate(ra.bits[i], rb.bits[i]);
        let s = cb.xor_gate(t, rc.bits[i]);
        let ab = cb.and_gate(ra.bits[i], rb.bits[i]);
        let bc = cb.and_gate(rb.bits[i], rc.bits[i]);
        let ac = cb.and_gate(ra.bits[i], rc.bits[i]);
        let u = cb.xor_gate(ab, bc);
        let m = cb.xor_gate(u, ac);
        lsum.push(s);
        lcar.push(m);
        proof {
            assert forall|j: int|
                0 <= j < i + 1 implies cb.live(#[trigger] lsum@[j]) && cb.val(lsum@[j]) == xor3(
                la[j],
                lb[j],
                lc[j],
            ) by {
                if j < i {
                    assert(lsum@[j] == sprev[j]);
                    assert(cbh.val(sprev[j]) == xor3(la[j], lb[j], lc[j]));
                }
            }
            assert forall|j: int|
                0 <= j < i + 2 implies cb.live(#[trigger] lcar@[j]) && cb.val(lcar@[j]) == (if j
                == 0 {
                false
            } else {
                maj3(la[j - 1], lb[j - 1], lc[j - 1])
            }) by {
                if j < i + 1 {
                    assert(lcar@[j] == cprev[j]);
                    assert(cbh.val(cprev[j]) == (if j == 0 {
                        false
                    } else {
                        maj3(la[j - 1], lb[j - 1], lc[j - 1])
                    }));
                }
            }
        }
    }

    let mut lout: Vec<Bit> = Vec::new();
    for i in 0..32usize
        invariant
            lcar@.len() == 33,
            lout@.len() == i,
            forall|j: int| 0 <= j < i ==> lout@[j] == lcar@[j],
    {
        lout.push(lcar[i]);
    }

    let sum_word = Word { bits: lsum };
    let car_word = Word { bits: lout };
    let rs = reverse_word(&sum_word);
    let rc_out = reverse_word(&car_word);
    proof {
        assert forall|i: int| 0 <= i < 32 implies cb.live(#[trigger] car_word.bits@[i]) by {
            assert(car_word.bits@[i] == lcar@[i]);
        }
        lemma_reverse_vals(sum_word, rs, *cb);
        lemma_reverse_vals(car_word, rc_out, *cb);
        assert(rs.bitvals(*cb) =~= csa_sum_words(av, bv, cv));
        assert forall|j: int| 0 <= j < 32 implies rc_out.bitvals(*cb)[j] == csa_carry_words(
            av,
            bv,
            cv,
        )[j] by {
            assert(rev(car_word.bitvals(*cb))[j] == car_word.bitvals(*cb)[31 - j]);
            assert(car_word.bits@[31 - j] == lcar@[31 - j]);
            assert(cb.val(lcar@[31 - j]) == (if 31 - j == 0 {
                false
            } else {
                maj3(la[30 - j], lb[30 - j], lc[30 - j])
            }));
            if j < 31 {
                assert(la[30 - j] == av[j + 1]);
                assert(lb[30 - j] == bv[j + 1]);
                assert(lc[30 - j] == cv[j + 1]);
            }
        }
        assert(rc_out.bitvals(*cb) =~= csa_carry_words(av, bv, cv));
    }
    (rs, rc_out)
}

/// The default two-operand adder the higher layers build on; any of the five
/// strategies satisfies the same contract, the parallel Kogge-Stone form is
/// the one wired in.
pub fn add(cb: &mut CircuitBuilder, a: &Word, b: &Word) -> (r: Word)
    requires
        old(cb).wf(),
        a.wf(*old(cb)),
        b.wf(*old(cb)),
    ensures
        final(cb).wf(),
        final(cb).extends(*old(cb)),
        r.wf(*final(cb)),
        r.bitvals(*final(cb)) == crate::bitmath::add_words(
            a.bitvals(*old(cb)),
            b.bitvals(*old(cb)),
        ),
{
    crate::koggestone::add_koggestone_32_bits_prallel(cb, a, b)
}

/// Sum of the first `k` entries.
pub open spec fn sum_prefix(xs: Seq<nat>, k: int) -> nat
    decreases k,
{
    if k <= 0 {
        0
    } else {
        sum_prefix(xs, k - 1) + xs[k - 1]
    }
}

/// The numeric values of a list of words under one valuation.
pub open spec fn word_uvals(cb: CircuitBuilder, ws: Seq<Word>) -> Seq<nat> {
    Seq::new(ws.len(), |i: int| ws[i].uval(cb))
}

/// Prefix sums only read the entries below `k`.
proof fn lemma_sum_prefix_congruent(xs: Seq<nat>, ys: Seq<nat>, k: int)
    requires
        forall|j: int| 0 <= j < k ==> xs[j] == ys[j],
    ensures
        sum_prefix(xs, k) == sum_prefix(ys, k),
    decreases k,
{
    if k > 0 {
        lemma_sum_prefix_congruent(xs, ys, k - 1);
    }
}

/// Splitting a prefix sum at any point.
proof fn lemma_sum_prefix_split(xs: Seq<nat>, a: int, b: int)
    requires
        0 <= a <= b,
    ensures
        sum_prefix(xs, b) == sum_prefix(xs, a) + sum_range(xs, a, b),
    decreases b - a,
{
    if b > a {
        lemma_sum_prefix_split(xs, a, b - 1);
    }
}

/// Sum of the entries in `[a, b)`.
pub open spec fn sum_range(xs: Seq<nat>, a: int, b: int) -> nat
    decreases b - a,
{
    if b <= a {
        0
    } else {
        sum_range(xs, a, b - 1) + xs[b - 1]
    }
}

/// Range sums only read the entries inside the range.
proof fn lemma_sum_range_congruent(xs: Seq<nat>, ys: Seq<nat>, a: int, b: int)
    requires
        forall|j: int| a <= j < b ==> xs[j] == ys[j],
    ensures
        sum_range(xs, a, b) == sum_range(ys, a, b),
    decreases b - a,
{
    if b > a {
        lemma_sum_range_congruent(xs, ys, a, b - 1);
    }
}

/// A range sum splits at any interior point.
proof fn lemma_sum_range_split(xs: Seq<nat>, a: int, c: int, b: int)
    requires
        a <= c <= b,
    ensures
        sum_range(xs, a, b) == sum_range(xs, a, c) + sum_range(xs, c, b),
    decreases b - c,
{
    if b > c {
        lemma_sum_range_split(xs, a, c, b - 1);
    }
}

/// Peeling the first entry off a range sum.
proof fn lemma_sum_range_first(xs: Seq<nat>, a: int, b: int)
    requires
        a < b,
    ensures
        sum_range(xs, a, b) == xs[a] + sum_range(xs, a + 1, b),
    decreases b - a,
{
    if b == a + 1 {
        assert(sum_range(xs, a, a) == 0);
    } else {
        lemma_sum_range_first(xs, a, b - 1);
    }
}

/// Binary-tree summation of a non-empty list of words: pairs are folded with
/// the two-operand adder, halving the operand count each round and carrying
/// an unmatched last operand up unchanged.  The result is the sum of all the
/// operands modulo `2^32`.
pub fn sum_all(cb: &mut CircuitBuilder, vs: &Vec<Word>) -> (r: Word)
    requires
        old(cb).wf(),
        vs@.len() >= 1,
        forall|i: int| 0 <= i < vs@.len() ==> (#[trigger] vs@[i]).wf(*old(cb)),
    ensures
        final(cb).wf(),
        final(cb).extends(*old(cb)),
        r.wf(*final(cb)),
        r.uval(*final(cb)) as int == (sum_prefix(word_uvals(*old(cb), vs@), vs@.len() as int)
            as int) % (pow2(32) as int),
{
    let ghost cb0 = *cb;
    let ghost m = pow2(32) as int;
    let ghost total = sum_prefix(word_uvals(cb0, vs@), vs@.len() as int);
    proof {
        lemma_pow2_pos(32);
    }

    let mut vvs: Vec<Word> = Vec::new();
    let nn = vs.len();
    for i in 0..nn
        invariant
            nn == vs@.len(),
            cb0.wf(),
            cb.wf(),
            *cb == cb0,
            forall|k: int| 0 <= k < vs@.len() ==> (#[trigger] vs@[k]).wf(cb0),
            vvs@.len() == i,
            forall|k: int| 0 <= k < i ==> (#[trigger] vvs@[k]).bits@ == vs@[k].bits@,
    {
        let w = &vs[i];
        vvs.push(w.clone());
    }
    proof {
        assert forall|k: int| 0 <= k < nn implies (#[trigger] vvs@[k]).wf(*cb) && vvs@[k].uval(*cb)
            == word_uvals(cb0, vs@)[k] by {
            assert(vvs@[k].bits@ == vs@[k].bits@);
            assert(vvs@[k].bitvals(*cb) =~= vs@[k].bitvals(cb0));
        }
        assert(sum_prefix(word_uvals(*cb, vvs@), nn as int) == total) by {
            lemma_sum_prefix_congruent(word_uvals(*cb, vvs@), word_uvals(cb0, vs@), nn as int);
        }
    }

    let mut n: usize = nn;
    while n > 1
        invariant
            1 <= n <= nn,
            nn == vvs@.len(),
            cb0.wf(),
            cb.wf(),
            cb.extends(cb0),
            forall|k: int| 0 <= k < nn ==> (#[trigger] vvs@[k]).wf(*cb),
            (sum_prefix(word_uvals(*cb, vvs@), n as int) as int) % m == (total as int) % m,
            m == pow2(32) as int,
            m > 0,
            total == sum_prefix(word_uvals(cb0, vs@), vs@.len() as int),
        decreases n,
    {
        let half = n / 2;
        let ghost cbr = *cb;
        let ghost uv_round = word_uvals(cbr, vvs@);
        proof {
            lemma_sum_prefix_split(uv_round, 0, n as int);
            lemma_sum_prefix_split(uv_round, 0, half as int);
            lemma_sum_range_split(uv_round, 0, half as int, n as int);
            assert(sum_prefix(uv_round, 0) == 0);
        }
        let mut i: usize = 0;
        while i < half
            invariant
                0 <= i <= half,
                half == n / 2,
                1 < n <= nn,
                nn == vvs@.len(),
                cbr.wf(),
                cb.wf(),
                cb.extends(cbr),
                forall|k: int| 0 <= k < nn ==> (#[trigger] vvs@[k]).wf(*cb),
                forall|k: int| i <= k < nn ==> (#[trigger] vvs@[k]).uval(*cb) == uv_round[k],
                m == pow2(32) as int,
                m > 0,
                ((sum_prefix(word_uvals(*cb, vvs@), i as int) + sum_range(
                    word_uvals(*cb, vvs@),
                    i as int,
                    half as int,
                ) + sum_range(uv_round, half + i, n as int)) as int) % m == (sum_prefix(
                    uv_round,
                    n as int,
                ) as int) % m,
            decreases half - i,
        {
            let ghost cbi = *cb;
            let ghost vprev = vvs@;
            let ghost uv_before = word_uvals(cbi, vprev);
            let s = crate::wallace::add(cb, &vvs[i], &vvs[i + half]);
            proof {
                crate::bitmath::lemma_add_words_value(
                    vvs@[i as int].bitvals(cbi),
                    vvs@[i + half].bitvals(cbi),
                );
            }
            vvs[i] = s;
            proof {
                let ii = i as int;
                let hh = half as int;
                let uv_now = word_uvals(*cb, vvs@);
                assert forall|k: int| 0 <= k < nn implies (#[trigger] vvs@[k]).wf(*cb) by {
                    if k != ii {
                        assert(vvs@[k] == vprev[k]);
                        assert(vprev[k].wf(cbi));
                    }
                }
                assert forall|k: int| 0 <= k < nn && k != ii implies uv_now[k] == uv_before[k] by {
                    assert(vvs@[k] == vprev[k]);
                    assert(vvs@[k].bitvals(*cb) == vprev[k].bitvals(cbi));
                }
                assert forall|k: int| i + 1 <= k < nn implies (#[trigger] vvs@[k]).uval(*cb)
                    == uv_round[k] by {
                    assert(uv_now[k] == uv_before[k]);
                    assert(vprev[k].uval(cbi) == uv_round[k]);
                }
                // The merged entry holds the pair's sum modulo 2^32.
                assert(uv_now[ii] as int == ((uv_round[ii] + uv_round[ii + hh]) as int) % m) by {
                    assert(vprev[ii].uval(cbi) == uv_round[ii]);
                    assert(vprev[ii + hh].uval(cbi) == uv_round[ii + hh]);
                }
                // Re-establish the partial-sum identity.
                let s_new = sum_prefix(uv_now, ii + 1) + sum_range(uv_now, ii + 1, hh) + sum_range(
                    uv_round,
                    hh + ii + 1,
                    n as int,
                );
                assert(sum_prefix(uv_now, ii) == sum_prefix(word_uvals(cbi, vprev), ii)) by {
                    lemma_sum_prefix_congruent(uv_now, uv_before, ii);
                }
                assert(sum_range(uv_now, ii, hh) == uv_now[ii] + sum_range(uv_now, ii + 1, hh))
                    by {
                    lemma_sum_range_first(uv_now, ii, hh);
                }
                assert(sum_range(uv_round, hh + ii, n as int) == uv_round[hh + ii] + sum_range(
                    uv_round,
                    hh + ii + 1,
                    n as int,
                )) by {
                    lemma_sum_range_first(uv_round, hh + ii, n as int);
                }
                assert(sum_range(uv_before, ii, hh) == uv_before[ii] + sum_range(
                    uv_before,
                    ii + 1,
                    hh,
                )) by {
                    lemma_sum_range_first(uv_before, ii, hh);
                }
                assert(sum_range(uv_now, ii + 1, hh) == sum_range(uv_before, ii + 1, hh)) by {
                    lemma_sum_range_congruent(uv_now, uv_before, ii + 1, hh);
                }
                // Old invariant, with the pair split out of its two sums:
                // s_old' = prefix(ii) + [uv_round[ii] + rest1] + [uv_round[ii+hh] + rest2].
                assert(sum_prefix(uv_before, ii) + sum_range(uv_before, ii, hh) + sum_range(
                    uv_round,
                    hh + ii,
                    n as int,
                ) == sum_prefix(uv_now, ii) + uv_round[ii] + uv_round[ii + hh] + sum_range(
                    uv_now,
                    ii + 1,
                    hh,
                ) + sum_range(uv_round, hh + ii + 1, n as int)) by {
                    assert(uv_before[ii] == uv_round[ii]);
                }
                let base = sum_prefix(uv_now, ii) + sum_range(uv_now, ii + 1, hh) + sum_range(
                    uv_round,
                    hh + ii + 1,
                    n as int,
                );
                assert(s_new == base + uv_now[ii]);
                lemma_add_mod_noop_right(
                    base as int,
                    (uv_round[ii] + uv_round[ii + hh]) as int,
                    m,
                );
                assert((s_new as int) % m == ((base + uv_round[ii] + uv_round[ii + hh]) as int)
                    % m);
                assert((s_new as int) % m == (sum_prefix(uv_round, n as int) as int) % m);
            }
            i = i + 1;
        }
        // Carry an unmatched last operand up unchanged.
        let ghost cbm = *cb;
        let ghost uv_mid = word_uvals(cbm, vvs@);
        if n % 2 == 1 {
            let last = vvs[n - 1].clone();
            let ghost vprev = vvs@;
            vvs[half] = last;
            proof {
                let hh = half as int;
                let uv_now = word_uvals(*cb, vvs@);
                assert forall|k: int| 0 <= k < nn implies (#[trigger] vvs@[k]).wf(*cb) by {
                    if k != hh {
                        assert(vvs@[k] == vprev[k]);
                    } else {
                        assert(vvs@[hh].bits@ == vprev[n - 1].bits@);
                    }
                }
                assert(vvs@[hh].bitvals(*cb) =~= vprev[n - 1].bitvals(cbm));
                assert forall|k: int| 0 <= k < nn && k != hh implies uv_now[k] == uv_mid[k] by {
                    assert(vvs@[k] == vprev[k]);
                }
                assert(uv_now[hh] == uv_round[n - 1]) by {
                    assert(vprev[n - 1].uval(cbm) == uv_round[n - 1]);
                }
                assert(sum_prefix(uv_now, hh + 1) == sum_prefix(uv_now, hh) + uv_now[hh]);
                assert(sum_prefix(uv_now, hh) == sum_prefix(uv_mid, hh)) by {
                    lemma_sum_prefix_congruent(uv_now, uv_mid, hh);
                }
                // After the inner loop the identity reads: prefix(half) plus
                // the single leftover equals the round total, modulo 2^32.
                assert(sum_range(uv_round, 2 * hh, n as int) == uv_round[n - 1] + sum_range(
                    uv_round,
                    2 * hh + 1,
                    n as int,
                )) by {
                    lemma_sum_range_first(uv_round, 2 * hh, n as int);
                }
                assert(sum_range(uv_round, 2 * hh + 1, n as int) == 0);
            }
        } else {
            proof {
                let hh = half as int;
                assert(sum_range(uv_round, 2 * hh, n as int) == 0);
                assert(sum_range(word_uvals(cbm, vvs@), hh, hh) == 0);
            }
        }
        let ghost n_old = n;
        n = n / 2 + n % 2;
        proof {
            let uv_now = word_uvals(*cb, vvs@);
            assert((sum_prefix(uv_now, n as int) as int) % m == (sum_prefix(
                uv_round,
                n_old as int,
            ) as int) % m);
            assert((sum_prefix(uv_round, n_old as int) as int) % m == (total as int) % m);
        }
    }
    let r = vvs[0].clone();
    proof {
        assert(r.bitvals(*cb) =~= vvs@[0].bitvals(*cb));
        assert(sum_prefix(word_uvals(*cb, vvs@), 0) == 0);
        assert(sum_prefix(word_uvals(*cb, vvs@), 1) == vvs@[0].uval(*cb));
        crate::bitmath::lemma_word_val_bound(r.bitvals(*cb));
        lemma_small_mod(r.uval(*cb), pow2(32));
    }
    r
}

} // verus!
