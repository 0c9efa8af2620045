//! The SHA-256 mixing gadgets: Ch, Maj, and the four sigma functions, each a
//! pure composition of the per-bit primitives — no adders involved.

use crate::circuit::CircuitBuilder;
use crate::word::{
    and, and_bits, lemma_rotate_vals, not, not_bits, rotate_right, rotr_bits, shift_right,
    shr_bits, xor, xor_bits, Word,
};
use vstd::prelude::*;

verus! {

broadcast use crate::circuit::lemma_vals_of_stable, crate::circuit::lemma_extends_trans;

/// `Ch(x,y,z)` bit by bit: `(x AND y) XOR (NOT x AND z)`.
pub open spec fn ch_bits(x: Seq<bool>, y: Seq<bool>, z: Seq<bool>) -> Seq<bool> {
    Seq::new(32, |j: int| (x[j] && y[j]) != (!x[j] && z[j]))
}

/// `Maj(x,y,z)` bit by bit: `(x AND y) XOR (x AND z) XOR (y AND z)`.
pub open spec fn maj_bits(x: Seq<bool>, y: Seq<bool>, z: Seq<bool>) -> Seq<bool> {
    Seq::new(32, |j: int| ((x[j] && y[j]) != (x[j] && z[j])) != (y[j] && z[j]))
}

/// Schedule sigma-0: `ROTR7 XOR ROTR18 XOR SHR3`.
pub open spec fn small_sigma0_bits(x: Seq<bool>) -> Seq<bool> {
    xor_bits(xor_bits(rotr_bits(x, 7), rotr_bits(x, 18)), shr_bits(x, 3))
}

/// Schedule sigma-1: `ROTR17 XOR ROTR19 XOR SHR10`.
pub open spec fn small_sigma1_bits(x: Seq<bool>) -> Seq<bool> {
    xor_bits(xor_bits(rotr_bits(x, 17), rotr_bits(x, 19)), shr_bits(x, 10))
}

/// Compression Sigma-0: `ROTR2 XOR ROTR13 XOR ROTR22`.
pub open spec fn big_sigma0_bits(x: Seq<bool>) -> Seq<bool> {
    xor_bits(xor_bits(rotr_bits(x, 2), rotr_bits(x, 13)), rotr_bits(x, 22))
}

/// Compression Sigma-1: `ROTR6 XOR ROTR11 XOR ROTR25`.
pub open spec fn big_sigma1_bits(x: Seq<bool>) -> Seq<bool> {
    xor_bits(xor_bits(rotr_bits(x, 6), rotr_bits(x, 11)), rotr_bits(x, 25))
}

/// Ch function: `(x AND y) XOR (NOT x AND z)`.
pub fn ch(cb: &mut CircuitBuilder, x: &Word, y: &Word, z: &Word) -> (r: Word)
    requires
        old(cb).wf(),
        x.wf(*old(cb)),
        y.wf(*old(cb)),
        z.wf(*old(cb)),
    ensures
        final(cb).wf(),
        final(cb).extends(*old(cb)),
        r.wf(*final(cb)),
        r.bitvals(*final(cb)) == ch_bits(
            x.bitvals(*old(cb)),
            y.bitvals(*old(cb)),
            z.bitvals(*old(cb)),
        ),
{
    let ghost cb0 = *cb;
    let xy = and(cb, x, y);
    let not_x = not(cb, x);
    let not_xz = and(cb, &not_x, z);
    let r = xor(cb, &xy, &not_xz);
    proof {
        assert(r.bitvals(*cb) =~= ch_bits(x.bitvals(cb0), y.bitvals(cb0), z.bitvals(cb0)));
    }
    r
}

/// Maj function: `(x AND y) XOR (x AND z) XOR (y AND z)`.
pub fn maj(cb: &mut CircuitBuilder, x: &Word, y: &Word, z: &Word) -> (r: Word)
    requires
        old(cb).wf(),
        x.wf(*old(cb)),
        y.wf(*old(cb)),
        z.wf(*old(cb)),
    ensures
        final(cb).wf(),
        final(cb).extends(*old(cb)),
        r.wf(*final(cb)),
        r.bitvals(*final(cb)) == maj_bits(
            x.bitvals(*old(cb)),
            y.bitvals(*old(cb)),
            z.bitvals(*old(cb)),
        ),
{
    let ghost cb0 = *cb;
    let xy = and(cb, x, y);
    let xz = and(cb, x, z);
    let yz = and(cb, y, z);
    let tmp = xor(cb, &xy, &xz);
    let r = xor(cb, &tmp, &yz);
    proof {
        assert(r.bitvals(*cb) =~= maj_bits(x.bitvals(cb0), y.bitvals(cb0), z.bitvals(cb0)));
    }
    r
}

/// Schedule sigma-0: `ROTR(x,7) XOR ROTR(x,18) XOR SHR(x,3)`.
pub fn lower_case_sigma0(cb: &mut CircuitBuilder, word: &Word) -> (r: Word)
    requires
        old(cb).wf(),
        word.wf(*old(cb)),
    ensures
        final(cb).wf(),
        final(cb).extends(*old(cb)),
        r.wf(*final(cb)),
        r.bitvals(*final(cb)) == small_sigma0_bits(word.bitvals(*old(cb))),
{
    let ghost cb0 = *cb;
    let rot7 = rotate_right(word, 7);
    let rot18 = rotate_right(word, 18);
    proof {
        lemma_rotate_vals(*word, rot7, 7, cb0);
        lemma_rotate_vals(*word, rot18, 18, cb0);
    }
    let shft3 = shift_right(cb, word, 3);
    let tmp = xor(cb, &rot7, &rot18);
    let r = xor(cb, &tmp, &shft3);
    proof {
        assert(r.bitvals(*cb) =~= small_sigma0_bits(word.bitvals(cb0)));
    }
    r
}

/// Schedule sigma-1: `ROTR(x,17) XOR ROTR(x,19) XOR SHR(x,10)`.
pub fn lower_case_sigma1(cb: &mut CircuitBuilder, word: &Word) -> (r: Word)
    requires
        old(cb).wf(),
        word.wf(*old(cb)),
    ensures
        final(cb).wf(),
        final(cb).extends(*old(cb)),
        r.wf(*final(cb)),
        r.bitvals(*final(cb)) == small_sigma1_bits(word.bitvals(*old(cb))),
{
    let ghost cb0 = *cb;
    let rot17 = rotate_right(word, 17);
    let rot19 = rotate_right(word, 19);
    proof {
        lemma_rotate_vals(*word, rot17, 17, cb0);
        lemma_rotate_vals(*word, rot19, 19, cb0);
    }
    let shft10 = shift_right(cb, word, 10);
    let tmp = xor(cb, &rot17, &rot19);
    let r = xor(cb, &tmp, &shft10);
    proof {
        assert(r.bitvals(*cb) =~= small_sigma1_bits(word.bitvals(cb0)));
    }
    r
}

/// Compression Sigma-0: `ROTR(x,2) XOR ROTR(x,13) XOR ROTR(x,22)`.
pub fn capital_sigma0(cb: &mut CircuitBuilder, x: &Word) -> (r: Word)
    requires
        old(cb).wf(),
        x.wf(*old(cb)),
    ensures
        final(cb).wf(),
        final(cb).extends(*old(cb)),
        r.wf(*final(cb)),
        r.bitvals(*final(cb)) == big_sigma0_bits(x.bitvals(*old(cb))),
{
    let ghost cb0 = *cb;
    let rot2 = rotate_right(x, 2);
    let rot13 = rotate_right(x, 13);
    let rot22 = rotate_right(x, 22);
    proof {
        lemma_rotate_vals(*x, rot2, 2, cb0);
        lemma_rotate_vals(*x, rot13, 13, cb0);
        lemma_rotate_vals(*x, rot22, 22, cb0);
    }
    let tmp = xor(cb, &rot2, &rot13);
    let r = xor(cb, &tmp, &rot22);
    proof {
        assert(r.bitvals(*cb) =~= big_sigma0_bits(x.bitvals(cb0)));
    }
    r
}

/// Compression Sigma-1: `ROTR(x,6) XOR ROTR(x,11) XOR ROTR(x,25)`.
pub fn capital_sigma1(cb: &mut CircuitBuilder, x: &Word) -> (r: Word)
    requires
        old(cb).wf(),
        x.wf(*old(cb)),
    ensures
        final(cb).wf(),
        final(cb).extends(*old(cb)),
        r.wf(*final(cb)),
        r.bitvals(*final(cb)) == big_sigma1_bits(x.bitvals(*old(cb))),
{
    let ghost cb0 = *cb;
    let rot6 = rotate_right(x, 6);
    let rot11 = rotate_right(x, 11);
    let rot25 = rotate_right(x, 25);
    proof {
        lemma_rotate_vals(*x, rot6, 6, cb0);
        lemma_rotate_vals(*x, rot11, 11, cb0);
        lemma_rotate_vals(*x, rot25, 25, cb0);
    }
    let tmp = xor(cb, &rot6, &rot11);
    let r = xor(cb, &tmp, &rot25);
    proof {
        assert(r.bitvals(*cb) =~= big_sigma1_bits(x.bitvals(cb0)));
    }
    r
}

/// Exclusive-or of two words; fixed-width twin of `xor_vec`.
pub fn xor_array(cb: &mut CircuitBuilder, a: &Word, b: &Word) -> (r: Word)
    requires
        old(cb).wf(),
        a.wf(*old(cb)),
        b.wf(*old(cb)),
    ensures
        final(cb).wf(),
        final(cb).extends(*old(cb)),
        r.wf(*final(cb)),
        r.bitvals(*final(cb)) == xor_bits(a.bitvals(*old(cb)), b.bitvals(*old(cb))),
{
    xor(cb, a, b)
}

/// Logical-and of two words; fixed-width twin of `and_vec`.
pub fn and_array(cb: &mut CircuitBuilder, a: &Word, b: &Word) -> (r: Word)
    requires
        old(cb).wf(),
        a.wf(*old(cb)),
        b.wf(*old(cb)),
    ensures
        final(cb).wf(),
        final(cb).extends(*old(cb)),
        r.wf(*final(cb)),
        r.bitvals(*final(cb)) == and_bits(a.bitvals(*old(cb)), b.bitvals(*old(cb))),
{
    and(cb, a, b)
}

/// Complement of a word; fixed-width twin of `not_vec`.
pub fn not_array(cb: &mut CircuitBuilder, a: &Word) -> (r: Word)
    requires
        old(cb).wf(),
        a.wf(*old(cb)),
    ensures
        final(cb).wf(),
        final(cb).extends(*old(cb)),
        r.wf(*final(cb)),
        r.bitvals(*final(cb)) == not_bits(a.bitvals(*old(cb))),
{
    not(cb, a)
}

} // verus!
