//! Pure mathematics of bit sequences: values, ripple carries, carry-save
//! decomposition, and the generate/propagate span operator that underlies
//! every prefix adder.
//!
//! Words are big-endian sequences of 32 booleans (index 0 is the most
//! significant bit).  The helper functions that recurse over carry chains work
//! on little-endian sequences; `rev` bridges the two orders.

use vstd::arithmetic::div_mod::{lemma_add_mod_noop, lemma_mod_multiples_vanish};
use vstd::arithmetic::power2::*;
use vstd::prelude::*;

verus! {

/// A bit as a number.
pub open spec fn bit_as_nat(b: bool) -> nat {
    if b {
        1
    } else {
        0
    }
}

/// The sequence read backwards.
pub open spec fn rev(s: Seq<bool>) -> Seq<bool> {
    Seq::new(s.len(), |i: int| s[s.len() - 1 - i])
}

/// Value of the `k` least significant bits of a little-endian sequence.
pub open spec fn le_val_k(s: Seq<bool>, k: int) -> nat
    decreases k,
{
    if k <= 0 {
        0
    } else {
        le_val_k(s, k - 1) + bit_as_nat(s[k - 1]) * pow2((k - 1) as nat)
    }
}

/// Value of a big-endian 32-bit word.
pub open spec fn word_val(s: Seq<bool>) -> nat {
    le_val_k(rev(s), 32)
}

/// Majority of three bits: the carry a full adder produces.
pub open spec fn maj3(a: bool, b: bool, c: bool) -> bool {
    (a && b) || (a && c) || (b && c)
}

/// Exclusive-or of three bits: the sum a full adder produces.
pub open spec fn xor3(a: bool, b: bool, c: bool) -> bool {
    (a != b) != c
}

/// Carry into little-endian position `k` when adding `a + b` with incoming
/// carry `cin` at position 0.
pub open spec fn carry_k(a: Seq<bool>, b: Seq<bool>, cin: bool, k: int) -> bool
    decreases k,
{
    if k <= 0 {
        cin
    } else {
        maj3(a[k - 1], b[k - 1], carry_k(a, b, cin, k - 1))
    }
}

/// The 32 sum bits of `a + b` (little-endian operands and result).
pub open spec fn add_le(a: Seq<bool>, b: Seq<bool>) -> Seq<bool> {
    Seq::new(32, |i: int| xor3(a[i], b[i], carry_k(a, b, false, i)))
}

/// Modular sum of two big-endian 32-bit words.
pub open spec fn add_words(x: Seq<bool>, y: Seq<bool>) -> Seq<bool> {
    rev(add_le(rev(x), rev(y)))
}

/// Carry-save sum word: the bitwise exclusive-or of three operands.
pub open spec fn csa_sum_words(a: Seq<bool>, b: Seq<bool>, c: Seq<bool>) -> Seq<bool> {
    Seq::new(32, |j: int| xor3(a[j], b[j], c[j]))
}

/// Carry-save carry word: the bitwise majority of three operands, shifted one
/// position towards the most significant end (big-endian index 31 is zero).
pub open spec fn csa_carry_words(a: Seq<bool>, b: Seq<bool>, c: Seq<bool>) -> Seq<bool> {
    Seq::new(
        32,
        |j: int|
            if j == 31 {
                false
            } else {
                maj3(a[j + 1], b[j + 1], c[j + 1])
            },
    )
}

/// Group generate over little-endian positions `lo..=hi`: whether the span
/// produces a carry out of position `hi` on its own.  Each step is the
/// generate/propagate combine operator `(g_hi, p_hi) . (g_lo, p_lo)`.
pub open spec fn span_gen(a: Seq<bool>, b: Seq<bool>, lo: int, hi: int) -> bool
    decreases hi - lo + 1,
{
    if hi < lo {
        false
    } else {
        (a[hi] && b[hi]) != ((a[hi] != b[hi]) && span_gen(a, b, lo, hi - 1))
    }
}

/// Group propagate over little-endian positions `lo..=hi`: whether a carry
/// entering position `lo` passes through the whole span.
pub open spec fn span_prop(a: Seq<bool>, b: Seq<bool>, lo: int, hi: int) -> bool
    decreases hi - lo + 1,
{
    if hi < lo {
        true
    } else {
        (a[hi] != b[hi]) && span_prop(a, b, lo, hi - 1)
    }
}

/// Lower end of the span a prefix node covers after rounds of doubling: a
/// node at position `i` reaches back `gap` positions, clamped at zero.
pub open spec fn span_lo(i: int, gap: int) -> int {
    if i - gap + 1 > 0 {
        i - gap + 1
    } else {
        0
    }
}

/// A one-position span is just that position's generate and propagate.
pub proof fn lemma_span_single(a: Seq<bool>, b: Seq<bool>, i: int)
    ensures
        span_gen(a, b, i, i) == (a[i] && b[i]),
        span_prop(a, b, i, i) == (a[i] != b[i]),
{
    assert(span_gen(a, b, i, i - 1) == false);
    assert(span_prop(a, b, i, i - 1) == true);
}

/// Reversing twice is the identity.
pub proof fn lemma_rev_rev(s: Seq<bool>)
    ensures
        rev(rev(s)) == s,
{
    assert(rev(rev(s)) =~= s);
}

/// The low `k` bits are worth less than `2^k`.
pub proof fn lemma_le_val_k_bound(s: Seq<bool>, k: int)
    requires
        0 <= k,
    ensures
        le_val_k(s, k) < pow2(k as nat),
    decreases k,
{
    if k == 0 {
        assert(pow2(0) == 1) by {
            lemma2_to64();
        }
    } else {
        lemma_le_val_k_bound(s, k - 1);
        lemma_pow2_unfold(k as nat);
    }
}

/// Partial-sum identity of the ripple carry chain: after `k` bit positions,
/// the sum bits plus the outgoing carry account exactly for the operands.
pub proof fn lemma_add_le_partial(a: Seq<bool>, b: Seq<bool>, k: int)
    requires
        0 <= k <= 32,
        a.len() == 32,
        b.len() == 32,
    ensures
        le_val_k(add_le(a, b), k) + bit_as_nat(carry_k(a, b, false, k)) * pow2(k as nat) == le_val_k(
            a,
            k,
        ) + le_val_k(b, k),
    decreases k,
{
    if k == 0 {
    } else {
        lemma_add_le_partial(a, b, k - 1);
        lemma_pow2_unfold(k as nat);
        let p = pow2((k - 1) as nat);
        let ab = bit_as_nat(a[k - 1]);
        let bb = bit_as_nat(b[k - 1]);
        let cb = bit_as_nat(carry_k(a, b, false, k - 1));
        let sb = bit_as_nat(add_le(a, b)[k - 1]);
        let nb = bit_as_nat(carry_k(a, b, false, k));
        assert(add_le(a, b)[k - 1] == xor3(a[k - 1], b[k - 1], carry_k(a, b, false, k - 1)));
        assert(sb + 2 * nb == ab + bb + cb);
        assert(sb * p + nb * (2 * p) == ab * p + bb * p + cb * p) by (nonlinear_arith)
            requires
                sb + 2 * nb == ab + bb + cb,
        ;
        assert(le_val_k(add_le(a, b), k) == le_val_k(add_le(a, b), k - 1) + sb * p);
        assert(le_val_k(a, k) == le_val_k(a, k - 1) + ab * p);
        assert(le_val_k(b, k) == le_val_k(b, k - 1) + bb * p);
        assert(pow2(k as nat) == 2 * p);
        assert(nb * pow2(k as nat) == nb * (2 * p)) by (nonlinear_arith)
            requires
                pow2(k as nat) == 2 * p,
        ;
    }
}

/// The ripple sum of two 32-bit values is their sum modulo `2^32`.
pub proof fn lemma_add_le_value(a: Seq<bool>, b: Seq<bool>)
    requires
        a.len() == 32,
        b.len() == 32,
    ensures
        le_val_k(add_le(a, b), 32) as int == ((le_val_k(a, 32) + le_val_k(b, 32)) as int) % (pow2(
            32,
        ) as int),
{
    lemma_add_le_partial(a, b, 32);
    lemma_le_val_k_bound(add_le(a, b), 32);
    lemma_pow2_pos(32);
    let m = pow2(32) as int;
    let s = le_val_k(add_le(a, b), 32) as int;
    let total = (le_val_k(a, 32) + le_val_k(b, 32)) as int;
    if carry_k(a, b, false, 32) {
        assert(total == s + m);
        lemma_mod_multiples_vanish(1, s, m);
        vstd::arithmetic::div_mod::lemma_small_mod(s as nat, pow2(32));
    } else {
        assert(total == s);
        vstd::arithmetic::div_mod::lemma_small_mod(s as nat, pow2(32));
    }
}

/// Two little-endian strings with the same low-`k` value agree on those bits.
pub proof fn lemma_le_val_k_inj(s: Seq<bool>, t: Seq<bool>, k: int)
    requires
        0 <= k,
        le_val_k(s, k) == le_val_k(t, k),
    ensures
        forall|j: int| 0 <= j < k ==> s[j] == t[j],
    decreases k,
{
    if k > 0 {
        lemma_le_val_k_bound(s, k - 1);
        lemma_le_val_k_bound(t, k - 1);
        let p = pow2((k - 1) as nat);
        assert(le_val_k(s, k) == le_val_k(s, k - 1) + bit_as_nat(s[k - 1]) * p);
        assert(le_val_k(t, k) == le_val_k(t, k - 1) + bit_as_nat(t[k - 1]) * p);
        assert(bit_as_nat(s[k - 1]) * p == if s[k - 1] {
            p
        } else {
            0
        });
        assert(bit_as_nat(t[k - 1]) * p == if t[k - 1] {
            p
        } else {
            0
        });
        assert(s[k - 1] == t[k - 1]);
        lemma_le_val_k_inj(s, t, k - 1);
    }
}

/// Two 32-bit words with equal values are equal bit for bit.
pub proof fn lemma_word_val_inj(x: Seq<bool>, y: Seq<bool>)
    requires
        x.len() == 32,
        y.len() == 32,
        word_val(x) == word_val(y),
    ensures
        x == y,
{
    lemma_le_val_k_inj(rev(x), rev(y), 32);
    assert forall|i: int| 0 <= i < 32 implies x[i] == y[i] by {
        assert(rev(x)[31 - i] == rev(y)[31 - i]);
    }
    assert(x =~= y);
}

/// The modular-addition law of `add_words`: the word holds `(x + y) mod 2^32`.
pub proof fn lemma_add_words_value(x: Seq<bool>, y: Seq<bool>)
    requires
        x.len() == 32,
        y.len() == 32,
    ensures
        add_words(x, y).len() == 32,
        word_val(add_words(x, y)) as int == ((word_val(x) + word_val(y)) as int) % (pow2(
            32,
        ) as int),
{
    lemma_add_le_value(rev(x), rev(y));
    lemma_rev_rev(add_le(rev(x), rev(y)));
}

/// Partial-sum identity of the carry-save decomposition.
proof fn lemma_csa_partial(a: Seq<bool>, b: Seq<bool>, c: Seq<bool>, k: int)
    requires
        0 <= k <= 32,
        a.len() == 32,
        b.len() == 32,
        c.len() == 32,
    ensures
        le_val_k(rev(csa_sum_words(a, b, c)), k) + le_val_k(rev(csa_carry_words(a, b, c)), k) + (
        if k >= 1 {
            bit_as_nat(maj3(rev(a)[k - 1], rev(b)[k - 1], rev(c)[k - 1])) * pow2(k as nat)
        } else {
            0
        }) == le_val_k(rev(a), k) + le_val_k(rev(b), k) + le_val_k(rev(c), k),
    decreases k,
{
    if k == 0 {
    } else {
        lemma_csa_partial(a, b, c, k - 1);
        lemma_pow2_unfold(k as nat);
        let p = pow2((k - 1) as nat);
        let ab = bit_as_nat(rev(a)[k - 1]);
        let bb = bit_as_nat(rev(b)[k - 1]);
        let cb = bit_as_nat(rev(c)[k - 1]);
        let sb = bit_as_nat(rev(csa_sum_words(a, b, c))[k - 1]);
        let wb = bit_as_nat(rev(csa_carry_words(a, b, c))[k - 1]);
        let mb = bit_as_nat(maj3(rev(a)[k - 1], rev(b)[k - 1], rev(c)[k - 1]));
        assert(rev(csa_sum_words(a, b, c))[k - 1] == xor3(a[32 - k], b[32 - k], c[32 - k]));
        assert(rev(a)[k - 1] == a[32 - k]);
        assert(sb + 2 * mb == ab + bb + cb);
        if k == 1 {
            assert(rev(csa_carry_words(a, b, c))[0] == csa_carry_words(a, b, c)[31]);
            assert(wb == 0);
        } else {
            assert(rev(csa_carry_words(a, b, c))[k - 1] == csa_carry_words(a, b, c)[32 - k]);
            assert(rev(csa_carry_words(a, b, c))[k - 1] == maj3(
                rev(a)[k - 2],
                rev(b)[k - 2],
                rev(c)[k - 2],
            ));
        }
        let mprev = if k >= 2 {
            bit_as_nat(maj3(rev(a)[k - 2], rev(b)[k - 2], rev(c)[k - 2]))
        } else {
            0
        };
        assert(wb == mprev);
        assert(sb * p + wb * p + mb * (2 * p) == ab * p + bb * p + cb * p + mprev * p)
            by (nonlinear_arith)
            requires
                sb + 2 * mb == ab + bb + cb,
                wb == mprev,
        ;
    }
}

/// The carry-save law: sum word plus carry word equals the three operands
/// modulo `2^32`.
pub proof fn lemma_csa_value(a: Seq<bool>, b: Seq<bool>, c: Seq<bool>)
    requires
        a.len() == 32,
        b.len() == 32,
        c.len() == 32,
    ensures
        ((word_val(csa_sum_words(a, b, c)) + word_val(csa_carry_words(a, b, c))) as int) % (pow2(
            32,
        ) as int) == ((word_val(a) + word_val(b) + word_val(c)) as int) % (pow2(32) as int),
{
    lemma_csa_partial(a, b, c, 32);
    lemma_pow2_pos(32);
    let m = pow2(32) as int;
    let lhs = (word_val(csa_sum_words(a, b, c)) + word_val(csa_carry_words(a, b, c))) as int;
    let rhs = (word_val(a) + word_val(b) + word_val(c)) as int;
    let mb = bit_as_nat(maj3(rev(a)[31], rev(b)[31], rev(c)[31]));
    assert(lhs + mb * m == rhs);
    lemma_mod_multiples_vanish(mb as int, lhs, m);
}

/// A 32-bit word's value is below `2^32`.
pub proof fn lemma_word_val_bound(s: Seq<bool>)
    ensures
        word_val(s) < pow2(32),
{
    lemma_le_val_k_bound(rev(s), 32);
}

/// Sums of congruent summands are congruent.
pub proof fn lemma_mod_add_congruent(a: int, b: int, c: int, d: int, m: int)
    requires
        m > 0,
        a % m == c % m,
        b % m == d % m,
    ensures
        (a + b) % m == (c + d) % m,
{
    lemma_add_mod_noop(a, b, m);
    lemma_add_mod_noop(c, d, m);
}

/// Decomposing a span at `m`: the combine operator is associative, so a span's
/// generate and propagate can be computed from any two adjacent sub-spans.
pub proof fn lemma_span_split(a: Seq<bool>, b: Seq<bool>, lo: int, m: int, hi: int)
    requires
        lo - 1 <= m <= hi,
    ensures
        span_gen(a, b, lo, hi) == (span_gen(a, b, m + 1, hi) != (span_prop(a, b, m + 1, hi)
            && span_gen(a, b, lo, m))),
        span_prop(a, b, lo, hi) == (span_prop(a, b, m + 1, hi) && span_prop(a, b, lo, m)),
    decreases hi - m,
{
    if hi == m {
    } else {
        lemma_span_split(a, b, lo, m, hi - 1);
    }
}

/// With no incoming carry, the ripple carry into position `k` is exactly the
/// group generate of the span below it.
pub proof fn lemma_carry_is_span(a: Seq<bool>, b: Seq<bool>, k: int)
    requires
        1 <= k,
    ensures
        carry_k(a, b, false, k) == span_gen(a, b, 0, k - 1),
    decreases k,
{
    if k == 1 {
        assert(span_gen(a, b, 0, -1) == false);
        assert(carry_k(a, b, false, 0) == false);
    } else {
        lemma_carry_is_span(a, b, k - 1);
    }
}

/// Carries depend only on the bits below the position in question.
pub proof fn lemma_carry_congruent(
    a: Seq<bool>,
    b: Seq<bool>,
    a2: Seq<bool>,
    b2: Seq<bool>,
    cin: bool,
    k: int,
)
    requires
        forall|i: int| 0 <= i < k ==> a[i] == a2[i] && b[i] == b2[i],
    ensures
        carry_k(a, b, cin, k) == carry_k(a2, b2, cin, k),
    decreases k,
{
    if k > 0 {
        lemma_carry_congruent(a, b, a2, b2, cin, k - 1);
    }
}

/// Restarting the carry chain at position `base` with the carry reached there
/// continues the original chain.
pub proof fn lemma_carry_block(a: Seq<bool>, b: Seq<bool>, base: int, j: int)
    requires
        0 <= base,
        0 <= j,
        base + j <= a.len(),
        a.len() == b.len(),
    ensures
        carry_k(a.skip(base), b.skip(base), carry_k(a, b, false, base), j) == carry_k(
            a,
            b,
            false,
            base + j,
        ),
    decreases j,
{
    if j > 0 {
        lemma_carry_block(a, b, base, j - 1);
    }
}

} // verus!
