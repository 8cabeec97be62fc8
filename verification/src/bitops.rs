//! Arithmetic model of machine words: powers of two, popcount, bitwise AND
//! and bit sequences, all defined over the natural numbers so that every
//! fact about them is proved by ordinary induction.

use vstd::prelude::*;

verus! {

/// 2^e over the naturals.
pub open spec fn exp2(e: nat) -> nat
    decreases e,
{
    if e == 0 {
        1
    } else {
        2 * exp2((e - 1) as nat)
    }
}

/// Number of set bits in the binary representation of m.
pub open spec fn pop(m: nat) -> nat
    decreases m,
{
    if m == 0 {
        0
    } else {
        m % 2 + pop(m / 2)
    }
}

/// Bitwise AND, defined arithmetically.
pub open spec fn and_nat(a: nat, b: nat) -> nat
    decreases a,
{
    if a == 0 || b == 0 {
        0
    } else {
        (a % 2) * (b % 2) + 2 * and_nat(a / 2, b / 2)
    }
}

/// a's set bits are a subset of b's set bits.
pub open spec fn submask(a: nat, b: nat) -> bool {
    and_nat(a, b) == a
}

/// Position of the lowest clear bit of m.
pub open spec fn low_clear(m: nat) -> nat
    decreases m,
{
    if m % 2 == 0 {
        0
    } else {
        1 + low_clear(m / 2)
    }
}

/// m with its lowest clear bit set.
pub open spec fn with_low_set(m: nat) -> nat {
    m + exp2(low_clear(m))
}

/// The low w bits of m as a sequence, most significant bit first.
pub open spec fn word_bits(m: nat, w: nat) -> Seq<bool>
    decreases w,
{
    if w == 0 {
        Seq::empty()
    } else {
        word_bits(m / 2, (w - 1) as nat).push(m % 2 == 1)
    }
}

/// The value of a bit sequence read most significant bit first.
pub open spec fn val_of(s: Seq<bool>) -> nat
    decreases s.len(),
{
    if s.len() == 0 {
        0
    } else {
        2 * val_of(s.drop_last()) + (if s.last() {
            1nat
        } else {
            0nat
        })
    }
}

/// Number of set bits in a bit sequence.
pub open spec fn seq_pop(s: Seq<bool>) -> nat
    decreases s.len(),
{
    if s.len() == 0 {
        0
    } else {
        seq_pop(s.drop_last()) + (if s.last() {
            1nat
        } else {
            0nat
        })
    }
}

pub proof fn lemma_exp2_le(e1: nat, e2: nat)
    requires
        e1 <= e2,
    ensures
        exp2(e1) <= exp2(e2),
        exp2(e1) >= 1,
    decreases e2,
{
    if e1 < e2 {
        lemma_exp2_le(e1, (e2 - 1) as nat);
    } else if e1 > 0 {
        lemma_exp2_le((e1 - 1) as nat, (e2 - 1) as nat);
    }
}

pub proof fn lemma_exp2_adds(a: nat, b: nat)
    ensures
        exp2(a + b) == exp2(a) * exp2(b),
    decreases a,
{
    if a > 0 {
        lemma_exp2_adds((a - 1) as nat, b);
        let x = exp2((a - 1) as nat);
        let y = exp2(b);
        assert(exp2(a + b) == 2 * exp2((a + b - 1) as nat));
        assert((a + b - 1) as nat == (a - 1) as nat + b);
        assert(exp2(a + b) == 2 * (x * y));
        assert(exp2(a) == 2 * x);
        assert(2 * (x * y) == (2 * x) * y) by (nonlinear_arith);
        assert(exp2(a) * exp2(b) == (2 * x) * y);
    } else {
        assert(exp2(a + b) == exp2(b));
        assert(exp2(a) == 1);
        assert(1 * exp2(b) == exp2(b)) by (nonlinear_arith);
    }
}

/// The word sizes this crate cares about, as literals.
pub proof fn lemma_exp2_values()
    ensures
        exp2(32) == 0x1_0000_0000,
        exp2(64) == 0x1_0000_0000_0000_0000,
        exp2(128) == 0x1_0000_0000_0000_0000_0000_0000_0000_0000,
{
    assert(exp2(0) == 1);
    assert(exp2(1) == 2);
    assert(exp2(2) == 4);
    assert(exp2(3) == 8);
    assert(exp2(4) == 16);
    assert(exp2(5) == 32);
    assert(exp2(6) == 64);
    assert(exp2(7) == 128);
    assert(exp2(8) == 256);
    lemma_exp2_adds(8, 8);
    assert(exp2(16) == 0x1_0000) by (nonlinear_arith)
        requires
            exp2(16) == exp2(8) * exp2(8),
            exp2(8) == 256,
    ;
    lemma_exp2_adds(16, 16);
    assert(exp2(32) == 0x1_0000_0000) by (nonlinear_arith)
        requires
            exp2(32) == exp2(16) * exp2(16),
            exp2(16) == 0x1_0000,
    ;
    lemma_exp2_adds(32, 32);
    assert(exp2(64) == 0x1_0000_0000_0000_0000) by (nonlinear_arith)
        requires
            exp2(64) == exp2(32) * exp2(32),
            exp2(32) == 0x1_0000_0000,
    ;
    lemma_exp2_adds(64, 64);
    assert(exp2(128) == 0x1_0000_0000_0000_0000_0000_0000_0000_0000) by (nonlinear_arith)
        requires
            exp2(128) == exp2(64) * exp2(64),
            exp2(64) == 0x1_0000_0000_0000_0000,
    ;
}

pub proof fn lemma_pop_le(m: nat, w: nat)
    requires
        m < exp2(w),
    ensures
        pop(m) <= w,
    decreases w,
{
    if m > 0 {
        lemma_pop_le(m / 2, (w - 1) as nat);
    }
}

pub proof fn lemma_pop_zero(m: nat)
    ensures
        pop(m) == 0 <==> m == 0,
    decreases m,
{
    if m > 0 {
        lemma_pop_zero(m / 2);
    }
}

/// For c in {0, 1}: (c + 2x) % 2 == c and (c + 2x) / 2 == x.
proof fn lemma_parity_halves(c: nat, x: nat)
    requires
        c < 2,
    ensures
        (c + 2 * x) % 2 == c,
        (c + 2 * x) / 2 == x,
{
}

/// The product of two bits, by case analysis.
proof fn lemma_bit_mul(x: nat, y: nat)
    requires
        x < 2,
        y < 2,
    ensures
        x * y == (if x == 1 && y == 1 {
            1nat
        } else {
            0nat
        }),
{
    if x == 0 {
        assert(x * y == 0);
    } else {
        assert(x * y == y);
    }
}

/// Unfolding of and_nat into its low bit and its upper half.
proof fn lemma_and_unfold(a: nat, b: nat)
    requires
        a != 0,
        b != 0,
    ensures
        and_nat(a, b) % 2 == (if a % 2 == 1 && b % 2 == 1 {
            1nat
        } else {
            0nat
        }),
        and_nat(a, b) / 2 == and_nat(a / 2, b / 2),
{
    lemma_bit_mul(a % 2, b % 2);
    lemma_parity_halves((a % 2) * (b % 2), and_nat(a / 2, b / 2));
}

pub proof fn lemma_and_le(a: nat, b: nat)
    ensures
        and_nat(a, b) <= a,
        and_nat(a, b) <= b,
    decreases a,
{
    if a != 0 && b != 0 {
        lemma_and_le(a / 2, b / 2);
        lemma_and_unfold(a, b);
        let c = and_nat(a, b);
        assert(c == 2 * (c / 2) + c % 2);
        assert(a == 2 * (a / 2) + a % 2);
        assert(b == 2 * (b / 2) + b % 2);
    }
}

pub proof fn lemma_pop_and_le(a: nat, b: nat)
    ensures
        pop(and_nat(a, b)) <= pop(a),
        pop(and_nat(a, b)) <= pop(b),
    decreases a,
{
    if a != 0 && b != 0 {
        lemma_pop_and_le(a / 2, b / 2);
        lemma_and_unfold(a, b);
        let c = and_nat(a, b);
        assert(pop(c) == c % 2 + pop(c / 2));
    }
}

pub proof fn lemma_submask_refl(a: nat)
    ensures
        submask(a, a),
    decreases a,
{
    if a != 0 {
        lemma_submask_refl(a / 2);
        lemma_and_unfold(a, a);
        let c = and_nat(a, a);
        assert(c == 2 * (c / 2) + c % 2);
        assert(a == 2 * (a / 2) + a % 2);
    }
}

pub proof fn lemma_and_submask(a: nat, b: nat)
    ensures
        submask(and_nat(a, b), a),
        submask(and_nat(a, b), b),
    decreases a,
{
    if a == 0 || b == 0 {
    } else {
        lemma_and_submask(a / 2, b / 2);
        lemma_and_unfold(a, b);
        let c = and_nat(a, b);
        if c == 0 {
        } else {
            lemma_and_unfold(c, a);
            lemma_and_unfold(c, b);
            assert(c % 2 == 1 ==> a % 2 == 1 && b % 2 == 1);
            assert(and_nat(c, a) % 2 == c % 2);
            assert(and_nat(c, a) / 2 == and_nat(c / 2, a / 2));
            assert(and_nat(c / 2, a / 2) == c / 2);
            assert(and_nat(c, a) == 2 * (and_nat(c, a) / 2) + and_nat(c, a) % 2);
            assert(and_nat(c, b) % 2 == c % 2);
            assert(and_nat(c, b) / 2 == and_nat(c / 2, b / 2));
            assert(and_nat(c / 2, b / 2) == c / 2);
            assert(and_nat(c, b) == 2 * (and_nat(c, b) / 2) + and_nat(c, b) % 2);
            assert(c == 2 * (c / 2) + c % 2);
        }
    }
}

pub proof fn lemma_submask_pop_le(a: nat, b: nat)
    requires
        submask(a, b),
    ensures
        pop(a) <= pop(b),
{
    lemma_pop_and_le(a, b);
}

pub proof fn lemma_submask_pop_eq(a: nat, b: nat)
    requires
        submask(a, b),
        pop(a) == pop(b),
    ensures
        a == b,
    decreases a,
{
    if a == 0 {
        lemma_pop_zero(a);
        lemma_pop_zero(b);
    } else if b == 0 {
        assert(and_nat(a, b) == 0);
    } else {
        lemma_and_unfold(a, b);
        assert(a % 2 == and_nat(a, b) % 2 && a / 2 == and_nat(a, b) / 2) by {
            lemma_parity_halves(a % 2, a / 2);
            assert(a == 2 * (a / 2) + a % 2);
            assert(and_nat(a, b) == 2 * (and_nat(a, b) / 2) + and_nat(a, b) % 2);
        }
        assert(pop(a) == a % 2 + pop(a / 2));
        assert(pop(b) == b % 2 + pop(b / 2));
        lemma_pop_and_le(a / 2, b / 2);
        if a % 2 == 1 {
            assert(b % 2 == 1);
            lemma_submask_pop_eq(a / 2, b / 2);
        } else {
            assert(pop(a / 2) <= pop(b / 2));
            assert(b % 2 == 0);
            lemma_submask_pop_eq(a / 2, b / 2);
        }
        assert(a == 2 * (a / 2) + a % 2);
        assert(b == 2 * (b / 2) + b % 2);
    }
}

pub proof fn lemma_submask_and(m: nat, a: nat, b: nat)
    requires
        submask(m, a),
        submask(m, b),
    ensures
        submask(m, and_nat(a, b)),
    decreases m,
{
    if m == 0 {
    } else {
        assert(a != 0 && b != 0) by {
            if a == 0 || b == 0 {
                assert(and_nat(m, a) == 0 || and_nat(m, b) == 0);
            }
        }
        lemma_and_unfold(m, a);
        lemma_and_unfold(m, b);
        assert(m % 2 == and_nat(m, a) % 2 && m / 2 == and_nat(m, a) / 2) by {
            assert(m == 2 * (m / 2) + m % 2);
            assert(and_nat(m, a) == 2 * (and_nat(m, a) / 2) + and_nat(m, a) % 2);
        }
        assert(m % 2 == and_nat(m, b) % 2 && m / 2 == and_nat(m, b) / 2) by {
            assert(m == 2 * (m / 2) + m % 2);
            assert(and_nat(m, b) == 2 * (and_nat(m, b) / 2) + and_nat(m, b) % 2);
        }
        assert(m % 2 == 1 ==> a % 2 == 1 && b % 2 == 1);
        assert(submask(m / 2, a / 2) && submask(m / 2, b / 2));
        lemma_submask_and(m / 2, a / 2, b / 2);
        lemma_and_unfold(a, b);
        let c = and_nat(a, b);
        if c == 0 {
            assert(c / 2 == 0 && c % 2 == 0);
            assert(and_nat(m / 2, 0) == 0);
            assert(m / 2 == 0);
            assert(m % 2 == 0);
            assert(m == 2 * (m / 2) + m % 2);
        } else {
            lemma_and_unfold(m, c);
            assert(c % 2 == 1 <==> a % 2 == 1 && b % 2 == 1);
            assert(and_nat(m, c) % 2 == m % 2);
            assert(and_nat(m, c) / 2 == and_nat(m / 2, c / 2));
            assert(and_nat(m / 2, c / 2) == m / 2);
            assert(and_nat(m, c) == 2 * (and_nat(m, c) / 2) + and_nat(m, c) % 2);
            assert(m == 2 * (m / 2) + m % 2);
        }
    }
}

/// The all-ones word of width w has w set bits.
pub proof fn lemma_pop_ones(w: nat)
    ensures
        pop((exp2(w) - 1) as nat) == w,
    decreases w,
{
    if w > 0 {
        let half = exp2((w - 1) as nat);
        assert(exp2(w) == 2 * half);
        lemma_exp2_le(0, (w - 1) as nat);
        let ones = (exp2(w) - 1) as nat;
        assert(ones == 2 * ((half - 1) as nat) + 1);
        lemma_parity_halves(1, (half - 1) as nat);
        lemma_pop_ones((w - 1) as nat);
    }
}

pub proof fn lemma_and_comm(a: nat, b: nat)
    ensures
        and_nat(a, b) == and_nat(b, a),
    decreases a + b,
{
    if a != 0 && b != 0 {
        lemma_and_comm(a / 2, b / 2);
        lemma_bit_mul(a % 2, b % 2);
        lemma_bit_mul(b % 2, a % 2);
    }
}

pub proof fn lemma_submask_trans(a: nat, b: nat, c: nat)
    requires
        submask(a, b),
        submask(b, c),
    ensures
        submask(a, c),
    decreases a,
{
    if a == 0 {
    } else {
        assert(b != 0) by {
            if b == 0 {
                assert(and_nat(a, 0) == 0);
            }
        }
        assert(c != 0) by {
            if c == 0 {
                assert(and_nat(b, 0) == 0);
            }
        }
        lemma_and_unfold(a, b);
        lemma_and_unfold(b, c);
        assert(a % 2 == and_nat(a, b) % 2 && a / 2 == and_nat(a, b) / 2) by {
            assert(a == 2 * (a / 2) + a % 2);
            assert(and_nat(a, b) == 2 * (and_nat(a, b) / 2) + and_nat(a, b) % 2);
        }
        assert(b % 2 == and_nat(b, c) % 2 && b / 2 == and_nat(b, c) / 2) by {
            assert(b == 2 * (b / 2) + b % 2);
            assert(and_nat(b, c) == 2 * (and_nat(b, c) / 2) + and_nat(b, c) % 2);
        }
        lemma_submask_trans(a / 2, b / 2, c / 2);
        lemma_and_unfold(a, c);
        assert(and_nat(a, c) % 2 == a % 2);
        assert(and_nat(a, c) / 2 == and_nat(a / 2, c / 2));
        assert(and_nat(a, c) == 2 * (and_nat(a, c) / 2) + and_nat(a, c) % 2);
        assert(a == 2 * (a / 2) + a % 2);
    }
}

/// Everything below 2^w is a submask of the all-ones word of width w.
pub proof fn lemma_submask_ones(m: nat, w: nat)
    requires
        m < exp2(w),
    ensures
        submask(m, (exp2(w) - 1) as nat),
    decreases w,
{
    if m != 0 {
        assert(w > 0);
        let ones = (exp2(w) - 1) as nat;
        let half = exp2((w - 1) as nat);
        assert(exp2(w) == 2 * half);
        lemma_exp2_le(0, (w - 1) as nat);
        let half_ones = (half - 1) as nat;
        assert(ones == 2 * half_ones + 1);
        lemma_parity_halves(1, half_ones);
        assert(m / 2 < half);
        lemma_submask_ones(m / 2, (w - 1) as nat);
        lemma_and_unfold(m, ones);
        assert(and_nat(m, ones) % 2 == m % 2);
        assert(and_nat(m, ones) / 2 == and_nat(m / 2, half_ones));
        assert(and_nat(m / 2, half_ones) == m / 2);
        assert(and_nat(m, ones) == 2 * (and_nat(m, ones) / 2) + and_nat(m, ones) % 2);
        assert(m == 2 * (m / 2) + m % 2);
    }
}

/// Setting the lowest clear bit: the popcount goes up by one, no set bit is
/// lost, and the word still fits in w bits when fewer than w bits were set.
pub proof fn lemma_with_low_set(m: nat, w: nat)
    requires
        pop(m) < w,
        m < exp2(w),
    ensures
        pop(with_low_set(m)) == pop(m) + 1,
        submask(m, with_low_set(m)),
        with_low_set(m) < exp2(w),
    decreases m,
{
    assert(w >= 1);
    let half = exp2((w - 1) as nat);
    assert(exp2(w) == 2 * half);
    lemma_exp2_le(0, (w - 1) as nat);
    if m % 2 == 0 {
        let n = m + 1;
        assert(low_clear(m) == 0 && exp2(0) == 1);
        assert(with_low_set(m) == n);
        assert(m == 2 * (m / 2));
        lemma_parity_halves(1, m / 2);
        assert(n % 2 == 1 && n / 2 == m / 2);
        assert(pop(n) == 1 + pop(m / 2));
        assert(pop(m) == pop(m / 2));
        if m == 0 {
        } else {
            lemma_submask_refl(m / 2);
            lemma_and_unfold(m, n);
            assert(and_nat(m, n) % 2 == 0);
            assert(and_nat(m, n) / 2 == and_nat(m / 2, n / 2));
            assert(and_nat(m, n) == 2 * (and_nat(m, n) / 2) + and_nat(m, n) % 2);
        }
        assert(m / 2 < half);
        assert(n < exp2(w));
    } else {
        let h = m / 2;
        lemma_parity_halves(1, h);
        assert(m == 2 * h + 1);
        assert(pop(m) == 1 + pop(h));
        assert(h < half);
        lemma_with_low_set(h, (w - 1) as nat);
        let n = with_low_set(m);
        assert(low_clear(m) == 1 + low_clear(h));
        assert(exp2(low_clear(m)) == 2 * exp2(low_clear(h)));
        assert(n == 2 * with_low_set(h) + 1);
        lemma_parity_halves(1, with_low_set(h));
        assert(n % 2 == 1 && n / 2 == with_low_set(h));
        assert(pop(n) == 1 + pop(with_low_set(h)));
        lemma_pop_zero(with_low_set(h));
        assert(n != 0);
        lemma_and_unfold(m, n);
        assert(and_nat(m, n) % 2 == 1);
        assert(and_nat(m, n) / 2 == and_nat(h, with_low_set(h)));
        assert(and_nat(m, n) == 2 * (and_nat(m, n) / 2) + and_nat(m, n) % 2);
        assert(n < exp2(w));
    }
}

pub proof fn lemma_low_clear_le_pop(m: nat)
    ensures
        low_clear(m) <= pop(m),
    decreases m,
{
    if m % 2 == 1 {
        lemma_low_clear_le_pop(m / 2);
    }
}

pub proof fn lemma_word_bits_len(m: nat, w: nat)
    ensures
        word_bits(m, w).len() == w,
    decreases w,
{
    if w > 0 {
        lemma_word_bits_len(m / 2, (w - 1) as nat);
    }
}

pub proof fn lemma_val_of_bound(s: Seq<bool>)
    ensures
        val_of(s) < exp2(s.len()),
    decreases s.len(),
{
    if s.len() > 0 {
        lemma_val_of_bound(s.drop_last());
    }
}

pub proof fn lemma_word_bits_val_of(s: Seq<bool>)
    ensures
        word_bits(val_of(s), s.len()) == s,
    decreases s.len(),
{
    if s.len() > 0 {
        let v = val_of(s);
        let tail = if s.last() {
            1nat
        } else {
            0nat
        };
        lemma_parity_halves(tail, val_of(s.drop_last()));
        assert(v % 2 == tail && v / 2 == val_of(s.drop_last()));
        lemma_word_bits_val_of(s.drop_last());
        assert(word_bits(v, s.len()) == word_bits(v / 2, (s.len() - 1) as nat).push(v % 2 == 1));
        assert(word_bits(v, s.len()) =~= s);
    } else {
        assert(word_bits(0, 0) =~= s);
    }
}

pub proof fn lemma_val_of_word_bits(m: nat, w: nat)
    requires
        m < exp2(w),
    ensures
        val_of(word_bits(m, w)) == m,
    decreases w,
{
    if w == 0 {
        assert(m == 0);
    } else {
        assert(exp2(w) == 2 * exp2((w - 1) as nat));
        assert(m / 2 < exp2((w - 1) as nat));
        lemma_val_of_word_bits(m / 2, (w - 1) as nat);
        let s = word_bits(m, w);
        lemma_word_bits_len(m / 2, (w - 1) as nat);
        assert(s.last() == (m % 2 == 1) && s.drop_last() == word_bits(m / 2, (w - 1) as nat));
        assert(val_of(s) == 2 * (m / 2) + m % 2);
        assert(m == 2 * (m / 2) + m % 2);
    }
}

/// A pointwise-smaller bit sequence has a submask value.
pub proof fn lemma_val_of_submask(t: Seq<bool>, s: Seq<bool>)
    requires
        t.len() == s.len(),
        forall|j: int| 0 <= j < t.len() && t[j] ==> s[j],
    ensures
        submask(val_of(t), val_of(s)),
    decreases t.len(),
{
    if t.len() == 0 {
    } else {
        assert(forall|j: int|
            0 <= j < t.len() - 1 && t.drop_last()[j] ==> s.drop_last()[j]) by {
            assert(forall|j: int| 0 <= j < t.len() - 1 ==> t.drop_last()[j] == t[j]);
            assert(forall|j: int| 0 <= j < s.len() - 1 ==> s.drop_last()[j] == s[j]);
        }
        lemma_val_of_submask(t.drop_last(), s.drop_last());
        let vt = val_of(t);
        let vs = val_of(s);
        let bt = if t.last() {
            1nat
        } else {
            0nat
        };
        let bs = if s.last() {
            1nat
        } else {
            0nat
        };
        assert(t.last() ==> s.last()) by {
            assert(t[t.len() - 1] ==> s[t.len() - 1]);
        }
        lemma_parity_halves(bt, val_of(t.drop_last()));
        lemma_parity_halves(bs, val_of(s.drop_last()));
        if vt == 0 {
        } else if vs == 0 {
            assert(bs == 0 && val_of(s.drop_last()) == 0);
            assert(bt == 0);
            lemma_and_le(val_of(t.drop_last()), val_of(s.drop_last()));
            assert(val_of(t.drop_last()) == 0);
            assert(vt == 0);
        } else {
            lemma_and_unfold(vt, vs);
            assert(vt % 2 == bt && vt / 2 == val_of(t.drop_last()));
            assert(vs % 2 == bs && vs / 2 == val_of(s.drop_last()));
            assert(and_nat(vt, vs) % 2 == bt);
            assert(and_nat(vt, vs) / 2 == and_nat(val_of(t.drop_last()), val_of(s.drop_last())));
            assert(and_nat(vt, vs) == 2 * (and_nat(vt, vs) / 2) + and_nat(vt, vs) % 2);
        }
    }
}

pub proof fn lemma_val_of_zero(s: Seq<bool>)
    requires
        forall|j: int| 0 <= j < s.len() ==> !s[j],
    ensures
        val_of(s) == 0,
    decreases s.len(),
{
    if s.len() > 0 {
        assert(forall|j: int| 0 <= j < s.len() - 1 ==> s.drop_last()[j] == s[j]);
        lemma_val_of_zero(s.drop_last());
        assert(!s.last());
    }
}

/// Popcount over bit sequences is monotone under pointwise growth.
pub proof fn lemma_seq_pop_le(t: Seq<bool>, s: Seq<bool>)
    requires
        t.len() == s.len(),
        forall|j: int| 0 <= j < t.len() && t[j] ==> s[j],
    ensures
        seq_pop(t) <= seq_pop(s),
    decreases t.len(),
{
    if t.len() > 0 {
        assert(t.last() ==> s.last()) by {
            assert(t[t.len() - 1] ==> s[t.len() - 1]);
        }
        assert(forall|j: int|
            0 <= j < t.len() - 1 && t.drop_last()[j] ==> s.drop_last()[j]) by {
            assert(forall|j: int| 0 <= j < t.len() - 1 ==> t.drop_last()[j] == t[j]);
            assert(forall|j: int| 0 <= j < s.len() - 1 ==> s.drop_last()[j] == s[j]);
        }
        lemma_seq_pop_le(t.drop_last(), s.drop_last());
    }
}

/// Popcount of a machine word, proved equal to the arithmetic model.
pub fn popcount(m: u128) -> (r: u32)
    ensures
        r as nat == pop(m as nat),
    decreases m,
{
    if m == 0 {
        0
    } else {
        proof {
            lemma_exp2_values();
            lemma_pop_le(m as nat, 128);
        }
        (m % 2) as u32 + popcount(m / 2)
    }
}

/// Bitwise AND of two words, proved equal to the arithmetic model.
pub fn word_and(a: u128, b: u128) -> (r: u128)
    ensures
        r as nat == and_nat(a as nat, b as nat),
    decreases a,
{
    if a == 0 || b == 0 {
        0
    } else {
        let rest = word_and(a / 2, b / 2);
        proof {
            lemma_and_le(a as nat, b as nat);
            lemma_and_unfold(a as nat, b as nat);
            let c = and_nat(a as nat, b as nat);
            assert(c == 2 * (c / 2) + c % 2);
        }
        let low: u128 = if a % 2 == 1 && b % 2 == 1 {
            1
        } else {
            0
        };
        low + 2 * rest
    }
}

/// 2^e as a machine word, for exponents below 128.
pub fn exp2_u128(e: usize) -> (r: u128)
    requires
        e < 128,
    ensures
        r as nat == exp2(e as nat),
{
    let mut r: u128 = 1;
    let mut i: usize = 0;
    while i < e
        invariant
            i <= e,
            e < 128,
            r as nat == exp2(i as nat),
        decreases e - i,
    {
        proof {
            lemma_exp2_le(i as nat + 1, 127);
            lemma_exp2_values();
            lemma_exp2_adds(127, 1);
        }
        r = r * 2;
        i = i + 1;
    }
    r
}

} // verus!
