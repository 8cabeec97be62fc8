//! The marker codec: a combinadic bijection between small integers and
//! fixed-weight bit patterns.
//!
//! `rank` maps a value v to the v-th (in colexicographic order) subset of
//! size kappa of the bit positions, rendered as a bit pattern; `unrank`
//! recovers the value from the pattern.  The round trip and the pattern
//! weight are proved, not assumed.

use vstd::prelude::*;

use crate::bitops::{exp2, pop, exp2_u128, lemma_exp2_le, lemma_exp2_values, lemma_pop_zero};

verus! {

/// The binomial coefficient, by Pascal's rule.
pub open spec fn binom(n: nat, k: nat) -> nat
    decreases n,
{
    if k == 0 {
        1
    } else if n == 0 {
        0
    } else {
        binom((n - 1) as nat, k) + binom((n - 1) as nat, (k - 1) as nat)
    }
}

/// The largest c' <= c with binom(c', k) <= v (0 serves as the floor).
pub open spec fn greedy_c(v: nat, k: nat, c: nat) -> nat
    decreases c,
{
    if c == 0 {
        0
    } else if binom(c, k) <= v {
        c
    } else {
        greedy_c(v, k, (c - 1) as nat)
    }
}

/// The marker for value v at weight k: the top bit is placed greedily, the
/// rest of the value is encoded at weight k - 1 below it.
pub open spec fn spec_rank_rec(v: nat, k: nat) -> nat
    decreases k,
{
    if k == 0 {
        0
    } else {
        let c = greedy_c(v, k, 127);
        exp2(c) + spec_rank_rec((v - binom(c, k)) as nat, (k - 1) as nat)
    }
}

/// The marker that encodes `value` with exactly `kappa` set bits.
pub open spec fn spec_rank(value: u32, kappa: nat) -> nat {
    spec_rank_rec(value as nat, kappa)
}

/// The value decoded from the marker bits at and above position p, where j-1
/// set bits lie below p: each set bit at position c with i-1 set bits below
/// it contributes binom(c, i).
pub open spec fn unrank_from(m: nat, p: nat, j: nat) -> nat
    decreases m,
{
    if m == 0 {
        0
    } else {
        (if m % 2 == 1 {
            binom(p, j)
        } else {
            0nat
        }) + unrank_from(m / 2, p + 1, if m % 2 == 1 {
            j + 1
        } else {
            j
        })
    }
}

/// The value decoded from a whole marker.
pub open spec fn spec_unrank(m: nat) -> nat {
    unrank_from(m, 0, 1)
}

/// Position of the highest set bit.
pub open spec fn top_bit(m: nat) -> nat
    decreases m,
{
    if m < 2 {
        0
    } else {
        1 + top_bit(m / 2)
    }
}

pub proof fn lemma_binom_zero(n: nat, k: nat)
    requires
        k > n,
    ensures
        binom(n, k) == 0,
    decreases n,
{
    if n > 0 {
        lemma_binom_zero((n - 1) as nat, k);
        lemma_binom_zero((n - 1) as nat, (k - 1) as nat);
    }
}

pub proof fn lemma_binom_pos(n: nat, k: nat)
    requires
        k <= n,
    ensures
        binom(n, k) >= 1,
    decreases n,
{
    if k > 0 {
        lemma_binom_pos((n - 1) as nat, (k - 1) as nat);
    }
}

pub proof fn lemma_binom_nn(n: nat)
    ensures
        binom(n, n) == 1,
    decreases n,
{
    if n > 0 {
        lemma_binom_zero((n - 1) as nat, n);
        lemma_binom_nn((n - 1) as nat);
    }
}

pub proof fn lemma_binom_mono(n1: nat, n2: nat, k: nat)
    requires
        n1 <= n2,
    ensures
        binom(n1, k) <= binom(n2, k),
    decreases n2,
{
    if n1 < n2 {
        lemma_binom_mono(n1, (n2 - 1) as nat, k);
        if k > 0 {
            assert(binom(n2, k) == binom((n2 - 1) as nat, k) + binom((n2 - 1) as nat, (k - 1) as nat));
        }
    }
}

pub proof fn lemma_binom_le_exp2(n: nat, k: nat)
    ensures
        binom(n, k) <= exp2(n),
    decreases n,
{
    if n == 0 {
    } else if k == 0 {
        lemma_exp2_le(0, n);
    } else {
        lemma_binom_le_exp2((n - 1) as nat, k);
        lemma_binom_le_exp2((n - 1) as nat, (k - 1) as nat);
    }
}

pub proof fn lemma_binom_lt_exp2(n: nat, k: nat)
    requires
        k >= 1,
    ensures
        binom(n, k) < exp2(n),
    decreases n,
{
    if n == 0 {
    } else if k == 1 {
        lemma_binom_lt_exp2((n - 1) as nat, 1);
        assert(binom((n - 1) as nat, 0) == 1);
        lemma_exp2_le(0, (n - 1) as nat);
    } else {
        lemma_binom_lt_exp2((n - 1) as nat, k);
        lemma_binom_le_exp2((n - 1) as nat, (k - 1) as nat);
    }
}

pub proof fn lemma_greedy(v: nat, k: nat, c: nat)
    requires
        k >= 1,
    ensures
        greedy_c(v, k, c) <= c,
        binom(greedy_c(v, k, c), k) <= v,
        forall|c2: nat| greedy_c(v, k, c) < c2 <= c ==> binom(c2, k) > v,
    decreases c,
{
    if c == 0 {
        lemma_binom_zero(0, k);
    } else if binom(c, k) <= v {
    } else {
        lemma_greedy(v, k, (c - 1) as nat);
    }
}

/// Splitting off the low bit of the remainder under a top bit at position c:
/// popcount distributes over the split.
pub proof fn lemma_pop_split(c: nat, rest: nat)
    requires
        rest < exp2(c),
    ensures
        pop(exp2(c) + rest) == 1 + pop(rest),
    decreases c,
{
    if c == 0 {
        assert(rest == 0);
        assert(pop(1) == 1nat % 2 + pop(0));
    } else {
        let half = exp2((c - 1) as nat);
        assert(exp2(c) == 2 * half);
        let m = exp2(c) + rest;
        assert(m == 2 * (half + rest / 2) + rest % 2);
        assert(m % 2 == rest % 2 && m / 2 == half + rest / 2) by {
            crate::bitops::lemma_exp2_le(0, (c - 1) as nat);
        }
        assert(rest / 2 < half);
        lemma_pop_split((c - 1) as nat, rest / 2);
        assert(pop(m) == m % 2 + pop(m / 2));
        assert(pop(rest) == rest % 2 + pop(rest / 2));
    }
}

/// Decoding a marker whose top bit sits at position p + c: the top bit
/// contributes binom(p + c, j + pop(rest)) and the rest decodes unchanged.
pub proof fn lemma_unrank_split(c: nat, rest: nat, p: nat, j: nat)
    requires
        rest < exp2(c),
    ensures
        unrank_from(exp2(c) + rest, p, j) == unrank_from(rest, p, j) + binom(p + c, j + pop(rest)),
    decreases c,
{
    if c == 0 {
        assert(rest == 0);
        assert(unrank_from(1, p, j) == binom(p, j) + unrank_from(0, p + 1, j + 1));
    } else {
        let half = exp2((c - 1) as nat);
        assert(exp2(c) == 2 * half);
        lemma_exp2_le(0, (c - 1) as nat);
        let m = exp2(c) + rest;
        assert(m == 2 * (half + rest / 2) + rest % 2);
        assert(m % 2 == rest % 2 && m / 2 == half + rest / 2);
        assert(rest / 2 < half);
        let b = rest % 2;
        let j2 = if b == 1 {
            j + 1
        } else {
            j
        };
        lemma_unrank_split((c - 1) as nat, rest / 2, p + 1, j2);
        assert(pop(rest) == rest % 2 + pop(rest / 2));
        assert(unrank_from(m, p, j) == (if b == 1 {
            binom(p, j)
        } else {
            0nat
        }) + unrank_from(m / 2, p + 1, j2));
        if rest == 0 {
            assert(unrank_from(rest, p, j) == 0);
            assert(unrank_from(rest / 2, p + 1, j2) == 0);
        } else {
            assert(unrank_from(rest, p, j) == (if b == 1 {
                binom(p, j)
            } else {
                0nat
            }) + unrank_from(rest / 2, p + 1, j2));
        }
    }
}

pub proof fn lemma_top_bit(m: nat)
    requires
        m >= 1,
    ensures
        exp2(top_bit(m)) <= m,
        m < exp2(top_bit(m) + 1),
        top_bit(m) < 128 || m >= exp2(128),
    decreases m,
{
    if m < 2 {
        assert(exp2(0) == 1 && exp2(1) == 2);
    } else {
        lemma_top_bit(m / 2);
        let t = top_bit(m / 2);
        assert(exp2(t + 1) == 2 * exp2(t));
        assert(exp2(t + 2) == 2 * exp2(t + 1));
        assert(m == 2 * (m / 2) + m % 2);
        if t + 1 >= 128 {
            lemma_exp2_le(128, t + 1);
        }
    }
}

/// The decoded value of any marker is below binom(top + 1, weight).
pub proof fn lemma_unrank_bound(m: nat)
    requires
        m >= 1,
    ensures
        spec_unrank(m) < binom(top_bit(m) + 1, pop(m)),
    decreases m,
{
    lemma_top_bit(m);
    let c = top_bit(m);
    let rest = (m - exp2(c)) as nat;
    assert(exp2(c + 1) == 2 * exp2(c));
    assert(rest < exp2(c));
    lemma_unrank_split(c, rest, 0, 1);
    lemma_pop_split(c, rest);
    assert(spec_unrank(m) == spec_unrank(rest) + binom(c, pop(m)));
    assert(pop(m) == 1 + pop(rest));
    assert(binom(c + 1, pop(m)) == binom(c, pop(m)) + binom(c, pop(rest)));
    if rest == 0 {
        assert(spec_unrank(0) == 0);
        lemma_binom_pos(c, 0);
    } else {
        lemma_unrank_bound(rest);
        lemma_top_bit(rest);
        let tr = top_bit(rest);
        assert(tr < c) by {
            if tr >= c {
                lemma_exp2_le(c, tr);
            }
        }
        lemma_binom_mono(tr + 1, c, pop(rest));
    }
}

/// Correctness of the greedy encoder: the encoding has exactly k set bits,
/// decodes back to v, and fits in n bits whenever v < binom(n, k).
pub proof fn lemma_rank_rec(v: nat, k: nat)
    requires
        v < binom(128, k),
    ensures
        pop(spec_rank_rec(v, k)) == k,
        spec_unrank(spec_rank_rec(v, k)) == v,
        forall|n: nat| n <= 128 && v < binom(n, k) ==> spec_rank_rec(v, k) < exp2(n),
    decreases k,
{
    if k == 0 {
        assert(v == 0);
        assert(spec_rank_rec(0, 0) == 0);
        assert(pop(0) == 0);
        assert(unrank_from(0, 0, 1) == 0);
        assert forall|n: nat| n <= 128 && v < binom(n, k) implies spec_rank_rec(v, k) < exp2(n) by {
            lemma_exp2_le(0, n);
        }
    } else {
        let c = greedy_c(v, k, 127);
        lemma_greedy(v, k, 127);
        assert(v < binom(c + 1, k)) by {
            if c < 127 {
                assert(binom(c + 1, k) > v);
            } else {
                assert(binom(128, k) == binom(127, k) + binom(127, (k - 1) as nat));
                lemma_binom_mono(c + 1, 128, k);
            }
        }
        assert(binom(c + 1, k) == binom(c, k) + binom(c, (k - 1) as nat));
        let v2 = (v - binom(c, k)) as nat;
        assert(v2 < binom(c, (k - 1) as nat));
        lemma_binom_mono(c, 128, (k - 1) as nat);
        lemma_rank_rec(v2, (k - 1) as nat);
        let rest = spec_rank_rec(v2, (k - 1) as nat);
        assert(rest < exp2(c));
        let mk = spec_rank_rec(v, k);
        assert(mk == exp2(c) + rest);
        lemma_pop_split(c, rest);
        assert(pop(mk) == k);
        lemma_unrank_split(c, rest, 0, 1);
        assert(spec_unrank(mk) == spec_unrank(rest) + binom(c, 1 + pop(rest)));
        assert(spec_unrank(mk) == v2 + binom(c, k));
        assert forall|n: nat| n <= 128 && v < binom(n, k) implies mk < exp2(n) by {
            assert(c < n) by {
                if c >= n {
                    lemma_binom_mono(n, c, k);
                }
            }
            lemma_exp2_le(c + 1, n);
            assert(exp2(c + 1) == 2 * exp2(c));
        }
    }
}

/// The codec round trip: for every weight kappa and every value the weight
/// admits, the marker carries exactly kappa set bits and decodes back to the
/// value; and it fits in n bits whenever value < binom(n, kappa).
pub proof fn lemma_codec_round_trip(value: u32, kappa: nat)
    requires
        (value as nat) < binom(128, kappa),
    ensures
        pop(spec_rank(value, kappa)) == kappa,
        spec_unrank(spec_rank(value, kappa)) == value as nat,
        forall|n: nat| n <= 128 && (value as nat) < binom(n, kappa) ==> spec_rank(value, kappa)
            < exp2(n),
{
    lemma_rank_rec(value as nat, kappa);
}

/// A well-formed Pascal triangle: row n holds binom(n, 0) .. binom(n, n).
pub open spec fn pascal_ok(t: Seq<Vec<u128>>) -> bool {
    &&& t.len() == 129
    &&& forall|n: int| 0 <= n < 129 ==> (#[trigger] t[n])@.len() == n + 1
    &&& forall|n: int, k: int|
        0 <= n < 129 && 0 <= k <= n ==> (#[trigger] t[n]@[k]) as nat == binom(n as nat, k as nat)
}

/// Builds the Pascal triangle up to row 128.
fn pascal() -> (t: Vec<Vec<u128>>)
    ensures
        pascal_ok(t@),
{
    let mut t: Vec<Vec<u128>> = Vec::new();
    let mut row0: Vec<u128> = Vec::new();
    row0.push(1);
    t.push(row0);
    let mut n: usize = 1;
    while n < 129
        invariant
            1 <= n <= 129,
            t@.len() == n,
            forall|m: int| 0 <= m < n ==> (#[trigger] t@[m])@.len() == m + 1,
            forall|m: int, k: int|
                0 <= m < n && 0 <= k <= m ==> (#[trigger] t@[m]@[k]) as nat == binom(
                    m as nat,
                    k as nat,
                ),
        decreases 129 - n,
    {
        let mut row: Vec<u128> = Vec::new();
        row.push(1);
        let mut k: usize = 1;
        while k < n
            invariant
                1 <= k <= n,
                1 <= n <= 128,
                t@.len() == n,
                forall|m: int| 0 <= m < n ==> (#[trigger] t@[m])@.len() == m + 1,
                forall|m: int, j: int|
                    0 <= m < n && 0 <= j <= m ==> (#[trigger] t@[m]@[j]) as nat == binom(
                        m as nat,
                        j as nat,
                    ),
                row@.len() == k,
                forall|j: int| 0 <= j < k ==> (#[trigger] row@[j]) as nat == binom(
                    n as nat,
                    j as nat,
                ),
            decreases n - k,
        {
            let a = t[n - 1][k - 1];
            let b = t[n - 1][k];
            proof {
                lemma_binom_lt_exp2(n as nat, k as nat);
                lemma_exp2_le(n as nat, 128);
                lemma_exp2_values();
                assert(binom(n as nat, k as nat) == binom((n - 1) as nat, k as nat) + binom(
                    (n - 1) as nat,
                    (k - 1) as nat,
                ));
            }
            row.push(a + b);
            k = k + 1;
        }
        row.push(1);
        proof {
            lemma_binom_nn(n as nat);
        }
        t.push(row);
        n = n + 1;
    }
    t
}

/// Reads binom(n, k) out of the triangle, 0 when k > n.
fn binom_at(t: &Vec<Vec<u128>>, n: usize, k: usize) -> (r: u128)
    requires
        pascal_ok(t@),
        n < 129,
    ensures
        r as nat == binom(n as nat, k as nat),
{
    if k <= n {
        t[n][k]
    } else {
        proof {
            lemma_binom_zero(n as nat, k as nat);
        }
        0
    }
}

/// Encodes `value` as a marker with exactly `n_marker_bits` set bits, the
/// value-th weight-kappa pattern in colexicographic order.
pub fn rank(value: u32, n_marker_bits: u8) -> (r: u128)
    requires
        1 <= n_marker_bits <= 128,
        (value as nat) < binom(128, n_marker_bits as nat),
    ensures
        r as nat == spec_rank(value, n_marker_bits as nat),
        pop(r as nat) == n_marker_bits as nat,
        spec_unrank(r as nat) == value as nat,
        forall|n: nat|
            n <= 128 && (value as nat) < binom(n, n_marker_bits as nat) ==> (r as nat) < exp2(n),
{
    proof {
        lemma_rank_rec(value as nat, n_marker_bits as nat);
        lemma_exp2_values();
        lemma_binom_lt_exp2(128, n_marker_bits as nat);
    }
    let t = pascal();
    let mut marker: u128 = 0;
    let mut rem: u32 = value;
    let mut i: usize = n_marker_bits as usize;
    while i >= 1
        invariant
            i <= 128,
            pascal_ok(t@),
            marker as nat + spec_rank_rec(rem as nat, i as nat) == spec_rank(
                value,
                n_marker_bits as nat,
            ),
            (rem as nat) < binom(128, i as nat),
            spec_rank(value, n_marker_bits as nat) < exp2(128),
        decreases i,
    {
        let mut c: usize = 127;
        while c > 0 && binom_at(&t, c, i) > rem as u128
            invariant
                c <= 127,
                i >= 1,
                pascal_ok(t@),
                greedy_c(rem as nat, i as nat, 127) == greedy_c(rem as nat, i as nat, c as nat),
            decreases c,
        {
            c = c - 1;
        }
        let bc = binom_at(&t, c, i);
        proof {
            lemma_greedy(rem as nat, i as nat, 127);
            assert(greedy_c(rem as nat, i as nat, c as nat) == c as nat);
            let cg = c as nat;
            assert((rem as nat) < binom(cg + 1, i as nat)) by {
                if c < 127 {
                    assert(binom(cg + 1, i as nat) > rem as nat);
                } else {
                    assert(binom(128, i as nat) == binom(127, i as nat) + binom(
                        127,
                        (i - 1) as nat,
                    ));
                    lemma_binom_mono(cg + 1, 128, i as nat);
                }
            }
            assert(binom(cg + 1, i as nat) == binom(cg, i as nat) + binom(cg, (i - 1) as nat));
            lemma_binom_mono(cg, 128, (i - 1) as nat);
            assert(spec_rank_rec(rem as nat, i as nat) == exp2(cg) + spec_rank_rec(
                ((rem as nat) - binom(cg, i as nat)) as nat,
                (i - 1) as nat,
            ));
            lemma_exp2_values();
        }
        let p = exp2_u128(c);
        marker = marker + p;
        rem = rem - (bc as u32);
        i = i - 1;
    }
    marker
}

/// Decodes a marker back to the value it encodes.  Exact for every input;
/// meaningful to callers that checked the marker's weight.
pub fn unrank(marker: u128) -> (r: u128)
    ensures
        r as nat == spec_unrank(marker as nat),
{
    let t = pascal();
    proof {
        lemma_exp2_values();
        if marker > 0 {
            lemma_unrank_bound(marker as nat);
            lemma_top_bit(marker as nat);
            lemma_pop_zero(marker as nat);
            lemma_binom_mono(top_bit(marker as nat) + 1, 128, pop(marker as nat));
            lemma_binom_lt_exp2(128, pop(marker as nat));
        }
    }
    let mut m = marker;
    let mut p: usize = 0;
    let mut j: usize = 1;
    let mut acc: u128 = 0;
    while m != 0
        invariant
            pascal_ok(t@),
            p <= 128,
            j <= p + 1,
            (m as nat) < exp2((128 - p) as nat),
            acc as nat + unrank_from(m as nat, p as nat, j as nat) == spec_unrank(marker as nat),
            spec_unrank(marker as nat) < exp2(128),
        decreases m,
    {
        proof {
            if p >= 128 {
                lemma_exp2_le(0, (128 - p) as nat);
            }
            assert(exp2((128 - p) as nat) == 2 * exp2((128 - p - 1) as nat));
        }
        if m % 2 == 1 {
            let b = binom_at(&t, p, j);
            proof {
                assert(unrank_from(m as nat, p as nat, j as nat) == binom(p as nat, j as nat)
                    + unrank_from((m as nat) / 2, p as nat + 1, j as nat + 1));
                assert(acc as nat + b as nat <= spec_unrank(marker as nat));
                lemma_exp2_values();
            }
            acc = acc + b;
            j = j + 1;
        }
        m = m / 2;
        p = p + 1;
    }
    acc
}

} // verus!
