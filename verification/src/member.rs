//! A single b-field member: one bit vector plus the marker parameters,
//! with insertion, lookup and the destructive mask operation.

use vstd::prelude::*;

use mmap_bitvec::MmapBitVec;

use crate::bitops::{
    and_nat, exp2, exp2_u128, lemma_and_le, lemma_and_submask, lemma_exp2_adds, lemma_exp2_le,
    lemma_exp2_values, lemma_low_clear_le_pop, lemma_pop_ones, lemma_seq_pop_le, lemma_submask_and,
    lemma_submask_ones, lemma_submask_pop_eq, lemma_submask_pop_le, lemma_submask_refl,
    lemma_submask_trans, lemma_val_of_bound, lemma_val_of_submask, lemma_val_of_word_bits,
    lemma_val_of_zero, lemma_with_low_set, lemma_word_bits_len, low_clear, pop, popcount, seq_pop,
    submask, val_of, with_low_set, word_and, word_bits,
};
use crate::codec::{binom, lemma_binom_mono, lemma_codec_round_trip, rank, spec_rank, spec_unrank, unrank};
use crate::store::{
    bv_bits, bv_from_memory, bv_get_range, bv_rank, bv_set_range, bv_size, bv_writable, hash128,
    hash128_of,
};
use crate::BFieldVal;

verus! {

/// The verdict of a per-member lookup.
#[derive(Debug, PartialEq, Eq, Structural)]
pub enum BFieldLookup {
    /// Too many bits survived the intersection: the key cannot be decoded.
    Indeterminate,
    /// The key decodes to exactly one value.
    Found(u32),
    /// The key is definitely absent from this member.
    Missing,
}

/// The per-member parameters, carried in the member's file header.
pub struct BFieldParams<T> {
    pub n_hashes: u8,
    pub marker_width: u8,
    pub n_marker_bits: u8,
    pub other: Option<T>,
}

/// One b-field member.
pub struct BFieldMember<T> {
    pub(crate) bitvec: MmapBitVec,
    pub(crate) params: BFieldParams<T>,
}

/// The i-th marker position: 64-bit wrapping arithmetic on the two hash
/// words, then reduction into the positions that leave room for a window.
pub open spec fn pos_spec(h: (u64, u64), i: int, total: int, width: int) -> int {
    ((h.0 + i * h.1) % 0x1_0000_0000_0000_0000) % (total - width)
}

/// Derives the i-th marker position for a hash inside a bit vector of
/// `total_size` bits, so that the whole window fits.
pub fn marker_pos(hash: (u64, u64), n: usize, total_size: usize, marker_size: usize) -> (r: usize)
    requires
        marker_size < total_size,
    ensures
        r as int == pos_spec(hash, n as int, total_size as int, marker_size as int),
        r < total_size - marker_size,
{
    let nn: u64 = n as u64;
    proof {
        lemma_exp2_values();
        lemma_exp2_adds(64, 64);
        assert((nn as nat) * (hash.1 as nat) + (hash.0 as nat) < exp2(64) * exp2(64))
            by (nonlinear_arith)
            requires
                (nn as nat) < exp2(64),
                (hash.1 as nat) < exp2(64),
                (hash.0 as nat) < exp2(64),
        ;
    }
    let wide: u128 = (hash.0 as u128) + (nn as u128) * (hash.1 as u128);
    let wrapped: u128 = wide % 0x1_0000_0000_0000_0000u128;
    let diff: u128 = (total_size - marker_size) as u128;
    let m: u128 = wrapped % diff;
    m as usize
}

/// The low `len` bits of b in reverse order.
pub open spec fn rev_bits(b: nat, len: nat) -> nat
    decreases len,
{
    if len == 0 {
        0
    } else {
        (b % 2) * exp2((len - 1) as nat) + rev_bits(b / 2, (len - 1) as nat)
    }
}

proof fn lemma_rev_bits_bound(b: nat, len: nat)
    ensures
        rev_bits(b, len) < exp2(len),
    decreases len,
{
    if len > 0 {
        lemma_rev_bits_bound(b / 2, (len - 1) as nat);
        let e = exp2((len - 1) as nat);
        assert((b % 2) * e <= e) by {
            if b % 2 == 0 {
                assert((b % 2) * e == 0);
            } else {
                assert((b % 2) * e == e);
            }
        }
        assert(exp2(len) == 2 * e);
    }
}

/// Reverses the low `len` bits of a marker, the alignment the legacy
/// on-disk layout stores markers in.
pub fn align_bits(b: u128, len: usize) -> (r: u128)
    requires
        len <= 128,
    ensures
        r as nat == rev_bits(b as nat, len as nat),
        (r as nat) < exp2(len as nat),
{
    proof {
        lemma_rev_bits_bound(b as nat, len as nat);
        lemma_exp2_le(len as nat, 128);
        lemma_exp2_values();
    }
    let mut acc: u128 = 0;
    let mut rem = b;
    let mut i: usize = 0;
    while i < len
        invariant
            i <= len,
            len <= 128,
            acc as nat + rev_bits(rem as nat, (len - i) as nat) == rev_bits(b as nat, len as nat),
            rev_bits(b as nat, len as nat) < exp2(len as nat),
            exp2(len as nat) <= exp2(128),
            exp2(128) == 0x1_0000_0000_0000_0000_0000_0000_0000_0000,
        decreases len - i,
    {
        proof {
            let e = exp2((len - i - 1) as nat);
            assert(rev_bits(rem as nat, (len - i) as nat) == ((rem as nat) % 2) * e + rev_bits(
                (rem as nat) / 2,
                (len - i - 1) as nat,
            ));
            if rem % 2 == 1 {
                assert(((rem as nat) % 2) * e == e);
            } else {
                assert(((rem as nat) % 2) * e == 0);
            }
        }
        if rem % 2 == 1 {
            let add = exp2_u128(len - i - 1);
            acc = acc + add;
        }
        rem = rem / 2;
        i = i + 1;
    }
    acc
}

/// s with `pat` (width w, most significant bit first) OR-ed into the
/// window [pos, pos + w).
pub open spec fn or_window(s: Seq<bool>, pos: int, w: nat, pat: nat) -> Seq<bool> {
    Seq::new(
        s.len(),
        |i: int|
            if pos <= i < pos + w {
                s[i] || word_bits(pat, w)[i - pos]
            } else {
                s[i]
            },
    )
}

impl<T> BFieldMember<T> {
    /// The bits of the member's store.
    pub closed spec fn bits(self) -> Seq<bool> {
        bv_bits(self.bitvec)
    }

    /// The number of hash-derived positions per key.
    pub closed spec fn k(self) -> nat {
        self.params.n_hashes as nat
    }

    /// The marker width in bits.
    pub closed spec fn nu(self) -> nat {
        self.params.marker_width as nat
    }

    /// The number of set bits in a marker.
    pub closed spec fn kappa(self) -> nat {
        self.params.n_marker_bits as nat
    }

    /// The user parameters carried in the header.
    pub closed spec fn other_spec(self) -> Option<T> {
        self.params.other
    }

    /// Whether the underlying store accepts writes.
    pub closed spec fn writable(self) -> bool {
        bv_writable(self.bitvec)
    }

    /// Well-formedness: the parameter ranges the design requires, and a
    /// store large enough for every window.
    pub open spec fn wf(self) -> bool {
        &&& 1 <= self.k() <= 16
        &&& 1 <= self.kappa()
        &&& self.kappa() < self.nu()
        &&& self.nu() <= 128
        &&& self.nu() < self.bits().len()
        &&& 128 <= self.bits().len()
    }

    /// The i-th window position for this key.
    pub open spec fn pos_at(self, key: Seq<u8>, i: int) -> int {
        pos_spec(hash128_of(key, 0), i, self.bits().len() as int, self.nu() as int)
    }

    /// The word read from the i-th window, most significant bit first.
    pub open spec fn window(self, key: Seq<u8>, i: int) -> nat {
        val_of(self.bits().subrange(self.pos_at(key, i), self.pos_at(key, i) + self.nu()))
    }

    /// The intersection of the first i windows (all ones to start).
    pub open spec fn merged_upto(self, key: Seq<u8>, i: int) -> nat
        decreases i,
    {
        if i <= 0 {
            (exp2(128) - 1) as nat
        } else {
            and_nat(self.merged_upto(key, i - 1), self.window(key, i - 1))
        }
    }

    /// The intersection of all windows for this key.
    pub open spec fn merged(self, key: Seq<u8>) -> nat {
        self.merged_upto(key, self.k() as int)
    }

    /// What the raw lookup returns: the merged marker, or 0 once the
    /// intersection has fewer than kappa set bits.
    pub open spec fn raw_spec(self, key: Seq<u8>) -> nat {
        if pop(self.merged(key)) >= self.kappa() {
            self.merged(key)
        } else {
            0
        }
    }

    /// The lookup verdict for this key, by the weight of the merged word.
    pub open spec fn lookup_spec(self, key: Seq<u8>) -> BFieldLookup {
        let m = self.merged(key);
        if pop(m) > self.kappa() {
            BFieldLookup::Indeterminate
        } else if pop(m) == self.kappa() {
            BFieldLookup::Found((spec_unrank(m) % 0x1_0000_0000) as u32)
        } else {
            BFieldLookup::Missing
        }
    }

    /// The bits after OR-ing `pat` into the first i windows of this key.
    pub open spec fn inserted_upto(self, key: Seq<u8>, pat: nat, i: int) -> Seq<bool>
        decreases i,
    {
        if i <= 0 {
            self.bits()
        } else {
            or_window(
                self.inserted_upto(key, pat, i - 1),
                self.pos_at(key, i - 1),
                self.nu(),
                pat,
            )
        }
    }

    /// The bits after inserting marker `pat` for this key.
    pub open spec fn inserted(self, key: Seq<u8>, pat: nat) -> Seq<bool> {
        self.inserted_upto(key, pat, self.k() as int)
    }

    /// Whether mask_or_insert reports success: the key was inserted, or it
    /// was already present with the right value.
    pub open spec fn mask_result(self, key: Seq<u8>, value: u32) -> bool {
        let ex = self.raw_spec(key);
        if pop(ex) > self.kappa() {
            false
        } else if pop(ex) == self.kappa() {
            ex == spec_rank(value, self.kappa())
        } else {
            true
        }
    }

    /// The bits after mask_or_insert: unchanged when already indeterminate
    /// or already correct; the correct marker inserted when the key was
    /// absent; otherwise the existing marker with one extra bit, which
    /// forces the key indeterminate.
    pub open spec fn mask_state(self, key: Seq<u8>, value: u32) -> Seq<bool> {
        let ex = self.raw_spec(key);
        let correct = spec_rank(value, self.kappa());
        if pop(ex) > self.kappa() {
            self.bits()
        } else if pop(ex) == self.kappa() {
            if ex == correct {
                self.bits()
            } else {
                self.inserted(key, with_low_set(ex))
            }
        } else {
            self.inserted(key, correct)
        }
    }

    /// Every window position leaves room for a full window.
    pub proof fn lemma_pos_range(self, key: Seq<u8>, i: int)
        requires
            self.wf(),
        ensures
            0 <= self.pos_at(key, i),
            self.pos_at(key, i) + self.nu() < self.bits().len(),
    {
        let total = self.bits().len() as int;
        let width = self.nu() as int;
        let h = hash128_of(key, 0);
        let w = (h.0 + i * h.1) % 0x1_0000_0000_0000_0000;
        assert(0 <= w % (total - width) < total - width);
    }

    /// Later intersections are submasks of earlier ones.
    pub proof fn lemma_merged_submask(self, key: Seq<u8>, i: int, j: int)
        requires
            0 <= i <= j,
        ensures
            submask(self.merged_upto(key, j), self.merged_upto(key, i)),
        decreases j,
    {
        if i == j {
            lemma_submask_refl(self.merged_upto(key, i));
        } else {
            self.lemma_merged_submask(key, i, j - 1);
            lemma_and_submask(self.merged_upto(key, j - 1), self.window(key, j - 1));
            lemma_submask_trans(
                self.merged_upto(key, j),
                self.merged_upto(key, j - 1),
                self.merged_upto(key, i),
            );
        }
    }

    /// The merged word of a well-formed member fits in a window.
    pub proof fn lemma_merged_lt(self, key: Seq<u8>)
        requires
            self.wf(),
        ensures
            self.merged(key) < exp2(self.nu()),
            self.raw_spec(key) < exp2(self.nu()),
    {
        self.lemma_merged_submask(key, 1, self.k() as int);
        lemma_and_le(self.merged(key), self.merged_upto(key, 1));
        lemma_and_le(self.merged_upto(key, 0), self.window(key, 0));
        self.lemma_pos_range(key, 0);
        lemma_val_of_bound(
            self.bits().subrange(self.pos_at(key, 0), self.pos_at(key, 0) + self.nu()),
        );
        lemma_exp2_le(0, self.nu());
    }

    /// Inserting only adds bits, and afterwards every window of the key
    /// contains the inserted pattern.
    pub proof fn lemma_inserted_props(self, key: Seq<u8>, pat: nat, i: int)
        requires
            self.wf(),
            pat < exp2(self.nu()),
            0 <= i <= self.k(),
        ensures
            self.inserted_upto(key, pat, i).len() == self.bits().len(),
            forall|x: int|
                0 <= x < self.bits().len() && self.bits()[x] ==> self.inserted_upto(
                    key,
                    pat,
                    i,
                )[x],
            forall|j: int, y: int|
                #![trigger self.pos_at(key, j), word_bits(pat, self.nu())[y]]
                0 <= j < i && 0 <= y < self.nu() && word_bits(pat, self.nu())[y]
                    ==> self.inserted_upto(key, pat, i)[self.pos_at(key, j) + y],
        decreases i,
    {
        lemma_word_bits_len(pat, self.nu());
        if i > 0 {
            self.lemma_inserted_props(key, pat, i - 1);
            self.lemma_pos_range(key, i - 1);
            let prev = self.inserted_upto(key, pat, i - 1);
            let cur = self.inserted_upto(key, pat, i);
            let p = self.pos_at(key, i - 1);
            assert(cur == or_window(prev, p, self.nu(), pat));
            assert forall|j: int, y: int|
                #![trigger self.pos_at(key, j), word_bits(pat, self.nu())[y]]
                0 <= j < i && 0 <= y < self.nu() && word_bits(pat, self.nu())[y] implies cur[self.pos_at(
                key,
                j,
            ) + y] by {
                self.lemma_pos_range(key, j);
                if j < i - 1 {
                    assert(prev[self.pos_at(key, j) + y]);
                } else {
                    assert(p <= p + y < p + self.nu());
                }
            }
        }
    }

    /// If every window of the key contains `pat`, so does the merged word.
    pub proof fn lemma_merged_superset(self, key: Seq<u8>, pat: nat, i: int)
        requires
            self.wf(),
            pat < exp2(128),
            forall|j: int| 0 <= j < self.k() ==> submask(pat, #[trigger] self.window(key, j)),
            0 <= i <= self.k(),
        ensures
            submask(pat, self.merged_upto(key, i)),
        decreases i,
    {
        if i == 0 {
            lemma_submask_ones(pat, 128);
        } else {
            self.lemma_merged_superset(key, pat, i - 1);
            lemma_submask_and(pat, self.merged_upto(key, i - 1), self.window(key, i - 1));
        }
    }

    /// Members with the same bits and parameters agree on every lookup.
    pub proof fn lemma_view_eq(m0: Self, m1: Self, key: Seq<u8>)
        requires
            m1.bits() == m0.bits(),
            m1.k() == m0.k(),
            m1.nu() == m0.nu(),
            m1.kappa() == m0.kappa(),
        ensures
            m1.merged(key) == m0.merged(key),
            m1.raw_spec(key) == m0.raw_spec(key),
            m1.lookup_spec(key) == m0.lookup_spec(key),
    {
        Self::lemma_view_eq_rec(m0, m1, key, m0.k() as int);
    }

    proof fn lemma_view_eq_rec(m0: Self, m1: Self, key: Seq<u8>, i: int)
        requires
            m1.bits() == m0.bits(),
            m1.k() == m0.k(),
            m1.nu() == m0.nu(),
            m1.kappa() == m0.kappa(),
        ensures
            m1.merged_upto(key, i) == m0.merged_upto(key, i),
        decreases i,
    {
        if i > 0 {
            Self::lemma_view_eq_rec(m0, m1, key, i - 1);
        }
    }

    /// A member whose bits grew from an insertion of `pat` for `key` has
    /// `pat` inside its merged word for that key.
    pub proof fn lemma_insert_superset(m0: Self, m1: Self, key: Seq<u8>, pat: nat)
        requires
            m0.wf(),
            m1.wf(),
            m1.k() == m0.k(),
            m1.nu() == m0.nu(),
            m1.kappa() == m0.kappa(),
            m1.bits().len() == m0.bits().len(),
            pat < exp2(m0.nu()),
            forall|x: int|
                0 <= x < m0.bits().len() && m0.inserted(key, pat)[x] ==> m1.bits()[x],
        ensures
            submask(pat, m1.merged(key)),
    {
        m0.lemma_inserted_props(key, pat, m0.k() as int);
        lemma_word_bits_len(pat, m0.nu());
        assert forall|j: int| 0 <= j < m1.k() implies submask(
            pat,
            #[trigger] m1.window(key, j),
        ) by {
            m0.lemma_pos_range(key, j);
            assert(m1.pos_at(key, j) == m0.pos_at(key, j));
            let p = m0.pos_at(key, j);
            let sub = m1.bits().subrange(p, p + m1.nu());
            assert forall|y: int|
                0 <= y < m0.nu() && word_bits(pat, m0.nu())[y] implies sub[y] by {
                assert(m0.inserted(key, pat)[p + y]);
                assert(m1.bits()[p + y]);
            }
            lemma_val_of_submask(word_bits(pat, m0.nu()), sub);
            lemma_val_of_word_bits(pat, m0.nu());
        }
        lemma_exp2_le(m0.nu(), 128);
        lemma_exp2_values();
        m1.lemma_merged_superset(key, pat, m1.k() as int);
    }

    /// Single-member soundness: once `value`'s marker is in place for
    /// `key`, and whatever further insertions have grown the bits since,
    /// the lookup never reports the key missing and never decodes it to a
    /// different value.
    pub proof fn lemma_lookup_after_insert(m0: Self, m1: Self, key: Seq<u8>, value: u32)
        requires
            m0.wf(),
            m1.wf(),
            (value as nat) < binom(m0.nu(), m0.kappa()),
            m1.k() == m0.k(),
            m1.nu() == m0.nu(),
            m1.kappa() == m0.kappa(),
            m1.bits().len() == m0.bits().len(),
            forall|x: int|
                0 <= x < m0.bits().len() && m0.inserted(key, spec_rank(value, m0.kappa()))[x]
                    ==> m1.bits()[x],
        ensures
            m1.lookup_spec(key) != BFieldLookup::Missing,
            forall|w: u32| m1.lookup_spec(key) == BFieldLookup::Found(w) ==> w == value,
    {
        let kap = m0.kappa();
        lemma_binom_mono(m0.nu(), 128, kap);
        lemma_codec_round_trip(value, kap);
        let marker = spec_rank(value, kap);
        assert(marker < exp2(m0.nu()));
        Self::lemma_insert_superset(m0, m1, key, marker);
        let mg = m1.merged(key);
        lemma_submask_pop_le(marker, mg);
        if pop(mg) == kap {
            lemma_submask_pop_eq(marker, mg);
            lemma_exp2_values();
            assert(spec_unrank(mg) == value as nat);
            assert((spec_unrank(mg) % 0x1_0000_0000) as u32 == value);
        }
    }

    /// Absence: a fresh member with all bits clear reports every key
    /// missing.
    pub proof fn lemma_fresh_lookup(self, key: Seq<u8>)
        requires
            self.wf(),
            forall|x: int| 0 <= x < self.bits().len() ==> !self.bits()[x],
        ensures
            self.lookup_spec(key) == BFieldLookup::Missing,
    {
        self.lemma_pos_range(key, 0);
        let p = self.pos_at(key, 0);
        lemma_val_of_zero(self.bits().subrange(p, p + self.nu()));
        assert(self.window(key, 0) == 0);
        assert(self.merged_upto(key, 1) == and_nat(self.merged_upto(key, 0), 0));
        assert(and_nat(self.merged_upto(key, 0), 0) == 0);
        self.lemma_merged_submask(key, 1, self.k() as int);
        lemma_and_le(self.merged(key), self.merged_upto(key, 1));
        assert(self.merged(key) == 0);
        assert(pop(0) == 0);
    }

    /// Monotone bits: an insertion never clears a bit, so the popcount of
    /// the whole bit vector never decreases.
    pub proof fn lemma_insert_monotone(self, key: Seq<u8>, pat: nat)
        requires
            self.wf(),
            pat < exp2(self.nu()),
        ensures
            self.inserted(key, pat).len() == self.bits().len(),
            forall|x: int|
                0 <= x < self.bits().len() && self.bits()[x] ==> self.inserted(key, pat)[x],
            seq_pop(self.bits()) <= seq_pop(self.inserted(key, pat)),
    {
        self.lemma_inserted_props(key, pat, self.k() as int);
        lemma_seq_pop_le(self.bits(), self.inserted(key, pat));
    }

    /// Creates an in-memory member (not backed by a file).
    pub fn in_memory(size: usize, n_hashes: u8, marker_width: u8, n_marker_bits: u8) -> (r:
        Result<Self, std::io::Error>)
        requires
            1 <= n_hashes <= 16,
            1 <= n_marker_bits,
            n_marker_bits < marker_width,
            marker_width <= 128,
            (marker_width as nat) < size,
            128 <= size,
        ensures
            r matches Ok(m) ==> {
                &&& m.wf()
                &&& m.writable()
                &&& m.k() == n_hashes
                &&& m.nu() == marker_width
                &&& m.kappa() == n_marker_bits
                &&& m.bits().len() == size
                &&& forall|i: int| 0 <= i < size ==> !m.bits()[i]
                &&& m.other_spec() is None
            },
    {
        let bv = match bv_from_memory(size) {
            Ok(b) => b,
            Err(e) => {
                return Err(e);
            },
        };
        Ok(
            BFieldMember {
                bitvec: bv,
                params: BFieldParams { n_hashes, marker_width, n_marker_bits, other: None },
            },
        )
    }

    /// Assembles a member from an already-opened store and the parameters
    /// read from its header.
    pub fn from_parts(
        bitvec: MmapBitVec,
        n_hashes: u8,
        marker_width: u8,
        n_marker_bits: u8,
        other: Option<T>,
    ) -> (r: Self)
        requires
            1 <= n_hashes <= 16,
            1 <= n_marker_bits,
            n_marker_bits < marker_width,
            marker_width <= 128,
            (marker_width as nat) < bv_bits(bitvec).len(),
            128 <= bv_bits(bitvec).len(),
        ensures
            r.wf(),
            r.bits() == bv_bits(bitvec),
            r.writable() == bv_writable(bitvec),
            r.k() == n_hashes,
            r.nu() == marker_width,
            r.kappa() == n_marker_bits,
            r.other_spec() == other,
    {
        BFieldMember {
            bitvec,
            params: BFieldParams { n_hashes, marker_width, n_marker_bits, other },
        }
    }

    /// A reference to the user parameters.
    pub fn other_ref(&self) -> (r: &Option<T>)
        ensures
            r == self.other_spec(),
    {
        &self.params.other
    }

    /// Replaces the user parameters in memory; the file is not rewritten.
    pub fn set_other(&mut self, o: Option<T>)
        ensures
            final(self).other_spec() == o,
            final(self).bits() == old(self).bits(),
            final(self).writable() == old(self).writable(),
            final(self).k() == old(self).k(),
            final(self).nu() == old(self).nu(),
            final(self).kappa() == old(self).kappa(),
    {
        self.params.other = o;
    }

    /// The member's size in bits and its three marker parameters.
    pub fn info(&self) -> (r: (usize, u8, u8, u8))
        ensures
            r.0 == self.bits().len(),
            r.1 == self.k(),
            r.2 == self.nu(),
            r.3 == self.kappa(),
    {
        (
            bv_size(&self.bitvec),
            self.params.n_hashes,
            self.params.marker_width,
            self.params.n_marker_bits,
        )
    }

    /// The number of set bits in the whole bit vector.
    pub fn count_set_bits(&self) -> (r: usize)
        requires
            self.wf(),
            self.bits().len() % 8 == 0,
        ensures
            r == seq_pop(self.bits()),
    {
        let size = bv_size(&self.bitvec);
        let r = bv_rank(&self.bitvec, 0, size);
        proof {
            assert(self.bits().subrange(0, self.bits().len() as int) =~= self.bits());
        }
        r
    }

    /// ORs `marker` into the window at every hash-derived position.
    fn insert_raw(&mut self, key: &[u8], marker: u128)
        requires
            old(self).wf(),
            old(self).writable(),
            (marker as nat) < exp2(old(self).nu()),
        ensures
            final(self).wf(),
            final(self).writable(),
            final(self).k() == old(self).k(),
            final(self).nu() == old(self).nu(),
            final(self).kappa() == old(self).kappa(),
            final(self).other_spec() == old(self).other_spec(),
            final(self).bits().len() == old(self).bits().len(),
            final(self).bits() == old(self).inserted(key@, marker as nat),
    {
        let hash = hash128(key, 0);
        let width = self.params.marker_width as usize;
        let nh = self.params.n_hashes as usize;
        let size = bv_size(&self.bitvec);
        let mut i: usize = 0;
        while i < nh
            invariant
                i <= nh,
                old(self).wf(),
                nh == old(self).k(),
                width == old(self).nu(),
                size == old(self).bits().len(),
                hash == hash128_of(key@, 0),
                (marker as nat) < exp2(old(self).nu()),
                self.params == old(self).params,
                bv_writable(self.bitvec),
                bv_bits(self.bitvec).len() == old(self).bits().len(),
                bv_bits(self.bitvec) == old(self).inserted_upto(key@, marker as nat, i as int),
            decreases nh - i,
        {
            proof {
                old(self).lemma_pos_range(key@, i as int);
            }
            let pos = marker_pos(hash, i, size, width);
            proof {
                assert(pos as int == old(self).pos_at(key@, i as int));
            }
            let ghost prev = bv_bits(self.bitvec);
            bv_set_range(&mut self.bitvec, pos, pos + width, marker);
            proof {
                assert(bv_bits(self.bitvec) =~= or_window(
                    prev,
                    pos as int,
                    width as nat,
                    marker as nat,
                ));
            }
            i = i + 1;
        }
    }

    /// Encodes `value` as a marker and unions it into the key's windows.
    pub fn insert(&mut self, key: &[u8], value: BFieldVal)
        requires
            old(self).wf(),
            old(self).writable(),
            (value as nat) < binom(old(self).nu(), old(self).kappa()),
        ensures
            final(self).wf(),
            final(self).writable(),
            final(self).k() == old(self).k(),
            final(self).nu() == old(self).nu(),
            final(self).kappa() == old(self).kappa(),
            final(self).other_spec() == old(self).other_spec(),
            final(self).bits().len() == old(self).bits().len(),
            final(self).bits() == old(self).inserted(
                key@,
                spec_rank(value, old(self).kappa()),
            ),
    {
        proof {
            lemma_binom_mono(old(self).nu(), 128, old(self).kappa());
        }
        let marker = rank(value, self.params.n_marker_bits);
        self.insert_raw(key, marker);
    }

    /// Intersects the key's windows; 0 as soon as the running popcount
    /// falls below kappa.
    fn get_raw(&self, key: &[u8]) -> (r: u128)
        requires
            self.wf(),
        ensures
            r as nat == self.raw_spec(key@),
    {
        let hash = hash128(key, 0);
        let width = self.params.marker_width as usize;
        let kappa = self.params.n_marker_bits as u32;
        let nh = self.params.n_hashes as usize;
        let size = bv_size(&self.bitvec);
        let mut merged: u128 = u128::MAX;
        proof {
            lemma_exp2_values();
            lemma_pop_ones(128);
        }
        let mut i: usize = 0;
        while i < nh
            invariant
                i <= nh,
                self.wf(),
                nh == self.k(),
                width == self.nu(),
                kappa == self.kappa(),
                size == self.bits().len(),
                hash == hash128_of(key@, 0),
                merged as nat == self.merged_upto(key@, i as int),
                pop(merged as nat) >= self.kappa(),
            decreases nh - i,
        {
            proof {
                self.lemma_pos_range(key@, i as int);
            }
            let pos = marker_pos(hash, i, size, width);
            let w = bv_get_range(&self.bitvec, pos, pos + width);
            proof {
                assert(pos as int == self.pos_at(key@, i as int));
                lemma_val_of_word_bits(w as nat, width as nat);
                assert(w as nat == self.window(key@, i as int));
            }
            merged = word_and(merged, w);
            let pc = popcount(merged);
            if pc < kappa {
                proof {
                    self.lemma_merged_submask(key@, i as int + 1, self.k() as int);
                    lemma_submask_pop_le(self.merged(key@), self.merged_upto(key@, i as int + 1));
                    assert(pop(0) == 0);
                }
                return 0;
            }
            i = i + 1;
        }
        merged
    }

    /// Looks the key up and classifies the merged marker by its weight.
    pub fn get(&self, key: &[u8]) -> (r: BFieldLookup)
        requires
            self.wf(),
        ensures
            r == self.lookup_spec(key@),
    {
        let kappa = self.params.n_marker_bits as u32;
        let raw = self.get_raw(key);
        let pc = popcount(raw);
        proof {
            assert(pop(0) == 0);
        }
        if pc > kappa {
            BFieldLookup::Indeterminate
        } else if pc == kappa {
            let v = unrank(raw);
            BFieldLookup::Found((v % 0x1_0000_0000) as u32)
        } else {
            BFieldLookup::Missing
        }
    }

    /// Inserts the value if the key is absent; reports an already-correct
    /// key as present; deliberately drives a key carrying a different
    /// value to indeterminate by setting one extra bit in its windows.
    pub fn mask_or_insert(&mut self, key: &[u8], value: BFieldVal) -> (r: bool)
        requires
            old(self).wf(),
            old(self).writable(),
            (value as nat) < binom(old(self).nu(), old(self).kappa()),
        ensures
            final(self).wf(),
            final(self).writable(),
            final(self).k() == old(self).k(),
            final(self).nu() == old(self).nu(),
            final(self).kappa() == old(self).kappa(),
            final(self).other_spec() == old(self).other_spec(),
            final(self).bits().len() == old(self).bits().len(),
            r == old(self).mask_result(key@, value),
            final(self).bits() == old(self).mask_state(key@, value),
    {
        proof {
            lemma_binom_mono(old(self).nu(), 128, old(self).kappa());
        }
        let kappa = self.params.n_marker_bits as u32;
        let correct = rank(value, self.params.n_marker_bits);
        let existing = self.get_raw(key);
        let pc = popcount(existing);
        if pc > kappa {
            false
        } else if pc == kappa {
            if existing == correct {
                true
            } else {
                proof {
                    old(self).lemma_merged_lt(key@);
                    lemma_low_clear_le_pop(existing as nat);
                    lemma_with_low_set(existing as nat, old(self).nu());
                    lemma_exp2_le(old(self).nu(), 128);
                    lemma_exp2_values();
                }
                let mut t = existing;
                let mut lcpos: usize = 0;
                while t % 2 == 1
                    invariant
                        lcpos + low_clear(t as nat) == low_clear(existing as nat),
                        low_clear(existing as nat) <= 127,
                    decreases t,
                {
                    t = t / 2;
                    lcpos = lcpos + 1;
                }
                let add = exp2_u128(lcpos);
                let new_marker = existing + add;
                proof {
                    assert(new_marker as nat == with_low_set(existing as nat));
                }
                self.insert_raw(key, new_marker);
                false
            }
        } else {
            self.insert_raw(key, correct);
            true
        }
    }

    /// Mask idempotence: a second mask_or_insert with the same key and
    /// value leaves the bits exactly as the first call left them.
    pub proof fn lemma_mask_idempotent(m0: Self, m1: Self, key: Seq<u8>, value: u32)
        requires
            m0.wf(),
            m1.wf(),
            m1.k() == m0.k(),
            m1.nu() == m0.nu(),
            m1.kappa() == m0.kappa(),
            m1.bits().len() == m0.bits().len(),
            (value as nat) < binom(m0.nu(), m0.kappa()),
            m1.bits() == m0.mask_state(key, value),
        ensures
            m1.mask_state(key, value) == m1.bits(),
    {
        let kap = m0.kappa();
        let ex0 = m0.raw_spec(key);
        let correct = spec_rank(value, kap);
        lemma_binom_mono(m0.nu(), 128, kap);
        lemma_codec_round_trip(value, kap);
        m0.lemma_merged_lt(key);
        if pop(ex0) > kap {
            Self::lemma_view_eq(m0, m1, key);
        } else if pop(ex0) == kap {
            if ex0 == correct {
                Self::lemma_view_eq(m0, m1, key);
            } else {
                let pat = with_low_set(ex0);
                lemma_with_low_set(ex0, m0.nu());
                m0.lemma_inserted_props(key, pat, m0.k() as int);
                Self::lemma_insert_superset(m0, m1, key, pat);
                lemma_submask_pop_le(pat, m1.merged(key));
            }
        } else {
            Self::lemma_insert_superset(m0, m1, key, correct);
            let mg = m1.merged(key);
            lemma_submask_pop_le(correct, mg);
            if pop(mg) == kap {
                lemma_submask_pop_eq(correct, mg);
            }
        }
    }

    /// Mask degrades to indeterminate: after the key carries `value` and a
    /// different value is masked over it, the key reads Indeterminate, and
    /// any further mask_or_insert neither changes the bits nor succeeds.
    pub proof fn lemma_mask_degrades(m0: Self, m1: Self, key: Seq<u8>, value: u32, value2: u32)
        requires
            m0.wf(),
            m1.wf(),
            m1.k() == m0.k(),
            m1.nu() == m0.nu(),
            m1.kappa() == m0.kappa(),
            m1.bits().len() == m0.bits().len(),
            (value as nat) < binom(m0.nu(), m0.kappa()),
            (value2 as nat) < binom(m0.nu(), m0.kappa()),
            value2 != value,
            submask(spec_rank(value, m0.kappa()), m0.merged(key)),
            m1.bits() == m0.mask_state(key, value2),
        ensures
            m1.lookup_spec(key) == BFieldLookup::Indeterminate,
            forall|v3: u32|
                #[trigger] m1.mask_state(key, v3) == m1.bits() && !m1.mask_result(key, v3),
    {
        let kap = m0.kappa();
        let marker = spec_rank(value, kap);
        let correct2 = spec_rank(value2, kap);
        lemma_binom_mono(m0.nu(), 128, kap);
        lemma_codec_round_trip(value, kap);
        lemma_codec_round_trip(value2, kap);
        assert(marker != correct2);
        m0.lemma_merged_lt(key);
        let mg0 = m0.merged(key);
        lemma_submask_pop_le(marker, mg0);
        if pop(mg0) > kap {
            Self::lemma_view_eq(m0, m1, key);
        } else {
            assert(pop(mg0) == kap);
            lemma_submask_pop_eq(marker, mg0);
            assert(m0.raw_spec(key) == mg0);
            let pat = with_low_set(mg0);
            lemma_with_low_set(mg0, m0.nu());
            Self::lemma_insert_superset(m0, m1, key, pat);
            lemma_submask_pop_le(pat, m1.merged(key));
        }
    }

    /// Lookup after one insert into a fresh member, when the hash-derived
    /// windows are pairwise identical or disjoint: the verdict is exactly
    /// the inserted value.
    #[verifier::rlimit(100)]
    pub proof fn lemma_single_insert_exact(m0: Self, m1: Self, key: Seq<u8>, value: u32)
        requires
            m0.wf(),
            m1.wf(),
            m1.k() == m0.k(),
            m1.nu() == m0.nu(),
            m1.kappa() == m0.kappa(),
            m1.bits().len() == m0.bits().len(),
            (value as nat) < binom(m0.nu(), m0.kappa()),
            forall|x: int| 0 <= x < m0.bits().len() ==> !m0.bits()[x],
            forall|i: int, j: int|
                0 <= i < m0.k() && 0 <= j < m0.k() ==> (#[trigger] m0.pos_at(key, i)
                    == #[trigger] m0.pos_at(key, j) || m0.pos_at(key, i) + m0.nu() <= m0.pos_at(
                    key,
                    j,
                ) || m0.pos_at(key, j) + m0.nu() <= m0.pos_at(key, i)),
            m1.bits() == m0.inserted(key, spec_rank(value, m0.kappa())),
        ensures
            m1.lookup_spec(key) == BFieldLookup::Found(value),
    {
        let kap = m0.kappa();
        let nu = m0.nu();
        lemma_binom_mono(nu, 128, kap);
        lemma_codec_round_trip(value, kap);
        let marker = spec_rank(value, kap);
        assert(marker < exp2(nu));
        assert forall|j: int| 0 <= j < m1.k() implies #[trigger] m1.window(key, j) == marker by {
            Self::lemma_window_is_marker(m0, m1, key, marker, j);
        }
        Self::lemma_merged_of_equal(m1, key, marker, m1.k() as int);
        lemma_exp2_values();
        assert(pop(m1.merged(key)) == kap);
        assert((spec_unrank(marker) % 0x1_0000_0000) as u32 == value);
    }

    /// After one insertion of `pat` into a fresh member with pairwise
    /// identical-or-disjoint windows, each window of the key reads back
    /// exactly `pat`.
    proof fn lemma_window_is_marker(m0: Self, m1: Self, key: Seq<u8>, pat: nat, j: int)
        requires
            m0.wf(),
            m1.wf(),
            m1.k() == m0.k(),
            m1.nu() == m0.nu(),
            m1.kappa() == m0.kappa(),
            m1.bits().len() == m0.bits().len(),
            pat < exp2(m0.nu()),
            forall|x: int| 0 <= x < m0.bits().len() ==> !m0.bits()[x],
            forall|a: int, b: int|
                0 <= a < m0.k() && 0 <= b < m0.k() ==> (#[trigger] m0.pos_at(key, a)
                    == #[trigger] m0.pos_at(key, b) || m0.pos_at(key, a) + m0.nu() <= m0.pos_at(
                    key,
                    b,
                ) || m0.pos_at(key, b) + m0.nu() <= m0.pos_at(key, a)),
            m1.bits() == m0.inserted(key, pat),
            0 <= j < m0.k(),
        ensures
            m1.window(key, j) == pat,
    {
        let nu = m0.nu();
        lemma_word_bits_len(pat, nu);
        m0.lemma_window_exact(key, pat, m0.k() as int);
        m0.lemma_pos_range(key, j);
        assert(m1.pos_at(key, j) == m0.pos_at(key, j));
        let p = m0.pos_at(key, j);
        let sub = m1.bits().subrange(p, p + nu);
        assert forall|y: int| 0 <= y < nu implies sub[y] == word_bits(pat, nu)[y] by {
            assert(m1.bits()[p + y] == (word_bits(pat, nu)[y] && exists|j2: int|
                0 <= j2 < m0.k() && #[trigger] m0.pos_at(key, j2) == m0.pos_at(key, j)));
            if word_bits(pat, nu)[y] {
                assert(0 <= j < m0.k() && m0.pos_at(key, j) == m0.pos_at(key, j));
            }
        }
        assert(sub =~= word_bits(pat, nu));
        lemma_val_of_word_bits(pat, nu);
    }

    /// In a fresh member, after the fold that ORs `pat` into the first i
    /// windows, a bit inside window j is set exactly when the pattern has
    /// it and some window among the first i shares j's position.
    proof fn lemma_window_exact(self, key: Seq<u8>, pat: nat, i: int)
        requires
            self.wf(),
            pat < exp2(self.nu()),
            forall|x: int| 0 <= x < self.bits().len() ==> !self.bits()[x],
            forall|a: int, b: int|
                0 <= a < self.k() && 0 <= b < self.k() ==> (#[trigger] self.pos_at(key, a)
                    == #[trigger] self.pos_at(key, b) || self.pos_at(key, a) + self.nu()
                    <= self.pos_at(key, b) || self.pos_at(key, b) + self.nu() <= self.pos_at(
                    key,
                    a,
                )),
            0 <= i <= self.k(),
        ensures
            self.inserted_upto(key, pat, i).len() == self.bits().len(),
            forall|j: int, y: int|
                #![trigger self.pos_at(key, j), word_bits(pat, self.nu())[y]]
                0 <= j < self.k() && 0 <= y < self.nu() ==> self.inserted_upto(key, pat, i)[
                    self.pos_at(key, j) + y] == (word_bits(pat, self.nu())[y]
                    && exists|j2: int|
                    0 <= j2 < i && #[trigger] self.pos_at(key, j2) == self.pos_at(key, j)),
        decreases i,
    {
        lemma_word_bits_len(pat, self.nu());
        if i == 0 {
            assert forall|j: int, y: int|
                #![trigger self.pos_at(key, j), word_bits(pat, self.nu())[y]]
                0 <= j < self.k() && 0 <= y < self.nu() implies self.inserted_upto(key, pat, 0)[
                self.pos_at(key, j) + y] == (word_bits(pat, self.nu())[y] && exists|j2: int|
                0 <= j2 < 0 && #[trigger] self.pos_at(key, j2) == self.pos_at(key, j)) by {
                self.lemma_pos_range(key, j);
            }
        } else {
            self.lemma_window_exact(key, pat, i - 1);
            let prev = self.inserted_upto(key, pat, i - 1);
            let cur = self.inserted_upto(key, pat, i);
            let q = self.pos_at(key, i - 1);
            self.lemma_pos_range(key, i - 1);
            assert(cur == or_window(prev, q, self.nu(), pat));
            assert forall|j: int, y: int|
                #![trigger self.pos_at(key, j), word_bits(pat, self.nu())[y]]
                0 <= j < self.k() && 0 <= y < self.nu() implies cur[self.pos_at(key, j) + y] == (
            word_bits(pat, self.nu())[y] && exists|j2: int|
                0 <= j2 < i && #[trigger] self.pos_at(key, j2) == self.pos_at(key, j)) by {
                self.lemma_pos_range(key, j);
                let p = self.pos_at(key, j);
                if p == q {
                    assert(cur[p + y] == (prev[p + y] || word_bits(pat, self.nu())[y]));
                    if word_bits(pat, self.nu())[y] {
                        assert(self.pos_at(key, i - 1) == p);
                        assert(exists|j2: int|
                            0 <= j2 < i && self.pos_at(key, j2) == self.pos_at(key, j));
                    }
                } else {
                    assert(p + self.nu() <= q || q + self.nu() <= p);
                    assert(!(q <= p + y < q + self.nu()));
                    assert(cur[p + y] == prev[p + y]);
                    assert forall|j2: int|
                        0 <= j2 < i && self.pos_at(key, j2) == p implies j2 < i - 1 by {
                        if j2 == i - 1 {
                            assert(self.pos_at(key, j2) == q);
                        }
                    }
                }
            }
        }
    }

    /// When every window equals `pat`, the merged intersection is `pat`.
    proof fn lemma_merged_of_equal(m: Self, key: Seq<u8>, pat: nat, i: int)
        requires
            m.wf(),
            pat < exp2(128),
            forall|j: int| 0 <= j < m.k() ==> #[trigger] m.window(key, j) == pat,
            1 <= i <= m.k(),
        ensures
            m.merged_upto(key, i) == pat,
        decreases i,
    {
        if i == 1 {
            lemma_submask_ones(pat, 128);
            crate::bitops::lemma_and_comm(m.merged_upto(key, 0), pat);
        } else {
            Self::lemma_merged_of_equal(m, key, pat, i - 1);
            lemma_submask_refl(pat);
        }
    }
}

} // verus!
