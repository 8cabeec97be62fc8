//! The b-field cascade: an ordered sequence of members, primary first,
//! each absorbing the keys that stay indeterminate in the ones before it.

use vstd::prelude::*;

use crate::codec::{binom, spec_rank};
use crate::member::{BFieldLookup, BFieldMember};
use crate::BFieldVal;

verus! {

/// The cascaded lookup from member i on: the first member that is not
/// indeterminate decides; all-indeterminate collapses to absent.
pub open spec fn cascade_from<T>(ms: Seq<BFieldMember<T>>, key: Seq<u8>, i: int) -> Option<u32>
    decreases ms.len() - i,
{
    if i < 0 || i >= ms.len() {
        Option::None
    } else {
        match ms[i].lookup_spec(key) {
            BFieldLookup::Indeterminate => cascade_from(ms, key, i + 1),
            BFieldLookup::Found(v) => Option::Some(v),
            BFieldLookup::Missing => Option::None,
        }
    }
}

/// The index of the first member whose mask_or_insert reports success,
/// or the length when none does.
pub open spec fn force_stop<T>(ms: Seq<BFieldMember<T>>, key: Seq<u8>, value: u32, i: int) -> int
    decreases ms.len() - i,
{
    if i < 0 || i >= ms.len() {
        ms.len() as int
    } else if ms[i].mask_result(key, value) {
        i
    } else {
        force_stop(ms, key, value, i + 1)
    }
}

proof fn lemma_force_stop_at<T>(
    ms: Seq<BFieldMember<T>>,
    key: Seq<u8>,
    value: u32,
    j: int,
    stop: int,
)
    requires
        0 <= j <= stop <= ms.len(),
        forall|x: int| j <= x < stop ==> !(#[trigger] ms[x].mask_result(key, value)),
        stop < ms.len() ==> ms[stop].mask_result(key, value),
    ensures
        force_stop(ms, key, value, j) == if stop < ms.len() {
            stop
        } else {
            ms.len() as int
        },
    decreases stop - j,
{
    if j < stop {
        lemma_force_stop_at(ms, key, value, j + 1, stop);
    }
}

/// A b-field: at least one member, and a flag that refuses writes.
pub struct BField<T> {
    pub(crate) members: Vec<BFieldMember<T>>,
    pub(crate) read_only: bool,
}

impl<T> BField<T> {
    /// The members, primary first.
    pub closed spec fn members_view(self) -> Seq<BFieldMember<T>> {
        self.members@
    }

    /// Whether mutating operations are refused.
    pub closed spec fn is_read_only(self) -> bool {
        self.read_only
    }

    /// Well-formedness: a non-empty cascade of well-formed members, each
    /// writable unless the whole b-field is read-only.
    pub open spec fn wf(self) -> bool {
        &&& self.members_view().len() >= 1
        &&& forall|i: int|
            0 <= i < self.members_view().len() ==> (#[trigger] self.members_view()[i]).wf()
        &&& !self.is_read_only() ==> forall|i: int|
            0 <= i < self.members_view().len() ==> (#[trigger] self.members_view()[i]).writable()
    }

    /// Assembles a b-field from members opened or created elsewhere.
    pub fn from_members(members: Vec<BFieldMember<T>>, read_only: bool) -> (r: Self)
        requires
            members@.len() >= 1,
            forall|i: int| 0 <= i < members@.len() ==> (#[trigger] members@[i]).wf(),
            !read_only ==> forall|i: int|
                0 <= i < members@.len() ==> (#[trigger] members@[i]).writable(),
        ensures
            r.wf(),
            r.members_view() == members@,
            r.is_read_only() == read_only,
    {
        BField { members, read_only }
    }

    /// The primary member's parameters and every member's size.
    pub fn build_params(&self) -> (r: (u8, u8, u8, Vec<usize>))
        requires
            self.wf(),
        ensures
            r.0 == self.members_view()[0].k(),
            r.1 == self.members_view()[0].nu(),
            r.2 == self.members_view()[0].kappa(),
            r.3@.len() == self.members_view().len(),
            forall|i: int|
                0 <= i < self.members_view().len() ==> r.3@[i]
                    == (#[trigger] self.members_view()[i]).bits().len(),
    {
        let (_, n_hashes, marker_width, n_marker_bits) = self.members[0].info();
        let mut sizes: Vec<usize> = Vec::new();
        let n = self.members.len();
        let mut i: usize = 0;
        while i < n
            invariant
                i <= n,
                self.wf(),
                n == self.members_view().len(),
                sizes@.len() == i,
                forall|j: int|
                    0 <= j < i ==> sizes@[j] == (#[trigger] self.members_view()[j]).bits().len(),
            decreases n - i,
        {
            let (sz, _, _, _) = self.members[i].info();
            sizes.push(sz);
            i = i + 1;
        }
        (n_hashes, marker_width, n_marker_bits, sizes)
    }

    /// The user parameters stored with the primary member.
    pub fn params(&self) -> (r: &Option<T>)
        requires
            self.wf(),
        ensures
            r == self.members_view()[0].other_spec(),
    {
        self.members[0].other_ref()
    }

    /// Replaces the primary member's user parameters in memory; the file
    /// is not rewritten.
    pub fn mock_params(&mut self, params: T)
        requires
            old(self).wf(),
        ensures
            final(self).wf(),
            final(self).is_read_only() == old(self).is_read_only(),
            final(self).members_view().len() == old(self).members_view().len(),
            final(self).members_view()[0].other_spec() == Option::Some(params),
            final(self).members_view()[0].bits() == old(self).members_view()[0].bits(),
            ({
                let ms = old(self).members_view();
                let fs = final(self).members_view();
                forall|i: int| 1 <= i < ms.len() ==> #[trigger] fs[i] == ms[i]
            }),
    {
        let mr = &mut self.members[0];
        mr.set_other(Some(params));
    }

    /// Inserts the key at the given pass: refused when an earlier member
    /// already resolves the key; otherwise the pass member absorbs it.
    pub fn insert(&mut self, key: &[u8], value: BFieldVal, pass: usize) -> (r: bool)
        requires
            old(self).wf(),
            !old(self).is_read_only(),
            pass < old(self).members_view().len(),
            (value as nat) < binom(
                old(self).members_view()[pass as int].nu(),
                old(self).members_view()[pass as int].kappa(),
            ),
        ensures
            final(self).wf(),
            final(self).is_read_only() == old(self).is_read_only(),
            final(self).members_view().len() == old(self).members_view().len(),
            r == (forall|i: int|
                0 <= i < pass ==> (#[trigger] old(self).members_view()[i].lookup_spec(key@))
                    is Indeterminate),
            !r ==> final(self).members_view() == old(self).members_view(),
            r ==> ({
                let ms = old(self).members_view();
                let fs = final(self).members_view();
                &&& forall|i: int| 0 <= i < ms.len() && i != pass ==> #[trigger] fs[i] == ms[i]
                &&& fs[pass as int].bits() == ms[pass as int].inserted(
                    key@,
                    spec_rank(value, ms[pass as int].kappa()),
                )
                &&& fs[pass as int].k() == ms[pass as int].k()
                &&& fs[pass as int].nu() == ms[pass as int].nu()
                &&& fs[pass as int].kappa() == ms[pass as int].kappa()
                &&& fs[pass as int].other_spec() == ms[pass as int].other_spec()
            }),
    {
        let mut i: usize = 0;
        while i < pass
            invariant
                i <= pass,
                self == old(self),
                old(self).wf(),
                pass < old(self).members_view().len(),
                forall|j: int|
                    0 <= j < i ==> (#[trigger] old(self).members_view()[j].lookup_spec(key@))
                        is Indeterminate,
            decreases pass - i,
        {
            let verdict = self.members[i].get(key);
            match verdict {
                BFieldLookup::Indeterminate => {},
                _ => {
                    return false;
                },
            }
            i = i + 1;
        }
        let mr = &mut self.members[pass];
        mr.insert(key, value);
        true
    }

    /// The cascaded lookup: walks the members in order and takes the
    /// first decisive verdict.
    pub fn get(&self, key: &[u8]) -> (r: Option<BFieldVal>)
        requires
            self.wf(),
        ensures
            r == cascade_from(self.members_view(), key@, 0),
    {
        let n = self.members.len();
        let mut i: usize = 0;
        while i < n
            invariant
                i <= n,
                self.wf(),
                n == self.members_view().len(),
                cascade_from(self.members_view(), key@, 0) == cascade_from(
                    self.members_view(),
                    key@,
                    i as int,
                ),
            decreases n - i,
        {
            let verdict = self.members[i].get(key);
            match verdict {
                BFieldLookup::Indeterminate => {
                    i = i + 1;
                },
                BFieldLookup::Found(v) => {
                    return Some(v);
                },
                BFieldLookup::Missing => {
                    return None;
                },
            }
        }
        None
    }

    /// Applies mask_or_insert member by member until one accepts the key
    /// or already carries it correctly; every member before that point is
    /// left masked.
    pub fn force_insert(&mut self, key: &[u8], value: BFieldVal)
        requires
            old(self).wf(),
            !old(self).is_read_only(),
            forall|i: int|
                0 <= i < old(self).members_view().len() ==> (value as nat) < binom(
                    (#[trigger] old(self).members_view()[i]).nu(),
                    old(self).members_view()[i].kappa(),
                ),
        ensures
            final(self).wf(),
            final(self).is_read_only() == old(self).is_read_only(),
            final(self).members_view().len() == old(self).members_view().len(),
            ({
                let ms = old(self).members_view();
                let fs = final(self).members_view();
                let stop = force_stop(ms, key@, value, 0);
                &&& forall|i: int|
                    0 <= i < ms.len() && i <= stop ==> (#[trigger] fs[i]).bits()
                        == ms[i].mask_state(key@, value)
                &&& forall|i: int| stop < i < ms.len() ==> #[trigger] fs[i] == ms[i]
                &&& forall|i: int|
                    0 <= i < ms.len() ==> (#[trigger] fs[i]).k() == ms[i].k() && fs[i].nu()
                        == ms[i].nu() && fs[i].kappa() == ms[i].kappa() && fs[i].other_spec()
                        == ms[i].other_spec()
            }),
    {
        let n = self.members.len();
        let mut i: usize = 0;
        while i < n
            invariant
                i <= n,
                old(self).wf(),
                !old(self).is_read_only(),
                n == old(self).members_view().len(),
                self.members@.len() == n,
                self.read_only == old(self).is_read_only(),
                forall|x: int|
                    0 <= x < n ==> (value as nat) < binom(
                        (#[trigger] old(self).members_view()[x]).nu(),
                        old(self).members_view()[x].kappa(),
                    ),
                forall|x: int|
                    0 <= x < i ==> !(#[trigger] old(self).members_view()[x].mask_result(
                        key@,
                        value,
                    )),
                forall|x: int|
                    0 <= x < i ==> (#[trigger] self.members@[x]).bits() == old(
                        self,
                    ).members_view()[x].mask_state(key@, value)
                ,
                forall|x: int|
                    i <= x < n ==> #[trigger] self.members@[x] == old(self).members_view()[x],
                forall|x: int|
                    0 <= x < n ==> (#[trigger] self.members@[x]).wf() && self.members@[x].writable()
                        && self.members@[x].k() == old(self).members_view()[x].k()
                        && self.members@[x].nu() == old(self).members_view()[x].nu()
                        && self.members@[x].kappa() == old(self).members_view()[x].kappa()
                        && self.members@[x].other_spec() == old(self).members_view()[x].other_spec(),
            decreases n - i,
        {
            let mr = &mut self.members[i];
            let accepted = mr.mask_or_insert(key, value);
            if accepted {
                proof {
                    lemma_force_stop_at(old(self).members_view(), key@, value, 0, i as int);
                }
                return ;
            }
            i = i + 1;
        }
        proof {
            lemma_force_stop_at(old(self).members_view(), key@, value, 0, n as int);
        }
    }

    /// Size and marker parameters of every member, in order.
    pub fn info(&self) -> (r: Vec<(usize, u8, u8, u8)>)
        requires
            self.wf(),
        ensures
            r@.len() == self.members_view().len(),
            forall|i: int|
                0 <= i < self.members_view().len() ==> {
                    let m = #[trigger] self.members_view()[i];
                    r@[i].0 == m.bits().len() && r@[i].1 == m.k() && r@[i].2 == m.nu() && r@[i].3
                        == m.kappa()
                },
    {
        let n = self.members.len();
        let mut out: Vec<(usize, u8, u8, u8)> = Vec::new();
        let mut i: usize = 0;
        while i < n
            invariant
                i <= n,
                self.wf(),
                n == self.members_view().len(),
                out@.len() == i,
                forall|j: int|
                    0 <= j < i ==> {
                        let m = #[trigger] self.members_view()[j];
                        out@[j].0 == m.bits().len() && out@[j].1 == m.k() && out@[j].2 == m.nu()
                            && out@[j].3 == m.kappa()
                    },
            decreases n - i,
        {
            out.push(self.members[i].info());
            i = i + 1;
        }
        out
    }
}

/// Cascade soundness in the regime a multi-pass build works in: after
/// `value` was inserted for `key` into the primary (whose bits may have
/// grown further since) while the secondaries are still untouched, the
/// cascaded lookup yields the inserted value or nothing, never a
/// different value.
pub proof fn lemma_cascade_sound<T>(
    ms0: Seq<BFieldMember<T>>,
    ms1: Seq<BFieldMember<T>>,
    key: Seq<u8>,
    value: u32,
)
    requires
        ms0.len() == ms1.len(),
        ms0.len() >= 1,
        ms0[0].wf(),
        forall|i: int| 0 <= i < ms1.len() ==> (#[trigger] ms1[i]).wf(),
        ms1[0].k() == ms0[0].k(),
        ms1[0].nu() == ms0[0].nu(),
        ms1[0].kappa() == ms0[0].kappa(),
        ms1[0].bits().len() == ms0[0].bits().len(),
        (value as nat) < binom(ms0[0].nu(), ms0[0].kappa()),
        forall|x: int|
            0 <= x < ms0[0].bits().len() && ms0[0].inserted(
                key,
                spec_rank(value, ms0[0].kappa()),
            )[x] ==> ms1[0].bits()[x],
        forall|i: int, x: int|
            1 <= i < ms1.len() && 0 <= x < ms1[i].bits().len() ==> !(#[trigger] ms1[i].bits()[x]),
    ensures
        cascade_from(ms1, key, 0) == Option::Some(value) || cascade_from(ms1, key, 0)
            == Option::<u32>::None,
{
    BFieldMember::lemma_lookup_after_insert(ms0[0], ms1[0], key, value);
    match ms1[0].lookup_spec(key) {
        BFieldLookup::Indeterminate => {
            if ms1.len() > 1 {
                ms1[1].lemma_fresh_lookup(key);
                assert(cascade_from(ms1, key, 1) == Option::<u32>::None);
            }
        },
        BFieldLookup::Found(v) => {
            assert(v == value);
        },
        BFieldLookup::Missing => {
            assert(false);
        },
    }
}

} // verus!
