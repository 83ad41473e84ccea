//! Quadruples of sequences and the correlation identities they are checked
//! against: periodic autocorrelation and cross-correlation, periodic
//! complementarity, amicability and symmetry.
use vstd::prelude::*;
use vstd::string::*;
use crate::rowsum::{sequence_to_string, sign_text};
use crate::symmetries::{SequenceType, generators_of};
use crate::equivalence::{contains_quad, equivalence_class, generate_equivalence_class, model_ok};
use vstd::arithmetic::div_mod::{
    lemma_add_mod_noop_right, lemma_mod_bound, lemma_mod_add_multiples_vanish, lemma_sub_mod_noop_right,
};

verus! {

/// Names one of the four component sequences of a quadruple.
#[derive(Clone, Copy, Debug, PartialEq, Eq, Structural)]
pub enum SequenceTag {
    X,
    Y,
    Z,
    W,
}

/// Position of the component that a tag names, in the order `X, Y, Z, W`.
pub open spec fn tag_index(tag: SequenceTag) -> int {
    match tag {
        SequenceTag::X => 0,
        SequenceTag::Y => 1,
        SequenceTag::Z => 2,
        SequenceTag::W => 3,
    }
}

/// Every entry is `+1` or `-1`.
pub open spec fn is_antipodal(s: Seq<i8>) -> bool {
    forall|i: int| 0 <= i < s.len() ==> (#[trigger] s[i] == 1 || s[i] == -1)
}

/// Sum of `s[i] * s[(i + t) mod n]` over the first `k` indices.
pub open spec fn autocorrelation_upto(s: Seq<i8>, t: int, k: int) -> int
    decreases k,
{
    if k <= 0 {
        0
    } else {
        autocorrelation_upto(s, t, k - 1) + s[k - 1] * s[(k - 1 + t) % (s.len() as int)]
    }
}

/// Periodic autocorrelation of `s` at shift `t`.
pub open spec fn autocorrelation(s: Seq<i8>, t: int) -> int {
    autocorrelation_upto(s, t, s.len() as int)
}

/// Sum of `s1[i] * s2[(i - t) mod n]` over the first `k` indices.
pub open spec fn crosscorrelation_upto(s1: Seq<i8>, s2: Seq<i8>, t: int, k: int) -> int
    decreases k,
{
    if k <= 0 {
        0
    } else {
        crosscorrelation_upto(s1, s2, t, k - 1) + s1[k - 1] * s2[(k - 1 - t) % (s1.len() as int)]
    }
}

/// Periodic cross-correlation of `s1` against `s2` at shift `t`.
pub open spec fn crosscorrelation(s1: Seq<i8>, s2: Seq<i8>, t: int) -> int {
    crosscorrelation_upto(s1, s2, t, s1.len() as int)
}

pub proof fn lemma_autocorrelation_upto_bound(s: Seq<i8>, t: int, k: int)
    requires
        is_antipodal(s),
        0 <= k <= s.len(),
    ensures
        -k <= autocorrelation_upto(s, t, k) <= k,
    decreases k,
{
    if k > 0 {
        lemma_autocorrelation_upto_bound(s, t, k - 1);
        let j = (k - 1 + t) % (s.len() as int);
        lemma_mod_bound(k - 1 + t, s.len() as int);
        assert(s[k - 1] == 1 || s[k - 1] == -1);
        assert(s[j] == 1 || s[j] == -1);
    }
}

pub proof fn lemma_crosscorrelation_upto_bound(s1: Seq<i8>, s2: Seq<i8>, t: int, k: int)
    requires
        is_antipodal(s1),
        is_antipodal(s2),
        s1.len() == s2.len(),
        0 <= k <= s1.len(),
    ensures
        -k <= crosscorrelation_upto(s1, s2, t, k) <= k,
    decreases k,
{
    if k > 0 {
        lemma_crosscorrelation_upto_bound(s1, s2, t, k - 1);
        let j = (k - 1 - t) % (s1.len() as int);
        lemma_mod_bound(k - 1 - t, s1.len() as int);
        assert(s1[k - 1] == 1 || s1[k - 1] == -1);
        assert(s2[j] == 1 || s2[j] == -1);
    }
}

/// Periodic autocorrelation of an antipodal sequence at shift `offset`.
pub fn periodic_autocorrelation(seq: &Vec<i8>, offset: usize) -> (r: isize)
    requires
        is_antipodal(seq@),
        seq@.len() <= isize::MAX,
    ensures
        r == autocorrelation(seq@, offset as int),
{
    let n = seq.len();
    let mut res: isize = 0;
    if n == 0 {
        return 0;
    }
    let shift = offset % n;
    let mut i: usize = 0;
    while i < n
        invariant
            n == seq@.len(),
            n > 0,
            n <= isize::MAX,
            shift == offset % n,
            is_antipodal(seq@),
            0 <= i <= n,
            res == autocorrelation_upto(seq@, offset as int, i as int),
        decreases n - i,
    {
        proof {
            lemma_autocorrelation_upto_bound(seq@, offset as int, i as int);
            assert((i + shift) % (n as int) == (i + offset) % (n as int)) by {
                lemma_add_mod_noop_right(i as int, offset as int, n as int);
            }
        }
        let j = (i + shift) % n;
        let x = seq[i];
        let y = seq[j];
        assert(x == 1 || x == -1);
        assert(y == 1 || y == -1);
        let p: i8 = if x == y { 1 } else { -1 };
        assert(p == x * y);
        res = res + p as isize;
        i = i + 1;
    }
    res
}

/// Periodic cross-correlation of `seq1` against `seq2` at shift `offset`.
pub fn cross_correlation(seq1: &Vec<i8>, seq2: &Vec<i8>, offset: usize) -> (r: isize)
    requires
        is_antipodal(seq1@),
        is_antipodal(seq2@),
        seq1@.len() == seq2@.len(),
        seq1@.len() <= isize::MAX,
    ensures
        r == crosscorrelation(seq1@, seq2@, offset as int),
{
    let n = seq1.len();
    let mut res: isize = 0;
    if n == 0 {
        return 0;
    }
    let shift = offset % n;
    let mut i: usize = 0;
    while i < n
        invariant
            n == seq1@.len(),
            n == seq2@.len(),
            n > 0,
            n <= isize::MAX,
            shift == offset % n,
            is_antipodal(seq1@),
            is_antipodal(seq2@),
            0 <= i <= n,
            res == crosscorrelation_upto(seq1@, seq2@, offset as int, i as int),
        decreases n - i,
    {
        proof {
            lemma_crosscorrelation_upto_bound(seq1@, seq2@, offset as int, i as int);
            assert((i + n - shift) % (n as int) == (i - offset) % (n as int)) by {
                lemma_sub_mod_noop_right(i as int, offset as int, n as int);
                lemma_mod_add_multiples_vanish(i - shift, n as int);
            }
        }
        let j = (i + n - shift) % n;
        let x = seq1[i];
        let y = seq2[j];
        assert(x == 1 || x == -1);
        assert(y == 1 || y == -1);
        let p: i8 = if x == y { 1 } else { -1 };
        assert(p == x * y);
        res = res + p as isize;
        i = i + 1;
    }
    res
}

/// The four components of a well-formed quadruple all have length `n`.
pub open spec fn model_wf(q: Seq<Seq<i8>>, n: nat) -> bool {
    &&& q.len() == 4
    &&& forall|k: int| 0 <= k < 4 ==> (#[trigger] q[k]).len() == n
}

/// Every component of the quadruple is antipodal.
pub open spec fn model_antipodal(q: Seq<Seq<i8>>) -> bool {
    forall|k: int| 0 <= k < q.len() ==> is_antipodal(#[trigger] q[k])
}

/// Sum of the four periodic autocorrelations at shift `t`.
pub open spec fn autocorrelation_total(q: Seq<Seq<i8>>, t: int) -> int {
    autocorrelation(q[0], t) + autocorrelation(q[1], t) + autocorrelation(q[2], t)
        + autocorrelation(q[3], t)
}

/// The four autocorrelations cancel at every shift in `1..n`.
pub open spec fn periodic_complementary(q: Seq<Seq<i8>>, n: nat) -> bool {
    forall|t: int| 1 <= t < n ==> #[trigger] autocorrelation_total(q, t) == 0
}

/// Antisymmetric part of the cross-correlation of `s1` against `s2`.
pub open spec fn cross_difference(s1: Seq<i8>, s2: Seq<i8>, t: int) -> int {
    crosscorrelation(s1, s2, t) - crosscorrelation(s2, s1, t)
}

/// The three cross-correlation identities hold at shift `t`.
pub open spec fn cross_identity_at(q: Seq<Seq<i8>>, t: int) -> bool {
    &&& cross_difference(q[0], q[1], t) == cross_difference(q[3], q[2], t)
    &&& cross_difference(q[0], q[2], t) == cross_difference(q[1], q[3], t)
    &&& cross_difference(q[0], q[3], t) == cross_difference(q[2], q[1], t)
}

/// The cross-correlation identities hold at every shift in `0..n`.
pub open spec fn cross_identity(q: Seq<Seq<i8>>, n: nat) -> bool {
    forall|t: int| 0 <= t < n ==> #[trigger] cross_identity_at(q, t)
}

/// Every pair of components has a symmetric cross-correlation at shift `t`.
pub open spec fn amicable_at(q: Seq<Seq<i8>>, t: int) -> bool {
    forall|i: int, j: int|
        0 <= i < 4 && 0 <= j < 4 ==> #[trigger] crosscorrelation(q[i], q[j], t)
            == crosscorrelation(q[j], q[i], t)
}

/// Every pair of components has symmetric cross-correlations at every shift in `1..n`.
pub open spec fn amicable(q: Seq<Seq<i8>>, n: nat) -> bool {
    forall|t: int| 1 <= t < n ==> #[trigger] amicable_at(q, t)
}

/// Every component reads the same from index `t` and from index `n - t`.
pub open spec fn symmetric(q: Seq<Seq<i8>>, n: nat) -> bool {
    forall|k: int, t: int|
        0 <= k < 4 && 1 <= t <= n / 2 ==> #[trigger] q[k][t] == q[k][n - t]
}

/// A quadruple that satisfies the identities of a Williamson-type search.
pub open spec fn valid_qts(q: Seq<Seq<i8>>, n: nat) -> bool {
    periodic_complementary(q, n) && cross_identity(q, n)
}

/// A quadruple that satisfies the identities of the given sequence type.
pub open spec fn valid_of_type(q: Seq<Seq<i8>>, n: nat, seqtype: SequenceType) -> bool {
    match seqtype {
        SequenceType::QuaternionType => valid_qts(q, n),
        SequenceType::WilliamsonType => valid_qts(q, n) && amicable(q, n),
        SequenceType::Williamson => periodic_complementary(q, n) && symmetric(q, n),
        _ => false,
    }
}

/// Four sequences of a common length `size`.
#[derive(Clone, Debug)]
pub struct QuadSeq {
    pub size: usize,
    pub a: Vec<i8>,
    pub b: Vec<i8>,
    pub c: Vec<i8>,
    pub d: Vec<i8>,
}

impl View for QuadSeq {
    type V = Seq<Seq<i8>>;

    open spec fn view(&self) -> Seq<Seq<i8>> {
        seq![self.a@, self.b@, self.c@, self.d@]
    }
}

/// Exact equality of two sequences.
pub fn same_sequence(s1: &Vec<i8>, s2: &Vec<i8>) -> (r: bool)
    ensures
        r == (s1@ == s2@),
{
    if s1.len() != s2.len() {
        return false;
    }
    let mut i: usize = 0;
    while i < s1.len()
        invariant
            s1@.len() == s2@.len(),
            0 <= i <= s1@.len(),
            forall|j: int| 0 <= j < i ==> s1@[j] == s2@[j],
        decreases s1@.len() - i,
    {
        if s1[i] != s2[i] {
            return false;
        }
        i = i + 1;
    }
    assert(s1@ =~= s2@);
    true
}

/// A copy of a sequence with the same entries.
pub fn copy_sequence(s: &Vec<i8>) -> (r: Vec<i8>)
    ensures
        r@ == s@,
{
    let mut r: Vec<i8> = Vec::new();
    let mut i: usize = 0;
    while i < s.len()
        invariant
            0 <= i <= s@.len(),
            r@ == s@.subrange(0, i as int),
        decreases s@.len() - i,
    {
        r.push(s[i]);
        i = i + 1;
        assert(r@ =~= s@.subrange(0, i as int));
    }
    assert(r@ =~= s@);
    r
}

impl QuadSeq {
    /// The four components have length `size`.
    pub open spec fn wf(&self) -> bool {
        &&& self.a@.len() == self.size
        &&& self.b@.len() == self.size
        &&& self.c@.len() == self.size
        &&& self.d@.len() == self.size
    }

    /// Every entry of every component is `+1` or `-1`.
    pub open spec fn antipodal(&self) -> bool {
        model_antipodal(self@)
    }

    /// A quadruple of length `size` whose entries are all `-1`.
    pub fn new(size: usize) -> (r: QuadSeq)
        ensures
            r.wf(),
            r.size == size,
            forall|k: int, i: int| 0 <= k < 4 && 0 <= i < size ==> #[trigger] r@[k][i] == -1,
    {
        QuadSeq {
            size,
            a: vec![-1i8; size],
            b: vec![-1i8; size],
            c: vec![-1i8; size],
            d: vec![-1i8; size],
        }
    }

    /// The common length of the components.
    pub fn search_size(&self) -> (r: usize)
        ensures
            r == self.size,
    {
        self.size
    }

    /// The common length of the components.
    pub fn size(&self) -> (r: usize)
        ensures
            r == self.size,
    {
        self.size
    }

    /// A copy with the same components.
    pub fn duplicate(&self) -> (r: QuadSeq)
        ensures
            r@ == self@,
            r.size == self.size,
    {
        QuadSeq {
            size: self.size,
            a: copy_sequence(&self.a),
            b: copy_sequence(&self.b),
            c: copy_sequence(&self.c),
            d: copy_sequence(&self.d),
        }
    }

    /// Exact equality of the components.
    pub fn same_as(&self, other: &QuadSeq) -> (r: bool)
        ensures
            r == (self@ == other@),
    {
        let r = same_sequence(&self.a, &other.a) && same_sequence(&self.b, &other.b)
            && same_sequence(&self.c, &other.c) && same_sequence(&self.d, &other.d);
        proof {
            if r {
                assert(self@ =~= other@);
            } else {
                if self@ == other@ {
                    assert(self@[0] == other@[0]);
                    assert(self@[1] == other@[1]);
                    assert(self@[2] == other@[2]);
                    assert(self@[3] == other@[3]);
                }
            }
        }
        r
    }

    /// A copy of the component that `seqtag` names.
    pub fn sequence(&self, seqtag: SequenceTag) -> (r: Vec<i8>)
        ensures
            r@ == self@[tag_index(seqtag)],
    {
        match seqtag {
            SequenceTag::X => copy_sequence(&self.a),
            SequenceTag::Y => copy_sequence(&self.b),
            SequenceTag::Z => copy_sequence(&self.c),
            SequenceTag::W => copy_sequence(&self.d),
        }
    }

    /// Copies of the four components, in the order `X, Y, Z, W`.
    pub fn sequences(&self) -> (r: (Vec<i8>, Vec<i8>, Vec<i8>, Vec<i8>))
        ensures
            r.0@ == self@[0],
            r.1@ == self@[1],
            r.2@ == self@[2],
            r.3@ == self@[3],
    {
        (
            copy_sequence(&self.a),
            copy_sequence(&self.b),
            copy_sequence(&self.c),
            copy_sequence(&self.d),
        )
    }

    /// The four entries found at `index`.
    pub fn values(&self, index: usize) -> (r: (i8, i8, i8, i8))
        requires
            self.wf(),
            index < self.size,
        ensures
            r == (self@[0][index as int], self@[1][index as int], self@[2][index as int], self@[3][index as int]),
    {
        (self.a[index], self.b[index], self.c[index], self.d[index])
    }

    /// Replaces the four components.
    pub fn set_all_values(&mut self, values: (&Vec<i8>, &Vec<i8>, &Vec<i8>, &Vec<i8>))
        requires
            values.0@.len() == old(self).size,
            values.1@.len() == old(self).size,
            values.2@.len() == old(self).size,
            values.3@.len() == old(self).size,
        ensures
            final(self).size == old(self).size,
            final(self)@ == seq![values.0@, values.1@, values.2@, values.3@],
            final(self).wf(),
    {
        let (a, b, c, d) = values;
        self.a = copy_sequence(a);
        self.b = copy_sequence(b);
        self.c = copy_sequence(c);
        self.d = copy_sequence(d);
    }

    /// Replaces the component that `tag` names.
    pub fn set_sequence(&mut self, seq: &Vec<i8>, tag: &SequenceTag)
        requires
            seq@.len() == old(self).size,
            old(self).wf(),
        ensures
            final(self).size == old(self).size,
            final(self)@ == old(self)@.update(tag_index(*tag), seq@),
            final(self).wf(),
    {
        match tag {
            SequenceTag::X => self.a = copy_sequence(seq),
            SequenceTag::Y => self.b = copy_sequence(seq),
            SequenceTag::Z => self.c = copy_sequence(seq),
            SequenceTag::W => self.d = copy_sequence(seq),
        }
        assert(self@ =~= old(self)@.update(tag_index(*tag), seq@));
    }

    /// Sets one entry of the component that `tag` names.
    pub fn set_single_value(&mut self, value: i8, tag: &SequenceTag, index: usize)
        requires
            old(self).wf(),
            index < old(self).size,
        ensures
            final(self).size == old(self).size,
            final(self)@ == old(self)@.update(
                tag_index(*tag),
                old(self)@[tag_index(*tag)].update(index as int, value),
            ),
            final(self).wf(),
    {
        match tag {
            SequenceTag::X => self.a.set(index, value),
            SequenceTag::Y => self.b.set(index, value),
            SequenceTag::Z => self.c.set(index, value),
            SequenceTag::W => self.d.set(index, value),
        }
        assert(self@ =~= old(self)@.update(
            tag_index(*tag),
            old(self)@[tag_index(*tag)].update(index as int, value),
        ));
    }

    /// Sets the entry at `index` of all four components, in the order `X, Y, Z, W`.
    pub fn set_sequence_value(&mut self, value: &(i8, i8, i8, i8), index: usize)
        requires
            old(self).wf(),
            index < old(self).size,
        ensures
            final(self).size == old(self).size,
            final(self)@ == seq![
                old(self)@[0].update(index as int, value.0),
                old(self)@[1].update(index as int, value.1),
                old(self)@[2].update(index as int, value.2),
                old(self)@[3].update(index as int, value.3),
            ],
            final(self).wf(),
    {
        self.a.set(index, value.0);
        self.b.set(index, value.1);
        self.c.set(index, value.2);
        self.d.set(index, value.3);
    }

    /// The four autocorrelations cancel at every shift in `1..size`.
    pub fn is_periodic_complementary(&self) -> (r: bool)
        requires
            self.wf(),
            self.antipodal(),
            4 * self.size <= isize::MAX,
        ensures
            r == periodic_complementary(self@, self.size as nat),
    {
        let mut offset: usize = 1;
        while offset < self.size
            invariant
                self.wf(),
                self.antipodal(),
                4 * self.size <= isize::MAX,
                1 <= offset,
                forall|t: int| 1 <= t < offset ==> #[trigger] autocorrelation_total(self@, t) == 0,
            decreases self.size - offset,
        {
            assert(is_antipodal(self@[0]) && is_antipodal(self@[1]) && is_antipodal(self@[2])
                && is_antipodal(self@[3]));
            let pa = periodic_autocorrelation(&self.a, offset);
            let pb = periodic_autocorrelation(&self.b, offset);
            let pc = periodic_autocorrelation(&self.c, offset);
            let pd = periodic_autocorrelation(&self.d, offset);
            proof {
                lemma_autocorrelation_upto_bound(self@[0], offset as int, self.size as int);
                lemma_autocorrelation_upto_bound(self@[1], offset as int, self.size as int);
                lemma_autocorrelation_upto_bound(self@[2], offset as int, self.size as int);
                lemma_autocorrelation_upto_bound(self@[3], offset as int, self.size as int);
            }
            if pa + pb + pc + pd != 0 {
                assert(self@[0] == self.a@ && self@[1] == self.b@ && self@[2] == self.c@ && self@[3] == self.d@);
                assert(autocorrelation_total(self@, offset as int) != 0);
                return false;
            }
            offset = offset + 1;
        }
        true
    }

    /// Every pair of components has symmetric cross-correlations at every shift in `1..size`.
    pub fn is_amicable(&self) -> (r: bool)
        requires
            self.wf(),
            self.antipodal(),
            4 * self.size <= isize::MAX,
        ensures
            r == amicable(self@, self.size as nat),
    {
        let mut offset: usize = 1;
        while offset < self.size
            invariant
                self.wf(),
                self.antipodal(),
                4 * self.size <= isize::MAX,
                1 <= offset,
                forall|t: int| 1 <= t < offset ==> #[trigger] amicable_at(self@, t),
            decreases self.size - offset,
        {
            assert(is_antipodal(self@[0]) && is_antipodal(self@[1]) && is_antipodal(self@[2])
                && is_antipodal(self@[3]));
            let ok = cross_correlation(&self.a, &self.b, offset) == cross_correlation(&self.b, &self.a, offset)
                && cross_correlation(&self.a, &self.c, offset) == cross_correlation(&self.c, &self.a, offset)
                && cross_correlation(&self.a, &self.d, offset) == cross_correlation(&self.d, &self.a, offset)
                && cross_correlation(&self.b, &self.c, offset) == cross_correlation(&self.c, &self.b, offset)
                && cross_correlation(&self.b, &self.d, offset) == cross_correlation(&self.d, &self.b, offset)
                && cross_correlation(&self.c, &self.d, offset) == cross_correlation(&self.d, &self.c, offset);
            if !ok {
                proof {
                    assert(self@[0] == self.a@ && self@[1] == self.b@ && self@[2] == self.c@ && self@[3] == self.d@);
                    let t = offset as int;
                    let q = self@;
                    assert(!(crosscorrelation(q[0], q[1], t) == crosscorrelation(q[1], q[0], t)
                        && crosscorrelation(q[0], q[2], t) == crosscorrelation(q[2], q[0], t)
                        && crosscorrelation(q[0], q[3], t) == crosscorrelation(q[3], q[0], t)
                        && crosscorrelation(q[1], q[2], t) == crosscorrelation(q[2], q[1], t)
                        && crosscorrelation(q[1], q[3], t) == crosscorrelation(q[3], q[1], t)
                        && crosscorrelation(q[2], q[3], t) == crosscorrelation(q[3], q[2], t)));
                    assert(!amicable_at(q, t));
                }
                return false;
            }
            assert(amicable_at(self@, offset as int)) by {
                assert forall|i: int, j: int| 0 <= i < 4 && 0 <= j < 4 implies
                    #[trigger] crosscorrelation(self@[i], self@[j], offset as int)
                        == crosscorrelation(self@[j], self@[i], offset as int) by {
                    if i == j {
                    } else if i < j {
                    } else {
                    }
                }
            }
            offset = offset + 1;
        }
        true
    }

    /// The three cross-correlation identities hold at every shift in `0..size`.
    pub fn verify_cross_correlation(&self) -> (r: bool)
        requires
            self.wf(),
            self.antipodal(),
            4 * self.size <= isize::MAX,
        ensures
            r == cross_identity(self@, self.size as nat),
    {
        let mut offset: usize = 0;
        while offset < self.size
            invariant
                self.wf(),
                self.antipodal(),
                4 * self.size <= isize::MAX,
                forall|t: int| 0 <= t < offset ==> #[trigger] cross_identity_at(self@, t),
            decreases self.size - offset,
        {
            assert(is_antipodal(self@[0]) && is_antipodal(self@[1]) && is_antipodal(self@[2])
                && is_antipodal(self@[3]));
            let ab = cross_correlation(&self.a, &self.b, offset);
            let ba = cross_correlation(&self.b, &self.a, offset);
            let ac = cross_correlation(&self.a, &self.c, offset);
            let ca = cross_correlation(&self.c, &self.a, offset);
            let ad = cross_correlation(&self.a, &self.d, offset);
            let da = cross_correlation(&self.d, &self.a, offset);
            let bc = cross_correlation(&self.b, &self.c, offset);
            let cb = cross_correlation(&self.c, &self.b, offset);
            let bd = cross_correlation(&self.b, &self.d, offset);
            let db = cross_correlation(&self.d, &self.b, offset);
            let cd = cross_correlation(&self.c, &self.d, offset);
            let dc = cross_correlation(&self.d, &self.c, offset);
            proof {
                let n = self.size as int;
                let t = offset as int;
                lemma_crosscorrelation_upto_bound(self@[0], self@[1], t, n);
                lemma_crosscorrelation_upto_bound(self@[1], self@[0], t, n);
                lemma_crosscorrelation_upto_bound(self@[0], self@[2], t, n);
                lemma_crosscorrelation_upto_bound(self@[2], self@[0], t, n);
                lemma_crosscorrelation_upto_bound(self@[0], self@[3], t, n);
                lemma_crosscorrelation_upto_bound(self@[3], self@[0], t, n);
                lemma_crosscorrelation_upto_bound(self@[1], self@[2], t, n);
                lemma_crosscorrelation_upto_bound(self@[2], self@[1], t, n);
                lemma_crosscorrelation_upto_bound(self@[1], self@[3], t, n);
                lemma_crosscorrelation_upto_bound(self@[3], self@[1], t, n);
                lemma_crosscorrelation_upto_bound(self@[2], self@[3], t, n);
                lemma_crosscorrelation_upto_bound(self@[3], self@[2], t, n);
            }
            if !(ab - ba == dc - cd && ac - ca == bd - db && ad - da == cb - bc) {
                assert(self@[0] == self.a@ && self@[1] == self.b@ && self@[2] == self.c@ && self@[3] == self.d@);
                assert(!cross_identity_at(self@, offset as int));
                return false;
            }
            offset = offset + 1;
        }
        true
    }

    /// Every component reads the same from index `t` and from index `size - t`.
    pub fn is_symmetric(&self) -> (r: bool)
        requires
            self.wf(),
        ensures
            r == symmetric(self@, self.size as nat),
    {
        let n = self.size;
        let mut t: usize = 1;
        while t <= n / 2
            invariant
                self.wf(),
                n == self.size,
                1 <= t <= n / 2 + 1,
                forall|k: int, u: int| 0 <= k < 4 && 1 <= u < t ==> #[trigger] self@[k][u] == self@[k][n - u],
            decreases n / 2 + 1 - t,
        {
            let (p0, p1, p2, p3) = self.values(t);
            let (q0, q1, q2, q3) = self.values(n - t);
            if p0 != q0 || p1 != q1 || p2 != q2 || p3 != q3 {
                assert(self@[0][t as int] != self@[0][n - t] || self@[1][t as int] != self@[1][n - t]
                    || self@[2][t as int] != self@[2][n - t] || self@[3][t as int] != self@[3][n - t]);
                return false;
            }
            t = t + 1;
        }
        true
    }

    /// Periodic complementary and satisfying the cross-correlation identities.
    pub fn verify_qts(&self) -> (r: bool)
        requires
            self.wf(),
            self.antipodal(),
            4 * self.size <= isize::MAX,
        ensures
            r == valid_of_type(self@, self.size as nat, SequenceType::QuaternionType),
    {
        self.is_periodic_complementary() && self.verify_cross_correlation()
    }

    /// A quaternion-type quadruple whose components are pairwise amicable.
    pub fn verify_wts(&self) -> (r: bool)
        requires
            self.wf(),
            self.antipodal(),
            4 * self.size <= isize::MAX,
        ensures
            r == valid_of_type(self@, self.size as nat, SequenceType::WilliamsonType),
    {
        self.verify_qts() && self.is_amicable()
    }

    /// Periodic complementary with symmetric components.
    pub fn verify_ws(&self) -> (r: bool)
        requires
            self.wf(),
            self.antipodal(),
            4 * self.size <= isize::MAX,
        ensures
            r == valid_of_type(self@, self.size as nat, SequenceType::Williamson),
    {
        self.is_periodic_complementary() && self.is_symmetric()
    }

    /// Whether the quadruple satisfies the identities of `seqtype`; false for a
    /// type that has no identities here.
    pub fn verify(&self, seqtype: SequenceType) -> (r: bool)
        requires
            self.wf(),
            self.antipodal(),
            4 * self.size <= isize::MAX,
        ensures
            r == valid_of_type(self@, self.size as nat, seqtype),
    {
        match seqtype {
            SequenceType::QuaternionType => self.verify_qts(),
            SequenceType::WilliamsonType => self.verify_wts(),
            SequenceType::Williamson => self.verify_ws(),
            _ => false,
        }
    }

    /// Whether `quad_seq` lies in the class of `self` under the generators of `seqtype`.
    pub fn equivalent_to(&self, quad_seq: QuadSeq, seqtype: SequenceType) -> (r: bool)
        requires
            self.wf(),
            model_ok(self@, self.size as nat),
            self.size <= usize::MAX / 2,
        ensures
            r == equivalence_class(generators_of(seqtype), self@).contains(quad_seq@),
    {
        let gens = seqtype.equivalences();
        let class = generate_equivalence_class(self, seqtype, &gens, false);
        contains_quad(&class, &quad_seq)
    }

    /// The four components between brackets, one per line, `+` and `-` for the entries.
    pub fn to_string(&self) -> (r: String)
        requires
            self.wf(),
            self.antipodal(),
        ensures
            r@ == quad_text(self@),
    {
        proof { reveal_strlit("[\n"); reveal_strlit("  ["); reveal_strlit("]\n"); reveal_strlit("]"); }
        let mut res = String::from_str("[\n");
        let ghost q = self@;
        assert(is_antipodal(q[0]) && is_antipodal(q[1]) && is_antipodal(q[2]) && is_antipodal(q[3]));
        res.append("  [");
        res.append(&sequence_to_string(&self.a).as_str());
        res.append("]\n");
        res.append("  [");
        res.append(&sequence_to_string(&self.b).as_str());
        res.append("]\n");
        res.append("  [");
        res.append(&sequence_to_string(&self.c).as_str());
        res.append("]\n");
        res.append("  [");
        res.append(&sequence_to_string(&self.d).as_str());
        res.append("]\n");
        res.append("]");
        res
    }
}

/// The text of a quadruple: its four components between brackets, one per line.
pub open spec fn quad_text(q: Seq<Seq<i8>>) -> Seq<char> {
    "[\n"@ + "  ["@ + sign_text(q[0]) + "]\n"@ + "  ["@ + sign_text(q[1]) + "]\n"@ + "  ["@ + sign_text(q[2])
        + "]\n"@ + "  ["@ + sign_text(q[3]) + "]\n"@ + "]"@
}

/// The name of a tag.
pub open spec fn tag_text(tag: SequenceTag) -> Seq<char> {
    match tag {
        SequenceTag::X => "X"@,
        SequenceTag::Y => "Y"@,
        SequenceTag::Z => "Z"@,
        SequenceTag::W => "W"@,
    }
}

/// The name of a tag.
pub fn tag_to_string(tag: &SequenceTag) -> (r: String)
    ensures
        r@ == tag_text(*tag),
{
    match *tag {
        SequenceTag::X => String::from_str("X"),
        SequenceTag::Y => String::from_str("Y"),
        SequenceTag::Z => String::from_str("Z"),
        SequenceTag::W => String::from_str("W"),
    }
}

/// The sixteen quadruples of signs, in table order.
pub open spec fn quadruplet_table(i: int) -> (i8, i8, i8, i8) {
    if i == 0 { (-1i8, -1i8, -1i8, -1i8) } else if i == 1 { (1i8, 1i8, 1i8, 1i8) } else if i == 2 { (1i8, -1i8, -1i8, 1i8) }
    else if i == 3 { (-1i8, 1i8, 1i8, -1i8) } else if i == 4 { (1i8, 1i8, -1i8, -1i8) } else if i == 5 { (-1i8, -1i8, 1i8, 1i8) }
    else if i == 6 { (1i8, -1i8, 1i8, -1i8) } else if i == 7 { (-1i8, 1i8, -1i8, 1i8) } else if i == 8 { (1i8, -1i8, -1i8, -1i8) }
    else if i == 9 { (-1i8, 1i8, 1i8, 1i8) } else if i == 10 { (1i8, 1i8, -1i8, 1i8) } else if i == 11 { (-1i8, -1i8, 1i8, -1i8) }
    else if i == 12 { (1i8, 1i8, 1i8, -1i8) } else if i == 13 { (-1i8, -1i8, -1i8, 1i8) } else if i == 14 { (1i8, -1i8, 1i8, 1i8) }
    else { (-1i8, 1i8, -1i8, -1i8) }
}

/// Entry `i` of the table of the sixteen quadruples of signs.
pub fn quadruplet(i: usize) -> (r: (i8, i8, i8, i8))
    requires
        i < 16,
    ensures
        r == quadruplet_table(i as int),
{
    if i == 0 { (-1, -1, -1, -1) } else if i == 1 { (1, 1, 1, 1) } else if i == 2 { (1, -1, -1, 1) }
    else if i == 3 { (-1, 1, 1, -1) } else if i == 4 { (1, 1, -1, -1) } else if i == 5 { (-1, -1, 1, 1) }
    else if i == 6 { (1, -1, 1, -1) } else if i == 7 { (-1, 1, -1, 1) } else if i == 8 { (1, -1, -1, -1) }
    else if i == 9 { (-1, 1, 1, 1) } else if i == 10 { (1, 1, -1, 1) } else if i == 11 { (-1, -1, 1, -1) }
    else if i == 12 { (1, 1, 1, -1) } else if i == 13 { (-1, -1, -1, 1) } else if i == 14 { (1, -1, 1, 1) }
    else { (-1, 1, -1, -1) }
}

} // verus!
