//! Correlation fingerprints of pairs of sequences, the table that groups
//! candidate pairs by fingerprint, and the exact cross-correlation check.
use vstd::prelude::*;
use crate::equivalence::{lemma_views_push, views};
use crate::quad::{
    QuadSeq, SequenceTag, autocorrelation, cross_correlation, cross_difference, is_antipodal,
    lemma_autocorrelation_upto_bound, lemma_crosscorrelation_upto_bound, model_antipodal,
    periodic_autocorrelation, tag_index, valid_qts,
};

verus! {

/// The sign that a pair of tags gives to the antisymmetric cross-correlation
/// in a fingerprint: `1` or `-1`; `0` for a tag paired with itself, which has none.
pub open spec fn tag_sign(tags: (SequenceTag, SequenceTag)) -> int {
    match tags {
        (SequenceTag::Z, _) | (SequenceTag::W, SequenceTag::X) | (SequenceTag::X, SequenceTag::Y)
        | (SequenceTag::Y, SequenceTag::W) => 1,
        (_, SequenceTag::Z) | (SequenceTag::X, SequenceTag::W) | (SequenceTag::Y, SequenceTag::X)
        | (SequenceTag::W, SequenceTag::Y) => -1,
        _ => 0,
    }
}

/// Two antipodal sequences of one length whose correlations fit in an `isize`.
pub open spec fn pair_ok(s1: Seq<i8>, s2: Seq<i8>) -> bool {
    is_antipodal(s1) && is_antipodal(s2) && s1.len() == s2.len() && 4 * s1.len() <= isize::MAX
}

/// The autocorrelations of `s` at the shifts `1..=n/2`.
pub open spec fn auto_values(s: Seq<i8>) -> Seq<int> {
    Seq::new(s.len() / 2, |k: int| autocorrelation(s, k + 1))
}

/// The summed autocorrelations of two sequences at the shifts `1..=n/2`.
pub open spec fn auto_pair_values(s1: Seq<i8>, s2: Seq<i8>) -> Seq<int> {
    Seq::new(s1.len() / 2, |k: int| autocorrelation(s1, k + 1) + autocorrelation(s2, k + 1))
}

/// The signed antisymmetric cross-correlations at the shifts `1..=n/2`.
pub open spec fn cross_values(s1: Seq<i8>, s2: Seq<i8>, tags: (SequenceTag, SequenceTag)) -> Seq<int> {
    Seq::new(s1.len() / 2, |k: int| tag_sign(tags) * cross_difference(s1, s2, k + 1))
}

/// A vector of machine integers read as mathematical integers.
pub open spec fn ints(v: Seq<isize>) -> Seq<int> {
    Seq::new(v.len(), |i: int| v[i] as int)
}

/// The autocorrelations at the shifts `1..=n/2`.
pub fn compute_auto_correlation(seq: &Vec<i8>) -> (r: Vec<isize>)
    requires
        is_antipodal(seq@),
        4 * seq@.len() <= isize::MAX,
    ensures
        ints(r@) == auto_values(seq@),
{
    let mut res: Vec<isize> = Vec::new();
    let mut offset: usize = 1;
    while offset <= seq.len() / 2
        invariant
            is_antipodal(seq@),
            4 * seq@.len() <= isize::MAX,
            1 <= offset <= seq@.len() / 2 + 1,
            res@.len() == offset - 1,
            forall|k: int| 0 <= k < res@.len() ==> res@[k] == autocorrelation(seq@, k + 1),
        decreases seq@.len() / 2 + 1 - offset,
    {
        res.push(periodic_autocorrelation(seq, offset));
        offset = offset + 1;
    }
    assert(ints(res@) =~= auto_values(seq@));
    res
}

/// The summed autocorrelations of two sequences at the shifts `1..=n/2`.
pub fn compute_auto_correlation_pair(seq1: &Vec<i8>, seq2: &Vec<i8>) -> (r: Vec<isize>)
    requires
        pair_ok(seq1@, seq2@),
    ensures
        ints(r@) == auto_pair_values(seq1@, seq2@),
{
    let auto1 = compute_auto_correlation(seq1);
    let auto2 = compute_auto_correlation(seq2);
    let mut res: Vec<isize> = Vec::new();
    let mut offset: usize = 0;
    while offset < seq1.len() / 2
        invariant
            pair_ok(seq1@, seq2@),
            ints(auto1@) == auto_values(seq1@),
            ints(auto2@) == auto_values(seq2@),
            0 <= offset <= seq1@.len() / 2,
            res@.len() == offset,
            forall|k: int| 0 <= k < offset ==> res@[k] == autocorrelation(seq1@, k + 1) + autocorrelation(seq2@, k + 1),
        decreases seq1@.len() / 2 - offset,
    {
        assert(ints(auto1@).len() == auto1@.len() && ints(auto2@).len() == auto2@.len());
        assert(ints(auto1@)[offset as int] == auto1@[offset as int]);
        assert(ints(auto2@)[offset as int] == auto2@[offset as int]);
        proof {
            lemma_autocorrelation_upto_bound(seq1@, offset + 1, seq1@.len() as int);
            lemma_autocorrelation_upto_bound(seq2@, offset + 1, seq2@.len() as int);
        }
        res.push(auto1[offset] + auto2[offset]);
        offset = offset + 1;
    }
    assert(ints(res@) =~= auto_pair_values(seq1@, seq2@));
    res
}

/// The signed antisymmetric cross-correlation at one shift.
fn signed_cross_difference(seq1: &Vec<i8>, seq2: &Vec<i8>, tags: &(SequenceTag, SequenceTag), offset: usize) -> (r: isize)
    requires
        pair_ok(seq1@, seq2@),
        tag_sign(*tags) != 0,
    ensures
        r == tag_sign(*tags) * cross_difference(seq1@, seq2@, offset as int),
{
    let c12 = cross_correlation(seq1, seq2, offset);
    let c21 = cross_correlation(seq2, seq1, offset);
    proof {
        lemma_crosscorrelation_upto_bound(seq1@, seq2@, offset as int, seq1@.len() as int);
        lemma_crosscorrelation_upto_bound(seq2@, seq1@, offset as int, seq1@.len() as int);
    }
    let sign = tag_sign_exec(tags);
    let ghost d = cross_difference(seq1@, seq2@, offset as int);
    if sign == 1 {
        assert(sign * d == d) by (nonlinear_arith) requires sign == 1;
        c12 - c21
    } else {
        assert(sign * d == -d) by (nonlinear_arith) requires sign == -1;
        c21 - c12
    }
}

/// The sign that a pair of tags gives to the antisymmetric cross-correlation.
pub fn tag_sign_exec(tags: &(SequenceTag, SequenceTag)) -> (r: isize)
    ensures
        r == tag_sign(*tags),
{
    let (t1, t2) = *tags;
    match (t1, t2) {
        (SequenceTag::Z, _) => 1,
        (SequenceTag::W, SequenceTag::X) => 1,
        (SequenceTag::X, SequenceTag::Y) => 1,
        (SequenceTag::Y, SequenceTag::W) => 1,
        (_, SequenceTag::Z) => -1,
        (SequenceTag::X, SequenceTag::W) => -1,
        (SequenceTag::Y, SequenceTag::X) => -1,
        (SequenceTag::W, SequenceTag::Y) => -1,
        _ => 0,
    }
}

/// The signed antisymmetric cross-correlations at the shifts `1..=n/2`; the
/// sign is fixed by the tags.
pub fn compute_cross_correlations(seq1: &Vec<i8>, seq2: &Vec<i8>, tags: &(SequenceTag, SequenceTag)) -> (r: Vec<isize>)
    requires
        pair_ok(seq1@, seq2@),
        tag_sign(*tags) != 0,
    ensures
        ints(r@) == cross_values(seq1@, seq2@, *tags),
{
    let mut res: Vec<isize> = Vec::new();
    let mut offset: usize = 1;
    while offset <= seq1.len() / 2
        invariant
            pair_ok(seq1@, seq2@),
            tag_sign(*tags) != 0,
            1 <= offset <= seq1@.len() / 2 + 1,
            res@.len() == offset - 1,
            forall|k: int| 0 <= k < res@.len() ==> res@[k] == tag_sign(*tags) * cross_difference(seq1@, seq2@, k + 1),
        decreases seq1@.len() / 2 + 1 - offset,
    {
        res.push(signed_cross_difference(seq1, seq2, tags, offset));
        offset = offset + 1;
    }
    assert(ints(res@) =~= cross_values(seq1@, seq2@, *tags));
    res
}

/// The negated summed autocorrelations at the shifts `1..=n/2`: what the
/// other pair of a valid quadruple must have.
pub fn compute_complementary_auto_correlations(seq1: &Vec<i8>, seq2: &Vec<i8>) -> (r: Vec<isize>)
    requires
        pair_ok(seq1@, seq2@),
    ensures
        ints(r@) == auto_pair_values(seq1@, seq2@).map_values(|v: int| -v),
{
    let pair = compute_auto_correlation_pair(seq1, seq2);
    let mut res: Vec<isize> = Vec::new();
    let mut k: usize = 0;
    while k < pair.len()
        invariant
            pair_ok(seq1@, seq2@),
            ints(pair@) == auto_pair_values(seq1@, seq2@),
            0 <= k <= pair@.len(),
            res@.len() == k,
            forall|j: int| 0 <= j < k ==> res@[j] == -pair@[j],
        decreases pair@.len() - k,
    {
        assert(ints(pair@).len() == pair@.len());
        assert(ints(pair@)[k as int] == pair@[k as int]);
        assert(pair@[k as int] == auto_pair_values(seq1@, seq2@)[k as int]);
        proof {
            lemma_autocorrelation_upto_bound(seq1@, k + 1, seq1@.len() as int);
            lemma_autocorrelation_upto_bound(seq2@, k + 1, seq2@.len() as int);
        }
        res.push(-pair[k]);
        k = k + 1;
    }
    assert(ints(res@) =~= auto_pair_values(seq1@, seq2@).map_values(|v: int| -v));
    res
}

/// The negated signed antisymmetric cross-correlations at the shifts
/// `1..=n/2`: what the other pair of a valid quadruple must have.
pub fn compute_complementary_cross_correlations(seq1: &Vec<i8>, seq2: &Vec<i8>, tags: &(SequenceTag, SequenceTag)) -> (r: Vec<isize>)
    requires
        pair_ok(seq1@, seq2@),
        tag_sign(*tags) != 0,
    ensures
        ints(r@) == cross_values(seq1@, seq2@, *tags).map_values(|v: int| -v),
{
    let cross = compute_cross_correlations(seq1, seq2, tags);
    let mut res: Vec<isize> = Vec::new();
    let mut k: usize = 0;
    while k < cross.len()
        invariant
            pair_ok(seq1@, seq2@),
            tag_sign(*tags) != 0,
            ints(cross@) == cross_values(seq1@, seq2@, *tags),
            0 <= k <= cross@.len(),
            res@.len() == k,
            forall|j: int| 0 <= j < k ==> res@[j] == -cross@[j],
        decreases cross@.len() - k,
    {
        assert(ints(cross@).len() == cross@.len());
        assert(ints(cross@)[k as int] == cross@[k as int]);
        assert(cross@[k as int] == cross_values(seq1@, seq2@, *tags)[k as int]);
        assert(tag_sign(*tags) == 1 || tag_sign(*tags) == -1);
        proof {
            lemma_crosscorrelation_upto_bound(seq1@, seq2@, k + 1, seq1@.len() as int);
            lemma_crosscorrelation_upto_bound(seq2@, seq1@, k + 1, seq1@.len() as int);
        }
        res.push(-cross[k]);
        k = k + 1;
    }
    assert(ints(res@) =~= cross_values(seq1@, seq2@, *tags).map_values(|v: int| -v));
    res
}

/// The last position among the four where `tags` holds `t`.
pub open spec fn tag_pos(tags: Seq<SequenceTag>, t: SequenceTag) -> int {
    if tags[3] == t { 3 } else if tags[2] == t { 2 } else if tags[1] == t { 1 } else { 0 }
}

/// Four tags, each of `X, Y, Z, W` once.
pub open spec fn tags_ok(tags: Seq<SequenceTag>) -> bool {
    &&& tags.len() == 4
    &&& forall|i: int, j: int| 0 <= i < j < 4 ==> tags[i] != tags[j]
}

/// Which two tags are grouped on one side: `0` for `W` with `X` (or `Y`
/// with `Z`), `1` for `W` with `Y` (or `X` with `Z`), `2` for `W` with `Z`
/// (or `X` with `Y`).
pub open spec fn grouping(t0: SequenceTag, t1: SequenceTag) -> int {
    match (t0, t1) {
        (SequenceTag::W, SequenceTag::X) | (SequenceTag::X, SequenceTag::W) | (SequenceTag::Z, SequenceTag::Y)
        | (SequenceTag::Y, SequenceTag::Z) => 0,
        (SequenceTag::W, SequenceTag::Y) | (SequenceTag::Y, SequenceTag::W) | (SequenceTag::Z, SequenceTag::X)
        | (SequenceTag::X, SequenceTag::Z) => 1,
        _ => 2,
    }
}

/// The identity `cd(a, b) + cd(c, d) == 0` at shift `t`.
pub open spec fn cross_sum_zero(a: Seq<i8>, b: Seq<i8>, c: Seq<i8>, d: Seq<i8>, t: int) -> bool {
    cross_difference(a, b, t) + cross_difference(c, d, t) == 0
}

/// The two cross-correlation identities that a grouping calls for hold at shift `t`.
pub open spec fn grouped_identities_at(seqs: Seq<Seq<i8>>, tags: Seq<SequenceTag>, t: int) -> bool {
    let w = seqs[tag_pos(tags, SequenceTag::W)];
    let x = seqs[tag_pos(tags, SequenceTag::X)];
    let y = seqs[tag_pos(tags, SequenceTag::Y)];
    let z = seqs[tag_pos(tags, SequenceTag::Z)];
    let g = grouping(tags[0], tags[1]);
    if g == 0 {
        cross_sum_zero(z, w, x, y, t) && cross_sum_zero(z, x, y, w, t)
    } else if g == 1 {
        cross_sum_zero(z, w, x, y, t) && cross_sum_zero(z, y, w, x, t)
    } else {
        cross_sum_zero(z, x, y, w, t) && cross_sum_zero(z, y, w, x, t)
    }
}

/// The four sequences of an array, as mathematics.
pub open spec fn array_views(a: &[&Vec<i8>; 4]) -> Seq<Seq<i8>> {
    seq![a@[0]@, a@[1]@, a@[2]@, a@[3]@]
}

fn pos_of_tag(tags: &Vec<SequenceTag>, t: SequenceTag) -> (r: usize)
    requires
        tags@.len() == 4,
    ensures
        r == tag_pos(tags@, t),
{
    if tags[3] == t { 3 } else if tags[2] == t { 2 } else if tags[1] == t { 1 } else { 0 }
}

fn cross_sum_is_zero(a: &Vec<i8>, b: &Vec<i8>, c: &Vec<i8>, d: &Vec<i8>, t: usize) -> (r: bool)
    requires
        pair_ok(a@, b@),
        pair_ok(c@, d@),
        a@.len() == c@.len(),
    ensures
        r == cross_sum_zero(a@, b@, c@, d@, t as int),
{
    let n = a.len();
    let ab = cross_correlation(a, b, t);
    let ba = cross_correlation(b, a, t);
    let cd = cross_correlation(c, d, t);
    let dc = cross_correlation(d, c, t);
    proof {
        lemma_crosscorrelation_upto_bound(a@, b@, t as int, n as int);
        lemma_crosscorrelation_upto_bound(b@, a@, t as int, n as int);
        lemma_crosscorrelation_upto_bound(c@, d@, t as int, n as int);
        lemma_crosscorrelation_upto_bound(d@, c@, t as int, n as int);
    }
    ab - ba + cd - dc == 0
}

/// The exact cross-correlation check of a joined quadruple: `sequences[i]`
/// carries the tag `tags[i]`; the identities checked depend on which tags
/// the first two positions hold.
pub fn verify_cross_correlation(sequences: &[&Vec<i8>; 4], tags: &Vec<SequenceTag>) -> (r: bool)
    requires
        tags_ok(tags@),
        forall|i: int| 0 <= i < 4 ==> is_antipodal((#[trigger] sequences@[i])@),
        forall|i: int| 0 <= i < 4 ==> (#[trigger] sequences@[i])@.len() == sequences@[0]@.len(),
        4 * sequences@[0]@.len() <= isize::MAX,
    ensures
        r == (forall|t: int| 0 <= t < sequences@[0]@.len() ==> #[trigger] grouped_identities_at(
            array_views(sequences),
            tags@,
            t,
        )),
{
    let ghost seqs = array_views(sequences);
    assert(seqs[0] == sequences@[0]@ && seqs[1] == sequences@[1]@ && seqs[2] == sequences@[2]@ && seqs[3] == sequences@[3]@);
    let seqw: &Vec<i8> = sequences[pos_of_tag(tags, SequenceTag::W)];
    let seqx: &Vec<i8> = sequences[pos_of_tag(tags, SequenceTag::X)];
    let seqy: &Vec<i8> = sequences[pos_of_tag(tags, SequenceTag::Y)];
    let seqz: &Vec<i8> = sequences[pos_of_tag(tags, SequenceTag::Z)];
    assert(seqw@ == seqs[tag_pos(tags@, SequenceTag::W)]);
    assert(seqx@ == seqs[tag_pos(tags@, SequenceTag::X)]);
    assert(seqy@ == seqs[tag_pos(tags@, SequenceTag::Y)]);
    assert(seqz@ == seqs[tag_pos(tags@, SequenceTag::Z)]);
    let t0 = tags[0];
    let t1 = tags[1];
    let g: usize = match (t0, t1) {
        (SequenceTag::W, SequenceTag::X) | (SequenceTag::X, SequenceTag::W) | (SequenceTag::Z, SequenceTag::Y)
        | (SequenceTag::Y, SequenceTag::Z) => 0,
        (SequenceTag::W, SequenceTag::Y) | (SequenceTag::Y, SequenceTag::W) | (SequenceTag::Z, SequenceTag::X)
        | (SequenceTag::X, SequenceTag::Z) => 1,
        _ => 2,
    };
    assert(g == grouping(tags@[0], tags@[1]));
    let (c1, c2) = if g == 0 {
        ((seqz, seqw, seqx, seqy), (seqz, seqx, seqy, seqw))
    } else if g == 1 {
        ((seqz, seqw, seqx, seqy), (seqz, seqy, seqw, seqx))
    } else {
        ((seqz, seqx, seqy, seqw), (seqz, seqy, seqw, seqx))
    };
    let n = sequences[0].len();
    let mut offset: usize = 0;
    while offset < n
        invariant
            n == sequences@[0]@.len(),
            4 * n <= isize::MAX,
            seqs == array_views(sequences),
            pair_ok(c1.0@, c1.1@) && pair_ok(c1.2@, c1.3@) && c1.0@.len() == n && c1.2@.len() == n,
            pair_ok(c2.0@, c2.1@) && pair_ok(c2.2@, c2.3@) && c2.0@.len() == n && c2.2@.len() == n,
            forall|t: int| #[trigger] grouped_identities_at(seqs, tags@, t) == (cross_sum_zero(c1.0@, c1.1@, c1.2@, c1.3@, t)
                && cross_sum_zero(c2.0@, c2.1@, c2.2@, c2.3@, t)),
            forall|t: int| 0 <= t < offset ==> #[trigger] grouped_identities_at(seqs, tags@, t),
        decreases n - offset,
    {
        if !cross_sum_is_zero(c1.0, c1.1, c1.2, c1.3, offset) || !cross_sum_is_zero(c2.0, c2.1, c2.2, c2.3, offset) {
            assert(!grouped_identities_at(seqs, tags@, offset as int));
            return false;
        }
        offset = offset + 1;
    }
    true
}

/// The correlation fingerprint of a pair of sequences.
pub struct MatchData {
    pub auto_correlation_values: Vec<isize>,
    pub cross_correlation_values: Vec<isize>,
}

/// The fingerprint of the pair `(s1, s2)` with tags `tags`, as mathematics.
pub open spec fn fingerprint(s1: Seq<i8>, s2: Seq<i8>, tags: (SequenceTag, SequenceTag)) -> (Seq<int>, Seq<int>) {
    (auto_pair_values(s1, s2), cross_values(s1, s2, tags))
}

impl MatchData {
    /// The two value lists, as mathematics.
    pub open spec fn key(&self) -> (Seq<int>, Seq<int>) {
        (ints(self.auto_correlation_values@), ints(self.cross_correlation_values@))
    }

    /// The fingerprint of the pair `(seq1, seq2)` with tags `tags`.
    pub fn from(seq1: &Vec<i8>, seq2: &Vec<i8>, tags: &(SequenceTag, SequenceTag)) -> (r: MatchData)
        requires
            pair_ok(seq1@, seq2@),
            tag_sign(*tags) != 0,
        ensures
            r.key() == fingerprint(seq1@, seq2@, *tags),
    {
        MatchData {
            auto_correlation_values: compute_auto_correlation_pair(seq1, seq2),
            cross_correlation_values: compute_cross_correlations(seq1, seq2, tags),
        }
    }

    /// A fingerprint from its two value lists.
    pub fn new(auto_correlation_values: Vec<isize>, cross_correlation_values: Vec<isize>) -> (r: MatchData)
        ensures
            r.auto_correlation_values@ == auto_correlation_values@,
            r.cross_correlation_values@ == cross_correlation_values@,
    {
        MatchData { auto_correlation_values, cross_correlation_values }
    }

    /// Whether the two fingerprints are equal.
    pub fn same_key(&self, other: &MatchData) -> (r: bool)
        ensures
            r == (self.key() == other.key()),
    {
        let r = same_values(&self.auto_correlation_values, &other.auto_correlation_values)
            && same_values(&self.cross_correlation_values, &other.cross_correlation_values);
        proof {
            if self.key() == other.key() {
                lemma_ints_injective(self.auto_correlation_values@, other.auto_correlation_values@);
                lemma_ints_injective(self.cross_correlation_values@, other.cross_correlation_values@);
            }
        }
        r
    }
}

proof fn lemma_ints_injective(a: Seq<isize>, b: Seq<isize>)
    requires
        ints(a) == ints(b),
    ensures
        a == b,
{
    assert(ints(a).len() == a.len() && ints(b).len() == b.len());
    assert forall|i: int| 0 <= i < a.len() implies a[i] == b[i] by {
        assert(ints(a)[i] == ints(b)[i]);
        assert(ints(a)[i] == a[i] as int && ints(b)[i] == b[i] as int);
    }
    assert(a =~= b);
}

/// Exact equality of two value lists.
pub fn same_values(v1: &Vec<isize>, v2: &Vec<isize>) -> (r: bool)
    ensures
        r == (v1@ == v2@),
{
    if v1.len() != v2.len() {
        return false;
    }
    let mut i: usize = 0;
    while i < v1.len()
        invariant
            v1@.len() == v2@.len(),
            0 <= i <= v1@.len(),
            forall|j: int| 0 <= j < i ==> v1@[j] == v2@[j],
        decreases v1@.len() - i,
    {
        if v1[i] != v2[i] {
            return false;
        }
        i = i + 1;
    }
    assert(v1@ =~= v2@);
    true
}

/// Sequences that are antipodal, all of length `n`, with correlations that fit.
pub open spec fn candidates_ok(v: Seq<Vec<i8>>, n: nat) -> bool {
    &&& 4 * n <= isize::MAX
    &&& forall|i: int| 0 <= i < v.len() ==> is_antipodal((#[trigger] v[i])@) && v[i]@.len() == n
}

/// One bucket of a matching table: a fingerprint and the pairs of indices that have it.
pub type Bucket = (MatchData, Vec<(usize, usize)>);

/// The buckets have distinct fingerprints; every pair in a bucket has its
/// fingerprint and is among `pairs`; every member of `pairs` is in the
/// bucket of its fingerprint.
pub open spec fn table_ok(
    table: Seq<Bucket>,
    s1: Seq<Vec<i8>>,
    s2: Seq<Vec<i8>>,
    tags: (SequenceTag, SequenceTag),
    pairs: Seq<(usize, usize)>,
) -> bool {
    &&& forall|b: int, c: int| 0 <= b < c < table.len() ==> (#[trigger] table[b]).0.key() != (#[trigger] table[c]).0.key()
    &&& forall|b: int, k: int|
        0 <= b < table.len() && 0 <= k < table[b].1@.len() ==> {
            let (i, j) = #[trigger] table[b].1@[k];
            &&& pairs.contains((i, j))
            &&& i < s1.len() && j < s2.len()
            &&& table[b].0.key() == fingerprint(s1[i as int]@, s2[j as int]@, tags)
        }
    &&& forall|k: int| 0 <= k < pairs.len() ==> exists|b: int| 0 <= b < table.len() && (#[trigger] table[b]).1@.contains(#[trigger] pairs[k])
}

/// Groups the candidate pairs `(sequences1[i], sequences2[j])` for `(i, j)`
/// in `pairs` (the pairs that passed the spectral filter) by fingerprint.
pub fn generate_matching_table(
    sequences1: &Vec<Vec<i8>>,
    sequences2: &Vec<Vec<i8>>,
    tags: &(SequenceTag, SequenceTag),
    pairs: &Vec<(usize, usize)>,
) -> (r: Vec<Bucket>)
    requires
        sequences1@.len() > 0,
        candidates_ok(sequences1@, sequences1@[0]@.len()),
        candidates_ok(sequences2@, sequences1@[0]@.len()),
        tag_sign(*tags) != 0,
        forall|k: int| 0 <= k < pairs@.len() ==> (#[trigger] pairs@[k]).0 < sequences1@.len() && pairs@[k].1 < sequences2@.len(),
    ensures
        table_ok(r@, sequences1@, sequences2@, *tags, pairs@),
{
    let ghost n = sequences1@[0]@.len();
    let mut match_table: Vec<Bucket> = Vec::new();
    let mut k: usize = 0;
    while k < pairs.len()
        invariant
            0 <= k <= pairs@.len(),
            candidates_ok(sequences1@, n),
            candidates_ok(sequences2@, n),
            tag_sign(*tags) != 0,
            forall|k: int| 0 <= k < pairs@.len() ==> (#[trigger] pairs@[k]).0 < sequences1@.len() && pairs@[k].1 < sequences2@.len(),
            table_ok(match_table@, sequences1@, sequences2@, *tags, pairs@.subrange(0, k as int)),
        decreases pairs@.len() - k,
    {
        let (i, j) = pairs[k];
        let seq1 = &sequences1[i];
        let seq2 = &sequences2[j];
        let match_data = MatchData::from(seq1, seq2, tags);
        let ghost old_t = match_table@;
        let ghost sub = pairs@.subrange(0, k as int);
        let ghost sub1 = pairs@.subrange(0, k + 1);
        assert(sub1 =~= sub.push((i, j)));
        let mut b: usize = 0;
        let mut found_at: usize = match_table.len();
        while b < match_table.len()
            invariant
                0 <= b <= match_table@.len(),
                match_table@ == old_t,
                found_at == old_t.len() ==> forall|c: int| 0 <= c < b ==> (#[trigger] old_t[c]).0.key() != match_data.key(),
                found_at < old_t.len() ==> found_at < b && old_t[found_at as int].0.key() == match_data.key(),
                found_at <= old_t.len(),
            decreases match_table@.len() - b,
        {
            if found_at == match_table.len() && match_table[b].0.same_key(&match_data) {
                found_at = b;
            }
            b = b + 1;
        }
        let found = found_at < match_table.len();
        b = found_at;
        if found {
            let ghost old_bucket = match_table@[b as int];
            let mut bucket = match_table.remove(b);
            bucket.1.push((i, j));
            match_table.insert(b, bucket);
            proof {
                let t = match_table@;
                assert(t.len() == old_t.len());
                assert forall|c: int| 0 <= c < t.len() && c != b implies #[trigger] t[c] == old_t[c] by {}
                assert(t[b as int].0.key() == old_bucket.0.key());
                assert(t[b as int].1@ == old_bucket.1@.push((i, j)));
                lemma_table_step(old_t, t, sequences1@, sequences2@, *tags, sub, (i, j), b as int);
            }
        } else {
            let mut v: Vec<(usize, usize)> = Vec::new();
            v.push((i, j));
            match_table.push((match_data, v));
            proof {
                let t = match_table@;
                lemma_table_new(old_t, t, sequences1@, sequences2@, *tags, sub, (i, j));
            }
        }
        k = k + 1;
    }
    assert(pairs@.subrange(0, pairs@.len() as int) =~= pairs@);
    match_table
}

proof fn lemma_table_step(
    old_t: Seq<Bucket>,
    t: Seq<Bucket>,
    s1: Seq<Vec<i8>>,
    s2: Seq<Vec<i8>>,
    tags: (SequenceTag, SequenceTag),
    sub: Seq<(usize, usize)>,
    pr: (usize, usize),
    b: int,
)
    requires
        table_ok(old_t, s1, s2, tags, sub),
        0 <= b < old_t.len(),
        t.len() == old_t.len(),
        forall|c: int| 0 <= c < t.len() && c != b ==> #[trigger] t[c] == old_t[c],
        t[b].0.key() == old_t[b].0.key(),
        t[b].1@ == old_t[b].1@.push(pr),
        pr.0 < s1.len() && pr.1 < s2.len(),
        old_t[b].0.key() == fingerprint(s1[pr.0 as int]@, s2[pr.1 as int]@, tags),
    ensures
        table_ok(t, s1, s2, tags, sub.push(pr)),
{
    let sub1 = sub.push(pr);
    assert forall|c: int, d: int| 0 <= c < d < t.len() implies (#[trigger] t[c]).0.key() != (#[trigger] t[d]).0.key() by {
        assert(old_t[c].0.key() != old_t[d].0.key());
    }
    assert forall|c: int, k: int| 0 <= c < t.len() && 0 <= k < t[c].1@.len() implies {
        let (i, j) = #[trigger] t[c].1@[k];
        &&& sub1.contains((i, j))
        &&& i < s1.len() && j < s2.len()
        &&& t[c].0.key() == fingerprint(s1[i as int]@, s2[j as int]@, tags)
    } by {
        if c == b && k == old_t[b].1@.len() {
            assert(sub1[sub.len() as int] == pr);
        } else {
            assert(t[c].1@[k] == old_t[c].1@[k]);
            let (i, j) = old_t[c].1@[k];
            assert(sub.contains((i, j)));
            let m = choose|m: int| 0 <= m < sub.len() && sub[m] == (i, j);
            assert(sub1[m] == sub[m]);
        }
    }
    assert forall|k: int| 0 <= k < sub1.len() implies exists|c: int| 0 <= c < t.len() && (#[trigger] t[c]).1@.contains(#[trigger] sub1[k]) by {
        if k == sub.len() {
            assert(t[b].1@[old_t[b].1@.len() as int] == pr);
        } else {
            assert(sub1[k] == sub[k]);
            let c = choose|c: int| 0 <= c < old_t.len() && (#[trigger] old_t[c]).1@.contains(#[trigger] sub[k]);
            let m = choose|m: int| 0 <= m < old_t[c].1@.len() && old_t[c].1@[m] == sub[k];
            assert(t[c].1@[m] == sub[k]);
        }
    }
}

proof fn lemma_table_new(
    old_t: Seq<Bucket>,
    t: Seq<Bucket>,
    s1: Seq<Vec<i8>>,
    s2: Seq<Vec<i8>>,
    tags: (SequenceTag, SequenceTag),
    sub: Seq<(usize, usize)>,
    pr: (usize, usize),
)
    requires
        table_ok(old_t, s1, s2, tags, sub),
        t.len() == old_t.len() + 1,
        forall|c: int| 0 <= c < old_t.len() ==> #[trigger] t[c] == old_t[c],
        forall|c: int| 0 <= c < old_t.len() ==> (#[trigger] old_t[c]).0.key() != t[old_t.len() as int].0.key(),
        t[old_t.len() as int].1@ == seq![pr],
        pr.0 < s1.len() && pr.1 < s2.len(),
        t[old_t.len() as int].0.key() == fingerprint(s1[pr.0 as int]@, s2[pr.1 as int]@, tags),
    ensures
        table_ok(t, s1, s2, tags, sub.push(pr)),
{
    let sub1 = sub.push(pr);
    let last = old_t.len() as int;
    assert forall|c: int, d: int| 0 <= c < d < t.len() implies (#[trigger] t[c]).0.key() != (#[trigger] t[d]).0.key() by {
        if d < last {
            assert(old_t[c].0.key() != old_t[d].0.key());
        }
    }
    assert forall|c: int, k: int| 0 <= c < t.len() && 0 <= k < t[c].1@.len() implies {
        let (i, j) = #[trigger] t[c].1@[k];
        &&& sub1.contains((i, j))
        &&& i < s1.len() && j < s2.len()
        &&& t[c].0.key() == fingerprint(s1[i as int]@, s2[j as int]@, tags)
    } by {
        if c == last {
            assert(sub1[sub.len() as int] == pr);
        } else {
            let (i, j) = old_t[c].1@[k];
            assert(sub.contains((i, j)));
            let m = choose|m: int| 0 <= m < sub.len() && sub[m] == (i, j);
            assert(sub1[m] == sub[m]);
        }
    }
    assert forall|k: int| 0 <= k < sub1.len() implies exists|c: int| 0 <= c < t.len() && (#[trigger] t[c]).1@.contains(#[trigger] sub1[k]) by {
        if k == sub.len() {
            assert(t[last].1@[0] == pr);
        } else {
            assert(sub1[k] == sub[k]);
            let c = choose|c: int| 0 <= c < old_t.len() && (#[trigger] old_t[c]).1@.contains(#[trigger] sub[k]);
            assert(t[c] == old_t[c]);
        }
    }
}

/// The quadruple whose component tagged `tags1.0` is `a`, `tags1.1` is `b`,
/// `tags2.0` is `c` and `tags2.1` is `d`.
pub open spec fn assemble(
    tags1: (SequenceTag, SequenceTag),
    tags2: (SequenceTag, SequenceTag),
    a: Seq<i8>,
    b: Seq<i8>,
    c: Seq<i8>,
    d: Seq<i8>,
) -> Seq<Seq<i8>> {
    Seq::new(4, |k: int| if k == tag_index(tags1.0) { a } else if k == tag_index(tags1.1) { b }
        else if k == tag_index(tags2.0) { c } else { d })
}

/// The fingerprint that the other pair of a valid quadruple has: the
/// negated fingerprint of `(s3, s4)`.
pub open spec fn complementary_key(s3: Seq<i8>, s4: Seq<i8>, tags: (SequenceTag, SequenceTag)) -> (Seq<int>, Seq<int>) {
    (auto_pair_values(s3, s4).map_values(|v: int| -v), cross_values(s3, s4, tags).map_values(|v: int| -v))
}

/// Four distinct tags.
pub open spec fn tags_distinct(t1: (SequenceTag, SequenceTag), t2: (SequenceTag, SequenceTag)) -> bool {
    t1.0 != t1.1 && t1.0 != t2.0 && t1.0 != t2.1 && t1.1 != t2.0 && t1.1 != t2.1 && t2.0 != t2.1
}

/// What the join yields from bucket `b`, its pair `x`, and the pair `y` of
/// `pairs2`: when the bucket's fingerprint is the complementary one, the
/// assembled quadruple, provided it is valid.
pub open spec fn join_yields(
    table: Seq<Bucket>,
    s1: Seq<Vec<i8>>,
    s2: Seq<Vec<i8>>,
    tags1: (SequenceTag, SequenceTag),
    s3: Seq<Vec<i8>>,
    s4: Seq<Vec<i8>>,
    tags2: (SequenceTag, SequenceTag),
    pairs2: Seq<(usize, usize)>,
    n: nat,
    b: int,
    x: int,
    y: int,
    m: Seq<Seq<i8>>,
) -> bool {
    &&& 0 <= b < table.len()
    &&& 0 <= x < table[b].1@.len()
    &&& 0 <= y < pairs2.len()
    &&& table[b].0.key() == complementary_key(s3[pairs2[y].0 as int]@, s4[pairs2[y].1 as int]@, tags2)
    &&& m == assemble(tags1, tags2, s1[table[b].1@[x].0 as int]@, s2[table[b].1@[x].1 as int]@,
        s3[pairs2[y].0 as int]@, s4[pairs2[y].1 as int]@)
    &&& valid_qts(m, n)
}

/// Everything the join yields from the pairs of `pairs2` before `y`.
pub open spec fn joined_upto(
    table: Seq<Bucket>,
    s1: Seq<Vec<i8>>,
    s2: Seq<Vec<i8>>,
    tags1: (SequenceTag, SequenceTag),
    s3: Seq<Vec<i8>>,
    s4: Seq<Vec<i8>>,
    tags2: (SequenceTag, SequenceTag),
    pairs2: Seq<(usize, usize)>,
    n: nat,
    y: int,
) -> Set<Seq<Seq<i8>>> {
    Set::new(|m: Seq<Seq<i8>>| exists|b: int, x: int, z: int| 0 <= z < y
        && #[trigger] join_yields(table, s1, s2, tags1, s3, s4, tags2, pairs2, n, b, x, z, m))
}

fn tag_slot(t: SequenceTag) -> (r: usize)
    ensures
        r == tag_index(t),
{
    match t {
        SequenceTag::X => 0,
        SequenceTag::Y => 1,
        SequenceTag::Z => 2,
        SequenceTag::W => 3,
    }
}

fn assemble_exec(
    tags1: &(SequenceTag, SequenceTag),
    tags2: &(SequenceTag, SequenceTag),
    a: &Vec<i8>,
    b: &Vec<i8>,
    c: &Vec<i8>,
    d: &Vec<i8>,
) -> (r: QuadSeq)
    requires
        tags_distinct(*tags1, *tags2),
        a@.len() == b@.len() && b@.len() == c@.len() && c@.len() == d@.len(),
    ensures
        r.wf(),
        r.size == a@.len(),
        r@ == assemble(*tags1, *tags2, a@, b@, c@, d@),
{
    let mut q = QuadSeq::new(a.len());
    q.set_sequence(a, &tags1.0);
    q.set_sequence(b, &tags1.1);
    q.set_sequence(c, &tags2.0);
    q.set_sequence(d, &tags2.1);
    assert(q@ =~= assemble(*tags1, *tags2, a@, b@, c@, d@));
    q
}

/// The join of a matching table with the pairs `pairs2` of the other side:
/// for each pair, its complementary fingerprint is looked up, and every pair
/// in that bucket is assembled with it into a quadruple, which is kept when
/// it satisfies the exact identities.
pub fn join_matching_pairs(
    table: &Vec<Bucket>,
    sequences1: &Vec<Vec<i8>>,
    sequences2: &Vec<Vec<i8>>,
    tags1: &(SequenceTag, SequenceTag),
    sequences3: &Vec<Vec<i8>>,
    sequences4: &Vec<Vec<i8>>,
    tags2: &(SequenceTag, SequenceTag),
    pairs2: &Vec<(usize, usize)>,
) -> (r: Vec<QuadSeq>)
    requires
        sequences1@.len() > 0,
        candidates_ok(sequences1@, sequences1@[0]@.len()),
        candidates_ok(sequences2@, sequences1@[0]@.len()),
        candidates_ok(sequences3@, sequences1@[0]@.len()),
        candidates_ok(sequences4@, sequences1@[0]@.len()),
        tags_distinct(*tags1, *tags2),
        tag_sign(*tags2) != 0,
        forall|b: int, c: int| 0 <= b < c < table@.len() ==> (#[trigger] table@[b]).0.key() != (#[trigger] table@[c]).0.key(),
        forall|b: int, x: int| 0 <= b < table@.len() && 0 <= x < table@[b].1@.len() ==>
            (#[trigger] table@[b].1@[x]).0 < sequences1@.len() && table@[b].1@[x].1 < sequences2@.len(),
        forall|y: int| 0 <= y < pairs2@.len() ==> (#[trigger] pairs2@[y]).0 < sequences3@.len() && pairs2@[y].1 < sequences4@.len(),
    ensures
        views(r@) == joined_upto(table@, sequences1@, sequences2@, *tags1, sequences3@, sequences4@, *tags2, pairs2@,
            sequences1@[0]@.len(), pairs2@.len() as int),
{
    let ghost n = sequences1@[0]@.len();
    let ghost tb = table@;
    let mut result: Vec<QuadSeq> = Vec::new();
    let mut y: usize = 0;
    assert(views(result@) =~= joined_upto(tb, sequences1@, sequences2@, *tags1, sequences3@, sequences4@, *tags2, pairs2@, n, 0));
    while y < pairs2.len()
        invariant
            0 <= y <= pairs2@.len(),
            tb == table@,
            n == sequences1@[0]@.len(),
            candidates_ok(sequences1@, n),
            candidates_ok(sequences2@, n),
            candidates_ok(sequences3@, n),
            candidates_ok(sequences4@, n),
            tags_distinct(*tags1, *tags2),
            tag_sign(*tags2) != 0,
            forall|b: int, c: int| 0 <= b < c < tb.len() ==> (#[trigger] tb[b]).0.key() != (#[trigger] tb[c]).0.key(),
            forall|b: int, x: int| 0 <= b < tb.len() && 0 <= x < tb[b].1@.len() ==>
                (#[trigger] tb[b].1@[x]).0 < sequences1@.len() && tb[b].1@[x].1 < sequences2@.len(),
            forall|y: int| 0 <= y < pairs2@.len() ==> (#[trigger] pairs2@[y]).0 < sequences3@.len() && pairs2@[y].1 < sequences4@.len(),
            views(result@) == joined_upto(tb, sequences1@, sequences2@, *tags1, sequences3@, sequences4@, *tags2, pairs2@, n, y as int),
        decreases pairs2@.len() - y,
    {
        let (k, l) = pairs2[y];
        let seq3 = &sequences3[k];
        let seq4 = &sequences4[l];
        let key = MatchData::new(
            compute_complementary_auto_correlations(seq3, seq4),
            compute_complementary_cross_correlations(seq3, seq4, tags2),
        );
        assert(key.key() == complementary_key(seq3@, seq4@, *tags2));
        let mut b: usize = 0;
        let mut found_at: usize = table.len();
        while b < table.len()
            invariant
                0 <= b <= tb.len(),
                tb == table@,
                found_at <= tb.len(),
                found_at == tb.len() ==> forall|c: int| 0 <= c < b ==> (#[trigger] tb[c]).0.key() != key.key(),
                found_at < tb.len() ==> found_at < b && tb[found_at as int].0.key() == key.key(),
            decreases tb.len() - b,
        {
            if found_at == table.len() && table[b].0.same_key(&key) {
                found_at = b;
            }
            b = b + 1;
        }
        let ghost before = views(result@);
        let ghost prev = joined_upto(tb, sequences1@, sequences2@, *tags1, sequences3@, sequences4@, *tags2, pairs2@, n, y as int);
        let ghost next = joined_upto(tb, sequences1@, sequences2@, *tags1, sequences3@, sequences4@, *tags2, pairs2@, n, y + 1);
        if found_at < table.len() {
            let bucket = &table[found_at].1;
            let mut x: usize = 0;
            while x < bucket.len()
                invariant
                    0 <= x <= bucket@.len(),
                    tb == table@,
                    found_at < tb.len(),
                    bucket@ == tb[found_at as int].1@,
                    tb[found_at as int].0.key() == complementary_key(seq3@, seq4@, *tags2),
                    n == sequences1@[0]@.len(),
                    candidates_ok(sequences1@, n),
                    candidates_ok(sequences2@, n),
                    is_antipodal(seq3@) && seq3@.len() == n && is_antipodal(seq4@) && seq4@.len() == n,
                    seq3@ == sequences3@[k as int]@,
                    seq4@ == sequences4@[l as int]@,
                    (k, l) == pairs2@[y as int],
                    0 <= y < pairs2@.len(),
                    tags_distinct(*tags1, *tags2),
                    forall|b: int, x: int| 0 <= b < tb.len() && 0 <= x < tb[b].1@.len() ==>
                        (#[trigger] tb[b].1@[x]).0 < sequences1@.len() && tb[b].1@[x].1 < sequences2@.len(),
                    views(result@) == before.union(Set::new(|m: Seq<Seq<i8>>| exists|x2: int| 0 <= x2 < x
                        && #[trigger] join_yields(tb, sequences1@, sequences2@, *tags1, sequences3@, sequences4@, *tags2, pairs2@, n, found_at as int, x2, y as int, m))),
                decreases bucket@.len() - x,
            {
                let (i, j) = bucket[x];
                assert(tb[found_at as int].1@[x as int] == (i, j));
                let seq1 = &sequences1[i];
                let seq2 = &sequences2[j];
                let q = assemble_exec(tags1, tags2, seq1, seq2, seq3, seq4);
                let ghost m = q@;
                let ghost old_r = result@;
                assert(model_antipodal(m)) by {
                    assert forall|c: int| 0 <= c < 4 implies is_antipodal(#[trigger] m[c]) by {}
                }
                let ok = q.verify_qts();
                if ok {
                    result.push(q);
                    proof { lemma_views_push(old_r, q); }
                }
                proof {
                    let xs = x as int;
                    let a_old = Set::new(|m: Seq<Seq<i8>>| exists|x2: int| 0 <= x2 < xs
                        && #[trigger] join_yields(tb, sequences1@, sequences2@, *tags1, sequences3@, sequences4@, *tags2, pairs2@, n, found_at as int, x2, y as int, m));
                    let a_new = Set::new(|m: Seq<Seq<i8>>| exists|x2: int| 0 <= x2 < xs + 1
                        && #[trigger] join_yields(tb, sequences1@, sequences2@, *tags1, sequences3@, sequences4@, *tags2, pairs2@, n, found_at as int, x2, y as int, m));
                    assert forall|mm: Seq<Seq<i8>>| #[trigger] a_new.contains(mm) implies a_old.contains(mm) || (ok && mm == m) by {
                        let x2 = choose|x2: int| 0 <= x2 < xs + 1
                            && #[trigger] join_yields(tb, sequences1@, sequences2@, *tags1, sequences3@, sequences4@, *tags2, pairs2@, n, found_at as int, x2, y as int, mm);
                        if x2 < xs {
                            assert(a_old.contains(mm));
                        }
                    }
                    if ok {
                        assert(join_yields(tb, sequences1@, sequences2@, *tags1, sequences3@, sequences4@, *tags2, pairs2@, n, found_at as int, xs, y as int, m));
                        assert(a_new.contains(m));
                    }
                    assert forall|mm: Seq<Seq<i8>>| #[trigger] a_old.contains(mm) implies a_new.contains(mm) by {
                        let x2 = choose|x2: int| 0 <= x2 < xs
                            && #[trigger] join_yields(tb, sequences1@, sequences2@, *tags1, sequences3@, sequences4@, *tags2, pairs2@, n, found_at as int, x2, y as int, mm);
                    }
                    assert(views(result@) =~= before.union(a_new));
                }
                x = x + 1;
            }
            proof {
                let a_all = Set::new(|m: Seq<Seq<i8>>| exists|x2: int| 0 <= x2 < bucket@.len()
                    && #[trigger] join_yields(tb, sequences1@, sequences2@, *tags1, sequences3@, sequences4@, *tags2, pairs2@, n, found_at as int, x2, y as int, m));
                assert forall|mm: Seq<Seq<i8>>| #[trigger] next.contains(mm) implies prev.union(a_all).contains(mm) by {
                    let (bb, x2, z) = choose|bb: int, x2: int, z: int| 0 <= z < y + 1
                        && #[trigger] join_yields(tb, sequences1@, sequences2@, *tags1, sequences3@, sequences4@, *tags2, pairs2@, n, bb, x2, z, mm);
                    if z < y {
                        assert(prev.contains(mm));
                    } else {
                        if bb != found_at {
                            if bb < found_at {
                                assert(tb[bb].0.key() != tb[found_at as int].0.key());
                            } else {
                                assert(tb[found_at as int].0.key() != tb[bb].0.key());
                            }
                        }
                        assert(a_all.contains(mm));
                    }
                }
                assert forall|mm: Seq<Seq<i8>>| #[trigger] prev.union(a_all).contains(mm) implies next.contains(mm) by {
                    if prev.contains(mm) {
                        let (bb, x2, z) = choose|bb: int, x2: int, z: int| 0 <= z < y
                            && #[trigger] join_yields(tb, sequences1@, sequences2@, *tags1, sequences3@, sequences4@, *tags2, pairs2@, n, bb, x2, z, mm);
                    } else {
                        let x2 = choose|x2: int| 0 <= x2 < bucket@.len()
                            && #[trigger] join_yields(tb, sequences1@, sequences2@, *tags1, sequences3@, sequences4@, *tags2, pairs2@, n, found_at as int, x2, y as int, mm);
                    }
                }
                assert(views(result@) =~= next);
            }
        } else {
            proof {
                assert forall|mm: Seq<Seq<i8>>| #[trigger] next.contains(mm) implies prev.contains(mm) by {
                    let (bb, x2, z) = choose|bb: int, x2: int, z: int| 0 <= z < y + 1
                        && #[trigger] join_yields(tb, sequences1@, sequences2@, *tags1, sequences3@, sequences4@, *tags2, pairs2@, n, bb, x2, z, mm);
                    if z == y {
                        assert(tb[bb].0.key() != key.key());
                    }
                }
                assert forall|mm: Seq<Seq<i8>>| #[trigger] prev.contains(mm) implies next.contains(mm) by {
                    let (bb, x2, z) = choose|bb: int, x2: int, z: int| 0 <= z < y
                        && #[trigger] join_yields(tb, sequences1@, sequences2@, *tags1, sequences3@, sequences4@, *tags2, pairs2@, n, bb, x2, z, mm);
                }
                assert(views(result@) =~= next);
            }
        }
        y = y + 1;
    }
    result
}

} // verus!
