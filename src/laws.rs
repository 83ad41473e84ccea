//! Properties that relate several functions of the library.
use vstd::prelude::*;
use vstd::arithmetic::div_mod::lemma_small_mod;
use crate::quad::{
    QuadSeq, SequenceTag, autocorrelation, autocorrelation_total, autocorrelation_upto, crosscorrelation_upto,
    cross_difference, cross_identity_at, is_antipodal, model_antipodal, periodic_complementary,
    symmetric, tag_index, valid_of_type, valid_qts,
};
use crate::symmetries::{Generator, SequenceType, generators_of};
use crate::matching::{
    Bucket, assemble, candidates_ok, complementary_key, fingerprint,
    join_yields, joined_upto, table_ok, tag_sign, tags_distinct,
};
use crate::equivalence::{
    gen_count, gen_image, model_ok, neg_seq, negate_model, pair_first, pair_second, signed_entries, swap_model,
    closed_under, equivalence_class, gens_image, is_least, lemma_class_in_closed,
    lemma_quad_less_order, lemma_seed_in_reach, quad_less, reach, step_all,
};

verus! {

proof fn lemma_autocorrelation_zero_upto(s: Seq<i8>, k: int)
    requires
        is_antipodal(s),
        0 <= k <= s.len(),
    ensures
        autocorrelation_upto(s, 0, k) == k,
    decreases k,
{
    if k > 0 {
        lemma_autocorrelation_zero_upto(s, k - 1);
        lemma_small_mod((k - 1) as nat, s.len());
        assert(s[k - 1] == 1 || s[k - 1] == -1);
    }
}

/// An antipodal sequence of length `n` has autocorrelation `n` at shift 0.
pub proof fn lemma_autocorrelation_at_zero(s: Seq<i8>)
    requires
        is_antipodal(s),
    ensures
        autocorrelation(s, 0) == s.len(),
{
    lemma_autocorrelation_zero_upto(s, s.len() as int);
}

/// For a quadruple that `is_periodic_complementary` accepts, the four
/// periodic autocorrelations sum to zero at every shift `t` in `1..n`, and to
/// `4n` at shift 0.
pub proof fn law_accepted_autocorrelation_sums(q: QuadSeq, t: int)
    requires
        q.wf(),
        q.antipodal(),
        periodic_complementary(q@, q.size as nat),
        0 <= t < q.size,
    ensures
        t >= 1 ==> autocorrelation_total(q@, t) == 0,
        t == 0 ==> autocorrelation_total(q@, t) == 4 * q.size,
{
    assert(model_antipodal(q@));
    assert(is_antipodal(q@[0]) && is_antipodal(q@[1]) && is_antipodal(q@[2]) && is_antipodal(q@[3]));
    lemma_autocorrelation_at_zero(q@[0]);
    lemma_autocorrelation_at_zero(q@[1]);
    lemma_autocorrelation_at_zero(q@[2]);
    lemma_autocorrelation_at_zero(q@[3]);
}

/// An equivalence class is closed under its generators.
pub proof fn lemma_class_closed(gens: Seq<Generator>, seed: Seq<Seq<i8>>)
    ensures
        closed_under(gens, equivalence_class(gens, seed)),
{
    let c = equivalence_class(gens, seed);
    assert forall|x: Seq<Seq<i8>>| #[trigger] c.contains(x) implies gens_image(gens, x).subset_of(c) by {
        let k = choose|k: nat| #[trigger] reach(gens, seed, k).contains(x);
        assert forall|m: Seq<Seq<i8>>| #[trigger] gens_image(gens, x).contains(m) implies c.contains(m) by {
            assert(step_all(gens, reach(gens, seed, k)).contains(m));
            assert(reach(gens, seed, k + 1).contains(m));
        }
    }
}

/// A member of the class of `s1` has a class inside the class of `s1`.
pub proof fn law_class_of_member_within(gens: Seq<Generator>, s1: Seq<Seq<i8>>, s2: Seq<Seq<i8>>)
    requires
        equivalence_class(gens, s1).contains(s2),
    ensures
        equivalence_class(gens, s2).subset_of(equivalence_class(gens, s1)),
{
    lemma_class_closed(gens, s1);
    lemma_class_in_closed(gens, s2, equivalence_class(gens, s1));
}

/// Two quadruples that lie in each other's class have the same class.
pub proof fn law_class_independent_of_member(gens: Seq<Generator>, s1: Seq<Seq<i8>>, s2: Seq<Seq<i8>>)
    requires
        equivalence_class(gens, s1).contains(s2),
        equivalence_class(gens, s2).contains(s1),
    ensures
        equivalence_class(gens, s1) == equivalence_class(gens, s2),
{
    law_class_of_member_within(gens, s1, s2);
    law_class_of_member_within(gens, s2, s1);
    assert(equivalence_class(gens, s1) =~= equivalence_class(gens, s2));
}

/// The canonical representative is a fixed point: the least member of the
/// class of `rep`, where `rep` is the least member of the class of `seq`, is
/// `rep` itself.
pub proof fn law_canonical_fixed_point(seq: QuadSeq, rep: QuadSeq, again: QuadSeq, seqtype: SequenceType)
    requires
        rep.wf(),
        rep.size == seq.size,
        is_least(rep@, equivalence_class(generators_of(seqtype), seq@)),
        again.wf(),
        again.size == rep.size,
        is_least(again@, equivalence_class(generators_of(seqtype), rep@)),
    ensures
        again@ == rep@,
{
    let gens = generators_of(seqtype);
    law_class_of_member_within(gens, seq@, rep@);
    assert(equivalence_class(gens, seq@).contains(again@));
    assert(!quad_less(again@, rep@));
    lemma_seed_in_reach(gens, rep@, 0);
    assert(equivalence_class(gens, rep@).contains(rep@));
    assert(!quad_less(rep@, again@));
    lemma_quad_less_order(again@, rep@, rep@, seq.size as nat);
}

/// A valid quadruple split into the pair `(a, b)` tagged `tags1` and the
/// pair `(c, d)` tagged `tags2` gives the first pair the fingerprint that is
/// the negation of the second's: matching by fingerprint loses no solution.
pub proof fn law_valid_pairs_have_matching_fingerprints(
    tags1: (SequenceTag, SequenceTag),
    tags2: (SequenceTag, SequenceTag),
    a: Seq<i8>,
    b: Seq<i8>,
    c: Seq<i8>,
    d: Seq<i8>,
)
    requires
        tags_distinct(tags1, tags2),
        b.len() == a.len() && c.len() == a.len() && d.len() == a.len(),
        valid_qts(assemble(tags1, tags2, a, b, c, d), a.len()),
    ensures
        fingerprint(a, b, tags1) == complementary_key(c, d, tags2),
{
    let n = a.len();
    let q = assemble(tags1, tags2, a, b, c, d);
    assert(q[tag_index(tags1.0)] == a);
    assert(q[tag_index(tags1.1)] == b);
    assert(q[tag_index(tags2.0)] == c);
    assert(q[tag_index(tags2.1)] == d);
    let f = fingerprint(a, b, tags1);
    let g = complementary_key(c, d, tags2);
    assert(f.0 =~= g.0) by {
        assert forall|k: int| 0 <= k < n / 2 implies f.0[k] == g.0[k] by {
            assert(autocorrelation_total(q, k + 1) == 0);
        }
    }
    assert(f.1 =~= g.1) by {
        assert forall|k: int| 0 <= k < n / 2 implies f.1[k] == g.1[k] by {
            assert(cross_identity_at(q, k + 1));
            let t = k + 1;
            let sa = tag_sign(tags1);
            let sb = tag_sign(tags2);
            assert(sa == 1 || sa == -1);
            assert(sb == 1 || sb == -1);
            assert(f.1[k] == sa * cross_difference(a, b, t));
            assert(g.1[k] == -(sb * cross_difference(c, d, t)));
            assert(sa * cross_difference(a, b, t) == -(sb * cross_difference(c, d, t))) by (nonlinear_arith)
                requires
                    sa == 1 || sa == -1,
                    sb == 1 || sb == -1,
                    sa == sb ==> cross_difference(a, b, t) == -cross_difference(c, d, t),
                    sa != sb ==> cross_difference(a, b, t) == cross_difference(c, d, t),
            {
            }
        }
    }
}

/// Every valid quadruple assembled from a pair of `pairs1` and a pair of `pairs2`.
pub open spec fn brute_force_joins(
    s1: Seq<Vec<i8>>,
    s2: Seq<Vec<i8>>,
    tags1: (SequenceTag, SequenceTag),
    pairs1: Seq<(usize, usize)>,
    s3: Seq<Vec<i8>>,
    s4: Seq<Vec<i8>>,
    tags2: (SequenceTag, SequenceTag),
    pairs2: Seq<(usize, usize)>,
    n: nat,
) -> Set<Seq<Seq<i8>>> {
    Set::new(|m: Seq<Seq<i8>>| exists|u: int, y: int| 0 <= u < pairs1.len() && 0 <= y < pairs2.len()
        && m == #[trigger] assemble(tags1, tags2, s1[pairs1[u].0 as int]@, s2[pairs1[u].1 as int]@,
            s3[pairs2[y].0 as int]@, s4[pairs2[y].1 as int]@)
        && valid_qts(m, n))
}

/// The join of a matching table built on `pairs1` with `pairs2` yields
/// exactly the valid quadruples that testing every combination of a pair of
/// `pairs1` with a pair of `pairs2` finds.
pub proof fn law_join_is_exact(
    table: Seq<Bucket>,
    s1: Seq<Vec<i8>>,
    s2: Seq<Vec<i8>>,
    tags1: (SequenceTag, SequenceTag),
    pairs1: Seq<(usize, usize)>,
    s3: Seq<Vec<i8>>,
    s4: Seq<Vec<i8>>,
    tags2: (SequenceTag, SequenceTag),
    pairs2: Seq<(usize, usize)>,
    n: nat,
)
    requires
        table_ok(table, s1, s2, tags1, pairs1),
        candidates_ok(s1, n),
        candidates_ok(s2, n),
        candidates_ok(s3, n),
        candidates_ok(s4, n),
        tags_distinct(tags1, tags2),
        forall|k: int| 0 <= k < pairs1.len() ==> (#[trigger] pairs1[k]).0 < s1.len() && pairs1[k].1 < s2.len(),
        forall|y: int| 0 <= y < pairs2.len() ==> (#[trigger] pairs2[y]).0 < s3.len() && pairs2[y].1 < s4.len(),
    ensures
        joined_upto(table, s1, s2, tags1, s3, s4, tags2, pairs2, n, pairs2.len() as int)
            == brute_force_joins(s1, s2, tags1, pairs1, s3, s4, tags2, pairs2, n),
{
    let lhs = joined_upto(table, s1, s2, tags1, s3, s4, tags2, pairs2, n, pairs2.len() as int);
    let rhs = brute_force_joins(s1, s2, tags1, pairs1, s3, s4, tags2, pairs2, n);
    assert forall|m: Seq<Seq<i8>>| #[trigger] lhs.contains(m) implies rhs.contains(m) by {
        let (b, x, y) = choose|b: int, x: int, y: int| 0 <= y < pairs2.len() as int
            && #[trigger] join_yields(table, s1, s2, tags1, s3, s4, tags2, pairs2, n, b, x, y, m);
        let pr = table[b].1@[x];
        assert(pairs1.contains(pr));
        let u = choose|u: int| 0 <= u < pairs1.len() && pairs1[u] == pr;
        assert(m == assemble(tags1, tags2, s1[pairs1[u].0 as int]@, s2[pairs1[u].1 as int]@,
            s3[pairs2[y].0 as int]@, s4[pairs2[y].1 as int]@));
    }
    assert forall|m: Seq<Seq<i8>>| #[trigger] rhs.contains(m) implies lhs.contains(m) by {
        let (u, y) = choose|u: int, y: int| 0 <= u < pairs1.len() && 0 <= y < pairs2.len()
            && m == #[trigger] assemble(tags1, tags2, s1[pairs1[u].0 as int]@, s2[pairs1[u].1 as int]@,
                s3[pairs2[y].0 as int]@, s4[pairs2[y].1 as int]@)
            && valid_qts(m, n);
        let (i, j) = pairs1[u];
        let (k, l) = pairs2[y];
        let b = choose|b: int| 0 <= b < table.len() && (#[trigger] table[b]).1@.contains(#[trigger] pairs1[u]);
        let x = choose|x: int| 0 <= x < table[b].1@.len() && table[b].1@[x] == pairs1[u];
        assert(table[b].0.key() == fingerprint(s1[i as int]@, s2[j as int]@, tags1));
        law_valid_pairs_have_matching_fingerprints(tags1, tags2, s1[i as int]@, s2[j as int]@, s3[k as int]@, s4[l as int]@);
        assert(join_yields(table, s1, s2, tags1, s3, s4, tags2, pairs2, n, b, x, y, m));
    }
    assert(lhs =~= rhs);
}

proof fn lemma_neg_autocorrelation_upto(s: Seq<i8>, t: int, k: int)
    requires
        signed_entries(s),
        0 <= k <= s.len(),
    ensures
        autocorrelation_upto(neg_seq(s), t, k) == autocorrelation_upto(s, t, k),
    decreases k,
{
    if k > 0 {
        lemma_neg_autocorrelation_upto(s, t, k - 1);
        let j = (k - 1 + t) % (s.len() as int);
        vstd::arithmetic::div_mod::lemma_mod_bound(k - 1 + t, s.len() as int);
        assert(s[k - 1] != i8::MIN && s[j] != i8::MIN);
        let x = s[k - 1] as int;
        let y = s[j] as int;
        assert((-x) * (-y) == x * y) by (nonlinear_arith);
    }
}

/// Negating a sequence keeps its periodic autocorrelations.
pub proof fn lemma_neg_autocorrelation(s: Seq<i8>, t: int)
    requires
        signed_entries(s),
    ensures
        autocorrelation(neg_seq(s), t) == autocorrelation(s, t),
{
    lemma_neg_autocorrelation_upto(s, t, s.len() as int);
}

/// The generators that only negate and exchange whole components.
pub open spec fn moves_components(g: Generator) -> bool {
    g == Generator::Negate || g == Generator::DoubleNegate || g == Generator::Reorder
        || g == Generator::DoubleReorder || g == Generator::DisjointSwaps || g == Generator::NegateSwap
}

proof fn lemma_negate_model_total(q: Seq<Seq<i8>>, n: nat, k: int, t: int)
    requires
        model_ok(q, n),
        0 <= k < 4,
    ensures
        autocorrelation_total(negate_model(q, k), t) == autocorrelation_total(q, t),
        model_ok(negate_model(q, k), n),
        symmetric(q, n) ==> symmetric(negate_model(q, k), n),
{
    assert(signed_entries(q[k]));
    lemma_neg_autocorrelation(q[k], t);
    let m = negate_model(q, k);
    if symmetric(q, n) {
        assert forall|c: int, u: int| 0 <= c < 4 && 1 <= u <= n / 2 implies #[trigger] m[c][u] == m[c][n - u] by {
            assert(q[c][u] == q[c][n - u]);
        }
    }
    assert forall|c: int| 0 <= c < 4 implies (#[trigger] m[c]).len() == n && signed_entries(m[c]) by {
        if c == k {
            assert forall|i: int| 0 <= i < m[c].len() implies #[trigger] m[c][i] != i8::MIN by {
                assert(q[k][i] != i8::MIN);
            }
        }
    }
}

proof fn lemma_swap_model_total(q: Seq<Seq<i8>>, n: nat, i: int, j: int, t: int)
    requires
        model_ok(q, n),
        0 <= i < 4,
        0 <= j < 4,
    ensures
        autocorrelation_total(swap_model(q, i, j), t) == autocorrelation_total(q, t),
        model_ok(swap_model(q, i, j), n),
        symmetric(q, n) ==> symmetric(swap_model(q, i, j), n),
{
    let m = swap_model(q, i, j);
    assert forall|c: int| 0 <= c < 4 implies (#[trigger] m[c]).len() == n && signed_entries(m[c]) by {
        assert(m[c] == q[c] || m[c] == q[i] || m[c] == q[j]);
    }
    if symmetric(q, n) {
        assert forall|c: int, u: int| 0 <= c < 4 && 1 <= u <= n / 2 implies #[trigger] m[c][u] == m[c][n - u] by {
            let src = if c == j { i } else if c == i { j } else { c };
            assert(m[c] == q[src]);
        }
    }
}

/// The generators that only negate and exchange whole components keep a
/// quadruple periodic complementary.
pub proof fn law_component_moves_keep_complementary(g: Generator, q: Seq<Seq<i8>>, n: nat, j: int)
    requires
        moves_components(g),
        model_ok(q, n),
        periodic_complementary(q, n),
        0 <= j < gen_count(g, n),
    ensures
        periodic_complementary(gen_image(g, q, j), n),
{
    let m = gen_image(g, q, j);
    assert(q[0].len() == n);
    assert forall|t: int| 1 <= t < n implies #[trigger] autocorrelation_total(m, t) == 0 by {
        match g {
            Generator::Negate => {
                lemma_negate_model_total(q, n, j, t);
            },
            Generator::DoubleNegate => {
                lemma_negate_model_total(q, n, pair_first(j), t);
                lemma_negate_model_total(negate_model(q, pair_first(j)), n, pair_second(j), t);
            },
            Generator::Reorder => {
                lemma_swap_model_total(q, n, pair_first(j), pair_second(j), t);
            },
            Generator::DoubleReorder => {
                if j / 6 != j % 6 {
                    lemma_swap_model_total(q, n, pair_first(j / 6), pair_second(j / 6), t);
                    lemma_swap_model_total(swap_model(q, pair_first(j / 6), pair_second(j / 6)), n,
                        pair_first(j % 6), pair_second(j % 6), t);
                }
            },
            Generator::DisjointSwaps => {
                lemma_swap_model_total(q, n, 0, j + 1, t);
                lemma_swap_model_total(swap_model(q, 0, j + 1), n, if j == 0 { 2 } else { 1 }, if j == 2 { 2 } else { 3 }, t);
            },
            Generator::NegateSwap => {
                lemma_negate_model_total(q, n, j % 4, t);
                lemma_swap_model_total(negate_model(q, j % 4), n, pair_first(j / 4), pair_second(j / 4), t);
            },
            _ => {},
        }
    }
}

/// The generators of the Williamson type that negate or exchange whole
/// components map a valid Williamson quadruple to a valid one.
pub proof fn law_williamson_component_moves_keep_validity(g: Generator, q: Seq<Seq<i8>>, n: nat, j: int)
    requires
        g == Generator::Negate || g == Generator::Reorder,
        model_ok(q, n),
        valid_of_type(q, n, SequenceType::Williamson),
        0 <= j < gen_count(g, n),
    ensures
        valid_of_type(gen_image(g, q, j), n, SequenceType::Williamson),
{
    law_component_moves_keep_complementary(g, q, n, j);
    if g == Generator::Negate {
        lemma_negate_model_total(q, n, j, 0);
    } else {
        lemma_swap_model_total(q, n, pair_first(j), pair_second(j), 0);
    }
}

proof fn lemma_neg_cross_upto(s1: Seq<i8>, s2: Seq<i8>, t: int, k: int, left: bool)
    requires
        signed_entries(s1),
        signed_entries(s2),
        s1.len() == s2.len(),
        0 <= k <= s1.len(),
    ensures
        left ==> crosscorrelation_upto(neg_seq(s1), s2, t, k) == -crosscorrelation_upto(s1, s2, t, k),
        !left ==> crosscorrelation_upto(s1, neg_seq(s2), t, k) == -crosscorrelation_upto(s1, s2, t, k),
    decreases k,
{
    if k > 0 {
        lemma_neg_cross_upto(s1, s2, t, k - 1, left);
        let j = (k - 1 - t) % (s1.len() as int);
        vstd::arithmetic::div_mod::lemma_mod_bound(k - 1 - t, s1.len() as int);
        assert(s1[k - 1] != i8::MIN && s2[j] != i8::MIN);
        let x = s1[k - 1] as int;
        let y = s2[j] as int;
        assert((-x) * y == -(x * y)) by (nonlinear_arith);
        assert(x * (-y) == -(x * y)) by (nonlinear_arith);
    }
}

/// Negating one component flips the sign of each antisymmetric
/// cross-correlation in which exactly one of the two sequences is that component.
proof fn lemma_negate_cross_difference(q: Seq<Seq<i8>>, n: nat, k: int, t: int)
    requires
        model_ok(q, n),
        0 <= k < 4,
    ensures
        forall|x: int, y: int| 0 <= x < 4 && 0 <= y < 4 ==> #[trigger] cross_difference(negate_model(q, k)[x], negate_model(q, k)[y], t)
            == if (x == k) != (y == k) { -cross_difference(q[x], q[y], t) } else { cross_difference(q[x], q[y], t) },
{
    let m = negate_model(q, k);
    assert forall|x: int, y: int| 0 <= x < 4 && 0 <= y < 4 implies #[trigger] cross_difference(m[x], m[y], t)
        == if (x == k) != (y == k) { -cross_difference(q[x], q[y], t) } else { cross_difference(q[x], q[y], t) } by {
        assert(signed_entries(q[x]) && signed_entries(q[y]) && q[x].len() == n && q[y].len() == n);
        let nq = neg_seq(q[k]);
        assert(signed_entries(nq)) by {
            assert forall|i: int| 0 <= i < nq.len() implies #[trigger] nq[i] != i8::MIN by {
                assert(q[k][i] != i8::MIN);
            }
        }
        if x == k && y != k {
            lemma_neg_cross_upto(q[x], q[y], t, n as int, true);
            lemma_neg_cross_upto(q[y], q[x], t, n as int, false);
        } else if y == k && x != k {
            lemma_neg_cross_upto(q[x], q[y], t, n as int, false);
            lemma_neg_cross_upto(q[y], q[x], t, n as int, true);
        } else if x == k && y == k {
            lemma_neg_cross_upto(q[k], q[k], t, n as int, true);
            lemma_neg_cross_upto(nq, q[k], t, n as int, false);
        }
    }
}

/// Negating two components maps a valid quaternion-type quadruple to a valid one.
pub proof fn law_double_negate_keeps_quaternion_validity(q: Seq<Seq<i8>>, n: nat, j: int)
    requires
        model_ok(q, n),
        valid_qts(q, n),
        0 <= j < 6,
    ensures
        valid_qts(gen_image(Generator::DoubleNegate, q, j), n),
{
    law_component_moves_keep_complementary(Generator::DoubleNegate, q, n, j);
    let i1 = pair_first(j);
    let i2 = pair_second(j);
    let q1 = negate_model(q, i1);
    let m = negate_model(q1, i2);
    assert(q[0].len() == n);
    assert forall|t: int| 0 <= t < n implies #[trigger] cross_identity_at(m, t) by {
        lemma_negate_model_total(q, n, i1, t);
        lemma_negate_cross_difference(q, n, i1, t);
        lemma_negate_cross_difference(q1, n, i2, t);
        assert(cross_identity_at(q, t));
    }
}

} // verus!
