//! A bound on how many distinct quadruples of a given length exist, which
//! makes the closure computation terminate.
use vstd::prelude::*;
use vstd::relations::injective_on;
use vstd::set_lib::{lemma_int_range, lemma_len_subset, lemma_map_size, set_int_range};
use crate::quad::{QuadSeq, model_wf};
use crate::equivalence::{distinct_views, family_ok};

verus! {

/// `256` to the power `m`.
pub open spec fn pow256(m: nat) -> nat
    decreases m,
{
    if m == 0 { 1 } else { 256 * pow256((m - 1) as nat) }
}

/// The entries of `s`, read as the digits of a number in base 256.
pub open spec fn digits(s: Seq<i8>) -> int
    decreases s.len(),
{
    if s.len() == 0 { 0 } else { (s[0] + 128) + 256 * digits(s.drop_first()) }
}

/// The four components laid end to end.
pub open spec fn flat(q: Seq<Seq<i8>>) -> Seq<i8> {
    q[0] + q[1] + q[2] + q[3]
}

/// A quadruple read as one number: the digits of its four components laid end to end.
pub open spec fn code(q: Seq<Seq<i8>>) -> int {
    digits(flat(q))
}

proof fn lemma_digits_range(s: Seq<i8>)
    ensures
        0 <= digits(s) < pow256(s.len()),
    decreases s.len(),
{
    if s.len() > 0 {
        lemma_digits_range(s.drop_first());
        let d = s[0] + 128;
        let r = digits(s.drop_first());
        let p = pow256((s.len() - 1) as nat) as int;
        assert(0 <= d < 256);
        assert(0 <= d + 256 * r < 256 * p) by (nonlinear_arith)
            requires
                0 <= d < 256,
                0 <= r < p,
        ;
    }
}

proof fn lemma_digits_injective(s: Seq<i8>, t: Seq<i8>)
    requires
        s.len() == t.len(),
        digits(s) == digits(t),
    ensures
        s == t,
    decreases s.len(),
{
    if s.len() > 0 {
        let ds = s[0] + 128;
        let dt = t[0] + 128;
        let rs = digits(s.drop_first());
        let rt = digits(t.drop_first());
        assert(ds + 256 * rs == dt + 256 * rt);
        assert(ds == dt && rs == rt) by (nonlinear_arith)
            requires
                ds + 256 * rs == dt + 256 * rt,
                0 <= ds < 256,
                0 <= dt < 256,
        ;
        lemma_digits_injective(s.drop_first(), t.drop_first());
        assert forall|i: int| 0 <= i < s.len() implies s[i] == t[i] by {
            if i > 0 {
                assert(s[i] == s.drop_first()[i - 1]);
                assert(t[i] == t.drop_first()[i - 1]);
            }
        }
        assert(s =~= t);
    }
}

proof fn lemma_flat_injective(q1: Seq<Seq<i8>>, q2: Seq<Seq<i8>>, n: nat)
    requires
        model_wf(q1, n),
        model_wf(q2, n),
        flat(q1) == flat(q2),
    ensures
        q1 == q2,
{
    let f1 = flat(q1);
    let f2 = flat(q2);
    let m = n as int;
    assert(q1[0] =~= f1.subrange(0, m) && q2[0] =~= f2.subrange(0, m));
    assert(q1[1] =~= f1.subrange(m, 2 * m) && q2[1] =~= f2.subrange(m, 2 * m));
    assert(q1[2] =~= f1.subrange(2 * m, 3 * m) && q2[2] =~= f2.subrange(2 * m, 3 * m));
    assert(q1[3] =~= f1.subrange(3 * m, 4 * m) && q2[3] =~= f2.subrange(3 * m, 4 * m));
    assert(q1 =~= q2);
}

/// A collection of distinct well-formed quadruples of length `n` has at most
/// `256^(4n)` members.
pub proof fn lemma_family_bound(v: Seq<QuadSeq>, n: nat)
    requires
        family_ok(v, n),
        distinct_views(v),
    ensures
        v.len() <= pow256(4 * n),
{
    let xs = v.map_values(|x: QuadSeq| x@);
    assert(xs.no_duplicates()) by {
        assert forall|i: int, j: int| 0 <= i < xs.len() && 0 <= j < xs.len() && i != j implies xs[i] != xs[j] by {
            if i < j {
                assert(v[i]@ != v[j]@);
            } else {
                assert(v[j]@ != v[i]@);
            }
        }
    }
    xs.unique_seq_to_set();
    let s = xs.to_set();
    let f = |q: Seq<Seq<i8>>| code(q);
    assert forall|q: Seq<Seq<i8>>| #[trigger] s.contains(q) implies model_wf(q, n) && flat(q).len() == 4 * n by {
        let i = choose|i: int| 0 <= i < xs.len() && xs[i] == q;
        assert(v[i].wf() && model_wf(v[i]@, n));
    }
    assert(injective_on(f, s)) by {
        assert forall|a: Seq<Seq<i8>>, b: Seq<Seq<i8>>|
            s.contains(a) && s.contains(b) && #[trigger] f(a) == #[trigger] f(b) implies a == b by {
            lemma_digits_injective(flat(a), flat(b));
            lemma_flat_injective(a, b, n);
        }
    }
    lemma_map_size(s, s.map(f), f);
    let bound = pow256(4 * n) as int;
    assert forall|c: int| #[trigger] s.map(f).contains(c) implies set_int_range(0, bound).contains(c) by {
        let q = choose|q: Seq<Seq<i8>>| s.contains(q) && f(q) == c;
        lemma_digits_range(flat(q));
    }
    lemma_int_range(0, bound);
    lemma_len_subset(s.map(f), set_int_range(0, bound));
}

} // verus!
