//! Rowsum quadruples and the sequences that have a given rowsum.
use vstd::prelude::*;
use vstd::string::*;
use crate::quad::is_antipodal;
use crate::symmetries::SequenceType;
use itertools::Itertools;

verus! {

/// Four integers: the rowsums of the four components.
pub type Quad = (isize, isize, isize, isize);

/// Sum of the entries.
pub open spec fn seq_sum(s: Seq<i8>) -> int
    decreases s.len(),
{
    if s.len() == 0 { 0 } else { s[0] + seq_sum(s.drop_first()) }
}

/// Number of entries equal to `+1`.
pub open spec fn ones(s: Seq<i8>) -> int
    decreases s.len(),
{
    if s.len() == 0 { 0 } else { (if s[0] == 1 { 1int } else { 0int }) + ones(s.drop_first()) }
}

/// The antipodal sequences of length `n` whose entries sum to `r`.
pub open spec fn sequences_with_rowsum(r: int, n: nat) -> Set<Seq<i8>> {
    Set::new(|t: Seq<i8>| t.len() == n && is_antipodal(t) && seq_sum(t) == r)
}

proof fn lemma_sum_ones(s: Seq<i8>)
    requires
        is_antipodal(s),
    ensures
        seq_sum(s) == 2 * ones(s) - s.len(),
        0 <= ones(s) <= s.len(),
        ones(s) == 0 ==> forall|i: int| 0 <= i < s.len() ==> s[i] == -1,
    decreases s.len(),
{
    if s.len() > 0 {
        assert(s[0] == 1 || s[0] == -1);
        lemma_sum_ones(s.drop_first());
        if ones(s) == 0 {
            assert forall|i: int| 0 <= i < s.len() implies #[trigger] s[i] == -1 by {
                if i > 0 {
                    assert(s[i] == s.drop_first()[i - 1]);
                }
            }
        }
    }
}

/// Whether one of the four values is zero.
pub fn quad_contains_zero(quad: &Quad) -> (r: bool)
    ensures
        r == (quad.0 == 0 || quad.1 == 0 || quad.2 == 0 || quad.3 == 0),
{
    (quad.0 == 0) || (quad.1 == 0) || (quad.2 == 0) || (quad.3 == 0)
}

/// Whether two of the four values are equal.
pub fn quad_contains_dup(quad: &Quad) -> (r: bool)
    ensures
        r == (quad.0 == quad.1 || quad.0 == quad.2 || quad.0 == quad.3 || quad.1 == quad.2
            || quad.1 == quad.3 || quad.2 == quad.3),
{
    (quad.0 == quad.1) || (quad.0 == quad.2) || (quad.0 == quad.3) || (quad.1 == quad.2) || (quad.1
        == quad.3) || (quad.2 == quad.3)
}

/// The character that stands for an antipodal entry.
pub open spec fn sign_char(e: i8) -> char {
    if e == 1 { '+' } else { '-' }
}

/// One character per entry: `+` for `+1`, `-` for `-1`.
pub open spec fn sign_text(s: Seq<i8>) -> Seq<char> {
    Seq::new(s.len(), |i: int| sign_char(s[i]))
}

/// The sequence written with one character per entry.
pub fn sequence_to_string(seq: &Vec<i8>) -> (r: String)
    requires
        is_antipodal(seq@),
    ensures
        r@ == sign_text(seq@),
{
    let mut res = String::new();
    let mut i: usize = 0;
    while i < seq.len()
        invariant
            0 <= i <= seq@.len(),
            res@ == sign_text(seq@).subrange(0, i as int),
        decreases seq@.len() - i,
    {
        proof { reveal_strlit("+"); reveal_strlit("-"); }
        if seq[i] == 1 {
            res.append("+");
        } else {
            res.append("-");
        }
        i = i + 1;
        assert(res@ =~= sign_text(seq@).subrange(0, i as int));
    }
    assert(res@ =~= sign_text(seq@));
    res
}

proof fn lemma_sum_prefix(s: Seq<i8>, i: int)
    requires
        0 <= i < s.len(),
    ensures
        seq_sum(s.subrange(0, i + 1)) == seq_sum(s.subrange(0, i)) + s[i],
    decreases i,
{
    if i > 0 {
        lemma_sum_prefix(s.drop_first(), i - 1);
        assert(s.subrange(0, i + 1).drop_first() =~= s.drop_first().subrange(0, i));
        assert(s.subrange(0, i).drop_first() =~= s.drop_first().subrange(0, i - 1));
        assert(s.subrange(0, i + 1)[0] == s[0] && s.subrange(0, i)[0] == s[0]);
        assert(s.drop_first()[i - 1] == s[i]);
    } else {
        assert(s.subrange(0, 0) =~= Seq::<i8>::empty());
        assert(s.subrange(0, 1).drop_first() =~= Seq::<i8>::empty());
    }
}

/// The sum of the entries.
pub fn rowsum(seq: Vec<i8>) -> (r: isize)
    requires
        128 * seq@.len() <= isize::MAX,
    ensures
        r == seq_sum(seq@),
{
    let mut res: isize = 0;
    let mut i: usize = 0;
    while i < seq.len()
        invariant
            0 <= i <= seq@.len(),
            128 * seq@.len() <= isize::MAX,
            res == seq_sum(seq@.subrange(0, i as int)),
            -128 * i <= res <= 128 * i,
        decreases seq@.len() - i,
    {
        proof { lemma_sum_prefix(seq@, i as int); }
        res = res + seq[i] as isize;
        i = i + 1;
    }
    assert(seq@.subrange(0, seq@.len() as int) =~= seq@);
    res
}

/// The completions of `s`: antipodal sequences that agree with `s` before
/// `pos` and have `rem` entries `+1` from `pos` on.
pub open spec fn completions(s: Seq<i8>, rem: int, pos: int) -> Set<Seq<i8>> {
    Set::new(
        |t: Seq<i8>|
            t.len() == s.len() && is_antipodal(t) && t.subrange(0, pos) == s.subrange(0, pos)
                && ones(t.subrange(pos, t.len() as int)) == rem,
    )
}

/// The sequences that a collection holds.
pub open spec fn seq_views(v: Seq<Vec<i8>>) -> Set<Seq<i8>> {
    Set::new(|t: Seq<i8>| exists|i: int| 0 <= i < v.len() && (#[trigger] v[i])@ == t)
}

/// No two members are equal.
pub open spec fn distinct_seqs(v: Seq<Vec<i8>>) -> bool {
    forall|i: int, j: int| 0 <= i < j < v.len() ==> (#[trigger] v[i])@ != (#[trigger] v[j])@
}

proof fn lemma_ones_split(t: Seq<i8>, pos: int)
    requires
        0 <= pos < t.len(),
    ensures
        ones(t.subrange(pos, t.len() as int)) == (if t[pos] == 1 { 1int } else { 0int }) + ones(
            t.subrange(pos + 1, t.len() as int),
        ),
{
    assert(t.subrange(pos, t.len() as int).drop_first() =~= t.subrange(pos + 1, t.len() as int));
}

/// Every completion of `seq` from `current_pos` on with `remaining_ones`
/// entries `+1`, each once. `seq` holds `-1` from `current_pos` on and is
/// handed back unchanged.
pub fn gen_seq_rec(seq: &mut Vec<i8>, remaining_ones: usize, current_pos: usize) -> (r: Vec<Vec<i8>>)
    requires
        current_pos <= old(seq)@.len(),
        is_antipodal(old(seq)@),
        forall|i: int| current_pos <= i < old(seq)@.len() ==> old(seq)@[i] == -1,
    ensures
        final(seq)@ == old(seq)@,
        distinct_seqs(r@),
        seq_views(r@) == completions(old(seq)@, remaining_ones as int, current_pos as int),
    decreases old(seq)@.len() - current_pos,
{
    let ghost s0 = seq@;
    let n = seq.len();
    if remaining_ones == 0 {
        let r = vec![seq.clone()];
        proof {
            assert(r@[0]@ == s0);
            assert(seq_views(r@) =~= completions(s0, 0, current_pos as int)) by {
                assert forall|t: Seq<i8>| #[trigger] completions(s0, 0, current_pos as int).contains(t) implies t == s0 by {
                    let tail = t.subrange(current_pos as int, n as int);
                    assert(is_antipodal(tail));
                    lemma_sum_ones(tail);
                    assert forall|i: int| 0 <= i < n implies #[trigger] t[i] == s0[i] by {
                        if i < current_pos {
                            assert(t.subrange(0, current_pos as int)[i] == s0.subrange(0, current_pos as int)[i]);
                        } else {
                            assert(tail[i - current_pos] == -1);
                        }
                    }
                    assert(t =~= s0);
                }
                let tail0 = s0.subrange(current_pos as int, n as int);
                assert forall|i: int| 0 <= i < tail0.len() implies #[trigger] tail0[i] == -1 by {}
                lemma_ones_zero(tail0);
                assert(completions(s0, 0, current_pos as int).contains(s0));
            }
        }
        return r;
    }
    if remaining_ones > n - current_pos {
        proof {
            assert(seq_views(Seq::<Vec<i8>>::empty()) =~= completions(s0, remaining_ones as int, current_pos as int)) by {
                assert forall|t: Seq<i8>| !#[trigger] completions(s0, remaining_ones as int, current_pos as int).contains(t) by {
                    if t.len() == s0.len() && is_antipodal(t) {
                        let tail = t.subrange(current_pos as int, t.len() as int);
                        assert(is_antipodal(tail));
                        lemma_sum_ones(tail);
                    }
                }
            }
        }
        return Vec::new();
    }
    let mut results2 = gen_seq_rec(seq, remaining_ones, current_pos + 1);
    seq.set(current_pos, 1);
    let ghost s1 = seq@;
    let mut results1 = gen_seq_rec(seq, remaining_ones - 1, current_pos + 1);
    seq.set(current_pos, -1);
    assert(seq@ =~= s0);
    let ghost r1 = results1@;
    let ghost r2 = results2@;
    results1.append(&mut results2);
    proof {
        let c = completions(s0, remaining_ones as int, current_pos as int);
        let c1 = completions(s1, remaining_ones - 1, current_pos + 1);
        let c2 = completions(s0, remaining_ones as int, current_pos + 1);
        let p = current_pos as int;
        assert(results1@ =~= r1 + r2);
        assert forall|t: Seq<i8>| #[trigger] c1.contains(t) implies t[p] == 1 by {
            assert(t.subrange(0, p + 1)[p] == s1.subrange(0, p + 1)[p]);
        }
        assert forall|t: Seq<i8>| #[trigger] c2.contains(t) implies t[p] == -1 by {
            assert(t.subrange(0, p + 1)[p] == s0.subrange(0, p + 1)[p]);
        }
        assert(distinct_seqs(results1@)) by {
            assert forall|i: int, j: int| 0 <= i < j < results1@.len() implies (#[trigger] results1@[i])@ != (#[trigger] results1@[j])@ by {
                if i < r1.len() && j >= r1.len() {
                    assert(seq_views(r1).contains(r1[i]@));
                    assert(seq_views(r2).contains(r2[j - r1.len()]@));
                } else if j < r1.len() {
                    assert(r1[i] == results1@[i] && r1[j] == results1@[j]);
                } else {
                    assert(r2[i - r1.len()] == results1@[i] && r2[j - r1.len()] == results1@[j]);
                }
            }
        }
        assert(seq_views(results1@) =~= c) by {
            assert forall|t: Seq<i8>| #[trigger] seq_views(results1@).contains(t) implies c.contains(t) by {
                let i = choose|i: int| 0 <= i < results1@.len() && (#[trigger] results1@[i])@ == t;
                if i < r1.len() {
                    assert(seq_views(r1).contains(t));
                    assert(c1.contains(t));
                    lemma_ones_split(t, p);
                    assert(t.subrange(0, p) =~= t.subrange(0, p + 1).subrange(0, p));
                    assert(s0.subrange(0, p) =~= s1.subrange(0, p + 1).subrange(0, p));
                } else {
                    assert(r2[i - r1.len()] == results1@[i]);
                    assert(seq_views(r2).contains(t));
                    assert(c2.contains(t));
                    lemma_ones_split(t, p);
                    assert(t.subrange(0, p) =~= t.subrange(0, p + 1).subrange(0, p));
                    assert(s0.subrange(0, p) =~= s0.subrange(0, p + 1).subrange(0, p));
                }
            }
            assert forall|t: Seq<i8>| #[trigger] c.contains(t) implies seq_views(results1@).contains(t) by {
                lemma_ones_split(t, p);
                assert(t[p] == 1 || t[p] == -1);
                if t[p] == 1 {
                    assert(t.subrange(0, p + 1) =~= s1.subrange(0, p + 1)) by {
                        assert forall|i: int| 0 <= i < p + 1 implies #[trigger] t.subrange(0, p + 1)[i] == s1.subrange(0, p + 1)[i] by {
                            if i < p {
                                assert(t.subrange(0, p)[i] == s0.subrange(0, p)[i]);
                            }
                        }
                    }
                    assert(c1.contains(t));
                    assert(seq_views(r1).contains(t));
                    let i = choose|i: int| 0 <= i < r1.len() && (#[trigger] r1[i])@ == t;
                    assert(results1@[i] == r1[i]);
                } else {
                    assert(t.subrange(0, p + 1) =~= s0.subrange(0, p + 1)) by {
                        assert forall|i: int| 0 <= i < p + 1 implies #[trigger] t.subrange(0, p + 1)[i] == s0.subrange(0, p + 1)[i] by {
                            if i < p {
                                assert(t.subrange(0, p)[i] == s0.subrange(0, p)[i]);
                            }
                        }
                    }
                    assert(c2.contains(t));
                    assert(seq_views(r2).contains(t));
                    let i = choose|i: int| 0 <= i < r2.len() && (#[trigger] r2[i])@ == t;
                    assert(results1@[i + r1.len()] == r2[i]);
                }
            }
        }
    }
    results1
}

proof fn lemma_ones_zero(s: Seq<i8>)
    requires
        forall|i: int| 0 <= i < s.len() ==> s[i] == -1,
    ensures
        ones(s) == 0,
    decreases s.len(),
{
    if s.len() > 0 {
        assert forall|i: int| 0 <= i < s.drop_first().len() implies #[trigger] s.drop_first()[i] == -1 by {
            assert(s.drop_first()[i] == s[i + 1]);
        }
        lemma_ones_zero(s.drop_first());
    }
}

/// Every antipodal sequence of length `size` whose entries sum to `rowsum`, each once.
pub fn generate_sequences_with_rowsum(rowsum: isize, size: usize) -> (r: Vec<Vec<i8>>)
    ensures
        distinct_seqs(r@),
        seq_views(r@) == sequences_with_rowsum(rowsum as int, size as nat),
{
    let ghost target = sequences_with_rowsum(rowsum as int, size as nat);
    let ghost n = size as int;
    let r128 = rowsum as i128;
    let n128 = size as i128;
    if r128 < -n128 || r128 > n128 || (r128 + n128) % 2 != 0 {
        proof {
            assert(seq_views(Seq::<Vec<i8>>::empty()) =~= target) by {
                assert forall|t: Seq<i8>| !#[trigger] target.contains(t) by {
                    if t.len() == size && is_antipodal(t) {
                        lemma_sum_ones(t);
                    }
                }
            }
        }
        return Vec::new();
    }
    let nb_ones = ((n128 + r128) / 2) as usize;
    let mut seq: Vec<i8> = vec![-1i8; size];
    let r = gen_seq_rec(&mut seq, nb_ones, 0);
    proof {
        let s0 = seq@;
        assert(seq_views(r@) =~= target) by {
            assert forall|t: Seq<i8>| #[trigger] target.contains(t) <==> completions(s0, nb_ones as int, 0).contains(t) by {
                assert(t.subrange(0, 0) =~= s0.subrange(0, 0));
                assert(t.subrange(0, t.len() as int) =~= t);
                if t.len() == size && is_antipodal(t) {
                    lemma_sum_ones(t);
                }
            }
        }
    }
    r
}

// ---------------------------------------------------------------------------
// Rowsum quadruples.

/// The four values of a quadruple, in order.
pub open spec fn quad_seq(q: Quad) -> Seq<isize> {
    seq![q.0, q.1, q.2, q.3]
}

/// The quadruple with the four values of `s`.
pub open spec fn seq_quad(s: Seq<isize>) -> Quad {
    (s[0], s[1], s[2], s[3])
}

/// Sum of the squares of the four values.
pub open spec fn square_sum_spec(q: Quad) -> int {
    q.0 * q.0 + q.1 * q.1 + q.2 * q.2 + q.3 * q.3
}

/// Nonnegative and nondecreasing.
pub open spec fn sorted_quad(q: Quad) -> bool {
    0 <= q.0 <= q.1 <= q.2 <= q.3
}

/// `q1` comes before `q2` in lexicographic order.
pub open spec fn better_than_spec(q1: Quad, q2: Quad) -> bool {
    if q1.0 != q2.0 {
        q1.0 < q2.0
    } else if q1.1 != q2.1 {
        q1.1 < q2.1
    } else if q1.2 != q2.2 {
        q1.2 < q2.2
    } else {
        q1.3 < q2.3
    }
}

/// The four positions that the `k`-th double exchange touches.
pub open spec fn swap_table(k: int) -> (int, int, int, int) {
    if k == 0 { (0, 1, 2, 3) }
    else if k == 1 { (0, 2, 1, 3) }
    else if k == 2 { (0, 3, 1, 2) }
    else if k == 3 { (0, 1, 1, 2) }
    else if k == 4 { (0, 1, 1, 3) }
    else if k == 5 { (0, 2, 1, 2) }
    else if k == 6 { (0, 2, 2, 3) }
    else if k == 7 { (0, 3, 1, 3) }
    else if k == 8 { (0, 3, 2, 3) }
    else if k == 9 { (1, 2, 2, 3) }
    else { (1, 3, 2, 3) }
}

/// Positions `i` and `j` exchanged.
pub open spec fn swap_positions(s: Seq<isize>, i: int, j: int) -> Seq<isize> {
    s.update(i, s[j]).update(j, s[i])
}

/// The `k`-th double exchange of `q`.
pub open spec fn swap_variant(q: Quad, k: int) -> Quad {
    let (a, b, c, d) = swap_table(k);
    seq_quad(swap_positions(swap_positions(quad_seq(q), a, b), c, d))
}

/// The least of `q` and its first `k` double exchanges.
pub open spec fn least_variant(q: Quad, k: int) -> Quad
    decreases k,
{
    if k <= 0 {
        q
    } else {
        let prev = least_variant(q, k - 1);
        let t = swap_variant(q, k - 1);
        if better_than_spec(t, prev) { t } else { prev }
    }
}

/// The representative of the class of rowsum quadruples that `q` lies in.
pub open spec fn equivalent_spec(q: Quad) -> Quad {
    least_variant(q, 11)
}

fn square_sum(s: &Quad) -> (r: u64)
    requires
        -65536 <= s.0 <= 65536,
        -65536 <= s.1 <= 65536,
        -65536 <= s.2 <= 65536,
        -65536 <= s.3 <= 65536,
    ensures
        r == square_sum_spec(*s),
{
    assert(0 <= s.0 * s.0 <= 65536 * 65536) by (nonlinear_arith) requires -65536 <= s.0 <= 65536;
    assert(0 <= s.1 * s.1 <= 65536 * 65536) by (nonlinear_arith) requires -65536 <= s.1 <= 65536;
    assert(0 <= s.2 * s.2 <= 65536 * 65536) by (nonlinear_arith) requires -65536 <= s.2 <= 65536;
    assert(0 <= s.3 * s.3 <= 65536 * 65536) by (nonlinear_arith) requires -65536 <= s.3 <= 65536;
    let a = s.0 as i64;
    let b = s.1 as i64;
    let c = s.2 as i64;
    let d = s.3 as i64;
    (a * a + b * b + c * c + d * d) as u64
}

fn sq(x: i64) -> (r: i64)
    requires
        0 <= x <= 65536,
    ensures
        r == x * x,
        0 <= r <= 4294967296,
{
    assert(0 <= x * x <= 4294967296) by (nonlinear_arith) requires 0 <= x <= 65536;
    x * x
}

/// Every nonnegative nondecreasing quadruple whose squares sum to `p`, in
/// lexicographic order.
pub fn sum_of_four_squares(p: usize) -> (r: Vec<Quad>)
    requires
        p <= u32::MAX,
    ensures
        forall|i: int| 0 <= i < r@.len() ==> sorted_quad(#[trigger] r@[i]) && square_sum_spec(r@[i]) == p,
        forall|q: Quad| sorted_quad(q) && square_sum_spec(q) == p ==> r@.contains(q),
        forall|i: int, j: int| 0 <= i < j < r@.len() ==> better_than_spec(#[trigger] r@[i], #[trigger] r@[j]),
{
    let mut squares_list: Vec<Quad> = Vec::new();
    let mut a: i64 = 0;
    while sq(a) <= p as i64
        invariant
            0 <= a <= 65536,
            p <= u32::MAX,
            forall|i: int| 0 <= i < squares_list@.len() ==> sorted_quad(#[trigger] squares_list@[i])
                && square_sum_spec(squares_list@[i]) == p && squares_list@[i].0 < a,
            forall|q: Quad| sorted_quad(q) && square_sum_spec(q) == p && q.0 < a ==> squares_list@.contains(q),
            forall|i: int, j: int| 0 <= i < j < squares_list@.len() ==> better_than_spec(#[trigger] squares_list@[i], #[trigger] squares_list@[j]),
        decreases 65537 - a,
    {
        assert(a < 65536) by (nonlinear_arith) requires a * a <= p, p <= u32::MAX, 0 <= a;
        let mut b: i64 = a;
        while sq(a) + sq(b) <= p as i64
            invariant
                0 <= a <= b <= 65536,
                a < 65536,
                a * a <= p,
                p <= u32::MAX,
                forall|i: int| 0 <= i < squares_list@.len() ==> sorted_quad(#[trigger] squares_list@[i])
                    && square_sum_spec(squares_list@[i]) == p && (squares_list@[i].0 < a || (squares_list@[i].0 == a && squares_list@[i].1 < b)),
                forall|q: Quad| sorted_quad(q) && square_sum_spec(q) == p && (q.0 < a || (q.0 == a && q.1 < b)) ==> squares_list@.contains(q),
                forall|i: int, j: int| 0 <= i < j < squares_list@.len() ==> better_than_spec(#[trigger] squares_list@[i], #[trigger] squares_list@[j]),
            decreases 65537 - b,
        {
            assert(b < 65536) by (nonlinear_arith) requires a * a + b * b <= p, p <= u32::MAX, 0 <= a;
            let mut c: i64 = b;
            while sq(a) + sq(b) + sq(c) <= p as i64
                invariant
                    0 <= a <= b <= c <= 65536,
                    b < 65536,
                    a * a + b * b <= p,
                    p <= u32::MAX,
                    forall|i: int| 0 <= i < squares_list@.len() ==> sorted_quad(#[trigger] squares_list@[i])
                        && square_sum_spec(squares_list@[i]) == p && (squares_list@[i].0 < a || (squares_list@[i].0 == a && squares_list@[i].1 < b)
                        || (squares_list@[i].0 == a && squares_list@[i].1 == b && squares_list@[i].2 < c)),
                    forall|q: Quad| sorted_quad(q) && square_sum_spec(q) == p && (q.0 < a || (q.0 == a && q.1 < b)
                        || (q.0 == a && q.1 == b && q.2 < c)) ==> squares_list@.contains(q),
                    forall|i: int, j: int| 0 <= i < j < squares_list@.len() ==> better_than_spec(#[trigger] squares_list@[i], #[trigger] squares_list@[j]),
                decreases 65537 - c,
            {
                assert(c < 65536) by (nonlinear_arith) requires a * a + b * b + c * c <= p, p <= u32::MAX, 0 <= a, 0 <= b;
                let mut d: i64 = c;
                while sq(a) + sq(b) + sq(c) + sq(d) <= p as i64
                    invariant
                        0 <= a <= b <= c <= d <= 65536,
                        c < 65536,
                        a * a + b * b + c * c <= p,
                        p <= u32::MAX,
                        forall|i: int| 0 <= i < squares_list@.len() ==> sorted_quad(#[trigger] squares_list@[i])
                            && square_sum_spec(squares_list@[i]) == p && (squares_list@[i].0 < a || (squares_list@[i].0 == a && squares_list@[i].1 < b)
                            || (squares_list@[i].0 == a && squares_list@[i].1 == b && squares_list@[i].2 < c)
                            || (squares_list@[i].0 == a && squares_list@[i].1 == b && squares_list@[i].2 == c && squares_list@[i].3 < d)),
                        forall|q: Quad| sorted_quad(q) && square_sum_spec(q) == p && (q.0 < a || (q.0 == a && q.1 < b)
                            || (q.0 == a && q.1 == b && q.2 < c) || (q.0 == a && q.1 == b && q.2 == c && q.3 < d)) ==> squares_list@.contains(q),
                        forall|i: int, j: int| 0 <= i < j < squares_list@.len() ==> better_than_spec(#[trigger] squares_list@[i], #[trigger] squares_list@[j]),
                    decreases 65537 - d,
                {
                    assert(d < 65536) by (nonlinear_arith) requires a * a + b * b + c * c + d * d <= p, p <= u32::MAX, 0 <= a, 0 <= b, 0 <= c;
                    let q: Quad = (a as isize, b as isize, c as isize, d as isize);
                    if sq(a) + sq(b) + sq(c) + sq(d) == p as i64 {
                        let ghost old_list = squares_list@;
                        squares_list.push(q);
                        proof {
                            assert forall|q2: Quad| sorted_quad(q2) && square_sum_spec(q2) == p && (q2.0 < a || (q2.0 == a && q2.1 < b)
                                || (q2.0 == a && q2.1 == b && q2.2 < c) || (q2.0 == a && q2.1 == b && q2.2 == c && q2.3 < d + 1))
                                implies squares_list@.contains(q2) by {
                                if q2 == q {
                                    assert(squares_list@[old_list.len() as int] == q);
                                } else {
                                    assert(old_list.contains(q2));
                                    let k = choose|k: int| 0 <= k < old_list.len() && old_list[k] == q2;
                                    assert(squares_list@[k] == q2);
                                }
                            }
                        }
                    } else {
                        proof {
                            assert forall|q2: Quad| sorted_quad(q2) && square_sum_spec(q2) == p && (q2.0 < a || (q2.0 == a && q2.1 < b)
                                || (q2.0 == a && q2.1 == b && q2.2 < c) || (q2.0 == a && q2.1 == b && q2.2 == c && q2.3 < d + 1))
                                implies squares_list@.contains(q2) by {
                                if q2 == q {
                                    assert(square_sum_spec(q2) == a * a + b * b + c * c + d * d);
                                }
                            }
                        }
                    }
                    d = d + 1;
                }
                proof {
                    assert forall|q2: Quad| sorted_quad(q2) && square_sum_spec(q2) == p && q2.0 == a && q2.1 == b && q2.2 == c
                        implies q2.3 < d by {
                        if q2.3 >= d {
                            assert(q2.3 * q2.3 >= d * d) by (nonlinear_arith) requires q2.3 >= d, d >= 0;
                        }
                    }
                }
                c = c + 1;
            }
            proof {
                assert forall|q2: Quad| sorted_quad(q2) && square_sum_spec(q2) == p && q2.0 == a && q2.1 == b
                    implies q2.2 < c by {
                    if q2.2 >= c {
                        assert(q2.2 * q2.2 >= c * c) by (nonlinear_arith) requires q2.2 >= c, c >= 0;
                        assert(q2.3 * q2.3 >= 0) by (nonlinear_arith);
                    }
                }
            }
            b = b + 1;
        }
        proof {
            assert forall|q2: Quad| sorted_quad(q2) && square_sum_spec(q2) == p && q2.0 == a
                implies q2.1 < b by {
                if q2.1 >= b {
                    assert(q2.1 * q2.1 >= b * b) by (nonlinear_arith) requires q2.1 >= b, b >= 0;
                    assert(q2.2 * q2.2 >= 0) by (nonlinear_arith);
                    assert(q2.3 * q2.3 >= 0) by (nonlinear_arith);
                }
            }
        }
        a = a + 1;
    }
    proof {
        assert forall|q2: Quad| sorted_quad(q2) && square_sum_spec(q2) == p implies q2.0 < a by {
            if q2.0 >= a {
                assert(q2.0 * q2.0 >= a * a) by (nonlinear_arith) requires q2.0 >= a, a >= 0;
                assert(q2.1 * q2.1 >= 0) by (nonlinear_arith);
                assert(q2.2 * q2.2 >= 0) by (nonlinear_arith);
                assert(q2.3 * q2.3 >= 0) by (nonlinear_arith);
            }
        }
    }
    squares_list
}

/// A list of the four positions, each once.
pub open spec fn is_index_perm(p: Seq<int>) -> bool {
    &&& p.len() == 4
    &&& forall|k: int| 0 <= k < 4 ==> 0 <= #[trigger] p[k] < 4
    &&& forall|k: int, l: int| 0 <= k < l < 4 ==> #[trigger] p[k] != #[trigger] p[l]
}

/// The values of `v` read in the order of the positions `p`.
pub open spec fn reorder(v: Seq<isize>, p: Seq<int>) -> Seq<isize> {
    Seq::new(4, |k: int| v[p[k]])
}

/// `s` holds the values of `v` in some order of their positions.
pub open spec fn is_ordering_of(s: Seq<isize>, v: Seq<isize>) -> bool {
    exists|p: Seq<int>| is_index_perm(p) && s == #[trigger] reorder(v, p)
}

/// `t` holds the values of `q` in some order.
pub open spec fn is_reordering(t: Quad, q: Quad) -> bool {
    is_ordering_of(quad_seq(t), quad_seq(q))
}

/// No value is zero and no two values are equal.
pub open spec fn nonzero_distinct(e: Quad) -> bool {
    e.0 != 0 && e.1 != 0 && e.2 != 0 && e.3 != 0 && e.0 != e.1 && e.0 != e.2 && e.0 != e.3
        && e.1 != e.2 && e.1 != e.3 && e.2 != e.3
}

/// `q` with its first value negated.
pub open spec fn negated_first(q: Quad) -> Quad {
    (-q.0 as isize, q.1, q.2, q.3)
}

/// `x` is a reordering of `q`, or, for the quaternion type, a reordering
/// without zero or repeated value with its first value negated.
pub open spec fn allowed_variant(x: Quad, q: Quad, seqtype: SequenceType) -> bool {
    is_reordering(x, q) || (seqtype == SequenceType::QuaternionType && exists|e: Quad|
        is_reordering(e, q) && nonzero_distinct(e) && x == #[trigger] negated_first(e))
}

/// Some member of `r` is a reordering of `q` in the same class as `t`.
pub open spec fn class_covered(r: Seq<Quad>, q: Quad, t: Quad) -> bool {
    exists|i: int| 0 <= i < r.len() && is_reordering(r[i], q) && equivalent_spec(#[trigger] r[i]) == equivalent_spec(t)
}

/// Relies on itertools' `permutations`: with `k` equal to the number of
/// items, it yields the items in every order of their positions, one
/// ordering of positions after the other.
#[verifier::external_body]
fn orderings_of_four(v: &Vec<isize>) -> (r: Vec<Vec<isize>>)
    requires
        v@.len() == 4,
    ensures
        forall|i: int| 0 <= i < r@.len() ==> is_ordering_of((#[trigger] r@[i])@, v@),
        forall|p: Seq<int>| is_index_perm(p) ==> exists|i: int| 0 <= i < r@.len() && (#[trigger] r@[i])@ == reorder(v@, p),
{
    v.iter().copied().permutations(4).collect()
}
/// Relies on itertools' `unique_by`: it keeps, in order, the first item of
/// each key and drops the others.
#[verifier::external_body]
fn first_of_each_class(v: Vec<Quad>) -> (r: Vec<Quad>)
    ensures
        forall|i: int| 0 <= i < r@.len() ==> v@.contains(#[trigger] r@[i]),
        forall|i: int, j: int| 0 <= i < j < r@.len() ==> equivalent_spec(#[trigger] r@[i]) != equivalent_spec(#[trigger] r@[j]),
        forall|j: int| 0 <= j < v@.len() ==> exists|i: int| 0 <= i < r@.len() && equivalent_spec(#[trigger] r@[i]) == equivalent_spec(#[trigger] v@[j]),
{
    v.into_iter().unique_by(|q| equivalent(q)).collect()
}

/// Relies on itertools' `unique`: it keeps, in order, the first copy of each item.
#[verifier::external_body]
fn without_repeats(v: Vec<Quad>) -> (r: Vec<Quad>)
    ensures
        r@.no_duplicates(),
        forall|i: int| 0 <= i < r@.len() ==> v@.contains(#[trigger] r@[i]),
        forall|j: int| 0 <= j < v@.len() ==> r@.contains(#[trigger] v@[j]),
{
    v.into_iter().unique().collect()
}

fn get_position(quad: &Quad, i: usize) -> (r: isize)
    requires
        i < 4,
    ensures
        r == quad_seq(*quad)[i as int],
{
    if i == 0 { quad.0 } else if i == 1 { quad.1 } else if i == 2 { quad.2 } else { quad.3 }
}

/// Exchanges positions `i1` and `i2` of `quad`.
fn swap(quad: &mut Quad, i1: usize, i2: usize)
    requires
        i1 < 4,
        i2 < 4,
    ensures
        quad_seq(*final(quad)) == swap_positions(quad_seq(*old(quad)), i1 as int, i2 as int),
{
    let val1 = get_position(quad, i1);
    let val2 = get_position(quad, i2);
    if i1 == 0 { quad.0 = val2; } else if i1 == 1 { quad.1 = val2; } else if i1 == 2 { quad.2 = val2; } else { quad.3 = val2; }
    if i2 == 0 { quad.0 = val1; } else if i2 == 1 { quad.1 = val1; } else if i2 == 2 { quad.2 = val1; } else { quad.3 = val1; }
    assert(quad_seq(*quad) =~= swap_positions(quad_seq(*old(quad)), i1 as int, i2 as int));
}

/// Whether `q1` comes before `q2` in lexicographic order.
fn better_than(q1: &Quad, q2: &Quad) -> (r: bool)
    ensures
        r == better_than_spec(*q1, *q2),
{
    if q1.0 < q2.0 {
        true
    } else if q1.0 > q2.0 {
        false
    } else {
        if q1.1 < q2.1 {
            true
        } else if q1.1 > q2.1 {
            false
        } else {
            if q1.2 < q2.2 {
                true
            } else if q1.2 > q2.2 {
                false
            } else {
                q1.3 < q2.3
            }
        }
    }
}

fn swap_table_exec(k: usize) -> (r: (usize, usize, usize, usize))
    requires
        k < 11,
    ensures
        r.0 == swap_table(k as int).0,
        r.1 == swap_table(k as int).1,
        r.2 == swap_table(k as int).2,
        r.3 == swap_table(k as int).3,
        r.0 < 4 && r.1 < 4 && r.2 < 4 && r.3 < 4,
{
    if k == 0 { (0, 1, 2, 3) }
    else if k == 1 { (0, 2, 1, 3) }
    else if k == 2 { (0, 3, 1, 2) }
    else if k == 3 { (0, 1, 1, 2) }
    else if k == 4 { (0, 1, 1, 3) }
    else if k == 5 { (0, 2, 1, 2) }
    else if k == 6 { (0, 2, 2, 3) }
    else if k == 7 { (0, 3, 1, 3) }
    else if k == 8 { (0, 3, 2, 3) }
    else if k == 9 { (1, 2, 2, 3) }
    else { (1, 3, 2, 3) }
}

/// The representative of the class of `quad`: the least of `quad` and its
/// eleven double exchanges.
fn equivalent(quad: &Quad) -> (r: Quad)
    ensures
        r == equivalent_spec(*quad),
{
    let mut final_quad = *quad;
    let mut k: usize = 0;
    while k < 11
        invariant
            0 <= k <= 11,
            final_quad == least_variant(*quad, k as int),
        decreases 11 - k,
    {
        let (a, b, c, d) = swap_table_exec(k);
        let mut test_quad = *quad;
        swap(&mut test_quad, a, b);
        swap(&mut test_quad, c, d);
        assert(test_quad == swap_variant(*quad, k as int)) by {
            assert(quad_seq(test_quad) == swap_positions(swap_positions(quad_seq(*quad), a as int, b as int), c as int, d as int));
        }
        if better_than(&test_quad, &final_quad) {
            final_quad = test_quad;
        }
        k = k + 1;
    }
    final_quad
}

proof fn lemma_cover(r: Seq<Quad>, result: Seq<Quad>, kept: Seq<Quad>, iso: Seq<Quad>, q: Quad, t: Quad, k: int)
    requires
        0 <= k < iso.len(),
        iso[k] == t,
        is_reordering(t, q),
        forall|j: int| 0 <= j < kept.len() ==> is_reordering(#[trigger] kept[j], q),
        forall|j: int| 0 <= j < iso.len() ==> exists|i: int| 0 <= i < kept.len() && equivalent_spec(#[trigger] kept[i]) == equivalent_spec(#[trigger] iso[j]),
        forall|j: int| 0 <= j < kept.len() ==> result.contains(#[trigger] kept[j]),
        forall|j: int| 0 <= j < result.len() ==> r.contains(#[trigger] result[j]),
    ensures
        class_covered(r, q, t),
{
    let m = choose|m: int| 0 <= m < kept.len() && equivalent_spec(#[trigger] kept[m]) == equivalent_spec(#[trigger] iso[k]);
    assert(result.contains(kept[m]));
    let ri = choose|ri: int| 0 <= ri < result.len() && result[ri] == kept[m];
    assert(r.contains(result[ri]));
    let i = choose|i: int| 0 <= i < r.len() && r[i] == result[ri];
    assert(is_reordering(r[i], q));
}

/// The orderings of `quad` up to the exchanges that rowsums allow; for the
/// quaternion type, each kept ordering without a zero and without a repeated
/// value is followed by its copy with the first value negated.
#[verifier::rlimit(50)]
pub fn generate_other_quadruplets(quad: &Quad, seqtype: SequenceType) -> (r: Vec<Quad>)
    requires
        quad.0 > isize::MIN && quad.1 > isize::MIN && quad.2 > isize::MIN && quad.3 > isize::MIN,
    ensures
        r@.no_duplicates(),
        forall|i: int| 0 <= i < r@.len() ==> allowed_variant(#[trigger] r@[i], *quad, seqtype),
        forall|t: Quad| #[trigger] is_reordering(t, *quad) ==> class_covered(r@, *quad, t),
{
    let quad_vec: Vec<isize> = vec![quad.0, quad.1, quad.2, quad.3];
    assert(quad_vec@ =~= quad_seq(*quad));
    let perms = orderings_of_four(&quad_vec);
    let mut isomorphism: Vec<Quad> = Vec::new();
    let mut i: usize = 0;
    while i < perms.len()
        invariant
            0 <= i <= perms@.len(),
            quad_vec@ == quad_seq(*quad),
            forall|k: int| 0 <= k < perms@.len() ==> is_ordering_of((#[trigger] perms@[k])@, quad_vec@),
            isomorphism@.len() == i,
            forall|k: int| 0 <= k < i ==> quad_seq(#[trigger] isomorphism@[k]) == perms@[k]@,
        decreases perms@.len() - i,
    {
        let perm = &perms[i];
        assert(is_ordering_of(perm@, quad_vec@));
        assert(perm@.len() == 4);
        let q: Quad = (perm[0], perm[1], perm[2], perm[3]);
        assert(quad_seq(q) =~= perm@);
        isomorphism.push(q);
        i = i + 1;
    }
    assert forall|k: int| 0 <= k < isomorphism@.len() implies is_reordering(#[trigger] isomorphism@[k], *quad) by {
        assert(is_ordering_of(perms@[k]@, quad_vec@));
    }
    let ghost iso = isomorphism@;
    let kept = first_of_each_class(isomorphism);
    assert forall|k: int| 0 <= k < kept@.len() implies is_reordering(#[trigger] kept@[k], *quad) by {
        assert(iso.contains(kept@[k]));
    }
    let mut result: Vec<Quad> = Vec::new();
    let mut j: usize = 0;
    while j < kept.len()
        invariant
            0 <= j <= kept@.len(),
            quad.0 > isize::MIN && quad.1 > isize::MIN && quad.2 > isize::MIN && quad.3 > isize::MIN,
            forall|k: int| 0 <= k < kept@.len() ==> is_reordering(#[trigger] kept@[k], *quad),
            forall|k: int| 0 <= k < result@.len() ==> allowed_variant(#[trigger] result@[k], *quad, seqtype),
            forall|k: int| 0 <= k < j ==> result@.contains(#[trigger] kept@[k]),
        decreases kept@.len() - j,
    {
        let elm = kept[j];
        assert(is_reordering(elm, *quad));
        let ghost before = result@;
        result.push(elm);
        assert(result@[before.len() as int] == elm);
        assert forall|k: int| 0 <= k < j + 1 implies result@.contains(#[trigger] kept@[k]) by {
            if k < j {
                let t = choose|t: int| 0 <= t < before.len() && before[t] == kept@[k];
                assert(result@[t] == before[t]);
            }
        }
        let is_qt = match seqtype {
            SequenceType::QuaternionType => true,
            _ => false,
        };
        if is_qt && !quad_contains_zero(&elm) && !quad_contains_dup(&elm) {
            proof {
                let p = choose|p: Seq<int>| is_index_perm(p) && quad_seq(elm) == #[trigger] reorder(quad_seq(*quad), p);
                assert(quad_seq(elm)[0] == quad_seq(*quad)[p[0]]);
                assert(elm.0 > isize::MIN);
            }
            let ghost before2 = result@;
            let nega_elm: Quad = (-elm.0, elm.1, elm.2, elm.3);
            assert(nega_elm == negated_first(elm));
            assert(allowed_variant(nega_elm, *quad, seqtype));
            result.push(nega_elm);
            assert forall|k: int| 0 <= k < j + 1 implies result@.contains(#[trigger] kept@[k]) by {
                let t = choose|t: int| 0 <= t < before2.len() && before2[t] == kept@[k];
                assert(result@[t] == before2[t]);
            }
        }
        j = j + 1;
    }
    let ghost res = result@;
    let ghost kp = kept@;
    let r = without_repeats(result);
    assert forall|t: Quad| #[trigger] is_reordering(t, *quad) implies class_covered(r@, *quad, t) by {
        let p = choose|p: Seq<int>| is_index_perm(p) && quad_seq(t) == #[trigger] reorder(quad_seq(*quad), p);
        let k = choose|k: int| 0 <= k < perms@.len() && (#[trigger] perms@[k])@ == reorder(quad_vec@, p);
        assert(quad_seq(iso[k]) == quad_seq(t));
        assert(iso[k] == t);
        lemma_cover(r@, res, kp, iso, *quad, t, k);
    }
    assert forall|i: int| 0 <= i < r@.len() implies allowed_variant(#[trigger] r@[i], *quad, seqtype) by {
        assert(res.contains(r@[i]));
    }
    r
}

/// A sorted quadruple whose squares sum to `4p` and whose values have the parity of `p`.
pub open spec fn rowsum_base(q: Quad, p: nat) -> bool {
    sorted_quad(q) && square_sum_spec(q) == 4 * p && q.0 % 2 == p % 2 && q.1 % 2 == p % 2
        && q.2 % 2 == p % 2 && q.3 % 2 == p % 2
}

proof fn lemma_append_variants(before: Seq<Quad>, oth: Seq<Quad>, tq: Seq<Quad>, quads: Seq<Quad>, i: int, p: nat, seqtype: SequenceType)
    requires
        tq == before + oth,
        0 <= i < quads.len(),
        rowsum_base(quads[i], p),
        forall|k: int| 0 <= k < oth.len() ==> allowed_variant(#[trigger] oth[k], quads[i], seqtype),
        forall|t: Quad| #[trigger] is_reordering(t, quads[i]) ==> class_covered(oth, quads[i], t),
        forall|k: int| 0 <= k < before.len() ==> from_some_base(#[trigger] before[k], p, seqtype),
        forall|k: int, t: Quad| 0 <= k < i && rowsum_base(quads[k], p) && #[trigger] is_reordering(t, quads[k])
            ==> class_covered(before, quads[k], t),
    ensures
        forall|k: int| 0 <= k < tq.len() ==> from_some_base(#[trigger] tq[k], p, seqtype),
        forall|k: int, t: Quad| 0 <= k < i + 1 && rowsum_base(quads[k], p) && #[trigger] is_reordering(t, quads[k])
            ==> class_covered(tq, quads[k], t),
{
    assert forall|k: int| 0 <= k < tq.len() implies from_some_base(#[trigger] tq[k], p, seqtype) by {
        if k >= before.len() {
            assert(oth[k - before.len()] == tq[k]);
            assert(allowed_variant(oth[k - before.len()], quads[i], seqtype));
        } else {
            assert(before[k] == tq[k]);
        }
    }
    assert forall|k: int, t: Quad| 0 <= k < i + 1 && rowsum_base(quads[k], p) && #[trigger] is_reordering(t, quads[k])
        implies class_covered(tq, quads[k], t) by {
        if k < i {
            assert(class_covered(before, quads[k], t));
            let j = choose|j: int| 0 <= j < before.len() && is_reordering(before[j], quads[k]) && equivalent_spec(#[trigger] before[j]) == equivalent_spec(t);
            assert(tq[j] == before[j]);
        } else {
            assert(class_covered(oth, quads[i], t));
            let j = choose|j: int| 0 <= j < oth.len() && is_reordering(oth[j], quads[i]) && equivalent_spec(#[trigger] oth[j]) == equivalent_spec(t);
            assert(tq[j + before.len()] == oth[j]);
        }
    }
}

/// `x` is an allowed variant of some base quadruple for length `p`.
pub open spec fn from_some_base(x: Quad, p: nat, seqtype: SequenceType) -> bool {
    exists|q: Quad| rowsum_base(q, p) && #[trigger] allowed_variant(x, q, seqtype)
}

/// The rowsum quadruples for length `p` and a type: for every sorted
/// quadruple whose squares sum to `4p` with values of the parity of `p`, its
/// orderings up to equivalence, as `generate_other_quadruplets` gives them.
pub fn generate_rowsums(p: usize, seqtype: SequenceType) -> (r: Vec<Quad>)
    requires
        4 * p <= u32::MAX,
    ensures
        forall|i: int| 0 <= i < r@.len() ==> from_some_base(#[trigger] r@[i], p as nat, seqtype),
        forall|q: Quad, t: Quad| rowsum_base(q, p as nat) && #[trigger] is_reordering(t, q) ==> class_covered(r@, q, t),
{
    let quads = sum_of_four_squares(4 * p);
    let mut total_quadruplets: Vec<Quad> = Vec::new();
    let parity = (p % 2) as isize;
    let mut i: usize = 0;
    while i < quads.len()
        invariant
            0 <= i <= quads@.len(),
            parity == p % 2,
            forall|k: int| 0 <= k < quads@.len() ==> sorted_quad(#[trigger] quads@[k]) && square_sum_spec(quads@[k]) == 4 * p,
            forall|q: Quad| sorted_quad(q) && square_sum_spec(q) == 4 * p ==> quads@.contains(q),
            forall|k: int| 0 <= k < total_quadruplets@.len() ==> from_some_base(#[trigger] total_quadruplets@[k], p as nat, seqtype),
            forall|k: int, t: Quad| 0 <= k < i && rowsum_base(quads@[k], p as nat) && #[trigger] is_reordering(t, quads@[k])
                ==> class_covered(total_quadruplets@, quads@[k], t),
        decreases quads@.len() - i,
    {
        let elm = quads[i];
        if parity == elm.0 % 2 && parity == elm.1 % 2 && parity == elm.2 % 2 && parity == elm.3 % 2 {
            let ghost before = total_quadruplets@;
            let mut others = generate_other_quadruplets(&elm, seqtype);
            let ghost oth = others@;
            total_quadruplets.append(&mut others);
            proof {
                lemma_append_variants(before, oth, total_quadruplets@, quads@, i as int, p as nat, seqtype);
            }
        } else {
            proof {
                assert forall|k: int, t: Quad| 0 <= k < i + 1 && rowsum_base(quads@[k], p as nat) && #[trigger] is_reordering(t, quads@[k])
                    implies class_covered(total_quadruplets@, quads@[k], t) by {
                    if k == i {
                        assert(!rowsum_base(quads@[k], p as nat));
                    }
                }
            }
        }
        i = i + 1;
    }
    proof {
        assert forall|q: Quad, t: Quad| rowsum_base(q, p as nat) && #[trigger] is_reordering(t, q) implies class_covered(total_quadruplets@, q, t) by {
            assert(quads@.contains(q));
            let k = choose|k: int| 0 <= k < quads@.len() && quads@[k] == q;
        }
    }
    total_quadruplets
}

} // verus!
