//! The generator catalogue, the closure that computes an equivalence
//! class, canonical representatives, and the symmetry group that computes a
//! class in one pass.
use vstd::prelude::*;
use vstd::arithmetic::div_mod::{lemma_add_mod_noop_right, lemma_mod_bound, lemma_small_mod};
use crate::quad::{QuadSeq, SequenceTag, model_wf, same_sequence, tag_index};
use crate::symmetries::{Generator, SequenceType, generators_of};
use crate::counting::{lemma_family_bound, pow256};

verus! {

// ---------------------------------------------------------------------------
// Transformations of single sequences and of quadruples, as mathematics.

/// No entry is `i8::MIN`, so that every entry can be negated.
pub open spec fn signed_entries(s: Seq<i8>) -> bool {
    forall|i: int| 0 <= i < s.len() ==> #[trigger] s[i] != i8::MIN
}

/// The four components of a quadruple have length `n` and negatable entries.
pub open spec fn model_ok(q: Seq<Seq<i8>>, n: nat) -> bool {
    &&& model_wf(q, n)
    &&& forall|k: int| 0 <= k < 4 ==> signed_entries(#[trigger] q[k])
}

/// Every entry negated.
pub open spec fn neg_seq(s: Seq<i8>) -> Seq<i8> {
    Seq::new(s.len(), |i: int| (-s[i]) as i8)
}

/// Every entry at an index `i` with `i mod f == f - 1` negated.
pub open spec fn alt_neg_seq(s: Seq<i8>, f: nat) -> Seq<i8> {
    Seq::new(s.len(), |i: int| if i % (f as int) == f - 1 { (-s[i]) as i8 } else { s[i] })
}

/// Cyclic shift: entry `i` of the result is entry `(i + off) mod n` of `s`.
pub open spec fn shift_seq(s: Seq<i8>, off: int) -> Seq<i8> {
    Seq::new(s.len(), |i: int| s[(i + off) % (s.len() as int)])
}

/// The entries in reverse order.
pub open spec fn reverse_seq(s: Seq<i8>) -> Seq<i8> {
    Seq::new(s.len(), |i: int| s[s.len() - 1 - i])
}

/// Index automorphism: entry `i` of the result is entry `(i * k) mod n` of `s`.
pub open spec fn permute_seq(s: Seq<i8>, k: int) -> Seq<i8> {
    Seq::new(s.len(), |i: int| s[(i * k) % (s.len() as int)])
}

/// Components `i` and `j` exchanged.
pub open spec fn swap_model(q: Seq<Seq<i8>>, i: int, j: int) -> Seq<Seq<i8>> {
    q.update(i, q[j]).update(j, q[i])
}

/// Component `k` negated.
pub open spec fn negate_model(q: Seq<Seq<i8>>, k: int) -> Seq<Seq<i8>> {
    q.update(k, neg_seq(q[k]))
}

/// The same sequence transformation applied to all four components.
pub open spec fn map_model(q: Seq<Seq<i8>>, f: spec_fn(Seq<i8>) -> Seq<i8>) -> Seq<Seq<i8>> {
    seq![f(q[0]), f(q[1]), f(q[2]), f(q[3])]
}

/// First index of the `c`-th of the six unordered pairs of components.
pub open spec fn pair_first(c: int) -> int {
    if c < 3 { 0 } else if c < 5 { 1 } else { 2 }
}

/// Second index of the `c`-th of the six unordered pairs of components.
pub open spec fn pair_second(c: int) -> int {
    if c == 0 { 1 } else if c == 1 || c == 3 { 2 } else { 3 }
}

/// Greatest common divisor by Euclid's recursion.
pub open spec fn gcd(a: nat, b: nat) -> nat
    decreases b,
{
    if b == 0 { a } else { gcd(b, a % b) }
}

/// The `c`-th of the six unordered pairs of components.
fn pair_at(c: usize) -> (r: (usize, usize))
    requires
        c < 6,
    ensures
        r.0 == pair_first(c as int),
        r.1 == pair_second(c as int),
{
    if c == 0 { (0, 1) } else if c == 1 { (0, 2) } else if c == 2 { (0, 3) } else if c == 3 { (1, 2) }
    else if c == 4 { (1, 3) } else { (2, 3) }
}

/// The tag of the component at position `k`.
fn tag_at(k: usize) -> (r: SequenceTag)
    requires
        k < 4,
    ensures
        tag_index(r) == k,
{
    if k == 0 { SequenceTag::X } else if k == 1 { SequenceTag::Y } else if k == 2 { SequenceTag::Z }
    else { SequenceTag::W }
}

// ---------------------------------------------------------------------------
// Sequence operations.

/// Whether `a` and `b` have no common divisor but 1.
pub fn coprime(a: usize, b: usize) -> (r: bool)
    ensures
        r == (gcd(a as nat, b as nat) == 1),
{
    let mut x = a;
    let mut y = b;
    while y != 0
        invariant
            gcd(x as nat, y as nat) == gcd(a as nat, b as nat),
        decreases y,
    {
        proof { lemma_mod_bound(x as int, y as int); }
        let t = x % y;
        x = y;
        y = t;
    }
    x == 1
}

/// Every entry negated.
pub fn negated(seq: &Vec<i8>) -> (r: Vec<i8>)
    requires
        signed_entries(seq@),
    ensures
        r@ == neg_seq(seq@),
        signed_entries(r@),
{
    let mut s: Vec<i8> = Vec::new();
    let mut i: usize = 0;
    while i < seq.len()
        invariant
            signed_entries(seq@),
            0 <= i <= seq@.len(),
            s@ == neg_seq(seq@).subrange(0, i as int),
        decreases seq@.len() - i,
    {
        assert(seq@[i as int] != i8::MIN);
        s.push(-seq[i]);
        i = i + 1;
        assert(s@ =~= neg_seq(seq@).subrange(0, i as int));
    }
    assert(s@ =~= neg_seq(seq@));
    s
}

/// Every entry whose position `i` has `i mod frequency == frequency - 1` negated.
pub fn alt_negated(seq: &Vec<i8>, frequency: usize) -> (r: Vec<i8>)
    requires
        signed_entries(seq@),
        frequency > 0,
    ensures
        r@ == alt_neg_seq(seq@, frequency as nat),
        signed_entries(r@),
{
    let mut s: Vec<i8> = Vec::new();
    let mut i: usize = 0;
    while i < seq.len()
        invariant
            signed_entries(seq@),
            frequency > 0,
            0 <= i <= seq@.len(),
            s@ == alt_neg_seq(seq@, frequency as nat).subrange(0, i as int),
        decreases seq@.len() - i,
    {
        assert(seq@[i as int] != i8::MIN);
        if i % frequency == frequency - 1 {
            s.push(-seq[i]);
        } else {
            s.push(seq[i]);
        }
        i = i + 1;
        assert(s@ =~= alt_neg_seq(seq@, frequency as nat).subrange(0, i as int));
    }
    assert(s@ =~= alt_neg_seq(seq@, frequency as nat));
    s
}

/// Cyclic shift of `seq` by `offset` positions.
pub fn shifted(seq: &Vec<i8>, offset: usize) -> (r: Vec<i8>)
    requires
        offset <= seq@.len(),
        seq@.len() <= usize::MAX / 2,
    ensures
        r@ == shift_seq(seq@, offset as int),
        signed_entries(seq@) ==> signed_entries(r@),
{
    let n = seq.len();
    let mut s: Vec<i8> = Vec::new();
    let mut i: usize = 0;
    while i < n
        invariant
            n == seq@.len(),
            offset <= n,
            n <= usize::MAX / 2,
            0 <= i <= n,
            s@ == shift_seq(seq@, offset as int).subrange(0, i as int),
        decreases n - i,
    {
        proof { lemma_mod_bound(i + offset, n as int); }
        s.push(seq[(i + offset) % n]);
        i = i + 1;
        assert(s@ =~= shift_seq(seq@, offset as int).subrange(0, i as int));
    }
    assert(s@ =~= shift_seq(seq@, offset as int));
    s
}

/// The entries of `seq` in reverse order.
pub fn reversed(seq: &Vec<i8>) -> (r: Vec<i8>)
    ensures
        r@ == reverse_seq(seq@),
        signed_entries(seq@) ==> signed_entries(r@),
{
    let n = seq.len();
    let mut s: Vec<i8> = Vec::new();
    let mut i: usize = 0;
    while i < n
        invariant
            n == seq@.len(),
            0 <= i <= n,
            s@ == reverse_seq(seq@).subrange(0, i as int),
        decreases n - i,
    {
        s.push(seq[n - 1 - i]);
        i = i + 1;
        assert(s@ =~= reverse_seq(seq@).subrange(0, i as int));
    }
    assert(s@ =~= reverse_seq(seq@));
    s
}

/// The entries of `seq` reindexed by `i -> i * coprime mod n`.
pub fn permute(seq: &Vec<i8>, coprime: usize) -> (r: Vec<i8>)
    requires
        coprime <= seq@.len(),
        seq@.len() <= usize::MAX / 2,
    ensures
        r@ == permute_seq(seq@, coprime as int),
        signed_entries(seq@) ==> signed_entries(r@),
{
    let n = seq.len();
    let mut s: Vec<i8> = Vec::new();
    if n == 0 {
        assert(s@ =~= permute_seq(seq@, coprime as int));
        return s;
    }
    let mut pos: usize = 0;
    let mut i: usize = 0;
    assert(0 * coprime == 0);
    proof { lemma_small_mod(0, n as nat); }
    while i < n
        invariant
            n == seq@.len(),
            n > 0,
            coprime <= n,
            n <= usize::MAX / 2,
            0 <= i <= n,
            pos < n,
            pos == (i * coprime) % (n as int),
            s@ == permute_seq(seq@, coprime as int).subrange(0, i as int),
        decreases n - i,
    {
        s.push(seq[pos]);
        proof {
            lemma_mod_bound(pos + coprime, n as int);
            lemma_add_mod_noop_right(coprime as int, i * coprime, n as int);
            assert((i + 1) * coprime == coprime + i * coprime) by (nonlinear_arith);
        }
        pos = (pos + coprime) % n;
        i = i + 1;
        assert(s@ =~= permute_seq(seq@, coprime as int).subrange(0, i as int));
    }
    assert(s@ =~= permute_seq(seq@, coprime as int));
    s
}

// ---------------------------------------------------------------------------
// The generator catalogue, as mathematics.

/// How many candidate images a generator has on quadruples of length `n`.
pub open spec fn gen_count(g: Generator, n: nat) -> int {
    match g {
        Generator::NegateSwap => 24,
        Generator::Reorder => 6,
        Generator::DoubleReorder => 36,
        Generator::UniformHalfShift => if n % 2 == 0 { 4 } else { 0 },
        Generator::UniformShift => if n == 0 { 0 } else { n - 1 },
        Generator::Reverse => 1,
        Generator::Negate => 4,
        Generator::DoubleNegate => 6,
        Generator::AlternatedNegation => 1,
        Generator::EvenAlternatedNegation => if n % 2 == 0 { 1 } else { 0 },
        Generator::Automorphism => n as int,
        Generator::DisjointSwaps => 3,
    }
}

/// Whether candidate `j` is an image: for the automorphisms, the multiplier
/// `j + 1` must be coprime to `n`.
pub open spec fn gen_applies(g: Generator, n: nat, j: int) -> bool {
    match g {
        Generator::Automorphism => gcd(n, (j + 1) as nat) == 1,
        _ => true,
    }
}

/// Candidate image `j` of `q` under `g`.
pub open spec fn gen_image(g: Generator, q: Seq<Seq<i8>>, j: int) -> Seq<Seq<i8>> {
    let n = q[0].len();
    match g {
        Generator::NegateSwap => swap_model(negate_model(q, j % 4), pair_first(j / 4), pair_second(j / 4)),
        Generator::Reorder => swap_model(q, pair_first(j), pair_second(j)),
        Generator::DoubleReorder => if j / 6 == j % 6 {
            q
        } else {
            swap_model(
                swap_model(q, pair_first(j / 6), pair_second(j / 6)),
                pair_first(j % 6),
                pair_second(j % 6),
            )
        },
        Generator::UniformHalfShift => q.update(j, shift_seq(q[j], (n / 2) as int)),
        Generator::UniformShift => map_model(q, |s: Seq<i8>| shift_seq(s, j + 1)),
        Generator::Reverse => map_model(q, |s: Seq<i8>| reverse_seq(s)),
        Generator::Negate => negate_model(q, j),
        Generator::DoubleNegate => negate_model(negate_model(q, pair_first(j)), pair_second(j)),
        Generator::AlternatedNegation => map_model(q, |s: Seq<i8>| alt_neg_seq(s, 2)),
        Generator::EvenAlternatedNegation => map_model(q, |s: Seq<i8>| alt_neg_seq(s, 2)),
        Generator::Automorphism => map_model(q, |s: Seq<i8>| permute_seq(s, j + 1)),
        Generator::DisjointSwaps => swap_model(
            swap_model(q, 0, j + 1),
            if j == 0 { 2 } else { 1 },
            if j == 2 { 2 } else { 3 },
        ),
    }
}

/// The images of `q` among the first `k` candidates of `g`, together with `q` itself.
pub open spec fn gen_partial(g: Generator, q: Seq<Seq<i8>>, k: int) -> Set<Seq<Seq<i8>>> {
    Set::new(
        |m: Seq<Seq<i8>>|
            m == q || exists|j: int|
                0 <= j < k && gen_applies(g, q[0].len(), j) && m == #[trigger] gen_image(g, q, j),
    )
}

/// What one application of `g` to `q` yields: `q` and all of its images.
pub open spec fn gen_step(g: Generator, q: Seq<Seq<i8>>) -> Set<Seq<Seq<i8>>> {
    gen_partial(g, q, gen_count(g, q[0].len()))
}

proof fn lemma_partial_next(g: Generator, q: Seq<Seq<i8>>, k: int)
    requires
        0 <= k,
    ensures
        gen_applies(g, q[0].len(), k) ==> gen_partial(g, q, k + 1) == gen_partial(g, q, k).insert(
            gen_image(g, q, k),
        ),
        !gen_applies(g, q[0].len(), k) ==> gen_partial(g, q, k + 1) == gen_partial(g, q, k),
{
    let n = q[0].len();
    if gen_applies(g, n, k) {
        assert forall|m: Seq<Seq<i8>>| #[trigger]
            gen_partial(g, q, k + 1).contains(m) implies gen_partial(g, q, k).insert(
            gen_image(g, q, k),
        ).contains(m) by {
            if m != q && m != gen_image(g, q, k) {
                let j = choose|j: int|
                    0 <= j < k + 1 && gen_applies(g, n, j) && m == #[trigger] gen_image(g, q, j);
                assert(j != k);
            }
        }
        assert(gen_partial(g, q, k + 1) =~= gen_partial(g, q, k).insert(gen_image(g, q, k)));
    } else {
        assert forall|m: Seq<Seq<i8>>| #[trigger]
            gen_partial(g, q, k + 1).contains(m) implies gen_partial(g, q, k).contains(m) by {
            if m != q {
                let j = choose|j: int|
                    0 <= j < k + 1 && gen_applies(g, n, j) && m == #[trigger] gen_image(g, q, j);
                assert(j != k);
            }
        }
        assert(gen_partial(g, q, k + 1) =~= gen_partial(g, q, k));
    }
}

// ---------------------------------------------------------------------------
// Collections of quadruples without repetition.

/// Every member is well formed, of length `n`, with negatable entries.
pub open spec fn family_ok(v: Seq<QuadSeq>, n: nat) -> bool {
    forall|i: int|
        0 <= i < v.len() ==> (#[trigger] v[i]).wf() && v[i].size == n && model_ok(v[i]@, n)
}

/// No two members have the same components.
pub open spec fn distinct_views(v: Seq<QuadSeq>) -> bool {
    forall|i: int, j: int| 0 <= i < j < v.len() ==> (#[trigger] v[i])@ != (#[trigger] v[j])@
}

/// The set of quadruples that a collection holds.
pub open spec fn views(v: Seq<QuadSeq>) -> Set<Seq<Seq<i8>>> {
    Set::new(|m: Seq<Seq<i8>>| exists|i: int| 0 <= i < v.len() && (#[trigger] v[i])@ == m)
}

/// Appending a quadruple adds its components to the set a collection holds.
pub proof fn lemma_views_push(v: Seq<QuadSeq>, q: QuadSeq)
    ensures
        views(v.push(q)) == views(v).insert(q@),
{
    let w = v.push(q);
    assert forall|m: Seq<Seq<i8>>| #[trigger] views(w).contains(m) implies views(v).insert(q@).contains(m) by {
        let j = choose|j: int| 0 <= j < w.len() && (#[trigger] w[j])@ == m;
        if j < v.len() {
            assert(v[j] == w[j]);
        }
    }
    assert forall|m: Seq<Seq<i8>>| #[trigger] views(v).insert(q@).contains(m) implies views(w).contains(m) by {
        if m == q@ {
            assert(w[v.len() as int] == q);
        } else {
            let j = choose|j: int| 0 <= j < v.len() && (#[trigger] v[j])@ == m;
            assert(w[j] == v[j]);
        }
    }
    assert(views(w) =~= views(v).insert(q@));
}

/// Whether `v` holds a quadruple with the components of `q`.
pub fn contains_quad(v: &Vec<QuadSeq>, q: &QuadSeq) -> (r: bool)
    ensures
        r == views(v@).contains(q@),
{
    let mut i: usize = 0;
    while i < v.len()
        invariant
            0 <= i <= v@.len(),
            forall|j: int| 0 <= j < i ==> (#[trigger] v@[j])@ != q@,
        decreases v@.len() - i,
    {
        if v[i].same_as(q) {
            assert(views(v@).contains(q@)) by {
                assert(v@[i as int]@ == q@);
            }
            return true;
        }
        i = i + 1;
    }
    false
}

/// Adds `q` to `v` unless `v` already holds a quadruple with its components.
fn push_unique(v: &mut Vec<QuadSeq>, q: QuadSeq) -> (added: bool)
    requires
        family_ok(old(v)@, q.size as nat),
        distinct_views(old(v)@),
        q.wf(),
        model_ok(q@, q.size as nat),
    ensures
        family_ok(final(v)@, q.size as nat),
        distinct_views(final(v)@),
        views(final(v)@) == views(old(v)@).insert(q@),
        added == !views(old(v)@).contains(q@),
        added ==> final(v)@ == old(v)@.push(q),
        !added ==> final(v)@ == old(v)@,
{
    if contains_quad(v, &q) {
        assert(views(v@) =~= views(v@).insert(q@));
        false
    } else {
        let ghost old_v = v@;
        let ghost m = q@;
        v.push(q);
        assert(v@[old_v.len() as int]@ == m);
        assert(views(v@) =~= views(old_v).insert(m)) by {
            assert forall|x: Seq<Seq<i8>>| views(old_v).insert(m).contains(x) implies #[trigger] views(v@).contains(x) by {
                if x != m {
                    let j = choose|j: int| 0 <= j < old_v.len() && (#[trigger] old_v[j])@ == x;
                    assert(v@[j] == old_v[j]);
                }
            }
            assert forall|x: Seq<Seq<i8>>| #[trigger] views(v@).contains(x) implies views(old_v).insert(m).contains(x) by {
                let j = choose|j: int| 0 <= j < v@.len() && (#[trigger] v@[j])@ == x;
                if j < old_v.len() {
                    assert(v@[j] == old_v[j]);
                }
            }
        }
        true
    }
}

// ---------------------------------------------------------------------------
// Building the images.

/// Exchanges components `i` and `j`.
fn swap(will: &mut QuadSeq, i: usize, j: usize)
    requires
        old(will).wf(),
        i < 4,
        j < 4,
    ensures
        final(will).wf(),
        final(will).size == old(will).size,
        final(will)@ == swap_model(old(will)@, i as int, j as int),
{
    let ti = tag_at(i);
    let tj = tag_at(j);
    let si = will.sequence(ti);
    let sj = will.sequence(tj);
    will.set_sequence(&sj, &ti);
    will.set_sequence(&si, &tj);
}

/// Negates component `k`.
fn negate_component(will: &mut QuadSeq, k: usize)
    requires
        old(will).wf(),
        model_ok(old(will)@, old(will).size as nat),
        k < 4,
    ensures
        final(will).wf(),
        final(will).size == old(will).size,
        final(will)@ == negate_model(old(will)@, k as int),
{
    let t = tag_at(k);
    let s = will.sequence(t);
    assert(signed_entries(old(will)@[k as int]));
    let ns = negated(&s);
    will.set_sequence(&ns, &t);
}

/// Builds a quadruple from four components of the right length.
fn from_components(size: usize, a: Vec<i8>, b: Vec<i8>, c: Vec<i8>, d: Vec<i8>) -> (r: QuadSeq)
    requires
        a@.len() == size,
        b@.len() == size,
        c@.len() == size,
        d@.len() == size,
    ensures
        r.wf(),
        r.size == size,
        r@ == seq![a@, b@, c@, d@],
{
    QuadSeq { size, a, b, c, d }
}

proof fn lemma_model_ok_of_parts(q: Seq<Seq<i8>>, n: nat)
    requires
        q.len() == 4,
        forall|k: int| 0 <= k < 4 ==> (#[trigger] q[k]).len() == n && signed_entries(q[k]),
    ensures
        model_ok(q, n),
{
}

proof fn lemma_negate_ok(q: Seq<Seq<i8>>, n: nat, k: int)
    requires
        model_ok(q, n),
        0 <= k < 4,
    ensures
        model_ok(negate_model(q, k), n),
{
    let r = negate_model(q, k);
    assert forall|i: int| 0 <= i < 4 implies (#[trigger] r[i]).len() == n && signed_entries(r[i]) by {
        if i == k {
            assert(signed_entries(q[k]));
            assert forall|x: int| 0 <= x < r[i].len() implies #[trigger] r[i][x] != i8::MIN by {
                assert(q[k][x] != i8::MIN);
            }
        }
    }
}

proof fn lemma_swap_ok(q: Seq<Seq<i8>>, n: nat, i: int, j: int)
    requires
        model_ok(q, n),
        0 <= i < 4,
        0 <= j < 4,
    ensures
        model_ok(swap_model(q, i, j), n),
{
    let r = swap_model(q, i, j);
    assert forall|k: int| 0 <= k < 4 implies (#[trigger] r[k]).len() == n && signed_entries(r[k]) by {
        assert(r[k] == q[k] || r[k] == q[i] || r[k] == q[j]);
    }
}

/// Candidate image `j` of `seq` under `g`.
fn gen_image_exec(g: Generator, seq: &QuadSeq, j: usize) -> (r: QuadSeq)
    requires
        seq.wf(),
        model_ok(seq@, seq.size as nat),
        seq.size <= usize::MAX / 2,
        0 <= j < gen_count(g, seq.size as nat),
    ensures
        r.wf(),
        r.size == seq.size,
        model_ok(r@, seq.size as nat),
        r@ == gen_image(g, seq@, j as int),
{
    let n = seq.size;
    let ghost q = seq@;
    assert(q[0] == seq.a@ && q[1] == seq.b@ && q[2] == seq.c@ && q[3] == seq.d@);
    assert(signed_entries(q[0]) && signed_entries(q[1]) && signed_entries(q[2]) && signed_entries(q[3]));
    match g {
        Generator::NegateSwap => {
            let mut r = seq.duplicate();
            negate_component(&mut r, j % 4);
            proof { lemma_negate_ok(q, n as nat, (j % 4) as int); }
            let (p1, p2) = pair_at(j / 4);
            swap(&mut r, p1, p2);
            proof { lemma_swap_ok(negate_model(q, (j % 4) as int), n as nat, p1 as int, p2 as int); }
            r
        },
        Generator::Reorder => {
            let mut r = seq.duplicate();
            let (p1, p2) = pair_at(j);
            swap(&mut r, p1, p2);
            proof { lemma_swap_ok(q, n as nat, p1 as int, p2 as int); }
            r
        },
        Generator::DoubleReorder => {
            let mut r = seq.duplicate();
            if j / 6 != j % 6 {
                let (p1, p2) = pair_at(j / 6);
                let (p3, p4) = pair_at(j % 6);
                swap(&mut r, p1, p2);
                proof { lemma_swap_ok(q, n as nat, p1 as int, p2 as int); }
                swap(&mut r, p3, p4);
                proof {
                    lemma_swap_ok(swap_model(q, p1 as int, p2 as int), n as nat, p3 as int, p4 as int);
                }
            }
            r
        },
        Generator::UniformHalfShift => {
            let mut r = seq.duplicate();
            let t = tag_at(j);
            let s = seq.sequence(t);
            let sh = shifted(&s, n / 2);
            r.set_sequence(&sh, &t);
            proof {
                let m = q.update(j as int, shift_seq(q[j as int], (n / 2) as int));
                assert(r@ == m);
                lemma_model_ok_of_parts(m, n as nat);
            }
            r
        },
        Generator::UniformShift => {
            let r = from_components(
                n,
                shifted(&seq.a, j + 1),
                shifted(&seq.b, j + 1),
                shifted(&seq.c, j + 1),
                shifted(&seq.d, j + 1),
            );
            proof { lemma_model_ok_of_parts(r@, n as nat); }
            assert(r@ =~= gen_image(g, q, j as int));
            r
        },
        Generator::Reverse => {
            let r = from_components(
                n,
                reversed(&seq.a),
                reversed(&seq.b),
                reversed(&seq.c),
                reversed(&seq.d),
            );
            proof { lemma_model_ok_of_parts(r@, n as nat); }
            assert(r@ =~= gen_image(g, q, j as int));
            r
        },
        Generator::Negate => {
            let mut r = seq.duplicate();
            negate_component(&mut r, j);
            proof { lemma_negate_ok(q, n as nat, j as int); }
            r
        },
        Generator::DoubleNegate => {
            let mut r = seq.duplicate();
            let (p1, p2) = pair_at(j);
            negate_component(&mut r, p1);
            proof { lemma_negate_ok(q, n as nat, p1 as int); }
            negate_component(&mut r, p2);
            proof { lemma_negate_ok(negate_model(q, p1 as int), n as nat, p2 as int); }
            r
        },
        Generator::AlternatedNegation | Generator::EvenAlternatedNegation => {
            let r = from_components(
                n,
                alt_negated(&seq.a, 2),
                alt_negated(&seq.b, 2),
                alt_negated(&seq.c, 2),
                alt_negated(&seq.d, 2),
            );
            proof { lemma_model_ok_of_parts(r@, n as nat); }
            assert(r@ =~= gen_image(g, q, j as int));
            r
        },
        Generator::Automorphism => {
            let r = from_components(
                n,
                permute(&seq.a, j + 1),
                permute(&seq.b, j + 1),
                permute(&seq.c, j + 1),
                permute(&seq.d, j + 1),
            );
            proof { lemma_model_ok_of_parts(r@, n as nat); }
            assert(r@ =~= gen_image(g, q, j as int));
            r
        },
        Generator::DisjointSwaps => {
            let mut r = seq.duplicate();
            swap(&mut r, 0, j + 1);
            proof { lemma_swap_ok(q, n as nat, 0, j + 1); }
            let k1: usize = if j == 0 { 2 } else { 1 };
            let k2: usize = if j == 2 { 2 } else { 3 };
            swap(&mut r, k1, k2);
            proof { lemma_swap_ok(swap_model(q, 0, j + 1), n as nat, k1 as int, k2 as int); }
            r
        },
    }
}

/// The number of candidate images of `g` on quadruples of length `n`.
fn gen_count_exec(g: Generator, n: usize) -> (r: usize)
    ensures
        r == gen_count(g, n as nat),
{
    match g {
        Generator::NegateSwap => 24,
        Generator::Reorder => 6,
        Generator::DoubleReorder => 36,
        Generator::UniformHalfShift => if n % 2 == 0 { 4 } else { 0 },
        Generator::UniformShift => if n == 0 { 0 } else { n - 1 },
        Generator::Reverse => 1,
        Generator::Negate => 4,
        Generator::DoubleNegate => 6,
        Generator::AlternatedNegation => 1,
        Generator::EvenAlternatedNegation => if n % 2 == 0 { 1 } else { 0 },
        Generator::Automorphism => n,
        Generator::DisjointSwaps => 3,
    }
}

/// Everything that one application of `g` to `seq` yields, `seq` included, without repetition.
pub fn apply_generator(g: Generator, seq: &QuadSeq) -> (r: Vec<QuadSeq>)
    requires
        seq.wf(),
        model_ok(seq@, seq.size as nat),
        seq.size <= usize::MAX / 2,
    ensures
        family_ok(r@, seq.size as nat),
        distinct_views(r@),
        views(r@) == gen_step(g, seq@),
{
    let ghost q = seq@;
    let n = seq.size;
    assert(q[0].len() == n);
    let mut res: Vec<QuadSeq> = Vec::new();
    push_unique(&mut res, seq.duplicate());
    assert(views(res@) =~= gen_partial(g, q, 0)) by {
        assert(views(Seq::<QuadSeq>::empty()) =~= Set::empty());
        assert(Set::<Seq<Seq<i8>>>::empty().insert(q) =~= gen_partial(g, q, 0));
    }
    let count = gen_count_exec(g, n);
    let mut j: usize = 0;
    while j < count
        invariant
            seq.wf(),
            seq@ == q,
            q[0].len() == n,
            n == seq.size,
            model_ok(q, n as nat),
            n <= usize::MAX / 2,
            count == gen_count(g, n as nat),
            0 <= j <= count,
            family_ok(res@, n as nat),
            distinct_views(res@),
            views(res@) == gen_partial(g, q, j as int),
        decreases count - j,
    {
        proof { lemma_partial_next(g, q, j as int); }
        let applies = match g {
            Generator::Automorphism => coprime(n, j + 1),
            _ => true,
        };
        if applies {
            let img = gen_image_exec(g, seq, j);
            push_unique(&mut res, img);
        }
        j = j + 1;
    }
    res
}

// ---------------------------------------------------------------------------
// Closure under a list of generators.

/// Everything that one application of any of `gens` to `x` yields.
pub open spec fn gens_image(gens: Seq<Generator>, x: Seq<Seq<i8>>) -> Set<Seq<Seq<i8>>> {
    Set::new(
        |m: Seq<Seq<i8>>| exists|g: int| 0 <= g < gens.len() && #[trigger] gen_step(gens[g], x).contains(m),
    )
}

/// `s` together with everything one generator application takes it to.
pub open spec fn step_all(gens: Seq<Generator>, s: Set<Seq<Seq<i8>>>) -> Set<Seq<Seq<i8>>> {
    Set::new(
        |m: Seq<Seq<i8>>|
            s.contains(m) || exists|x: Seq<Seq<i8>>| s.contains(x) && #[trigger] gens_image(gens, x).contains(m),
    )
}

/// What `seed` reaches in at most `k` generator applications.
pub open spec fn reach(gens: Seq<Generator>, seed: Seq<Seq<i8>>, k: nat) -> Set<Seq<Seq<i8>>>
    decreases k,
{
    if k == 0 {
        Set::empty().insert(seed)
    } else {
        step_all(gens, reach(gens, seed, (k - 1) as nat))
    }
}

/// The equivalence class of `seed`: everything it reaches by generator applications.
pub open spec fn equivalence_class(gens: Seq<Generator>, seed: Seq<Seq<i8>>) -> Set<Seq<Seq<i8>>> {
    Set::new(|m: Seq<Seq<i8>>| exists|k: nat| #[trigger] reach(gens, seed, k).contains(m))
}

/// No generator application leaves `s`.
pub open spec fn closed_under(gens: Seq<Generator>, s: Set<Seq<Seq<i8>>>) -> bool {
    forall|x: Seq<Seq<i8>>| #[trigger] s.contains(x) ==> gens_image(gens, x).subset_of(s)
}

/// A set that holds `seed` and is closed under `gens` holds its whole class.
pub proof fn lemma_class_in_closed(gens: Seq<Generator>, seed: Seq<Seq<i8>>, s: Set<Seq<Seq<i8>>>)
    requires
        s.contains(seed),
        closed_under(gens, s),
    ensures
        equivalence_class(gens, seed).subset_of(s),
{
    assert forall|m: Seq<Seq<i8>>| #[trigger] equivalence_class(gens, seed).contains(m) implies s.contains(m) by {
        let k = choose|k: nat| #[trigger] reach(gens, seed, k).contains(m);
        lemma_reach_in_closed(gens, seed, s, k);
    }
}

proof fn lemma_reach_in_closed(gens: Seq<Generator>, seed: Seq<Seq<i8>>, s: Set<Seq<Seq<i8>>>, k: nat)
    requires
        s.contains(seed),
        closed_under(gens, s),
    ensures
        reach(gens, seed, k).subset_of(s),
    decreases k,
{
    if k > 0 {
        lemma_reach_in_closed(gens, seed, s, (k - 1) as nat);
        let prev = reach(gens, seed, (k - 1) as nat);
        assert forall|m: Seq<Seq<i8>>| #[trigger] reach(gens, seed, k).contains(m) implies s.contains(m) by {
            if !prev.contains(m) {
                let x = choose|x: Seq<Seq<i8>>| prev.contains(x) && #[trigger] gens_image(gens, x).contains(m);
                assert(s.contains(x));
            }
        }
    }
}

/// The seed stays reachable.
pub proof fn lemma_seed_in_reach(gens: Seq<Generator>, seed: Seq<Seq<i8>>, k: nat)
    ensures
        reach(gens, seed, k).contains(seed),
    decreases k,
{
    if k > 0 {
        lemma_seed_in_reach(gens, seed, (k - 1) as nat);
    }
}

/// The images of the first `i` members of `start`.
pub open spec fn union_images(gens: Seq<Generator>, start: Seq<QuadSeq>, i: int) -> Set<Seq<Seq<i8>>> {
    Set::new(
        |m: Seq<Seq<i8>>|
            exists|j: int| 0 <= j < i && #[trigger] gens_image(gens, start[j]@).contains(m),
    )
}

/// The images under the first `gi` generators of `gens`.
pub open spec fn gens_image_upto(gens: Seq<Generator>, x: Seq<Seq<i8>>, gi: int) -> Set<Seq<Seq<i8>>> {
    Set::new(
        |m: Seq<Seq<i8>>| exists|g: int| 0 <= g < gi && #[trigger] gen_step(gens[g], x).contains(m),
    )
}

/// Adds to `class` every image of `x` under `gens` that it lacks.
fn add_images(class: &mut Vec<QuadSeq>, x: &QuadSeq, gens: &Vec<Generator>)
    requires
        family_ok(old(class)@, x.size as nat),
        distinct_views(old(class)@),
        x.wf(),
        model_ok(x@, x.size as nat),
        x.size <= usize::MAX / 2,
    ensures
        family_ok(final(class)@, x.size as nat),
        distinct_views(final(class)@),
        views(final(class)@) == views(old(class)@).union(gens_image(gens@, x@)),
        final(class)@.len() >= old(class)@.len(),
        final(class)@.subrange(0, old(class)@.len() as int) == old(class)@,
{
    let ghost old_c = class@;
    let n = x.size;
    let mut gi: usize = 0;
    assert(views(class@) =~= views(old_c).union(gens_image_upto(gens@, x@, 0)));
    while gi < gens.len()
        invariant
            x.wf(),
            model_ok(x@, n as nat),
            n == x.size,
            n <= usize::MAX / 2,
            0 <= gi <= gens@.len(),
            family_ok(class@, n as nat),
            distinct_views(class@),
            views(class@) == views(old_c).union(gens_image_upto(gens@, x@, gi as int)),
            class@.len() >= old_c.len(),
            class@.subrange(0, old_c.len() as int) == old_c,
        decreases gens@.len() - gi,
    {
        let imgs = apply_generator(gens[gi], x);
        let ghost before = class@;
        let mut yi: usize = 0;
        while yi < imgs.len()
            invariant
                family_ok(imgs@, n as nat),
                family_ok(class@, n as nat),
                distinct_views(class@),
                0 <= yi <= imgs@.len(),
                views(class@) == views(before).union(views(imgs@.subrange(0, yi as int))),
                class@.len() >= before.len(),
                class@.subrange(0, before.len() as int) == before,
            decreases imgs@.len() - yi,
        {
            let ghost prev = class@;
            let y = imgs[yi].duplicate();
            assert(imgs@[yi as int].wf() && model_ok(imgs@[yi as int]@, n as nat));
            push_unique(class, y);
            proof {
                assert(views(imgs@.subrange(0, yi + 1)) =~= views(imgs@.subrange(0, yi as int)).insert(imgs@[yi as int]@)) by {
                    let a = imgs@.subrange(0, yi + 1);
                    let b = imgs@.subrange(0, yi as int);
                    assert forall|m: Seq<Seq<i8>>| #[trigger] views(a).contains(m) implies views(b).insert(imgs@[yi as int]@).contains(m) by {
                        let j = choose|j: int| 0 <= j < a.len() && (#[trigger] a[j])@ == m;
                        if j < yi {
                            assert(b[j] == a[j]);
                        }
                    }
                    assert forall|m: Seq<Seq<i8>>| #[trigger] views(b).insert(imgs@[yi as int]@).contains(m) implies views(a).contains(m) by {
                        if m == imgs@[yi as int]@ {
                            assert(a[yi as int] == imgs@[yi as int]);
                        } else {
                            let j = choose|j: int| 0 <= j < b.len() && (#[trigger] b[j])@ == m;
                            assert(a[j] == b[j]);
                        }
                    }
                }
                assert(views(class@) =~= views(before).union(views(imgs@.subrange(0, yi + 1))));
                assert(class@.subrange(0, before.len() as int) =~= before) by {
                    assert(prev.subrange(0, before.len() as int) == before);
                }
            }
            yi = yi + 1;
        }
        proof {
            assert(imgs@.subrange(0, imgs@.len() as int) =~= imgs@);
            let g = gens@[gi as int];
            assert(gens_image_upto(gens@, x@, gi + 1) =~= gens_image_upto(gens@, x@, gi as int).union(gen_step(g, x@))) by {
                assert forall|m: Seq<Seq<i8>>| #[trigger] gens_image_upto(gens@, x@, gi + 1).contains(m)
                    implies gens_image_upto(gens@, x@, gi as int).union(gen_step(g, x@)).contains(m) by {
                    let h = choose|h: int| 0 <= h < gi + 1 && #[trigger] gen_step(gens@[h], x@).contains(m);
                    if h < gi {
                        assert(gens_image_upto(gens@, x@, gi as int).contains(m));
                    }
                }
                assert forall|m: Seq<Seq<i8>>| #[trigger] gens_image_upto(gens@, x@, gi as int).union(gen_step(g, x@)).contains(m)
                    implies gens_image_upto(gens@, x@, gi + 1).contains(m) by {
                    if gen_step(g, x@).contains(m) {
                        assert(gen_step(gens@[gi as int], x@).contains(m));
                    } else {
                        let h = choose|h: int| 0 <= h < gi && #[trigger] gen_step(gens@[h], x@).contains(m);
                        assert(gen_step(gens@[h], x@).contains(m));
                    }
                }
            }
            assert(views(class@) =~= views(old_c).union(gens_image_upto(gens@, x@, gi + 1)));
            assert(class@.subrange(0, old_c.len() as int) =~= old_c) by {
                assert(class@.subrange(0, before.len() as int) == before);
                assert(before.subrange(0, old_c.len() as int) == old_c);
            }
        }
        gi = gi + 1;
    }
    assert(gens_image_upto(gens@, x@, gens@.len() as int) =~= gens_image(gens@, x@));
}

/// The equivalence class of `seq` under the generators `equivalences`: the
/// breadth-first closure of `{seq}`, each member once. The type and the
/// symbolic flag do not change the result; they record the context.
pub fn generate_equivalence_class(
    seq: &QuadSeq,
    seqtype: SequenceType,
    equivalences: &Vec<Generator>,
    symmetry_group: bool,
) -> (r: Vec<QuadSeq>)
    requires
        seq.wf(),
        model_ok(seq@, seq.size as nat),
        seq.size <= usize::MAX / 2,
    ensures
        family_ok(r@, seq.size as nat),
        distinct_views(r@),
        views(r@) == equivalence_class(equivalences@, seq@),
{
    let ghost gens = equivalences@;
    let ghost q = seq@;
    let n = seq.size;
    let mut class: Vec<QuadSeq> = Vec::new();
    push_unique(&mut class, seq.duplicate());
    let ghost mut k: nat = 0;
    assert(views(class@) =~= reach(gens, q, 0)) by {
        assert(views(Seq::<QuadSeq>::empty()) =~= Set::empty());
    }
    loop
        invariant
            seq.wf(),
            seq@ == q,
            n == seq.size,
            model_ok(q, n as nat),
            n <= usize::MAX / 2,
            gens == equivalences@,
            family_ok(class@, n as nat),
            distinct_views(class@),
            views(class@) == reach(gens, q, k),
        decreases pow256(4 * n as nat) - class@.len(),
    {
        let ghost start = class@;
        let start_len = class.len();
        let mut i: usize = 0;
        assert(views(class@) =~= views(start).union(union_images(gens, start, 0)));
        while i < start_len
            invariant
                family_ok(class@, n as nat),
                distinct_views(class@),
                start_len == start.len(),
                0 <= i <= start_len,
                class@.len() >= start_len,
                class@.subrange(0, start_len as int) == start,
                views(class@) == views(start).union(union_images(gens, start, i as int)),
                gens == equivalences@,
                n <= usize::MAX / 2,
            decreases start_len - i,
        {
            assert(class@[i as int] == start[i as int]) by {
                assert(class@.subrange(0, start_len as int)[i as int] == class@[i as int]);
            }
            let x = class[i].duplicate();
            let ghost before = class@;
            add_images(&mut class, &x, equivalences);
            proof {
                assert(union_images(gens, start, i + 1) =~= union_images(gens, start, i as int).union(
                    gens_image(gens, start[i as int]@),
                )) by {
                    assert forall|m: Seq<Seq<i8>>| #[trigger] union_images(gens, start, i + 1).contains(m)
                        implies union_images(gens, start, i as int).union(gens_image(gens, start[i as int]@)).contains(m) by {
                        let j = choose|j: int| 0 <= j < i + 1 && #[trigger] gens_image(gens, start[j]@).contains(m);
                        if j < i {
                            assert(union_images(gens, start, i as int).contains(m));
                        }
                    }
                    assert forall|m: Seq<Seq<i8>>| #[trigger] union_images(gens, start, i as int).union(gens_image(gens, start[i as int]@)).contains(m)
                        implies union_images(gens, start, i + 1).contains(m) by {
                        if gens_image(gens, start[i as int]@).contains(m) {
                        } else {
                            let j = choose|j: int| 0 <= j < i && #[trigger] gens_image(gens, start[j]@).contains(m);
                            assert(gens_image(gens, start[j]@).contains(m));
                        }
                    }
                }
                assert(views(class@) =~= views(start).union(union_images(gens, start, i + 1)));
                assert(class@.subrange(0, start_len as int) =~= start) by {
                    assert(class@.subrange(0, before.len() as int) == before);
                    assert(before.subrange(0, start_len as int) == start);
                }
            }
            i = i + 1;
        }
        proof {
            let s0 = views(start);
            assert(views(class@) =~= step_all(gens, s0)) by {
                assert forall|m: Seq<Seq<i8>>| #[trigger] views(class@).contains(m) implies step_all(gens, s0).contains(m) by {
                    if !s0.contains(m) {
                        let j = choose|j: int| 0 <= j < start_len && #[trigger] gens_image(gens, start[j]@).contains(m);
                        assert(s0.contains(start[j]@));
                    }
                }
                assert forall|m: Seq<Seq<i8>>| #[trigger] step_all(gens, s0).contains(m) implies views(class@).contains(m) by {
                    if !s0.contains(m) {
                        let x = choose|x: Seq<Seq<i8>>| s0.contains(x) && #[trigger] gens_image(gens, x).contains(m);
                        let j = choose|j: int| 0 <= j < start.len() && (#[trigger] start[j])@ == x;
                        assert(union_images(gens, start, start_len as int).contains(m)) by {
                            assert(gens_image(gens, start[j]@).contains(m));
                        }
                    }
                }
            }
        }
        if class.len() == start_len {
            proof {
                assert(class@ =~= start) by {
                    assert(class@.subrange(0, start_len as int) == start);
                }
                let s0 = views(start);
                assert(closed_under(gens, s0)) by {
                    assert forall|x: Seq<Seq<i8>>| #[trigger] s0.contains(x) implies gens_image(gens, x).subset_of(s0) by {
                        assert forall|m: Seq<Seq<i8>>| #[trigger] gens_image(gens, x).contains(m) implies s0.contains(m) by {
                            assert(step_all(gens, s0).contains(m));
                        }
                    }
                }
                lemma_seed_in_reach(gens, q, k);
                lemma_class_in_closed(gens, q, s0);
                assert(views(class@) =~= equivalence_class(gens, q)) by {
                    assert forall|m: Seq<Seq<i8>>| #[trigger] s0.contains(m) implies equivalence_class(gens, q).contains(m) by {
                        assert(reach(gens, q, k).contains(m));
                    }
                }
            }
            return class;
        }
        proof {
            k = k + 1;
            assert(views(class@) == reach(gens, q, k));
            lemma_family_bound(class@, n as nat);
        }
    }
}

/// Negates one component, then exchanges two components, in every way. The result holds `seq` itself and each image once; the type and the
/// symbolic flag do not change it.
pub fn equivalent_negate_swap(seq: &QuadSeq, seqtype: SequenceType, symmetry_group: bool) -> (r: Vec<QuadSeq>)
    requires
        seq.wf(),
        model_ok(seq@, seq.size as nat),
        seq.size <= usize::MAX / 2,
    ensures
        family_ok(r@, seq.size as nat),
        distinct_views(r@),
        views(r@) == gen_step(Generator::NegateSwap, seq@),
{
    apply_generator(Generator::NegateSwap, seq)
}

/// Exchanges two components, in every way. The result holds `seq` itself and each image once; the type and the
/// symbolic flag do not change it.
pub fn equivalent_reorder(seq: &QuadSeq, seqtype: SequenceType, symmetry_group: bool) -> (r: Vec<QuadSeq>)
    requires
        seq.wf(),
        model_ok(seq@, seq.size as nat),
        seq.size <= usize::MAX / 2,
    ensures
        family_ok(r@, seq.size as nat),
        distinct_views(r@),
        views(r@) == gen_step(Generator::Reorder, seq@),
{
    apply_generator(Generator::Reorder, seq)
}

/// Performs two exchanges of components, in every way. The result holds `seq` itself and each image once; the type and the
/// symbolic flag do not change it.
pub fn equivalent_double_reorder(seq: &QuadSeq, seqtype: SequenceType, symmetry_group: bool) -> (r: Vec<QuadSeq>)
    requires
        seq.wf(),
        model_ok(seq@, seq.size as nat),
        seq.size <= usize::MAX / 2,
    ensures
        family_ok(r@, seq.size as nat),
        distinct_views(r@),
        views(r@) == gen_step(Generator::DoubleReorder, seq@),
{
    apply_generator(Generator::DoubleReorder, seq)
}

/// For an even length, shifts one component cyclically by half the length, in every way. The result holds `seq` itself and each image once; the type and the
/// symbolic flag do not change it.
pub fn equivalent_uniform_half_shift(seq: &QuadSeq, seqtype: SequenceType, symmetry_group: bool) -> (r: Vec<QuadSeq>)
    requires
        seq.wf(),
        model_ok(seq@, seq.size as nat),
        seq.size <= usize::MAX / 2,
    ensures
        family_ok(r@, seq.size as nat),
        distinct_views(r@),
        views(r@) == gen_step(Generator::UniformHalfShift, seq@),
{
    apply_generator(Generator::UniformHalfShift, seq)
}

/// Shifts all components cyclically by a common amount, in every way. The result holds `seq` itself and each image once; the type and the
/// symbolic flag do not change it.
pub fn equivalent_uniform_shift(seq: &QuadSeq, seqtype: SequenceType, symmetry_group: bool) -> (r: Vec<QuadSeq>)
    requires
        seq.wf(),
        model_ok(seq@, seq.size as nat),
        seq.size <= usize::MAX / 2,
    ensures
        family_ok(r@, seq.size as nat),
        distinct_views(r@),
        views(r@) == gen_step(Generator::UniformShift, seq@),
{
    apply_generator(Generator::UniformShift, seq)
}

/// Reverses all components. The result holds `seq` itself and each image once; the type and the
/// symbolic flag do not change it.
pub fn equivalent_reverse(seq: &QuadSeq, seqtype: SequenceType, symmetry_group: bool) -> (r: Vec<QuadSeq>)
    requires
        seq.wf(),
        model_ok(seq@, seq.size as nat),
        seq.size <= usize::MAX / 2,
    ensures
        family_ok(r@, seq.size as nat),
        distinct_views(r@),
        views(r@) == gen_step(Generator::Reverse, seq@),
{
    apply_generator(Generator::Reverse, seq)
}

/// Negates one component, in every way. The result holds `seq` itself and each image once; the type and the
/// symbolic flag do not change it.
pub fn equivalent_negate(seq: &QuadSeq, seqtype: SequenceType, symmetry_group: bool) -> (r: Vec<QuadSeq>)
    requires
        seq.wf(),
        model_ok(seq@, seq.size as nat),
        seq.size <= usize::MAX / 2,
    ensures
        family_ok(r@, seq.size as nat),
        distinct_views(r@),
        views(r@) == gen_step(Generator::Negate, seq@),
{
    apply_generator(Generator::Negate, seq)
}

/// Negates two components, in every way. The result holds `seq` itself and each image once; the type and the
/// symbolic flag do not change it.
pub fn equivalent_double_negate(seq: &QuadSeq, seqtype: SequenceType, symmetry_group: bool) -> (r: Vec<QuadSeq>)
    requires
        seq.wf(),
        model_ok(seq@, seq.size as nat),
        seq.size <= usize::MAX / 2,
    ensures
        family_ok(r@, seq.size as nat),
        distinct_views(r@),
        views(r@) == gen_step(Generator::DoubleNegate, seq@),
{
    apply_generator(Generator::DoubleNegate, seq)
}

/// Negates every other entry of all components. The result holds `seq` itself and each image once; the type and the
/// symbolic flag do not change it.
pub fn equivalent_alternated_negation(seq: &QuadSeq, seqtype: SequenceType, symmetry_group: bool) -> (r: Vec<QuadSeq>)
    requires
        seq.wf(),
        model_ok(seq@, seq.size as nat),
        seq.size <= usize::MAX / 2,
    ensures
        family_ok(r@, seq.size as nat),
        distinct_views(r@),
        views(r@) == gen_step(Generator::AlternatedNegation, seq@),
{
    apply_generator(Generator::AlternatedNegation, seq)
}

/// For an even length, negates every other entry of all components. The result holds `seq` itself and each image once; the type and the
/// symbolic flag do not change it.
pub fn equivalent_even_alternated_negation(seq: &QuadSeq, seqtype: SequenceType, symmetry_group: bool) -> (r: Vec<QuadSeq>)
    requires
        seq.wf(),
        model_ok(seq@, seq.size as nat),
        seq.size <= usize::MAX / 2,
    ensures
        family_ok(r@, seq.size as nat),
        distinct_views(r@),
        views(r@) == gen_step(Generator::EvenAlternatedNegation, seq@),
{
    apply_generator(Generator::EvenAlternatedNegation, seq)
}

/// Reindexes all components by `i -> i * k mod n`, for every `k` in `1..=n` coprime to `n`. The result holds `seq` itself and each image once; the type and the
/// symbolic flag do not change it.
pub fn equivalent_automorphism(seq: &QuadSeq, seqtype: SequenceType, symmetry_group: bool) -> (r: Vec<QuadSeq>)
    requires
        seq.wf(),
        model_ok(seq@, seq.size as nat),
        seq.size <= usize::MAX / 2,
    ensures
        family_ok(r@, seq.size as nat),
        distinct_views(r@),
        views(r@) == gen_step(Generator::Automorphism, seq@),
{
    apply_generator(Generator::Automorphism, seq)
}

/// Exchanges the components in two disjoint pairs, in every way. The result holds `seq` itself and each image once; the type and the
/// symbolic flag do not change it.
pub fn equivalent_disjoint_swaps(seq: &QuadSeq, seqtype: SequenceType, symmetry_group: bool) -> (r: Vec<QuadSeq>)
    requires
        seq.wf(),
        model_ok(seq@, seq.size as nat),
        seq.size <= usize::MAX / 2,
    ensures
        family_ok(r@, seq.size as nat),
        distinct_views(r@),
        views(r@) == gen_step(Generator::DisjointSwaps, seq@),
{
    apply_generator(Generator::DisjointSwaps, seq)
}

// ---------------------------------------------------------------------------
// The lexicographic order and canonical representatives.

/// `s1` is below `s2` in lexicographic order, comparing from index `i` on.
pub open spec fn seq_less_from(s1: Seq<i8>, s2: Seq<i8>, i: int) -> bool
    decreases s1.len() - i,
{
    if i < 0 || i >= s1.len() {
        false
    } else if s1[i] < s2[i] {
        true
    } else if s1[i] > s2[i] {
        false
    } else {
        seq_less_from(s1, s2, i + 1)
    }
}

/// `s1` is below `s2` in lexicographic order.
pub open spec fn seq_less(s1: Seq<i8>, s2: Seq<i8>) -> bool {
    seq_less_from(s1, s2, 0)
}

/// `q1` is below `q2`: components compared in order, each lexicographically.
pub open spec fn quad_less(q1: Seq<Seq<i8>>, q2: Seq<Seq<i8>>) -> bool {
    if q1[0] != q2[0] {
        seq_less(q1[0], q2[0])
    } else if q1[1] != q2[1] {
        seq_less(q1[1], q2[1])
    } else if q1[2] != q2[2] {
        seq_less(q1[2], q2[2])
    } else {
        seq_less(q1[3], q2[3])
    }
}

proof fn lemma_seq_less_from_total(s1: Seq<i8>, s2: Seq<i8>, i: int)
    requires
        s1.len() == s2.len(),
        0 <= i <= s1.len(),
    ensures
        s1.subrange(i, s1.len() as int) != s2.subrange(i, s2.len() as int) ==> seq_less_from(s1, s2, i)
            || seq_less_from(s2, s1, i),
        !(seq_less_from(s1, s2, i) && seq_less_from(s2, s1, i)),
    decreases s1.len() - i,
{
    if i < s1.len() {
        lemma_seq_less_from_total(s1, s2, i + 1);
        if s1[i] == s2[i] && s1.subrange(i, s1.len() as int) != s2.subrange(i, s2.len() as int) {
            if s1.subrange(i + 1, s1.len() as int) == s2.subrange(i + 1, s2.len() as int) {
                assert(s1.subrange(i, s1.len() as int) =~= s2.subrange(i, s2.len() as int)) by {
                    assert forall|j: int| 0 <= j < s1.len() - i implies s1.subrange(i, s1.len() as int)[j]
                        == s2.subrange(i, s2.len() as int)[j] by {
                        if j > 0 {
                            assert(s1.subrange(i + 1, s1.len() as int)[j - 1] == s2.subrange(i + 1, s2.len() as int)[j - 1]);
                        }
                    }
                }
            }
        }
    } else {
        assert(s1.subrange(i, s1.len() as int) =~= s2.subrange(i, s2.len() as int));
    }
}

proof fn lemma_seq_less_from_trans(s1: Seq<i8>, s2: Seq<i8>, s3: Seq<i8>, i: int)
    requires
        s1.len() == s2.len(),
        s2.len() == s3.len(),
        seq_less_from(s1, s2, i),
        seq_less_from(s2, s3, i),
    ensures
        seq_less_from(s1, s3, i),
    decreases s1.len() - i,
{
    if 0 <= i < s1.len() && s1[i] == s2[i] && s2[i] == s3[i] {
        lemma_seq_less_from_trans(s1, s2, s3, i + 1);
    }
}

/// The lexicographic order on sequences of one length is a strict total order.
pub proof fn lemma_seq_less_order(s1: Seq<i8>, s2: Seq<i8>, s3: Seq<i8>)
    requires
        s1.len() == s2.len(),
        s2.len() == s3.len(),
    ensures
        s1 != s2 ==> seq_less(s1, s2) || seq_less(s2, s1),
        !(seq_less(s1, s2) && seq_less(s2, s1)),
        seq_less(s1, s2) && seq_less(s2, s3) ==> seq_less(s1, s3),
{
    lemma_seq_less_from_total(s1, s2, 0);
    assert(s1.subrange(0, s1.len() as int) =~= s1);
    assert(s2.subrange(0, s2.len() as int) =~= s2);
    if seq_less(s1, s2) && seq_less(s2, s3) {
        lemma_seq_less_from_trans(s1, s2, s3, 0);
    }
}

/// The order on well-formed quadruples of one length is a strict total order.
pub proof fn lemma_quad_less_order(q1: Seq<Seq<i8>>, q2: Seq<Seq<i8>>, q3: Seq<Seq<i8>>, n: nat)
    requires
        model_wf(q1, n),
        model_wf(q2, n),
        model_wf(q3, n),
    ensures
        q1 != q2 ==> quad_less(q1, q2) || quad_less(q2, q1),
        !(quad_less(q1, q2) && quad_less(q2, q1)),
        quad_less(q1, q2) && quad_less(q2, q3) ==> quad_less(q1, q3),
{
    assert(q1[0].len() == n && q1[1].len() == n && q1[2].len() == n && q1[3].len() == n);
    assert(q2[0].len() == n && q2[1].len() == n && q2[2].len() == n && q2[3].len() == n);
    assert(q3[0].len() == n && q3[1].len() == n && q3[2].len() == n && q3[3].len() == n);
    lemma_seq_less_order(q1[0], q2[0], q3[0]);
    lemma_seq_less_order(q1[1], q2[1], q3[1]);
    lemma_seq_less_order(q1[2], q2[2], q3[2]);
    lemma_seq_less_order(q1[3], q2[3], q3[3]);
    lemma_seq_less_order(q2[0], q1[0], q3[0]);
    lemma_seq_less_order(q2[1], q1[1], q3[1]);
    lemma_seq_less_order(q2[2], q1[2], q3[2]);
    lemma_seq_less_order(q2[3], q1[3], q3[3]);
    if q1 != q2 {
        if q1[0] == q2[0] && q1[1] == q2[1] && q1[2] == q2[2] && q1[3] == q2[3] {
            assert(q1 =~= q2);
        }
    }
}

/// Whether `seq1` is below `seq2` in lexicographic order.
pub fn seq_less_than(seq1: &Vec<i8>, seq2: &Vec<i8>) -> (r: bool)
    requires
        seq1@.len() <= seq2@.len(),
    ensures
        r == seq_less(seq1@, seq2@),
{
    let mut index: usize = 0;
    while index < seq1.len()
        invariant
            seq1@.len() <= seq2@.len(),
            0 <= index <= seq1@.len(),
            seq_less(seq1@, seq2@) == seq_less_from(seq1@, seq2@, index as int),
        decreases seq1@.len() - index,
    {
        if seq1[index] < seq2[index] {
            return true;
        } else if seq1[index] > seq2[index] {
            return false;
        } else {
            index = index + 1;
        }
    }
    false
}

/// Whether `will1` is below `will2`: components compared in the order `X, Y, Z, W`.
pub fn will_less_than(will1: &QuadSeq, will2: &QuadSeq) -> (r: bool)
    requires
        will1.wf(),
        will2.wf(),
        will1.size == will2.size,
    ensures
        r == quad_less(will1@, will2@),
{
    let ghost q1 = will1@;
    let ghost q2 = will2@;
    assert(q1[0] == will1.a@ && q1[1] == will1.b@ && q1[2] == will1.c@ && q1[3] == will1.d@);
    assert(q2[0] == will2.a@ && q2[1] == will2.b@ && q2[2] == will2.c@ && q2[3] == will2.d@);
    if !same_sequence(&will1.a, &will2.a) {
        seq_less_than(&will1.a, &will2.a)
    } else if !same_sequence(&will1.b, &will2.b) {
        seq_less_than(&will1.b, &will2.b)
    } else if !same_sequence(&will1.c, &will2.c) {
        seq_less_than(&will1.c, &will2.c)
    } else {
        seq_less_than(&will1.d, &will2.d)
    }
}

/// `r` is the least member of `s`.
pub open spec fn is_least(r: Seq<Seq<i8>>, s: Set<Seq<Seq<i8>>>) -> bool {
    s.contains(r) && forall|m: Seq<Seq<i8>>| #[trigger] s.contains(m) ==> !quad_less(m, r)
}

/// The least member of a nonempty collection.
pub fn find_minimum(class: &Vec<QuadSeq>) -> (r: QuadSeq)
    requires
        class@.len() > 0,
        forall|i: int| 0 <= i < class@.len() ==> (#[trigger] class@[i]).wf() && class@[i].size == class@[0].size,
    ensures
        r.wf(),
        r.size == class@[0].size,
        is_least(r@, views(class@)),
{
    let ghost n = class@[0].size as nat;
    let mut best: usize = 0;
    let mut i: usize = 1;
    proof {
        lemma_quad_less_order(class@[0]@, class@[0]@, class@[0]@, n);
    }
    while i < class.len()
        invariant
            1 <= i <= class@.len(),
            best < i,
            n == class@[0].size,
            forall|j: int| 0 <= j < class@.len() ==> (#[trigger] class@[j]).wf() && class@[j].size == n,
            forall|j: int| 0 <= j < i ==> !quad_less((#[trigger] class@[j])@, class@[best as int]@),
        decreases class@.len() - i,
    {
        if will_less_than(&class[i], &class[best]) {
            proof {
                assert forall|j: int| 0 <= j < i + 1 implies !quad_less((#[trigger] class@[j])@, class@[i as int]@) by {
                    lemma_quad_less_order(class@[j]@, class@[i as int]@, class@[best as int]@, n);
                    lemma_quad_less_order(class@[i as int]@, class@[i as int]@, class@[i as int]@, n);
                }
            }
            best = i;
        }
        i = i + 1;
    }
    let r = class[best].duplicate();
    assert(views(class@).contains(r@)) by {
        assert(class@[best as int]@ == r@);
    }
    assert forall|m: Seq<Seq<i8>>| #[trigger] views(class@).contains(m) implies !quad_less(m, r@) by {
        let j = choose|j: int| 0 <= j < class@.len() && (#[trigger] class@[j])@ == m;
    }
    r
}

/// The canonical representative of the class of `seq` under the generators
/// of `seqtype`: its least member.
pub fn generate_canonical_representative(seq: &QuadSeq, seqtype: SequenceType) -> (r: QuadSeq)
    requires
        seq.wf(),
        model_ok(seq@, seq.size as nat),
        seq.size <= usize::MAX / 2,
    ensures
        r.wf(),
        r.size == seq.size,
        is_least(r@, equivalence_class(generators_of(seqtype), seq@)),
{
    let gens = seqtype.equivalences();
    let class = generate_equivalence_class(seq, seqtype, &gens, false);
    proof {
        lemma_seed_in_reach(gens@, seq@, 0);
        assert(equivalence_class(gens@, seq@).contains(seq@));
        assert(views(class@).contains(seq@));
        let j = choose|j: int| 0 <= j < class@.len() && (#[trigger] class@[j])@ == seq@;
        assert(class@.len() > 0);
    }
    find_minimum(&class)
}

// ---------------------------------------------------------------------------
// The symmetry group of a length and type, and its use on concrete quadruples.

/// Every entry `e` has `1 <= |e| <= b`.
pub open spec fn bounded_labels(q: Seq<Seq<i8>>, b: int) -> bool {
    forall|k: int, i: int|
        0 <= k < 4 && 0 <= i < q[k].len() ==> (1 <= #[trigger] q[k][i] <= b || -b <= q[k][i] <= -1)
}

/// The labelled quadruple: component `k` holds `k * n + 1, ..., k * n + n`.
pub open spec fn label_model(n: nat) -> Seq<Seq<i8>> {
    Seq::new(4, |k: int| Seq::new(n, |i: int| (k * n + i + 1) as i8))
}

/// The entry that a signed label `e` picks from `q`: entry `(|e| - 1) mod n`
/// of component `(|e| - 1) / n`, negated when `e` is negative.
pub open spec fn signed_pick(e: i8, q: Seq<Seq<i8>>, n: nat) -> i8 {
    let p = if e < 0 { -e - 1 } else { e - 1 };
    let v = q[p / (n as int)][p % (n as int)];
    if e < 0 { (-v) as i8 } else { v }
}

/// The quadruple that the symmetry `sym` makes of `q`.
pub open spec fn apply_symmetry(sym: Seq<Seq<i8>>, q: Seq<Seq<i8>>, n: nat) -> Seq<Seq<i8>> {
    Seq::new(4, |k: int| Seq::new(n, |i: int| signed_pick(sym[k][i], q, n)))
}

proof fn lemma_image_bounded(g: Generator, q: Seq<Seq<i8>>, n: nat, j: int, b: int)
    requires
        model_ok(q, n),
        bounded_labels(q, b),
        b <= 127,
        0 <= j < gen_count(g, n),
    ensures
        model_ok(gen_image(g, q, j), n),
        bounded_labels(gen_image(g, q, j), b),
{
    let m = gen_image(g, q, j);
    assert(q[0].len() == n && q[1].len() == n && q[2].len() == n && q[3].len() == n);
    assert forall|k: int| 0 <= k < 4 implies (#[trigger] m[k]).len() == n && signed_entries(m[k]) && (
    forall|i: int| 0 <= i < n ==> (1 <= #[trigger] m[k][i] <= b || -b <= m[k][i] <= -1)) by {
        assert forall|i: int| 0 <= i < n implies #[trigger] m[k][i] != i8::MIN && (1 <= m[k][i] <= b || -b <= m[k][i] <= -1) by {
            assert(n > 0);
            lemma_mod_bound(i + j + 1, n as int);
            lemma_mod_bound(i + (n / 2) as int, n as int);
            lemma_mod_bound(i * (j + 1), n as int);
            assert(signed_entries(q[0]) && signed_entries(q[1]) && signed_entries(q[2]) && signed_entries(q[3]));
        }
    }
    assert(model_ok(m, n));
}

/// The quadruples of length `n` with negatable entries whose labels are bounded by `b`.
pub open spec fn labelled_set(n: nat, b: int) -> Set<Seq<Seq<i8>>> {
    Set::new(|m: Seq<Seq<i8>>| model_ok(m, n) && bounded_labels(m, b))
}

/// Generators keep labels within their bound, so a whole class does.
pub proof fn lemma_class_bounded(gens: Seq<Generator>, seed: Seq<Seq<i8>>, n: nat, b: int)
    requires
        model_ok(seed, n),
        bounded_labels(seed, b),
        b <= 127,
    ensures
        equivalence_class(gens, seed).subset_of(labelled_set(n, b)),
{
    let s = labelled_set(n, b);
    assert forall|x: Seq<Seq<i8>>| #[trigger] s.contains(x) implies gens_image(gens, x).subset_of(s) by {
        assert forall|m: Seq<Seq<i8>>| #[trigger] gens_image(gens, x).contains(m) implies s.contains(m) by {
            let g = choose|g: int| 0 <= g < gens.len() && #[trigger] gen_step(gens[g], x).contains(m);
            if m != x {
                let j = choose|j: int|
                    0 <= j < gen_count(gens[g], x[0].len()) && gen_applies(gens[g], x[0].len(), j) && m
                        == #[trigger] gen_image(gens[g], x, j);
                lemma_image_bounded(gens[g], x, n, j, b);
            }
        }
    }
    assert(s.contains(seed));
    lemma_class_in_closed(gens, seed, s);
}

/// The symmetry group of quadruples of length `len` under `equivalences`: the
/// class of the labelled quadruple, whose entries are the signed positions
/// `1..=4 * len`.
pub fn generate_symmetry_group(len: usize, seqtype: SequenceType, equivalences: &Vec<Generator>) -> (r: Vec<QuadSeq>)
    requires
        4 * len <= 127,
    ensures
        family_ok(r@, len as nat),
        distinct_views(r@),
        views(r@) == equivalence_class(equivalences@, label_model(len as nat)),
        forall|i: int| 0 <= i < r@.len() ==> bounded_labels((#[trigger] r@[i])@, 4 * len),
{
    let mut comps: Vec<Vec<i8>> = Vec::new();
    let mut k: usize = 0;
    while k < 4
        invariant
            0 <= k <= 4,
            4 * len <= 127,
            comps@.len() == k,
            forall|c: int| 0 <= c < k ==> (#[trigger] comps@[c])@ == label_model(len as nat)[c],
        decreases 4 - k,
    {
        let mut w: Vec<i8> = Vec::new();
        let mut i: usize = 0;
        while i < len
            invariant
                0 <= i <= len,
                k < 4,
                4 * len <= 127,
                w@ == label_model(len as nat)[k as int].subrange(0, i as int),
            decreases len - i,
        {
            assert(0 <= k * len + i + 1 <= 4 * len) by (nonlinear_arith)
                requires 0 <= k < 4, 0 <= i < len;
            w.push((k * len + i + 1) as i8);
            i = i + 1;
            assert(w@ =~= label_model(len as nat)[k as int].subrange(0, i as int));
        }
        assert(w@ =~= label_model(len as nat)[k as int]);
        comps.push(w);
        k = k + 1;
    }
    let d = comps.pop().unwrap();
    let c = comps.pop().unwrap();
    let b = comps.pop().unwrap();
    let a = comps.pop().unwrap();
    let w = QuadSeq { size: len, a, b, c, d };
    let ghost lm = label_model(len as nat);
    assert(w@ =~= lm);
    assert(model_ok(lm, len as nat) && bounded_labels(lm, 4 * len)) by {
        assert forall|k: int| 0 <= k < 4 implies signed_entries(#[trigger] lm[k]) by {
            assert forall|i: int| 0 <= i < lm[k].len() implies #[trigger] lm[k][i] != i8::MIN by {
                assert(0 <= k * len + i + 1 <= 4 * len) by (nonlinear_arith)
                    requires 0 <= k < 4, 0 <= i < len;
            }
        }
        assert forall|k: int, i: int| 0 <= k < 4 && 0 <= i < lm[k].len() implies (1 <= #[trigger] lm[k][i] <= 4 * len) by {
            assert(0 <= k * len + i + 1 <= 4 * len) by (nonlinear_arith)
                requires 0 <= k < 4, 0 <= i < len;
        }
    }
    let r = generate_equivalence_class(&w, seqtype, equivalences, true);
    proof {
        lemma_class_bounded(equivalences@, lm, len as nat, 4 * len);
        assert forall|i: int| 0 <= i < r@.len() implies bounded_labels((#[trigger] r@[i])@, 4 * len) by {
            assert(views(r@).contains(r@[i]@));
            assert(labelled_set(len as nat, 4 * len).contains(r@[i]@));
        }
    }
    r
}

/// The quadruple that the symmetry `sym` makes of `seq`.
fn apply_symmetry_exec(sym: &QuadSeq, seq: &QuadSeq) -> (r: QuadSeq)
    requires
        seq.wf(),
        model_ok(seq@, seq.size as nat),
        sym.wf(),
        sym.size == seq.size,
        bounded_labels(sym@, 4 * seq.size),
        4 * seq.size <= 127,
    ensures
        r.wf(),
        r.size == seq.size,
        model_ok(r@, seq.size as nat),
        r@ == apply_symmetry(sym@, seq@, seq.size as nat),
{
    let n = seq.size;
    let ghost q = seq@;
    let ghost target = apply_symmetry(sym@, q, n as nat);
    let mut comps: Vec<Vec<i8>> = Vec::new();
    let mut k: usize = 0;
    assert(q[0] == seq.a@ && q[1] == seq.b@ && q[2] == seq.c@ && q[3] == seq.d@);
    while k < 4
        invariant
            0 <= k <= 4,
            seq.wf(),
            q == seq@,
            n == seq.size,
            model_ok(q, n as nat),
            sym.wf(),
            sym.size == n,
            bounded_labels(sym@, 4 * n),
            4 * n <= 127,
            comps@.len() == k,
            target == apply_symmetry(sym@, q, n as nat),
            forall|c: int| 0 <= c < k ==> (#[trigger] comps@[c])@ == target[c] && signed_entries(comps@[c]@),
        decreases 4 - k,
    {
        let src = sym.sequence(if k == 0 { SequenceTag::X } else if k == 1 { SequenceTag::Y } else if k == 2 { SequenceTag::Z } else { SequenceTag::W });
        assert(src@ == sym@[k as int]);
        let mut w: Vec<i8> = Vec::new();
        let mut i: usize = 0;
        while i < n
            invariant
                0 <= i <= n,
                k < 4,
                seq.wf(),
                q == seq@,
                n == seq.size,
                model_ok(q, n as nat),
                src@ == sym@[k as int],
                src@.len() == n,
                bounded_labels(sym@, 4 * n),
                4 * n <= 127,
                w@ == target[k as int].subrange(0, i as int),
                target == apply_symmetry(sym@, q, n as nat),
                signed_entries(w@),
            decreases n - i,
        {
            let e = src[i];
            assert(1 <= e <= 4 * n || -(4 * n) <= e <= -1);
            let p: usize = if e < 0 { (-e - 1) as usize } else { (e - 1) as usize };
            let comp = p / n;
            let idx = p % n;
            assert(comp < 4) by (nonlinear_arith) requires p < 4 * n, comp == p / n, n > 0;
            assert(signed_entries(q[comp as int]) && q[comp as int].len() == n);
            let v = if comp == 0 { seq.a[idx] } else if comp == 1 { seq.b[idx] } else if comp == 2 { seq.c[idx] } else { seq.d[idx] };
            assert(v == q[comp as int][idx as int]);
            assert(v != i8::MIN);
            let x: i8 = if e < 0 { -v } else { v };
            assert(e == sym@[k as int][i as int]);
            assert(x == signed_pick(e, q, n as nat));
            assert(target[k as int][i as int] == x);
            w.push(x);
            i = i + 1;
            assert(w@ =~= target[k as int].subrange(0, i as int));
        }
        assert(w@ =~= target[k as int]);
        comps.push(w);
        k = k + 1;
    }
    let d = comps.pop().unwrap();
    let c = comps.pop().unwrap();
    let b = comps.pop().unwrap();
    let a = comps.pop().unwrap();
    let r = QuadSeq { size: n, a, b, c, d };
    assert(r@ =~= target);
    r
}

/// The class of `seq` computed from a precomputed symmetry group: the image
/// of `seq` under every member of `symmetries`, each once.
pub fn generate_equivalence_class_fast(seq: &QuadSeq, symmetries: &Vec<QuadSeq>) -> (r: Vec<QuadSeq>)
    requires
        seq.wf(),
        model_ok(seq@, seq.size as nat),
        4 * seq.size <= 127,
        forall|i: int|
            0 <= i < symmetries@.len() ==> (#[trigger] symmetries@[i]).wf() && symmetries@[i].size
                == seq.size && bounded_labels(symmetries@[i]@, 4 * seq.size),
    ensures
        family_ok(r@, seq.size as nat),
        distinct_views(r@),
        views(r@) == views(symmetries@).map(|sym: Seq<Seq<i8>>| apply_symmetry(sym, seq@, seq.size as nat)),
{
    let ghost f = |sym: Seq<Seq<i8>>| apply_symmetry(sym, seq@, seq.size as nat);
    let mut class: Vec<QuadSeq> = Vec::new();
    let mut i: usize = 0;
    assert(views(class@) =~= views(symmetries@.subrange(0, 0)).map(f));
    while i < symmetries.len()
        invariant
            seq.wf(),
            model_ok(seq@, seq.size as nat),
            4 * seq.size <= 127,
            forall|i: int|
                0 <= i < symmetries@.len() ==> (#[trigger] symmetries@[i]).wf() && symmetries@[i].size
                    == seq.size && bounded_labels(symmetries@[i]@, 4 * seq.size),
            0 <= i <= symmetries@.len(),
            family_ok(class@, seq.size as nat),
            distinct_views(class@),
            f == (|sym: Seq<Seq<i8>>| apply_symmetry(sym, seq@, seq.size as nat)),
            views(class@) == views(symmetries@.subrange(0, i as int)).map(f),
        decreases symmetries@.len() - i,
    {
        let img = apply_symmetry_exec(&symmetries[i], seq);
        push_unique(&mut class, img);
        proof {
            let a = symmetries@.subrange(0, i + 1);
            let b = symmetries@.subrange(0, i as int);
            assert(views(a) =~= views(b).insert(symmetries@[i as int]@)) by {
                assert forall|m: Seq<Seq<i8>>| #[trigger] views(a).contains(m) implies views(b).insert(symmetries@[i as int]@).contains(m) by {
                    let j = choose|j: int| 0 <= j < a.len() && (#[trigger] a[j])@ == m;
                    if j < i {
                        assert(b[j] == a[j]);
                    }
                }
                assert forall|m: Seq<Seq<i8>>| #[trigger] views(b).insert(symmetries@[i as int]@).contains(m) implies views(a).contains(m) by {
                    if m == symmetries@[i as int]@ {
                        assert(a[i as int] == symmetries@[i as int]);
                    } else {
                        let j = choose|j: int| 0 <= j < b.len() && (#[trigger] b[j])@ == m;
                        assert(a[j] == b[j]);
                    }
                }
            }
            views(b).lemma_set_map_insert_commute(symmetries@[i as int]@, f);
        }
        i = i + 1;
    }
    assert(symmetries@.subrange(0, symmetries@.len() as int) =~= symmetries@);
    class
}

/// Every member of the classes of the quadruples in `quad_seq_list` under
/// the generators of `seqtype`, each once.
pub fn generate_equivalent_quad_seqs(quad_seq_list: &Vec<QuadSeq>, seqtype: SequenceType) -> (r: Vec<QuadSeq>)
    requires
        quad_seq_list@.len() > 0,
        quad_seq_list@[0].size <= usize::MAX / 2,
        family_ok(quad_seq_list@, quad_seq_list@[0].size as nat),
    ensures
        family_ok(r@, quad_seq_list@[0].size as nat),
        distinct_views(r@),
        views(r@) == Set::new(|m: Seq<Seq<i8>>| exists|i: int|
            0 <= i < quad_seq_list@.len()
                && #[trigger] equivalence_class(generators_of(seqtype), quad_seq_list@[i]@).contains(m)),
{
    let ghost n = quad_seq_list@[0].size as nat;
    let ghost gens = generators_of(seqtype);
    let ghost target = |k: int| Set::new(|m: Seq<Seq<i8>>| exists|i: int|
            0 <= i < k && #[trigger] equivalence_class(gens, quad_seq_list@[i]@).contains(m));
    let equivalences = seqtype.equivalences();
    let mut result: Vec<QuadSeq> = Vec::new();
    let mut k: usize = 0;
    assert(views(result@) =~= target(0));
    while k < quad_seq_list.len()
        invariant
            0 <= k <= quad_seq_list@.len(),
            n == quad_seq_list@[0].size,
            n <= usize::MAX / 2,
            family_ok(quad_seq_list@, n),
            equivalences@ == gens,
            gens == generators_of(seqtype),
            target == (|k: int| Set::new(|m: Seq<Seq<i8>>| exists|i: int|
                0 <= i < k && #[trigger] equivalence_class(gens, quad_seq_list@[i]@).contains(m))),
            family_ok(result@, n),
            distinct_views(result@),
            views(result@) == target(k as int),
        decreases quad_seq_list@.len() - k,
    {
        let class = generate_equivalence_class(&quad_seq_list[k], seqtype, &equivalences, false);
        let ghost before = views(result@);
        let mut j: usize = 0;
        while j < class.len()
            invariant
                0 <= j <= class@.len(),
                family_ok(class@, n),
                family_ok(result@, n),
                distinct_views(result@),
                views(result@) == before.union(views(class@.subrange(0, j as int))),
            decreases class@.len() - j,
        {
            let y = class[j].duplicate();
            push_unique(&mut result, y);
            proof {
                let a = class@.subrange(0, j + 1);
                let b = class@.subrange(0, j as int);
                assert(views(a) =~= views(b).insert(class@[j as int]@)) by {
                    assert forall|m: Seq<Seq<i8>>| #[trigger] views(a).contains(m) implies views(b).insert(class@[j as int]@).contains(m) by {
                        let t = choose|t: int| 0 <= t < a.len() && (#[trigger] a[t])@ == m;
                        if t < j {
                            assert(b[t] == a[t]);
                        }
                    }
                    assert forall|m: Seq<Seq<i8>>| #[trigger] views(b).insert(class@[j as int]@).contains(m) implies views(a).contains(m) by {
                        if m == class@[j as int]@ {
                            assert(a[j as int] == class@[j as int]);
                        } else {
                            let t = choose|t: int| 0 <= t < b.len() && (#[trigger] b[t])@ == m;
                            assert(a[t] == b[t]);
                        }
                    }
                }
                assert(views(result@) =~= before.union(views(a)));
            }
            j = j + 1;
        }
        proof {
            assert(class@.subrange(0, class@.len() as int) =~= class@);
            assert(target(k + 1) =~= target(k as int).union(equivalence_class(gens, quad_seq_list@[k as int]@))) by {
                assert forall|m: Seq<Seq<i8>>| #[trigger] target(k + 1).contains(m) implies
                    target(k as int).union(equivalence_class(gens, quad_seq_list@[k as int]@)).contains(m) by {
                    let i = choose|i: int| 0 <= i < k + 1 && #[trigger] equivalence_class(gens, quad_seq_list@[i]@).contains(m);
                    if i < k {
                        assert(target(k as int).contains(m));
                    }
                }
                assert forall|m: Seq<Seq<i8>>| #[trigger] target(k as int).union(equivalence_class(gens, quad_seq_list@[k as int]@)).contains(m)
                    implies target(k + 1).contains(m) by {
                    if equivalence_class(gens, quad_seq_list@[k as int]@).contains(m) {
                    } else {
                        let i = choose|i: int| 0 <= i < k && #[trigger] equivalence_class(gens, quad_seq_list@[i]@).contains(m);
                        assert(equivalence_class(gens, quad_seq_list@[i]@).contains(m));
                    }
                }
            }
        }
        k = k + 1;
    }
    result
}

/// The class of `q` that a symmetry group gives: the image of `q` under each member.
pub open spec fn class_by_group(group: Set<Seq<Seq<i8>>>, q: Seq<Seq<i8>>, n: nat) -> Set<Seq<Seq<i8>>> {
    group.map(|sym: Seq<Seq<i8>>| apply_symmetry(sym, q, n))
}

/// The labelled quadruple leaves every quadruple as it is.
pub proof fn lemma_label_identity(q: Seq<Seq<i8>>, n: nat)
    requires
        model_wf(q, n),
        n > 0,
        4 * n <= 127,
    ensures
        apply_symmetry(label_model(n), q, n) == q,
{
    let r = apply_symmetry(label_model(n), q, n);
    assert forall|k: int| 0 <= k < 4 implies #[trigger] r[k] == q[k] by {
        assert forall|i: int| 0 <= i < n implies #[trigger] r[k][i] == q[k][i] by {
            assert(0 <= k * n + i + 1 <= 4 * n) by (nonlinear_arith) requires 0 <= k < 4, 0 <= i < n;
            let e = label_model(n)[k][i];
            assert(e == k * n + i + 1);
            assert(k * n == (n as int) * k) by (nonlinear_arith);
            vstd::arithmetic::div_mod::lemma_fundamental_div_mod_converse(k * n + i, n as int, k, i);
        }
        assert(r[k] =~= q[k]);
    }
    assert(r =~= q);
}

/// `x` is the least member of the class of one of `seqs` under `group`.
pub open spec fn represents(x: Seq<Seq<i8>>, seqs: Seq<QuadSeq>, group: Set<Seq<Seq<i8>>>, n: nat) -> bool {
    exists|j: int| 0 <= j < seqs.len() && #[trigger] is_least(x, class_by_group(group, seqs[j]@, n))
}

/// `x` lies in the class of one of `seqs` whose least member `reps` holds.
pub open spec fn covered(x: Seq<Seq<i8>>, seqs: Seq<QuadSeq>, reps: Seq<QuadSeq>, group: Set<Seq<Seq<i8>>>, n: nat) -> bool {
    exists|j: int, k: int| 0 <= j < seqs.len() && 0 <= k < reps.len()
        && #[trigger] class_by_group(group, seqs[j]@, n).contains(x) && #[trigger] is_least(reps[k]@, class_by_group(group, seqs[j]@, n))
}

/// One of the collections in `classes` holds `x`.
pub open spec fn in_some_class(classes: Seq<Vec<QuadSeq>>, x: Seq<Seq<i8>>) -> bool {
    exists|c: int| 0 <= c < classes.len() && #[trigger] views(classes[c]@).contains(x)
}

/// The reduction of a list of quadruples of length `n` to one representative
/// per class, with the classes computed from the symmetry group of `n` under
/// `equivalences`: each quadruple that lies in no class computed so far has
/// its class computed, and the least member of that class is kept.
pub fn reduce_to_equivalence(sequences: &Vec<QuadSeq>, seqtype: SequenceType, equivalences: &Vec<Generator>) -> (r: Vec<QuadSeq>)
    requires
        sequences@.len() > 0,
        sequences@[0].size > 0,
        4 * sequences@[0].size <= 127,
        family_ok(sequences@, sequences@[0].size as nat),
    ensures
        forall|k: int| 0 <= k < r@.len() ==> represents((#[trigger] r@[k])@, sequences@,
            equivalence_class(equivalences@, label_model(sequences@[0].size as nat)), sequences@[0].size as nat),
        forall|i: int| 0 <= i < sequences@.len() ==> covered((#[trigger] sequences@[i])@, sequences@, r@,
            equivalence_class(equivalences@, label_model(sequences@[0].size as nat)), sequences@[0].size as nat),
{
    let n = sequences[0].size;
    let ghost g = equivalence_class(equivalences@, label_model(n as nat));
    let group = generate_symmetry_group(n, seqtype, equivalences);
    let mut classes: Vec<Vec<QuadSeq>> = Vec::new();
    let ghost mut owners: Seq<int> = Seq::empty();
    let mut reps: Vec<QuadSeq> = Vec::new();
    let mut i: usize = 0;
    while i < sequences.len()
        invariant
            0 <= i <= sequences@.len(),
            n == sequences@[0].size,
            n > 0,
            4 * n <= 127,
            family_ok(sequences@, n as nat),
            g == equivalence_class(equivalences@, label_model(n as nat)),
            views(group@) == g,
            family_ok(group@, n as nat),
            forall|t: int| 0 <= t < group@.len() ==> bounded_labels((#[trigger] group@[t])@, 4 * n),
            classes@.len() == reps@.len(),
            owners.len() == reps@.len(),
            forall|c: int| 0 <= c < classes@.len() ==> 0 <= #[trigger] owners[c] < sequences@.len()
                && views(classes@[c]@) == class_by_group(g, sequences@[owners[c]]@, n as nat)
                && is_least(reps@[c]@, class_by_group(g, sequences@[owners[c]]@, n as nat)),
            forall|t: int| 0 <= t < i ==> in_some_class(classes@, (#[trigger] sequences@[t])@),
        decreases sequences@.len() - i,
    {
        let seq = &sequences[i];
        let mut c: usize = 0;
        let mut found = false;
        while c < classes.len()
            invariant
                0 <= c <= classes@.len(),
                found ==> in_some_class(classes@, seq@),
            decreases classes@.len() - c,
        {
            if contains_quad(&classes[c], seq) {
                found = true;
            }
            c = c + 1;
        }
        if !found {
            assert(seq.wf() && seq.size == n && model_ok(seq@, n as nat));
            let class = generate_equivalence_class_fast(seq, &group);
            let ghost fset = class_by_group(g, seq@, n as nat);
            assert(views(class@) == fset);
            proof {
                lemma_seed_in_reach(equivalences@, label_model(n as nat), 0);
                assert(g.contains(label_model(n as nat)));
                lemma_label_identity(seq@, n as nat);
                assert(fset.contains(seq@));
                let t = choose|t: int| 0 <= t < class@.len() && (#[trigger] class@[t])@ == seq@;
            }
            let rep = find_minimum(&class);
            let ghost old_classes = classes@;
            classes.push(class);
            reps.push(rep);
            proof {
                owners = owners.push(i as int);
                assert(classes@[old_classes.len() as int]@ == class@);
                assert(views(classes@[old_classes.len() as int]@).contains(seq@));
                assert forall|t: int| 0 <= t < i + 1 implies in_some_class(classes@, (#[trigger] sequences@[t])@) by {
                    if t < i {
                        let c = choose|c: int| 0 <= c < old_classes.len() && #[trigger] views(old_classes[c]@).contains(sequences@[t]@);
                        assert(classes@[c] == old_classes[c]);
                    }
                }
            }
        }
        i = i + 1;
    }
    proof {
        assert forall|k: int| 0 <= k < reps@.len() implies represents((#[trigger] reps@[k])@, sequences@, g, n as nat) by {
            assert(0 <= owners[k] < sequences@.len());
            assert(is_least(reps@[k]@, class_by_group(g, sequences@[owners[k]]@, n as nat)));
        }
        assert forall|t: int| 0 <= t < sequences@.len() implies covered((#[trigger] sequences@[t])@, sequences@, reps@, g, n as nat) by {
            let c = choose|c: int| 0 <= c < classes@.len() && #[trigger] views(classes@[c]@).contains(sequences@[t]@);
            assert(0 <= owners[c] < sequences@.len());
            assert(class_by_group(g, sequences@[owners[c]]@, n as nat).contains(sequences@[t]@));
            assert(is_least(reps@[c]@, class_by_group(g, sequences@[owners[c]]@, n as nat)));
        }
    }
    reps
}

} // verus!
