//! Linear equations, in the text format of pseudo-Boolean solvers, that the
//! correlation identities impose on the unknown entries of a pair of sequences.
use vstd::prelude::*;
use vstd::string::*;
use crate::quad::is_antipodal;

verus! {

/// Which neighbours of an entry an operator combines, and with which sign.
#[derive(Clone, Copy, Debug, PartialEq, Eq, Structural)]
pub enum OpType {
    LeftPlus,
    LeftMinus,
    RightPlus,
    RightMinus,
}

/// Whether the second sequence's terms are added or subtracted.
#[derive(Clone, Copy, Debug, PartialEq, Eq, Structural)]
pub enum AddType {
    Plus,
    Minus,
}

/// The decimal digits of `n`.
pub open spec fn digits_text(n: nat) -> Seq<char>
    decreases n,
{
    if n < 10 {
        seq![digit_char(n)]
    } else {
        digits_text(n / 10) + seq![digit_char(n % 10)]
    }
}

/// The character of a decimal digit.
pub open spec fn digit_char(d: nat) -> char {
    if d == 0 { '0' } else if d == 1 { '1' } else if d == 2 { '2' } else if d == 3 { '3' }
    else if d == 4 { '4' } else if d == 5 { '5' } else if d == 6 { '6' } else if d == 7 { '7' }
    else if d == 8 { '8' } else { '9' }
}

/// An integer in decimal, with a minus sign when it is negative.
pub open spec fn int_text(n: int) -> Seq<char> {
    if n < 0 { seq!['-'] + digits_text((-n) as nat) } else { digits_text(n as nat) }
}

fn digit_str(d: u64) -> (r: &'static str)
    requires
        d < 10,
    ensures
        r@ == seq![digit_char(d as nat)],
{
    proof {
        reveal_strlit("0"); reveal_strlit("1"); reveal_strlit("2"); reveal_strlit("3"); reveal_strlit("4");
        reveal_strlit("5"); reveal_strlit("6"); reveal_strlit("7"); reveal_strlit("8"); reveal_strlit("9");
    }
    if d == 0 { "0" } else if d == 1 { "1" } else if d == 2 { "2" } else if d == 3 { "3" }
    else if d == 4 { "4" } else if d == 5 { "5" } else if d == 6 { "6" } else if d == 7 { "7" }
    else if d == 8 { "8" } else { "9" }
}

/// Appends the decimal digits of `n`.
pub(crate) fn append_digits(s: &mut String, n: u64)
    ensures
        final(s)@ == old(s)@ + digits_text(n as nat),
    decreases n,
{
    if n < 10 {
        s.append(digit_str(n));
    } else {
        append_digits(s, n / 10);
        s.append(digit_str(n % 10));
        assert(final(s)@ =~= old(s)@ + digits_text(n as nat));
    }
}

/// Appends `n` in decimal.
pub(crate) fn append_int(s: &mut String, n: i64)
    requires
        n > i64::MIN,
    ensures
        final(s)@ == old(s)@ + int_text(n as int),
{
    if n < 0 {
        proof { reveal_strlit("-"); }
        s.append("-");
        append_digits(s, (-n) as u64);
        assert(final(s)@ =~= old(s)@ + int_text(n as int));
    } else {
        append_digits(s, n as u64);
    }
}

/// The terms of the first `k` coefficients.
pub open spec fn terms_text(c: Seq<i8>, k: int) -> Seq<char>
    decreases k,
{
    if k <= 0 {
        Seq::empty()
    } else {
        let e = c[k - 1];
        let before = terms_text(c, k - 1);
        if e > 0 {
            before + (if any_nonzero(c, k - 1) { "+"@ } else { Seq::empty() }) + int_text(e as int) + " x"@
                + digits_text(k as nat) + " "@
        } else if e < 0 {
            before + int_text(e as int) + " x"@ + digits_text(k as nat) + " "@
        } else {
            before
        }
    }
}

/// One of the first `k` coefficients is not zero.
pub open spec fn any_nonzero(c: Seq<i8>, k: int) -> bool {
    exists|i: int| 0 <= i < k && #[trigger] c[i] != 0
}

/// The equation `sum of c[i] x(i+1) = rhs;` on one line; nothing when every
/// coefficient is zero.
pub open spec fn equation_text(c: Seq<i8>, rhs: int) -> Seq<char> {
    if any_nonzero(c, c.len() as int) {
        terms_text(c, c.len() as int) + "= "@ + int_text(rhs) + ";\n"@
    } else {
        Seq::empty()
    }
}

/// The equation with the given coefficients and right-hand side, in the
/// text format of pseudo-Boolean solvers: `c x1 +c x2 ... = rhs;`.
pub fn generate_equation_from(coefficients: &Vec<i8>, rightside_value: isize) -> (r: String)
    requires
        rightside_value > i64::MIN,
        coefficients@.len() < u64::MAX,
    ensures
        r@ == equation_text(coefficients@, rightside_value as int),
{
    let mut result = String::new();
    let mut variable_counter: u64 = 1;
    let mut all_zero_coeff = true;
    let mut i: usize = 0;
    while i < coefficients.len()
        invariant
            0 <= i <= coefficients@.len(),
            coefficients@.len() < u64::MAX,
            variable_counter == i + 1,
            all_zero_coeff == !any_nonzero(coefficients@, i as int),
            result@ == terms_text(coefficients@, i as int),
        decreases coefficients@.len() - i,
    {
        let elm = coefficients[i];
        proof { reveal_strlit("+"); reveal_strlit(" x"); reveal_strlit(" "); }
        if elm > 0 {
            if !all_zero_coeff {
                result.append("+");
            }
            append_int(&mut result, elm as i64);
            result.append(" x");
            append_digits(&mut result, variable_counter);
            result.append(" ");
            all_zero_coeff = false;
        }
        if elm < 0 {
            append_int(&mut result, elm as i64);
            result.append(" x");
            append_digits(&mut result, variable_counter);
            result.append(" ");
            all_zero_coeff = false;
        }
        proof {
            if elm != 0 {
                assert(any_nonzero(coefficients@, i + 1)) by { assert(coefficients@[i as int] != 0); }
            } else {
                assert(any_nonzero(coefficients@, i + 1) == any_nonzero(coefficients@, i as int)) by {
                    if any_nonzero(coefficients@, i + 1) {
                        let j = choose|j: int| 0 <= j < i + 1 && #[trigger] coefficients@[j] != 0;
                        assert(j < i);
                    }
                }
            }
            assert(result@ =~= terms_text(coefficients@, i + 1));
        }
        variable_counter = variable_counter + 1;
        i = i + 1;
    }
    if all_zero_coeff {
        return String::new();
    }
    proof { reveal_strlit("= "); reveal_strlit(";\n"); }
    result.append("= ");
    append_int(&mut result, rightside_value as i64);
    result.append(";\n");
    result
}

/// The operator `op` at entry `k` and shift `t` of `s` (for `t < n`):
/// `s[k - t] + s[k + t]` for the plus operators, `s[k - t] - s[k + t]` for
/// the left minus and `s[k + t] - s[k - t]` for the right minus, indices mod `n`.
pub open spec fn op_value(s: Seq<i8>, op: OpType, k: int, t: int) -> int {
    let n = s.len() as int;
    let left = s[(k + n - t) % n];
    let right = s[(k + t) % n];
    match op {
        OpType::LeftPlus | OpType::RightPlus => left + right,
        OpType::LeftMinus => left - right,
        OpType::RightMinus => right - left,
    }
}

/// The coefficients of the equation at shift `t`: the operator on `s1`, then
/// the operator on `s2`, the latter negated for `AddType::Minus`.
pub open spec fn equation_coefficients(s1: Seq<i8>, op1: OpType, s2: Seq<i8>, op2: OpType, add: AddType, t: int) -> Seq<i8> {
    let n = s1.len() as int;
    Seq::new((2 * n) as nat, |k: int| if k < n {
        op_value(s1, op1, k, t) as i8
    } else {
        (if add == AddType::Minus { -op_value(s2, op2, k - n, t) } else { op_value(s2, op2, k - n, t) }) as i8
    })
}

/// Half of each of the first `k` coefficients, summed.
pub open spec fn half_sum(c: Seq<i8>, k: int) -> int
    decreases k,
{
    if k <= 0 { 0 } else { half_sum(c, k - 1) + c[k - 1] / 2 }
}

/// The equations for the shifts below `t`, one after the other.
pub open spec fn cross_equations_text(s1: Seq<i8>, op1: OpType, s2: Seq<i8>, op2: OpType, add: AddType, t: int) -> Seq<char>
    decreases t,
{
    if t <= 0 {
        Seq::empty()
    } else {
        let c = equation_coefficients(s1, op1, s2, op2, add, t - 1);
        cross_equations_text(s1, op1, s2, op2, add, t - 1) + equation_text(c, half_sum(c, c.len() as int))
    }
}

fn op_exec(s: &Vec<i8>, op: OpType, k: usize, t: usize) -> (r: i8)
    requires
        is_antipodal(s@),
        k < s@.len(),
        t < s@.len(),
    ensures
        r == op_value(s@, op, k as int, t as int),
        r == -2 || r == 0 || r == 2,
{
    let n = s.len();
    let li: usize = if k >= t { k - t } else { k + (n - t) };
    let ri: usize = if k >= n - t { k - (n - t) } else { k + t };
    proof {
        vstd::arithmetic::div_mod::lemma_small_mod(li as nat, n as nat);
        vstd::arithmetic::div_mod::lemma_small_mod(ri as nat, n as nat);
        vstd::arithmetic::div_mod::lemma_mod_sub_multiples_vanish(li as int, n as int);
        vstd::arithmetic::div_mod::lemma_mod_add_multiples_vanish(li as int, n as int);
        vstd::arithmetic::div_mod::lemma_mod_add_multiples_vanish(ri as int, n as int);
        assert((k + n - t) % (n as int) == li);
        assert((k + t) % (n as int) == ri);
    }
    let left = s[li];
    let right = s[ri];
    assert(left == 1 || left == -1);
    assert(right == 1 || right == -1);
    match op {
        OpType::LeftPlus | OpType::RightPlus => left + right,
        OpType::LeftMinus => left - right,
        OpType::RightMinus => right - left,
    }
}

fn equation_values(seq1: &Vec<i8>, op_type1: OpType, seq2: &Vec<i8>, op_type2: OpType, add_type: AddType, t: usize) -> (values: Vec<i8>)
    requires
        is_antipodal(seq1@),
        is_antipodal(seq2@),
        seq1@.len() == seq2@.len(),
        2 * seq1@.len() < 0x1000_0000,
        t < seq1@.len(),
    ensures
        values@ == equation_coefficients(seq1@, op_type1, seq2@, op_type2, add_type, t as int),
        forall|i: int| 0 <= i < values@.len() ==> #[trigger] values@[i] == -2 || values@[i] == 0 || values@[i] == 2,
{
    let n = seq1.len();
    let ghost c = equation_coefficients(seq1@, op_type1, seq2@, op_type2, add_type, t as int);
    let mut values: Vec<i8> = Vec::new();
    let mut k: usize = 0;
    while k < 2 * n
        invariant
            is_antipodal(seq1@),
            is_antipodal(seq2@),
            n == seq1@.len(),
            n == seq2@.len(),
            2 * n < 0x1000_0000,
            0 <= t < n,
            0 <= k <= 2 * n,
            c == equation_coefficients(seq1@, op_type1, seq2@, op_type2, add_type, t as int),
            values@ == c.subrange(0, k as int),
            forall|i: int| 0 <= i < k ==> #[trigger] values@[i] == -2 || values@[i] == 0 || values@[i] == 2,
        decreases 2 * n - k,
    {
        let v: i8 = if k < n {
            op_exec(seq1, op_type1, k, t)
        } else {
            let w = op_exec(seq2, op_type2, k - n, t);
            match add_type {
                AddType::Minus => -w,
                AddType::Plus => w,
            }
        };
        values.push(v);
        k = k + 1;
        assert(values@ =~= c.subrange(0, k as int));
    }
    assert(values@ =~= c);
    values
}

fn half_sum_exec(values: &Vec<i8>) -> (r: isize)
    requires
        values@.len() < 0x1000_0000,
        forall|i: int| 0 <= i < values@.len() ==> #[trigger] values@[i] == -2 || values@[i] == 0 || values@[i] == 2,
    ensures
        r == half_sum(values@, values@.len() as int),
        -values@.len() <= r <= values@.len(),
{
    let mut rightside_value: isize = 0;
    let mut j: usize = 0;
    while j < values.len()
        invariant
            0 <= j <= values@.len(),
            values@.len() < 0x1000_0000,
            forall|i: int| 0 <= i < values@.len() ==> #[trigger] values@[i] == -2 || values@[i] == 0 || values@[i] == 2,
            rightside_value == half_sum(values@, j as int),
            -j <= rightside_value <= j,
        decreases values@.len() - j,
    {
        let x = values[j];
        assert(x == -2 || x == 0 || x == 2);
        let h: i8 = x / 2;
        assert(h == x as int / 2);
        rightside_value = rightside_value + h as isize;
        j = j + 1;
    }
    rightside_value
}

/// The equations that the cross-correlation identity gives at every shift
/// `0..n`, for the operators `op_type1` on `seq1` and `op_type2` on `seq2`.
pub fn equations_crosscorrelation(seq1: &Vec<i8>, op_type1: OpType, seq2: &Vec<i8>, op_type2: OpType, add_type: AddType) -> (r: String)
    requires
        is_antipodal(seq1@),
        is_antipodal(seq2@),
        seq1@.len() == seq2@.len(),
        2 * seq1@.len() < 0x1000_0000,
    ensures
        r@ == cross_equations_text(seq1@, op_type1, seq2@, op_type2, add_type, seq1@.len() as int),
{
    let n = seq1.len();
    let mut result = String::new();
    let mut t: usize = 0;
    while t < n
        invariant
            is_antipodal(seq1@),
            is_antipodal(seq2@),
            n == seq1@.len(),
            n == seq2@.len(),
            2 * n < 0x1000_0000,
            0 <= t <= n,
            result@ == cross_equations_text(seq1@, op_type1, seq2@, op_type2, add_type, t as int),
        decreases n - t,
    {
        let values = equation_values(seq1, op_type1, seq2, op_type2, add_type, t);
        let rightside_value = half_sum_exec(&values);
        let eq = generate_equation_from(&values, rightside_value);
        result.append(&eq.as_str());
        t = t + 1;
    }
    result
}

} // verus!
