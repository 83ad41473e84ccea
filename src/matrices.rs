//! Square matrices with entries `+1` and `-1`, built from quadruples by
//! block insertion of circulants.
use vstd::prelude::*;
use vstd::string::*;
use vstd::arithmetic::div_mod::lemma_mod_bound;
use crate::quad::{QuadSeq, is_antipodal};
use crate::symmetries::SequenceType;

verus! {

/// A square matrix of `size` rows of `size` entries.
pub struct HM {
    pub size: usize,
    pub matrix: Vec<Vec<i8>>,
}

/// How a block is transformed when it is inserted.
#[derive(Clone, Copy, Debug, PartialEq, Eq, Structural)]
pub enum OpMat {
    NONE,
    MINUS,
    TRANSPOSE,
    MINUSTRANSPOSE,
}

/// The circulant of `s`: entry `(i, j)` is `s[(j - i) mod n]`.
pub open spec fn circulant(s: Seq<i8>) -> Seq<Seq<i8>> {
    Seq::new(s.len(), |i: int| Seq::new(s.len(), |j: int| s[(j - i) % (s.len() as int)]))
}

/// Entry `(row, col)` of a block under a transformation.
pub open spec fn op_entry(m: Seq<Seq<i8>>, row: int, col: int, op: OpMat) -> i8 {
    match op {
        OpMat::NONE => m[row][col],
        OpMat::MINUS => (-m[row][col]) as i8,
        OpMat::TRANSPOSE => m[col][row],
        OpMat::MINUSTRANSPOSE => (-m[col][row]) as i8,
    }
}

impl View for HM {
    type V = Seq<Seq<i8>>;

    open spec fn view(&self) -> Seq<Seq<i8>> {
        Seq::new(self.matrix@.len(), |i: int| self.matrix@[i]@)
    }
}

/// Every entry is `+1` or `-1`.
pub open spec fn matrix_antipodal(m: Seq<Seq<i8>>) -> bool {
    forall|i: int| 0 <= i < m.len() ==> is_antipodal(#[trigger] m[i])
}

impl HM {
    /// `size` rows of `size` entries.
    pub open spec fn wf(&self) -> bool {
        &&& self.matrix@.len() == self.size
        &&& forall|i: int| 0 <= i < self.size ==> (#[trigger] self.matrix@[i])@.len() == self.size
    }

    /// The matrix of order `size` whose entries are all `+1`.
    pub fn new(size: usize) -> (r: HM)
        ensures
            r.wf(),
            r.size == size,
            forall|i: int, j: int| 0 <= i < size && 0 <= j < size ==> #[trigger] r@[i][j] == 1,
    {
        let mut matrix: Vec<Vec<i8>> = Vec::new();
        let mut i: usize = 0;
        while i < size
            invariant
                0 <= i <= size,
                matrix@.len() == i,
                forall|k: int| 0 <= k < i ==> (#[trigger] matrix@[k])@ == Seq::new(size as nat, |j: int| 1i8),
            decreases size - i,
        {
            let row = vec![1i8; size];
            assert(row@ =~= Seq::new(size as nat, |j: int| 1i8));
            matrix.push(row);
            i = i + 1;
        }
        HM { size, matrix }
    }

    /// Entry `(i, j)`.
    pub fn get(&self, i: usize, j: usize) -> (r: i8)
        requires
            self.wf(),
            i < self.size,
            j < self.size,
        ensures
            r == self@[i as int][j as int],
    {
        self.matrix[i][j]
    }

    /// Sets entry `(row, col)`.
    pub fn set_value(&mut self, row: usize, col: usize, value: i8)
        requires
            old(self).wf(),
            row < old(self).size,
            col < old(self).size,
        ensures
            final(self).wf(),
            final(self).size == old(self).size,
            final(self)@ == old(self)@.update(row as int, old(self)@[row as int].update(col as int, value)),
    {
        let mut r = self.matrix.remove(row);
        r.set(col, value);
        self.matrix.insert(row, r);
        assert(self@ =~= old(self)@.update(row as int, old(self)@[row as int].update(col as int, value)));
    }

    /// The order of the matrix.
    pub fn size(&self) -> (r: usize)
        ensures
            r == self.size,
    {
        self.size
    }

    /// The circulant matrix of `seq`: row `i` is `seq` shifted right by `i`.
    pub fn from_sequence(seq: &Vec<i8>) -> (r: HM)
        ensures
            r.wf(),
            r.size == seq@.len(),
            r@ == circulant(seq@),
    {
        let size = seq.len();
        let mut matrix: Vec<Vec<i8>> = Vec::new();
        let mut i: usize = 0;
        while i < size
            invariant
                size == seq@.len(),
                0 <= i <= size,
                matrix@.len() == i,
                forall|k: int| 0 <= k < i ==> (#[trigger] matrix@[k])@ == circulant(seq@)[k],
            decreases size - i,
        {
            let mut row: Vec<i8> = Vec::new();
            let mut j: usize = 0;
            while j < size
                invariant
                    size == seq@.len(),
                    0 <= i < size,
                    0 <= j <= size,
                    row@ == circulant(seq@)[i as int].subrange(0, j as int),
                decreases size - j,
            {
                let k: usize = if j >= i { j - i } else { j + (size - i) };
                proof {
                    vstd::arithmetic::div_mod::lemma_small_mod(k as nat, size as nat);
                    vstd::arithmetic::div_mod::lemma_mod_add_multiples_vanish(j - i, size as int);
                    assert(k as int == (j - i) % (size as int));
                }
                row.push(seq[k]);
                j = j + 1;
                assert(row@ =~= circulant(seq@)[i as int].subrange(0, j as int));
            }
            assert(row@ =~= circulant(seq@)[i as int]);
            matrix.push(row);
            i = i + 1;
        }
        let hm = HM { size, matrix };
        assert(hm@ =~= circulant(seq@));
        hm
    }

    /// Entry `(row, col)` of `self` under a transformation.
    fn get_with_op_mat(&self, row: usize, col: usize, opmat: &OpMat) -> (r: i8)
        requires
            self.wf(),
            row < self.size,
            col < self.size,
            matrix_antipodal(self@),
        ensures
            r == op_entry(self@, row as int, col as int, *opmat),
    {
        assert(is_antipodal(self@[row as int]) && is_antipodal(self@[col as int]));
        match opmat {
            OpMat::NONE => self.matrix[row][col],
            OpMat::MINUS => -self.matrix[row][col],
            OpMat::TRANSPOSE => self.matrix[col][row],
            OpMat::MINUSTRANSPOSE => -self.matrix[col][row],
        }
    }

    /// Writes `block`, transformed by `opmat`, with its upper left entry at
    /// `(row_offset, col_offset)`.
    pub fn copy_block_to(&mut self, block: &HM, row_offset: usize, col_offset: usize, opmat: &OpMat)
        requires
            old(self).wf(),
            block.wf(),
            matrix_antipodal(block@),
            row_offset + block.size <= old(self).size,
            col_offset + block.size <= old(self).size,
        ensures
            final(self).wf(),
            final(self).size == old(self).size,
            forall|r: int, c: int| 0 <= r < old(self).size && 0 <= c < old(self).size ==> #[trigger] final(self)@[r][c] == (
                if row_offset <= r < row_offset + block.size && col_offset <= c < col_offset + block.size {
                    op_entry(block@, r - row_offset, c - col_offset, *opmat)
                } else {
                    old(self)@[r][c]
                }),
    {
        let ghost start = self@;
        let n = block.size;
        let mut row: usize = 0;
        while row < n
            invariant
                self.wf(),
                self.size == old(self).size,
                block.wf(),
                n == block.size,
                matrix_antipodal(block@),
                row_offset + n <= self.size,
                col_offset + n <= self.size,
                start == old(self)@,
                0 <= row <= n,
                forall|r: int, c: int| 0 <= r < self.size && 0 <= c < self.size ==> #[trigger] self@[r][c] == (
                    if row_offset <= r < row_offset + row && col_offset <= c < col_offset + n {
                        op_entry(block@, r - row_offset, c - col_offset, *opmat)
                    } else {
                        start[r][c]
                    }),
            decreases n - row,
        {
            let mut col: usize = 0;
            while col < n
                invariant
                    self.wf(),
                    self.size == old(self).size,
                    block.wf(),
                    n == block.size,
                    matrix_antipodal(block@),
                    row_offset + n <= self.size,
                    col_offset + n <= self.size,
                    start == old(self)@,
                    0 <= row < n,
                    0 <= col <= n,
                    forall|r: int, c: int| 0 <= r < self.size && 0 <= c < self.size ==> #[trigger] self@[r][c] == (
                        if (row_offset <= r < row_offset + row && col_offset <= c < col_offset + n)
                            || (r == row_offset + row && col_offset <= c < col_offset + col) {
                            op_entry(block@, r - row_offset, c - col_offset, *opmat)
                        } else {
                            start[r][c]
                        }),
                decreases n - col,
            {
                let v = block.get_with_op_mat(row, col, opmat);
                self.set_value(row + row_offset, col + col_offset, v);
                col = col + 1;
            }
            row = row + 1;
        }
    }

    /// The order-`4n` matrix that the block template of the quaternion type
    /// builds from the circulants of the four components of `will`; none for
    /// a type without a template here.
    pub fn from_williamson(will: &QuadSeq, seqtype: SequenceType) -> (r: Option<HM>)
        requires
            will.wf(),
            will.antipodal(),
            4 * will.size <= usize::MAX,
        ensures
            match r {
                Some(h) => (seqtype == SequenceType::QuaternionType || seqtype == SequenceType::WilliamsonType)
                    && h.wf() && h.size == 4 * will.size
                    && forall|i: int, j: int| 0 <= i < 4 * will.size && 0 <= j < 4 * will.size
                        ==> #[trigger] h@[i][j] == template_entry(will@, will.size as int, i, j),
                None => !(seqtype == SequenceType::QuaternionType || seqtype == SequenceType::WilliamsonType),
            },
    {
        match seqtype {
            SequenceType::QuaternionType | SequenceType::WilliamsonType => {},
            _ => { return None; },
        }
        let size = will.size;
        let mut hm = HM::new(4 * size);
        let ghost q = will@;
        assert(q[0] == will.a@ && q[1] == will.b@ && q[2] == will.c@ && q[3] == will.d@);
        let matw = HM::from_sequence(&will.d);
        let matx = HM::from_sequence(&will.a);
        let maty = HM::from_sequence(&will.b);
        let matz = HM::from_sequence(&will.c);
        proof {
            lemma_circulant_antipodal(will.a@);
            lemma_circulant_antipodal(will.b@);
            lemma_circulant_antipodal(will.c@);
            lemma_circulant_antipodal(will.d@);
        }
        let mut b: usize = 0;
        while b < 16
            invariant
                0 <= b <= 16,
                will.wf(),
                q == will@,
                size == will.size,
                4 * size <= usize::MAX,
                hm.wf(),
                hm.size == 4 * size,
                matw.wf() && matw.size == size && matw@ == circulant(q[3]) && matrix_antipodal(matw@),
                matx.wf() && matx.size == size && matx@ == circulant(q[0]) && matrix_antipodal(matx@),
                maty.wf() && maty.size == size && maty@ == circulant(q[1]) && matrix_antipodal(maty@),
                matz.wf() && matz.size == size && matz@ == circulant(q[2]) && matrix_antipodal(matz@),
                forall|i: int, j: int| 0 <= i < 4 * size && 0 <= j < 4 * size ==> #[trigger] hm@[i][j] == (
                    if block_index(i, j, size as int) < b { template_entry(q, size as int, i, j) } else { 1i8 }),
            decreases 16 - b,
        {
            let (br, bc, comp, minus) = template_cell(b);
            let block = if comp == 0 { &matx } else if comp == 1 { &maty } else if comp == 2 { &matz } else { &matw };
            let op = if minus { OpMat::MINUS } else { OpMat::NONE };
            assert(block@ == circulant(q[comp as int]));
            assert(br * size == (if br == 0 { 0 } else if br == 1 { size as int } else if br == 2 { 2 * size } else { 3 * size })) by (nonlinear_arith)
                requires br < 4;
            assert(bc * size == (if bc == 0 { 0 } else if bc == 1 { size as int } else if bc == 2 { 2 * size } else { 3 * size })) by (nonlinear_arith)
                requires bc < 4;
            hm.copy_block_to(block, br * size, bc * size, &op);
            proof {
                assert forall|i: int, j: int| 0 <= i < 4 * size && 0 <= j < 4 * size implies #[trigger] hm@[i][j] == (
                    if block_index(i, j, size as int) < b + 1 { template_entry(q, size as int, i, j) } else { 1i8 }) by {
                    lemma_block_index(i, j, size as int);
                }
            }
            b = b + 1;
        }
        Some(hm)
    }

    /// The dephased matrix: row `r` multiplied by the first row, then every
    /// row multiplied by its first entry, so that the first row and column are `+1`.
    pub fn dephased(&self) -> (r: HM)
        requires
            self.wf(),
            matrix_antipodal(self@),
            self.size > 0,
        ensures
            r.wf(),
            r.size == self.size,
            r@ == dephased_spec(self@),
            matrix_antipodal(r@),
    {
        let n = self.size;
        let ghost m = self@;
        let mut matrix: Vec<Vec<i8>> = Vec::new();
        let mut r: usize = 0;
        assert(is_antipodal(m[0]));
        while r < n
            invariant
                self.wf(),
                m == self@,
                n == self.size,
                n > 0,
                matrix_antipodal(m),
                0 <= r <= n,
                matrix@.len() == r,
                forall|k: int| 0 <= k < r ==> (#[trigger] matrix@[k])@ == dephased_spec(m)[k],
            decreases n - r,
        {
            let mut row: Vec<i8> = Vec::new();
            let mut c: usize = 0;
            assert(is_antipodal(m[r as int]) && is_antipodal(m[0]));
            let f: i8 = if self.matrix[0][0] == self.matrix[r][0] { 1 } else { -1 };
            proof { lemma_sign_product(m[0][0] as int, m[r as int][0] as int); }
            while c < n
                invariant
                    self.wf(),
                    m == self@,
                    n == self.size,
                    matrix_antipodal(m),
                    is_antipodal(m[r as int]) && is_antipodal(m[0]),
                    0 <= r < n,
                    0 <= c <= n,
                    f == m[0][0] * m[r as int][0],
                    f == 1 || f == -1,
                    row@ == dephased_spec(m)[r as int].subrange(0, c as int),
                decreases n - c,
            {
                let g: i8 = if self.matrix[0][c] == self.matrix[r][c] { 1 } else { -1 };
                proof { lemma_sign_product(m[0][c as int] as int, m[r as int][c as int] as int); }
                let v: i8 = if f == g { 1 } else { -1 };
                proof { lemma_sign_product(f as int, g as int); }
                row.push(v);
                c = c + 1;
                assert(row@ =~= dephased_spec(m)[r as int].subrange(0, c as int));
            }
            assert(row@ =~= dephased_spec(m)[r as int]);
            matrix.push(row);
            r = r + 1;
        }
        let h = HM { size: n, matrix };
        assert(h@ =~= dephased_spec(m));
        assert forall|i: int| 0 <= i < n implies is_antipodal(#[trigger] h@[i]) by {
            assert forall|j: int| 0 <= j < n implies #[trigger] h@[i][j] == 1 || h@[i][j] == -1 by {
                assert(is_antipodal(m[i]) && is_antipodal(m[0]));
                assert(m[0][0] == 1 || m[0][0] == -1);
                assert(m[i][0] == 1 || m[i][0] == -1);
                assert(m[0][j] == 1 || m[0][j] == -1);
                assert(m[i][j] == 1 || m[i][j] == -1);
                lemma_sign_product(m[0][0] as int, m[i][0] as int);
                lemma_sign_product(m[0][j] as int, m[i][j] as int);
                lemma_sign_product(m[0][0] * m[i][0], m[0][j] * m[i][j]);
            }
        }
        h
    }

    /// Dephases the matrix in place, as `dephased` describes.
    pub fn dephase(&mut self)
        requires
            old(self).wf(),
            matrix_antipodal(old(self)@),
            old(self).size > 0,
        ensures
            final(self).wf(),
            final(self).size == old(self).size,
            final(self)@ == dephased_spec(old(self)@),
    {
        *self = self.dephased();
    }

    /// The matrix, one line per row, `+` and `-` for the entries.
    pub fn to_string(&self) -> (r: String)
        requires
            self.wf(),
        ensures
            r@ == matrix_text(self@, self.size as int),
    {
        let mut result = String::new();
        let mut row: usize = 0;
        while row < self.size
            invariant
                self.wf(),
                0 <= row <= self.size,
                result@ == matrix_text(self@, row as int),
            decreases self.size - row,
        {
            proof { reveal_strlit("| "); reveal_strlit("+ "); reveal_strlit("- "); reveal_strlit("|\n"); }
            result.append("| ");
            let mut col: usize = 0;
            while col < self.size
                invariant
                    self.wf(),
                    0 <= row < self.size,
                    0 <= col <= self.size,
                    result@ == matrix_text(self@, row as int) + "| "@ + cells_text(self@[row as int], col as int),
                decreases self.size - col,
            {
                proof { reveal_strlit("+ "); reveal_strlit("- "); }
                if self.matrix[row][col] == 1 {
                    result.append("+ ");
                } else {
                    result.append("- ");
                }
                col = col + 1;
                assert(result@ =~= matrix_text(self@, row as int) + "| "@ + cells_text(self@[row as int], col as int));
            }
            proof { reveal_strlit("|\n"); }
            result.append("|\n");
            row = row + 1;
            assert(result@ =~= matrix_text(self@, row as int));
        }
        result
    }

    /// The matrix in the input syntax of the Magma algebra system:
    /// `M := Matrix([[1,-1,...],...]);`, with `1` for `+1` and `-1` otherwise.
    pub fn to_string_magma(&self) -> (r: String)
        requires
            self.wf(),
            self.size > 0,
        ensures
            r@ == "M := Matrix(["@ + rows_text(self@, self.size as int) + "]);"@,
    {
        proof { reveal_strlit("M := Matrix(["); reveal_strlit("]);"); reveal_strlit(","); }
        let mut result = String::from_str("M := Matrix([");
        let mut row: usize = 0;
        while row < self.size
            invariant
                self.wf(),
                0 <= row <= self.size,
                result@ == "M := Matrix(["@ + rows_text(self@, row as int),
            decreases self.size - row,
        {
            proof { reveal_strlit(","); reveal_strlit("["); reveal_strlit("]"); }
            if row > 0 {
                result.append(",");
            }
            result.append("[");
            let mut col: usize = 0;
            while col < self.size
                invariant
                    self.wf(),
                    0 <= row < self.size,
                    0 <= col <= self.size,
                    result@ == "M := Matrix(["@ + rows_text(self@, row as int) + (if row > 0 { ","@ } else { Seq::empty() })
                        + "["@ + entries_text(self@[row as int], col as int),
                decreases self.size - col,
            {
                proof { reveal_strlit(","); reveal_strlit("1"); reveal_strlit("-1"); }
                if col > 0 {
                    result.append(",");
                }
                if self.matrix[row][col] == 1 {
                    result.append("1");
                } else {
                    result.append("-1");
                }
                col = col + 1;
                assert(result@ =~= "M := Matrix(["@ + rows_text(self@, row as int) + (if row > 0 { ","@ } else { Seq::empty() })
                    + "["@ + entries_text(self@[row as int], col as int));
            }
            result.append("]");
            row = row + 1;
            assert(result@ =~= "M := Matrix(["@ + rows_text(self@, row as int));
        }
        result.append("]);");
        result
    }
}

/// Every circulant of an antipodal sequence is antipodal.
proof fn lemma_circulant_antipodal(s: Seq<i8>)
    requires
        is_antipodal(s),
    ensures
        matrix_antipodal(circulant(s)),
{
    assert forall|i: int| 0 <= i < s.len() implies is_antipodal(#[trigger] circulant(s)[i]) by {
        assert forall|j: int| 0 <= j < s.len() implies #[trigger] circulant(s)[i][j] == 1 || circulant(s)[i][j] == -1 by {
            lemma_mod_bound(j - i, s.len() as int);
        }
    }
}

/// The block row or column that index `i` falls in, for blocks of order `n`.
pub open spec fn block_of(i: int, n: int) -> int {
    if i < n { 0 } else if i < 2 * n { 1 } else if i < 3 * n { 2 } else { 3 }
}

/// The number of the block that entry `(i, j)` falls in, row by row.
pub open spec fn block_index(i: int, j: int, n: int) -> int {
    4 * block_of(i, n) + block_of(j, n)
}

/// The template of the quaternion type: for block `b` (row `b / 4`, column
/// `b % 4`), the component it holds (in the order `X, Y, Z, W`) and whether it is negated.
pub open spec fn template(b: int) -> (int, bool) {
    if b == 0 { (3, false) } else if b == 1 { (0, false) } else if b == 2 { (1, false) } else if b == 3 { (2, false) }
    else if b == 4 { (0, false) } else if b == 5 { (3, true) } else if b == 6 { (2, true) } else if b == 7 { (1, false) }
    else if b == 8 { (1, false) } else if b == 9 { (2, false) } else if b == 10 { (3, true) } else if b == 11 { (0, true) }
    else if b == 12 { (2, false) } else if b == 13 { (1, true) } else if b == 14 { (0, false) } else { (3, true) }
}

/// Entry `(i, j)` of the matrix that the template builds from `q`.
pub open spec fn template_entry(q: Seq<Seq<i8>>, n: int, i: int, j: int) -> i8 {
    let br = block_of(i, n);
    let bc = block_of(j, n);
    let (comp, minus) = template(4 * br + bc);
    let v = circulant(q[comp])[i - br * n][j - bc * n];
    if minus { (-v) as i8 } else { v }
}

fn template_cell(b: usize) -> (r: (usize, usize, usize, bool))
    requires
        b < 16,
    ensures
        r.0 == b / 4,
        r.1 == b % 4,
        r.2 == template(b as int).0,
        r.3 == template(b as int).1,
        r.2 < 4,
{
    let (comp, minus): (usize, bool) = if b == 0 { (3, false) } else if b == 1 { (0, false) } else if b == 2 { (1, false) } else if b == 3 { (2, false) }
    else if b == 4 { (0, false) } else if b == 5 { (3, true) } else if b == 6 { (2, true) } else if b == 7 { (1, false) }
    else if b == 8 { (1, false) } else if b == 9 { (2, false) } else if b == 10 { (3, true) } else if b == 11 { (0, true) }
    else if b == 12 { (2, false) } else if b == 13 { (1, true) } else if b == 14 { (0, false) } else { (3, true) };
    (b / 4, b % 4, comp, minus)
}

proof fn lemma_block_index(i: int, j: int, n: int)
    requires
        0 <= i < 4 * n,
        0 <= j < 4 * n,
    ensures
        0 <= block_index(i, j, n) < 16,
        block_of(i, n) * n <= i < block_of(i, n) * n + n,
        block_of(j, n) * n <= j < block_of(j, n) * n + n,
{
}

proof fn lemma_sign_product(a: int, b: int)
    requires
        a == 1 || a == -1,
        b == 1 || b == -1,
    ensures
        a * b == (if a == b { 1int } else { -1int }),
{
    assert(a * b == (if a == b { 1int } else { -1int })) by (nonlinear_arith)
        requires a == 1 || a == -1, b == 1 || b == -1;
}

/// The dephased matrix as mathematics.
pub open spec fn dephased_spec(m: Seq<Seq<i8>>) -> Seq<Seq<i8>> {
    Seq::new(m.len(), |r: int| Seq::new(m.len(), |c: int| (m[0][0] * m[r][0] * (m[0][c] * m[r][c])) as i8))
}

/// The text of the first `k` entries of a row, `+ ` or `- ` each.
pub open spec fn cells_text(row: Seq<i8>, k: int) -> Seq<char>
    decreases k,
{
    if k <= 0 {
        Seq::empty()
    } else {
        cells_text(row, k - 1) + (if row[k - 1] == 1 { "+ "@ } else { "- "@ })
    }
}

/// The text of the first `k` rows of a matrix.
pub open spec fn matrix_text(m: Seq<Seq<i8>>, k: int) -> Seq<char>
    decreases k,
{
    if k <= 0 {
        Seq::empty()
    } else {
        matrix_text(m, k - 1) + "| "@ + cells_text(m[k - 1], m.len() as int) + "|\n"@
    }
}

/// The edges of the graph that encodes a matrix of order `n`, in the order
/// they are listed: a loop on each of the `2n` row nodes, then for entry
/// `(r, c)` the two edges `(r, 2n + c)` and `(n + r, 3n + c)` when it is `+1`,
/// or `(r, 3n + c)` and `(n + r, 2n + c)` when it is not.
pub open spec fn graph_edges_spec(m: Seq<Seq<i8>>, n: int) -> Seq<(usize, usize)> {
    Seq::new((2 * n) as nat, |i: int| (i as usize, i as usize)) + Seq::new((2 * n * n) as nat, |e: int| {
        let r = (e / 2) / n;
        let c = (e / 2) % n;
        let plus = m[r][c] == 1;
        if e % 2 == 0 {
            (r as usize, (if plus { 2 * n + c } else { 3 * n + c }) as usize)
        } else {
            ((n + r) as usize, (if plus { 3 * n + c } else { 2 * n + c }) as usize)
        }
    })
}

/// The edges of the graph whose canonical form identifies the matrix up to
/// permutations and negations of rows and columns; the graph has `4n` nodes.
pub fn hm_graph_edges(mat: &HM) -> (r: Vec<(usize, usize)>)
    requires
        mat.wf(),
        4 * mat.size * mat.size + 4 * mat.size <= usize::MAX,
    ensures
        r@ == graph_edges_spec(mat@, mat.size as int),
{
    let n = mat.size;
    let ghost target = graph_edges_spec(mat@, n as int);
    let mut edges: Vec<(usize, usize)> = Vec::new();
    let mut i: usize = 0;
    while i < 2 * n
        invariant
            0 <= i <= 2 * n,
            n == mat.size,
            4 * n * n + 4 * n <= usize::MAX,
            edges@ == Seq::new(i as nat, |k: int| (k as usize, k as usize)),
        decreases 2 * n - i,
    {
        edges.push((i, i));
        i = i + 1;
        assert(edges@ =~= Seq::new(i as nat, |k: int| (k as usize, k as usize)));
    }
    let ghost loops = edges@;
    let mut row: usize = 0;
    while row < n
        invariant
            mat.wf(),
            n == mat.size,
            4 * n * n + 4 * n <= usize::MAX,
            0 <= row <= n,
            target == graph_edges_spec(mat@, n as int),
            loops == Seq::new((2 * n) as nat, |k: int| (k as usize, k as usize)),
            edges@ == loops + target.subrange(2 * n, 2 * n + 2 * n * row),
            2 * n * row <= 2 * n * n,
        decreases n - row,
    {
        let mut col: usize = 0;
        while col < n
            invariant
                mat.wf(),
                n == mat.size,
                4 * n * n + 4 * n <= usize::MAX,
                0 <= row < n,
                0 <= col <= n,
                target == graph_edges_spec(mat@, n as int),
                loops == Seq::new((2 * n) as nat, |k: int| (k as usize, k as usize)),
                edges@ == loops + target.subrange(2 * n, 2 * n + 2 * n * row + 2 * col),
                2 * n * row + 2 * col <= 2 * n * n,
            decreases n - col,
        {
            let ghost e = 2 * n * row + 2 * col;
            proof {
                assert((n * row + col) / (n as int) == row && (n * row + col) % (n as int) == col) by {
                    assert(n * row == row * n) by (nonlinear_arith);
                    vstd::arithmetic::div_mod::lemma_fundamental_div_mod_converse(n * row + col, n as int, row as int, col as int);
                }
                assert(e == (n * row + col) * 2) by (nonlinear_arith) requires e == 2 * n * row + 2 * col;
                vstd::arithmetic::div_mod::lemma_fundamental_div_mod_converse(e, 2, n * row + col, 0);
                vstd::arithmetic::div_mod::lemma_fundamental_div_mod_converse(e + 1, 2, n * row + col, 1);
                assert(2 * n * row + 2 * col + 2 <= 2 * n * n) by (nonlinear_arith) requires row < n, col < n;
                assert(3 * n + col < 4 * n);
            }
            let v = mat.get(row, col);
            if v == 1 {
                edges.push((row, 2 * n + col));
                edges.push((n + row, 3 * n + col));
            } else {
                edges.push((row, 3 * n + col));
                edges.push((n + row, 2 * n + col));
            }
            col = col + 1;
            assert(edges@ =~= loops + target.subrange(2 * n, 2 * n + 2 * n * row + 2 * col));
        }
        row = row + 1;
        assert(2 * n * (row - 1) + 2 * n == 2 * n * row) by (nonlinear_arith);
    }
    assert(2 * n * n == 2 * n * row);
    assert(edges@ =~= target);
    edges
}

/// The Magma text of an entry.
pub open spec fn magma_entry(e: i8) -> Seq<char> {
    if e == 1 { "1"@ } else { "-1"@ }
}

/// The first `k` entries of a row, separated by commas.
pub open spec fn entries_text(row: Seq<i8>, k: int) -> Seq<char>
    decreases k,
{
    if k <= 0 {
        Seq::empty()
    } else if k == 1 {
        magma_entry(row[0])
    } else {
        entries_text(row, k - 1) + ","@ + magma_entry(row[k - 1])
    }
}

/// The first `k` rows, each between brackets, separated by commas.
pub open spec fn rows_text(m: Seq<Seq<i8>>, k: int) -> Seq<char>
    decreases k,
{
    if k <= 0 {
        Seq::empty()
    } else if k == 1 {
        "["@ + entries_text(m[0], m.len() as int) + "]"@
    } else {
        rows_text(m, k - 1) + ","@ + "["@ + entries_text(m[k - 1], m.len() as int) + "]"@
    }
}

} // verus!
