//! Binary items-by-features matrices, compared column by column with
//! missing columns read as zeros.
use vstd::prelude::*;

verus! {

/// A binary items-by-features matrix, stored column by column.
///
/// A column index at or past `n_cols` reads as a column of zeros, which is how
/// matrices of different widths are compared.
pub struct BinaryMatrix {
    n_rows: usize,
    n_cols: usize,
    bits: Vec<bool>,
}

/// Position of cell `(r, c)` in column-major storage with `n_rows` rows.
pub open spec fn cell_index(n_rows: int, r: int, c: int) -> int {
    c * n_rows + r
}

pub proof fn lemma_cell_index_bounds(n_rows: int, n_cols: int, r: int, c: int)
    requires
        0 <= r < n_rows,
        0 <= c < n_cols,
    ensures
        0 <= cell_index(n_rows, r, c) < n_rows * n_cols,
{
    assert(0 <= c * n_rows) by (nonlinear_arith)
        requires 0 <= c, 0 <= n_rows;
    assert(c * n_rows + n_rows <= n_cols * n_rows) by (nonlinear_arith)
        requires c + 1 <= n_cols, 0 <= n_rows;
    assert(n_cols * n_rows == n_rows * n_cols) by (nonlinear_arith);
}

pub proof fn lemma_cell_index_injective(n_rows: int, r1: int, c1: int, r2: int, c2: int)
    requires
        0 <= r1 < n_rows,
        0 <= r2 < n_rows,
        0 <= c1,
        0 <= c2,
        cell_index(n_rows, r1, c1) == cell_index(n_rows, r2, c2),
    ensures
        r1 == r2,
        c1 == c2,
{
    if c1 < c2 {
        assert(c1 * n_rows + n_rows <= c2 * n_rows) by (nonlinear_arith)
            requires c1 + 1 <= c2, 0 <= n_rows;
    } else if c2 < c1 {
        assert(c2 * n_rows + n_rows <= c1 * n_rows) by (nonlinear_arith)
            requires c2 + 1 <= c1, 0 <= n_rows;
    }
}

impl BinaryMatrix {
    pub closed spec fn rows(&self) -> nat {
        self.n_rows as nat
    }

    pub closed spec fn cols(&self) -> nat {
        self.n_cols as nat
    }

    /// The storage holds exactly one bit per cell.
    pub closed spec fn wf(&self) -> bool {
        self.bits@.len() == self.n_rows * self.n_cols
    }

    /// The bit at row `r` and column `c`; false outside the matrix.
    pub closed spec fn bit(&self, r: int, c: int) -> bool {
        if 0 <= r < self.n_rows && 0 <= c < self.n_cols {
            self.bits@[cell_index(self.n_rows as int, r, c)]
        } else {
            false
        }
    }

    /// Two matrices of one shape with the same bits.
    pub open spec fn same_as(&self, other: &BinaryMatrix) -> bool {
        &&& self.rows() == other.rows()
        &&& self.cols() == other.cols()
        &&& forall|r: int, c: int| #[trigger] self.bit(r, c) == other.bit(r, c)
    }

    /// This matrix with the bit at `(r, c)` toggled.
    pub open spec fn is_flip_of(&self, old: &BinaryMatrix, r: int, c: int) -> bool {
        &&& self.rows() == old.rows()
        &&& self.cols() == old.cols()
        &&& self.bit(r, c) == !old.bit(r, c)
        &&& forall|r2: int, c2: int|
            (r2 != r || c2 != c) ==> #[trigger] self.bit(r2, c2) == old.bit(r2, c2)
    }

    pub proof fn lemma_dims(&self)
        ensures
            self.rows() <= usize::MAX,
            self.cols() <= usize::MAX,
    {
    }

    /// The cells of a well-formed matrix fit in memory.
    pub proof fn lemma_cells_fit(&self)
        requires
            self.wf(),
        ensures
            self.rows() * self.cols() <= usize::MAX,
    {
        assert(self.bits@.len() == self.bits.len());
    }

    /// Outside the matrix every bit reads as 0.
    pub proof fn lemma_bit_outside(&self, r: int, c: int)
        requires
            !(0 <= r < self.rows()) || !(0 <= c < self.cols()),
        ensures
            !self.bit(r, c),
    {
    }

    /// Number of cells, `rows * cols`.
    pub fn n_cells(&self) -> (r: usize)
        requires
            self.wf(),
        ensures
            r == self.rows() * self.cols(),
    {
        self.bits.len()
    }

    pub fn n_rows(&self) -> (r: usize)
        ensures
            r == self.rows(),
    {
        self.n_rows
    }

    pub fn n_cols(&self) -> (r: usize)
        ensures
            r == self.cols(),
    {
        self.n_cols
    }

    /// The all-zero matrix; `None` when the cell count does not fit in `usize`.
    pub fn zeros(n_rows: usize, n_cols: usize) -> (m: Option<BinaryMatrix>)
        ensures
            m is None <==> n_rows * n_cols > usize::MAX,
            m matches Some(z) ==> {
                &&& z.wf()
                &&& z.rows() == n_rows
                &&& z.cols() == n_cols
                &&& forall|r: int, c: int| !#[trigger] z.bit(r, c)
            },
    {
        let len = n_rows.checked_mul(n_cols);
        match len {
            None => None,
            Some(len) => {
                let bits: Vec<bool> = vec![false; len];
                let z = BinaryMatrix { n_rows, n_cols, bits };
                proof {
                    assert forall|r: int, c: int| !#[trigger] z.bit(r, c) by {
                        if 0 <= r < n_rows && 0 <= c < n_cols {
                            lemma_cell_index_bounds(n_rows as int, n_cols as int, r, c);
                        }
                    }
                }
                Some(z)
            },
        }
    }

    /// The matrix with `n_rows` rows whose column-major cells are `bits`;
    /// `None` when `bits` does not hold a whole number of columns.
    pub fn from_column_major(n_rows: usize, bits: Vec<bool>) -> (m: Option<BinaryMatrix>)
        ensures
            m is None <==> (n_rows == 0 && bits@.len() != 0) || (n_rows > 0 && bits@.len() % (n_rows as nat) != 0),
            m matches Some(z) ==> {
                &&& z.wf()
                &&& z.rows() == n_rows
                &&& n_rows > 0 ==> z.cols() == bits@.len() / (n_rows as nat)
                &&& n_rows == 0 ==> z.cols() == 0
                &&& forall|r: int, c: int|
                    0 <= r < n_rows && 0 <= c < z.cols() ==> #[trigger] z.bit(r, c)
                        == bits@[cell_index(n_rows as int, r, c)]
            },
    {
        if n_rows == 0 {
            if bits.len() == 0 {
                Some(BinaryMatrix { n_rows, n_cols: 0, bits })
            } else {
                None
            }
        } else if bits.len() % n_rows != 0 {
            None
        } else {
            let n_cols = bits.len() / n_rows;
            proof {
                let l = bits@.len() as int;
                let n = n_rows as int;
                assert(l == n * (l / n) + l % n) by (nonlinear_arith)
                    requires n > 0;
                assert(n * (l / n) == (l / n) * n) by (nonlinear_arith);
            }
            Some(BinaryMatrix { n_rows, n_cols, bits })
        }
    }

    /// The bit at row `r` and column `c`; false at a column past the last.
    pub fn get(&self, r: usize, c: usize) -> (b: bool)
        requires
            self.wf(),
            r < self.rows(),
        ensures
            b == self.bit(r as int, c as int),
    {
        if c >= self.n_cols {
            false
        } else {
            let _len = self.bits.len();
            proof {
                lemma_cell_index_bounds(self.n_rows as int, self.n_cols as int, r as int, c as int);
            }
            self.bits[c * self.n_rows + r]
        }
    }

    /// A copy with the same shape and bits.
    pub fn copy(&self) -> (m: BinaryMatrix)
        ensures
            m.wf() == self.wf(),
            m.same_as(self),
    {
        let bits = self.bits.clone();
        let m = BinaryMatrix { n_rows: self.n_rows, n_cols: self.n_cols, bits };
        proof {
            assert(m.bits@ =~= self.bits@);
            assert forall|r: int, c: int| #[trigger] m.bit(r, c) == self.bit(r, c) by {}
        }
        m
    }

    /// Toggles the bit at row `r` and column `c`.
    pub fn flip(&mut self, r: usize, c: usize)
        requires
            old(self).wf(),
            r < old(self).rows(),
            c < old(self).cols(),
        ensures
            final(self).wf(),
            final(self).is_flip_of(old(self), r as int, c as int),
    {
        let _len = self.bits.len();
        proof {
            lemma_cell_index_bounds(self.n_rows as int, self.n_cols as int, r as int, c as int);
        }
        let idx = c * self.n_rows + r;
        let b = self.bits[idx];
        self.bits.set(idx, !b);
        proof {
            assert forall|r2: int, c2: int| (r2 != r || c2 != c) implies #[trigger] self.bit(r2, c2)
                == old(self).bit(r2, c2) by {
                if 0 <= r2 < self.n_rows && 0 <= c2 < self.n_cols {
                    lemma_cell_index_bounds(self.n_rows as int, self.n_cols as int, r2, c2);
                    if cell_index(self.n_rows as int, r2, c2) == idx {
                        lemma_cell_index_injective(self.n_rows as int, r2, c2, r as int, c as int);
                    }
                }
            }
        }
    }
}

impl BinaryMatrix {
    /// The matrix of the given shape whose column-major cells are `bits`.
    pub fn with_shape(n_rows: usize, n_cols: usize, bits: Vec<bool>) -> (m: BinaryMatrix)
        requires
            bits@.len() == n_rows * n_cols,
        ensures
            m.wf(),
            m.rows() == n_rows,
            m.cols() == n_cols,
            forall|r: int, c: int|
                0 <= r < n_rows && 0 <= c < n_cols ==> #[trigger] m.bit(r, c) == bits@[cell_index(n_rows as int, r, c)],
    {
        BinaryMatrix { n_rows, n_cols, bits }
    }
}

/// No bit of column `c` of `m` is set.
pub open spec fn column_empty(m: BinaryMatrix, c: int) -> bool {
    forall|r: int| 0 <= r < m.rows() ==> !#[trigger] m.bit(r, c)
}

/// `kept` lists, in increasing order, exactly the columns of `m` with a set
/// bit, and `out` consists of those columns.
pub open spec fn keeps_nonempty_columns(out: BinaryMatrix, m: BinaryMatrix, kept: Seq<usize>) -> bool {
    &&& out.wf()
    &&& out.rows() == m.rows()
    &&& out.cols() == kept.len()
    &&& forall|a: int, b: int| 0 <= a < b < kept.len() ==> kept[a] < kept[b]
    &&& forall|a: int| 0 <= a < kept.len() ==> #[trigger] kept[a] < m.cols()
    &&& forall|c: int| 0 <= c < m.cols() ==> (!column_empty(m, c) <==> #[trigger] kept.contains(c as usize))
    &&& forall|r: int, j: int| 0 <= r < m.rows() && 0 <= j < kept.len() ==> #[trigger] out.bit(r, j) == m.bit(r, kept[j] as int)
}

/// Whether column `c` of `m` has a set bit.
fn column_has_bit(m: &BinaryMatrix, c: usize) -> (r: bool)
    requires
        m.wf(),
    ensures
        r == !column_empty(*m, c as int),
{
    let n = m.n_rows();
    let mut r: usize = 0;
    while r < n
        invariant
            m.wf(),
            n == m.rows(),
            r <= n,
            forall|r2: int| 0 <= r2 < r ==> !#[trigger] m.bit(r2, c as int),
        decreases n - r,
    {
        if m.get(r, c) {
            return true;
        }
        r = r + 1;
    }
    false
}

/// `m` without its all-zero columns, the others kept in order.
pub fn drop_empty_columns(m: &BinaryMatrix) -> (out: BinaryMatrix)
    requires
        m.wf(),
    ensures
        exists|kept: Seq<usize>| keeps_nonempty_columns(out, *m, kept),
{
    let n = m.n_rows();
    let k = m.n_cols();
    let mut kept: Vec<usize> = Vec::new();
    let mut c: usize = 0;
    while c < k
        invariant
            m.wf(),
            n == m.rows(),
            k == m.cols(),
            c <= k,
            kept@.len() <= c,
            forall|a: int, b: int| 0 <= a < b < kept@.len() ==> kept@[a] < kept@[b],
            forall|a: int| 0 <= a < kept@.len() ==> #[trigger] kept@[a] < c,
            forall|c2: int| 0 <= c2 < c ==> (!column_empty(*m, c2) <==> #[trigger] kept@.contains(c2 as usize)),
        decreases k - c,
    {
        if column_has_bit(m, c) {
            let ghost before = kept@;
            kept.push(c);
            proof {
                assert forall|c2: int| 0 <= c2 < c + 1 implies (!column_empty(*m, c2) <==> #[trigger] kept@.contains(c2 as usize)) by {
                    if c2 < c {
                        if before.contains(c2 as usize) {
                            let a = choose|a: int| 0 <= a < before.len() && before[a] == c2 as usize;
                            assert(kept@[a] == c2 as usize);
                        }
                        if kept@.contains(c2 as usize) {
                            let a = choose|a: int| 0 <= a < kept@.len() && kept@[a] == c2 as usize;
                            assert(a < before.len());
                            assert(before[a] == c2 as usize);
                        }
                    } else {
                        assert(kept@[before.len() as int] == c);
                    }
                }
            }
        } else {
            proof {
                assert forall|c2: int| 0 <= c2 < c + 1 implies (!column_empty(*m, c2) <==> #[trigger] kept@.contains(c2 as usize)) by {
                    if c2 == c {
                        if kept@.contains(c2 as usize) {
                            let a = choose|a: int| 0 <= a < kept@.len() && kept@[a] == c2 as usize;
                        }
                    }
                }
            }
        }
        c = c + 1;
    }
    let w = kept.len();
    let _cells = m.n_cells();
    let mut bits: Vec<bool> = Vec::new();
    let mut j: usize = 0;
    proof {
        lemma_dims_product(n as int, k as int, w as int);
    }
    while j < w
        invariant
            m.wf(),
            n == m.rows(),
            k == m.cols(),
            w == kept@.len(),
            w <= k,
            n * w <= n * k,
            n * k <= usize::MAX,
            forall|a: int| 0 <= a < kept@.len() ==> #[trigger] kept@[a] < k,
            j <= w,
            bits@.len() == j * n,
            forall|r2: int, j2: int| 0 <= r2 < n && 0 <= j2 < j ==> #[trigger] bits@[cell_index(n as int, r2, j2)]
                == m.bit(r2, kept@[j2] as int),
        decreases w - j,
    {
        let src = kept[j];
        let mut r: usize = 0;
        while r < n
            invariant
                m.wf(),
                n == m.rows(),
                k == m.cols(),
                src < k,
                src == kept@[j as int],
                j < w,
                bits@.len() == j * n + r,
                r <= n,
                forall|r2: int, j2: int| 0 <= r2 < n && 0 <= j2 < j ==> #[trigger] bits@[cell_index(n as int, r2, j2)]
                    == m.bit(r2, kept@[j2] as int),
                forall|r2: int| 0 <= r2 < r ==> #[trigger] bits@[cell_index(n as int, r2, j as int)] == m.bit(r2, src as int),
            decreases n - r,
        {
            let b = m.get(r, src);
            let ghost before = bits@;
            bits.push(b);
            proof {
                assert forall|r2: int, j2: int| 0 <= r2 < n && 0 <= j2 < j implies #[trigger] bits@[cell_index(n as int, r2, j2)]
                    == m.bit(r2, kept@[j2] as int) by {
                    lemma_cell_index_bounds(n as int, j as int, r2, j2);
                    assert(n * j == j * n) by (nonlinear_arith);
                    assert(bits@[cell_index(n as int, r2, j2)] == before[cell_index(n as int, r2, j2)]);
                }
                assert forall|r2: int| 0 <= r2 < r + 1 implies #[trigger] bits@[cell_index(n as int, r2, j as int)] == m.bit(r2, src as int) by {
                    assert(cell_index(n as int, r2, j as int) == j * n + r2);
                    if r2 < r {
                        assert(bits@[cell_index(n as int, r2, j as int)] == before[cell_index(n as int, r2, j as int)]);
                    }
                }
            }
            r = r + 1;
        }
        proof {
            assert((j + 1) * n == j * n + n) by (nonlinear_arith);
            assert((j + 1) * n <= w * n) by (nonlinear_arith)
                requires j + 1 <= w;
            assert(w * n == n * w) by (nonlinear_arith);
        }
        j = j + 1;
    }
    proof {
        assert(n * w == w * n) by (nonlinear_arith);
    }
    let out = BinaryMatrix::with_shape(n, w, bits);
    proof {
        assert(keeps_nonempty_columns(out, *m, kept@));
    }
    out
}

proof fn lemma_dims_product(n: int, k: int, w: int)
    requires
        0 <= n,
        0 <= w <= k,
    ensures
        n * w <= n * k,
{
    assert(n * w <= n * k) by (nonlinear_arith)
        requires 0 <= n, 0 <= w <= k;
}

} // verus!
