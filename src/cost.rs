//! The asymmetric cell cost, the square cost matrix between the columns of
//! two matrices, and its repair after one bit of the estimate toggles.
use vstd::prelude::*;
use crate::matrix::{BinaryMatrix, cell_index, lemma_cell_index_bounds, lemma_cell_index_injective};

verus! {

/// Bound on `k * k` times the largest entry of a `k`-by-`k` cost matrix. It
/// keeps the sum of all entries of a cost matrix inside 64-bit integers, so
/// every matching cost fits in a `u64`, and every potential the solver builds
/// from those entries stays far inside `i128`.
pub const EXACT_LIMIT: u64 = 0x4000_0000_0000_0000;

/// Largest weight of one mismatched cell.
pub const MAX_WEIGHT: u64 = 0x2_0000_0000;

/// The asymmetry of the loss. A cell that is 1 in the estimate and 0 in the
/// draw costs `over`; one that is 0 in the estimate and 1 in the draw costs
/// `under`. With a real parameter `a` in `(0, 2)` written as `a = over / scale`,
/// `under / scale` is `2 - a`, and every loss is counted in units of `1 / scale`.
#[derive(Clone, Copy, Debug, PartialEq, Eq)]
pub struct Asymmetry {
    over: u64,
    under: u64,
}

impl Asymmetry {
    pub closed spec fn over_weight(&self) -> nat {
        self.over as nat
    }

    pub closed spec fn under_weight(&self) -> nat {
        self.under as nat
    }

    pub open spec fn max_weight(&self) -> nat {
        if self.over_weight() >= self.under_weight() {
            self.over_weight()
        } else {
            self.under_weight()
        }
    }

    /// Both weights are positive and bounded.
    pub open spec fn wf(&self) -> bool {
        &&& 0 < self.over_weight() <= MAX_WEIGHT
        &&& 0 < self.under_weight() <= MAX_WEIGHT
    }

    /// The asymmetry `a = a_units / scale`, with `2 - a = (2 * scale - a_units) / scale`;
    /// `None` unless `a` lies strictly between 0 and 2.
    pub fn new(a_units: u32, scale: u32) -> (r: Option<Asymmetry>)
        ensures
            r is None <==> !(0 < a_units < 2 * scale),
            r matches Some(w) ==> {
                &&& w.wf()
                &&& w.over_weight() == a_units
                &&& w.under_weight() == 2 * scale - a_units
            },
    {
        let two_scale: u64 = 2 * (scale as u64);
        if a_units == 0 || (a_units as u64) >= two_scale {
            None
        } else {
            Some(Asymmetry { over: a_units as u64, under: two_scale - a_units as u64 })
        }
    }

    /// The asymmetry with the two weights exchanged: `a` becomes `2 - a`.
    pub fn swapped(&self) -> (r: Asymmetry)
        ensures
            r.over_weight() == self.under_weight(),
            r.under_weight() == self.over_weight(),
    {
        Asymmetry { over: self.under, under: self.over }
    }

    pub fn over(&self) -> (r: u64)
        ensures
            r == self.over_weight(),
    {
        self.over
    }

    pub fn under(&self) -> (r: u64)
        ensures
            r == self.under_weight(),
    {
        self.under
    }

    fn max(&self) -> (r: u64)
        ensures
            r == self.max_weight(),
    {
        if self.over >= self.under {
            self.over
        } else {
            self.under
        }
    }
}

/// Cost of one cell: 0 on agreement, `over` for an estimate bit 1 against a
/// draw bit 0, `under` for the reverse.
pub open spec fn cell_cost(w: Asymmetry, x: bool, y: bool) -> nat {
    if x == y {
        0
    } else if x {
        w.over_weight()
    } else {
        w.under_weight()
    }
}

/// Weighted mismatch between column `i` of `m1` and column `j` of `m2` over
/// the first `rows` rows.
pub open spec fn column_cost(
    m1: BinaryMatrix,
    m2: BinaryMatrix,
    w: Asymmetry,
    i: int,
    j: int,
    rows: int,
) -> nat
    decreases rows,
{
    if rows <= 0 {
        0
    } else {
        column_cost(m1, m2, w, i, j, rows - 1) + cell_cost(w, m1.bit(rows - 1, i), m2.bit(rows - 1, j))
    }
}

/// Entry `(i, j)` of the cost matrix between `m1` and `m2`.
pub open spec fn cost_entry(m1: BinaryMatrix, m2: BinaryMatrix, w: Asymmetry, i: int, j: int) -> nat {
    column_cost(m1, m2, w, i, j, m1.rows() as int)
}

/// The cost matrix between `m1` and `m2` as a function.
pub open spec fn pair_costs(m1: BinaryMatrix, m2: BinaryMatrix, w: Asymmetry) -> spec_fn(int, int) -> int {
    |i: int, j: int| cost_entry(m1, m2, w, i, j) as int
}

/// Side of the square cost matrix between `m1` and `m2`.
pub open spec fn pair_width(m1: BinaryMatrix, m2: BinaryMatrix) -> nat {
    if m1.cols() >= m2.cols() {
        m1.cols()
    } else {
        m2.cols()
    }
}

/// Cost matrices of side `k` for matrices with `n_rows` rows can be solved
/// exactly: no sum of entries exceeds `EXACT_LIMIT`.
pub open spec fn exact_range(n_rows: nat, k: nat, w: Asymmetry) -> bool {
    &&& k * k <= EXACT_LIMIT
    &&& n_rows * w.max_weight() * (k * k) <= EXACT_LIMIT
}

/// A narrower cost matrix stays in exact range.
pub proof fn lemma_exact_range_narrower(n_rows: nat, k1: nat, k2: nat, w: Asymmetry)
    requires
        k1 <= k2,
        exact_range(n_rows, k2, w),
    ensures
        exact_range(n_rows, k1, w),
{
    assert(k1 * k1 <= k2 * k2) by (nonlinear_arith)
        requires k1 <= k2;
    let b = n_rows * w.max_weight();
    assert(b * (k1 * k1) <= b * (k2 * k2)) by (nonlinear_arith)
        requires k1 * k1 <= k2 * k2, b >= 0;
}

pub proof fn lemma_column_cost_bound(
    m1: BinaryMatrix,
    m2: BinaryMatrix,
    w: Asymmetry,
    i: int,
    j: int,
    rows: int,
)
    requires
        rows >= 0,
    ensures
        column_cost(m1, m2, w, i, j, rows) <= rows * w.max_weight(),
    decreases rows,
{
    if rows > 0 {
        lemma_column_cost_bound(m1, m2, w, i, j, rows - 1);
        assert((rows - 1) * w.max_weight() + w.max_weight() == rows * w.max_weight())
            by (nonlinear_arith);
    }
}

/// Column costs agree for matrices whose bits agree in the two columns.
pub proof fn lemma_column_cost_congruent(
    m1: BinaryMatrix,
    m2: BinaryMatrix,
    n1: BinaryMatrix,
    n2: BinaryMatrix,
    w: Asymmetry,
    i: int,
    j: int,
    i2: int,
    j2: int,
    rows: int,
)
    requires
        forall|r: int| 0 <= r < rows ==> #[trigger] m1.bit(r, i) == n1.bit(r, i2),
        forall|r: int| 0 <= r < rows ==> #[trigger] m2.bit(r, j) == n2.bit(r, j2),
    ensures
        column_cost(m1, m2, w, i, j, rows) == column_cost(n1, n2, w, i2, j2, rows),
    decreases rows,
{
    if rows > 0 {
        lemma_column_cost_congruent(m1, m2, n1, n2, w, i, j, i2, j2, rows - 1);
        assert(m1.bit(rows - 1, i) == n1.bit(rows - 1, i2));
        assert(m2.bit(rows - 1, j) == n2.bit(rows - 1, j2));
    }
}

/// Change of the cost of one cell when the estimate bit `x` is toggled.
pub open spec fn flip_delta(w: Asymmetry, x: bool, y: bool) -> int {
    cell_cost(w, !x, y) - cell_cost(w, x, y)
}

/// Toggling bit `(item, i)` of `m1` changes the cost of column `i` against any
/// column by the cost change of that one cell.
pub proof fn lemma_column_cost_flip(
    m1: BinaryMatrix,
    f1: BinaryMatrix,
    m2: BinaryMatrix,
    w: Asymmetry,
    item: int,
    i: int,
    j: int,
    rows: int,
)
    requires
        f1.is_flip_of(&m1, item, i),
        0 <= item,
    ensures
        column_cost(f1, m2, w, i, j, rows) == column_cost(m1, m2, w, i, j, rows) + if item < rows {
            flip_delta(w, m1.bit(item, i), m2.bit(item, j))
        } else {
            0
        },
    decreases rows,
{
    if rows > 0 {
        lemma_column_cost_flip(m1, f1, m2, w, item, i, j, rows - 1);
        if rows - 1 != item {
            assert(f1.bit(rows - 1, i) == m1.bit(rows - 1, i));
        }
    }
}

/// A square matrix of costs, stored row by row.
pub struct CostMatrix {
    k: usize,
    entries: Vec<u64>,
}

impl CostMatrix {
    pub closed spec fn side(&self) -> nat {
        self.k as nat
    }

    pub closed spec fn wf(&self) -> bool {
        self.entries@.len() == self.k * self.k
    }

    /// Entry `(i, j)`: the cost of matching row `i` with column `j`.
    pub closed spec fn entry(&self, i: int, j: int) -> int {
        self.entries@[cell_index(self.k as int, j, i)] as int
    }

    /// The entries in storage order.
    pub closed spec fn flat(&self) -> Seq<u64> {
        self.entries@
    }

    /// Same side and the same entries.
    pub open spec fn same_as(&self, other: &CostMatrix) -> bool {
        &&& self.side() == other.side()
        &&& forall|i: int, j: int|
            0 <= i < self.side() && 0 <= j < self.side() ==> #[trigger] self.entry(i, j)
                == other.entry(i, j)
    }

    /// This is the cost matrix between `m1` and `m2` under `w`.
    pub open spec fn is_costs_of(&self, m1: BinaryMatrix, m2: BinaryMatrix, w: Asymmetry) -> bool {
        &&& self.wf()
        &&& self.side() == pair_width(m1, m2)
        &&& forall|i: int, j: int|
            0 <= i < self.side() && 0 <= j < self.side() ==> #[trigger] self.entry(i, j)
                == cost_entry(m1, m2, w, i, j)
    }

    /// Every entry is small enough for exact solving.
    pub open spec fn exact(&self) -> bool {
        &&& self.side() * self.side() <= EXACT_LIMIT
        &&& forall|i: int, j: int|
            0 <= i < self.side() && 0 <= j < self.side() ==> #[trigger] self.entry(i, j) * (
            self.side() * self.side()) <= EXACT_LIMIT
    }

    pub fn side_len(&self) -> (r: usize)
        ensures
            r == self.side(),
            self.wf() && r >= 1 ==> r < usize::MAX,
    {
        let _len = self.entries.len();
        proof {
            if self.wf() && self.k >= 2 {
                assert(self.k as int * self.k as int >= 2 * self.k as int) by (nonlinear_arith)
                    requires self.k >= 2;
            }
        }
        self.k
    }

    pub fn get(&self, i: usize, j: usize) -> (r: u64)
        requires
            self.wf(),
            i < self.side(),
            j < self.side(),
        ensures
            r == self.entry(i as int, j as int),
    {
        let _len = self.entries.len();
        proof {
            lemma_cell_index_bounds(self.k as int, self.k as int, j as int, i as int);
        }
        self.entries[i * self.k + j]
    }

    /// The entries in storage order: entry `(i, j)` at `i * side + j`.
    pub fn entries(&self) -> (r: &Vec<u64>)
        ensures
            r@ == self.flat(),
    {
        &self.entries
    }
}

/// Exact check of `exact_range`.
pub fn check_exact_range(n_rows: usize, k: usize, w: Asymmetry) -> (r: bool)
    requires
        w.wf(),
    ensures
        r == exact_range(n_rows as nat, k as nat, w),
{
    let ku = k as u128;
    let nu = n_rows as u128;
    let mu = w.max() as u128;
    proof {
        assert(ku * ku <= 0xffff_ffff_ffff_ffff * 0xffff_ffff_ffff_ffff) by (nonlinear_arith)
            requires 0 <= ku <= 0xffff_ffff_ffff_ffff;
        assert(nu * mu <= 0xffff_ffff_ffff_ffff * MAX_WEIGHT) by (nonlinear_arith)
            requires 0 <= nu <= 0xffff_ffff_ffff_ffff, 0 <= mu <= MAX_WEIGHT;
    }
    let kk: u128 = ku * ku;
    let nw: u128 = nu * mu;
    if kk > EXACT_LIMIT as u128 {
        false
    } else if nw == 0 || kk == 0 {
        assert(nw * kk == 0) by (nonlinear_arith)
            requires nw == 0 || kk == 0;
        true
    } else if nw > EXACT_LIMIT as u128 {
        assert(nw * kk >= nw) by (nonlinear_arith)
            requires kk >= 1, nw >= 0;
        false
    } else {
        assert(nw * kk <= EXACT_LIMIT * EXACT_LIMIT) by (nonlinear_arith)
            requires nw <= EXACT_LIMIT, kk <= EXACT_LIMIT, nw >= 0, kk >= 0;
        nw * kk <= EXACT_LIMIT as u128
    }
}

/// Cost of one cell as an integer.
fn cell(w: Asymmetry, x: bool, y: bool) -> (r: u64)
    requires
        w.wf(),
    ensures
        r == cell_cost(w, x, y),
{
    if x == y {
        0
    } else if x {
        w.over()
    } else {
        w.under()
    }
}

/// Weighted mismatch between column `i` of `m1` and column `j` of `m2`.
pub(crate) fn column_mismatch(m1: &BinaryMatrix, m2: &BinaryMatrix, w: Asymmetry, i: usize, j: usize) -> (r: u64)
    requires
        m1.wf(),
        m2.wf(),
        w.wf(),
        m1.rows() == m2.rows(),
        m1.rows() * w.max_weight() <= EXACT_LIMIT,
    ensures
        r == cost_entry(*m1, *m2, w, i as int, j as int),
{
    let n = m1.n_rows();
    let mut acc: u64 = 0;
    let mut r: usize = 0;
    while r < n
        invariant
            m1.wf(),
            m2.wf(),
            w.wf(),
            n == m1.rows(),
            m1.rows() == m2.rows(),
            m1.rows() * w.max_weight() <= EXACT_LIMIT,
            r <= n,
            acc == column_cost(*m1, *m2, w, i as int, j as int, r as int),
        decreases n - r,
    {
        proof {
            lemma_column_cost_bound(*m1, *m2, w, i as int, j as int, r as int + 1);
            assert((r as int + 1) * w.max_weight() <= n * w.max_weight()) by (nonlinear_arith)
                requires r + 1 <= n;
        }
        let x = m1.get(r, i);
        let y = m2.get(r, j);
        acc = acc + cell(w, x, y);
        r = r + 1;
    }
    acc
}

/// The cost matrix between `m1` and `m2`: side `max(m1.cols, m2.cols)`, entry
/// `(i, j)` the weighted mismatch between column `i` of `m1` and column `j` of
/// `m2`, a missing column reading as zeros. `None` when both have no column.
pub fn make_weight_matrix(m1: &BinaryMatrix, m2: &BinaryMatrix, w: Asymmetry) -> (r: Option<CostMatrix>)
    requires
        m1.wf(),
        m2.wf(),
        w.wf(),
        m1.rows() == m2.rows(),
        exact_range(m1.rows(), pair_width(*m1, *m2), w),
    ensures
        r is None <==> pair_width(*m1, *m2) == 0,
        r matches Some(c) ==> c.is_costs_of(*m1, *m2, w) && c.exact(),
{
    let k = if m1.n_cols() >= m2.n_cols() {
        m1.n_cols()
    } else {
        m2.n_cols()
    };
    if k == 0 {
        return None;
    }
    let ghost kk = k as nat * k as nat;
    proof {
        assert(kk >= 1) by (nonlinear_arith)
            requires kk == k as nat * k as nat, k >= 1;
        assert(m1.rows() * w.max_weight() <= EXACT_LIMIT) by (nonlinear_arith)
            requires m1.rows() * w.max_weight() * kk <= EXACT_LIMIT, kk >= 1;
    }
    let mut entries: Vec<u64> = Vec::new();
    let mut i: usize = 0;
    while i < k
        invariant
            m1.wf(),
            m2.wf(),
            w.wf(),
            m1.rows() == m2.rows(),
            k == pair_width(*m1, *m2),
            kk == k * k,
            kk <= EXACT_LIMIT,
            m1.rows() * w.max_weight() * kk <= EXACT_LIMIT,
            m1.rows() * w.max_weight() <= EXACT_LIMIT,
            i <= k,
            entries@.len() == i * k,
            forall|i2: int, j2: int|
                0 <= i2 < i && 0 <= j2 < k ==> #[trigger] entries@[cell_index(k as int, j2, i2)]
                    == cost_entry(*m1, *m2, w, i2, j2),
        decreases k - i,
    {
        let mut j: usize = 0;
        while j < k
            invariant
                m1.wf(),
                m2.wf(),
                w.wf(),
                m1.rows() == m2.rows(),
                k == pair_width(*m1, *m2),
                m1.rows() * w.max_weight() <= EXACT_LIMIT,
                i < k,
                j <= k,
                entries@.len() == i * k + j,
                forall|i2: int, j2: int|
                    0 <= i2 < i && 0 <= j2 < k ==> #[trigger] entries@[cell_index(k as int, j2, i2)]
                        == cost_entry(*m1, *m2, w, i2, j2),
                forall|j2: int|
                    0 <= j2 < j ==> #[trigger] entries@[cell_index(k as int, j2, i as int)]
                        == cost_entry(*m1, *m2, w, i as int, j2),
            decreases k - j,
        {
            let c = column_mismatch(m1, m2, w, i, j);
            let ghost before = entries@;
            entries.push(c);
            proof {
                assert forall|i2: int, j2: int|
                    0 <= i2 < i && 0 <= j2 < k implies #[trigger] entries@[cell_index(k as int, j2, i2)]
                        == cost_entry(*m1, *m2, w, i2, j2) by {
                    lemma_cell_index_bounds(k as int, i as int, j2, i2);
                    assert(k * i == i * k) by (nonlinear_arith);
                    assert(entries@[cell_index(k as int, j2, i2)] == before[cell_index(k as int, j2, i2)]);
                }
                assert forall|j2: int|
                    0 <= j2 < j + 1 implies #[trigger] entries@[cell_index(k as int, j2, i as int)]
                        == cost_entry(*m1, *m2, w, i as int, j2) by {
                    if j2 < j {
                        assert(entries@[cell_index(k as int, j2, i as int)] == before[cell_index(k as int, j2, i as int)]);
                    }
                }
            }
            j = j + 1;
        }
        proof {
            assert((i + 1) * k == i * k + k) by (nonlinear_arith);
        }
        i = i + 1;
    }
    let c = CostMatrix { k, entries };
    proof {
        assert forall|i2: int, j2: int|
            0 <= i2 < c.side() && 0 <= j2 < c.side() implies #[trigger] c.entry(i2, j2)
                == cost_entry(*m1, *m2, w, i2, j2) by {
        }
        assert forall|i2: int, j2: int|
            0 <= i2 < c.side() && 0 <= j2 < c.side() implies #[trigger] c.entry(i2, j2) * (
            c.side() * c.side()) <= EXACT_LIMIT by {
            lemma_column_cost_bound(*m1, *m2, w, i2, j2, m1.rows() as int);
            let e = c.entry(i2, j2);
            assert(e * kk <= m1.rows() * w.max_weight() * kk) by (nonlinear_arith)
                requires e <= m1.rows() * w.max_weight(), kk >= 0;
        }
    }
    Some(c)
}

/// Repairs the cost matrix `c` between an estimate and `sample` after bit
/// `(item, feature)` of the estimate, which was `old_bit`, has been toggled:
/// only row `feature` changes, each entry by the cost change of one cell.
pub fn update_row(
    c: &mut CostMatrix,
    sample: &BinaryMatrix,
    w: Asymmetry,
    item: usize,
    feature: usize,
    old_bit: bool,
    Ghost(before): Ghost<BinaryMatrix>,
    Ghost(after): Ghost<BinaryMatrix>,
)
    requires
        before.wf(),
        sample.wf(),
        w.wf(),
        before.rows() == sample.rows(),
        item < before.rows(),
        feature < before.cols(),
        before.bit(item as int, feature as int) == old_bit,
        after.is_flip_of(&before, item as int, feature as int),
        exact_range(before.rows(), pair_width(before, *sample), w),
        old(c).is_costs_of(before, *sample, w),
    ensures
        final(c).is_costs_of(after, *sample, w),
        final(c).exact(),
{
    let k = c.k;
    let ghost n = before.rows() as int;
    let ghost kk = k as nat * k as nat;
    let ghost c0 = *c;
    proof {
        assert(kk >= 1) by (nonlinear_arith)
            requires kk == k as nat * k as nat, k >= 1;
        assert(n * w.max_weight() <= EXACT_LIMIT) by (nonlinear_arith)
            requires n * w.max_weight() * kk <= EXACT_LIMIT, kk >= 1;
        assert forall|i: int, j: int|
            0 <= i < k && 0 <= j < k && i != feature implies cost_entry(before, *sample, w, i, j)
                == cost_entry(after, *sample, w, i, j) by {
            lemma_column_cost_congruent(before, *sample, after, *sample, w, i, j, i, j, n);
        }
    }
    let mut j: usize = 0;
    while j < k
        invariant
            before.wf(),
            sample.wf(),
            w.wf(),
            before.rows() == sample.rows(),
            n == before.rows(),
            item < n,
            feature < k,
            k == c.k,
            k == c0.k,
            k == pair_width(before, *sample),
            kk == k * k,
            n * w.max_weight() <= EXACT_LIMIT,
            n * w.max_weight() * kk <= EXACT_LIMIT,
            before.bit(item as int, feature as int) == old_bit,
            after.is_flip_of(&before, item as int, feature as int),
            c0.is_costs_of(before, *sample, w),
            c.wf(),
            j <= k,
            forall|i: int, j2: int|
                0 <= i < k && 0 <= j2 < k && i != feature ==> #[trigger] c.entry(i, j2) == c0.entry(i, j2),
            forall|j2: int| 0 <= j2 < j ==> #[trigger] c.entry(feature as int, j2) == cost_entry(after, *sample, w, feature as int, j2),
            forall|j2: int| j <= j2 < k ==> #[trigger] c.entry(feature as int, j2) == c0.entry(feature as int, j2),
        decreases k - j,
    {
        proof {
            lemma_cell_index_bounds(k as int, k as int, j as int, feature as int);
            lemma_column_cost_flip(before, after, *sample, w, item as int, feature as int, j as int, n);
            lemma_column_cost_bound(after, *sample, w, feature as int, j as int, n);
        }
        let _len = c.entries.len();
        let idx = feature * k + j;
        let e = c.entries[idx];
        let sbit = sample.get(item, j);
        proof {
            assert(cell_index(k as int, j as int, feature as int) == idx);
            assert(e == c.entry(feature as int, j as int));
            assert(e == c0.entry(feature as int, j as int));
            assert(e == cost_entry(before, *sample, w, feature as int, j as int));
            assert(cost_entry(after, *sample, w, feature as int, j as int) == e + flip_delta(w, old_bit, sbit));
        }
        let updated = if old_bit {
            if sbit {
                e + w.under()
            } else {
                e - w.over()
            }
        } else {
            if sbit {
                e - w.under()
            } else {
                e + w.over()
            }
        };
        let ghost mid = *c;
        c.entries.set(idx, updated);
        proof {
            assert forall|i: int, j2: int|
                0 <= i < k && 0 <= j2 < k && (i != feature || j2 != j) implies #[trigger] c.entry(i, j2)
                    == mid.entry(i, j2) by {
                lemma_cell_index_bounds(k as int, k as int, j2, i);
                if cell_index(k as int, j2, i) == idx {
                    lemma_cell_index_injective(k as int, j2, i, j as int, feature as int);
                }
            }
            assert forall|i: int, j2: int|
                0 <= i < k && 0 <= j2 < k && i != feature implies #[trigger] c.entry(i, j2) == c0.entry(i, j2) by {
                assert(c.entry(i, j2) == mid.entry(i, j2));
            }
            assert forall|j2: int| 0 <= j2 < j + 1 implies #[trigger] c.entry(feature as int, j2)
                == cost_entry(after, *sample, w, feature as int, j2) by {
                if j2 < j {
                    assert(c.entry(feature as int, j2) == mid.entry(feature as int, j2));
                }
            }
            assert forall|j2: int| j + 1 <= j2 < k implies #[trigger] c.entry(feature as int, j2)
                == c0.entry(feature as int, j2) by {
                assert(c.entry(feature as int, j2) == mid.entry(feature as int, j2));
            }
        }
        j = j + 1;
    }
    proof {
        assert forall|i: int, j2: int|
            0 <= i < c.side() && 0 <= j2 < c.side() implies #[trigger] c.entry(i, j2)
                == cost_entry(after, *sample, w, i, j2) by {
            if i != feature {
                assert(c.entry(i, j2) == c0.entry(i, j2));
            }
        }
        assert forall|i: int, j2: int|
            0 <= i < c.side() && 0 <= j2 < c.side() implies #[trigger] c.entry(i, j2) * (
            c.side() * c.side()) <= EXACT_LIMIT by {
            lemma_column_cost_bound(after, *sample, w, i, j2, n);
            let e = c.entry(i, j2);
            assert(e * kk <= n * w.max_weight() * kk) by (nonlinear_arith)
                requires e <= n * w.max_weight(), kk >= 0;
        }
    }
}

} // verus!
