//! The alignment-invariant loss between two matrices, by the solver and by
//! trying every ordering of the columns.
use vstd::prelude::*;
use crate::assignment::{
    all_orderings, assignment_cost, is_min_assignment, lemma_min_assignment_congruent, matching_cost,
    matrix_costs, solve_assignment,
};
use crate::cost::{
    Asymmetry, CostMatrix, EXACT_LIMIT, check_exact_range, column_mismatch, cost_entry, exact_range,
    lemma_column_cost_bound, make_weight_matrix, pair_costs, pair_width,
};
use crate::matrix::BinaryMatrix;
use crate::perm::{identity, is_permutation, lemma_identity_is_permutation, sum};

verus! {

/// The least matching cost of the cost matrix `c`.
pub fn loss(c: &CostMatrix) -> (r: u64)
    requires
        c.wf(),
        c.exact(),
        c.side() >= 1,
    ensures
        is_min_assignment(matrix_costs(*c), c.side(), r as int),
{
    let p = solve_assignment(c);
    matching_cost(c, &p)
}

/// With no column on either side the loss is 0.
pub proof fn lemma_empty_loss(m1: BinaryMatrix, m2: BinaryMatrix, w: Asymmetry)
    requires
        pair_width(m1, m2) == 0,
    ensures
        is_min_assignment(pair_costs(m1, m2, w), 0, 0),
{
    let p = Seq::<usize>::empty();
    assert(is_permutation(p, 0));
    assert(assignment_cost(pair_costs(m1, m2, w), p, 0) == 0);
    assert forall|q: Seq<usize>| is_permutation(q, 0) implies #[trigger] assignment_cost(pair_costs(m1, m2, w), q, 0) >= 0 by {
    }
}

/// A cost matrix of `m1` and `m2` has the least cost of their pair.
pub proof fn lemma_matrix_loss_is_pair_loss(c: CostMatrix, m1: BinaryMatrix, m2: BinaryMatrix, w: Asymmetry, v: int)
    requires
        c.is_costs_of(m1, m2, w),
        is_min_assignment(matrix_costs(c), c.side(), v),
    ensures
        is_min_assignment(pair_costs(m1, m2, w), pair_width(m1, m2), v),
{
    lemma_min_assignment_congruent(matrix_costs(c), pair_costs(m1, m2, w), c.side(), v);
}

/// The alignment-invariant loss between `m1` and `m2`: the least total cost,
/// over all matchings of the columns of `m1` with those of `m2` (each padded
/// with zero columns to the wider width), of the weighted mismatches of the
/// matched columns. 0 when neither has a column. `None` exactly when the
/// costs are too large for exact solving (`exact_range`).
pub fn pairwise_loss(m1: &BinaryMatrix, m2: &BinaryMatrix, w: Asymmetry) -> (r: Option<u64>)
    requires
        m1.wf(),
        m2.wf(),
        w.wf(),
        m1.rows() == m2.rows(),
    ensures
        r is None <==> !exact_range(m1.rows(), pair_width(*m1, *m2), w),
        exact_range(m1.rows(), pair_width(*m1, *m2), w) && pair_width(*m1, *m2) == 0 ==> r == Some(0u64),
        r matches Some(v) ==> is_min_assignment(pair_costs(*m1, *m2, w), pair_width(*m1, *m2), v as int),
{
    match pairwise_loss_with_assignment(m1, m2, w) {
        None => None,
        Some((v, _)) => Some(v),
    }
}

/// `pairwise_loss` together with a matching that attains it: column `i` of
/// `m1` is matched with column `p[i]` of `m2`.
pub fn pairwise_loss_with_assignment(m1: &BinaryMatrix, m2: &BinaryMatrix, w: Asymmetry) -> (r: Option<(u64, Vec<usize>)>)
    requires
        m1.wf(),
        m2.wf(),
        w.wf(),
        m1.rows() == m2.rows(),
    ensures
        r is None <==> !exact_range(m1.rows(), pair_width(*m1, *m2), w),
        exact_range(m1.rows(), pair_width(*m1, *m2), w) && pair_width(*m1, *m2) == 0 ==> (r matches Some((v, p)) && v == 0 && p@.len() == 0),
        r matches Some((v, p)) ==> {
            &&& is_permutation(p@, pair_width(*m1, *m2))
            &&& v == assignment_cost(pair_costs(*m1, *m2, w), p@, pair_width(*m1, *m2) as int)
            &&& is_min_assignment(pair_costs(*m1, *m2, w), pair_width(*m1, *m2), v as int)
        },
{
    let k = if m1.n_cols() >= m2.n_cols() {
        m1.n_cols()
    } else {
        m2.n_cols()
    };
    if !check_exact_range(m1.n_rows(), k, w) {
        return None;
    }
    match make_weight_matrix(m1, m2, w) {
        None => {
            proof {
                lemma_empty_loss(*m1, *m2, w);
                assert(is_permutation(Seq::<usize>::empty(), 0));
            }
            Some((0, Vec::new()))
        },
        Some(c) => {
            let p = solve_assignment(&c);
            let v = matching_cost(&c, &p);
            proof {
                lemma_matrix_loss_is_pair_loss(c, *m1, *m2, w, v as int);
                crate::assignment::lemma_assignment_cost_congruent(
                    matrix_costs(c), pair_costs(*m1, *m2, w), p@, c.side());
            }
            Some((v, p))
        },
    }
}

/// Weighted mismatch of `m1` against `m2` when column `i` of `m1` is set
/// against column `p[i]` of `m2`, computed from the bits.
fn direct_cost(m1: &BinaryMatrix, m2: &BinaryMatrix, w: Asymmetry, p: &Vec<usize>, k: usize) -> (r: u64)
    requires
        m1.wf(),
        m2.wf(),
        w.wf(),
        m1.rows() == m2.rows(),
        k == pair_width(*m1, *m2),
        exact_range(m1.rows(), k as nat, w),
        is_permutation(p@, k as nat),
    ensures
        r == assignment_cost(pair_costs(*m1, *m2, w), p@, k as int),
{
    let ghost n = m1.rows() as int;
    let ghost kk = k as int * k as int;
    proof {
        if k >= 1 {
            assert(kk >= k) by (nonlinear_arith)
                requires k >= 1, kk == k as int * k as int;
            assert(n * w.max_weight() <= EXACT_LIMIT) by (nonlinear_arith)
                requires n * w.max_weight() * kk <= EXACT_LIMIT, kk >= 1, n >= 0;
        }
    }
    let mut acc: u64 = 0;
    let mut i: usize = 0;
    while i < k
        invariant
            m1.wf(),
            m2.wf(),
            w.wf(),
            m1.rows() == m2.rows(),
            n == m1.rows(),
            k == pair_width(*m1, *m2),
            kk == k as int * k as int,
            k >= 1 ==> n * w.max_weight() <= EXACT_LIMIT,
            kk >= k,
            n * w.max_weight() * kk <= EXACT_LIMIT,
            is_permutation(p@, k as nat),
            i <= k,
            acc == assignment_cost(pair_costs(*m1, *m2, w), p@, i as int),
            acc <= i * (n * w.max_weight()),
        decreases k - i,
    {
        let j = p[i];
        let x = column_mismatch(m1, m2, w, i, j);
        proof {
            lemma_column_cost_bound(*m1, *m2, w, i as int, j as int, n);
            let b = n * w.max_weight();
            assert((i + 1) * b <= kk * b) by (nonlinear_arith)
                requires i + 1 <= k, kk >= k, b >= 0;
            assert((i + 1) * b == i * b + b) by (nonlinear_arith);
            assert(kk * b == n * w.max_weight() * kk) by (nonlinear_arith)
                requires b == n * w.max_weight();
        }
        acc = acc + x;
        i = i + 1;
    }
    acc
}

/// The loss between `m1` and `m2` found by trying every matching of their
/// columns: the least direct weighted mismatch over all orderings. `None` when
/// the costs are too large (`exact_range`). Takes time factorial in the width.
pub fn loss_by_permutations(m1: &BinaryMatrix, m2: &BinaryMatrix, w: Asymmetry) -> (r: Option<u64>)
    requires
        m1.wf(),
        m2.wf(),
        w.wf(),
        m1.rows() == m2.rows(),
    ensures
        r is None <==> !exact_range(m1.rows(), pair_width(*m1, *m2), w),
        r matches Some(v) ==> is_min_assignment(pair_costs(*m1, *m2, w), pair_width(*m1, *m2), v as int),
{
    let k = if m1.n_cols() >= m2.n_cols() {
        m1.n_cols()
    } else {
        m2.n_cols()
    };
    if !check_exact_range(m1.n_rows(), k, w) {
        return None;
    }
    let orderings = all_orderings(k);
    let ghost c = pair_costs(*m1, *m2, w);
    proof {
        lemma_identity_is_permutation(k as nat);
    }
    let mut best: Option<u64> = None;
    let mut t: usize = 0;
    while t < orderings.len()
        invariant
            m1.wf(),
            m2.wf(),
            w.wf(),
            m1.rows() == m2.rows(),
            k == pair_width(*m1, *m2),
            exact_range(m1.rows(), k as nat, w),
            c == pair_costs(*m1, *m2, w),
            forall|s: int| 0 <= s < orderings@.len() ==> is_permutation(#[trigger] orderings@[s]@, k as nat),
            t <= orderings@.len(),
            t == 0 <==> best is None,
            best matches Some(b) ==> exists|s: int| 0 <= s < t && #[trigger] assignment_cost(c, orderings@[s]@, k as int) == b,
            best matches Some(b) ==> forall|s: int| 0 <= s < t ==> #[trigger] assignment_cost(c, orderings@[s]@, k as int) >= b,
        decreases orderings@.len() - t,
    {
        let x = direct_cost(m1, m2, w, &orderings[t], k);
        match best {
            None => {
                best = Some(x);
            },
            Some(b) => {
                if x < b {
                    best = Some(x);
                    proof {
                        assert forall|s: int| 0 <= s < t + 1 implies #[trigger] assignment_cost(c, orderings@[s]@, k as int) >= x by {
                            if s < t {
                                assert(assignment_cost(c, orderings@[s]@, k as int) >= b);
                            }
                        }
                    }
                } else {
                    proof {
                        let s0 = choose|s: int| 0 <= s < t && #[trigger] assignment_cost(c, orderings@[s]@, k as int) == b;
                        assert(0 <= s0 < t + 1);
                    }
                }
            },
        }
        proof {
            assert(assignment_cost(c, orderings@[t as int]@, k as int) == x);
        }
        t = t + 1;
    }
    proof {
        let id = identity(k as nat);
        let s0 = choose|s: int| 0 <= s < orderings@.len() && #[trigger] orderings@[s]@ == id;
    }
    match best {
        None => None,
        Some(b) => {
            proof {
                let s0 = choose|s: int| 0 <= s < t && #[trigger] assignment_cost(c, orderings@[s]@, k as int) == b;
                assert(is_permutation(orderings@[s0]@, k as nat));
                assert forall|p: Seq<usize>| is_permutation(p, k as nat) implies #[trigger] assignment_cost(c, p, k as int) >= b by {
                    let s1 = choose|s: int| 0 <= s < orderings@.len() && #[trigger] orderings@[s]@ == p;
                    assert(assignment_cost(c, orderings@[s1]@, k as int) >= b);
                }
            }
            Some(b)
        },
    }
}

} // verus!
