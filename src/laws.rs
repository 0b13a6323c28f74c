//! Properties of the loss: zero against itself, invariant under reordering
//! the columns of either matrix, symmetric once the weights are swapped, and
//! the same whichever exact method computes it.
use vstd::prelude::*;
use crate::assignment::{assignment_cost, is_min_assignment, lemma_min_assignment_unique};
use crate::cost::{Asymmetry, cell_cost, column_cost, cost_entry, lemma_column_cost_congruent, pair_costs, pair_width};
use crate::matrix::BinaryMatrix;
use crate::perm::{
    compose, identity, inverse, is_permutation, is_hit, lemma_compose, lemma_identity_is_permutation,
    lemma_inverse, lemma_sum_congruent, lemma_sum_nonneg, lemma_sum_reindex, sum,
};

verus! {

proof fn lemma_column_cost_self(m: BinaryMatrix, w: Asymmetry, i: int, rows: int)
    ensures
        column_cost(m, m, w, i, i, rows) == 0,
    decreases rows,
{
    if rows > 0 {
        lemma_column_cost_self(m, w, i, rows - 1);
    }
}

proof fn lemma_assignment_cost_nonneg(m1: BinaryMatrix, m2: BinaryMatrix, w: Asymmetry, p: Seq<usize>, k: nat)
    ensures
        assignment_cost(pair_costs(m1, m2, w), p, k as int) >= 0,
{
    let c = pair_costs(m1, m2, w);
    lemma_sum_nonneg(|i: int| c(i, p[i] as int), k as int);
}

/// The loss of a matrix against itself is 0, whatever the asymmetry.
pub proof fn lemma_loss_to_self_is_zero(m: BinaryMatrix, w: Asymmetry, v: int)
    requires
        is_min_assignment(pair_costs(m, m, w), pair_width(m, m), v),
    ensures
        v == 0,
{
    let k = pair_width(m, m);
    let c = pair_costs(m, m, w);
    m.lemma_dims();
    lemma_identity_is_permutation(k);
    let id = identity(k);
    assert forall|i: int| 0 <= i < k implies #[trigger] c(i, id[i] as int) == 0 by {
        lemma_column_cost_self(m, w, i, m.rows() as int);
    }
    lemma_sum_congruent(|i: int| c(i, id[i] as int), |i: int| 0, k as int);
    lemma_sum_nonneg(|i: int| 0int, k as int);
    assert(sum(|i: int| 0int, k as int) == 0) by {
        lemma_sum_zero(k as int);
    }
    assert forall|p: Seq<usize>| is_permutation(p, k) implies #[trigger] assignment_cost(c, p, k as int) >= 0 by {
        lemma_assignment_cost_nonneg(m, m, w, p, k);
    }
    assert(assignment_cost(c, id, k as int) == 0);
    lemma_min_assignment_unique(c, k, v, 0);
}

proof fn lemma_sum_zero(n: int)
    ensures
        sum(|i: int| 0int, n) == 0,
    decreases n,
{
    if n > 0 {
        lemma_sum_zero(n - 1);
    }
}

/// Transposing the cost function and inverting the matching keeps the cost.
proof fn lemma_transpose_cost(c: spec_fn(int, int) -> int, ct: spec_fn(int, int) -> int, p: Seq<usize>, k: nat)
    requires
        k <= usize::MAX,
        is_permutation(p, k),
        forall|i: int, j: int| 0 <= i < k && 0 <= j < k ==> #[trigger] ct(j, i) == c(i, j),
    ensures
        is_permutation(inverse(p, k), k),
        assignment_cost(ct, inverse(p, k), k as int) == assignment_cost(c, p, k as int),
{
    let q = inverse(p, k);
    lemma_inverse(p, k);
    let f = |j: int| c(q[j] as int, j);
    assert forall|j: int| 0 <= j < k implies #[trigger] ct(j, q[j] as int) == f(j) by {
        assert(q[j] < k);
    }
    lemma_sum_congruent(|j: int| ct(j, q[j] as int), f, k as int);
    lemma_sum_reindex(f, p, k);
    assert forall|i: int| 0 <= i < k implies #[trigger] f(p[i] as int) == c(i, p[i] as int) by {
        assert(p[i] < k);
        assert(q[p[i] as int] == i);
    }
    lemma_sum_congruent(|i: int| f(p[i] as int), |i: int| c(i, p[i] as int), k as int);
}

/// The least matching cost is the same for a cost function and its transpose.
proof fn lemma_min_transpose(c: spec_fn(int, int) -> int, ct: spec_fn(int, int) -> int, k: nat, v: int)
    requires
        k <= usize::MAX,
        forall|i: int, j: int| 0 <= i < k && 0 <= j < k ==> #[trigger] ct(j, i) == c(i, j),
        is_min_assignment(c, k, v),
    ensures
        is_min_assignment(ct, k, v),
{
    let p = choose|p: Seq<usize>| is_permutation(p, k) && #[trigger] assignment_cost(c, p, k as int) == v;
    lemma_transpose_cost(c, ct, p, k);
    assert(assignment_cost(ct, inverse(p, k), k as int) == v);
    assert forall|q: Seq<usize>| is_permutation(q, k) implies #[trigger] assignment_cost(ct, q, k as int) >= v by {
        assert forall|i: int, j: int| 0 <= i < k && 0 <= j < k implies #[trigger] c(j, i) == ct(i, j) by {
            assert(ct(i, j) == c(j, i));
        }
        lemma_transpose_cost(ct, c, q, k);
        assert(assignment_cost(c, inverse(q, k), k as int) >= v);
    }
}

proof fn lemma_column_cost_mirror(m1: BinaryMatrix, m2: BinaryMatrix, w: Asymmetry, wm: Asymmetry, i: int, j: int, rows: int)
    requires
        wm.over_weight() == w.under_weight(),
        wm.under_weight() == w.over_weight(),
    ensures
        column_cost(m2, m1, wm, j, i, rows) == column_cost(m1, m2, w, i, j, rows),
    decreases rows,
{
    if rows > 0 {
        lemma_column_cost_mirror(m1, m2, w, wm, i, j, rows - 1);
    }
}

/// Swapping the two matrices while swapping the two weights (`a` for `2 - a`)
/// keeps the loss.
pub proof fn lemma_loss_swaps_with_asymmetry(m1: BinaryMatrix, m2: BinaryMatrix, w: Asymmetry, wm: Asymmetry, v: int)
    requires
        m1.rows() == m2.rows(),
        wm.over_weight() == w.under_weight(),
        wm.under_weight() == w.over_weight(),
    ensures
        pair_width(m1, m2) == pair_width(m2, m1),
        is_min_assignment(pair_costs(m1, m2, w), pair_width(m1, m2), v) <==> is_min_assignment(
            pair_costs(m2, m1, wm),
            pair_width(m2, m1),
            v,
        ),
{
    let k = pair_width(m1, m2);
    m1.lemma_dims();
    m2.lemma_dims();
    let c = pair_costs(m1, m2, w);
    let ct = pair_costs(m2, m1, wm);
    assert forall|i: int, j: int| 0 <= i < k && 0 <= j < k implies #[trigger] ct(j, i) == c(i, j) by {
        lemma_column_cost_mirror(m1, m2, w, wm, i, j, m1.rows() as int);
    }
    assert forall|i: int, j: int| 0 <= i < k && 0 <= j < k implies #[trigger] c(j, i) == ct(i, j) by {
        lemma_column_cost_mirror(m1, m2, w, wm, j, i, m1.rows() as int);
    }
    if is_min_assignment(c, k, v) {
        lemma_min_transpose(c, ct, k, v);
    }
    if is_min_assignment(ct, k, v) {
        lemma_min_transpose(ct, c, k, v);
    }
}

proof fn lemma_relabel_forward(c: spec_fn(int, int) -> int, cs: spec_fn(int, int) -> int, s: Seq<usize>, q: Seq<usize>, k: nat)
    requires
        is_permutation(s, k),
        is_permutation(q, k),
        forall|i: int, j: int| 0 <= i < k && 0 <= j < k ==> #[trigger] cs(i, j) == c(i, s[j] as int),
    ensures
        is_permutation(compose(s, q), k),
        assignment_cost(cs, q, k as int) == assignment_cost(c, compose(s, q), k as int),
{
    lemma_compose(s, q, k);
    assert forall|i: int| 0 <= i < k implies #[trigger] cs(i, q[i] as int) == c(i, compose(s, q)[i] as int) by {
        assert(q[i] < k);
    }
    lemma_sum_congruent(|i: int| cs(i, q[i] as int), |i: int| c(i, compose(s, q)[i] as int), k as int);
}

proof fn lemma_relabel_back(c: spec_fn(int, int) -> int, cs: spec_fn(int, int) -> int, s: Seq<usize>, p: Seq<usize>, k: nat)
    requires
        k <= usize::MAX,
        is_permutation(s, k),
        is_permutation(p, k),
        forall|i: int, j: int| 0 <= i < k && 0 <= j < k ==> #[trigger] cs(i, j) == c(i, s[j] as int),
    ensures
        is_permutation(compose(inverse(s, k), p), k),
        assignment_cost(c, p, k as int) == assignment_cost(cs, compose(inverse(s, k), p), k as int),
{
    lemma_inverse(s, k);
    let si = inverse(s, k);
    lemma_compose(si, p, k);
    assert forall|i: int| 0 <= i < k implies #[trigger] c(i, p[i] as int) == cs(i, compose(si, p)[i] as int) by {
        assert(p[i] < k);
        assert(s[si[p[i] as int] as int] == p[i]);
        assert(si[p[i] as int] < k);
    }
    lemma_sum_congruent(|i: int| c(i, p[i] as int), |i: int| cs(i, compose(si, p)[i] as int), k as int);
}

proof fn lemma_min_relabel_to_plain(c: spec_fn(int, int) -> int, cs: spec_fn(int, int) -> int, s: Seq<usize>, k: nat, v: int)
    requires
        k <= usize::MAX,
        is_permutation(s, k),
        forall|i: int, j: int| 0 <= i < k && 0 <= j < k ==> #[trigger] cs(i, j) == c(i, s[j] as int),
        is_min_assignment(cs, k, v),
    ensures
        is_min_assignment(c, k, v),
{
    let q = choose|q: Seq<usize>| is_permutation(q, k) && #[trigger] assignment_cost(cs, q, k as int) == v;
    lemma_relabel_forward(c, cs, s, q, k);
    assert(assignment_cost(c, compose(s, q), k as int) == v);
    assert forall|p: Seq<usize>| is_permutation(p, k) implies #[trigger] assignment_cost(c, p, k as int) >= v by {
        lemma_relabel_back(c, cs, s, p, k);
        assert(assignment_cost(cs, compose(inverse(s, k), p), k as int) >= v);
    }
}

proof fn lemma_min_relabel_to_relabelled(c: spec_fn(int, int) -> int, cs: spec_fn(int, int) -> int, s: Seq<usize>, k: nat, v: int)
    requires
        k <= usize::MAX,
        is_permutation(s, k),
        forall|i: int, j: int| 0 <= i < k && 0 <= j < k ==> #[trigger] cs(i, j) == c(i, s[j] as int),
        is_min_assignment(c, k, v),
    ensures
        is_min_assignment(cs, k, v),
{
    let p = choose|p: Seq<usize>| is_permutation(p, k) && #[trigger] assignment_cost(c, p, k as int) == v;
    lemma_relabel_back(c, cs, s, p, k);
    assert(assignment_cost(cs, compose(inverse(s, k), p), k as int) == v);
    assert forall|q: Seq<usize>| is_permutation(q, k) implies #[trigger] assignment_cost(cs, q, k as int) >= v by {
        lemma_relabel_forward(c, cs, s, q, k);
        assert(assignment_cost(c, compose(s, q), k as int) >= v);
    }
}

/// `mp` is `m` with its columns reordered: column `j` of `mp` is column
/// `perm[j]` of `m`.
pub open spec fn is_column_permutation(mp: BinaryMatrix, m: BinaryMatrix, perm: Seq<usize>) -> bool {
    &&& mp.rows() == m.rows()
    &&& mp.cols() == m.cols()
    &&& is_permutation(perm, m.cols())
    &&& forall|r: int, j: int| 0 <= j < m.cols() ==> #[trigger] mp.bit(r, j) == m.bit(r, perm[j] as int)
}

/// `perm` on the first `k2` positions, the identity from there to `k`.
spec fn extend(perm: Seq<usize>, k2: nat, k: nat) -> Seq<usize> {
    Seq::new(k, |j: int| if j < k2 { perm[j] } else { j as usize })
}

proof fn lemma_extend(perm: Seq<usize>, k2: nat, k: nat)
    requires
        k2 <= k <= usize::MAX,
        is_permutation(perm, k2),
    ensures
        is_permutation(extend(perm, k2, k), k),
{
    let e = extend(perm, k2, k);
    assert forall|i: int, j: int| 0 <= i < k && 0 <= j < k && i != j implies e[i] != e[j] by {
        if i < k2 && j >= k2 {
            assert(perm[i] < k2);
        } else if j < k2 && i >= k2 {
            assert(perm[j] < k2);
        }
    }
    assert forall|j: int| 0 <= j < k implies #[trigger] is_hit(e, k, j) by {
        if j < k2 {
            assert(is_hit(perm, k2, j));
            let i = choose|i: int| 0 <= i < k2 && #[trigger] perm[i] == j;
            assert(e[i] == j);
        } else {
            assert(e[j] == j);
        }
    }
}

/// Reordering the columns of the second matrix keeps the loss.
pub proof fn lemma_loss_invariant_under_column_permutation(
    m1: BinaryMatrix,
    m2: BinaryMatrix,
    m2p: BinaryMatrix,
    perm: Seq<usize>,
    w: Asymmetry,
    v: int,
)
    requires
        is_column_permutation(m2p, m2, perm),
    ensures
        pair_width(m1, m2p) == pair_width(m1, m2),
        is_min_assignment(pair_costs(m1, m2p, w), pair_width(m1, m2p), v) <==> is_min_assignment(
            pair_costs(m1, m2, w),
            pair_width(m1, m2),
            v,
        ),
{
    let k = pair_width(m1, m2);
    let k2 = m2.cols();
    m1.lemma_dims();
    m2.lemma_dims();
    let s = extend(perm, k2, k);
    lemma_extend(perm, k2, k);
    let c = pair_costs(m1, m2, w);
    let cs = pair_costs(m1, m2p, w);
    assert forall|i: int, j: int| 0 <= i < k && 0 <= j < k implies #[trigger] cs(i, j) == c(i, s[j] as int) by {
        if j < k2 {
            assert forall|r: int| 0 <= r < m1.rows() implies #[trigger] m2p.bit(r, j) == m2.bit(r, s[j] as int) by {
            }
        } else {
            assert forall|r: int| 0 <= r < m1.rows() implies #[trigger] m2p.bit(r, j) == m2.bit(r, s[j] as int) by {
                m2p.lemma_bit_outside(r, j);
                m2.lemma_bit_outside(r, j);
            }
        }
        assert forall|r: int| 0 <= r < m1.rows() implies #[trigger] m1.bit(r, i) == m1.bit(r, i) by {
        }
        lemma_column_cost_congruent(m1, m2p, m1, m2, w, i, j, i, s[j] as int, m1.rows() as int);
    }
    if is_min_assignment(cs, k, v) {
        lemma_min_relabel_to_plain(c, cs, s, k, v);
    }
    if is_min_assignment(c, k, v) {
        lemma_min_relabel_to_relabelled(c, cs, s, k, v);
    }
}

/// Reordering the columns of the first matrix keeps the loss.
pub proof fn lemma_loss_invariant_under_first_column_permutation(
    m1: BinaryMatrix,
    m1p: BinaryMatrix,
    m2: BinaryMatrix,
    perm: Seq<usize>,
    w: Asymmetry,
    wm: Asymmetry,
    v: int,
)
    requires
        is_column_permutation(m1p, m1, perm),
        m1.rows() == m2.rows(),
        wm.over_weight() == w.under_weight(),
        wm.under_weight() == w.over_weight(),
    ensures
        pair_width(m1p, m2) == pair_width(m1, m2),
        is_min_assignment(pair_costs(m1p, m2, w), pair_width(m1p, m2), v) <==> is_min_assignment(
            pair_costs(m1, m2, w),
            pair_width(m1, m2),
            v,
        ),
{
    lemma_loss_swaps_with_asymmetry(m1p, m2, w, wm, v);
    lemma_loss_invariant_under_column_permutation(m2, m1, m1p, perm, wm, v);
    lemma_loss_swaps_with_asymmetry(m1, m2, w, wm, v);
}

/// The solver's loss and the exhaustive search over all orderings of the
/// columns give the same number: both are the least matching cost.
pub proof fn lemma_solver_agrees_with_exhaustive_search(
    m1: BinaryMatrix,
    m2: BinaryMatrix,
    w: Asymmetry,
    solved: int,
    exhaustive: int,
)
    requires
        is_min_assignment(pair_costs(m1, m2, w), pair_width(m1, m2), solved),
        is_min_assignment(pair_costs(m1, m2, w), pair_width(m1, m2), exhaustive),
    ensures
        solved == exhaustive,
{
    lemma_min_assignment_unique(pair_costs(m1, m2, w), pair_width(m1, m2), solved, exhaustive);
}

} // verus!
