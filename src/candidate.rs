//! An estimate with its cached cost matrix against every draw, kept
//! consistent under single-bit flips, and its total loss over the draws.
use vstd::prelude::*;
use crate::assignment::{is_min_assignment, lemma_min_assignment_congruent, lemma_min_assignment_unique};
use crate::cost::{
    Asymmetry, CostMatrix, check_exact_range, exact_range, lemma_column_cost_congruent,
    make_weight_matrix, pair_costs, pair_width, update_row,
};
use crate::loss::{lemma_matrix_loss_is_pair_loss, loss, pairwise_loss};
use crate::cost::cost_entry;
use crate::matrix::BinaryMatrix;
use crate::perm::{lemma_sum_congruent, sum};

verus! {

/// Every draw is a well-formed matrix with `n_rows` rows.
pub open spec fn valid_samples(samples: Seq<BinaryMatrix>, n_rows: nat) -> bool {
    forall|s: int| 0 <= s < samples.len() ==> #[trigger] samples[s].wf() && samples[s].rows() == n_rows
}

/// Side of the cost matrix of an estimate with `n_cols` columns against `m`.
pub open spec fn width_with(n_cols: nat, m: BinaryMatrix) -> nat {
    if n_cols >= m.cols() {
        n_cols
    } else {
        m.cols()
    }
}

/// The cost matrices of an estimate with `n_rows` rows and `n_cols` columns
/// against every draw stay within exact range.
pub open spec fn all_exact(n_rows: nat, n_cols: nat, samples: Seq<BinaryMatrix>, w: Asymmetry) -> bool {
    forall|s: int| 0 <= s < samples.len() ==> exact_range(n_rows, #[trigger] width_with(n_cols, samples[s]), w)
}

/// `ls[s]` is the loss of `e` against draw `s`, for every draw.
pub open spec fn per_sample_losses(e: BinaryMatrix, samples: Seq<BinaryMatrix>, w: Asymmetry, ls: Seq<int>) -> bool {
    &&& ls.len() == samples.len()
    &&& forall|s: int| 0 <= s < samples.len() ==> is_min_assignment(
        pair_costs(e, samples[s], w),
        pair_width(e, samples[s]),
        #[trigger] ls[s],
    )
}

/// `t` is the sum of the losses of `e` against all draws; the expected loss
/// is `t` divided by the number of draws.
pub open spec fn is_total_loss(e: BinaryMatrix, samples: Seq<BinaryMatrix>, w: Asymmetry, t: int) -> bool {
    exists|ls: Seq<int>| #[trigger] per_sample_losses(e, samples, w, ls) && t == sum(|s: int| ls[s], samples.len() as int)
}

/// The total loss is one number.
pub proof fn lemma_total_loss_unique(e: BinaryMatrix, samples: Seq<BinaryMatrix>, w: Asymmetry, t1: int, t2: int)
    requires
        is_total_loss(e, samples, w, t1),
        is_total_loss(e, samples, w, t2),
    ensures
        t1 == t2,
{
    let l1 = choose|ls: Seq<int>| #[trigger] per_sample_losses(e, samples, w, ls) && t1 == sum(|s: int| ls[s], samples.len() as int);
    let l2 = choose|ls: Seq<int>| #[trigger] per_sample_losses(e, samples, w, ls) && t2 == sum(|s: int| ls[s], samples.len() as int);
    assert forall|s: int| 0 <= s < samples.len() implies #[trigger] l1[s] == l2[s] by {
        lemma_min_assignment_unique(pair_costs(e, samples[s], w), pair_width(e, samples[s]), l1[s], l2[s]);
    }
    lemma_sum_congruent(|s: int| l1[s], |s: int| l2[s], samples.len() as int);
}

/// Matrices with the same bits have the same total loss.
pub proof fn lemma_total_loss_same_bits(e1: BinaryMatrix, e2: BinaryMatrix, samples: Seq<BinaryMatrix>, w: Asymmetry, t: int)
    requires
        e1.same_as(&e2),
        is_total_loss(e1, samples, w, t),
    ensures
        is_total_loss(e2, samples, w, t),
{
    let ls = choose|ls: Seq<int>| #[trigger] per_sample_losses(e1, samples, w, ls) && t == sum(|s: int| ls[s], samples.len() as int);
    assert forall|s: int| 0 <= s < samples.len() implies is_min_assignment(
        pair_costs(e2, samples[s], w),
        pair_width(e2, samples[s]),
        #[trigger] ls[s],
    ) by {
        let k = pair_width(e1, samples[s]);
        assert forall|i: int, j: int| 0 <= i < k && 0 <= j < k implies #[trigger] pair_costs(e1, samples[s], w)(i, j)
            == pair_costs(e2, samples[s], w)(i, j) by {
            assert forall|r: int| 0 <= r < e1.rows() implies #[trigger] e1.bit(r, i) == e2.bit(r, i) by {}
            lemma_column_cost_congruent(e1, samples[s], e2, samples[s], w, i, j, i, j, e1.rows() as int);
        }
        lemma_min_assignment_congruent(pair_costs(e1, samples[s], w), pair_costs(e2, samples[s], w), k, ls[s]);
    }
    assert(per_sample_losses(e2, samples, w, ls));
}

/// Whether the cost matrices of an `n_rows` by `n_cols` estimate against
/// every draw stay within exact range.
pub fn check_all_exact(n_rows: usize, n_cols: usize, samples: &Vec<BinaryMatrix>, w: Asymmetry) -> (r: bool)
    requires
        w.wf(),
    ensures
        r == all_exact(n_rows as nat, n_cols as nat, samples@, w),
{
    let mut s: usize = 0;
    while s < samples.len()
        invariant
            w.wf(),
            s <= samples@.len(),
            forall|s2: int| 0 <= s2 < s ==> exact_range(n_rows as nat, #[trigger] width_with(n_cols as nat, samples@[s2]), w),
        decreases samples@.len() - s,
    {
        let c = samples[s].n_cols();
        let k = if n_cols >= c {
            n_cols
        } else {
            c
        };
        if !check_exact_range(n_rows, k, w) {
            proof {
                assert(!exact_range(n_rows as nat, width_with(n_cols as nat, samples@[s as int]), w));
            }
            return false;
        }
        s = s + 1;
    }
    true
}

/// An estimate together with its cost matrix against each draw, kept
/// consistent with the estimate's bits as they change.
pub struct CandidateState {
    estimate: BinaryMatrix,
    weights: Vec<CostMatrix>,
}

impl CandidateState {
    pub closed spec fn estimate_spec(&self) -> BinaryMatrix {
        self.estimate
    }

    pub closed spec fn weight(&self, s: int) -> CostMatrix {
        self.weights@[s]
    }

    pub closed spec fn n_weights(&self) -> nat {
        self.weights@.len()
    }

    /// The estimate has at least one column, the draws are valid for it, and
    /// the cached cost matrix for each draw is the one computed from scratch.
    pub open spec fn wf(&self, samples: Seq<BinaryMatrix>, w: Asymmetry) -> bool {
        &&& w.wf()
        &&& self.estimate_spec().wf()
        &&& self.estimate_spec().cols() >= 1
        &&& valid_samples(samples, self.estimate_spec().rows())
        &&& all_exact(self.estimate_spec().rows(), self.estimate_spec().cols(), samples, w)
        &&& self.n_weights() == samples.len()
        &&& forall|s: int| 0 <= s < samples.len() ==> #[trigger] self.weight(s).is_costs_of(
            self.estimate_spec(),
            samples[s],
            w,
        ) && self.weight(s).exact()
    }

    /// Builds the cost matrices of `estimate` against every draw; `None` when
    /// some of them would leave exact range.
    pub fn new(estimate: BinaryMatrix, samples: &Vec<BinaryMatrix>, w: Asymmetry) -> (r: Option<CandidateState>)
        requires
            w.wf(),
            estimate.wf(),
            estimate.cols() >= 1,
            valid_samples(samples@, estimate.rows()),
        ensures
            r is None <==> !all_exact(estimate.rows(), estimate.cols(), samples@, w),
            r matches Some(st) ==> st.wf(samples@, w) && st.estimate_spec() == estimate,
    {
        if !check_all_exact(estimate.n_rows(), estimate.n_cols(), samples, w) {
            return None;
        }
        let mut weights: Vec<CostMatrix> = Vec::new();
        let mut s: usize = 0;
        while s < samples.len()
            invariant
                w.wf(),
                estimate.wf(),
                estimate.cols() >= 1,
                valid_samples(samples@, estimate.rows()),
                all_exact(estimate.rows(), estimate.cols(), samples@, w),
                s <= samples@.len(),
                weights@.len() == s,
                forall|s2: int| 0 <= s2 < s ==> #[trigger] weights@[s2].is_costs_of(estimate, samples@[s2], w)
                    && weights@[s2].exact(),
            decreases samples@.len() - s,
        {
            proof {
                assert(samples@[s as int].wf());
                assert(exact_range(estimate.rows(), width_with(estimate.cols(), samples@[s as int]), w));
            }
            let c = make_weight_matrix(&estimate, &samples[s], w);
            match c {
                None => {
                    return None;
                },
                Some(c) => {
                    weights.push(c);
                },
            }
            s = s + 1;
        }
        Some(CandidateState { estimate, weights })
    }

    pub fn estimate(&self) -> (r: &BinaryMatrix)
        ensures
            *r == self.estimate_spec(),
    {
        &self.estimate
    }

    /// The estimate, giving up the cost matrices.
    pub fn into_estimate(self) -> (r: BinaryMatrix)
        ensures
            r == self.estimate_spec(),
    {
        self.estimate
    }

    /// The cached cost matrix against draw `s`.
    pub fn weight_matrix(&self, s: usize) -> (r: &CostMatrix)
        requires
            s < self.n_weights(),
        ensures
            *r == self.weight(s as int),
    {
        &self.weights[s]
    }

    /// The total loss of the estimate over all draws, solved on the cached
    /// cost matrices.
    pub fn expected_loss(&self, samples: &Vec<BinaryMatrix>, w: Asymmetry) -> (r: u128)
        requires
            self.wf(samples@, w),
        ensures
            is_total_loss(self.estimate_spec(), samples@, w, r as int),
    {
        let n = self.weights.len();
        let mut acc: u128 = 0;
        let ghost mut ls: Seq<int> = Seq::empty();
        let mut s: usize = 0;
        while s < n
            invariant
                self.wf(samples@, w),
                n == samples@.len(),
                s <= n,
                ls.len() == s,
                forall|s2: int| 0 <= s2 < s ==> is_min_assignment(
                    pair_costs(self.estimate_spec(), samples@[s2], w),
                    pair_width(self.estimate_spec(), samples@[s2]),
                    #[trigger] ls[s2],
                ),
                acc == sum(|s2: int| ls[s2], s as int),
                acc <= s * 0xffff_ffff_ffff_ffff,
            decreases n - s,
        {
            proof {
                assert(self.weight(s as int).is_costs_of(self.estimate_spec(), samples@[s as int], w));
            }
            let c = &self.weights[s];
            let v = loss(c);
            proof {
                lemma_matrix_loss_is_pair_loss(*c, self.estimate_spec(), samples@[s as int], w, v as int);
                let ls0 = ls;
                ls = ls.push(v as int);
                lemma_sum_congruent(|s2: int| ls0[s2], |s2: int| ls[s2], s as int);
                assert((s + 1) * 0xffff_ffff_ffff_ffff == s * 0xffff_ffff_ffff_ffff + 0xffff_ffff_ffff_ffff) by (nonlinear_arith);
                assert(s * 0xffff_ffff_ffff_ffff <= 0xffff_ffff_ffff_ffff * 0xffff_ffff_ffff_ffff) by (nonlinear_arith)
                    requires s <= 0xffff_ffff_ffff_ffff;
            }
            acc = acc + v as u128;
            s = s + 1;
        }
        proof {
            assert(per_sample_losses(self.estimate_spec(), samples@, w, ls));
        }
        acc
    }

    /// Toggles bit `(item, feature)` of the estimate and repairs row
    /// `feature` of every cost matrix.
    pub fn flip(&mut self, item: usize, feature: usize, samples: &Vec<BinaryMatrix>, w: Asymmetry)
        requires
            old(self).wf(samples@, w),
            item < old(self).estimate_spec().rows(),
            feature < old(self).estimate_spec().cols(),
        ensures
            final(self).wf(samples@, w),
            final(self).estimate_spec().wf(),
            final(self).estimate_spec().is_flip_of(&old(self).estimate_spec(), item as int, feature as int),
    {
        let old_bit = self.estimate.get(item, feature);
        let ghost before = self.estimate;
        self.estimate.flip(item, feature);
        let ghost after = self.estimate;
        let n = self.weights.len();
        proof {
            assert forall|s2: int| 0 <= s2 < n implies #[trigger] self.weights@[s2].is_costs_of(before, samples@[s2], w) by {
                assert(old(self).weight(s2).is_costs_of(before, samples@[s2], w));
            }
        }
        let mut s: usize = 0;
        while s < n
            invariant
                w.wf(),
                before.wf(),
                after.wf(),
                before.cols() >= 1,
                self.estimate == after,
                after.is_flip_of(&before, item as int, feature as int),
                item < before.rows(),
                feature < before.cols(),
                before.bit(item as int, feature as int) == old_bit,
                valid_samples(samples@, before.rows()),
                all_exact(before.rows(), before.cols(), samples@, w),
                n == samples@.len(),
                self.weights@.len() == n,
                s <= n,
                forall|s2: int| 0 <= s2 < s ==> #[trigger] self.weights@[s2].is_costs_of(after, samples@[s2], w)
                    && self.weights@[s2].exact(),
                forall|s2: int| s <= s2 < n ==> #[trigger] self.weights@[s2].is_costs_of(before, samples@[s2], w),
            decreases n - s,
        {
            proof {
                assert(samples@[s as int].wf());
                assert(exact_range(before.rows(), width_with(before.cols(), samples@[s as int]), w));
            }
            update_row(&mut self.weights[s], &samples[s], w, item, feature, old_bit, Ghost(before), Ghost(after));
            s = s + 1;
        }
    }

    /// The total loss that the estimate would have with bit `(item, feature)`
    /// toggled. Each cost matrix is repaired for the toggle, solved, and
    /// repaired back; the estimate is left as it was.
    pub fn loss_if_flipped(&mut self, item: usize, feature: usize, samples: &Vec<BinaryMatrix>, w: Asymmetry) -> (r: u128)
        requires
            old(self).wf(samples@, w),
            item < old(self).estimate_spec().rows(),
            feature < old(self).estimate_spec().cols(),
        ensures
            final(self).wf(samples@, w),
            final(self).estimate_spec() == old(self).estimate_spec(),
            forall|f: BinaryMatrix| f.is_flip_of(&old(self).estimate_spec(), item as int, feature as int)
                ==> #[trigger] is_total_loss(f, samples@, w, r as int),
    {
        let old_bit = self.estimate.get(item, feature);
        let ghost before = self.estimate;
        let mut flipped = self.estimate.copy();
        flipped.flip(item, feature);
        let ghost after = flipped;
        let n = self.weights.len();
        proof {
            assert forall|s2: int| 0 <= s2 < n implies #[trigger] self.weights@[s2].is_costs_of(before, samples@[s2], w)
                && self.weights@[s2].exact() by {
                assert(self.weight(s2).is_costs_of(before, samples@[s2], w));
            }
        }
        let mut acc: u128 = 0;
        let ghost mut ls: Seq<int> = Seq::empty();
        let mut s: usize = 0;
        while s < n
            invariant
                w.wf(),
                before.wf(),
                after.wf(),
                before.cols() >= 1,
                self.estimate == before,
                after.is_flip_of(&before, item as int, feature as int),
                item < before.rows(),
                feature < before.cols(),
                before.bit(item as int, feature as int) == old_bit,
                valid_samples(samples@, before.rows()),
                all_exact(before.rows(), before.cols(), samples@, w),
                n == samples@.len(),
                self.weights@.len() == n,
                s <= n,
                forall|s2: int| 0 <= s2 < n ==> #[trigger] self.weights@[s2].is_costs_of(before, samples@[s2], w)
                    && self.weights@[s2].exact(),
                ls.len() == s,
                forall|s2: int| 0 <= s2 < s ==> is_min_assignment(
                    pair_costs(after, samples@[s2], w),
                    pair_width(after, samples@[s2]),
                    #[trigger] ls[s2],
                ),
                acc == sum(|s2: int| ls[s2], s as int),
                acc <= s * 0xffff_ffff_ffff_ffff,
            decreases n - s,
        {
            proof {
                assert(samples@[s as int].wf());
                assert(exact_range(before.rows(), width_with(before.cols(), samples@[s as int]), w));
                after.lemma_dims();
            }
            update_row(&mut self.weights[s], &samples[s], w, item, feature, old_bit, Ghost(before), Ghost(after));
            let v = loss(&self.weights[s]);
            proof {
                let back = self.weights@[s as int];
                lemma_matrix_loss_is_pair_loss(back, after, samples@[s as int], w, v as int);
                assert(before.is_flip_of(&after, item as int, feature as int));
                assert(exact_range(
                    after.rows(),
                    pair_width(after, samples@[s as int]),
                    w,
                ));
            }
            update_row(&mut self.weights[s], &samples[s], w, item, feature, !old_bit, Ghost(after), Ghost(before));
            proof {
                let ls0 = ls;
                ls = ls.push(v as int);
                lemma_sum_congruent(|s2: int| ls0[s2], |s2: int| ls[s2], s as int);
                assert((s + 1) * 0xffff_ffff_ffff_ffff == s * 0xffff_ffff_ffff_ffff + 0xffff_ffff_ffff_ffff) by (nonlinear_arith);
                assert(s * 0xffff_ffff_ffff_ffff <= 0xffff_ffff_ffff_ffff * 0xffff_ffff_ffff_ffff) by (nonlinear_arith)
                    requires s <= 0xffff_ffff_ffff_ffff;
            }
            acc = acc + v as u128;
            s = s + 1;
        }
        proof {
            assert(per_sample_losses(after, samples@, w, ls));
            assert forall|f: BinaryMatrix| f.is_flip_of(&before, item as int, feature as int)
                implies #[trigger] is_total_loss(f, samples@, w, acc as int) by {
                assert forall|r: int, c: int| #[trigger] after.bit(r, c) == f.bit(r, c) by {}
                lemma_total_loss_same_bits(after, f, samples@, w, acc as int);
            }
        }
        acc
    }
}

/// The total loss of `estimate` over all draws, every cost matrix built from
/// scratch. `None` exactly when some cost matrix would leave exact range.
pub fn expected_loss_from_samples(estimate: &BinaryMatrix, samples: &Vec<BinaryMatrix>, w: Asymmetry) -> (r: Option<u128>)
    requires
        w.wf(),
        estimate.wf(),
        samples@.len() >= 1,
        valid_samples(samples@, estimate.rows()),
    ensures
        r is None <==> !all_exact(estimate.rows(), estimate.cols(), samples@, w),
        r matches Some(t) ==> is_total_loss(*estimate, samples@, w, t as int),
{
    let n = samples.len();
    let mut acc: u128 = 0;
    let ghost mut ls: Seq<int> = Seq::empty();
    let mut s: usize = 0;
    while s < n
        invariant
            w.wf(),
            estimate.wf(),
            valid_samples(samples@, estimate.rows()),
            n == samples@.len(),
            s <= n,
            ls.len() == s,
            forall|s2: int| 0 <= s2 < s ==> is_min_assignment(
                pair_costs(*estimate, samples@[s2], w),
                pair_width(*estimate, samples@[s2]),
                #[trigger] ls[s2],
            ),
            forall|s2: int| 0 <= s2 < s ==> exact_range(estimate.rows(), #[trigger] width_with(estimate.cols(), samples@[s2]), w),
            acc == sum(|s2: int| ls[s2], s as int),
            acc <= s * 0xffff_ffff_ffff_ffff,
        decreases n - s,
    {
        proof {
            assert(samples@[s as int].wf());
        }
        match pairwise_loss(estimate, &samples[s], w) {
            None => {
                proof {
                    if all_exact(estimate.rows(), estimate.cols(), samples@, w) {
                        assert(exact_range(estimate.rows(), width_with(estimate.cols(), samples@[s as int]), w));
                    }
                }
                return None;
            },
            Some(v) => {
                proof {
                    let ls0 = ls;
                    ls = ls.push(v as int);
                    lemma_sum_congruent(|s2: int| ls0[s2], |s2: int| ls[s2], s as int);
                    assert((s + 1) * 0xffff_ffff_ffff_ffff == s * 0xffff_ffff_ffff_ffff + 0xffff_ffff_ffff_ffff) by (nonlinear_arith);
                    assert(s * 0xffff_ffff_ffff_ffff <= 0xffff_ffff_ffff_ffff * 0xffff_ffff_ffff_ffff) by (nonlinear_arith)
                        requires s <= 0xffff_ffff_ffff_ffff;
                }
                acc = acc + v as u128;
            },
        }
        s = s + 1;
    }
    proof {
        assert(per_sample_losses(*estimate, samples@, w, ls));
    }
    Some(acc)
}

/// The total loss solved on the cached cost matrices equals the one computed
/// by rebuilding every cost matrix from scratch, after any history of flips:
/// both are the total loss of the current bits, and each cached cost matrix
/// has the entries of the rebuilt one.
pub proof fn lemma_cached_loss_equals_rebuilt(
    st: CandidateState,
    samples: Seq<BinaryMatrix>,
    w: Asymmetry,
    cached: int,
    rebuilt: int,
    s: int,
    c: CostMatrix,
)
    requires
        st.wf(samples, w),
        is_total_loss(st.estimate_spec(), samples, w, cached),
        is_total_loss(st.estimate_spec(), samples, w, rebuilt),
        0 <= s < samples.len(),
        c.is_costs_of(st.estimate_spec(), samples[s], w),
    ensures
        cached == rebuilt,
        st.weight(s).same_as(&c),
{
    lemma_total_loss_unique(st.estimate_spec(), samples, w, cached, rebuilt);
    assert(st.weight(s).is_costs_of(st.estimate_spec(), samples[s], w));
}

/// Toggling one cell and toggling it back restores the estimate's bits, every
/// cached cost matrix entry for entry, and the total loss.
pub proof fn lemma_flip_twice_restores(
    st0: CandidateState,
    st1: CandidateState,
    st2: CandidateState,
    samples: Seq<BinaryMatrix>,
    w: Asymmetry,
    item: int,
    feature: int,
    t: int,
)
    requires
        st0.wf(samples, w),
        st2.wf(samples, w),
        st1.estimate_spec().is_flip_of(&st0.estimate_spec(), item, feature),
        st2.estimate_spec().is_flip_of(&st1.estimate_spec(), item, feature),
    ensures
        st2.estimate_spec().same_as(&st0.estimate_spec()),
        forall|s: int| 0 <= s < samples.len() ==> #[trigger] st2.weight(s).same_as(&st0.weight(s)),
        is_total_loss(st2.estimate_spec(), samples, w, t) <==> is_total_loss(st0.estimate_spec(), samples, w, t),
{
    let e0 = st0.estimate_spec();
    let e2 = st2.estimate_spec();
    assert forall|r: int, c: int| #[trigger] e2.bit(r, c) == e0.bit(r, c) by {
        if r != item || c != feature {
            assert(st1.estimate_spec().bit(r, c) == e0.bit(r, c));
        }
    }
    assert forall|s: int| 0 <= s < samples.len() implies #[trigger] st2.weight(s).same_as(&st0.weight(s)) by {
        assert(st2.weight(s).is_costs_of(e2, samples[s], w));
        assert(st0.weight(s).is_costs_of(e0, samples[s], w));
        let k = st0.weight(s).side();
        assert forall|i: int, j: int| 0 <= i < k && 0 <= j < k implies #[trigger] st2.weight(s).entry(i, j) == st0.weight(s).entry(i, j) by {
            assert forall|r: int| 0 <= r < e2.rows() implies #[trigger] e2.bit(r, i) == e0.bit(r, i) by {}
            lemma_column_cost_congruent(e2, samples[s], e0, samples[s], w, i, j, i, j, e2.rows() as int);
        }
    }
    if is_total_loss(e2, samples, w, t) {
        lemma_total_loss_same_bits(e2, e0, samples, w, t);
    }
    if is_total_loss(e0, samples, w, t) {
        assert forall|r: int, c: int| #[trigger] e0.bit(r, c) == e2.bit(r, c) by {}
        lemma_total_loss_same_bits(e0, e2, samples, w, t);
    }
}

} // verus!
