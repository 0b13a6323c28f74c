//! Local search: the stochastic single-flip step and the exhaustive
//! best-improvement search.
use vstd::prelude::*;
use rand_pcg::Mcg128Xsl64;
use crate::candidate::{CandidateState, is_total_loss, lemma_total_loss_unique};
use crate::cost::Asymmetry;
use crate::matrix::BinaryMatrix;
use crate::random::index_below;

verus! {

/// Row and column of cell `index` when cells are numbered row by row in a
/// matrix with `ncols` columns.
pub fn index_1d_to_2d(index: usize, ncols: usize) -> (r: (usize, usize))
    requires
        ncols > 0,
    ensures
        r.1 < ncols,
        r.0 * ncols + r.1 == index,
{
    let r = (index / ncols, index % ncols);
    proof {
        assert((index / ncols) * ncols + index % ncols == index) by (nonlinear_arith)
            requires ncols > 0;
    }
    r
}

/// One estimate under refinement, with its total loss and its own random
/// stream; `when` is the iteration of the last accepted flip and `n_accepts`
/// the number of accepted flips.
pub struct Sweet {
    pub state: CandidateState,
    pub loss: u128,
    pub id: usize,
    pub n_accepts: usize,
    pub when: usize,
    pub rng: Mcg128Xsl64,
}

impl Sweet {
    /// The cached state is consistent and `loss` is the estimate's total loss.
    pub open spec fn wf(&self, samples: Seq<BinaryMatrix>, w: Asymmetry) -> bool {
        &&& self.state.wf(samples, w)
        &&& is_total_loss(self.state.estimate_spec(), samples, w, self.loss as int)
    }

    /// The accept/reject decision for cell `(item, feature)`: toggles the bit
    /// if that lowers the total loss strictly, recording the acceptance at
    /// `iteration`; otherwise leaves the sweet as it was (its cost matrices
    /// still agree with the unchanged estimate). Returns whether it toggled.
    pub fn step_at(&mut self, item: usize, feature: usize, iteration: usize, samples: &Vec<BinaryMatrix>, w: Asymmetry) -> (accepted: bool)
        requires
            old(self).wf(samples@, w),
            old(self).n_accepts < usize::MAX,
            item < old(self).state.estimate_spec().rows(),
            feature < old(self).state.estimate_spec().cols(),
        ensures
            final(self).wf(samples@, w),
            final(self).id == old(self).id,
            final(self).rng == old(self).rng,
            accepted <==> final(self).loss < old(self).loss,
            accepted ==> {
                &&& final(self).state.estimate_spec().is_flip_of(&old(self).state.estimate_spec(), item as int, feature as int)
                &&& final(self).n_accepts == old(self).n_accepts + 1
                &&& final(self).when == iteration
            },
            !accepted ==> {
                &&& no_better_flip(old(self).state.estimate_spec(), samples@, w, item as int, feature as int, old(self).loss as int)
                &&& final(self).state.estimate_spec() == old(self).state.estimate_spec()
                &&& final(self).loss == old(self).loss
                &&& final(self).n_accepts == old(self).n_accepts
                &&& final(self).when == old(self).when
            },
    {
        let ghost e0 = self.state.estimate_spec();
        let new_loss = self.state.loss_if_flipped(item, feature, samples, w);
        if new_loss < self.loss {
            self.state.flip(item, feature, samples, w);
            self.n_accepts = self.n_accepts + 1;
            self.when = iteration;
            self.loss = new_loss;
            proof {
                assert(is_total_loss(self.state.estimate_spec(), samples@, w, new_loss as int));
            }
            true
        } else {
            proof {
                assert forall|f: BinaryMatrix, t2: int| f.is_flip_of(&e0, item as int, feature as int)
                    && #[trigger] is_total_loss(f, samples@, w, t2) implies t2 >= old(self).loss by {
                    lemma_total_loss_unique(f, samples@, w, t2, new_loss as int);
                }
            }
            false
        }
    }

    /// One stochastic iteration: draws a cell uniformly and makes the
    /// accept/reject decision for it (`step_at`). A sweet without cells is
    /// left as it was.
    pub fn step(&mut self, iteration: usize, samples: &Vec<BinaryMatrix>, w: Asymmetry)
        requires
            old(self).wf(samples@, w),
            old(self).n_accepts < usize::MAX,
        ensures
            final(self).wf(samples@, w),
            final(self).stepped_from(old(self), samples@, w, iteration),
    {
        let n_items = self.state.estimate().n_rows();
        let n_features = self.state.estimate().n_cols();
        let total_length = self.state.estimate().n_cells();
        if n_items == 0 {
            return;
        }
        proof {
            assert(total_length >= 1) by (nonlinear_arith)
                requires total_length == n_items * n_features, n_items >= 1, n_features >= 1;
        }
        let cell = index_below(&mut self.rng, total_length);
        let (item, feature) = index_1d_to_2d(cell, n_features);
        proof {
            if item >= n_items {
                assert(item * n_features >= n_items * n_features) by (nonlinear_arith)
                    requires item >= n_items, n_features >= 0;
            }
        }
        let ghost before = *self;
        self.step_at(item, feature, iteration, samples, w);
        proof {
            let r = item as int;
            let c = feature as int;
            assert(0 <= r < before.state.estimate_spec().rows() && 0 <= c < before.state.estimate_spec().cols());
            let flipped = self.state.estimate_spec().is_flip_of(&before.state.estimate_spec(), r, c);
            assert(self.loss < before.loss ==> flipped);
            assert(self.loss == before.loss ==> no_better_flip(before.state.estimate_spec(), samples@, w, r, c, before.loss as int));
            assert(self.stepped_from(&before, samples@, w, iteration));
        }
    }

    /// `self` is `old` after one stochastic iteration at `iteration`: the
    /// shape and id are kept and the loss does not rise; an acceptance toggles
    /// one cell and is counted; otherwise nothing changes, and (when there
    /// are cells) the drawn cell's toggle would not have lowered the loss.
    pub open spec fn stepped_from(&self, old: &Sweet, samples: Seq<BinaryMatrix>, w: Asymmetry, iteration: usize) -> bool {
        let e = self.state.estimate_spec();
        let e0 = old.state.estimate_spec();
        &&& self.loss <= old.loss
        &&& self.id == old.id
        &&& e.rows() == e0.rows()
        &&& e.cols() == e0.cols()
        &&& self.loss < old.loss ==> self.n_accepts == old.n_accepts + 1 && self.when == iteration
        &&& self.loss == old.loss ==> self.n_accepts == old.n_accepts && self.when == old.when && e == e0
        &&& e0.rows() > 0 ==> exists|r: int, c: int|
            0 <= r < e0.rows() && 0 <= c < e0.cols()
            && (self.loss < old.loss ==> #[trigger] e.is_flip_of(&e0, r, c))
            && (self.loss == old.loss ==> no_better_flip(e0, samples, w, r, c, old.loss as int))
    }
}

/// No estimate with bit `(item, feature)` of `e` toggled has a total loss
/// below `t`.
pub open spec fn no_better_flip(e: BinaryMatrix, samples: Seq<BinaryMatrix>, w: Asymmetry, item: int, feature: int, t: int) -> bool {
    forall|f: BinaryMatrix, t2: int| f.is_flip_of(&e, item, feature) && #[trigger] is_total_loss(f, samples, w, t2) ==> t2 >= t
}

/// One round of best-improvement search from an estimate whose total loss is
/// `current`: evaluates every single-bit toggle and applies the one with the
/// lowest resulting loss if that is below `current`, returning the new total.
/// `None` when no toggle lowers the loss; the estimate is then unchanged.
pub fn best_flip_round(state: &mut CandidateState, current: u128, samples: &Vec<BinaryMatrix>, w: Asymmetry) -> (r: Option<u128>)
    requires
        old(state).wf(samples@, w),
        is_total_loss(old(state).estimate_spec(), samples@, w, current as int),
    ensures
        final(state).wf(samples@, w),
        final(state).estimate_spec().rows() == old(state).estimate_spec().rows(),
        final(state).estimate_spec().cols() == old(state).estimate_spec().cols(),
        r matches Some(t) ==> {
            &&& t < current
            &&& is_total_loss(final(state).estimate_spec(), samples@, w, t as int)
            &&& exists|i: int, j: int| 0 <= i < old(state).estimate_spec().rows() && 0 <= j < old(state).estimate_spec().cols()
                && #[trigger] final(state).estimate_spec().is_flip_of(&old(state).estimate_spec(), i, j)
            &&& forall|i: int, j: int| 0 <= i < old(state).estimate_spec().rows() && 0 <= j < old(state).estimate_spec().cols()
                ==> #[trigger] no_better_flip(old(state).estimate_spec(), samples@, w, i, j, t as int)
        },
        r is None ==> {
            &&& final(state).estimate_spec() == old(state).estimate_spec()
            &&& forall|i: int, j: int| 0 <= i < old(state).estimate_spec().rows() && 0 <= j < old(state).estimate_spec().cols()
                ==> #[trigger] no_better_flip(old(state).estimate_spec(), samples@, w, i, j, current as int)
        },
{
    let n_items = state.estimate().n_rows();
    let n_features = state.estimate().n_cols();
    let ghost e0 = state.estimate_spec();
    let mut best_value: u128 = current;
    let mut found = false;
    let mut best_item: usize = 0;
    let mut best_feature: usize = 0;
    let mut i: usize = 0;
    while i < n_items
        invariant
            state.wf(samples@, w),
            state.estimate_spec() == e0,
            n_items == e0.rows(),
            n_features == e0.cols(),
            i <= n_items,
            best_value <= current,
            !found ==> best_value == current,
            found ==> best_item < n_items && best_feature < n_features && best_value < current,
            found ==> forall|f: BinaryMatrix| f.is_flip_of(&e0, best_item as int, best_feature as int)
                ==> #[trigger] is_total_loss(f, samples@, w, best_value as int),
            forall|i2: int, j2: int| 0 <= i2 < i && 0 <= j2 < n_features
                ==> #[trigger] no_better_flip(e0, samples@, w, i2, j2, best_value as int),
        decreases n_items - i,
    {
        let mut j: usize = 0;
        while j < n_features
            invariant
                state.wf(samples@, w),
                state.estimate_spec() == e0,
                n_items == e0.rows(),
                n_features == e0.cols(),
                i < n_items,
                j <= n_features,
                best_value <= current,
                !found ==> best_value == current,
                found ==> best_item < n_items && best_feature < n_features && best_value < current,
                found ==> forall|f: BinaryMatrix| f.is_flip_of(&e0, best_item as int, best_feature as int)
                    ==> #[trigger] is_total_loss(f, samples@, w, best_value as int),
                forall|i2: int, j2: int| 0 <= i2 < i && 0 <= j2 < n_features
                    ==> #[trigger] no_better_flip(e0, samples@, w, i2, j2, best_value as int),
                forall|j2: int| 0 <= j2 < j
                    ==> #[trigger] no_better_flip(e0, samples@, w, i as int, j2, best_value as int),
            decreases n_features - j,
        {
            let ghost old_best = best_value;
            let c = state.loss_if_flipped(i, j, samples, w);
            if c < best_value {
                best_value = c;
                found = true;
                best_item = i;
                best_feature = j;
            }
            proof {
                let b = best_value;
                assert(no_better_flip(e0, samples@, w, i as int, j as int, b as int)) by {
                    assert forall|f: BinaryMatrix, t2: int| f.is_flip_of(&e0, i as int, j as int)
                        && #[trigger] is_total_loss(f, samples@, w, t2) implies t2 >= b by {
                        lemma_total_loss_unique(f, samples@, w, t2, c as int);
                    }
                }
                assert forall|i2: int, j2: int| 0 <= i2 < i && 0 <= j2 < n_features implies
                    #[trigger] no_better_flip(e0, samples@, w, i2, j2, b as int) by {
                    assert(no_better_flip(e0, samples@, w, i2, j2, old_best as int));
                    assert forall|f: BinaryMatrix, t2: int| f.is_flip_of(&e0, i2, j2)
                        && #[trigger] is_total_loss(f, samples@, w, t2) implies t2 >= b by {}
                }
                assert forall|j2: int| 0 <= j2 < j + 1 implies
                    #[trigger] no_better_flip(e0, samples@, w, i as int, j2, b as int) by {
                    if j2 < j {
                        assert(no_better_flip(e0, samples@, w, i as int, j2, old_best as int));
                        assert forall|f: BinaryMatrix, t2: int| f.is_flip_of(&e0, i as int, j2)
                            && #[trigger] is_total_loss(f, samples@, w, t2) implies t2 >= b by {}
                    }
                }
            }
            j = j + 1;
        }
        i = i + 1;
    }
    if found {
        state.flip(best_item, best_feature, samples, w);
        proof {
            assert(state.estimate_spec().is_flip_of(&e0, best_item as int, best_feature as int));
        }
        Some(best_value)
    } else {
        None
    }
}

/// Exhaustive best-improvement search: repeats `best_flip_round` until no
/// toggle helps or `deadline` has passed. Returns the final total loss and
/// whether the search stopped at a local optimum, where no single toggle
/// lowers the loss (false only when the deadline cut it short). A final loss
/// equal to the starting one means the estimate was not changed.
pub fn neighborhood_sweeten(
    state: &mut CandidateState,
    samples: &Vec<BinaryMatrix>,
    w: Asymmetry,
    deadline: &crate::timers::Deadline,
) -> (r: (u128, bool))
    requires
        old(state).wf(samples@, w),
    ensures
        final(state).wf(samples@, w),
        final(state).estimate_spec().rows() == old(state).estimate_spec().rows(),
        final(state).estimate_spec().cols() == old(state).estimate_spec().cols(),
        is_total_loss(final(state).estimate_spec(), samples@, w, r.0 as int),
        forall|t0: int| is_total_loss(old(state).estimate_spec(), samples@, w, t0) ==> r.0 <= t0,
        forall|t0: int| is_total_loss(old(state).estimate_spec(), samples@, w, t0) && r.0 == t0
            ==> final(state).estimate_spec() == old(state).estimate_spec(),
        r.1 ==> forall|i: int, j: int|
            0 <= i < final(state).estimate_spec().rows() && 0 <= j < final(state).estimate_spec().cols()
                ==> #[trigger] no_better_flip(final(state).estimate_spec(), samples@, w, i, j, r.0 as int),
{
    let mut outer_loss = state.expected_loss(samples, w);
    let ghost initial = outer_loss;
    let ghost e0 = state.estimate_spec();
    let mut converged = false;
    let mut searching = true;
    while searching
        invariant
            state.wf(samples@, w),
            is_total_loss(state.estimate_spec(), samples@, w, outer_loss as int),
            is_total_loss(e0, samples@, w, initial as int),
            outer_loss <= initial,
            outer_loss == initial ==> state.estimate_spec() == e0,
            state.estimate_spec().rows() == e0.rows(),
            state.estimate_spec().cols() == e0.cols(),
            searching ==> !converged,
            converged ==> forall|i: int, j: int| 0 <= i < e0.rows() && 0 <= j < e0.cols()
                ==> #[trigger] no_better_flip(state.estimate_spec(), samples@, w, i, j, outer_loss as int),
        decreases outer_loss as int + if searching { 1int } else { 0int },
    {
        if deadline.passed() {
            break;
        }
        match best_flip_round(state, outer_loss, samples, w) {
            Some(t) => {
                outer_loss = t;
            },
            None => {
                converged = true;
                searching = false;
            },
        }
    }
    proof {
        assert forall|t0: int| is_total_loss(e0, samples@, w, t0) implies outer_loss <= t0 by {
            lemma_total_loss_unique(e0, samples@, w, t0, initial as int);
        }
        assert forall|t0: int| is_total_loss(e0, samples@, w, t0) && outer_loss == t0 implies state.estimate_spec() == e0 by {
            lemma_total_loss_unique(e0, samples@, w, t0, initial as int);
        }
    }
    (outer_loss, converged)
}

} // verus!
