//! Initial estimates: draws aligned to a baseline, averaged and
//! thresholded.
use vstd::prelude::*;
use crate::assignment::{assignment_cost, is_min_assignment};
use crate::candidate::valid_samples;
use crate::cost::{Asymmetry, exact_range, pair_costs, pair_width};
use crate::loss::pairwise_loss_with_assignment;
use crate::matrix::{
    BinaryMatrix, cell_index, column_empty, drop_empty_columns, keeps_nonempty_columns,
    lemma_cell_index_bounds, lemma_cell_index_injective,
};
use crate::perm::is_permutation;

verus! {

/// `p` is a least-cost matching of the columns of `m1` with those of `m2`.
pub open spec fn is_optimal_matching(p: Seq<usize>, m1: BinaryMatrix, m2: BinaryMatrix, w: Asymmetry) -> bool {
    &&& is_permutation(p, pair_width(m1, m2))
    &&& is_min_assignment(
        pair_costs(m1, m2, w),
        pair_width(m1, m2),
        assignment_cost(pair_costs(m1, m2, w), p, pair_width(m1, m2) as int),
    )
}

/// Bit `(r, j)` of `sample` once its columns follow matching `p`: column `j`
/// of the aligned draw is column `p[j]` of `sample`, zero past the matching.
pub open spec fn aligned_bit(sample: BinaryMatrix, p: Seq<usize>, r: int, j: int) -> bool {
    j < p.len() && sample.bit(r, p[j] as int)
}

/// How many of the first `upto` draws, aligned by `ps`, have bit `(r, j)` set.
pub open spec fn aligned_count(samples: Seq<BinaryMatrix>, ps: Seq<Seq<usize>>, r: int, j: int, upto: int) -> nat
    decreases upto,
{
    if upto <= 0 {
        0
    } else {
        aligned_count(samples, ps, r, j, upto - 1) + if aligned_bit(samples[upto - 1], ps[upto - 1], r, j) {
            1nat
        } else {
            0nat
        }
    }
}

/// The mean `count / n` reaches half of `a`, that is
/// `count * (over + under) >= over * n`.
pub open spec fn reaches_threshold(count: nat, n: nat, w: Asymmetry) -> bool {
    count * (w.over_weight() + w.under_weight()) >= w.over_weight() * n
}

pub proof fn lemma_aligned_count_bound(samples: Seq<BinaryMatrix>, ps: Seq<Seq<usize>>, r: int, j: int, upto: int)
    requires
        upto >= 0,
    ensures
        aligned_count(samples, ps, r, j, upto) <= upto,
    decreases upto,
{
    if upto > 0 {
        lemma_aligned_count_bound(samples, ps, r, j, upto - 1);
    }
}

/// The thresholded mean of the draws aligned to one baseline: `t` has
/// `width` columns and bit `(r, j)` set when the share of aligned draws with
/// that bit reaches half of `a`.
pub open spec fn is_thresholded_mean(t: BinaryMatrix, samples: Seq<BinaryMatrix>, ps: Seq<Seq<usize>>, width: nat, w: Asymmetry) -> bool {
    &&& t.cols() == width
    &&& forall|r: int, j: int| 0 <= r < t.rows() && 0 <= j < width ==> #[trigger] t.bit(r, j) == reaches_threshold(
        aligned_count(samples, ps, r, j, samples.len() as int),
        samples.len(),
        w,
    )
}

/// `e` is the initial estimate that baseline `b` yields: the thresholded mean
/// of all draws aligned to `b` by least-cost matchings, without its empty
/// columns, or a single zero column when every column is empty.
pub open spec fn is_initial_estimate(e: BinaryMatrix, b: BinaryMatrix, samples: Seq<BinaryMatrix>, width: nat, w: Asymmetry) -> bool {
    exists|ps: Seq<Seq<usize>>, t: BinaryMatrix| {
        &&& ps.len() == samples.len()
        &&& (forall|s: int| 0 <= s < samples.len() ==> #[trigger] is_optimal_matching(ps[s], b, samples[s], w))
        &&& t.rows() == b.rows()
        &&& #[trigger] is_thresholded_mean(t, samples, ps, width, w)
        &&& ((exists|kept: Seq<usize>| kept.len() > 0 && #[trigger] keeps_nonempty_columns(e, t, kept))
            || ((forall|c: int| 0 <= c < width ==> #[trigger] column_empty(t, c)) && e.cols() == 1 && column_empty(e, 0)))
    }
}

/// The initial estimate from baseline `baseline` over `width` columns (at
/// least the widest draw): every draw is aligned to the baseline by a
/// least-cost matching, the aligned draws are averaged, the mean is cut at
/// half of `a`, and empty columns are dropped, keeping one zero column if
/// none is left. `None` when some alignment leaves exact range, or the
/// counts do not fit in memory.
pub fn initial_estimate(baseline: &BinaryMatrix, samples: &Vec<BinaryMatrix>, w: Asymmetry, width: usize) -> (r: Option<BinaryMatrix>)
    requires
        w.wf(),
        baseline.wf(),
        valid_samples(samples@, baseline.rows()),
        samples@.len() >= 1,
        forall|s: int| 0 <= s < samples@.len() ==> pair_width(*baseline, #[trigger] samples@[s]) <= width,
    ensures
        r matches Some(e) ==> {
            &&& e.wf()
            &&& e.rows() == baseline.rows()
            &&& 1 <= e.cols()
            &&& e.cols() <= width || e.cols() == 1
            &&& is_initial_estimate(e, *baseline, samples@, width as nat, w)
        },
        baseline.rows() * width <= usize::MAX && (forall|s: int| 0 <= s < samples@.len() ==> exact_range(
            baseline.rows(),
            #[trigger] pair_width(*baseline, samples@[s]),
            w,
        )) <==> r is Some,
{
    let n = baseline.n_rows();
    let len = match n.checked_mul(width) {
        Some(len) => len,
        None => {
            return None;
        },
    };
    let n_samples = samples.len();
    let mut counts: Vec<u64> = vec![0; len];
    let ghost mut ps: Seq<Seq<usize>> = Seq::empty();
    proof {
        assert forall|r: int, j: int| 0 <= r < n && 0 <= j < width implies #[trigger] counts@[cell_index(n as int, r, j)]
            == aligned_count(samples@, ps, r, j, 0) by {
            lemma_cell_index_bounds(n as int, width as int, r, j);
        }
    }
    let mut s: usize = 0;
    while s < n_samples
        invariant
            w.wf(),
            baseline.wf(),
            n == baseline.rows(),
            len == n * width,
            n_samples == samples@.len(),
            valid_samples(samples@, baseline.rows()),
            forall|s2: int| 0 <= s2 < samples@.len() ==> pair_width(*baseline, #[trigger] samples@[s2]) <= width,
            counts@.len() == len,
            s <= n_samples,
            ps.len() == s,
            forall|s2: int| 0 <= s2 < s ==> #[trigger] is_optimal_matching(ps[s2], *baseline, samples@[s2], w),
            forall|s2: int| 0 <= s2 < s ==> (#[trigger] ps[s2]).len() == pair_width(*baseline, samples@[s2]),
            forall|s2: int| 0 <= s2 < s ==> exact_range(baseline.rows(), #[trigger] pair_width(*baseline, samples@[s2]), w),
            forall|r: int, j: int| 0 <= r < n && 0 <= j < width ==> #[trigger] counts@[cell_index(n as int, r, j)]
                == aligned_count(samples@, ps, r, j, s as int),
        decreases n_samples - s,
    {
        let sample = &samples[s];
        proof {
            assert(sample.wf() && sample.rows() == n);
        }
        let solved = pairwise_loss_with_assignment(baseline, sample, w);
        let p = match solved {
            None => {
                proof {
                    assert(!exact_range(baseline.rows(), pair_width(*baseline, samples@[s as int]), w));
                }
                return None;
            },
            Some((_, p)) => p,
        };
        let ghost ps0 = ps;
        proof {
            ps = ps.push(p@);
            assert forall|r: int, j: int| 0 <= r < n && 0 <= j < width implies #[trigger] aligned_count(samples@, ps0, r, j, s as int)
                == aligned_count(samples@, ps, r, j, s as int) by {
                lemma_aligned_count_prefix(samples@, ps0, ps, r, j, s as int);
            }
        }
        let k = p.len();
        let mut j: usize = 0;
        while j < width
            invariant
                baseline.wf(),
                sample.wf(),
                *sample == samples@[s as int],
                n == baseline.rows(),
                n == sample.rows(),
                len == n * width,
                counts@.len() == len,
                s < n_samples,
                ps.len() == s + 1,
                ps[s as int] == p@,
                k == p@.len(),
                j <= width,
                forall|r: int, j2: int| 0 <= r < n && 0 <= j2 < j ==> #[trigger] counts@[cell_index(n as int, r, j2)]
                    == aligned_count(samples@, ps, r, j2, s + 1),
                forall|r: int, j2: int| 0 <= r < n && j <= j2 < width ==> #[trigger] counts@[cell_index(n as int, r, j2)]
                    == aligned_count(samples@, ps, r, j2, s as int),
            decreases width - j,
        {
            let mut r: usize = 0;
            while r < n
                invariant
                    baseline.wf(),
                    sample.wf(),
                    *sample == samples@[s as int],
                    n == baseline.rows(),
                    n == sample.rows(),
                    len == n * width,
                    counts@.len() == len,
                    s < n_samples,
                    ps.len() == s + 1,
                    ps[s as int] == p@,
                    k == p@.len(),
                    j < width,
                    r <= n,
                    forall|r2: int, j2: int| 0 <= r2 < n && 0 <= j2 < j ==> #[trigger] counts@[cell_index(n as int, r2, j2)]
                        == aligned_count(samples@, ps, r2, j2, s + 1),
                    forall|r2: int| 0 <= r2 < r ==> #[trigger] counts@[cell_index(n as int, r2, j as int)]
                        == aligned_count(samples@, ps, r2, j as int, s + 1),
                    forall|r2: int| r <= r2 < n ==> #[trigger] counts@[cell_index(n as int, r2, j as int)]
                        == aligned_count(samples@, ps, r2, j as int, s as int),
                    forall|r2: int, j2: int| 0 <= r2 < n && j < j2 < width ==> #[trigger] counts@[cell_index(n as int, r2, j2)]
                        == aligned_count(samples@, ps, r2, j2, s as int),
                decreases n - r,
            {
                proof {
                    lemma_cell_index_bounds(n as int, width as int, r as int, j as int);
                    lemma_aligned_count_bound(samples@, ps, r as int, j as int, s as int);
                }
                let bit = if j < k {
                    sample.get(r, p[j])
                } else {
                    false
                };
                let idx = j * n + r;
                let ghost before = counts@;
                if bit {
                    let c = counts[idx];
                    counts.set(idx, c + 1);
                }
                proof {
                    assert(bit == aligned_bit(samples@[s as int], ps[s as int], r as int, j as int));
                    assert forall|r2: int, j2: int| 0 <= r2 < n && 0 <= j2 < width && (r2 != r || j2 != j) implies
                        #[trigger] counts@[cell_index(n as int, r2, j2)] == before[cell_index(n as int, r2, j2)] by {
                        lemma_cell_index_bounds(n as int, width as int, r2, j2);
                        if cell_index(n as int, r2, j2) == idx {
                            lemma_cell_index_injective(n as int, r2, j2, r as int, j as int);
                        }
                    }
                }
                r = r + 1;
            }
            j = j + 1;
        }
        s = s + 1;
    }
    let total: u128 = (w.over() as u128) + (w.under() as u128);
    let over = w.over() as u128;
    proof {
        assert(over * (n_samples as u128) <= 0x4_0000_0000 * 0xffff_ffff_ffff_ffff) by (nonlinear_arith)
            requires over <= 0x4_0000_0000, n_samples <= 0xffff_ffff_ffff_ffff;
    }
    let need: u128 = (w.over() as u128) * (n_samples as u128);
    let mut bits: Vec<bool> = Vec::new();
    let mut idx: usize = 0;
    while idx < len
        invariant
            counts@.len() == len,
            idx <= len,
            bits@.len() == idx,
            total == w.over_weight() + w.under_weight(),
            need == w.over_weight() * n_samples,
            w.wf(),
            forall|i: int| 0 <= i < idx ==> #[trigger] bits@[i] == (counts@[i] * total >= need),
        decreases len - idx,
    {
        let c = counts[idx] as u128;
        proof {
            assert(c * total <= 0xffff_ffff_ffff_ffff * 0x4_0000_0000) by (nonlinear_arith)
                requires c <= 0xffff_ffff_ffff_ffff, total <= 0x4_0000_0000;
        }
        bits.push(c * total >= need);
        idx = idx + 1;
    }
    let t = BinaryMatrix::with_shape(n, width, bits);
    proof {
        assert forall|r: int, j: int| 0 <= r < t.rows() && 0 <= j < width implies #[trigger] t.bit(r, j) == reaches_threshold(
            aligned_count(samples@, ps, r, j, samples@.len() as int),
            samples@.len(),
            w,
        ) by {
            lemma_cell_index_bounds(n as int, width as int, r, j);
        }
        assert(is_thresholded_mean(t, samples@, ps, width as nat, w));
    }
    let out = drop_empty_columns(&t);
    proof {
        let kept = choose|kept: Seq<usize>| keeps_nonempty_columns(out, t, kept);
        lemma_increasing_len(kept, width as nat);
    }
    if out.n_cols() == 0 {
        let zero = BinaryMatrix::zeros(n, 1);
        match zero {
            None => None,
            Some(e) => {
                proof {
                    let kept = choose|kept: Seq<usize>| keeps_nonempty_columns(out, t, kept);
                    assert forall|c: int| 0 <= c < width implies #[trigger] column_empty(t, c) by {
                        assert(!kept.contains(c as usize));
                    }
                    assert(column_empty(e, 0));
                    assert(is_initial_estimate(e, *baseline, samples@, width as nat, w));
                }
                Some(e)
            },
        }
    } else {
        proof {
            let kept = choose|kept: Seq<usize>| keeps_nonempty_columns(out, t, kept);
            assert(kept.len() > 0);
            assert(is_initial_estimate(out, *baseline, samples@, width as nat, w));
        }
        Some(out)
    }
}

/// A strictly increasing sequence of values below `k` has at most `k` terms.
pub proof fn lemma_increasing_len(kept: Seq<usize>, k: nat)
    requires
        forall|a: int, b: int| 0 <= a < b < kept.len() ==> kept[a] < kept[b],
        forall|a: int| 0 <= a < kept.len() ==> #[trigger] kept[a] < k,
    ensures
        kept.len() <= k,
    decreases kept.len(),
{
    if kept.len() > 0 {
        let last = kept.last();
        let rest = kept.drop_last();
        assert forall|a: int| 0 <= a < rest.len() implies #[trigger] rest[a] < last by {
            assert(kept[a] < kept[kept.len() - 1]);
        }
        lemma_increasing_len(rest, last as nat);
    }
}

proof fn lemma_aligned_count_prefix(samples: Seq<BinaryMatrix>, ps0: Seq<Seq<usize>>, ps: Seq<Seq<usize>>, r: int, j: int, upto: int)
    requires
        upto <= ps0.len(),
        upto <= ps.len(),
        forall|s: int| 0 <= s < upto ==> #[trigger] ps0[s] == ps[s],
    ensures
        aligned_count(samples, ps0, r, j, upto) == aligned_count(samples, ps, r, j, upto),
    decreases upto,
{
    if upto > 0 {
        lemma_aligned_count_prefix(samples, ps0, ps, r, j, upto - 1);
    }
}

} // verus!
