//! The whole estimation: initial estimates from random baselines, ranking,
//! refinement and the reported result; also the greedy and best-draw
//! estimators.
use vstd::prelude::*;
use rand_pcg::Mcg128Xsl64;
use crate::candidate::{CandidateState, all_exact, lemma_total_loss_same_bits, expected_loss_from_samples, is_total_loss, lemma_total_loss_unique, valid_samples, width_with};
use crate::cost::{Asymmetry, exact_range, lemma_exact_range_narrower, pair_width};
use crate::init::{initial_estimate, is_initial_estimate, lemma_increasing_len};
use crate::matrix::{BinaryMatrix, drop_empty_columns, keeps_nonempty_columns};
use crate::perm::is_hit;
use crate::random::{distinct_indices, next_seed, stream_from_seed};
use crate::search::{Sweet, neighborhood_sweeten, no_better_flip};
use crate::timers::Deadline;

verus! {

/// The positions of the `n_keep` smallest losses, smallest first: no loss
/// left out is below a kept one.
pub fn rank_by_loss(losses: &Vec<u128>, n_keep: usize) -> (r: Vec<usize>)
    requires
        n_keep <= losses@.len(),
    ensures
        r@.len() == n_keep,
        forall|a: int| 0 <= a < n_keep ==> #[trigger] r@[a] < losses@.len(),
        forall|a: int, b: int| 0 <= a < n_keep && 0 <= b < n_keep && a != b ==> r@[a] != r@[b],
        forall|a: int, b: int| 0 <= a < b < n_keep ==> losses@[r@[a] as int] <= losses@[r@[b] as int],
        forall|i: int, a: int| 0 <= i < losses@.len() && !r@.contains(i as usize) && 0 <= a < n_keep
            ==> #[trigger] losses@[r@[a] as int] <= #[trigger] losses@[i],
{
    let len = losses.len();
    let mut order: Vec<usize> = Vec::new();
    let mut i: usize = 0;
    while i < len
        invariant
            len == losses@.len(),
            i <= len,
            order@.len() == i,
            forall|a: int| 0 <= a < i ==> #[trigger] order@[a] == a,
        decreases len - i,
    {
        order.push(i);
        i = i + 1;
    }
    proof {
        assert forall|j: int| 0 <= j < len implies #[trigger] is_hit(order@, len as nat, j) by {
            assert(order@[j] == j);
        }
    }
    let mut t: usize = 0;
    while t < n_keep
        invariant
            len == losses@.len(),
            n_keep <= len,
            order@.len() == len,
            t <= n_keep,
            forall|a: int| 0 <= a < len ==> #[trigger] order@[a] < len,
            forall|a: int, b: int| 0 <= a < len && 0 <= b < len && a != b ==> order@[a] != order@[b],
            forall|j: int| 0 <= j < len ==> #[trigger] is_hit(order@, len as nat, j),
            forall|a: int, b: int| 0 <= a < b < t ==> losses@[order@[a] as int] <= losses@[order@[b] as int],
            forall|a: int, b: int| 0 <= a < t && t <= b < len ==> losses@[order@[a] as int] <= losses@[order@[b] as int],
        decreases n_keep - t,
    {
        let mut m: usize = t;
        let mut q: usize = t + 1;
        while q < len
            invariant
                len == losses@.len(),
                order@.len() == len,
                forall|a: int| 0 <= a < len ==> #[trigger] order@[a] < len,
                t < len,
                t <= m < len,
                t < q <= len,
                m < q,
                forall|b: int| t <= b < q ==> losses@[order@[m as int] as int] <= losses@[order@[b] as int],
            decreases len - q,
        {
            if losses[order[q]] < losses[order[m]] {
                m = q;
            }
            q = q + 1;
        }
        let x = order[t];
        let y = order[m];
        let ghost before = order@;
        order.set(t, y);
        order.set(m, x);
        proof {
            assert forall|j: int| 0 <= j < len implies #[trigger] is_hit(order@, len as nat, j) by {
                assert(is_hit(before, len as nat, j));
                let p = choose|p: int| 0 <= p < len && #[trigger] before[p] == j;
                if p == t {
                    assert(order@[m as int] == j);
                } else if p == m {
                    assert(order@[t as int] == j);
                } else {
                    assert(order@[p] == j);
                }
            }
            assert forall|a: int, b: int| 0 <= a < len && 0 <= b < len && a != b implies order@[a] != order@[b] by {
                let pa = if a == t { m as int } else if a == m { t as int } else { a };
                let pb = if b == t { m as int } else if b == m { t as int } else { b };
                assert(order@[a] == before[pa]);
                assert(order@[b] == before[pb]);
            }
            assert forall|a: int, b: int| 0 <= a < t + 1 && t + 1 <= b < len implies losses@[order@[a] as int] <= losses@[order@[b] as int] by {
                let pb = if b == m { t as int } else { b };
                assert(order@[b] == before[pb]);
                if a < t {
                    assert(order@[a] == before[a]);
                }
            }
        }
        t = t + 1;
    }
    let mut r: Vec<usize> = Vec::new();
    let mut a: usize = 0;
    while a < n_keep
        invariant
            len == losses@.len(),
            n_keep <= len,
            order@.len() == len,
            a <= n_keep,
            r@ == order@.subrange(0, a as int),
        decreases n_keep - a,
    {
        r.push(order[a]);
        a = a + 1;
    }
    proof {
        assert forall|i: int, a: int| 0 <= i < len && !r@.contains(i as usize) && 0 <= a < n_keep
            implies #[trigger] losses@[r@[a] as int] <= #[trigger] losses@[i] by {
            assert(is_hit(order@, len as nat, i));
            let p = choose|p: int| 0 <= p < len && #[trigger] order@[p] == i;
            if p < n_keep {
                assert(r@[p] == i as usize);
            }
        }
    }
    r
}

/// Largest column count among the draws.
pub fn max_width(samples: &Vec<BinaryMatrix>) -> (r: usize)
    ensures
        r == max_cols(samples@),
        forall|s: int| 0 <= s < samples@.len() ==> #[trigger] samples@[s].cols() <= r,
{
    let mut best: usize = 0;
    let mut s: usize = 0;
    while s < samples.len()
        invariant
            s <= samples@.len(),
            forall|s2: int| 0 <= s2 < s ==> #[trigger] samples@[s2].cols() <= best,
            best == max_cols(samples@.subrange(0, s as int)),
        decreases samples@.len() - s,
    {
        let c = samples[s].n_cols();
        proof {
            assert(samples@.subrange(0, s as int + 1).drop_last() =~= samples@.subrange(0, s as int));
        }
        if c > best {
            best = c;
        }
        s = s + 1;
    }
    proof {
        assert(samples@.subrange(0, samples@.len() as int) =~= samples@);
    }
    best
}

/// `x` clamped into `[lo, hi]`.
pub fn clamp(x: usize, lo: usize, hi: usize) -> (r: usize)
    requires
        lo <= hi,
    ensures
        lo <= r <= hi,
        r == clamp_spec(x as int, lo as int, hi as int),
        lo <= x <= hi ==> r == x,
        x < lo ==> r == lo,
        x > hi ==> r == hi,
{
    if x < lo {
        lo
    } else if x > hi {
        hi
    } else {
        x
    }
}

/// The draws are valid, non-empty and share one row count.
pub open spec fn valid_draws(samples: Seq<BinaryMatrix>) -> bool {
    &&& samples.len() >= 1
    &&& valid_samples(samples, samples[0].rows())
}

/// Builds the estimates to refine. `n_baselines` (clamped to
/// `[1, n_samples]`) distinct draws, chosen at random from the stream seeded
/// with `seed`, each yield an initial estimate (see `initial_estimate`); each
/// gets a child stream seeded from the master stream before any work. The
/// estimates are ranked by total loss and the best `n_sweet` (clamped to
/// `[1, n_baselines]`) are kept, best first. Always succeeds when every cost
/// matrix stays in exact range (`in_exact_range`).
#[verifier::spinoff_prover]
pub fn build_sweets(samples: &Vec<BinaryMatrix>, w: Asymmetry, n_baselines: usize, n_sweet: usize, seed: [u8; 16]) -> (r: Option<Vec<Sweet>>)
    requires
        w.wf(),
        valid_draws(samples@),
    ensures
        r matches Some(v) ==> sweets_built(v@, samples@, w, n_baselines, n_sweet),
        r is None <==> !in_exact_range(samples@, w),
{
    let n_samples = samples.len();
    let n_baselines_used = clamp(n_baselines, 1, n_samples);
    let n_kept = clamp(n_sweet, 1, n_baselines_used);
    let width = max_width(samples);
    let mut master = stream_from_seed(seed);
    let baselines = distinct_indices(&mut master, n_samples, n_baselines_used);
    let mut seeds: Vec<[u8; 16]> = Vec::new();
    let mut b: usize = 0;
    while b < n_baselines_used
        invariant
            b <= n_baselines_used,
            seeds@.len() == b,
        decreases n_baselines_used - b,
    {
        seeds.push(next_seed(&mut master));
        b = b + 1;
    }
    let ghost n_rows = samples@[0].rows();
    let ghost mut built: Seq<BinaryMatrix> = Seq::empty();
    let mut slots: Vec<Option<CandidateState>> = Vec::new();
    let mut losses: Vec<u128> = Vec::new();
    let mut b: usize = 0;
    while b < n_baselines_used
        invariant
            w.wf(),
            valid_draws(samples@),
            n_rows == samples@[0].rows(),
            n_samples == samples@.len(),
            width == max_cols(samples@),
            forall|s: int| 0 <= s < samples@.len() ==> #[trigger] samples@[s].cols() <= width,
            baselines@.len() == n_baselines_used,
            forall|i: int| 0 <= i < baselines@.len() ==> #[trigger] baselines@[i] < n_samples,
            b <= n_baselines_used,
            slots@.len() == b,
            losses@.len() == b,
            built.len() == b,
            forall|i: int| 0 <= i < b ==> slot_ready(#[trigger] slots@[i], samples@, w, losses@[i], built[i]),
            forall|i: int| 0 <= i < b ==> is_initial_estimate(#[trigger] built[i], samples@[baselines@[i] as int], samples@, width as nat, w),
            b > 0 ==> in_exact_range(samples@, w),
        decreases n_baselines_used - b,
    {
        let x = baselines[b];
        let baseline = &samples[x];
        proof {
            assert(x < n_samples);
            assert(valid_samples(samples@, n_rows));
            assert(samples@[x as int].wf());
            assert(baseline.wf() && baseline.rows() == n_rows);
            assert forall|s: int| 0 <= s < samples@.len() implies pair_width(*baseline, #[trigger] samples@[s]) <= width by {
                assert(samples@[x as int].cols() <= width);
            }
        }
        proof {
            if in_exact_range(samples@, w) {
                lemma_in_range_consequences(samples@, w, 0);
                assert forall|s: int| 0 <= s < samples@.len() implies exact_range(
                    baseline.rows(),
                    #[trigger] pair_width(*baseline, samples@[s]),
                    w,
                ) by {
                    assert(exact_range(n_rows, pair_width(samples@[x as int], samples@[s]), w));
                }
                assert(n_rows * width <= n_rows * search_width(samples@)) by (nonlinear_arith)
                    requires width <= search_width(samples@);
            }
        }
        let estimate = match initial_estimate(baseline, samples, w, width) {
            None => {
                return None;
            },
            Some(e) => e,
        };
        proof {
            if in_exact_range(samples@, w) {
                lemma_in_range_consequences(samples@, w, estimate.cols());
            }
        }
        let ghost e = estimate;
        let state = match CandidateState::new(estimate, samples, w) {
            None => {
                return None;
            },
            Some(st) => st,
        };
        proof {
            lemma_success_in_range(samples@, w, *baseline, e);
        }
        let loss = state.expected_loss(samples, w);
        slots.push(Some(state));
        losses.push(loss);
        proof {
            built = built.push(e);
            assert(slot_ready(slots@[b as int], samples@, w, losses@[b as int], built[b as int]));
        }
        b = b + 1;
    }
    let ranked = rank_by_loss(&losses, n_kept);
    proof {
        assert forall|i: int| 0 <= i < n_baselines_used implies is_initial_estimate(#[trigger] built[i], samples@[baselines@[i] as int], samples@, width as nat, w)
            && is_total_loss(built[i], samples@, w, losses@[i] as int) by {
            assert(slot_ready(slots@[i], samples@, w, losses@[i], built[i]));
        }
    }
    let mut sweets: Vec<Sweet> = Vec::new();
    let mut a: usize = 0;
    while a < n_kept
        invariant
            w.wf(),
            n_kept <= n_baselines_used,
            width == max_cols(samples@),
            seeds@.len() == n_baselines_used,
            ranked@.len() == n_kept,
            slots@.len() == n_baselines_used,
            losses@.len() == n_baselines_used,
            built.len() == n_baselines_used,
            n_samples == samples@.len(),
            n_baselines_used == clamp_spec(n_baselines as int, 1, n_samples as int),
            baselines@.len() == n_baselines_used,
            forall|i: int| 0 <= i < baselines@.len() ==> #[trigger] baselines@[i] < n_samples,
            forall|i: int, j: int| 0 <= i < baselines@.len() && 0 <= j < baselines@.len() && i != j ==> baselines@[i] != baselines@[j],
            forall|i: int| 0 <= i < n_baselines_used ==> is_initial_estimate(#[trigger] built[i], samples@[baselines@[i] as int], samples@, width as nat, w)
                && is_total_loss(built[i], samples@, w, losses@[i] as int),
            forall|i: int, a: int| 0 <= i < losses@.len() && !ranked@.contains(i as usize) && 0 <= a < n_kept
                ==> #[trigger] losses@[ranked@[a] as int] <= #[trigger] losses@[i],
            forall|i: int| 0 <= i < n_kept ==> #[trigger] ranked@[i] < n_baselines_used,
            forall|i: int, j: int| 0 <= i < n_kept && 0 <= j < n_kept && i != j ==> ranked@[i] != ranked@[j],
            forall|i: int, j: int| 0 <= i < j < n_kept ==> losses@[ranked@[i] as int] <= losses@[ranked@[j] as int],
            in_exact_range(samples@, w),
            a <= n_kept,
            sweets@.len() == a,
            forall|i: int| a <= i < n_kept ==> slot_ready(#[trigger] slots@[ranked@[i] as int], samples@, w, losses@[ranked@[i] as int], built[ranked@[i] as int]),
            forall|i: int| 0 <= i < a ==> (#[trigger] sweets@[i]).wf(samples@, w)
                && sweets@[i].id == i && sweets@[i].n_accepts == 0 && sweets@[i].when == 1
                && sweets@[i].loss == losses@[ranked@[i] as int]
                && sweets@[i].state.estimate_spec() == built[ranked@[i] as int],
        decreases n_kept - a,
    {
        let slot = ranked[a];
        let ghost before = slots@;
        let taken = slots[slot].take();
        proof {
            assert forall|i: int| a + 1 <= i < n_kept implies (#[trigger] slots@[ranked@[i] as int]) == before[ranked@[i] as int] by {
                assert(ranked@[i] != ranked@[a as int]);
            }
        }
        match taken {
            None => {
                return None;
            },
            Some(state) => {
                let rng = stream_from_seed(seeds[slot]);
                sweets.push(Sweet { state, loss: losses[slot], id: a, n_accepts: 0, when: 1, rng });
            },
        }
        a = a + 1;
    }
    proof {
        let v = sweets@;
        assert forall|i: int, a: int| 0 <= i < n_baselines_used && !ranked@.contains(i as usize) && 0 <= a < v.len()
            implies #[trigger] v[a].loss <= #[trigger] losses@[i] by {
            assert(losses@[ranked@[a] as int] <= losses@[i]);
        }
        assert forall|a: int| 0 <= a < v.len() implies #[trigger] ranked@[a] < n_baselines_used
            && v[a].state.estimate_spec() == built[ranked@[a] as int] && v[a].loss == losses@[ranked@[a] as int] by {
            assert(v[a].loss == losses@[ranked@[a] as int]);
        }
        assert(build_record(v, samples@, w, n_baselines, baselines@, built, losses@, ranked@));
        assert(forall|a: int, b: int| 0 <= a < b < v.len() ==> v[a].loss <= v[b].loss);
        assert(forall|a: int| 0 <= a < v.len() ==> (#[trigger] v[a]).wf(samples@, w)
            && v[a].id == a && v[a].n_accepts == 0 && v[a].when == 1);
        assert(sweets_built(v, samples@, w, n_baselines, n_sweet));
    }
    Some(sweets)
}

/// `v` holds `clamp(n_sweet, 1, clamp(n_baselines, 1, n))` consistent sweets
/// with fresh counters, in ascending order of loss, built as `build_record`
/// describes.
pub open spec fn sweets_built(v: Seq<Sweet>, samples: Seq<BinaryMatrix>, w: Asymmetry, n_baselines: usize, n_sweet: usize) -> bool {
    &&& v.len() == clamp_spec(n_sweet as int, 1, clamp_spec(n_baselines as int, 1, samples.len() as int))
    &&& forall|a: int| 0 <= a < v.len() ==> (#[trigger] v[a]).wf(samples, w)
        && v[a].id == a && v[a].n_accepts == 0 && v[a].when == 1
    &&& forall|a: int, b: int| 0 <= a < b < v.len() ==> v[a].loss <= v[b].loss
    &&& exists|baselines: Seq<usize>, built: Seq<BinaryMatrix>, losses: Seq<u128>, ranked: Seq<usize>|
        #[trigger] build_record(v, samples, w, n_baselines, baselines, built, losses, ranked)
}

/// How the sweets `v` were built: `baselines` are the
/// `clamp(n_baselines, 1, n)` distinct draws used as baselines, `built[i]`
/// is the initial estimate of baseline `i` with total loss `losses[i]`, and
/// sweet `a` is built estimate `ranked[a]`. No estimate left out has a lower
/// loss than a kept one.
pub open spec fn build_record(
    v: Seq<Sweet>,
    samples: Seq<BinaryMatrix>,
    w: Asymmetry,
    n_baselines: usize,
    baselines: Seq<usize>,
    built: Seq<BinaryMatrix>,
    losses: Seq<u128>,
    ranked: Seq<usize>,
) -> bool {
    let nb = clamp_spec(n_baselines as int, 1, samples.len() as int);
    &&& baselines.len() == nb
    &&& forall|i: int| 0 <= i < nb ==> #[trigger] baselines[i] < samples.len()
    &&& forall|i: int, j: int| 0 <= i < nb && 0 <= j < nb && i != j ==> baselines[i] != baselines[j]
    &&& built.len() == nb
    &&& losses.len() == nb
    &&& forall|i: int| 0 <= i < nb ==> is_initial_estimate(#[trigger] built[i], samples[baselines[i] as int], samples, max_cols(samples), w)
        && is_total_loss(built[i], samples, w, losses[i] as int)
    &&& ranked.len() == v.len()
    &&& forall|i: int, j: int| 0 <= i < v.len() && 0 <= j < v.len() && i != j ==> ranked[i] != ranked[j]
    &&& forall|a: int| 0 <= a < v.len() ==> #[trigger] ranked[a] < nb
        && v[a].state.estimate_spec() == built[ranked[a] as int] && v[a].loss == losses[ranked[a] as int]
    &&& forall|i: int, a: int| 0 <= i < nb && !ranked.contains(i as usize) && 0 <= a < v.len()
        ==> #[trigger] v[a].loss <= #[trigger] losses[i]
}

/// A built estimate `e`: consistent, with total loss `loss`.
pub open spec fn slot_ready(slot: Option<CandidateState>, samples: Seq<BinaryMatrix>, w: Asymmetry, loss: u128, e: BinaryMatrix) -> bool {
    match slot {
        None => false,
        Some(st) => {
            &&& st.wf(samples, w)
            &&& st.estimate_spec() == e
            &&& is_total_loss(e, samples, w, loss as int)
        },
    }
}

pub open spec fn clamp_spec(x: int, lo: int, hi: int) -> int {
    if x < lo {
        lo
    } else if x > hi {
        hi
    } else {
        x
    }
}

/// Some draw is as wide as `max_cols`.
pub proof fn lemma_max_cols_attained(samples: Seq<BinaryMatrix>)
    requires
        samples.len() >= 1,
    ensures
        exists|s: int| 0 <= s < samples.len() && #[trigger] samples[s].cols() == max_cols(samples),
        forall|s: int| 0 <= s < samples.len() ==> #[trigger] samples[s].cols() <= max_cols(samples),
    decreases samples.len(),
{
    let rest = samples.drop_last();
    if samples.len() > 1 {
        lemma_max_cols_attained(rest);
        assert forall|s: int| 0 <= s < samples.len() implies #[trigger] samples[s].cols() <= max_cols(samples) by {
            if s < samples.len() - 1 {
                assert(rest[s] == samples[s]);
            }
        }
        if samples.last().cols() < max_cols(rest) {
            let s0 = choose|s: int| 0 <= s < rest.len() && #[trigger] rest[s].cols() == max_cols(rest);
            assert(samples[s0] == rest[s0]);
        } else {
            assert(samples[samples.len() - 1].cols() == max_cols(samples));
        }
    } else {
        assert(rest.len() == 0);
        assert(max_cols(rest) == 0);
        assert(samples.last() == samples[0]);
        assert(samples[0].cols() == max_cols(samples));
    }
}

/// Width of the widest cost matrix the search meets: the widest draw, and at
/// least one column.
pub open spec fn search_width(samples: Seq<BinaryMatrix>) -> nat {
    if max_cols(samples) >= 1 {
        max_cols(samples)
    } else {
        1
    }
}

/// Every cost matrix the search meets stays in exact range.
pub open spec fn in_exact_range(samples: Seq<BinaryMatrix>, w: Asymmetry) -> bool {
    exact_range(samples[0].rows(), search_width(samples), w)
}

/// In exact range, an estimate of `n_rows` rows and at most `search_width`
/// columns fits in memory and meets only cost matrices in exact range.
proof fn lemma_in_range_consequences(samples: Seq<BinaryMatrix>, w: Asymmetry, cols: nat)
    requires
        w.wf(),
        valid_draws(samples),
        in_exact_range(samples, w),
        cols <= search_width(samples),
    ensures
        samples[0].rows() * search_width(samples) <= usize::MAX,
        all_exact(samples[0].rows(), cols, samples, w),
        forall|b: int, s: int| 0 <= b < samples.len() && 0 <= s < samples.len() ==> exact_range(
            samples[0].rows(),
            #[trigger] pair_width(samples[b], samples[s]),
            w,
        ),
{
    let n = samples[0].rows();
    let k = search_width(samples);
    lemma_max_cols_attained(samples);
    if max_cols(samples) >= 1 {
        let s0 = choose|s: int| 0 <= s < samples.len() && #[trigger] samples[s].cols() == max_cols(samples);
        assert(samples[s0].wf());
        samples[s0].lemma_cells_fit();
    } else {
        assert(n * 1 == n);
        samples[0].lemma_dims();
    }
    assert forall|s: int| 0 <= s < samples.len() implies exact_range(n, #[trigger] width_with(cols, samples[s]), w) by {
        lemma_exact_range_narrower(n, width_with(cols, samples[s]), k, w);
    }
    assert forall|b: int, s: int| 0 <= b < samples.len() && 0 <= s < samples.len() implies exact_range(
        n,
        #[trigger] pair_width(samples[b], samples[s]),
        w,
    ) by {
        lemma_exact_range_narrower(n, pair_width(samples[b], samples[s]), k, w);
    }
}

/// A baseline whose initial estimate `e` was built, and whose candidate
/// state exists, shows that every cost matrix stays in exact range.
proof fn lemma_success_in_range(samples: Seq<BinaryMatrix>, w: Asymmetry, b: BinaryMatrix, e: BinaryMatrix)
    requires
        w.wf(),
        valid_draws(samples),
        b.cols() <= max_cols(samples),
        forall|s: int| 0 <= s < samples.len() ==> exact_range(b.rows(), #[trigger] pair_width(b, samples[s]), w),
        b.rows() == samples[0].rows(),
        e.cols() == 1 || e.cols() <= max_cols(samples),
        e.cols() >= 1,
        all_exact(samples[0].rows(), e.cols(), samples, w),
    ensures
        in_exact_range(samples, w),
{
    lemma_max_cols_attained(samples);
    if max_cols(samples) >= 1 {
        let s0 = choose|s: int| 0 <= s < samples.len() && #[trigger] samples[s].cols() == max_cols(samples);
        assert(exact_range(b.rows(), pair_width(b, samples[s0]), w));
    } else {
        assert(exact_range(samples[0].rows(), width_with(e.cols(), samples[0]), w));
    }
}

/// Largest column count among the draws.
pub open spec fn max_cols(samples: Seq<BinaryMatrix>) -> nat
    decreases samples.len(),
{
    if samples.len() == 0 {
        0
    } else {
        let rest = max_cols(samples.drop_last());
        if samples.last().cols() >= rest {
            samples.last().cols()
        } else {
            rest
        }
    }
}

/// The lowest loss among `sweets`.
pub open spec fn best_loss(sweets: Seq<Sweet>) -> int
    decreases sweets.len(),
{
    if sweets.len() == 0 {
        0
    } else if sweets.len() == 1 {
        sweets[0].loss as int
    } else {
        let rest = best_loss(sweets.drop_last());
        if (sweets.last().loss as int) < rest {
            sweets.last().loss as int
        } else {
            rest
        }
    }
}

/// `best_loss` is a loss of some sweet, and no sweet is below it.
pub proof fn lemma_best_loss(sweets: Seq<Sweet>)
    requires
        sweets.len() >= 1,
    ensures
        exists|a: int| 0 <= a < sweets.len() && sweets[a].loss == best_loss(sweets),
        forall|a: int| 0 <= a < sweets.len() ==> best_loss(sweets) <= #[trigger] sweets[a].loss,
    decreases sweets.len(),
{
    if sweets.len() > 1 {
        lemma_best_loss(sweets.drop_last());
        let rest = sweets.drop_last();
        assert forall|a: int| 0 <= a < sweets.len() implies best_loss(sweets) <= #[trigger] sweets[a].loss by {
            if a < sweets.len() - 1 {
                assert(rest[a] == sweets[a]);
            }
        }
        if (sweets.last().loss as int) >= best_loss(rest) {
            let a = choose|a: int| 0 <= a < rest.len() && rest[a].loss == best_loss(rest);
            assert(sweets[a] == rest[a]);
            assert(sweets[a].loss == best_loss(sweets));
        } else {
            assert(sweets[sweets.len() - 1].loss == best_loss(sweets));
        }
    } else {
        assert(sweets[0].loss == best_loss(sweets));
    }
}

/// When no sweet's loss rises, the lowest loss does not rise.
pub proof fn lemma_best_loss_non_increasing(before: Seq<Sweet>, after: Seq<Sweet>)
    requires
        before.len() >= 1,
        after.len() == before.len(),
        forall|a: int| 0 <= a < before.len() ==> #[trigger] after[a].loss <= before[a].loss,
    ensures
        best_loss(after) <= best_loss(before),
{
    lemma_best_loss(before);
    lemma_best_loss(after);
    let a = choose|a: int| 0 <= a < before.len() && before[a].loss == best_loss(before);
    assert(after[a].loss <= before[a].loss);
}

/// One stochastic iteration of every sweet (see `Sweet::step`,
/// `Sweet::stepped_from`). No loss rises, so neither does the lowest one.
pub fn stochastic_iteration(sweets: &mut Vec<Sweet>, iteration: usize, samples: &Vec<BinaryMatrix>, w: Asymmetry)
    requires
        forall|a: int| 0 <= a < old(sweets)@.len() ==> (#[trigger] old(sweets)@[a]).wf(samples@, w)
            && old(sweets)@[a].n_accepts < usize::MAX,
    ensures
        final(sweets)@.len() == old(sweets)@.len(),
        forall|a: int| 0 <= a < final(sweets)@.len() ==> (#[trigger] final(sweets)@[a]).wf(samples@, w)
            && final(sweets)@[a].stepped_from(&old(sweets)@[a], samples@, w, iteration),
        old(sweets)@.len() >= 1 ==> best_loss(final(sweets)@) <= best_loss(old(sweets)@),
{
    let n = sweets.len();
    let ghost start = sweets@;
    let mut a: usize = 0;
    while a < n
        invariant
            n == sweets@.len(),
            n == start.len(),
            a <= n,
            forall|b: int| 0 <= b < n ==> (#[trigger] start[b]).wf(samples@, w) && start[b].n_accepts < usize::MAX,
            forall|b: int| 0 <= b < a ==> (#[trigger] sweets@[b]).wf(samples@, w)
                && sweets@[b].stepped_from(&start[b], samples@, w, iteration),
            forall|b: int| a <= b < n ==> #[trigger] sweets@[b] == start[b],
        decreases n - a,
    {
        sweets[a].step(iteration, samples, w);
        a = a + 1;
    }
    proof {
        if n >= 1 {
            lemma_best_loss_non_increasing(start, sweets@);
        }
    }
}

/// Whether the stochastic search goes on to iteration `iteration + 1`: the
/// iteration budget is not used up, the deadline has not passed, and no stop
/// was requested.
pub fn keep_iterating(iteration: usize, n_iterations: usize, deadline_passed: bool, stop_requested: bool) -> (r: bool)
    ensures
        r == (iteration < n_iterations && !deadline_passed && !stop_requested),
{
    iteration < n_iterations && !deadline_passed && !stop_requested
}

/// Position of the first sweet with the lowest loss.
pub fn best_sweet(sweets: &Vec<Sweet>) -> (r: usize)
    requires
        sweets@.len() >= 1,
    ensures
        r < sweets@.len(),
        forall|a: int| 0 <= a < sweets@.len() ==> sweets@[r as int].loss <= #[trigger] sweets@[a].loss,
{
    let mut best: usize = 0;
    let mut a: usize = 1;
    while a < sweets.len()
        invariant
            1 <= a <= sweets@.len(),
            best < a,
            forall|b: int| 0 <= b < a ==> sweets@[best as int].loss <= #[trigger] sweets@[b].loss,
        decreases sweets@.len() - a,
    {
        if sweets[a].loss < sweets[best].loss {
            best = a;
        }
        a = a + 1;
    }
    best
}

/// The iteration budget used when none is given: the largest cell count
/// among the sweets' estimates.
pub fn default_iterations(sweets: &Vec<Sweet>, samples: &Vec<BinaryMatrix>, w: Asymmetry) -> (r: usize)
    requires
        forall|a: int| 0 <= a < sweets@.len() ==> (#[trigger] sweets@[a]).wf(samples@, w),
    ensures
        forall|a: int| 0 <= a < sweets@.len() ==> #[trigger] sweets@[a].state.estimate_spec().rows()
            * sweets@[a].state.estimate_spec().cols() <= r,
        sweets@.len() == 0 ==> r == 0,
        sweets@.len() > 0 ==> exists|a: int| 0 <= a < sweets@.len() && #[trigger] sweets@[a].state.estimate_spec().rows()
            * sweets@[a].state.estimate_spec().cols() == r,
{
    let mut best: usize = 0;
    let mut a: usize = 0;
    while a < sweets.len()
        invariant
            a <= sweets@.len(),
            forall|b: int| 0 <= b < sweets@.len() ==> (#[trigger] sweets@[b]).wf(samples@, w),
            forall|b: int| 0 <= b < a ==> #[trigger] sweets@[b].state.estimate_spec().rows()
                * sweets@[b].state.estimate_spec().cols() <= best,
            a == 0 ==> best == 0,
            a > 0 ==> exists|b: int| 0 <= b < a && #[trigger] sweets@[b].state.estimate_spec().rows()
                * sweets@[b].state.estimate_spec().cols() == best,
        decreases sweets@.len() - a,
    {
        let cells = sweets[a].state.estimate().n_cells();
        if a == 0 || cells > best {
            best = cells;
        }
        proof {
            assert(sweets@[a as int].state.estimate_spec().rows() * sweets@[a as int].state.estimate_spec().cols() == cells);
        }
        a = a + 1;
    }
    best
}

/// `e` without its empty columns, with the total loss of that reported
/// matrix, solved afresh. Always succeeds when the cost matrices of `e` stay
/// in exact range.
pub fn report_estimate(e: &BinaryMatrix, samples: &Vec<BinaryMatrix>, w: Asymmetry) -> (r: Option<(BinaryMatrix, u128)>)
    requires
        w.wf(),
        e.wf(),
        samples@.len() >= 1,
        valid_samples(samples@, e.rows()),
    ensures
        r matches Some((out, t)) ==> (exists|kept: Seq<usize>| keeps_nonempty_columns(out, *e, kept))
            && is_total_loss(out, samples@, w, t as int),
        all_exact(e.rows(), e.cols(), samples@, w) ==> r is Some,
{
    let out = drop_empty_columns(e);
    proof {
        let kept = choose|kept: Seq<usize>| keeps_nonempty_columns(out, *e, kept);
        lemma_increasing_len(kept, e.cols());
        if all_exact(e.rows(), e.cols(), samples@, w) {
            assert forall|s: int| 0 <= s < samples@.len() implies exact_range(out.rows(), #[trigger] width_with(out.cols(), samples@[s]), w) by {
                assert(exact_range(e.rows(), width_with(e.cols(), samples@[s]), w));
                lemma_exact_range_narrower(e.rows(), width_with(out.cols(), samples@[s]), width_with(e.cols(), samples@[s]), w);
            }
        }
    }
    match expected_loss_from_samples(&out, samples, w) {
        None => None,
        Some(t) => Some((out, t)),
    }
}

/// The estimate to report from a sweet: its estimate without empty columns,
/// with the total loss of the reported matrix.
pub fn final_estimate(sweet: &Sweet, samples: &Vec<BinaryMatrix>, w: Asymmetry) -> (r: (BinaryMatrix, u128))
    requires
        sweet.wf(samples@, w),
        samples@.len() >= 1,
    ensures
        exists|kept: Seq<usize>| keeps_nonempty_columns(r.0, sweet.state.estimate_spec(), kept),
        is_total_loss(r.0, samples@, w, r.1 as int),
{
    match report_estimate(sweet.state.estimate(), samples, w) {
        Some(result) => result,
        None => {
            proof {
                assert(false);
            }
            (drop_empty_columns(sweet.state.estimate()), 0)
        },
    }
}

impl Sweet {
    /// Refines this sweet by exhaustive best-improvement search (see
    /// `neighborhood_sweeten`) within `deadline`, keeping its shape. The loss
    /// never rises, and an unchanged loss means an unchanged estimate. Returns
    /// whether the search ended at a local optimum, where no single toggle
    /// lowers the loss.
    pub fn sweeten_neighborhood(&mut self, samples: &Vec<BinaryMatrix>, w: Asymmetry, deadline: &Deadline) -> (converged: bool)
        requires
            old(self).wf(samples@, w),
        ensures
            final(self).wf(samples@, w),
            final(self).loss <= old(self).loss,
            final(self).loss == old(self).loss ==> final(self).state.estimate_spec() == old(self).state.estimate_spec(),
            final(self).id == old(self).id,
            final(self).n_accepts == old(self).n_accepts,
            final(self).when == old(self).when,
            final(self).state.estimate_spec().rows() == old(self).state.estimate_spec().rows(),
            final(self).state.estimate_spec().cols() == old(self).state.estimate_spec().cols(),
            converged ==> forall|i: int, j: int|
                0 <= i < final(self).state.estimate_spec().rows() && 0 <= j < final(self).state.estimate_spec().cols()
                    ==> #[trigger] no_better_flip(final(self).state.estimate_spec(), samples@, w, i, j, final(self).loss as int),
    {
        let (t, converged) = neighborhood_sweeten(&mut self.state, samples, w, deadline);
        self.loss = t;
        converged
    }
}

/// The all-zero estimate with `n_rows` rows and `n_cols` columns.
pub open spec fn is_zero_estimate(z: BinaryMatrix, n_rows: nat, n_cols: nat) -> bool {
    &&& z.rows() == n_rows
    &&& z.cols() == n_cols
    &&& forall|r: int, c: int| !#[trigger] z.bit(r, c)
}

/// `out` is refined estimate `e` without its empty columns (`kept` lists the
/// others), and `t` is the total loss of `out`. `e` is as wide as the search
/// and has total loss `te`, no more than the all-zero start; when
/// `converged` no single toggle of `e` lowers `te`.
pub open spec fn greedy_record(
    out: BinaryMatrix,
    t: u128,
    converged: bool,
    samples: Seq<BinaryMatrix>,
    w: Asymmetry,
    e: BinaryMatrix,
    kept: Seq<usize>,
    te: u128,
) -> bool {
    &&& keeps_nonempty_columns(out, e, kept)
    &&& is_total_loss(out, samples, w, t as int)
    &&& e.wf()
    &&& e.rows() == samples[0].rows()
    &&& e.cols() == search_width(samples)
    &&& is_total_loss(e, samples, w, te as int)
    &&& forall|z: BinaryMatrix, t0: int| is_zero_estimate(z, samples[0].rows(), search_width(samples))
        && #[trigger] is_total_loss(z, samples, w, t0) ==> te <= t0
    &&& converged ==> forall|i: int, j: int| 0 <= i < e.rows() && 0 <= j < e.cols()
        ==> #[trigger] no_better_flip(e, samples, w, i, j, te as int)
}

/// `out`, `t` and `converged` come from some refined estimate as
/// `greedy_record` describes.
pub open spec fn greedy_result(out: BinaryMatrix, t: u128, converged: bool, samples: Seq<BinaryMatrix>, w: Asymmetry) -> bool {
    exists|e: BinaryMatrix, kept: Seq<usize>, te: u128| #[trigger] greedy_record(out, t, converged, samples, w, e, kept, te)
}

/// Greedy estimate from scratch: an all-zero estimate as wide as the widest
/// draw (at least one column), refined by exhaustive best-improvement search
/// within `deadline`, and reported without its empty columns. Returns that
/// estimate with its total loss, and whether the search ended at a local
/// optimum (see `greedy_record`). Succeeds exactly when every cost matrix
/// stays in exact range (`in_exact_range`).
pub fn greedy_estimate(samples: &Vec<BinaryMatrix>, w: Asymmetry, deadline: &Deadline) -> (r: Option<(BinaryMatrix, u128, bool)>)
    requires
        w.wf(),
        valid_draws(samples@),
    ensures
        r matches Some((o, tl, conv)) ==> greedy_result(o, tl, conv, samples@, w),
        r is None <==> !in_exact_range(samples@, w),
{
    let n_items = samples[0].n_rows();
    proof {
        if in_exact_range(samples@, w) {
            lemma_in_range_consequences(samples@, w, search_width(samples@));
        }
    }
    let width = max_width(samples);
    let width = if width >= 1 {
        width
    } else {
        1
    };
    let zero = match BinaryMatrix::zeros(n_items, width) {
        None => {
            return None;
        },
        Some(z) => z,
    };
    let ghost z0 = zero;
    let mut state = match CandidateState::new(zero, samples, w) {
        None => {
            return None;
        },
        Some(st) => st,
    };
    proof {
        lemma_max_cols_attained(samples@);
        assert(exact_range(samples@[0].rows(), width_with(search_width(samples@), samples@[0]), w));
        assert(width_with(search_width(samples@), samples@[0]) == search_width(samples@));
    }
    let (t, converged) = neighborhood_sweeten(&mut state, samples, w, deadline);
    proof {
        assert forall|z: BinaryMatrix, t0: int| is_zero_estimate(z, samples@[0].rows(), search_width(samples@))
            && #[trigger] is_total_loss(z, samples@, w, t0) implies t <= t0 by {
            assert forall|r: int, c: int| #[trigger] z.bit(r, c) == z0.bit(r, c) by {}
            lemma_total_loss_same_bits(z, z0, samples@, w, t0);
        }
    }
    let e = state.into_estimate();
    proof {
        assert(all_exact(e.rows(), e.cols(), samples@, w));
    }
    let (out, t_out) = match report_estimate(&e, samples, w) {
        Some(result) => result,
        None => {
            proof {
                assert(false);
            }
            return None;
        },
    };
    proof {
        let kept = choose|kept: Seq<usize>| keeps_nonempty_columns(out, e, kept);
        assert(keeps_nonempty_columns(out, e, kept));
        assert(e.cols() == search_width(samples@));
        assert(is_total_loss(e, samples@, w, t as int));
        assert(converged ==> forall|i: int, j: int| 0 <= i < e.rows() && 0 <= j < e.cols()
            ==> #[trigger] no_better_flip(e, samples@, w, i, j, t as int));
        assert(greedy_record(out, t_out, converged, samples@, w, e, kept, t));
        assert(greedy_result(out, t_out, converged, samples@, w));
    }
    Some((out, t_out, converged))
}

/// The draw with the least total loss against all draws (the first such),
/// with that loss; always succeeds when every cost matrix stays in exact
/// range (`in_exact_range`).
pub fn best_draw(samples: &Vec<BinaryMatrix>, w: Asymmetry) -> (r: Option<(usize, u128)>)
    requires
        w.wf(),
        valid_draws(samples@),
    ensures
        r matches Some((i, t)) ==> {
            &&& i < samples@.len()
            &&& is_total_loss(samples@[i as int], samples@, w, t as int)
            &&& forall|j: int, t2: int| 0 <= j < samples@.len() && is_total_loss(samples@[j], samples@, w, t2) ==> t <= t2
        },
        in_exact_range(samples@, w) ==> r is Some,
{
    let n = samples.len();
    let ghost n_rows = samples@[0].rows();
    let mut best: usize = 0;
    let mut best_loss: u128 = 0;
    let mut j: usize = 0;
    while j < n
        invariant
            w.wf(),
            valid_draws(samples@),
            n_rows == samples@[0].rows(),
            n == samples@.len(),
            j <= n,
            j > 0 ==> best < j && is_total_loss(samples@[best as int], samples@, w, best_loss as int),
            forall|j2: int, t2: int| 0 <= j2 < j && is_total_loss(samples@[j2], samples@, w, t2) ==> best_loss <= t2,
        decreases n - j,
    {
        proof {
            assert(samples@[j as int].wf());
            if in_exact_range(samples@, w) {
                lemma_max_cols_attained(samples@);
                lemma_in_range_consequences(samples@, w, samples@[j as int].cols());
            }
        }
        let t = match expected_loss_from_samples(&samples[j], samples, w) {
            None => {
                return None;
            },
            Some(t) => t,
        };
        if j == 0 || t < best_loss {
            proof {
                assert forall|j2: int, t2: int| 0 <= j2 < j + 1 && is_total_loss(samples@[j2], samples@, w, t2) implies t <= t2 by {
                    if j2 == j {
                        lemma_total_loss_unique(samples@[j2], samples@, w, t as int, t2);
                    }
                }
            }
            best = j;
            best_loss = t;
        } else {
            proof {
                assert forall|j2: int, t2: int| 0 <= j2 < j + 1 && is_total_loss(samples@[j2], samples@, w, t2) implies best_loss <= t2 by {
                    if j2 == j {
                        lemma_total_loss_unique(samples@[j2], samples@, w, t as int, t2);
                    }
                }
            }
        }
        j = j + 1;
    }
    Some((best, best_loss))
}

} // verus!
