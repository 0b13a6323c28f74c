use fangs::candidate::{expected_loss_from_samples, CandidateState};
use fangs::cost::{make_weight_matrix, Asymmetry};
use fangs::init::initial_estimate;
use fangs::matrix::BinaryMatrix;
use fangs::pipeline::{
    best_sweet, build_sweets, clamp, default_iterations, final_estimate, greedy_estimate, max_width,
    rank_by_loss, stochastic_iteration,
};
use fangs::random::{distinct_indices, index_below, next_seed, stream_from_seed};
use fangs::search::{best_flip_round, index_1d_to_2d, neighborhood_sweeten};
use fangs::timers::Deadline;

fn mat(rows: &[&[u8]]) -> BinaryMatrix {
    let n = rows.len();
    let k = if n == 0 { 0 } else { rows[0].len() };
    let mut bits = Vec::new();
    for c in 0..k {
        for r in 0..n {
            bits.push(rows[r][c] != 0);
        }
    }
    BinaryMatrix::from_column_major(n, bits).unwrap()
}

fn sym() -> Asymmetry {
    Asymmetry::new(1, 1).unwrap()
}

fn truth() -> BinaryMatrix {
    mat(&[&[1, 0], &[1, 1], &[0, 1], &[1, 0], &[0, 0]])
}

fn perturbed_draws() -> Vec<BinaryMatrix> {
    let t = truth();
    let mut draws = Vec::new();
    for (r, c) in [(0, 0), (2, 1), (4, 0)] {
        let mut m = t.copy();
        m.flip(r, c);
        draws.push(m);
    }
    for _ in 0..4 {
        draws.push(t.copy());
    }
    draws
}

fn same_bits(a: &BinaryMatrix, b: &BinaryMatrix) -> bool {
    a.n_rows() == b.n_rows()
        && a.n_cols() == b.n_cols()
        && (0..a.n_rows()).all(|r| (0..a.n_cols()).all(|c| a.get(r, c) == b.get(r, c)))
}

#[test]
fn flip_twice_restores_cost_matrices_and_loss() {
    let draws = perturbed_draws();
    let w = Asymmetry::new(3, 4).unwrap();
    let mut st = CandidateState::new(mat(&[&[1, 0], &[0, 1], &[0, 0], &[1, 1], &[0, 1]]), &draws, w).unwrap();
    let before: Vec<Vec<u64>> = (0..draws.len()).map(|s| st.weight_matrix(s).entries().clone()).collect();
    let loss_before = st.expected_loss(&draws, w);
    for (r, c) in [(0, 0), (3, 1), (4, 0)] {
        st.flip(r, c, &draws, w);
        st.flip(r, c, &draws, w);
        for s in 0..draws.len() {
            assert_eq!(st.weight_matrix(s).entries(), &before[s]);
        }
        assert_eq!(st.expected_loss(&draws, w), loss_before);
    }
}

#[test]
fn cached_loss_equals_rebuilt_loss() {
    let draws = perturbed_draws();
    let w = Asymmetry::new(5, 4).unwrap();
    let mut st = CandidateState::new(BinaryMatrix::zeros(5, 3).unwrap(), &draws, w).unwrap();
    for (r, c) in [(0, 0), (1, 0), (1, 1), (2, 2), (0, 0), (3, 0)] {
        st.flip(r, c, &draws, w);
        let cached = st.expected_loss(&draws, w);
        let rebuilt = expected_loss_from_samples(st.estimate(), &draws, w).unwrap();
        assert_eq!(cached, rebuilt);
        for s in 0..draws.len() {
            let fresh = make_weight_matrix(st.estimate(), &draws[s], w).unwrap();
            assert_eq!(st.weight_matrix(s).entries(), fresh.entries());
        }
    }
}

#[test]
fn probe_leaves_state_and_predicts_flip() {
    let draws = perturbed_draws();
    let w = sym();
    let mut st = CandidateState::new(BinaryMatrix::zeros(5, 2).unwrap(), &draws, w).unwrap();
    let before = st.expected_loss(&draws, w);
    let probed = st.loss_if_flipped(1, 0, &draws, w);
    assert_eq!(st.expected_loss(&draws, w), before);
    assert!(!st.estimate().get(1, 0));
    st.flip(1, 0, &draws, w);
    assert_eq!(st.expected_loss(&draws, w), probed);
    assert!(probed < before);
}

#[test]
fn greedy_from_zero_recovers_truth() {
    let t = truth();
    let mut draws = Vec::new();
    for _ in 0..5 {
        draws.push(t.copy());
    }
    let deadline = Deadline::new(60_000_000_000);
    let (e, loss, converged) = greedy_estimate(&draws, sym(), &deadline).unwrap();
    assert!(converged);
    assert_eq!(loss, 0);
    assert_eq!(fangs::loss::pairwise_loss(&e, &t, sym()), Some(0));
}

#[test]
fn neighborhood_search_on_perturbed_draws_reaches_truth() {
    let draws = perturbed_draws();
    let w = sym();
    let mut st = CandidateState::new(BinaryMatrix::zeros(5, 2).unwrap(), &draws, w).unwrap();
    let deadline = Deadline::new(60_000_000_000);
    let (loss, converged) = neighborhood_sweeten(&mut st, &draws, w, &deadline);
    assert!(converged);
    assert_eq!(fangs::loss::pairwise_loss(st.estimate(), &truth(), w), Some(0));
    assert_eq!(loss, expected_loss_from_samples(&truth(), &draws, w).unwrap());
    assert_eq!(loss, 3);
}

#[test]
fn stochastic_best_loss_never_rises() {
    let draws = perturbed_draws();
    let w = sym();
    let mut sweets = build_sweets(&draws, w, 4, 3, [7u8; 16]).unwrap();
    assert_eq!(sweets.len(), 3);
    for a in 1..sweets.len() {
        assert!(sweets[a - 1].loss <= sweets[a].loss);
    }
    let mut best = sweets[best_sweet(&sweets)].loss;
    let mut previous: Vec<u128> = sweets.iter().map(|s| s.loss).collect();
    for iteration in 1..200 {
        stochastic_iteration(&mut sweets, iteration, &draws, w);
        for (a, s) in sweets.iter().enumerate() {
            assert!(s.loss <= previous[a]);
            assert_eq!(s.id, a);
            assert_eq!(s.state.expected_loss(&draws, w), s.loss);
        }
        previous = sweets.iter().map(|s| s.loss).collect();
        let now = sweets[best_sweet(&sweets)].loss;
        assert!(now <= best);
        best = now;
    }
    let winner = &sweets[best_sweet(&sweets)];
    let (estimate, reported) = final_estimate(winner, &draws, w);
    assert!(estimate.n_cols() <= 2);
    assert_eq!(reported, winner.loss);
    assert_eq!(expected_loss_from_samples(&estimate, &draws, w), Some(reported));
}

#[test]
fn build_sweets_is_reproducible() {
    let draws = perturbed_draws();
    let a = build_sweets(&draws, sym(), 5, 2, [3u8; 16]).unwrap();
    let b = build_sweets(&draws, sym(), 5, 2, [3u8; 16]).unwrap();
    assert_eq!(a.len(), 2);
    for i in 0..2 {
        assert_eq!(a[i].loss, b[i].loss);
        assert!(same_bits(a[i].state.estimate(), b[i].state.estimate()));
    }
    let clamped = build_sweets(&draws, sym(), 0, 100, [3u8; 16]).unwrap();
    assert_eq!(clamped.len(), 1);
}

#[test]
fn initial_estimate_of_identical_draws_is_the_draw() {
    let t = truth();
    let draws: Vec<BinaryMatrix> = (0..3).map(|_| t.copy()).collect();
    let e = initial_estimate(&draws[0], &draws, sym(), 4).unwrap();
    assert!(same_bits(&e, &t));
}

#[test]
fn initial_estimate_thresholds_the_mean() {
    // two of three draws have the bit: mean 2/3 reaches a/2 for a = 1 but not for a = 3/2
    let d1 = mat(&[&[1], &[0]]);
    let d2 = mat(&[&[1], &[1]]);
    let d3 = mat(&[&[0], &[1]]);
    let draws = vec![d1.copy(), d2.copy(), d3.copy()];
    let low = initial_estimate(&d2, &draws, sym(), 1).unwrap();
    assert!(low.get(0, 0) && low.get(1, 0));
    let high = initial_estimate(&d2, &draws, Asymmetry::new(3, 2).unwrap(), 1).unwrap();
    assert_eq!(high.n_cols(), 1);
    assert!(!high.get(0, 0) && !high.get(1, 0));
}

#[test]
fn ranking_orders_by_loss() {
    let losses = vec![5u128, 1, 4, 1, 9];
    let r = rank_by_loss(&losses, 3);
    assert_eq!(r.len(), 3);
    assert_eq!(losses[r[0]], 1);
    assert_eq!(losses[r[1]], 1);
    assert_eq!(r[2], 2);
    assert!(rank_by_loss(&losses, 0).is_empty());
}

#[test]
fn small_helpers() {
    assert_eq!(index_1d_to_2d(7, 3), (2, 1));
    assert_eq!(index_1d_to_2d(0, 5), (0, 0));
    assert_eq!(clamp(0, 1, 4), 1);
    assert_eq!(clamp(9, 1, 4), 4);
    assert_eq!(clamp(3, 1, 4), 3);
    let draws = perturbed_draws();
    assert_eq!(max_width(&draws), 2);
    let sweets = build_sweets(&draws, sym(), 2, 2, [1u8; 16]).unwrap();
    assert!(default_iterations(&sweets, &draws, sym()) >= 5);
}

#[test]
fn random_streams() {
    let mut a = stream_from_seed([9u8; 16]);
    let mut b = stream_from_seed([9u8; 16]);
    assert_eq!(next_seed(&mut a), next_seed(&mut b));
    for _ in 0..50 {
        assert!(index_below(&mut a, 7) < 7);
    }
    let idx = distinct_indices(&mut a, 10, 10);
    let mut sorted = idx.clone();
    sorted.sort();
    assert_eq!(sorted, (0..10).collect::<Vec<_>>());
}

#[test]
fn too_large_costs_are_refused() {
    let draws = vec![BinaryMatrix::zeros(3, 1).unwrap()];
    let w = Asymmetry::new(1, u32::MAX).unwrap();
    let big = BinaryMatrix::zeros(3, 100_000).unwrap();
    assert!(CandidateState::new(big.copy(), &draws, w).is_none());
    assert!(expected_loss_from_samples(&big, &draws, w).is_none());
    assert!(fangs::loss::pairwise_loss(&big, &draws[0], w).is_none());
}

#[test]
fn best_flip_round_applies_the_best_flip() {
    let draws = perturbed_draws();
    let w = sym();
    let mut st = CandidateState::new(BinaryMatrix::zeros(5, 2).unwrap(), &draws, w).unwrap();
    let start = st.expected_loss(&draws, w);
    let mut best = start;
    for r in 0..5 {
        for c in 0..2 {
            best = best.min(st.loss_if_flipped(r, c, &draws, w));
        }
    }
    let t = best_flip_round(&mut st, start, &draws, w).unwrap();
    assert_eq!(t, best);
    assert!(t < start);
    assert_eq!(st.expected_loss(&draws, w), t);
    let mut at_truth = CandidateState::new(truth(), &draws, w).unwrap();
    let here = at_truth.expected_loss(&draws, w);
    assert_eq!(best_flip_round(&mut at_truth, here, &draws, w), None);
    assert!(same_bits(at_truth.estimate(), &truth()));
}

#[test]
fn step_at_accepts_only_improvements() {
    let draws = perturbed_draws();
    let w = sym();
    let mut sweets = build_sweets(&draws, w, 7, 7, [5u8; 16]).unwrap();
    let sweet = &mut sweets[0];
    assert_eq!(sweet.when, 1);
    let before_loss = sweet.loss;
    let probe = sweet.state.loss_if_flipped(0, 0, &draws, w);
    let accepted = sweet.step_at(0, 0, 9, &draws, w);
    assert_eq!(accepted, probe < before_loss);
    if accepted {
        assert_eq!(sweet.loss, probe);
        assert_eq!(sweet.n_accepts, 1);
        assert_eq!(sweet.when, 9);
    } else {
        assert_eq!(sweet.loss, before_loss);
        assert_eq!(sweet.n_accepts, 0);
        assert_eq!(sweet.when, 1);
    }
}

#[test]
fn stochastic_stop_decision() {
    assert!(fangs::pipeline::keep_iterating(0, 3, false, false));
    assert!(!fangs::pipeline::keep_iterating(3, 3, false, false));
    assert!(!fangs::pipeline::keep_iterating(1, 3, true, false));
    assert!(!fangs::pipeline::keep_iterating(1, 3, false, true));
}

#[test]
fn greedy_drops_empty_columns() {
    let t = mat(&[&[1, 0, 0], &[1, 0, 0], &[0, 0, 0]]);
    let draws: Vec<BinaryMatrix> = (0..3).map(|_| t.copy()).collect();
    let deadline = Deadline::new(60_000_000_000);
    let (e, loss, converged) = greedy_estimate(&draws, sym(), &deadline).unwrap();
    assert!(converged);
    assert_eq!(loss, 0);
    assert_eq!(e.n_cols(), 1);
    assert!(e.get(0, 0) && e.get(1, 0) && !e.get(2, 0));
}

#[test]
fn inverse_matching_inverts() {
    let p = vec![2usize, 0, 3, 1];
    let q = fangs::perm::inverse_matching(&p);
    assert_eq!(q, vec![1, 3, 0, 2]);
    for j in 0..4 {
        assert_eq!(p[q[j]], j);
    }
}
