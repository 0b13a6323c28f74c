//! Least-cost perfect matchings on a square cost matrix: a shortest
//! augmenting path solver whose result is certified optimal by its
//! potentials, with exhaustive search as the exact fallback.
use vstd::prelude::*;
use itertools::Itertools;
use crate::cost::{CostMatrix, EXACT_LIMIT};
use crate::perm::{identity, lemma_identity_is_permutation};
use crate::perm::{
    is_permutation, is_hit, sum, lemma_sum_add, lemma_sum_congruent, lemma_sum_le, lemma_sum_reindex,
};

verus! {

/// Total cost of matching row `i` with column `p[i]` for every `i < k`.
pub open spec fn assignment_cost(c: spec_fn(int, int) -> int, p: Seq<usize>, k: int) -> int {
    sum(|i: int| c(i, p[i] as int), k)
}

/// `v` is the least total cost of a perfect matching of `0..k` with itself.
pub open spec fn is_min_assignment(c: spec_fn(int, int) -> int, k: nat, v: int) -> bool {
    &&& exists|p: Seq<usize>| is_permutation(p, k) && #[trigger] assignment_cost(c, p, k as int) == v
    &&& forall|p: Seq<usize>| is_permutation(p, k) ==> #[trigger] assignment_cost(c, p, k as int) >= v
}

/// The entries of a cost matrix as a function.
pub open spec fn matrix_costs(c: CostMatrix) -> spec_fn(int, int) -> int {
    |i: int, j: int| c.entry(i, j)
}

/// Two least costs of one problem are the same number.
pub proof fn lemma_min_assignment_unique(c: spec_fn(int, int) -> int, k: nat, v1: int, v2: int)
    requires
        is_min_assignment(c, k, v1),
        is_min_assignment(c, k, v2),
    ensures
        v1 == v2,
{
    let p1 = choose|p: Seq<usize>| is_permutation(p, k) && #[trigger] assignment_cost(c, p, k as int) == v1;
    let p2 = choose|p: Seq<usize>| is_permutation(p, k) && #[trigger] assignment_cost(c, p, k as int) == v2;
    assert(assignment_cost(c, p1, k as int) >= v2);
    assert(assignment_cost(c, p2, k as int) >= v1);
}

/// Assignment costs depend only on the entries inside the square.
pub proof fn lemma_assignment_cost_congruent(
    c1: spec_fn(int, int) -> int,
    c2: spec_fn(int, int) -> int,
    p: Seq<usize>,
    k: nat,
)
    requires
        is_permutation(p, k),
        forall|i: int, j: int| 0 <= i < k && 0 <= j < k ==> #[trigger] c1(i, j) == c2(i, j),
    ensures
        assignment_cost(c1, p, k as int) == assignment_cost(c2, p, k as int),
{
    assert forall|i: int| 0 <= i < k implies #[trigger] c1(i, p[i] as int) == c2(i, p[i] as int) by {
        assert(p[i] < k);
    }
    lemma_sum_congruent(|i: int| c1(i, p[i] as int), |i: int| c2(i, p[i] as int), k as int);
}

/// Least costs agree for cost functions that agree inside the square.
pub proof fn lemma_min_assignment_congruent(
    c1: spec_fn(int, int) -> int,
    c2: spec_fn(int, int) -> int,
    k: nat,
    v: int,
)
    requires
        forall|i: int, j: int| 0 <= i < k && 0 <= j < k ==> #[trigger] c1(i, j) == c2(i, j),
        is_min_assignment(c1, k, v),
    ensures
        is_min_assignment(c2, k, v),
{
    let p = choose|p: Seq<usize>| is_permutation(p, k) && #[trigger] assignment_cost(c1, p, k as int) == v;
    lemma_assignment_cost_congruent(c1, c2, p, k);
    assert forall|q: Seq<usize>| is_permutation(q, k) implies #[trigger] assignment_cost(c2, q, k as int) >= v by {
        lemma_assignment_cost_congruent(c1, c2, q, k);
    }
}

/// Weak duality: potentials `u` on rows and `v` on columns that never exceed a
/// cost, and meet it exactly along `p`, make `p` a matching of least cost.
pub proof fn lemma_dual_certificate(
    c: spec_fn(int, int) -> int,
    u: spec_fn(int) -> int,
    v: spec_fn(int) -> int,
    p: Seq<usize>,
    k: nat,
)
    requires
        is_permutation(p, k),
        forall|i: int, j: int| 0 <= i < k && 0 <= j < k ==> u(i) + v(j) <= #[trigger] c(i, j),
        forall|i: int| 0 <= i < k ==> u(i) + v(p[i] as int) == #[trigger] c(i, p[i] as int),
    ensures
        is_min_assignment(c, k, assignment_cost(c, p, k as int)),
{
    let total = sum(u, k as int) + sum(v, k as int);
    assert(assignment_cost(c, p, k as int) == total) by {
        let vp = |i: int| v(p[i] as int);
        let uv = |i: int| u(i) + vp(i);
        lemma_sum_congruent(|i: int| c(i, p[i] as int), uv, k as int);
        lemma_sum_add(u, vp, k as int);
        lemma_sum_congruent(uv, |i: int| u(i) + vp(i), k as int);
        lemma_sum_reindex(v, p, k);
    }
    assert forall|q: Seq<usize>| is_permutation(q, k) implies #[trigger] assignment_cost(c, q, k as int) >= total by {
        assert forall|i: int| 0 <= i < k implies u(i) + v(q[i] as int) <= #[trigger] c(i, q[i] as int) by {
            assert(q[i] < k);
        }
        let vq = |i: int| v(q[i] as int);
        let uv = |i: int| u(i) + vq(i);
        lemma_sum_le(uv, |i: int| c(i, q[i] as int), k as int);
        lemma_sum_add(u, vq, k as int);
        lemma_sum_congruent(uv, |i: int| u(i) + vq(i), k as int);
        lemma_sum_reindex(v, q, k);
    }
}

/// Whether `p` is a permutation of `0..k`.
pub fn check_permutation(p: &Vec<usize>, k: usize) -> (r: bool)
    ensures
        r == is_permutation(p@, k as nat),
{
    if p.len() != k {
        return false;
    }
    let mut seen: Vec<bool> = vec![false; k];
    let mut i: usize = 0;
    while i < k
        invariant
            p@.len() == k,
            seen@.len() == k,
            i <= k,
            forall|a: int| 0 <= a < i ==> #[trigger] p@[a] < k,
            forall|a: int, b: int| 0 <= a < i && 0 <= b < i && a != b ==> p@[a] != p@[b],
            forall|j: int| 0 <= j < k ==> (#[trigger] seen@[j] <==> exists|a: int| 0 <= a < i && #[trigger] p@[a] == j),
        decreases k - i,
    {
        let x = p[i];
        if x >= k {
            return false;
        }
        if seen[x] {
            proof {
                let a = choose|a: int| 0 <= a < i && #[trigger] p@[a] == x;
                assert(p@[a] == p@[i as int]);
            }
            return false;
        }
        seen.set(x, true);
        proof {
            assert forall|j: int| 0 <= j < k implies (#[trigger] seen@[j] <==> exists|a: int| 0 <= a < i + 1 && #[trigger] p@[a] == j) by {
                if j == x {
                    assert(p@[i as int] == j);
                } else {
                    if exists|a: int| 0 <= a < i + 1 && #[trigger] p@[a] == j {
                        let a = choose|a: int| 0 <= a < i + 1 && #[trigger] p@[a] == j;
                        assert(a != i);
                    }
                }
            }
        }
        i = i + 1;
    }
    let mut j: usize = 0;
    while j < k
        invariant
            p@.len() == k,
            seen@.len() == k,
            forall|a: int| 0 <= a < k ==> #[trigger] p@[a] < k,
            forall|a: int, b: int| 0 <= a < k && 0 <= b < k && a != b ==> p@[a] != p@[b],
            forall|j: int| 0 <= j < k ==> (#[trigger] seen@[j] <==> exists|a: int| 0 <= a < k && #[trigger] p@[a] == j),
            j <= k,
            forall|j2: int| 0 <= j2 < j ==> #[trigger] is_hit(p@, k as nat, j2),
        decreases k - j,
    {
        if !seen[j] {
            proof {
                assert(!is_hit(p@, k as nat, j as int));
            }
            return false;
        }
        proof {
            assert(seen@[j as int]);
            assert(is_hit(p@, k as nat, j as int));
        }
        j = j + 1;
    }
    true
}

/// A value larger than any reduced cost that the solver meets.
const UNREACHED: i128 = 0x1000_0000_0000_0000_0000_0000_0000;

/// Largest size of a potential that `check_dual` accepts.
const POTENTIAL_LIMIT: i128 = 0x1_0000_0000_0000_0000_0000;

/// Shortest augmenting paths with row and column potentials (the Hungarian
/// method), on positions `1..=k` with position 0 as the root of each search.
/// Returns, for each column position, the row position matched to it, and the
/// two potential vectors. `None` if an intermediate value leaves `i128` or a
/// search runs longer than `k` steps.
fn shortest_augmenting_paths(c: &CostMatrix) -> (r: Option<(Vec<usize>, Vec<i128>, Vec<i128>)>)
    requires
        c.wf(),
        c.exact(),
        c.side() >= 1,
    ensures
        r matches Some((col_row, u, v)) ==> {
            &&& col_row@.len() == c.side() + 1
            &&& u@.len() == c.side() + 1
            &&& v@.len() == c.side() + 1
        },
{
    let k = c.side_len();
    proof {
        assert(k as nat * k as nat >= k) by (nonlinear_arith)
            requires k >= 1;
        assert(k <= EXACT_LIMIT);
    }
    let n = k + 1;
    let mut u: Vec<i128> = vec![0; n];
    let mut v: Vec<i128> = vec![0; n];
    let mut col_row: Vec<usize> = vec![0; n];
    let mut way: Vec<usize> = vec![0; n];
    let mut i: usize = 1;
    while i <= k
        invariant
            c.wf(),
            k == c.side(),
            n == k + 1,
            u@.len() == n,
            v@.len() == n,
            col_row@.len() == n,
            way@.len() == n,
            forall|j: int| 0 <= j < n ==> #[trigger] col_row@[j] <= k,
            forall|j: int| 0 <= j < n ==> #[trigger] way@[j] <= k,
            1 <= i <= n,
        decreases n - i,
    {
        col_row.set(0, i);
        let mut j0: usize = 0;
        let mut minv: Vec<i128> = vec![UNREACHED; n];
        let mut used: Vec<bool> = vec![false; n];
        let mut steps: usize = 0;
        let mut reached_free = false;
        while !reached_free
            invariant
                c.wf(),
                k == c.side(),
                n == k + 1,
                u@.len() == n,
                v@.len() == n,
                col_row@.len() == n,
                way@.len() == n,
                minv@.len() == n,
                used@.len() == n,
                forall|j: int| 0 <= j < n ==> #[trigger] col_row@[j] <= k,
                forall|j: int| 0 <= j < n ==> #[trigger] way@[j] <= k,
                j0 <= k,
                steps <= n,
            decreases n - steps,
        {
            if steps >= k {
                return None;
            }
            used.set(j0, true);
            let i0 = col_row[j0];
            if i0 == 0 {
                return None;
            }
            let mut delta: i128 = UNREACHED;
            let mut j1: usize = 0;
            let mut j: usize = 1;
            while j <= k
                invariant
                    c.wf(),
                    k == c.side(),
                    n == k + 1,
                    u@.len() == n,
                    v@.len() == n,
                    col_row@.len() == n,
                    way@.len() == n,
                    minv@.len() == n,
                    used@.len() == n,
                    forall|j: int| 0 <= j < n ==> #[trigger] col_row@[j] <= k,
                    forall|j: int| 0 <= j < n ==> #[trigger] way@[j] <= k,
                    j0 <= k,
                    1 <= i0 <= k,
                    1 <= j <= n,
                    j1 <= k,
                decreases n - j,
            {
                if !used[j] {
                    let entry = c.get(i0 - 1, j - 1) as i128;
                    let reduced = match entry.checked_sub(u[i0]) {
                        Some(x) => x,
                        None => {
                            return None;
                        },
                    };
                    let cur = match reduced.checked_sub(v[j]) {
                        Some(x) => x,
                        None => {
                            return None;
                        },
                    };
                    if cur < minv[j] {
                        minv.set(j, cur);
                        way.set(j, j0);
                    }
                    if minv[j] < delta {
                        delta = minv[j];
                        j1 = j;
                    }
                }
                j = j + 1;
            }
            let mut j: usize = 0;
            while j <= k
                invariant
                    k == c.side(),
                    n == k + 1,
                    u@.len() == n,
                    v@.len() == n,
                    col_row@.len() == n,
                    minv@.len() == n,
                    used@.len() == n,
                    forall|j: int| 0 <= j < n ==> #[trigger] col_row@[j] <= k,
                    j <= n,
                decreases n - j,
            {
                if used[j] {
                    let row = col_row[j];
                    let raised = match u[row].checked_add(delta) {
                        Some(x) => x,
                        None => {
                            return None;
                        },
                    };
                    u.set(row, raised);
                    let lowered = match v[j].checked_sub(delta) {
                        Some(x) => x,
                        None => {
                            return None;
                        },
                    };
                    v.set(j, lowered);
                } else {
                    let lowered = match minv[j].checked_sub(delta) {
                        Some(x) => x,
                        None => {
                            return None;
                        },
                    };
                    minv.set(j, lowered);
                }
                j = j + 1;
            }
            j0 = j1;
            steps = steps + 1;
            if col_row[j0] == 0 {
                reached_free = true;
            }
        }
        let mut back_steps: usize = 0;
        let mut at_root = false;
        while !at_root
            invariant
                k == c.side(),
                n == k + 1,
                col_row@.len() == n,
                way@.len() == n,
                forall|j: int| 0 <= j < n ==> #[trigger] col_row@[j] <= k,
                forall|j: int| 0 <= j < n ==> #[trigger] way@[j] <= k,
                j0 <= k,
                back_steps <= n,
            decreases n - back_steps,
        {
            if back_steps >= n {
                return None;
            }
            let j1 = way[j0];
            let row = col_row[j1];
            col_row.set(j0, row);
            j0 = j1;
            back_steps = back_steps + 1;
            if j0 == 0 {
                at_root = true;
            }
        }
        i = i + 1;
    }
    Some((col_row, u, v))
}

/// Whether potentials `u` (rows) and `v` (columns), both shifted by one
/// position, stay below every cost and meet the cost along `p`.
fn check_dual(c: &CostMatrix, p: &Vec<usize>, u: &Vec<i128>, v: &Vec<i128>) -> (r: bool)
    requires
        c.wf(),
        c.exact(),
        c.side() >= 1,
        is_permutation(p@, c.side()),
        u@.len() == c.side() + 1,
        v@.len() == c.side() + 1,
    ensures
        r ==> forall|i: int, j: int|
            0 <= i < c.side() && 0 <= j < c.side() ==> u@[i + 1] + v@[j + 1] <= #[trigger] c.entry(i, j),
        r ==> forall|i: int|
            0 <= i < c.side() ==> u@[i + 1] + v@[p@[i] + 1] == #[trigger] c.entry(i, p@[i] as int),
{
    let k = c.side_len();
    proof {
        assert(k as nat * k as nat >= k) by (nonlinear_arith)
            requires k >= 1;
    }
    let mut t: usize = 0;
    while t <= k
        invariant
            u@.len() == k + 1,
            v@.len() == k + 1,
            k < usize::MAX,
            t <= k + 1,
            forall|a: int| 0 <= a < t ==> -POTENTIAL_LIMIT <= #[trigger] u@[a] <= POTENTIAL_LIMIT,
            forall|a: int| 0 <= a < t ==> -POTENTIAL_LIMIT <= #[trigger] v@[a] <= POTENTIAL_LIMIT,
        decreases k + 1 - t,
    {
        if u[t] < -POTENTIAL_LIMIT || u[t] > POTENTIAL_LIMIT || v[t] < -POTENTIAL_LIMIT || v[t] > POTENTIAL_LIMIT {
            return false;
        }
        t = t + 1;
    }
    let mut i: usize = 0;
    while i < k
        invariant
            c.wf(),
            k == c.side(),
            is_permutation(p@, c.side()),
            u@.len() == k + 1,
            v@.len() == k + 1,
            forall|a: int| 0 <= a <= k ==> -POTENTIAL_LIMIT <= #[trigger] u@[a] <= POTENTIAL_LIMIT,
            forall|a: int| 0 <= a <= k ==> -POTENTIAL_LIMIT <= #[trigger] v@[a] <= POTENTIAL_LIMIT,
            i <= k,
            forall|i2: int, j: int|
                0 <= i2 < i && 0 <= j < k ==> u@[i2 + 1] + v@[j + 1] <= #[trigger] c.entry(i2, j),
            forall|i2: int|
                0 <= i2 < i ==> u@[i2 + 1] + v@[p@[i2] + 1] == #[trigger] c.entry(i2, p@[i2] as int),
        decreases k - i,
    {
        let mut j: usize = 0;
        while j < k
            invariant
                c.wf(),
                k == c.side(),
                u@.len() == k + 1,
                v@.len() == k + 1,
                forall|a: int| 0 <= a <= k ==> -POTENTIAL_LIMIT <= #[trigger] u@[a] <= POTENTIAL_LIMIT,
                forall|a: int| 0 <= a <= k ==> -POTENTIAL_LIMIT <= #[trigger] v@[a] <= POTENTIAL_LIMIT,
                i < k,
                j <= k,
                forall|j2: int| 0 <= j2 < j ==> u@[i + 1] + v@[j2 + 1] <= #[trigger] c.entry(i as int, j2),
            decreases k - j,
        {
            let e = c.get(i, j) as i128;
            if u[i + 1] + v[j + 1] > e {
                return false;
            }
            j = j + 1;
        }
        let pj = p[i];
        proof {
            assert(p@[i as int] < k);
        }
        let e = c.get(i, pj) as i128;
        if u[i + 1] + v[pj + 1] != e {
            return false;
        }
        i = i + 1;
    }
    true
}

/// A matching of least total cost for the square matrix `c`: row `i` goes to
/// column `r[i]`. Shortest augmenting paths find it, and the potentials they
/// leave prove it optimal; should that proof not go through, every ordering
/// of the columns is tried instead.
pub fn solve_assignment(c: &CostMatrix) -> (r: Vec<usize>)
    requires
        c.wf(),
        c.exact(),
        c.side() >= 1,
    ensures
        is_permutation(r@, c.side()),
        is_min_assignment(matrix_costs(*c), c.side(), assignment_cost(matrix_costs(*c), r@, c.side() as int)),
{
    match certified_assignment(c) {
        Some(p) => p,
        None => exhaustive_assignment(c),
    }
}

/// The matching found by shortest augmenting paths, when its potentials
/// certify it optimal.
fn certified_assignment(c: &CostMatrix) -> (r: Option<Vec<usize>>)
    requires
        c.wf(),
        c.exact(),
        c.side() >= 1,
    ensures
        r matches Some(p) ==> {
            &&& is_permutation(p@, c.side())
            &&& is_min_assignment(matrix_costs(*c), c.side(), assignment_cost(matrix_costs(*c), p@, c.side() as int))
        },
{
    let k = c.side_len();
    proof {
        assert(k as nat * k as nat >= k) by (nonlinear_arith)
            requires k >= 1;
    }
    let found = shortest_augmenting_paths(c);
    match found {
        None => None,
        Some((col_row, u, v)) => {
            let mut p: Vec<usize> = vec![0; k];
            let mut j: usize = 1;
            while j <= k
                invariant
                    p@.len() == k,
                    col_row@.len() == k + 1,
                    k < usize::MAX,
                    1 <= j <= k + 1,
                decreases k + 1 - j,
            {
                let row = col_row[j];
                if row == 0 || row > k {
                    return None;
                }
                p.set(row - 1, j - 1);
                j = j + 1;
            }
            if !check_permutation(&p, k) {
                return None;
            }
            if !check_dual(c, &p, &u, &v) {
                return None;
            }
            proof {
                let uf = |i: int| u@[i + 1] as int;
                let vf = |j: int| v@[j + 1] as int;
                let cf = matrix_costs(*c);
                assert forall|i: int, j: int| 0 <= i < k && 0 <= j < k implies uf(i) + vf(j) <= #[trigger] cf(i, j) by {
                    assert(u@[i + 1] + v@[j + 1] <= c.entry(i, j));
                }
                assert forall|i: int| 0 <= i < k implies uf(i) + vf(p@[i] as int) == #[trigger] cf(i, p@[i] as int) by {
                    assert(u@[i + 1] + v@[p@[i] + 1] == c.entry(i, p@[i] as int));
                }
                lemma_dual_certificate(cf, uf, vf, p@, k as nat);
            }
            Some(p)
        },
    }
}

/// Relies on itertools' `Itertools::permutations`: on the range `0..k` with
/// length `k` it yields every ordering of `0..k` (a single empty one for
/// `k == 0`), each as a vector of `k` distinct values below `k`.
#[verifier::external_body]
pub(crate) fn all_orderings(k: usize) -> (r: Vec<Vec<usize>>)
    ensures
        forall|t: int| 0 <= t < r@.len() ==> is_permutation(#[trigger] r@[t]@, k as nat),
        forall|p: Seq<usize>| is_permutation(p, k as nat) ==> exists|t: int| 0 <= t < r@.len() && #[trigger] r@[t]@ == p,
{
    (0..k).permutations(k).collect()
}

/// The matching of least cost found by trying every ordering of the columns.
fn exhaustive_assignment(c: &CostMatrix) -> (r: Vec<usize>)
    requires
        c.wf(),
        c.exact(),
        c.side() >= 1,
    ensures
        is_permutation(r@, c.side()),
        is_min_assignment(matrix_costs(*c), c.side(), assignment_cost(matrix_costs(*c), r@, c.side() as int)),
{
    let k = c.side_len();
    let orderings = all_orderings(k);
    let ghost f = matrix_costs(*c);
    proof {
        lemma_identity_is_permutation(k as nat);
        let id = identity(k as nat);
        let s0 = choose|s: int| 0 <= s < orderings@.len() && #[trigger] orderings@[s]@ == id;
    }
    let mut best: usize = 0;
    let mut best_cost: u64 = matching_cost(c, &orderings[0]);
    let mut t: usize = 1;
    while t < orderings.len()
        invariant
            c.wf(),
            c.exact(),
            k == c.side(),
            f == matrix_costs(*c),
            orderings@.len() >= 1,
            forall|s: int| 0 <= s < orderings@.len() ==> is_permutation(#[trigger] orderings@[s]@, k as nat),
            1 <= t <= orderings@.len(),
            best < t,
            best_cost == assignment_cost(f, orderings@[best as int]@, k as int),
            forall|s: int| 0 <= s < t ==> #[trigger] assignment_cost(f, orderings@[s]@, k as int) >= best_cost,
        decreases orderings@.len() - t,
    {
        let x = matching_cost(c, &orderings[t]);
        if x < best_cost {
            best = t;
            best_cost = x;
        }
        t = t + 1;
    }
    proof {
        assert forall|p: Seq<usize>| is_permutation(p, k as nat) implies #[trigger] assignment_cost(f, p, k as int) >= best_cost by {
            let s1 = choose|s: int| 0 <= s < orderings@.len() && #[trigger] orderings@[s]@ == p;
            assert(assignment_cost(f, orderings@[s1]@, k as int) >= best_cost);
        }
    }
    let mut r: Vec<usize> = Vec::new();
    let chosen = &orderings[best];
    let mut i: usize = 0;
    while i < chosen.len()
        invariant
            i <= chosen@.len(),
            r@ == chosen@.subrange(0, i as int),
        decreases chosen@.len() - i,
    {
        r.push(chosen[i]);
        i = i + 1;
    }
    proof {
        assert(r@ =~= chosen@);
    }
    r
}

/// Total cost of matching row `i` with column `p[i]`.
pub fn matching_cost(c: &CostMatrix, p: &Vec<usize>) -> (r: u64)
    requires
        c.wf(),
        c.exact(),
        is_permutation(p@, c.side()),
    ensures
        r == assignment_cost(matrix_costs(*c), p@, c.side() as int),
{
    let k = c.side_len();
    let mut acc: u64 = 0;
    let mut i: usize = 0;
    while i < k
        invariant
            c.wf(),
            c.exact(),
            k == c.side(),
            is_permutation(p@, c.side()),
            i <= k,
            acc == assignment_cost(matrix_costs(*c), p@, i as int),
            acc as int * (k as int * k as int) <= i as int * EXACT_LIMIT as int,
        decreases k - i,
    {
        let pj = p[i];
        proof {
            assert(p@[i as int] < k);
        }
        let x = c.get(i, pj);
        proof {
            let e = x as int;
            let kk = k as int * k as int;
            assert(e * kk <= EXACT_LIMIT);
            assert(kk >= k) by (nonlinear_arith)
                requires k >= 1, kk == k as int * k as int;
            assert((acc + e) * kk <= (i + 1) * EXACT_LIMIT) by (nonlinear_arith)
                requires acc * kk <= i * EXACT_LIMIT, e * kk <= EXACT_LIMIT;
            assert((acc + e) <= EXACT_LIMIT) by (nonlinear_arith)
                requires (acc + e) * kk <= (i + 1) * EXACT_LIMIT, i + 1 <= k, kk >= k, k >= 1, acc + e >= 0;
        }
        acc = acc + x;
        i = i + 1;
    }
    acc
}

} // verus!
