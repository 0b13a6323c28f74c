//! Finite sums and permutations, with the reindexing lemmas that matching
//! arguments need.
use vstd::prelude::*;

verus! {

/// `f(0) + ... + f(n - 1)`.
pub open spec fn sum(f: spec_fn(int) -> int, n: int) -> int
    decreases n,
{
    if n <= 0 {
        0
    } else {
        sum(f, n - 1) + f(n - 1)
    }
}

/// `p` is a bijection of `0..k` onto itself.
pub open spec fn is_permutation(p: Seq<usize>, k: nat) -> bool {
    &&& p.len() == k
    &&& forall|i: int| 0 <= i < k ==> #[trigger] p[i] < k
    &&& forall|i: int, j: int| 0 <= i < k && 0 <= j < k && i != j ==> p[i] != p[j]
    &&& forall|j: int| 0 <= j < k ==> #[trigger] is_hit(p, k, j)
}

/// Some position of `p` below `k` holds `j`.
pub open spec fn is_hit(p: Seq<usize>, k: nat, j: int) -> bool {
    exists|i: int| 0 <= i < k && #[trigger] p[i] == j
}

/// The identity permutation of `0..k`.
pub open spec fn identity(k: nat) -> Seq<usize> {
    Seq::new(k, |i: int| i as usize)
}

/// The inverse of permutation `p` of `0..k`.
pub open spec fn inverse(p: Seq<usize>, k: nat) -> Seq<usize> {
    Seq::new(k, |j: int| (choose|i: int| 0 <= i < k && p[i] == j) as usize)
}

/// `p` after `q`: position `i` holds `p[q[i]]`.
pub open spec fn compose(p: Seq<usize>, q: Seq<usize>) -> Seq<usize> {
    Seq::new(q.len(), |i: int| p[q[i] as int])
}

pub proof fn lemma_sum_congruent(f: spec_fn(int) -> int, g: spec_fn(int) -> int, n: int)
    requires
        forall|i: int| 0 <= i < n ==> #[trigger] f(i) == g(i),
    ensures
        sum(f, n) == sum(g, n),
    decreases n,
{
    if n > 0 {
        lemma_sum_congruent(f, g, n - 1);
    }
}

pub proof fn lemma_sum_nonneg(f: spec_fn(int) -> int, n: int)
    requires
        forall|i: int| 0 <= i < n ==> #[trigger] f(i) >= 0,
    ensures
        sum(f, n) >= 0,
    decreases n,
{
    if n > 0 {
        lemma_sum_nonneg(f, n - 1);
    }
}

pub proof fn lemma_sum_le(f: spec_fn(int) -> int, g: spec_fn(int) -> int, n: int)
    requires
        forall|i: int| 0 <= i < n ==> #[trigger] f(i) <= g(i),
    ensures
        sum(f, n) <= sum(g, n),
    decreases n,
{
    if n > 0 {
        lemma_sum_le(f, g, n - 1);
    }
}

/// Sums of pointwise sums.
pub proof fn lemma_sum_add(f: spec_fn(int) -> int, g: spec_fn(int) -> int, n: int)
    ensures
        sum(|i: int| f(i) + g(i), n) == sum(f, n) + sum(g, n),
    decreases n,
{
    if n > 0 {
        lemma_sum_add(f, g, n - 1);
    }
}

/// Changing one term changes the sum by the difference.
pub proof fn lemma_sum_change_one(f: spec_fn(int) -> int, g: spec_fn(int) -> int, n: int, m: int)
    requires
        0 <= m < n,
        forall|i: int| 0 <= i < n && i != m ==> #[trigger] f(i) == g(i),
    ensures
        sum(g, n) == sum(f, n) - f(m) + g(m),
    decreases n,
{
    if n - 1 == m {
        lemma_sum_congruent(f, g, n - 1);
    } else {
        lemma_sum_change_one(f, g, n - 1, m);
    }
}

/// Summing `f` over the values of a permutation is summing `f`.
pub proof fn lemma_sum_reindex(f: spec_fn(int) -> int, q: Seq<usize>, n: nat)
    requires
        is_permutation(q, n),
    ensures
        sum(|i: int| f(q[i] as int), n as int) == sum(f, n as int),
    decreases n,
{
    if n > 0 {
        let last = (n - 1) as int;
        assert(is_hit(q, n, last));
        let m = choose|i: int| 0 <= i < n && #[trigger] q[i] == last;
        let r = Seq::new((n - 1) as nat, |i: int| if i == m { q[last] } else { q[i] });
        assert(is_permutation(r, (n - 1) as nat)) by {
            assert forall|i: int| 0 <= i < n - 1 implies #[trigger] r[i] < n - 1 by {
                if i == m {
                    assert(q[last] != q[m]);
                } else {
                    assert(q[i] != q[m]);
                }
            }
            assert forall|j: int| 0 <= j < n - 1 implies #[trigger] is_hit(r, (n - 1) as nat, j) by {
                assert(is_hit(q, n, j));
                let i0 = choose|i: int| 0 <= i < n && #[trigger] q[i] == j;
                if i0 == last {
                    assert(r[m] == j);
                } else {
                    assert(i0 != m);
                    assert(r[i0] == j);
                }
            }
        }
        lemma_sum_reindex(f, r, (n - 1) as nat);
        let fq = |i: int| f(q[i] as int);
        let fr = |i: int| f(r[i] as int);
        if m < last {
            lemma_sum_change_one(fq, |i: int| if i == m { f(q[last] as int) } else { fq(i) }, last, m);
            lemma_sum_congruent(fr, |i: int| if i == m { f(q[last] as int) } else { fq(i) }, last);
        } else {
            lemma_sum_congruent(fr, fq, last);
        }
    }
}

pub proof fn lemma_identity_is_permutation(k: nat)
    requires
        k <= usize::MAX,
    ensures
        is_permutation(identity(k), k),
{
    let p = identity(k);
    assert forall|j: int| 0 <= j < k implies #[trigger] is_hit(p, k, j) by {
        assert(p[j] == j);
    }
}

pub proof fn lemma_inverse(p: Seq<usize>, k: nat)
    requires
        is_permutation(p, k),
        k <= usize::MAX,
    ensures
        is_permutation(inverse(p, k), k),
        forall|j: int| 0 <= j < k ==> #[trigger] p[inverse(p, k)[j] as int] == j,
        forall|i: int| 0 <= i < k ==> #[trigger] inverse(p, k)[p[i] as int] == i,
{
    let q = inverse(p, k);
    assert forall|j: int| 0 <= j < k implies #[trigger] p[q[j] as int] == j && 0 <= q[j] < k by {
        assert(is_hit(p, k, j));
        let i0 = choose|i: int| 0 <= i < k && #[trigger] p[i] == j;
    }
    assert forall|i: int| 0 <= i < k implies #[trigger] q[p[i] as int] == i by {
        let j = p[i] as int;
        assert(p[q[j] as int] == j);
    }
    assert forall|j: int| 0 <= j < k implies #[trigger] q[j] < k by {
        assert(p[q[j] as int] == j);
    }
    assert forall|i: int, j: int| 0 <= i < k && 0 <= j < k && i != j implies q[i] != q[j] by {
        assert(p[q[i] as int] == i);
        assert(p[q[j] as int] == j);
    }
    assert forall|i: int| 0 <= i < k implies #[trigger] is_hit(q, k, i) by {
        assert(p[i] < k);
        assert(q[p[i] as int] == i);
    }
}

pub proof fn lemma_compose(p: Seq<usize>, q: Seq<usize>, k: nat)
    requires
        is_permutation(p, k),
        is_permutation(q, k),
    ensures
        is_permutation(compose(p, q), k),
{
    let r = compose(p, q);
    assert forall|j: int| 0 <= j < k implies #[trigger] is_hit(r, k, j) by {
        assert(is_hit(p, k, j));
        let a = choose|i: int| 0 <= i < k && #[trigger] p[i] == j;
        assert(is_hit(q, k, a));
        let b = choose|i: int| 0 <= i < k && #[trigger] q[i] == a;
        assert(r[b] == j);
    }
    assert forall|i: int, j: int| 0 <= i < k && 0 <= j < k && i != j implies r[i] != r[j] by {
        assert(q[i] != q[j]);
    }
}

/// The inverse of permutation `p` of `0..p.len()`: position `p[i]` holds `i`.
pub fn inverse_matching(p: &Vec<usize>) -> (r: Vec<usize>)
    requires
        is_permutation(p@, p@.len()),
    ensures
        is_permutation(r@, p@.len()),
        forall|j: int| 0 <= j < p@.len() ==> #[trigger] p@[r@[j] as int] == j,
        forall|i: int| 0 <= i < p@.len() ==> #[trigger] r@[p@[i] as int] == i,
{
    let k = p.len();
    let mut r: Vec<usize> = vec![0; k];
    let mut i: usize = 0;
    while i < k
        invariant
            k == p@.len(),
            is_permutation(p@, k as nat),
            r@.len() == k,
            i <= k,
            forall|i2: int| 0 <= i2 < i ==> #[trigger] r@[p@[i2] as int] == i2,
        decreases k - i,
    {
        let ghost before = r@;
        r.set(p[i], i);
        proof {
            assert forall|i2: int| 0 <= i2 < i + 1 implies #[trigger] r@[p@[i2] as int] == i2 by {
                if i2 < i {
                    assert(p@[i2] != p@[i as int]);
                    assert(r@[p@[i2] as int] == before[p@[i2] as int]);
                }
            }
        }
        i = i + 1;
    }
    proof {
        assert forall|j: int| 0 <= j < k implies #[trigger] p@[r@[j] as int] == j && r@[j] < k by {
            assert(is_hit(p@, k as nat, j));
            let i0 = choose|i0: int| 0 <= i0 < k && #[trigger] p@[i0] == j;
            assert(r@[p@[i0] as int] == i0);
        }
        assert forall|a: int| 0 <= a < k implies #[trigger] r@[a] < k by {
            assert(p@[r@[a] as int] == a);
        }
        assert forall|a: int, b: int| 0 <= a < k && 0 <= b < k && a != b implies r@[a] != r@[b] by {
            assert(p@[r@[a] as int] == a);
            assert(p@[r@[b] as int] == b);
        }
        assert forall|a: int| 0 <= a < k implies #[trigger] is_hit(r@, k as nat, a) by {
            assert(p@[a] < k);
            assert(r@[p@[a] as int] == a);
        }
    }
    r
}

} // verus!
