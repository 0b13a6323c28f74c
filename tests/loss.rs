use fangs::cost::{make_weight_matrix, Asymmetry};
use fangs::loss::{loss, loss_by_permutations, pairwise_loss, pairwise_loss_with_assignment};
use fangs::matrix::{drop_empty_columns, BinaryMatrix};

fn mat(rows: &[&[u8]]) -> BinaryMatrix {
    let n = rows.len();
    let k = if n == 0 { 0 } else { rows[0].len() };
    let mut bits = Vec::new();
    for c in 0..k {
        for r in 0..n {
            bits.push(rows[r][c] != 0);
        }
    }
    BinaryMatrix::from_column_major(n, bits).unwrap()
}

fn empty_cols(n: usize) -> BinaryMatrix {
    BinaryMatrix::from_column_major(n, Vec::new()).unwrap()
}

fn sym() -> Asymmetry {
    Asymmetry::new(1, 1).unwrap()
}

fn permute(m: &BinaryMatrix, perm: &[usize]) -> BinaryMatrix {
    let mut bits = Vec::new();
    for &src in perm {
        for r in 0..m.n_rows() {
            bits.push(m.get(r, src));
        }
    }
    BinaryMatrix::from_column_major(m.n_rows(), bits).unwrap()
}

fn all_perms(k: usize) -> Vec<Vec<usize>> {
    if k == 0 {
        return vec![vec![]];
    }
    let mut out = Vec::new();
    for p in all_perms(k - 1) {
        for pos in 0..=p.len() {
            let mut q = p.clone();
            q.insert(pos, k - 1);
            out.push(q);
        }
    }
    out
}

fn direct_min(m1: &BinaryMatrix, m2: &BinaryMatrix, w: Asymmetry) -> u64 {
    let k = m1.n_cols().max(m2.n_cols());
    let mut best = u64::MAX;
    for p in all_perms(k) {
        let mut total = 0u64;
        for i in 0..k {
            for r in 0..m1.n_rows() {
                let x = m1.get(r, i);
                let y = m2.get(r, p[i]);
                if x && !y {
                    total += w.over();
                } else if !x && y {
                    total += w.under();
                }
            }
        }
        best = best.min(total);
    }
    best
}

#[test]
fn single_cell_loss_is_one() {
    let m1 = mat(&[&[0]]);
    let m2 = mat(&[&[1]]);
    let (v, p) = pairwise_loss_with_assignment(&m1, &m2, sym()).unwrap();
    assert_eq!(v, 1);
    assert_eq!(p, vec![0]);
    assert_eq!(pairwise_loss(&m1, &m2, sym()), Some(1));
}

#[test]
fn loss_to_self_is_zero() {
    let m = mat(&[&[1, 0, 1], &[0, 1, 1], &[1, 1, 0], &[0, 0, 0]]);
    for (a, scale) in [(1u32, 1u32), (1, 4), (7, 4)] {
        let w = Asymmetry::new(a, scale).unwrap();
        assert_eq!(pairwise_loss(&m, &m, w), Some(0));
    }
}

#[test]
fn loss_ignores_column_order() {
    let m1 = mat(&[&[1, 0, 1], &[0, 1, 1], &[1, 1, 0]]);
    let m2 = mat(&[&[0, 1, 1, 0], &[1, 1, 0, 0], &[0, 0, 1, 1]]);
    let w = Asymmetry::new(3, 4).unwrap();
    let base = pairwise_loss(&m1, &m2, w).unwrap();
    for p in all_perms(4) {
        assert_eq!(pairwise_loss(&m1, &permute(&m2, &p), w), Some(base));
    }
    for p in all_perms(3) {
        assert_eq!(pairwise_loss(&permute(&m1, &p), &m2, w), Some(base));
    }
}

#[test]
fn loss_swaps_with_asymmetry() {
    let m1 = mat(&[&[1, 0], &[1, 1], &[0, 0]]);
    let m2 = mat(&[&[0, 1, 1], &[1, 0, 0], &[1, 0, 1]]);
    let w = Asymmetry::new(1, 4).unwrap();
    let l12 = pairwise_loss(&m1, &m2, w).unwrap();
    let l21 = pairwise_loss(&m2, &m1, w.swapped()).unwrap();
    assert_eq!(l12, l21);
    assert_eq!(w.swapped().over(), 7);
    assert_eq!(w.swapped().under(), 1);
}

#[test]
fn asymmetric_weights_count_each_direction() {
    // one cell 1 in the estimate and 0 in the draw costs `over`
    let w = Asymmetry::new(1, 4).unwrap();
    assert_eq!(pairwise_loss(&mat(&[&[1]]), &mat(&[&[0]]), w), Some(1));
    assert_eq!(pairwise_loss(&mat(&[&[0]]), &mat(&[&[1]]), w), Some(7));
}

#[test]
fn solver_matches_exhaustive_search() {
    let cases = [
        (mat(&[&[1, 0, 1, 1], &[0, 1, 1, 0], &[1, 1, 0, 0], &[0, 0, 1, 1]]),
         mat(&[&[0, 1, 1, 0, 1], &[1, 0, 0, 1, 0], &[0, 1, 1, 0, 0], &[1, 1, 0, 1, 1]])),
        (mat(&[&[1, 1], &[0, 1], &[1, 0]]), mat(&[&[0, 0, 1], &[1, 1, 1], &[1, 0, 0]])),
        (mat(&[&[1, 0, 0, 1, 1]]), mat(&[&[0, 1, 1, 0, 1]])),
    ];
    for (a, scale) in [(1u32, 1u32), (1, 3), (5, 3)] {
        let w = Asymmetry::new(a, scale).unwrap();
        for (m1, m2) in cases.iter() {
            let solved = pairwise_loss(m1, m2, w).unwrap();
            let exhaustive = loss_by_permutations(m1, m2, w).unwrap();
            assert_eq!(solved, exhaustive);
            assert_eq!(solved, direct_min(m1, m2, w));
        }
    }
}

#[test]
fn empty_matrices_have_zero_loss() {
    let m1 = empty_cols(3);
    let m2 = empty_cols(3);
    assert_eq!(pairwise_loss(&m1, &m2, sym()), Some(0));
    let (v, p) = pairwise_loss_with_assignment(&m1, &m2, sym()).unwrap();
    assert_eq!(v, 0);
    assert!(p.is_empty());
    assert_eq!(loss_by_permutations(&m1, &m2, sym()), Some(0));
}

#[test]
fn missing_columns_read_as_zero() {
    let m1 = mat(&[&[1, 1], &[1, 0]]);
    let m2 = empty_cols(2);
    // three ones, each costing `over`
    let w = Asymmetry::new(3, 2).unwrap();
    assert_eq!(pairwise_loss(&m1, &m2, w), Some(9));
    assert_eq!(pairwise_loss(&m2, &m1, w), Some(3));
}

#[test]
fn assignment_attains_the_loss() {
    let m1 = mat(&[&[1, 0, 0], &[0, 1, 0], &[0, 0, 1]]);
    let m2 = mat(&[&[0, 0, 1], &[1, 0, 0], &[0, 1, 0]]);
    let (v, p) = pairwise_loss_with_assignment(&m1, &m2, sym()).unwrap();
    assert_eq!(v, 0);
    assert_eq!(p, vec![2, 0, 1]);
}

#[test]
fn weight_matrix_entries() {
    let m1 = mat(&[&[1, 0], &[1, 1]]);
    let m2 = mat(&[&[0], &[1]]);
    let w = Asymmetry::new(1, 2).unwrap();
    let c = make_weight_matrix(&m1, &m2, w).unwrap();
    assert_eq!(c.side_len(), 2);
    // over = 1, under = 3; the second column of m2 reads as zeros
    assert_eq!(c.entries(), &vec![1, 2, 0, 1]);
    assert_eq!(loss(&c), 2);
    assert!(make_weight_matrix(&empty_cols(2), &empty_cols(2), w).is_none());
}

#[test]
fn invalid_asymmetry_is_rejected() {
    assert!(Asymmetry::new(0, 1).is_none());
    assert!(Asymmetry::new(2, 1).is_none());
    assert!(Asymmetry::new(5, 2).is_none());
    assert!(Asymmetry::new(1, 0).is_none());
    let w = Asymmetry::new(3, 2).unwrap();
    assert_eq!((w.over(), w.under()), (3, 1));
}

#[test]
fn drop_empty_columns_keeps_order() {
    let m = mat(&[&[0, 1, 0, 1], &[0, 0, 0, 1]]);
    let out = drop_empty_columns(&m);
    assert_eq!(out.n_cols(), 2);
    assert_eq!(out.n_rows(), 2);
    assert!(out.get(0, 0) && !out.get(1, 0));
    assert!(out.get(0, 1) && out.get(1, 1));
    let z = drop_empty_columns(&mat(&[&[0, 0]]));
    assert_eq!(z.n_cols(), 0);
}

#[test]
fn matrix_shape_checks() {
    assert!(BinaryMatrix::from_column_major(2, vec![true, false, true]).is_none());
    assert!(BinaryMatrix::from_column_major(0, vec![true]).is_none());
    let z = BinaryMatrix::zeros(3, 2).unwrap();
    assert_eq!(z.n_cells(), 6);
    assert!(!z.get(2, 1));
    assert!(!z.get(0, 7));
    assert!(BinaryMatrix::zeros(usize::MAX, 2).is_none());
    let mut m = z.copy();
    m.flip(1, 1);
    assert!(m.get(1, 1));
    m.flip(1, 1);
    assert!(!m.get(1, 1));
}
