use zk_torch_2::basicblock::einsum::{
    broadcast_evals_by_doubling, char_to_range, classify_einsum_indices_from_shapes,
    einsum_helper, einsum_output_shape, invert_points_by_ranges, permute_evals_by_ranges,
    sum_over_suffix, EinsumShapeError,
};
use zk_torch_2::util::field::Fe;
use zk_torch_2::util::poly::DenseMLPoly;

fn fes(v: &[u64]) -> Vec<Fe> {
    v.iter().map(|x| Fe::from_u64(*x)).collect()
}

fn chars(s: &str) -> Vec<char> {
    s.chars().collect()
}

#[test]
fn permute_moves_variables() {
    let evals: Vec<u64> = (0..8).collect();
    // new variable order: old 1, old 2, old 0
    let out = permute_evals_by_ranges(&evals, 3, &[(1, 3), (0, 1)]);
    assert_eq!(out, vec![0, 2, 4, 6, 1, 3, 5, 7]);
    // the identity order keeps the table
    let same = permute_evals_by_ranges(&evals, 3, &[(0, 2), (2, 3)]);
    assert_eq!(same, evals);
}

#[test]
fn invert_maps_point_back() {
    let x = invert_points_by_ranges(&[10u64, 20, 30], &[(1, 3), (0, 1)]);
    assert_eq!(x, vec![30, 10, 20]);
}

#[test]
fn reordered_table_agrees_at_inverted_point() {
    let evals = fes(&[3, 1, 4, 1, 5, 9, 2, 6]);
    let ranges = [(2usize, 3usize), (0, 2)];
    let out = permute_evals_by_ranges(&evals, 3, &ranges);
    let y = fes(&[7, 11, 13]);
    let x = invert_points_by_ranges(&y, &ranges);
    let a = DenseMLPoly::new(3, out).evaluate_at_point(&y);
    let b = DenseMLPoly::new(3, evals).evaluate_at_point(&x);
    assert_eq!(a.canonical(), b.canonical());
}

#[test]
fn broadcast_repeats_table() {
    assert_eq!(broadcast_evals_by_doubling(&[1u8, 2], 2), vec![1, 2, 1, 2, 1, 2, 1, 2]);
    assert_eq!(broadcast_evals_by_doubling(&[5u8], 0), vec![5]);
}

#[test]
fn sum_over_suffix_sums_high_variables() {
    let evals = fes(&[0, 1, 2, 3, 4, 5, 6, 7]);
    let out = sum_over_suffix(&evals, 3, 1);
    let got: Vec<u64> = out.iter().map(|f| f.canonical()).collect();
    assert_eq!(got, vec![12, 16]);
    let all = sum_over_suffix(&evals, 3, 0);
    assert_eq!(all[0].canonical(), 28);
    let none = sum_over_suffix(&evals, 3, 3);
    assert_eq!(none.len(), 8);
    assert_eq!(none[5].canonical(), 5);
}

#[test]
fn classify_matrix_product() {
    let (cls, specs, out) = classify_einsum_indices_from_shapes("ij,jk->ik");
    assert_eq!(cls.free_once, chars("ik"));
    assert!(cls.free_multi.is_empty());
    assert_eq!(cls.summation, chars("j"));
    assert_eq!(specs, vec![chars("ij"), chars("jk")]);
    assert_eq!(out, chars("ik"));
}

#[test]
fn classify_batched_and_trimmed() {
    let (cls, specs, out) = classify_einsum_indices_from_shapes(" bij , bjk -> bik ");
    assert_eq!(cls.free_once, chars("ik"));
    assert_eq!(cls.free_multi, chars("b"));
    assert_eq!(cls.summation, chars("j"));
    assert_eq!(specs, vec![chars("bij"), chars("bjk")]);
    assert_eq!(out, chars("bik"));
}

#[test]
fn char_ranges_pad_dimensions() {
    let m = char_to_range(&['i', 'j'], &[3, 4]);
    assert_eq!(m.get(&'i'), Some((0, 2)));
    assert_eq!(m.get(&'j'), Some((2, 4)));
    assert!(!m.contains_key(&'k'));
    // a repeated label keeps its last range
    let d = char_to_range(&['i', 'i'], &[2, 8]);
    assert_eq!(d.get(&'i'), Some((1, 4)));
}

#[test]
fn output_shape_of_equations() {
    let shapes = vec![vec![2, 3], vec![3, 4]];
    assert_eq!(einsum_output_shape("ij,jk->ik", &shapes), Ok(vec![2, 4]));
    assert_eq!(einsum_output_shape("ij,jk->ki", &shapes), Ok(vec![4, 2]));
    // without an arrow: the indices that occur once, in order
    assert_eq!(einsum_output_shape("ij,jk", &shapes), Ok(vec![2, 4]));
}

#[test]
fn output_shape_errors() {
    assert_eq!(
        einsum_output_shape("ij->i", &[vec![2, 3], vec![3]]),
        Err(EinsumShapeError::InputCountMismatch)
    );
    assert_eq!(
        einsum_output_shape("ij,jk->ik", &[vec![2, 3], vec![3]]),
        Err(EinsumShapeError::RankMismatch { term: 1 })
    );
    assert_eq!(
        einsum_output_shape("ij,jk->ik", &[vec![2, 3], vec![5, 4]]),
        Err(EinsumShapeError::DimensionConflict { index: 'j', previous: 3, dim: 5 })
    );
    assert_eq!(
        einsum_output_shape("ij->ik", &[vec![2, 3]]),
        Err(EinsumShapeError::UnknownOutputIndex { index: 'k' })
    );
}

#[test]
fn helper_for_matrix_product() {
    let shapes = vec![vec![2, 4], vec![4, 8], vec![2, 8]];
    let point = [10u64, 11, 12, 13];
    let (perm, deg1, high, rounds) = einsum_helper("ij,jk->ik", &shapes, &point);
    assert_eq!(perm, vec![vec![(0, 1), (1, 3)], vec![(2, 5), (0, 2)]]);
    assert_eq!(deg1, vec![vec![10], vec![11, 12, 13]]);
    assert!(high.is_empty());
    assert_eq!(rounds, 2);
}

#[test]
fn helper_for_batched_product() {
    let shapes = vec![vec![2, 2, 4], vec![2, 4, 2], vec![2, 2, 2]];
    let point = [1u64, 2, 3];
    let (perm, deg1, high, rounds) = einsum_helper("bij,bjk->bik", &shapes, &point);
    // labels: free once i, k; free multi b; summation j
    assert_eq!(perm, vec![vec![(1, 2), (0, 1), (2, 4)], vec![(3, 4), (0, 1), (1, 3)]]);
    assert_eq!(deg1, vec![vec![2], vec![3]]);
    assert_eq!(high, vec![1]);
    assert_eq!(rounds, 2);
}

#[test]
fn summed_table_extends_to_sum_over_corners() {
    let evals = fes(&[3, 1, 4, 1, 5, 9, 2, 6]);
    let out = sum_over_suffix(&evals, 3, 1);
    let x = Fe::from_u64(12345);
    let lhs = DenseMLPoly::new(1, out).evaluate_at_point(&[x]);
    let full = DenseMLPoly::new(3, evals);
    let mut rhs = Fe::zero();
    for k in 0..4u64 {
        let point = [x, Fe::from_u64(k & 1), Fe::from_u64(k >> 1)];
        rhs = rhs.add(&full.evaluate_at_point(&point));
    }
    assert_eq!(lhs.canonical(), rhs.canonical());
}
