use zk_torch_2::crypto::sumcheck::table_committer::TableCommitter;
use zk_torch_2::basicblock::spmv::{evaluate_sparse_at_point, SpMV};
use zk_torch_2::crypto::{ProveContext, SumcheckProof};
use zk_torch_2::dag::Claim;
use zk_torch_2::util::field::{Fe, MODULUS};
use zk_torch_2::util::poly::{evaluate_lagrange_basis, evaluate_lagrange_single, fix_variables_from_right, DenseMLPoly};
use zk_torch_2::util::transcript::Transcript;

fn fe(v: u64) -> Fe {
    Fe::from_u64(v)
}

fn vals(v: &[Fe]) -> Vec<u64> {
    v.iter().map(|x| x.canonical()).collect()
}

/// A 4x4 sparse matrix (some edges without a stored weight) and a dense
/// 4x2 input, features slowest.
fn example() -> (Vec<(usize, usize)>, Vec<Option<Fe>>, Vec<Fe>) {
    let edges = vec![(0usize, 1usize), (1, 0), (2, 3), (3, 3), (1, 2), (0, 0)];
    let weights = vec![Some(fe(3)), None, Some(fe(5)), Some(fe(7)), None, Some(fe(2))];
    let h: Vec<Fe> = [11u64, 13, 17, 19, 23, 29, 31, 37].iter().map(|v| fe(*v)).collect();
    (edges, weights, h)
}

fn out_claim(spmv: &SpMV, edges: &[(usize, usize)], weights: &[Option<Fe>], h: &[Fe], point: &[Fe]) -> Claim {
    let z = spmv.run(edges, weights, h, 2);
    let nv = if spmv.transpose { spmv.num_cols_log } else { spmv.num_rows_log } + 1;
    let eval = DenseMLPoly::new(nv, z).evaluate_at_point(point);
    Claim { edge_id: 7, sparse_id: 0, point: point.to_vec(), eval }
}

#[test]
fn adjacency_partial_eval_binds_output_rows() {
    // S is 2x2 with S[0][1] = 3 and S[1][0] = 1 (no stored weight)
    let edges = [(0usize, 1usize), (1, 0)];
    let weights = [Some(fe(3)), None];
    let spmv = SpMV { num_rows_log: 1, num_cols_log: 1, transpose: false };
    // rows bound at r = 5: L_0(5) = 1 - 5, L_1(5) = 5
    let adj = spmv.adjacency_partial_eval(&edges, &weights, &[fe(5)]);
    assert_eq!(vals(&adj), vec![5, MODULUS - 12]);
    // transposed: the columns are bound, the rows are summed
    let spmv_t = SpMV { num_rows_log: 1, num_cols_log: 1, transpose: true };
    let adj_t = spmv_t.adjacency_partial_eval(&edges, &weights, &[fe(5)]);
    assert_eq!(vals(&adj_t), vec![15, MODULUS - 4]);
    // on the hypercube, binding row 0 gives row 0 of S
    let row0 = spmv.adjacency_partial_eval(&edges, &weights, &[fe(0)]);
    assert_eq!(vals(&row0), vec![0, 3]);
}

#[test]
fn adjacency_evaluation_modes_agree() {
    let (edges, weights, _) = example();
    for transpose in [false, true] {
        let spmv = SpMV { num_rows_log: 2, num_cols_log: 2, transpose };
        let point = [fe(7), fe(11)];
        let per_edge = spmv.adjacency_partial_eval(&edges, &weights, &point);
        let by_basis = spmv.adjacency_partial_eval_by_basis(&edges, &weights, &point);
        assert_eq!(vals(&per_edge), vals(&by_basis));
    }
    // the 2x2 example: rows bound at 5
    let spmv = SpMV { num_rows_log: 1, num_cols_log: 1, transpose: false };
    let adj = spmv.adjacency_partial_eval_by_basis(&[(0, 1), (1, 0)], &[Some(fe(3)), None], &[fe(5)]);
    assert_eq!(vals(&adj), vec![5, MODULUS - 12]);
}

#[test]
fn sparse_evaluation_on_the_hypercube_reads_the_weight() {
    let edges = [(0usize, 1usize), (1, 0)];
    let weights = [Some(fe(3)), None];
    // point (row bit, column bit)
    assert_eq!(evaluate_sparse_at_point(&edges, &weights, 1, 1, &[fe(0), fe(1)]).canonical(), 3);
    assert_eq!(evaluate_sparse_at_point(&edges, &weights, 1, 1, &[fe(1), fe(0)]).canonical(), 1);
    assert_eq!(evaluate_sparse_at_point(&edges, &weights, 1, 1, &[fe(1), fe(1)]).canonical(), 0);
    // at (r, s): 3·(1 - r)·s + r·(1 - s)
    let v = evaluate_sparse_at_point(&edges, &weights, 1, 1, &[fe(2), fe(3)]).canonical();
    assert_eq!(v, MODULUS - 13);
}

#[test]
fn fix_variables_from_right_binds_the_last_variables() {
    let h = DenseMLPoly::new(2, vec![fe(1), fe(2), fe(3), fe(4)]);
    assert_eq!(vals(&fix_variables_from_right(&h, &[fe(0)]).evaluations), vec![1, 2]);
    assert_eq!(vals(&fix_variables_from_right(&h, &[fe(1)]).evaluations), vec![3, 4]);
    // halfway: the mean of the two halves
    let half = fe(2).inverse().unwrap();
    assert_eq!(vals(&fix_variables_from_right(&h, &[half]).evaluations), vec![2, 3]);
    // binding every variable evaluates the polynomial
    let all = fix_variables_from_right(&h, &[fe(5), fe(7)]);
    assert_eq!(all.evaluations.len(), 1);
    assert!(all.evaluations[0].equals(&h.evaluate_at_point(&[fe(5), fe(7)])));
}

fn prove_and_verify(transpose: bool) {
    let (edges, weights, h) = example();
    let spmv = SpMV { num_rows_log: 2, num_cols_log: 2, transpose };
    let point = [fe(3), fe(8), fe(21)];
    let out = out_claim(&spmv, &edges, &weights, &h, &point);
    let h_poly = DenseMLPoly::new(3, h.clone());
    let mut pt = Transcript::new(0x5370_4d56);
    let (proofs, claims) = spmv.prove(&edges, &weights, &h_poly, &[1, 2], &[out.clone()], &mut pt);
    assert_eq!(proofs.len(), 1);
    assert_eq!(claims.len(), 2);
    assert_eq!((claims[0].edge_id, claims[1].edge_id), (1, 2));
    // the claim on H is H at the challenges followed by the feature point
    assert!(claims[1].eval.equals(&h_poly.evaluate_at_point(&claims[1].point)));
    assert!(claims[1].point[2].equals(&fe(21)));
    // the claim on S is S at its point
    assert!(claims[0]
        .eval
        .equals(&evaluate_sparse_at_point(&edges, &weights, 2, 2, &claims[0].point)));
    let mut vt = Transcript::new(0x5370_4d56);
    let all = vec![claims[0].clone(), claims[1].clone(), out.clone()];
    assert!(spmv.verify(&all, &proofs, &mut vt));
    // a wrong output claim is rejected
    let mut bad = out.clone();
    bad.eval = bad.eval.add(&fe(1));
    let mut vt2 = Transcript::new(0x5370_4d56);
    let all_bad = vec![claims[0].clone(), claims[1].clone(), bad];
    assert!(!spmv.verify(&all_bad, &proofs, &mut vt2));
    // a wrong claim on H is rejected
    let mut bad_h = claims[1].clone();
    bad_h.eval = bad_h.eval.add(&fe(1));
    let mut vt3 = Transcript::new(0x5370_4d56);
    let all_bad_h = vec![claims[0].clone(), bad_h, out];
    assert!(!spmv.verify(&all_bad_h, &proofs, &mut vt3));
}

#[test]
fn spmv_proof_of_product_verifies() {
    prove_and_verify(false);
}

#[test]
fn spmv_proof_of_transposed_product_verifies() {
    prove_and_verify(true);
}

#[test]
fn spmv_zero_knowledge_proof_verifies() {
    let (edges, weights, h) = example();
    let spmv = SpMV { num_rows_log: 2, num_cols_log: 2, transpose: false };
    let point = [fe(4), fe(9), fe(6)];
    let out = out_claim(&spmv, &edges, &weights, &h, &point);
    let h_poly = DenseMLPoly::new(3, h.clone());
    for with_committer in [false, true] {
        let mut ctx: ProveContext<TableCommitter> = if with_committer {
            ProveContext::with_mask_committer(true, TableCommitter)
        } else {
            ProveContext::new(true)
        };
        let mut pt = Transcript::new(0x7a6b);
        let (proofs, claims) = spmv.prove_zk(&edges, &weights, &h_poly, &[1, 2], &[out.clone()], &mut pt, &mut ctx);
        let proof: &SumcheckProof = &proofs[0];
        assert!(proof.zk_mask_sum.is_some());
        assert_eq!(proof.zk_mask_commitment.is_some(), with_committer);
        let mut vt = Transcript::new(0x7a6b);
        let all = vec![claims[0].clone(), claims[1].clone(), out.clone()];
        assert!(spmv.verify_zk(&all, &proofs, &mut vt, &ctx));
        let mut bad = out.clone();
        bad.eval = bad.eval.add(&fe(1));
        let mut vt2 = Transcript::new(0x7a6b);
        let all_bad = vec![claims[0].clone(), claims[1].clone(), bad];
        assert!(!spmv.verify_zk(&all_bad, &proofs, &mut vt2, &ctx));
    }
}

#[test]
fn spmv_prove_zk_without_zk_is_prove() {
    let (edges, weights, h) = example();
    let spmv = SpMV { num_rows_log: 2, num_cols_log: 2, transpose: true };
    let point = [fe(2), fe(2), fe(2)];
    let out = out_claim(&spmv, &edges, &weights, &h, &point);
    let h_poly = DenseMLPoly::new(3, h);
    let mut ctx: ProveContext<TableCommitter> = ProveContext::new(false);
    let mut t1 = Transcript::new(9);
    let (p1, c1) = spmv.prove_zk(&edges, &weights, &h_poly, &[0, 1], &[out.clone()], &mut t1, &mut ctx);
    let mut t2 = Transcript::new(9);
    let (p2, c2) = spmv.prove(&edges, &weights, &h_poly, &[0, 1], &[out.clone()], &mut t2);
    assert!(p1[0].zk_mask_sum.is_none());
    assert_eq!(p1[0].round_messages.len(), p2[0].round_messages.len());
    for (a, b) in p1[0].round_messages.iter().zip(p2[0].round_messages.iter()) {
        assert_eq!(vals(a), vals(b));
    }
    assert!(c1[0].eval.equals(&c2[0].eval) && c1[1].eval.equals(&c2[1].eval));
    let mut vt = Transcript::new(9);
    assert!(spmv.verify_zk(&[c1[0].clone(), c1[1].clone(), out], &p1, &mut vt, &ctx));
}

#[test]
fn lagrange_basis_values_sum_to_one() {
    let r = [fe(2), fe(3)];
    // idx 1 = (bit0 = 1, bit1 = 0): 2 · (1 - 3) = -4
    assert_eq!(evaluate_lagrange_single(&r, 1).canonical(), MODULUS - 4);
    let basis = evaluate_lagrange_basis(&r);
    let mut sum = Fe::zero();
    for idx in 0..4usize {
        let v = evaluate_lagrange_single(&r, idx);
        assert!(v.equals(&basis[idx]));
        sum = sum.add(&v);
    }
    assert_eq!(sum.canonical(), 1);
}
