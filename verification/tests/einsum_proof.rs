use zk_torch_2::crypto::sumcheck::table_committer::TableCommitter;
use zk_torch_2::basicblock::einsum::Einsum;
use zk_torch_2::crypto::ProveContext;
use zk_torch_2::dag::Claim;
use zk_torch_2::util::field::Fe;
use zk_torch_2::util::poly::DenseMLPoly;
use zk_torch_2::util::transcript::Transcript;

fn fe(v: u64) -> Fe {
    Fe::from_u64(v)
}

/// 2x2 matrices stored first index fastest: entry (r, c) at r + 2·c.
fn matmul(a: &[u64], b: &[u64]) -> Vec<u64> {
    let mut z = vec![0u64; 4];
    for i in 0..2 {
        for k in 0..2 {
            let mut s = 0;
            for j in 0..2 {
                s += a[i + 2 * j] * b[j + 2 * k];
            }
            z[i + 2 * k] = s;
        }
    }
    z
}

fn poly(v: &[u64]) -> DenseMLPoly {
    DenseMLPoly::new(2, v.iter().map(|x| fe(*x)).collect())
}

fn check_round_trip(equation: &str, a: &[u64], b: &[u64], z: &[u64], point: &[Fe]) {
    let ein = Einsum { equation: equation.to_string() };
    let shapes = vec![vec![2usize, 2], vec![2, 2], vec![2, 2]];
    let inputs = vec![poly(a), poly(b)];
    let out = Claim { edge_id: 9, sparse_id: 0, point: point.to_vec(), eval: poly(z).evaluate_at_point(point) };
    let mut pt = Transcript::new(0x65696e);
    let (proofs, claims) = ein.prove(&shapes, &inputs, &[3, 4], &[out.clone()], &mut pt);
    assert_eq!(proofs.len(), 1);
    assert_eq!(claims.len(), 2);
    assert_eq!((claims[0].edge_id, claims[1].edge_id), (3, 4));
    // each claim is the input's value at the claimed point
    for (c, p) in claims.iter().zip(inputs.iter()) {
        assert!(c.eval.equals(&p.evaluate_at_point(&c.point)));
    }
    let mut vt = Transcript::new(0x65696e);
    let all = vec![claims[0].clone(), claims[1].clone(), out.clone()];
    assert!(ein.verify(&shapes, &all, &proofs, &mut vt));
    let mut bad = out.clone();
    bad.eval = bad.eval.add(&fe(1));
    let mut vt2 = Transcript::new(0x65696e);
    assert!(!ein.verify(&shapes, &[claims[0].clone(), claims[1].clone(), bad], &proofs, &mut vt2));
    // zero-knowledge mode, with a mask committer
    let mut ctx: ProveContext<TableCommitter> = ProveContext::with_mask_committer(true, TableCommitter);
    let mut zt = Transcript::new(0x7a6b);
    let (zproofs, zclaims) = ein.prove_zk(&shapes, &inputs, &[3, 4], &[out.clone()], &mut zt, &mut ctx);
    assert!(zproofs[0].zk_mask_sum.is_some());
    for (c, p) in zclaims.iter().zip(inputs.iter()) {
        assert!(c.eval.equals(&p.evaluate_at_point(&c.point)));
    }
    let mut zvt = Transcript::new(0x7a6b);
    let zall = vec![zclaims[0].clone(), zclaims[1].clone(), out];
    assert!(ein.verify_zk(&shapes, &zall, &zproofs, &mut zvt, &ctx));
}

#[test]
fn einsum_matrix_product_proof_verifies() {
    let a = [1u64, 2, 3, 4];
    let b = [5u64, 6, 7, 8];
    let z = matmul(&a, &b);
    check_round_trip("ij,jk->ik", &a, &b, &z, &[fe(3), fe(11)]);
}

#[test]
fn einsum_elementwise_product_proof_verifies() {
    let a = [1u64, 2, 3, 4];
    let b = [5u64, 6, 7, 8];
    let z: Vec<u64> = a.iter().zip(b.iter()).map(|(x, y)| x * y).collect();
    check_round_trip("ij,ij->ij", &a, &b, &z, &[fe(7), fe(2)]);
}
