use zk_torch_2::crypto::sumcheck::table_committer::TableCommitter;
use rand::Rng;
use zk_torch_2::crypto::polycommit::{Commitment, MLPolyCommit, NaiveMLPolyCommit};
use zk_torch_2::crypto::sumcheck::prover::absorb_round;
use zk_torch_2::crypto::{
    eval_univariate, recompute_mask_eval, recompute_mask_sum, replay_mask_opening_transcript,
    verify_mask_consistency, GeneralLinearSumcheckProver, LinearSumcheckProver, MaskCommitter,
    ProveContext, SumcheckProof,
    SumcheckProver, SumcheckVerifier, ZkLinearSumcheckProver,
};
use zk_torch_2::crypto::sumcheck::zk_linear_prover::pack_mask_coeffs;
use zk_torch_2::util::field::{Fe, MODULUS};
use zk_torch_2::util::poly::DenseMLPoly;
use zk_torch_2::util::transcript::{
    Transcript, LABEL_MASK_OPEN, LABEL_MASK_SUM, LABEL_NUM_POLY, LABEL_NUM_VAR, LABEL_RHO,
};

/// A transcript label from up to eight bytes, little-endian.
fn label(bytes: &[u8]) -> u64 {
    let mut w = 0u64;
    for (i, b) in bytes.iter().take(8).enumerate() {
        w |= (*b as u64) << (8 * i);
    }
    w
}

fn rand_fe(rng: &mut impl Rng) -> Fe {
    Fe { v: rng.gen_range(0..MODULUS) }
}

fn rand_polys(n: usize, num_polys: usize) -> Vec<DenseMLPoly> {
    let mut rng = rand::thread_rng();
    let size = 1usize << n;
    (0..num_polys)
        .map(|_| DenseMLPoly::new(n, (0..size).map(|_| rand_fe(&mut rng)).collect()))
        .collect()
}

/// Σ_{x∈{0,1}^n} Π_i p_i(x), directly.
fn brute_force_sum(polys: &[DenseMLPoly]) -> Fe {
    let size = polys[0].evaluations.len();
    let mut sum = Fe::zero();
    for x in 0..size {
        let mut prod = Fe::one();
        for p in polys {
            prod = prod.mul(&p.evaluations[x]);
        }
        sum = sum.add(&prod);
    }
    sum
}

fn feq(a: &Fe, b: &Fe) -> bool {
    a.equals(b)
}

#[test]
fn test_zk_sumcheck_prover() {
    let n = 4;
    let num_polys = 2;
    let polys = rand_polys(n, num_polys);
    let _expected_sum = brute_force_sum(&polys);

    let mut transcript = Transcript::new(label(b"test_zk"));
    let mut ctx: ProveContext<TableCommitter> = ProveContext::new(true);
    let mut prover = ZkLinearSumcheckProver::new(n, num_polys, &mut transcript);
    let proof = prover.prove_zk(&polys, &mut transcript, &mut ctx);

    assert!(proof.zk_mask_sum.is_some(), "mask_sum should be set");
    assert!(proof.zk_mask_coeffs.is_some(), "mask_coeffs should be set");
    assert_eq!(proof.round_messages.len(), n, "should have n rounds");

    let coeffs = proof.zk_mask_coeffs.as_ref().unwrap();
    assert_eq!(coeffs.len(), n, "should have n univariates");
    for si in coeffs {
        assert_eq!(si.len(), num_polys + 1, "each s_i should have degree+1 coefficients");
    }
    for (round, msg) in proof.round_messages.iter().enumerate() {
        assert_eq!(msg.len(), num_polys + 1, "round {} should have {} entries", round, num_polys + 1);
    }
}

#[test]
fn test_zk_mask_sum_consistency() {
    let n = 3;
    let num_polys = 2;
    let size = 1usize << n;
    let polys = rand_polys(n, num_polys);

    let mut transcript = Transcript::new(label(b"test_mask"));
    let mut ctx: ProveContext<TableCommitter> = ProveContext::new(true);
    let mut prover = ZkLinearSumcheckProver::new(n, num_polys, &mut transcript);
    let proof = prover.prove_zk(&polys, &mut transcript, &mut ctx);

    let coeffs = proof.zk_mask_coeffs.as_ref().unwrap();
    let mut brute_mask_sum = Fe::zero();
    for x in 0..size {
        let mut val = Fe::zero();
        for i in 0..n {
            let bit = (x >> i) & 1;
            let c = Fe::from_u32(bit as u32);
            val = val.add(&eval_univariate(&coeffs[i], &c));
        }
        brute_mask_sum = brute_mask_sum.add(&val);
    }
    assert!(feq(&brute_mask_sum, &proof.zk_mask_sum.unwrap()), "mask_sum should equal Σ p(x)");
}

#[test]
fn test_zk_round_message_consistency() {
    let n = 3;
    let num_polys = 2;
    let polys = rand_polys(n, num_polys);
    let expected_sum = brute_force_sum(&polys);

    let mut transcript = Transcript::new(label(b"test_round"));
    let mut ctx: ProveContext<TableCommitter> = ProveContext::new(true);
    let mut prover = ZkLinearSumcheckProver::new(n, num_polys, &mut transcript);
    let proof = prover.prove_zk(&polys, &mut transcript, &mut ctx);

    let mut v_transcript = Transcript::new(label(b"test_round"));
    v_transcript.append_u64(LABEL_NUM_VAR, n as u64);
    v_transcript.append_u64(LABEL_NUM_POLY, num_polys as u64);
    v_transcript.append_scalar(LABEL_MASK_SUM, &proof.zk_mask_sum.unwrap());
    let rho = v_transcript.challenge_scalar(LABEL_RHO);

    let adjusted_sum = expected_sum.add(&rho.mul(&proof.zk_mask_sum.unwrap()));
    let first_msg = &proof.round_messages[0];
    assert!(
        feq(&first_msg[0].add(&first_msg[1]), &adjusted_sum),
        "First round message should sum to adjusted_sum"
    );
}

#[test]
fn test_nonzk_proof_structure() {
    let n = 3;
    let num_polys = 2;
    let polys = rand_polys(n, num_polys);

    let mut transcript = Transcript::new(label(b"test_nonzk"));
    let mut prover = LinearSumcheckProver::new(n, num_polys, &mut transcript);
    let proof = prover.prove(&polys, &mut transcript);

    assert!(proof.zk_mask_sum.is_none());
    assert!(proof.zk_mask_coeffs.is_none());
    assert_eq!(proof.round_messages.len(), n);
}

/// Π_i p_i at `point`.
fn product_at(polys: &[DenseMLPoly], point: &[Fe]) -> Fe {
    let mut acc = Fe::one();
    for p in polys {
        acc = acc.mul(&p.evaluate_at_point(point));
    }
    acc
}

#[test]
fn honest_proof_is_accepted() {
    for (n, num_polys) in [(1usize, 1usize), (2, 2), (3, 3), (4, 2)] {
        let polys = rand_polys(n, num_polys);
        let h = brute_force_sum(&polys);
        let mut pt = Transcript::new(label(b"honest"));
        let mut prover = LinearSumcheckProver::new(n, num_polys, &mut pt);
        let proof = prover.prove(&polys, &mut pt);

        let mut vt = Transcript::new(label(b"honest"));
        let mut verifier = SumcheckVerifier::new(n, num_polys, &mut vt);
        let (claim, challenges) = verifier.verify(&mut vt, proof.round_messages.clone(), h);
        let claim = claim.expect("an honest proof is accepted");
        assert_eq!(challenges.len(), n);
        for (a, b) in challenges.iter().zip(prover.challenges.iter()) {
            assert!(feq(a, b), "verifier and prover derive the same challenges");
        }
        assert!(feq(&claim, &proof.final_eval), "final claim is the prover's final evaluation");
        assert!(feq(&claim, &product_at(&polys, &challenges)));
        assert_eq!(vt.log, pt.log, "transcripts end in the same state");
    }
}

#[test]
fn wrong_sum_is_rejected() {
    let polys = rand_polys(3, 2);
    let h = brute_force_sum(&polys);
    let mut pt = Transcript::new(label(b"wrong"));
    let mut prover = LinearSumcheckProver::new(3, 2, &mut pt);
    let proof = prover.prove(&polys, &mut pt);
    let mut vt = Transcript::new(label(b"wrong"));
    let mut verifier = SumcheckVerifier::new(3, 2, &mut vt);
    let (claim, challenges) = verifier.verify(&mut vt, proof.round_messages.clone(), h.add(&Fe::one()));
    assert!(claim.is_none());
    assert!(challenges.is_empty());
}

#[test]
fn malformed_round_messages_are_rejected() {
    let polys = rand_polys(2, 2);
    let h = brute_force_sum(&polys);
    let mut pt = Transcript::new(label(b"malformed"));
    let mut prover = LinearSumcheckProver::new(2, 2, &mut pt);
    let proof = prover.prove(&polys, &mut pt);

    // one round too few
    let mut vt = Transcript::new(label(b"malformed"));
    let mut verifier = SumcheckVerifier::new(2, 2, &mut vt);
    let mut short = proof.round_messages.clone();
    short.pop();
    assert!(verifier.verify(&mut vt, short, h).0.is_none());

    // a message of the wrong degree
    let mut vt = Transcript::new(label(b"malformed"));
    let mut verifier = SumcheckVerifier::new(2, 2, &mut vt);
    let mut long = proof.round_messages.clone();
    long[1].push(Fe::zero());
    assert!(verifier.verify(&mut vt, long, h).0.is_none());

    // a tampered second round
    let mut vt = Transcript::new(label(b"malformed"));
    let mut verifier = SumcheckVerifier::new(2, 2, &mut vt);
    let mut tampered = proof.round_messages.clone();
    tampered[1][0] = tampered[1][0].add(&Fe::one());
    assert!(verifier.verify(&mut vt, tampered, h).0.is_none());
}

#[test]
fn zk_proof_is_accepted_with_mask() {
    for with_committer in [false, true] {
        let n = 3;
        let num_polys = 2;
        let polys = rand_polys(n, num_polys);
        let h = brute_force_sum(&polys);
        let mut pt = Transcript::new(label(b"zk_accept"));
        let mut ctx = if with_committer {
            ProveContext::with_mask_committer(true, TableCommitter)
        } else {
            ProveContext::new(true)
        };
        let mut prover = ZkLinearSumcheckProver::new(n, num_polys, &mut pt);
        let proof = prover.prove_zk(&polys, &mut pt, &mut ctx);
        assert_eq!(proof.zk_mask_commitment.is_some(), with_committer);
        assert_eq!(proof.zk_mask_opening_point.is_some(), with_committer);

        let mut vt = Transcript::new(label(b"zk_accept"));
        let mut verifier = SumcheckVerifier::new(n, num_polys, &mut vt);
        let (claim, challenges, rho) = verifier.verify_zk(
            &mut vt,
            proof.round_messages.clone(),
            h,
            proof.zk_mask_sum.unwrap(),
            proof.zk_mask_commitment.as_deref(),
        );
        let claim = claim.expect("an honest zero-knowledge proof is accepted");
        assert!(feq(&claim, &proof.final_eval));
        let coeffs = proof.zk_mask_coeffs.as_ref().unwrap();
        let mask_eval = recompute_mask_eval(coeffs, &challenges);
        let expected = product_at(&polys, &challenges).add(&rho.mul(&mask_eval));
        assert!(feq(&claim, &expected), "final claim is g(r) + ρ·p(r)");
        assert!(feq(&recompute_mask_sum(coeffs), &proof.zk_mask_sum.unwrap()));
        let committer = TableCommitter;
        assert!(verify_mask_consistency(&proof, Some(&committer)));
        assert!(verify_mask_consistency::<TableCommitter>(&proof, None));
        replay_mask_opening_transcript(&proof, &mut vt);
        assert_eq!(vt.log, pt.log, "transcripts end in the same state");
    }
}

#[test]
fn mask_coefficients_are_random_residues() {
    let polys = rand_polys(4, 3);
    let mut pt = Transcript::new(label(b"random"));
    let mut ctx: ProveContext<TableCommitter> = ProveContext::new(true);
    let mut prover = ZkLinearSumcheckProver::new(4, 3, &mut pt);
    let proof = prover.prove_zk(&polys, &mut pt, &mut ctx);
    let coeffs = proof.zk_mask_coeffs.unwrap();
    let all: Vec<u64> = coeffs.iter().flatten().map(|c| c.v).collect();
    assert!(all.iter().all(|v| *v < MODULUS));
    assert!(all.iter().any(|v| *v != all[0]), "coefficients are not all equal");
}

#[test]
fn mask_consistency_checks() {
    let polys = rand_polys(2, 1);
    let mut pt = Transcript::new(label(b"mask_checks"));
    let mut ctx = ProveContext::with_mask_committer(true, TableCommitter);
    let mut prover = ZkLinearSumcheckProver::new(2, 1, &mut pt);
    let proof = prover.prove_zk(&polys, &mut pt, &mut ctx);
    let committer = TableCommitter;

    // no mask: passes
    let plain = SumcheckProof {
        zk_mask_sum: None,
        zk_mask_coeffs: None,
        zk_mask_commitment: None,
        zk_mask_opening_proof: None,
        zk_mask_opening_point: None,
        zk_mask_opening_eval: None,
        ..proof.clone()
    };
    assert!(verify_mask_consistency(&plain, Some(&committer)));

    // coefficients without a sum: fails
    let mut no_sum = proof.clone();
    no_sum.zk_mask_sum = None;
    assert!(!verify_mask_consistency(&no_sum, Some(&committer)));

    // a wrong sum: fails
    let mut bad_sum = proof.clone();
    bad_sum.zk_mask_sum = Some(bad_sum.zk_mask_sum.unwrap().add(&Fe::one()));
    assert!(!verify_mask_consistency(&bad_sum, Some(&committer)));

    // a wrong opening evaluation: fails
    let mut bad_eval = proof.clone();
    bad_eval.zk_mask_opening_eval = Some(bad_eval.zk_mask_opening_eval.unwrap().add(&Fe::one()));
    assert!(!verify_mask_consistency(&bad_eval, Some(&committer)));

    // an opening point of the wrong length: fails
    let mut bad_point = proof.clone();
    bad_point.zk_mask_opening_point.as_mut().unwrap().push(Fe::zero());
    assert!(!verify_mask_consistency(&bad_point, Some(&committer)));
}

#[test]
fn mask_helpers_exact_values() {
    // s_0(x) = 1 + 2x + 3x^2, s_1(x) = 4 + 5x + 6x^2
    let coeffs = vec![
        vec![Fe::from_u64(1), Fe::from_u64(2), Fe::from_u64(3)],
        vec![Fe::from_u64(4), Fe::from_u64(5), Fe::from_u64(6)],
    ];
    assert_eq!(eval_univariate(&coeffs[0], &Fe::from_u64(2)).canonical(), 17);
    assert_eq!(eval_univariate(&coeffs[1], &Fe::from_u64(10)).canonical(), 654);
    // Σ_i s_i(r_i) at r = (2, 10)
    let e = recompute_mask_eval(&coeffs, &[Fe::from_u64(2), Fe::from_u64(10)]);
    assert_eq!(e.canonical(), 17 + 654);
    // 2^(n-1)·Σ_i (s_i(0) + s_i(1)) = 2·((1 + 6) + (4 + 15))
    assert_eq!(recompute_mask_sum(&coeffs).canonical(), 52);
    // packed: 6 coefficients padded to 8
    let packed = pack_mask_coeffs(&coeffs);
    assert_eq!(packed.num_vars, 3);
    let vals: Vec<u64> = packed.evaluations.iter().map(|f| f.canonical()).collect();
    assert_eq!(vals, vec![1, 2, 3, 4, 5, 6, 0, 0]);
}

#[test]
fn zk_extra_bytes_counts_fields() {
    let base = SumcheckProof {
        final_eval: Fe::zero(),
        round_messages: vec![],
        zk_mask_sum: None,
        zk_mask_coeffs: None,
        zk_mask_commitment: None,
        zk_mask_opening_proof: None,
        zk_mask_opening_point: None,
        zk_mask_opening_eval: None,
    };
    assert_eq!(base.zk_extra_bytes(), 0);
    let full = SumcheckProof {
        zk_mask_sum: Some(Fe::one()),
        zk_mask_coeffs: Some(vec![vec![Fe::one(); 3], vec![Fe::one(); 2]]),
        zk_mask_commitment: Some(vec![0u8; 10]),
        zk_mask_opening_proof: Some(vec![0u8; 7]),
        zk_mask_opening_point: Some(vec![Fe::zero(); 4]),
        zk_mask_opening_eval: Some(Fe::zero()),
        ..base
    };
    assert_eq!(full.zk_extra_bytes(), 32 + 5 * 32 + 10 + 7 + 4 * 32 + 32);
}

#[test]
fn replay_draws_one_challenge_per_coordinate() {
    let mut proof = SumcheckProof {
        final_eval: Fe::zero(),
        round_messages: vec![],
        zk_mask_sum: None,
        zk_mask_coeffs: None,
        zk_mask_commitment: None,
        zk_mask_opening_proof: None,
        zk_mask_opening_point: None,
        zk_mask_opening_eval: None,
    };
    let mut t1 = Transcript::new(label(b"replay"));
    replay_mask_opening_transcript(&proof, &mut t1);
    assert_eq!(t1.log, Transcript::new(label(b"replay")).log);
    proof.zk_mask_opening_point = Some(vec![Fe::zero(); 3]);
    replay_mask_opening_transcript(&proof, &mut t1);
    let mut t2 = Transcript::new(label(b"replay"));
    for _ in 0..3 {
        t2.challenge_scalar(LABEL_MASK_OPEN);
    }
    assert_eq!(t1.log, t2.log);
}

#[test]
fn absorb_round_matches_verifier_schedule() {
    let msg = vec![Fe::from_u64(3), Fe::from_u64(4)];
    let mut t1 = Transcript::new(label(b"absorb"));
    let c1 = absorb_round(&mut t1, &msg);
    let mut t2 = Transcript::new(label(b"absorb"));
    let c2 = absorb_round(&mut t2, &msg);
    assert!(feq(&c1, &c2));
    assert_eq!(t1.log, t2.log);
    let mut t3 = Transcript::new(label(b"absorb"));
    let c3 = absorb_round(&mut t3, &vec![Fe::from_u64(4), Fe::from_u64(3)]);
    assert!(!feq(&c1, &c3));
}

#[test]
fn naive_commitment_opens_and_verifies() {
    let poly = DenseMLPoly::new(2, vec![Fe::from_u64(1), Fe::from_u64(2), Fe::from_u64(3), Fe::from_u64(4)]);
    let key = NaiveMLPolyCommit::setup(2, 0, 0, 4);
    let c = NaiveMLPolyCommit::commit(&poly, &key);
    let point = [Fe::from_u64(5), Fe::from_u64(7)];
    let proof = NaiveMLPolyCommit::open(&c, &poly, &key, &point);
    // (1-x)(1-y)·1 + x(1-y)·2 + (1-x)y·3 + xy·4 = 1 + x + 2y at (5, 7)
    assert_eq!(proof.canonical(), 20);
    assert!(NaiveMLPolyCommit::verify(&c, &proof, &key, &point));
    assert!(!NaiveMLPolyCommit::verify(&c, &proof.add(&Fe::one()), &key, &point));
}

#[test]
fn naive_commitment_absorbs_no_bytes() {
    let poly = DenseMLPoly::new(1, vec![Fe::from_u64(3), Fe::from_u64(9)]);
    let key = NaiveMLPolyCommit::setup(1, 0, 0, 2);
    let c = NaiveMLPolyCommit::commit(&poly, &key);
    assert!(c.to_transcript_bytes().is_empty());
}

/// Σ_x eq(x)·Σ_j a_j·Π_i p_{j,i}(x), directly.
fn brute_force_general(scalars: &[Fe], terms: &[Vec<DenseMLPoly>], eq: &DenseMLPoly) -> Fe {
    let size = eq.evaluations.len();
    let mut sum = Fe::zero();
    for x in 0..size {
        let mut t = Fe::zero();
        for (a, polys) in scalars.iter().zip(terms.iter()) {
            let mut prod = Fe::one();
            for p in polys {
                prod = prod.mul(&p.evaluations[x]);
            }
            t = t.add(&prod.mul(a));
        }
        sum = sum.add(&t.mul(&eq.evaluations[x]));
    }
    sum
}

#[test]
fn general_prover_is_accepted() {
    let n = 3;
    let num_poly = 3; // eq times two polynomials per term
    let mut rng = rand::thread_rng();
    let scalars: Vec<Fe> = (0..2).map(|_| rand_fe(&mut rng)).collect();
    let terms: Vec<Vec<DenseMLPoly>> = (0..2).map(|_| rand_polys(n, num_poly - 1)).collect();
    let eq = rand_polys(n, 1).pop().unwrap();
    let h = brute_force_general(&scalars, &terms, &eq);

    let mut pt = Transcript::new(label(b"general"));
    let mut prover = GeneralLinearSumcheckProver::new(n, num_poly, &mut pt);
    let instance = (scalars.clone(), terms.clone(), eq.clone());
    let proof = prover.prove(&instance, &mut pt);
    assert_eq!(proof.round_messages.len(), n);
    assert!(proof.round_messages.iter().all(|m| m.len() == num_poly + 1));

    let mut vt = Transcript::new(label(b"general"));
    let mut verifier = SumcheckVerifier::new(n, num_poly, &mut vt);
    let (claim, r) = verifier.verify(&mut vt, proof.round_messages.clone(), h);
    let claim = claim.expect("an honest proof is accepted");
    assert!(feq(&claim, &proof.final_eval));
    let mut t = Fe::zero();
    for (a, polys) in scalars.iter().zip(terms.iter()) {
        t = t.add(&product_at(polys, &r).mul(a));
    }
    let expected = t.mul(&eq.evaluate_at_point(&r));
    assert!(feq(&claim, &expected), "final claim is eq(r)·Σ_j a_j·Π_i p_ji(r)");
    assert_eq!(vt.log, pt.log);
}

#[test]
fn table_committer_accepts_honest_openings_only() {
    let poly = DenseMLPoly::new(2, vec![Fe::from_u64(1), Fe::from_u64(2), Fe::from_u64(3), Fe::from_u64(4)]);
    let c = TableCommitter.commit(&poly);
    // the table in the clear, eight little-endian bytes per entry
    assert_eq!(c.len(), 32);
    assert_eq!(&c[8..16], &2u64.to_le_bytes());
    let point = [Fe::from_u64(5), Fe::from_u64(7)];
    let (pf, ev) = TableCommitter.open(&poly, &point);
    // 1 + x + 2y at (5, 7)
    assert_eq!(ev.canonical(), 20);
    assert!(TableCommitter.verify(&c, &pf, &point, ev));
    assert!(!TableCommitter.verify(&c, &pf, &point, ev.add(&Fe::one())));
    assert!(!TableCommitter.verify(&c[..24], &pf, &point, ev));
    assert!(!TableCommitter.verify(&c, &pf, &point[..1], ev));
}
