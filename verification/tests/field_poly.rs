use tiny_keccak::{Hasher, Sha3};
use zk_torch_2::dag::builder::letters;
use zk_torch_2::dag::gnn::flat_index;
use zk_torch_2::util::field::{Fe, MODULUS};
use zk_torch_2::util::padding::{pad_1d_tensor, pad_2d_tensor};
use zk_torch_2::util::poly::{evaluate_lagrange_single, evaluate_univariate_polynomial, DenseMLPoly};
use zk_torch_2::util::transcript::Transcript;

fn fe(x: u64) -> Fe {
    Fe::from_u64(x)
}

fn neg(x: u64) -> Fe {
    Fe::zero().sub(&fe(x))
}

#[test]
fn field_arithmetic_exact_values() {
    assert_eq!(fe(MODULUS - 1).add(&fe(2)).canonical(), 1);
    assert_eq!(fe(3).sub(&fe(5)).canonical(), MODULUS - 2);
    assert_eq!(fe(1 << 32).mul(&fe(1 << 32)).canonical(), (1u64 << 32) - 1);
    assert_eq!(fe(7).neg().canonical(), MODULUS - 7);
    assert_eq!(fe(2).pow(10).canonical(), 1024);
    assert_eq!(fe(MODULUS).canonical(), 0);
    assert_eq!(Fe { v: u64::MAX }.canonical(), u64::MAX - MODULUS);
    assert!(fe(5).equals(&Fe { v: MODULUS + 5 }));
    assert!(fe(5) == Fe { v: MODULUS + 5 });
}

#[test]
fn field_inverse() {
    let a = fe(12345);
    let inv = a.inverse().expect("a nonzero element is invertible");
    assert_eq!(a.mul(&inv).canonical(), 1);
    assert_eq!(fe(2).inverse().unwrap().canonical(), (MODULUS + 1) / 2);
    assert!(Fe::zero().inverse().is_none());
}

#[test]
fn signed_encoding_round_trips() {
    assert_eq!(neg(5).to_int(), -5);
    assert_eq!(fe(5).to_int(), 5);
    assert_eq!(Fe::from_i128(-7).canonical(), MODULUS - 7);
    assert_eq!(Fe::from_i128(-7).to_int(), -7);
    assert_eq!(fe((MODULUS - 1) / 2).to_int(), ((MODULUS - 1) / 2) as i128);
    assert_eq!(fe((MODULUS - 1) / 2 + 1).to_int(), -(((MODULUS - 1) / 2) as i128));
}

#[test]
fn multilinear_evaluation() {
    // f(x0, x1) with table [f(0,0), f(1,0), f(0,1), f(1,1)] = [1, 2, 3, 4]: f = 1 + x0 + 2·x1
    let p = DenseMLPoly::new(2, vec![fe(1), fe(2), fe(3), fe(4)]);
    assert_eq!(p.evaluate_at_point(&[fe(0), fe(1)]).canonical(), 3);
    assert_eq!(p.evaluate_at_point(&[fe(1), fe(0)]).canonical(), 2);
    assert_eq!(p.evaluate_at_point(&[fe(10), fe(20)]).canonical(), 51);
    assert_eq!(p.len(), 4);
    assert!(!p.is_empty());
}

#[test]
fn lagrange_single_is_the_indicator_on_the_cube() {
    let r = [fe(0), fe(1), fe(1)];
    for idx in 0..8usize {
        let v = evaluate_lagrange_single(&r, idx).canonical();
        assert_eq!(v, if idx == 6 { 1 } else { 0 });
    }
    // L_1(r0, r1) = r0·(1 - r1) at (3, 5) = -12
    assert!(evaluate_lagrange_single(&[fe(3), fe(5)], 1).equals(&neg(12)));
}

#[test]
fn univariate_interpolation() {
    // s(x) = x^2 + 1 from its values at 0, 1, 2
    let evals = [fe(1), fe(2), fe(5)];
    assert_eq!(evaluate_univariate_polynomial(&evals, &fe(3)).unwrap().canonical(), 10);
    assert_eq!(evaluate_univariate_polynomial(&evals, &fe(1)).unwrap().canonical(), 2);
    assert_eq!(evaluate_univariate_polynomial(&evals, &fe(100)).unwrap().canonical(), 10001);
    // a line through (0, 4), (1, 1): 4 - 3x at 2 is -2
    assert!(evaluate_univariate_polynomial(&[fe(4), fe(1)], &fe(2)).unwrap().equals(&neg(2)));
}

/// The challenge a transcript with `log` draws under `label`, by SHA3-256.
fn expected_challenge(log: &[u8], label: u64) -> u64 {
    let mut data = log.to_vec();
    data.extend_from_slice(&label.to_le_bytes());
    let mut h = Sha3::v256();
    h.update(&data);
    let mut out = [0u8; 32];
    h.finalize(&mut out);
    u64::from_le_bytes(out[..8].try_into().unwrap()) % MODULUS
}

#[test]
fn transcript_challenges_hash_the_log() {
    let mut t = Transcript::new(0x1234);
    t.append_u64(7, 99);
    t.append_bytes(8, &[1, 2, 3]);
    let log = t.log.clone();
    let c = t.challenge_scalar(9);
    assert_eq!(c.canonical(), expected_challenge(&log, 9));
    assert_ne!(c.canonical(), 0);
    let mut expected_log = log.clone();
    expected_log.extend_from_slice(&9u64.to_le_bytes());
    expected_log.extend_from_slice(&c.canonical().to_le_bytes());
    assert_eq!(t.log, expected_log);
    // the log layout: label, then the word or the length and the bytes
    let mut start = 0x1234u64.to_le_bytes().to_vec();
    start.extend_from_slice(&7u64.to_le_bytes());
    start.extend_from_slice(&99u64.to_le_bytes());
    start.extend_from_slice(&8u64.to_le_bytes());
    start.extend_from_slice(&3u64.to_le_bytes());
    start.extend_from_slice(&[1, 2, 3]);
    assert_eq!(log, start);
}

#[test]
fn transcripts_with_the_same_history_agree() {
    let mut a = Transcript::new(1);
    let mut b = Transcript::new(1);
    a.append_scalar(2, &fe(10));
    b.append_scalar(2, &Fe { v: MODULUS + 10 });
    assert!(a.challenge_scalar(3).equals(&b.challenge_scalar(3)));
    let mut c = Transcript::new(1);
    c.append_scalar(2, &fe(11));
    assert!(!a.clone().challenge_scalar(3).equals(&c.challenge_scalar(3)));
}

#[test]
fn letters_spell_the_alphabet() {
    assert_eq!(letters(0), "");
    assert_eq!(letters(3), "abc");
    assert_eq!(letters(26), "abcdefghijklmnopqrstuvwxyz");
}

#[test]
fn flat_index_uses_padded_strides() {
    // shape (3, 5, 2) pads to (4, 8, 2): strides 1, 4, 32
    assert_eq!(flat_index(&[2, 3, 1], &[3, 5, 2]), 2 + 3 * 4 + 32);
    assert_eq!(flat_index(&[], &[3]), 0);
    assert_eq!(flat_index(&[1], &[1]), 1);
}

#[test]
fn pad_1d_tensor_embeds_then_zeros() {
    let r = pad_1d_tensor(&[3, -2, 0], 3, 5);
    let v: Vec<u64> = r.iter().map(|x| x.canonical()).collect();
    assert_eq!(v, vec![3, MODULUS - 2, 0, 0, 0]);
}

#[test]
fn pad_2d_tensor_keeps_rows() {
    // [[1, 2, 3], [4, 5, -6]] padded to 3 x 4
    let r = pad_2d_tensor(&[1, 2, 3, 4, 5, -6], 2, 3, 3, 4);
    let v: Vec<i128> = r.iter().map(|x| x.to_int()).collect();
    assert_eq!(v, vec![1, 2, 3, 0, 4, 5, -6, 0, 0, 0, 0, 0]);
}
