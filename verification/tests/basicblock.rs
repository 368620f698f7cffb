use zk_torch_2::basicblock::elemdiv::ElemDivHelper;
use zk_torch_2::basicblock::exp::{ExpHelper, TwoPow, K_MAX};
use zk_torch_2::basicblock::llama::SoftmaxConst;
use zk_torch_2::basicblock::range::NonNegative;
use zk_torch_2::basicblock::relu::SignBitHelper;
use zk_torch_2::basicblock::scale::{ScaleDown, ScaleUp};
use zk_torch_2::basicblock::shape::{get_n, ChangeShape};
use zk_torch_2::basicblock::spmv::SpMV;
use zk_torch_2::util::field::{Fe, MODULUS};

fn sv(x: i128) -> Fe {
    Fe::from_i128(x)
}

fn ints(v: &[Fe]) -> Vec<i128> {
    v.iter().map(|f| f.to_int()).collect()
}

#[test]
fn non_negative_selects_values() {
    let nn = NonNegative::new(4);
    assert_eq!(nn.table_size_log, 4);
    let sel = nn.run(&[sv(0), sv(15), sv(7)]);
    assert_eq!(sel, vec![(0, 0), (1, 15), (2, 7)]);
}

#[test]
fn sign_bits() {
    let s = SignBitHelper.run(&[sv(-3), sv(0), sv(9), sv(-1)]);
    assert_eq!(ints(&s), vec![0, 1, 1, 0]);
}

#[test]
fn elem_div_truncates_and_skips_zero_divisors() {
    let z = ElemDivHelper.run(&[sv(3), sv(-3), sv(5), sv(7)], &[sv(2), sv(2), sv(0), sv(-4)], 2);
    // 4·3/2 = 6, 4·(-3)/2 = -6, y = 0 gives 0, 4·7/(-4) = -7
    assert_eq!(ints(&z), vec![6, -6, 0, -7]);
    let z = ElemDivHelper.run(&[sv(5), sv(-5)], &[sv(3), sv(3)], 1);
    // 10/3 = 3 and -10/3 = -3 (toward zero)
    assert_eq!(ints(&z), vec![3, -3]);
}

#[test]
fn scale_up_multiplies() {
    let b = ScaleUp { input_sf: 2, output_sf: 5 };
    let (y, sel) = b.run(&[sv(3), sv(-2), sv(0)]);
    assert_eq!(ints(&y), vec![24, -16, 0]);
    // the remainder x·8 - y is 0, shifted by 4
    assert_eq!(sel, vec![(0, 4), (1, 4), (2, 4)]);
}

#[test]
fn scale_down_rounds_to_nearest_with_ties_inside_the_table() {
    let b = ScaleDown { input_sf: 5, output_sf: 3 };
    // x / 4 rounded: 9/4 = 2.25 -> 2, -9/4 -> -2, 6/4 = 1.5 -> 2, and the
    // tie -6/4 = -1.5 -> -1, whose index -6 - (-1)·4 + 2 = 0 stays in [0, 4)
    let x = [sv(9), sv(-9), sv(6), sv(-6)];
    let (y, sel) = b.run(&x);
    assert_eq!(ints(&y), vec![2, -2, 2, -1]);
    assert_eq!(sel, vec![(0, 3), (1, 1), (2, 0), (3, 0)]);
}

#[test]
fn scale_down_by_eight_and_by_one() {
    // q = floor((x + 4) / 8): 17/8 -> 2 (index 13 - 16 + 4 = 1), -9/8 -> -2
    // (index -13 + 16 + 4 = 7)
    let b = ScaleDown { input_sf: 4, output_sf: 1 };
    let (y, sel) = b.run(&[sv(13), sv(-13)]);
    assert_eq!(ints(&y), vec![2, -2]);
    assert_eq!(sel, vec![(0, 1), (1, 7)]);
    // no rescaling: the values and index 0
    let id = ScaleDown { input_sf: 3, output_sf: 3 };
    let (y, sel) = id.run(&[sv(-5), sv(7)]);
    assert_eq!(ints(&y), vec![-5, 7]);
    assert_eq!(sel, vec![(0, 0), (1, 0)]);
}

#[test]
fn exp_helper_reduces_the_range() {
    let ln2: i128 = 11; // round(ln 2 · 16)
    let x = [sv(23), sv(-30), sv(0)];
    let k = [-2i32, 3, 0];
    let (r, sel) = ExpHelper.run(&x, ln2, &k);
    // r = x + k·ln2
    assert_eq!(ints(&r), vec![1, 3, 0]);
    assert_eq!(sel, vec![(0, K_MAX - 2), (1, K_MAX + 3), (2, K_MAX)]);
}

#[test]
fn two_pow_table() {
    let sel = vec![(0usize, K_MAX), (1, K_MAX + 15), (2, K_MAX + 16), (3, K_MAX - 3), (9, 0), (2, 2 * K_MAX + 1)];
    let y = TwoPow.run(&sel, 2);
    assert_eq!(y.len(), 4);
    let v: Vec<u64> = y.iter().map(|f| f.canonical()).collect();
    assert_eq!(v, vec![1 << 15, 1, 0, 1 << 18]);
    // 2^90 reduced modulo p: the last of several selections of the same input wins
    let y = TwoPow.run(&[(0, K_MAX), (0, 0)], 0);
    assert_eq!(y[0].canonical(), Fe::from_u64(2).pow(90).canonical());
}

#[test]
fn softmax_const_is_minus_the_row_max() {
    // two groups of four, group index fastest: x[g + 2·d]
    let x = [sv(1), sv(-5), sv(7), sv(-2), sv(3), sv(-9), sv(100), sv(100)];
    let y = SoftmaxConst { dim: 3 }.run(&x, 2, 4);
    // group 0 over d < 3: 1, 7, 3 -> max 7; group 1: -5, -2, -9 -> max -2
    assert_eq!(ints(&y), vec![-7, 2, -7, 2, -7, 2, -7, 2]);
}

#[test]
fn spmv_multiplies_sparse_by_dense() {
    // S is 2x2 with S[0][1] = 3 and S[1][0] = 1 (no stored weight); H is 2x2, features slowest
    let h = [sv(10), sv(20), sv(30), sv(40)];
    let edges = [(0usize, 1usize), (1, 0), (2, 0)];
    let weights = [Some(sv(3)), None, Some(sv(100))];
    let z = SpMV { num_rows_log: 1, num_cols_log: 1, transpose: false }.run(&edges, &weights, &h, 2);
    // Z[0, f] = 3·H[1, f], Z[1, f] = H[0, f]; the edge outside the matrix is skipped
    assert_eq!(ints(&z), vec![60, 10, 120, 30]);
    let zt = SpMV { num_rows_log: 1, num_cols_log: 1, transpose: true }.run(&edges, &weights, &h, 2);
    // Z[1, f] = 3·H[0, f], Z[0, f] = H[1, f]
    assert_eq!(ints(&zt), vec![20, 30, 40, 90]);
}

#[test]
fn change_shape_counts_variables() {
    assert_eq!(get_n(&[3, 5, 1]), 2 + 3);
    let cs = ChangeShape { new_shape: vec![4, 3] };
    let (shape, n) = cs.run(Some(7));
    assert_eq!(shape, vec![4, 3]);
    assert_eq!(n, Some(4));
    assert_eq!(cs.run(None).1, None);
}

#[test]
fn field_values_stay_canonical() {
    let y = SignBitHelper.run(&[Fe { v: u64::MAX }]);
    assert!(y[0].v < MODULUS);
}
