//! Sparse matrix times dense matrix: the product, the reduction of a claim
//! on the product to claims on its two inputs by one sumcheck (plain or
//! zero-knowledge), its check, and why an honest reduction is accepted.
use crate::basicblock::{lemma_group_index, lemma_index_bound};
use crate::basicblock::einsum::{
    lemma_folds_blocks, lemma_folds_concat, lemma_folds_residues, lemma_shift_bit,
};
use crate::util::expansion::{
    basis_at, bit, bit_factor, fsum, lemma_fsum_bump, lemma_fsum_congruent, lemma_fsum_residue,
    lemma_fsum_scale, lemma_fsum_swap, lemma_fsum_zero, lemma_mle_expansion,
};
use crate::util::field::{
    cong, fadd, fmul, fvals, lemma_cong_add, lemma_cong_mod, lemma_cong_mul, lemma_cong_residues,
    lemma_fe_range, lemma_residue, p, Fe,
};
use crate::crypto::sumcheck::linear_prover::{bound_tables, hypercube_sum, point_prod, poly_tables};
use crate::crypto::sumcheck::prover::{msgs_vals, rounds_challenges, rounds_log, SumcheckProof};
use crate::crypto::sumcheck::sumcheck_verifier::{
    lemma_rounds_take, lemma_verify_rounds_replays, verify_spec, zk_preamble_log, SumcheckVerifier,
};
use crate::crypto::sumcheck::zk_linear_prover::{
    coeffs_vals, committer_verdict, mask_checks, mask_commitment_view, mask_fields_ok, mask_shape_ok, mask_eval, mask_fields_valid, mask_sum,
    recompute_mask_eval, replay_mask_opening_transcript, verify_mask_consistency,
};
use crate::crypto::sumcheck::prover::{MaskCommitter, ProveContext};
use crate::crypto::sumcheck::runs::{
    copy_round_messages, lemma_plain_proof_determined, run_sumcheck, run_zk_sumcheck, sumcheck_proof_ok, tables_mle_prod,
    zk_rounds_start, zk_start_preamble, zk_sumcheck_proof_ok,
};
use crate::dag::{Claim, EdgeId};
use crate::util::poly::{
    evaluate_lagrange_basis,
    evaluate_lagrange_single, fix_variables_from_right, lemma_log_below_bits, folds, high_column,
    lagrange_single, mle, pow2_usize, DenseMLPoly,
};
use crate::util::transcript::{
    t_after_challenge, t_after_challenges, t_append_u64, t_challenge, Transcript, LABEL_MASK_OPEN,
    LABEL_NUM_POLY, LABEL_NUM_VAR, LABEL_RHO,
};
use vstd::arithmetic::power2::*;
use vstd::prelude::*;

verus! {

/// `Z = S·H` (or `Z = Sᵀ·H` when `transpose`) for a sparse `S` of
/// `2^num_rows_log × 2^num_cols_log` given by its edges and a dense `H`
/// whose features vary slowest (`H[i + f·dim]`).
#[derive(Clone, Debug)]
pub struct SpMV {
    pub num_rows_log: usize,
    pub num_cols_log: usize,
    pub transpose: bool,
}

/// The output row of an edge: its row, or its column when transposed.
pub open spec fn edge_out(e: (usize, usize), transpose: bool) -> int {
    if transpose {
        e.1 as int
    } else {
        e.0 as int
    }
}

/// The input row of an edge: its column, or its row when transposed.
pub open spec fn edge_in(e: (usize, usize), transpose: bool) -> int {
    if transpose {
        e.0 as int
    } else {
        e.1 as int
    }
}

/// The weight of an edge: the stored one, or 1 where none is stored.
pub open spec fn edge_weight(w: Option<Fe>) -> int {
    match w {
        Some(v) => v@,
        None => 1,
    }
}

/// `Σ_e w_e · H[in_e + f·in_dim]` over the first `k` edges inside the
/// matrix whose output row is `o`, accumulated in edge order.
pub open spec fn spmv_value(
    edges: Seq<(usize, usize)>,
    weights: Seq<Option<Fe>>,
    h: Seq<Fe>,
    nr: int,
    nc: int,
    transpose: bool,
    k: nat,
    o: int,
    f: int,
) -> int
    decreases k,
{
    if k == 0 {
        0
    } else {
        let prev = spmv_value(edges, weights, h, nr, nc, transpose, (k - 1) as nat, o, f);
        let e = edges[k - 1];
        let in_dim = if transpose {
            nr
        } else {
            nc
        };
        if e.0 < nr && e.1 < nc && edge_out(e, transpose) == o {
            fadd(prev, fmul(edge_weight(weights[k - 1]), h[edge_in(e, transpose) + f * in_dim]@))
        } else {
            prev
        }
    }
}

/// The index of an edge's output row: its row, or its column when
/// transposed.
pub open spec fn edge_out_idx(e: (usize, usize), transpose: bool) -> usize {
    if transpose {
        e.1
    } else {
        e.0
    }
}

/// `Σ_e w_e · L_{out_e}(r)` over the first `k` edges inside the matrix whose
/// input row is `i`: the sparse matrix with its output variables bound to
/// `r`, accumulated in edge order.
pub open spec fn adj_value(
    edges: Seq<(usize, usize)>,
    weights: Seq<Option<Fe>>,
    r: Seq<int>,
    nr: int,
    nc: int,
    transpose: bool,
    k: nat,
    i: int,
) -> int
    decreases k,
{
    if k == 0 {
        0
    } else {
        let prev = adj_value(edges, weights, r, nr, nc, transpose, (k - 1) as nat, i);
        let e = edges[k - 1];
        if e.0 < nr && e.1 < nc && edge_in(e, transpose) == i {
            fadd(
                prev,
                fmul(edge_weight(weights[k - 1]), lagrange_single(r, edge_out_idx(e, transpose), r.len())),
            )
        } else {
            prev
        }
    }
}

impl SpMV {
    /// The number of output variables: `num_cols_log` when transposed, else
    /// `num_rows_log`.
    pub open spec fn out_log(&self) -> nat {
        if self.transpose {
            self.num_cols_log as nat
        } else {
            self.num_rows_log as nat
        }
    }

    /// The number of input (summed) variables.
    pub open spec fn in_log(&self) -> nat {
        if self.transpose {
            self.num_rows_log as nat
        } else {
            self.num_cols_log as nat
        }
    }

    /// The dimensions fit machine words.
    pub open spec fn dims_ok(&self) -> bool {
        &&& self.num_rows_log < 64
        &&& self.num_cols_log < 64
        &&& pow2(self.num_rows_log as nat) <= usize::MAX
        &&& pow2(self.num_cols_log as nat) <= usize::MAX
    }

    /// Every edge lies inside the matrix.
    pub open spec fn edges_inside(&self, edges: Seq<(usize, usize)>) -> bool {
        forall|k: int|
            0 <= k < edges.len() ==> (#[trigger] edges[k]).0 < pow2(self.num_rows_log as nat)
                && edges[k].1 < pow2(self.num_cols_log as nat)
    }

    /// The sparse matrix with its output variables bound to `fixed_point`:
    /// entry `i` is the sum over the edges of input row `i` of the edge
    /// weight (1 where none is stored) times the Lagrange basis polynomial
    /// of the edge's output row at `fixed_point`.
    pub fn adjacency_partial_eval(
        &self,
        edges: &[(usize, usize)],
        weights: &[Option<Fe>],
        fixed_point: &[Fe],
    ) -> (adj: Vec<Fe>)
        requires
            self.dims_ok(),
            weights.len() == edges.len(),
            fixed_point.len() == self.out_log(),
            self.edges_inside(edges@),
        ensures
            adj.len() == self.in_dim(),
            forall|i: int|
                0 <= i < self.in_dim() ==> (#[trigger] adj@[i])@ == adj_value(
                    edges@,
                    weights@,
                    fvals(fixed_point@),
                    pow2(self.num_rows_log as nat) as int,
                    pow2(self.num_cols_log as nat) as int,
                    self.transpose,
                    edges.len() as nat,
                    i,
                ),
    {
        let num_rows = pow2_usize(self.num_rows_log);
        let num_cols = pow2_usize(self.num_cols_log);
        let in_dim = if self.transpose {
            num_rows
        } else {
            num_cols
        };
        let ghost nr = num_rows as int;
        let ghost nc = num_cols as int;
        let ghost r = fvals(fixed_point@);
        proof {
            lemma_log_below_bits(self.out_log());
        }
        let mut adj: Vec<Fe> = Vec::new();
        let mut i: usize = 0;
        while i < in_dim
            invariant
                i <= in_dim,
                adj.len() == i,
                forall|k: int| 0 <= k < i ==> (#[trigger] adj@[k])@ == 0,
            decreases in_dim - i,
        {
            adj.push(Fe::zero());
            i = i + 1;
        }
        let mut e: usize = 0;
        while e < edges.len()
            invariant
                e <= edges.len(),
                weights.len() == edges.len(),
                num_rows == nr,
                num_cols == nc,
                nr == pow2(self.num_rows_log as nat),
                nc == pow2(self.num_cols_log as nat),
                in_dim == self.in_dim(),
                in_dim == (if self.transpose { nr } else { nc }),
                r == fvals(fixed_point@),
                r.len() == fixed_point.len(),
                fixed_point.len() <= usize::BITS,
                self.edges_inside(edges@),
                adj.len() == in_dim,
                forall|k: int|
                    0 <= k < in_dim ==> (#[trigger] adj@[k])@ == adj_value(
                        edges@,
                        weights@,
                        r,
                        nr,
                        nc,
                        self.transpose,
                        e as nat,
                        k,
                    ),
            decreases edges.len() - e,
        {
            let (row, col) = edges[e];
            proof {
                assert(edges@[e as int] == (row, col));
            }
            let w = match weights[e] {
                Some(v) => v,
                None => Fe::one(),
            };
            let (out_i, in_i) = if self.transpose {
                (col, row)
            } else {
                (row, col)
            };
            let basis_val = evaluate_lagrange_single(fixed_point, out_i);
            let ghost old_adj = adj@;
            let nv = adj[in_i].add(&w.mul(&basis_val));
            adj.set(in_i, nv);
            proof {
                assert forall|k: int| 0 <= k < in_dim implies (#[trigger] adj@[k])@ == adj_value(
                    edges@,
                    weights@,
                    r,
                    nr,
                    nc,
                    self.transpose,
                    (e + 1) as nat,
                    k,
                ) by {
                    if k != in_i as int {
                        assert(old_adj[k] == adj@[k]);
                    }
                }
            }
            e = e + 1;
        }
        adj
    }

    /// `adjacency_partial_eval` by the basis vector: all Lagrange basis
    /// polynomials at `fixed_point` are evaluated once, then each edge adds
    /// its weight times the entry of its output row.  The same vector as the
    /// per-edge evaluation.
    pub fn adjacency_partial_eval_by_basis(
        &self,
        edges: &[(usize, usize)],
        weights: &[Option<Fe>],
        fixed_point: &[Fe],
    ) -> (adj: Vec<Fe>)
        requires
            self.dims_ok(),
            weights.len() == edges.len(),
            fixed_point.len() == self.out_log(),
            self.edges_inside(edges@),
        ensures
            adj.len() == self.in_dim(),
            forall|i: int|
                0 <= i < self.in_dim() ==> (#[trigger] adj@[i])@ == adj_value(
                    edges@,
                    weights@,
                    fvals(fixed_point@),
                    pow2(self.num_rows_log as nat) as int,
                    pow2(self.num_cols_log as nat) as int,
                    self.transpose,
                    edges.len() as nat,
                    i,
                ),
    {
        let num_rows = pow2_usize(self.num_rows_log);
        let num_cols = pow2_usize(self.num_cols_log);
        let in_dim = if self.transpose {
            num_rows
        } else {
            num_cols
        };
        let ghost nr = num_rows as int;
        let ghost nc = num_cols as int;
        let ghost r = fvals(fixed_point@);
        proof {
            lemma_log_below_bits(self.out_log());
        }
        let basis = evaluate_lagrange_basis(fixed_point);
        let mut adj: Vec<Fe> = Vec::new();
        let mut i: usize = 0;
        while i < in_dim
            invariant
                i <= in_dim,
                adj.len() == i,
                forall|k: int| 0 <= k < i ==> (#[trigger] adj@[k])@ == 0,
            decreases in_dim - i,
        {
            adj.push(Fe::zero());
            i = i + 1;
        }
        let mut e: usize = 0;
        while e < edges.len()
            invariant
                e <= edges.len(),
                weights.len() == edges.len(),
                num_rows == nr,
                num_cols == nc,
                nr == pow2(self.num_rows_log as nat),
                nc == pow2(self.num_cols_log as nat),
                in_dim == self.in_dim(),
                in_dim == (if self.transpose { nr } else { nc }),
                r == fvals(fixed_point@),
                r.len() == fixed_point.len(),
                fixed_point.len() == self.out_log(),
                basis.len() == pow2(self.out_log()),
                forall|x: int|
                    0 <= x < basis.len() ==> (#[trigger] basis@[x])@ == lagrange_single(r, x as usize, r.len()),
                self.edges_inside(edges@),
                adj.len() == in_dim,
                forall|k: int|
                    0 <= k < in_dim ==> (#[trigger] adj@[k])@ == adj_value(
                        edges@,
                        weights@,
                        r,
                        nr,
                        nc,
                        self.transpose,
                        e as nat,
                        k,
                    ),
            decreases edges.len() - e,
        {
            let (row, col) = edges[e];
            proof {
                assert(edges@[e as int] == (row, col));
            }
            let w = match weights[e] {
                Some(v) => v,
                None => Fe::one(),
            };
            let (out_i, in_i) = if self.transpose {
                (col, row)
            } else {
                (row, col)
            };
            let basis_val = basis[out_i];
            let ghost old_adj = adj@;
            let nv = adj[in_i].add(&w.mul(&basis_val));
            adj.set(in_i, nv);
            proof {
                assert forall|k: int| 0 <= k < in_dim implies (#[trigger] adj@[k])@ == adj_value(
                    edges@,
                    weights@,
                    r,
                    nr,
                    nc,
                    self.transpose,
                    (e + 1) as nat,
                    k,
                ) by {
                    if k != in_i as int {
                        assert(old_adj[k] == adj@[k]);
                    }
                }
            }
            e = e + 1;
        }
        adj
    }

    /// Rows of the output: `2^num_cols_log` when transposed, else
    /// `2^num_rows_log`.
    pub open spec fn out_dim(&self) -> int {
        if self.transpose {
            pow2(self.num_cols_log as nat) as int
        } else {
            pow2(self.num_rows_log as nat) as int
        }
    }

    /// Rows of `H`: `2^num_rows_log` when transposed, else `2^num_cols_log`.
    pub open spec fn in_dim(&self) -> int {
        if self.transpose {
            pow2(self.num_rows_log as nat) as int
        } else {
            pow2(self.num_cols_log as nat) as int
        }
    }

    /// The product over `padded_features` features: entry
    /// `o + f·out_dim` of the output is the sum over the edges of output row
    /// `o` of the edge weight (1 where none is stored) times
    /// `H[in + f·in_dim]`; edges outside the matrix are skipped.
    pub fn run(
        &self,
        edges: &[(usize, usize)],
        weights: &[Option<Fe>],
        h: &[Fe],
        padded_features: usize,
    ) -> (z: Vec<Fe>)
        requires
            self.num_rows_log < 64,
            self.num_cols_log < 64,
            pow2(self.num_rows_log as nat) <= usize::MAX,
            pow2(self.num_cols_log as nat) <= usize::MAX,
            weights.len() == edges.len(),
            self.out_dim() * padded_features <= usize::MAX,
            h.len() >= self.in_dim() * padded_features,
        ensures
            z.len() == self.out_dim() * padded_features,
            forall|o: int, f: int|
                0 <= o < self.out_dim() && 0 <= f < padded_features ==> (#[trigger] z@[o + f
                    * self.out_dim()])@ == spmv_value(
                    edges@,
                    weights@,
                    h@,
                    pow2(self.num_rows_log as nat) as int,
                    pow2(self.num_cols_log as nat) as int,
                    self.transpose,
                    edges.len() as nat,
                    o,
                    f,
                ),
    {
        let num_rows = pow2_usize(self.num_rows_log);
        let num_cols = pow2_usize(self.num_cols_log);
        let (out_dim, in_dim) = if self.transpose {
            (num_cols, num_rows)
        } else {
            (num_rows, num_cols)
        };
        let ghost nr = num_rows as int;
        let ghost nc = num_cols as int;
        let pf = padded_features;
        let total = out_dim * pf;
        let mut z_data: Vec<Fe> = Vec::new();
        let mut i: usize = 0;
        while i < total
            invariant
                i <= total,
                z_data.len() == i,
                forall|k: int| 0 <= k < i ==> (#[trigger] z_data@[k])@ == 0,
            decreases total - i,
        {
            z_data.push(Fe::zero());
            i = i + 1;
        }
        proof {
            assert forall|o: int, f: int| 0 <= o < out_dim && 0 <= f < pf implies (#[trigger] z_data@[o
                + f * out_dim])@ == spmv_value(edges@, weights@, h@, nr, nc, self.transpose, 0, o, f) by {
                lemma_index_bound(o, f, out_dim as int, pf as int);
            }
        }
        let mut e: usize = 0;
        while e < edges.len()
            invariant
                e <= edges.len(),
                weights.len() == edges.len(),
                num_rows == nr,
                num_cols == nc,
                out_dim == (if self.transpose { nc } else { nr }),
                in_dim == (if self.transpose { nr } else { nc }),
                out_dim == self.out_dim(),
                in_dim == self.in_dim(),
                nr == pow2(self.num_rows_log as nat),
                nc == pow2(self.num_cols_log as nat),
                pf == padded_features,
                total == out_dim * pf,
                h.len() >= in_dim * pf,
                z_data.len() == total,
                forall|o: int, f: int|
                    0 <= o < out_dim && 0 <= f < pf ==> (#[trigger] z_data@[o + f * out_dim])@
                        == spmv_value(edges@, weights@, h@, nr, nc, self.transpose, e as nat, o, f),
            decreases edges.len() - e,
        {
            let (row, col) = edges[e];
            if row < num_rows && col < num_cols {
                let w = match weights[e] {
                    Some(v) => v,
                    None => Fe::one(),
                };
                let (out_i, in_i) = if self.transpose {
                    (col, row)
                } else {
                    (row, col)
                };
                let mut f: usize = 0;
                while f < pf
                    invariant
                        e < edges.len(),
                        weights.len() == edges.len(),
                        edges@[e as int] == (row, col),
                        row < num_rows,
                        col < num_cols,
                        num_rows == nr,
                        num_cols == nc,
                        out_dim == (if self.transpose { nc } else { nr }),
                        in_dim == (if self.transpose { nr } else { nc }),
                        out_i == edge_out((row, col), self.transpose),
                        in_i == edge_in((row, col), self.transpose),
                        out_i < out_dim,
                        in_i < in_dim,
                        w@ == edge_weight(weights@[e as int]),
                        pf == padded_features,
                        total == out_dim * pf,
                        h.len() >= in_dim * pf,
                        z_data.len() == total,
                        f <= pf,
                        forall|o: int, ff: int|
                            0 <= o < out_dim && 0 <= ff < pf ==> (#[trigger] z_data@[o + ff * out_dim])@
                                == if o == out_i && ff < f {
                                spmv_value(edges@, weights@, h@, nr, nc, self.transpose, (e + 1) as nat, o, ff)
                            } else {
                                spmv_value(edges@, weights@, h@, nr, nc, self.transpose, e as nat, o, ff)
                            },
                    decreases pf - f,
                {
                    proof {
                        lemma_index_bound(in_i as int, f as int, in_dim as int, pf as int);
                        lemma_index_bound(out_i as int, f as int, out_dim as int, pf as int);
                    }
                    let h_idx = in_i + f * in_dim;
                    let z_idx = out_i + f * out_dim;
                    let ghost old_z = z_data@;
                    let nv = z_data[z_idx].add(&w.mul(&h[h_idx]));
                    z_data.set(z_idx, nv);
                    proof {
                        assert forall|o: int, ff: int|
                            0 <= o < out_dim && 0 <= ff < pf implies (#[trigger] z_data@[o + ff * out_dim])@
                                == if o == out_i && ff < f + 1 {
                                spmv_value(edges@, weights@, h@, nr, nc, self.transpose, (e + 1) as nat, o, ff)
                            } else {
                                spmv_value(edges@, weights@, h@, nr, nc, self.transpose, e as nat, o, ff)
                            } by {
                            lemma_group_index(o, ff, out_dim as int);
                            lemma_group_index(out_i as int, f as int, out_dim as int);
                            lemma_index_bound(o, ff, out_dim as int, pf as int);
                            if o + ff * out_dim != z_idx {
                                assert(old_z[o + ff * out_dim] == z_data@[o + ff * out_dim]);
                            }
                        }
                    }
                    f = f + 1;
                }
                proof {
                    assert forall|o: int, ff: int|
                        0 <= o < out_dim && 0 <= ff < pf implies (#[trigger] z_data@[o + ff * out_dim])@
                            == spmv_value(edges@, weights@, h@, nr, nc, self.transpose, (e + 1) as nat, o, ff) by {
                        lemma_index_bound(o, ff, out_dim as int, pf as int);
                    }
                }
            }
            e = e + 1;
        }
        z_data
    }
}

/// `Σ_{o<out_dim} L_o(r) · Z[o, f]` after the first `k` edges.
pub open spec fn weighted_output(
    edges: Seq<(usize, usize)>,
    weights: Seq<Option<Fe>>,
    h: Seq<Fe>,
    r: Seq<int>,
    nr: int,
    nc: int,
    transpose: bool,
    k: nat,
    f: int,
) -> int {
    let out_dim = if transpose {
        nc
    } else {
        nr
    };
    fsum(
        |o: int|
            fmul(
                lagrange_single(r, o as usize, r.len()),
                spmv_value(edges, weights, h, nr, nc, transpose, k, o, f),
            ),
        out_dim as nat,
    )
}

/// `Σ_{i<in_dim} A[i] · H[i, f]` for the bound adjacency `A` after the first
/// `k` edges.
pub open spec fn paired_adjacency(
    edges: Seq<(usize, usize)>,
    weights: Seq<Option<Fe>>,
    h: Seq<Fe>,
    r: Seq<int>,
    nr: int,
    nc: int,
    transpose: bool,
    k: nat,
    f: int,
) -> int {
    let in_dim = if transpose {
        nr
    } else {
        nc
    };
    fsum(
        |i: int| fmul(adj_value(edges, weights, r, nr, nc, transpose, k, i), h[i + f * in_dim]@),
        in_dim as nat,
    )
}

/// `a · (b · c) = (a · b) · c` up to the order of the factors, in the field.
proof fn lemma_fmul_rotate(a: int, b: int, c: int)
    ensures
        fmul(a, fmul(b, c)) == fmul(fmul(b, a), c),
{
    lemma_cong_mod(b * c);
    lemma_cong_mod(b * a);
    lemma_cong_mul(a, (b * c) % p(), a, b * c);
    lemma_cong_mul((b * a) % p(), c, b * a, c);
    assert(a * (b * c) == (b * a) * c) by (nonlinear_arith);
    lemma_residue(a * ((b * c) % p()));
    lemma_residue(((b * a) % p()) * c);
    lemma_cong_mod(a * ((b * c) % p()));
    lemma_cong_mod(((b * a) % p()) * c);
    lemma_cong_residues(fmul(a, fmul(b, c)), fmul(fmul(b, a), c));
}

/// `a · (s + d) ≡ a · s + a · d`.
proof fn lemma_fmul_fadd(a: int, s: int, d: int)
    ensures
        cong(fmul(a, fadd(s, d)), fmul(a, s) + fmul(a, d)),
{
    lemma_cong_mod(s + d);
    lemma_cong_mul(a, (s + d) % p(), a, s + d);
    assert(a * (s + d) == a * s + a * d) by (nonlinear_arith);
    lemma_cong_mod(a * s);
    lemma_cong_mod(a * d);
    lemma_cong_add(fmul(a, s), fmul(a, d), a * s, a * d);
    lemma_cong_mod(a * ((s + d) % p()));
}

proof fn lemma_pairing_prefix(
    edges: Seq<(usize, usize)>,
    weights: Seq<Option<Fe>>,
    h: Seq<Fe>,
    r: Seq<int>,
    nr: int,
    nc: int,
    transpose: bool,
    k: nat,
    f: int,
)
    requires
        k <= edges.len(),
        nr > 0,
        nc > 0,
        f >= 0,
    ensures
        weighted_output(edges, weights, h, r, nr, nc, transpose, k, f) == paired_adjacency(
            edges,
            weights,
            h,
            r,
            nr,
            nc,
            transpose,
            k,
            f,
        ),
    decreases k,
{
    let out_dim = if transpose {
        nc
    } else {
        nr
    };
    let in_dim = if transpose {
        nr
    } else {
        nc
    };
    let lhs = |kk: nat|
        |o: int|
            fmul(
                lagrange_single(r, o as usize, r.len()),
                spmv_value(edges, weights, h, nr, nc, transpose, kk, o, f),
            );
    let rhs = |kk: nat|
        |i: int| fmul(adj_value(edges, weights, r, nr, nc, transpose, kk, i), h[i + f * in_dim]@);
    if k == 0 {
        assert forall|o: int| 0 <= o < out_dim implies cong(#[trigger] lhs(0)(o), (|o: int| 0int)(o)) by {
            lemma_cong_mod(0);
        }
        lemma_fsum_congruent(lhs(0), |o: int| 0int, out_dim as nat);
        assert forall|i: int| 0 <= i < in_dim implies cong(#[trigger] rhs(0)(i), (|i: int| 0int)(i)) by {
            lemma_cong_mod(0);
        }
        lemma_fsum_congruent(rhs(0), |i: int| 0int, in_dim as nat);
        lemma_fsum_zero(out_dim as nat);
        lemma_fsum_zero(in_dim as nat);
    } else {
        let km = (k - 1) as nat;
        lemma_pairing_prefix(edges, weights, h, r, nr, nc, transpose, km, f);
        let e = edges[km as int];
        if e.0 < nr && e.1 < nc {
            let oe = edge_out(e, transpose);
            let ie = edge_in(e, transpose);
            let w = edge_weight(weights[km as int]);
            let hv = h[ie + f * in_dim]@;
            let lo = lagrange_single(r, edge_out_idx(e, transpose), r.len());
            assert(oe as usize == edge_out_idx(e, transpose));
            let dl = fmul(lo, fmul(w, hv));
            let dr = fmul(fmul(w, lo), hv);
            assert forall|o: int| 0 <= o < out_dim && o != oe implies cong(
                #[trigger] lhs(km)(o),
                lhs(k)(o),
            ) by {
            }
            assert(cong(lhs(k)(oe), lhs(km)(oe) + dl)) by {
                lemma_fmul_fadd(lo, spmv_value(edges, weights, h, nr, nc, transpose, km, oe, f), fmul(w, hv));
            }
            lemma_fsum_bump(lhs(km), lhs(k), out_dim as nat, oe, dl);
            assert forall|i: int| 0 <= i < in_dim && i != ie implies cong(
                #[trigger] rhs(km)(i),
                rhs(k)(i),
            ) by {
            }
            assert(cong(rhs(k)(ie), rhs(km)(ie) + dr)) by {
                let a = adj_value(edges, weights, r, nr, nc, transpose, km, ie);
                let b = fmul(w, lo);
                lemma_fmul_fadd(hv, a, b);
                assert(fmul(fadd(a, b), hv) == fmul(hv, fadd(a, b))) by {
                    assert(fadd(a, b) * hv == hv * fadd(a, b)) by (nonlinear_arith);
                }
                assert(fmul(a, hv) == fmul(hv, a)) by {
                    assert(a * hv == hv * a) by (nonlinear_arith);
                }
                assert(fmul(b, hv) == fmul(hv, b)) by {
                    assert(b * hv == hv * b) by (nonlinear_arith);
                }
            }
            lemma_fsum_bump(rhs(km), rhs(k), in_dim as nat, ie, dr);
            lemma_fmul_rotate(lo, w, hv);
        } else {
            assert forall|o: int| 0 <= o < out_dim implies cong(#[trigger] lhs(km)(o), lhs(k)(o)) by {
            }
            lemma_fsum_congruent(lhs(km), lhs(k), out_dim as nat);
            assert forall|i: int| 0 <= i < in_dim implies cong(#[trigger] rhs(km)(i), rhs(k)(i)) by {
            }
            lemma_fsum_congruent(rhs(km), rhs(k), in_dim as nat);
        }
    }
}

/// The bound adjacency reduces the product to one sum: for a feature `f`,
/// the output column weighted by the Lagrange basis at `r`,
/// `Σ_o L_o(r) · Z[o, f]`, equals `Σ_i A[i] · H[i, f]`, where `A` is the
/// sparse matrix with its output variables bound to `r`.
pub proof fn lemma_adjacency_pairs_with_input(
    spmv: SpMV,
    edges: Seq<(usize, usize)>,
    weights: Seq<Option<Fe>>,
    h: Seq<Fe>,
    r: Seq<int>,
    f: int,
)
    requires
        spmv.dims_ok(),
        f >= 0,
    ensures
        weighted_output(
            edges,
            weights,
            h,
            r,
            pow2(spmv.num_rows_log as nat) as int,
            pow2(spmv.num_cols_log as nat) as int,
            spmv.transpose,
            edges.len(),
            f,
        ) == paired_adjacency(
            edges,
            weights,
            h,
            r,
            pow2(spmv.num_rows_log as nat) as int,
            pow2(spmv.num_cols_log as nat) as int,
            spmv.transpose,
            edges.len(),
            f,
        ),
{
    lemma_pow2_pos(spmv.num_rows_log as nat);
    lemma_pow2_pos(spmv.num_cols_log as nat);
    lemma_pairing_prefix(
        edges,
        weights,
        h,
        r,
        pow2(spmv.num_rows_log as nat) as int,
        pow2(spmv.num_cols_log as nat) as int,
        spmv.transpose,
        edges.len(),
        f,
    );
}

/// Bit `v` of a machine word, read with a shift and a mask.
proof fn lemma_usize_bit(x: usize, v: usize)
    requires
        v < usize::BITS,
    ensures
        ((x >> v) & 1 == 1) == (bit(x as int, v as int) == 1),
        bit(x as int, v as int) == 0 || bit(x as int, v as int) == 1,
{
    let y = x as u64;
    let w = v as u64;
    assert(((x >> v) & 1) as u64 == (y >> w) & 1) by (bit_vector)
        requires
            v < usize::BITS,
            y == x,
            w == v,
    ;
    lemma_shift_bit(y, w);
    lemma_pow2_pos(v as nat);
}

/// The Lagrange basis polynomial read bit by bit is the basis polynomial of
/// the hypercube corner.
pub proof fn lemma_lagrange_single_is_basis(r: Seq<int>, idx: usize, k: nat)
    requires
        k <= r.len(),
        k <= usize::BITS,
    ensures
        lagrange_single(r, idx, k) == basis_at(r, idx as int, k),
    decreases k,
{
    if k > 0 {
        let km = (k - 1) as nat;
        let i = km as int;
        lemma_lagrange_single_is_basis(r, idx, km);
        let prev = lagrange_single(r, idx, km);
        lemma_usize_bit(idx, i as usize);
        if bit(idx as int, i) != 1 {
            lemma_cong_mod(1 - r[i]);
            lemma_cong_mul(prev, (1 - r[i]) % p(), prev, 1 - r[i]);
            lemma_residue(prev * ((1 - r[i]) % p()));
            lemma_residue(prev * (1 - r[i]));
            lemma_cong_residues(fmul(prev, (1 - r[i]) % p()), fmul(prev, 1 - r[i]));
        }
    }
}

/// Every accumulated output entry is a residue.
proof fn lemma_spmv_value_residue(
    edges: Seq<(usize, usize)>,
    weights: Seq<Option<Fe>>,
    h: Seq<Fe>,
    nr: int,
    nc: int,
    transpose: bool,
    k: nat,
    o: int,
    f: int,
)
    ensures
        0 <= spmv_value(edges, weights, h, nr, nc, transpose, k, o, f) < p(),
    decreases k,
{
    if k > 0 {
        lemma_spmv_value_residue(edges, weights, h, nr, nc, transpose, (k - 1) as nat, o, f);
        let prev = spmv_value(edges, weights, h, nr, nc, transpose, (k - 1) as nat, o, f);
        let e = edges[k - 1];
        let in_dim = if transpose {
            nr
        } else {
            nc
        };
        lemma_residue(prev + fmul(edge_weight(weights[k - 1]), h[edge_in(e, transpose) + f * in_dim]@));
    } else {
        lemma_residue(0);
    }
}

/// Column `f` of the product `Z`: `Z[o, f]` for `o < out_dim`.
pub open spec fn output_column(
    edges: Seq<(usize, usize)>,
    weights: Seq<Option<Fe>>,
    h: Seq<Fe>,
    nr: int,
    nc: int,
    transpose: bool,
    f: int,
) -> Seq<int> {
    let out_dim = if transpose {
        nc
    } else {
        nr
    };
    Seq::new(out_dim as nat, |o: int| spmv_value(edges, weights, h, nr, nc, transpose, edges.len(), o, f))
}

/// The claim the prover reduces by sumcheck holds of the product: the
/// multilinear extension of column `f` of `Z = S·H` (or `Sᵀ·H`) at `r` is
/// `Σ_i A[i] · H[i, f]`, where `A` is the sparse matrix with its output
/// variables bound to `r` (what `adjacency_partial_eval` computes).
pub proof fn lemma_spmv_claim_reduction(
    spmv: SpMV,
    edges: Seq<(usize, usize)>,
    weights: Seq<Option<Fe>>,
    h: Seq<Fe>,
    r: Seq<int>,
    f: int,
)
    requires
        spmv.dims_ok(),
        r.len() == spmv.out_log(),
        f >= 0,
    ensures
        mle(
            output_column(
                edges,
                weights,
                h,
                pow2(spmv.num_rows_log as nat) as int,
                pow2(spmv.num_cols_log as nat) as int,
                spmv.transpose,
                f,
            ),
            r,
        ) == paired_adjacency(
            edges,
            weights,
            h,
            r,
            pow2(spmv.num_rows_log as nat) as int,
            pow2(spmv.num_cols_log as nat) as int,
            spmv.transpose,
            edges.len(),
            f,
        ),
{
    let nr = pow2(spmv.num_rows_log as nat) as int;
    let nc = pow2(spmv.num_cols_log as nat) as int;
    let t = spmv.transpose;
    let n = spmv.out_log();
    let col = output_column(edges, weights, h, nr, nc, t, f);
    lemma_log_below_bits(n);
    assert forall|j: int| 0 <= j < col.len() implies 0 <= #[trigger] col[j] < p() by {
        lemma_spmv_value_residue(edges, weights, h, nr, nc, t, edges.len(), j, f);
    }
    lemma_mle_expansion(col, r, n);
    let g1 = |i: int| fmul(col[i], basis_at(r, i, n));
    let g2 = |o: int|
        fmul(lagrange_single(r, o as usize, r.len()), spmv_value(edges, weights, h, nr, nc, t, edges.len(), o, f));
    assert forall|i: int| 0 <= i < pow2(n) implies cong(#[trigger] g1(i), g2(i)) by {
        lemma_lagrange_single_is_basis(r, i as usize, n);
        assert((i as usize) as int == i);
        assert(col[i] * basis_at(r, i, n) == basis_at(r, i, n) * col[i]) by (nonlinear_arith);
    }
    lemma_fsum_congruent(g1, g2, pow2(n));
    lemma_adjacency_pairs_with_input(spmv, edges, weights, h, r, f);
}

/// The whole product as a table: entry `o + f · out_dim` is `Z[o, f]`, for
/// `nfeat` features.
pub open spec fn output_table(
    edges: Seq<(usize, usize)>,
    weights: Seq<Option<Fe>>,
    h: Seq<Fe>,
    nr: int,
    nc: int,
    transpose: bool,
    nfeat: nat,
) -> Seq<int> {
    let out_dim = if transpose {
        nc
    } else {
        nr
    };
    Seq::new(
        (out_dim * nfeat) as nat,
        |x: int| spmv_value(edges, weights, h, nr, nc, transpose, edges.len(), x % out_dim, x / out_dim),
    )
}

/// `(a · b) · c = (b · c) · a` in the field.
proof fn lemma_fmul_cycle(a: int, b: int, c: int)
    ensures
        fmul(fmul(a, b), c) == fmul(fmul(b, c), a),
{
    lemma_cong_mod(a * b);
    lemma_cong_mod(b * c);
    lemma_cong_mul((a * b) % p(), c, a * b, c);
    lemma_cong_mul((b * c) % p(), a, b * c, a);
    assert((a * b) * c == (b * c) * a) by (nonlinear_arith);
    lemma_residue(((a * b) % p()) * c);
    lemma_residue(((b * c) % p()) * a);
    lemma_cong_mod(((a * b) % p()) * c);
    lemma_cong_mod(((b * c) % p()) * a);
    lemma_cong_residues(fmul(fmul(a, b), c), fmul(fmul(b, c), a));
}

/// What the sparse-times-dense sumcheck proves holds of the product: at any
/// point `(r_out, r_f)`, the multilinear extension of `Z = S·H` (or `Sᵀ·H`)
/// is `Σ_i A[i] · H̃_i(r_f)`, where `A` is the sparse matrix with its output
/// variables bound to `r_out` and `H̃_i` the features of input row `i` as a
/// multilinear polynomial.
pub proof fn lemma_spmv_point_claim(
    spmv: SpMV,
    edges: Seq<(usize, usize)>,
    weights: Seq<Option<Fe>>,
    h: Seq<Fe>,
    nf: nat,
    r_out: Seq<int>,
    r_f: Seq<int>,
)
    requires
        spmv.dims_ok(),
        r_out.len() == spmv.out_log(),
        r_f.len() == nf,
        h.len() == spmv.in_dim() * pow2(nf),
    ensures
        mle(
            output_table(
                edges,
                weights,
                h,
                pow2(spmv.num_rows_log as nat) as int,
                pow2(spmv.num_cols_log as nat) as int,
                spmv.transpose,
                pow2(nf),
            ),
            r_out + r_f,
        ) == fsum(
            |i: int|
                fmul(
                    adj_value(
                        edges,
                        weights,
                        r_out,
                        pow2(spmv.num_rows_log as nat) as int,
                        pow2(spmv.num_cols_log as nat) as int,
                        spmv.transpose,
                        edges.len(),
                        i,
                    ),
                    mle(high_column(fvals(h), spmv.in_dim(), pow2(nf), i), r_f),
                ),
            spmv.in_dim() as nat,
        ),
{
    let nr = pow2(spmv.num_rows_log as nat) as int;
    let nc = pow2(spmv.num_cols_log as nat) as int;
    let t = spmv.transpose;
    let n_out = spmv.out_log();
    let out_dim = pow2(n_out) as int;
    let in_dim = spmv.in_dim();
    let nfeat = pow2(nf);
    let z = output_table(edges, weights, h, nr, nc, t, nfeat);
    lemma_pow2_pos(n_out);
    lemma_pow2_pos(nf);
    lemma_pow2_pos(spmv.in_log());
    lemma_pow2_adds(n_out, nf);
    assert(z.len() == pow2(n_out + nf));
    // Bind the output variables first, then the features.
    lemma_folds_concat(z, r_out, r_f);
    let pz = folds(z, r_out);
    assert(r_out + r_f == r_out + r_f);
    assert(mle(z, r_out + r_f) == mle(pz, r_f));
    let paired = |f: int| paired_adjacency(edges, weights, h, r_out, nr, nc, t, edges.len(), f);
    assert(pz.len() == nfeat) by {
        lemma_folds_blocks(z, r_out, n_out + nf, 0);
        assert((n_out + nf - n_out) as nat == nf);
    }
    assert forall|f: int| 0 <= f < nfeat implies #[trigger] pz[f] == paired(f) by {
        assert((n_out + nf - n_out) as nat == nf);
        lemma_folds_blocks(z, r_out, n_out + nf, f);
        let col = output_column(edges, weights, h, nr, nc, t, f);
        assert(out_dim == (if t { nc } else { nr }));
        assert(f * out_dim + out_dim <= out_dim * nfeat) by (nonlinear_arith)
            requires
                0 <= f < nfeat,
                out_dim > 0,
        ;
        assert((f + 1) * out_dim == f * out_dim + out_dim) by (nonlinear_arith);
        assert(0 <= f * out_dim) by (nonlinear_arith)
            requires
                0 <= f,
                out_dim > 0,
        ;
        let sub = z.subrange(f * out_dim, (f + 1) * out_dim);
        assert(sub =~= col) by {
            assert forall|o: int| 0 <= o < out_dim implies sub[o] == col[o] by {
                crate::basicblock::lemma_group_index(o, f, out_dim);
                assert(f * out_dim + o == o + f * out_dim);
                assert(sub[o] == z[f * out_dim + o]);
            }
        }
        lemma_spmv_claim_reduction(spmv, edges, weights, h, r_out, f);
    }
    assert forall|f: int| 0 <= f < pz.len() implies 0 <= #[trigger] pz[f] < p() by {
        lemma_fsum_residue(
            |i: int| fmul(adj_value(edges, weights, r_out, nr, nc, t, edges.len(), i), h[i + f * in_dim]@),
            in_dim as nat,
        );
    }
    lemma_mle_expansion(pz, r_f, nf);
    let bas = |f: int| basis_at(r_f, f, nf);
    let av = |i: int| adj_value(edges, weights, r_out, nr, nc, t, edges.len(), i);
    let hv = |i: int, f: int| h[i + f * in_dim]@;
    let c = |f: int, i: int| fmul(fmul(av(i), hv(i, f)), bas(f));
    // Left: Σ_f pz[f] · B_f = Σ_f Σ_i c(f, i)
    let left1 = |f: int| fmul(pz[f], basis_at(r_f, f, nf));
    let left2 = |f: int| fsum(|i: int| c(f, i), in_dim as nat);
    assert forall|f: int| 0 <= f < nfeat implies cong(#[trigger] left1(f), left2(f)) by {
        let g = |i: int| fmul(av(i), hv(i, f));
        lemma_fsum_scale(g, bas(f), in_dim as nat);
        lemma_fsum_congruent(|i: int| fmul(g(i), bas(f)), |i: int| c(f, i), in_dim as nat);
        lemma_fsum_congruent(
            |i: int| fmul(adj_value(edges, weights, r_out, nr, nc, t, edges.len(), i), h[i + f * in_dim]@),
            g,
            in_dim as nat,
        );
    }
    lemma_fsum_congruent(left1, left2, nfeat);
    lemma_fsum_swap(c, nfeat, in_dim as nat);
    // Right: Σ_i A_i · H̃_i(r_f) = Σ_i Σ_f c(f, i)
    let right1 = |i: int| fmul(av(i), mle(high_column(fvals(h), in_dim, nfeat, i), r_f));
    let right2 = |i: int| fsum(|f: int| c(f, i), nfeat);
    assert forall|i: int| 0 <= i < in_dim implies cong(#[trigger] right1(i), right2(i)) by {
        let hc = high_column(fvals(h), in_dim, nfeat, i);
        assert forall|f: int| 0 <= f < hc.len() implies 0 <= #[trigger] hc[f] < p() && hc[f] == hv(i, f) by {
            crate::basicblock::lemma_index_bound(i, f, in_dim, nfeat as int);
            lemma_fe_range(h[i + f * in_dim]);
        }
        lemma_mle_expansion(hc, r_f, nf);
        let g = |f: int| fmul(hc[f], basis_at(r_f, f, nf));
        lemma_fsum_scale(g, av(i), nfeat);
        let ga = |f: int| fmul(g(f), av(i));
        let ci = |f: int| c(f, i);
        assert forall|f: int| 0 <= f < nfeat implies cong(#[trigger] ga(f), ci(f)) by {
            lemma_fmul_cycle(av(i), hv(i, f), bas(f));
        }
        lemma_fsum_congruent(ga, ci, nfeat);
        let m = fsum(g, nfeat);
        assert(fmul(av(i), m) == fmul(m, av(i))) by {
            assert(av(i) * m == m * av(i)) by (nonlinear_arith);
        }
    }
    lemma_fsum_congruent(right1, right2, in_dim as nat);
    lemma_fsum_congruent(
        |i: int|
            fmul(
                adj_value(edges, weights, r_out, nr, nc, t, edges.len(), i),
                mle(high_column(fvals(h), in_dim, nfeat, i), r_f),
            ),
        right1,
        in_dim as nat,
    );
}

/// `Σ_e w_e · L_{row_e + col_e · nr}(x)` over the first `k` edges inside the
/// matrix: the multilinear extension of the sparse matrix (row variables
/// first) at `x`.
pub open spec fn sparse_mle(
    edges: Seq<(usize, usize)>,
    weights: Seq<Option<Fe>>,
    x: Seq<int>,
    nr: int,
    nc: int,
    k: nat,
) -> int
    decreases k,
{
    if k == 0 {
        0
    } else {
        let prev = sparse_mle(edges, weights, x, nr, nc, (k - 1) as nat);
        let e = edges[k - 1];
        if e.0 < nr && e.1 < nc {
            fadd(prev, fmul(edge_weight(weights[k - 1]), lagrange_single(x, (e.0 + e.1 * nr) as usize, x.len())))
        } else {
            prev
        }
    }
}

/// Evaluates the sparse matrix of `2^num_rows_log × 2^num_cols_log` given by
/// its edges at `point`, as a multilinear polynomial whose first variables
/// are the row bits: the sum over the edges inside the matrix of the edge
/// weight (1 where none is stored) times the Lagrange basis polynomial of
/// `row + col · 2^num_rows_log` at `point`.
pub fn evaluate_sparse_at_point(
    edges: &[(usize, usize)],
    weights: &[Option<Fe>],
    num_rows_log: usize,
    num_cols_log: usize,
    point: &[Fe],
) -> (r: Fe)
    requires
        weights.len() == edges.len(),
        point.len() == num_rows_log + num_cols_log,
        pow2((num_rows_log + num_cols_log) as nat) <= usize::MAX,
    ensures
        r@ == sparse_mle(
            edges@,
            weights@,
            fvals(point@),
            pow2(num_rows_log as nat) as int,
            pow2(num_cols_log as nat) as int,
            edges.len() as nat,
        ),
{
    proof {
        lemma_pow2_adds(num_rows_log as nat, num_cols_log as nat);
        lemma_pow2_pos(num_rows_log as nat);
        lemma_pow2_pos(num_cols_log as nat);
        if num_rows_log < num_rows_log + num_cols_log {
            lemma_pow2_strictly_increases(num_rows_log as nat, (num_rows_log + num_cols_log) as nat);
        }
        if num_cols_log < num_rows_log + num_cols_log {
            lemma_pow2_strictly_increases(num_cols_log as nat, (num_rows_log + num_cols_log) as nat);
        }
        lemma_log_below_bits((num_rows_log + num_cols_log) as nat);
    }
    let num_rows = pow2_usize(num_rows_log);
    let num_cols = pow2_usize(num_cols_log);
    let ghost x = fvals(point@);
    let mut acc = Fe::zero();
    let mut e: usize = 0;
    while e < edges.len()
        invariant
            e <= edges.len(),
            weights.len() == edges.len(),
            num_rows == pow2(num_rows_log as nat),
            num_cols == pow2(num_cols_log as nat),
            num_rows * num_cols <= usize::MAX,
            point.len() <= usize::BITS,
            x == fvals(point@),
            acc@ == sparse_mle(edges@, weights@, x, num_rows as int, num_cols as int, e as nat),
        decreases edges.len() - e,
    {
        let (row, col) = edges[e];
        if row < num_rows && col < num_cols {
            assert(row + col * num_rows < num_rows * num_cols) by (nonlinear_arith)
                requires
                    row < num_rows,
                    col < num_cols,
            ;
            let idx = row + col * num_rows;
            let w = match weights[e] {
                Some(v) => v,
                None => Fe::one(),
            };
            let basis_val = evaluate_lagrange_single(point, idx);
            acc = acc.add(&w.mul(&basis_val));
        }
        e = e + 1;
    }
    acc
}

/// `v[lo..hi]` as a vector.
fn fes_range(v: &[Fe], lo: usize, hi: usize) -> (r: Vec<Fe>)
    requires
        lo <= hi <= v.len(),
    ensures
        r@ == v@.subrange(lo as int, hi as int),
{
    let mut r: Vec<Fe> = Vec::new();
    let mut i: usize = lo;
    while i < hi
        invariant
            lo <= i <= hi,
            hi <= v.len(),
            r@ == v@.subrange(lo as int, i as int),
        decreases hi - i,
    {
        r.push(v[i]);
        i = i + 1;
        assert(r@ =~= v@.subrange(lo as int, i as int));
    }
    r
}

/// `a` followed by `b`.
fn fes_concat(a: &[Fe], b: &[Fe]) -> (r: Vec<Fe>)
    ensures
        r@ == a@ + b@,
{
    let mut r: Vec<Fe> = Vec::new();
    let mut i: usize = 0;
    while i < a.len()
        invariant
            i <= a.len(),
            r@ == a@.subrange(0, i as int),
        decreases a.len() - i,
    {
        r.push(a[i]);
        i = i + 1;
        assert(r@ =~= a@.subrange(0, i as int));
    }
    let mut j: usize = 0;
    while j < b.len()
        invariant
            j <= b.len(),
            r@ == a@ + b@.subrange(0, j as int),
        decreases b.len() - j,
    {
        r.push(b[j]);
        j = j + 1;
        assert(r@ =~= a@ + b@.subrange(0, j as int));
    }
    assert(a@.subrange(0, a.len() as int) =~= a@);
    assert(b@.subrange(0, b.len() as int) =~= b@);
    r
}

/// Residues commute with concatenation.
proof fn lemma_fvals_concat(a: Seq<Fe>, b: Seq<Fe>)
    ensures
        fvals(a + b) == fvals(a) + fvals(b),
{
    assert(fvals(a + b) =~= fvals(a) + fvals(b));
}

impl SpMV {
    /// The sparse matrix with its output variables bound to `fixed`, as a
    /// table over the input rows.
    pub open spec fn adj_table(
        &self,
        edges: Seq<(usize, usize)>,
        weights: Seq<Option<Fe>>,
        fixed: Seq<int>,
    ) -> Seq<int> {
        Seq::new(
            self.in_dim() as nat,
            |i: int|
                adj_value(
                    edges,
                    weights,
                    fixed,
                    pow2(self.num_rows_log as nat) as int,
                    pow2(self.num_cols_log as nat) as int,
                    self.transpose,
                    edges.len(),
                    i,
                ),
        )
    }

    /// `H` with its feature variables bound to `hp`, as a table over the
    /// input rows.
    pub open spec fn h_partial_table(&self, h: Seq<int>, hp: Seq<int>) -> Seq<int> {
        Seq::new(
            self.in_dim() as nat,
            |i: int| mle(high_column(h, self.in_dim(), pow2(hp.len()), i), hp),
        )
    }

    /// The point of the adjacency claim: the row coordinates, then the
    /// column coordinates.
    pub open spec fn adj_point(&self, fixed: Seq<int>, chs: Seq<int>) -> Seq<int> {
        if self.transpose {
            chs + fixed
        } else {
            fixed + chs
        }
    }

    /// The transcript after the sumcheck prover or verifier of this block
    /// absorbed the instance size.
    pub open spec fn sumcheck_start(&self, log: Seq<u8>) -> Seq<u8> {
        t_append_u64(t_append_u64(log, LABEL_NUM_VAR, self.in_log() as u64), LABEL_NUM_POLY, 2)
    }

    /// The two tables the sumcheck runs on for the output point `pt`: the
    /// bound sparse matrix and `H` with its features bound.
    pub open spec fn instance_tables(
        &self,
        edges: Seq<(usize, usize)>,
        weights: Seq<Option<Fe>>,
        h: Seq<int>,
        pt: Seq<int>,
    ) -> Seq<Seq<int>> {
        seq![
            self.adj_table(edges, weights, pt.take(self.out_log() as int)),
            self.h_partial_table(h, pt.skip(self.out_log() as int)),
        ]
    }

    /// The claims the prover returns for the output point `pt` and the
    /// challenges `chs`: on the sparse matrix at its row and column points,
    /// and on `H` at `chs` followed by the feature point, each with its true
    /// value.
    pub open spec fn claims_ok(
        &self,
        edges: Seq<(usize, usize)>,
        weights: Seq<Option<Fe>>,
        h: Seq<int>,
        edge_ids: Seq<EdgeId>,
        pt: Seq<int>,
        chs: Seq<int>,
        claims: Seq<Claim>,
    ) -> bool {
        let fixed = pt.take(self.out_log() as int);
        let hp = pt.skip(self.out_log() as int);
        let ap = self.adj_point(fixed, chs);
        &&& claims.len() == 2
        &&& claims[0].edge_id == edge_ids[0]
        &&& claims[0].sparse_id == 0
        &&& fvals(claims[0].point@) == ap
        &&& claims[0].eval@ == sparse_mle(
            edges,
            weights,
            ap,
            pow2(self.num_rows_log as nat) as int,
            pow2(self.num_cols_log as nat) as int,
            edges.len(),
        )
        &&& claims[1].edge_id == edge_ids[1]
        &&& claims[1].sparse_id == 0
        &&& fvals(claims[1].point@) == chs + hp
        &&& claims[1].eval@ == mle(h, chs + hp)
    }

    /// The output point split into its output and feature coordinates, and
    /// the two polynomials the sumcheck runs on.
    fn sumcheck_instances(
        &self,
        edges: &[(usize, usize)],
        weights: &[Option<Fe>],
        h: &DenseMLPoly,
        point: &Vec<Fe>,
    ) -> (r: (Vec<Fe>, Vec<Fe>, Vec<DenseMLPoly>))
        requires
            self.dims_ok(),
            weights.len() == edges.len(),
            self.edges_inside(edges@),
            point.len() >= self.out_log(),
            h.wf(),
            h.num_vars == self.in_log() + (point.len() - self.out_log()),
            pow2(h.num_vars as nat) <= usize::MAX,
        ensures
            r.0.len() == self.out_log(),
            r.1.len() == point.len() - self.out_log(),
            fvals(point@) == fvals(r.0@) + fvals(r.1@),
            r.2.len() == 2,
            forall|i: int| 0 <= i < 2 ==> (#[trigger] r.2@[i]).evaluations.len() == pow2(self.in_log()),
            poly_tables(r.2@) == self.instance_tables(edges@, weights@, h.table(), fvals(point@)),
            bound_tables(r.2@, seq![]) == self.instance_tables(edges@, weights@, h.table(), fvals(point@)),
    {
        let (log_output, log_inner) = if self.transpose {
            (self.num_cols_log, self.num_rows_log)
        } else {
            (self.num_rows_log, self.num_cols_log)
        };
        let fixed_point = fes_range(point.as_slice(), 0, log_output);
        let adjacency_eval = self.adjacency_partial_eval_by_basis(edges, weights, fixed_point.as_slice());
        let h_point = fes_range(point.as_slice(), log_output, point.len());
        let h_partial = fix_variables_from_right(h, h_point.as_slice());
        proof {
            lemma_pow2_pos(self.in_log());
            assert(h_partial.num_vars == log_inner);
        }
        let partial_adj = DenseMLPoly::new(log_inner, adjacency_eval);
        let instances = vec![partial_adj, h_partial];
        proof {
            let pt = fvals(point@);
            let fixed = pt.take(log_output as int);
            let hp = pt.skip(log_output as int);
            assert(fvals(fixed_point@) =~= fixed);
            assert(fvals(h_point@) =~= hp);
            assert(pt =~= fixed + hp);
            let tabs = self.instance_tables(edges@, weights@, h.table(), pt);
            assert(poly_tables(instances@) =~= tabs) by {
                assert(instances@[0].table() =~= tabs[0]);
                assert(instances@[1].table() =~= tabs[1]);
            }
            assert(bound_tables(instances@, seq![]) =~= tabs) by {
                assert forall|i: int| 0 <= i < 2 implies folds(#[trigger] instances@[i].table(), seq![]) == tabs[i] by {
                }
            }
        }
        (fixed_point, h_point, instances)
    }

    /// The claims on the two inputs after the sumcheck drew `challenges`:
    /// on the sparse matrix at its row and column points and on `H` at the
    /// challenges followed by `h_point`, each with its true value.
    fn input_claims(
        &self,
        edges: &[(usize, usize)],
        weights: &[Option<Fe>],
        h: &DenseMLPoly,
        edge_ids: &[EdgeId],
        fixed_point: &Vec<Fe>,
        h_point: &Vec<Fe>,
        challenges: &Vec<Fe>,
    ) -> (claims: Vec<Claim>)
        requires
            pow2((self.num_rows_log + self.num_cols_log) as nat) <= usize::MAX,
            weights.len() == edges.len(),
            edge_ids.len() >= 2,
            h.wf(),
            fixed_point.len() == self.out_log(),
            challenges.len() == self.in_log(),
            h.num_vars == challenges.len() + h_point.len(),
        ensures
            self.claims_ok(
                edges@,
                weights@,
                h.table(),
                edge_ids@,
                fvals(fixed_point@) + fvals(h_point@),
                fvals(challenges@),
                claims@,
            ),
    {
        let h_final_point = fes_concat(challenges.as_slice(), h_point.as_slice());
        let h_eval = h.evaluate_at_point(h_final_point.as_slice());
        let h_claim = Claim { edge_id: edge_ids[1], sparse_id: 0, point: h_final_point, eval: h_eval };
        let adj_full_point = if self.transpose {
            fes_concat(challenges.as_slice(), fixed_point.as_slice())
        } else {
            fes_concat(fixed_point.as_slice(), challenges.as_slice())
        };
        let adj_eval = evaluate_sparse_at_point(
            edges,
            weights,
            self.num_rows_log,
            self.num_cols_log,
            adj_full_point.as_slice(),
        );
        let adj_claim = Claim { edge_id: edge_ids[0], sparse_id: 0, point: adj_full_point, eval: adj_eval };
        proof {
            let pt = fvals(fixed_point@) + fvals(h_point@);
            assert(pt.take(self.out_log() as int) =~= fvals(fixed_point@));
            assert(pt.skip(self.out_log() as int) =~= fvals(h_point@));
            lemma_fvals_concat(challenges@, h_point@);
            lemma_fvals_concat(challenges@, fixed_point@);
            lemma_fvals_concat(fixed_point@, challenges@);
        }
        vec![adj_claim, h_claim]
    }

    /// Reduces the claim on the output at `out_claims[0].point = (r_out, r_f)`
    /// to claims on the two inputs: binds the output variables of the sparse
    /// matrix to `r_out` and the feature variables of `H` to `r_f`, runs the
    /// sumcheck on their product over the input rows, and returns its proof
    /// with a claim on the sparse matrix (at the row and column points) and
    /// one on `H` (at the challenges and `r_f`), each with its true value.
    pub fn prove(
        &self,
        edges: &[(usize, usize)],
        weights: &[Option<Fe>],
        h: &DenseMLPoly,
        edge_ids: &[EdgeId],
        out_claims: &[Claim],
        transcript: &mut Transcript,
    ) -> (r: (Vec<SumcheckProof>, Vec<Claim>))
        requires
            self.dims_ok(),
            pow2((self.num_rows_log + self.num_cols_log) as nat) <= usize::MAX,
            weights.len() == edges.len(),
            self.edges_inside(edges@),
            edge_ids.len() >= 2,
            out_claims.len() == 1,
            out_claims[0].point.len() >= self.out_log(),
            h.wf(),
            h.num_vars == self.in_log() + (out_claims[0].point.len() - self.out_log()),
            pow2(h.num_vars as nat) <= usize::MAX,
        ensures
            r.0.len() == 1,
            r.1.len() == 2,
            ({
                let pt = fvals(out_claims[0].point@);
                let log1 = self.sumcheck_start(old(transcript)@);
                let chs = rounds_challenges(log1, msgs_vals(r.0[0].round_messages@));
                &&& sumcheck_proof_ok(
                    self.instance_tables(edges@, weights@, h.table(), pt),
                    r.0[0],
                    log1,
                    self.in_log(),
                    final(transcript)@,
                )
                &&& self.claims_ok(edges@, weights@, h.table(), edge_ids@, pt, chs, r.1@)
            }),
    {
        let point = &out_claims[0].point;
        let log_inner = if self.transpose {
            self.num_rows_log
        } else {
            self.num_cols_log
        };
        let (fixed_point, h_point, instances) = self.sumcheck_instances(edges, weights, h, point);
        let ghost pt = fvals(point@);
        let (sumcheck_proof, challenges) = run_sumcheck(log_inner, &instances, transcript);
        proof {
            assert(pt =~= fvals(fixed_point@) + fvals(h_point@));
        }
        let claims = self.input_claims(edges, weights, h, edge_ids, &fixed_point, &h_point, &challenges);
        (vec![sumcheck_proof], claims)
    }

    /// `prove` in zero-knowledge mode when `ctx.zk` is set (the sumcheck
    /// masks its rounds), otherwise `prove`.
    pub fn prove_zk<C: MaskCommitter>(
        &self,
        edges: &[(usize, usize)],
        weights: &[Option<Fe>],
        h: &DenseMLPoly,
        edge_ids: &[EdgeId],
        out_claims: &[Claim],
        transcript: &mut Transcript,
        ctx: &mut ProveContext<C>,
    ) -> (r: (Vec<SumcheckProof>, Vec<Claim>))
        requires
            self.dims_ok(),
            pow2((self.num_rows_log + self.num_cols_log) as nat) <= usize::MAX,
            weights.len() == edges.len(),
            self.edges_inside(edges@),
            edge_ids.len() >= 2,
            out_claims.len() == 1,
            out_claims[0].point.len() >= self.out_log(),
            h.wf(),
            h.num_vars == self.in_log() + (out_claims[0].point.len() - self.out_log()),
            pow2(h.num_vars as nat) <= usize::MAX,
            old(ctx).zk ==> 1 <= self.in_log() <= 64,
        ensures
            *final(ctx) == *old(ctx),
            r.0.len() == 1,
            r.1.len() == 2,
            ({
                let pt = fvals(out_claims[0].point@);
                let log1 = self.sumcheck_start(old(transcript)@);
                let tabs = self.instance_tables(edges@, weights@, h.table(), pt);
                let proof = r.0[0];
                let ms = msgs_vals(proof.round_messages@);
                &&& !old(ctx).zk ==> {
                    &&& sumcheck_proof_ok(tabs, proof, log1, self.in_log(), final(transcript)@)
                    &&& self.claims_ok(edges@, weights@, h.table(), edge_ids@, pt, rounds_challenges(log1, ms), r.1@)
                }
                &&& old(ctx).zk ==> {
                    &&& zk_sumcheck_proof_ok(tabs, proof, log1, self.in_log(), old(ctx).mask_committer is Some, final(transcript)@)
                    &&& self.claims_ok(
                        edges@,
                        weights@,
                        h.table(),
                        edge_ids@,
                        pt,
                        rounds_challenges(zk_rounds_start(proof, log1), ms),
                        r.1@,
                    )
                }
            }),
    {
        if !ctx.zk {
            return self.prove(edges, weights, h, edge_ids, out_claims, transcript);
        }
        let point = &out_claims[0].point;
        let log_inner = if self.transpose {
            self.num_rows_log
        } else {
            self.num_cols_log
        };
        let (fixed_point, h_point, instances) = self.sumcheck_instances(edges, weights, h, point);
        let ghost pt = fvals(point@);
        let (sumcheck_proof, challenges) = run_zk_sumcheck(log_inner, &instances, transcript, ctx);
        proof {
            assert(pt =~= fvals(fixed_point@) + fvals(h_point@));
        }
        let claims = self.input_claims(edges, weights, h, edge_ids, &fixed_point, &h_point, &challenges);
        (vec![sumcheck_proof], claims)
    }

    /// Checks the sumcheck proof of this block: its rounds against the
    /// output claim (the last of `claims`), and its final value against the
    /// product of the claims on the sparse matrix (`claims[0]`) and on `H`
    /// (`claims[1]`).
    pub fn verify(&self, claims: &[Claim], sumcheck_proofs: &[SumcheckProof], transcript: &mut Transcript) -> (ok:
        bool)
        requires
            claims.len() >= 2,
            sumcheck_proofs.len() >= 1,
        ensures
            ({
                let out = verify_spec(
                    self.in_log(),
                    2,
                    self.sumcheck_start(old(transcript)@),
                    msgs_vals(sumcheck_proofs[0].round_messages@),
                    claims[claims.len() - 1].eval@,
                );
                &&& final(transcript)@ == out.3
                &&& ok == (out.0 && out.1 == fmul(claims[0].eval@, claims[1].eval@))
            }),
    {
        let out_claim = &claims[claims.len() - 1];
        let expected_sum = out_claim.eval;
        let log_inner = if self.transpose {
            self.num_rows_log
        } else {
            self.num_cols_log
        };
        let mut verifier = SumcheckVerifier::new(log_inner, 2, transcript);
        let msgs = copy_round_messages(&sumcheck_proofs[0].round_messages);
        let (verification_result, _challenges) = verifier.verify(transcript, msgs, expected_sum);
        match verification_result {
            Some(running_sum) => {
                let expected = claims[0].eval.mul(&claims[1].eval);
                running_sum.equals(&expected)
            },
            None => false,
        }
    }

    /// `verify` in zero-knowledge mode when `ctx.zk` is set: the rounds are
    /// checked against the output claim plus `ρ` times the mask sum, the
    /// final value against the product of the input claims plus `ρ` times
    /// the mask at the challenges, then the mask itself is checked and the
    /// mask-opening challenges are drawn again; otherwise `verify`.
    pub fn verify_zk<C: MaskCommitter>(
        &self,
        claims: &[Claim],
        sumcheck_proofs: &[SumcheckProof],
        transcript: &mut Transcript,
        ctx: &ProveContext<C>,
    ) -> (ok: bool)
        requires
            claims.len() >= 2,
            sumcheck_proofs.len() >= 1,
        ensures
            !ctx.zk ==> ({
                let out = verify_spec(
                    self.in_log(),
                    2,
                    self.sumcheck_start(old(transcript)@),
                    msgs_vals(sumcheck_proofs[0].round_messages@),
                    claims[claims.len() - 1].eval@,
                );
                &&& final(transcript)@ == out.3
                &&& ok == (out.0 && out.1 == fmul(claims[0].eval@, claims[1].eval@))
            }),
            ctx.zk ==> ({
                let proof = sumcheck_proofs[0];
                let log1 = self.sumcheck_start(old(transcript)@);
                let sm = proof.zk_mask_sum->0@;
                let pre = zk_preamble_log(log1, mask_commitment_view(proof), sm);
                let rho = t_challenge(pre, LABEL_RHO);
                let out = verify_spec(
                    self.in_log(),
                    2,
                    t_after_challenge(pre, LABEL_RHO),
                    msgs_vals(proof.round_messages@),
                    fadd(claims[claims.len() - 1].eval@, fmul(rho, sm)),
                );
                let mask_term = match proof.zk_mask_coeffs {
                    Some(c) => mask_eval(coeffs_vals(c@), out.2, c.len() as nat),
                    None => 0,
                };
                let passes = proof.zk_mask_sum is Some && mask_shape_ok(proof, self.in_log() as nat) && out.0
                    && out.1 == fadd(fmul(claims[0].eval@, claims[1].eval@), fmul(rho, mask_term)) && (
                proof.zk_mask_coeffs is Some ==> mask_checks(proof) && committer_verdict(proof, ctx.mask_committer));
                &&& ok == passes
                &&& proof.zk_mask_sum is None || !mask_shape_ok(proof, self.in_log() as nat)
                    ==> final(transcript)@ == log1
                &&& proof.zk_mask_sum is Some && mask_shape_ok(proof, self.in_log() as nat) && !ok
                    ==> final(transcript)@ == out.3
                &&& ok ==> final(transcript)@ == t_after_challenges(
                    out.3,
                    LABEL_MASK_OPEN,
                    match proof.zk_mask_opening_point {
                        Some(pt) => pt.len() as nat,
                        None => 0,
                    },
                )
            }),
    {
        if !ctx.zk {
            return self.verify(claims, sumcheck_proofs, transcript);
        }
        let out_claim = &claims[claims.len() - 1];
        let expected_sum = out_claim.eval;
        let log_inner = if self.transpose {
            self.num_rows_log
        } else {
            self.num_cols_log
        };
        let mut verifier = SumcheckVerifier::new(log_inner, 2, transcript);
        let mask_sum = match sumcheck_proofs[0].zk_mask_sum {
            Some(v) => v,
            None => {
                return false;
            },
        };
        let shape_ok = match &sumcheck_proofs[0].zk_mask_coeffs {
            Some(c) => mask_fields_ok(c, log_inner),
            None => true,
        };
        if !shape_ok {
            return false;
        }
        let msgs = copy_round_messages(&sumcheck_proofs[0].round_messages);
        let commitment: Option<&[u8]> = match &sumcheck_proofs[0].zk_mask_commitment {
            Some(c) => Some(c.as_slice()),
            None => None,
        };
        let (verification_result, challenges, rho) = verifier.verify_zk(
            transcript,
            msgs,
            expected_sum,
            mask_sum,
            commitment,
        );
        let running_sum = match verification_result {
            Some(v) => v,
            None => {
                return false;
            },
        };
        proof {
            let l = t_after_challenge(
                zk_preamble_log(
                    self.sumcheck_start(old(transcript)@),
                    mask_commitment_view(sumcheck_proofs[0]),
                    mask_sum@,
                ),
                LABEL_RHO,
            );
            let ms = msgs_vals(sumcheck_proofs[0].round_messages@);
            let adjusted = fadd(expected_sum@, fmul(rho@, mask_sum@));
            assert(ms.len() == log_inner);
            lemma_verify_rounds_replays(2, l, ms, adjusted, seq![], l, seq![]);
            assert(seq![] + ms =~= ms);
            lemma_rounds_take(l, ms, 0);
            assert(challenges.len() == fvals(challenges@).len());
        }
        let mask_eval_val = match &sumcheck_proofs[0].zk_mask_coeffs {
            Some(mask_coeffs) => recompute_mask_eval(mask_coeffs.as_slice(), challenges.as_slice()),
            None => Fe::zero(),
        };
        let expected = claims[0].eval.mul(&claims[1].eval).add(&rho.mul(&mask_eval_val));
        if !running_sum.equals(&expected) {
            return false;
        }
        let committer: Option<&C> = match &ctx.mask_committer {
            Some(c) => Some(c),
            None => None,
        };
        if !verify_mask_consistency(&sumcheck_proofs[0], committer) {
            return false;
        }
        replay_mask_opening_transcript(&sumcheck_proofs[0], transcript);
        true
    }
}


/// The sum over the hypercube of the product of two tables is the sum of
/// the products of their entries.
proof fn lemma_pair_sum(tabs: Seq<Seq<int>>, m: nat)
    requires
        tabs.len() == 2,
        m <= tabs[0].len(),
        forall|x: int| 0 <= x < tabs[0].len() ==> 0 <= #[trigger] tabs[0][x] < p(),
    ensures
        hypercube_sum(tabs, m) == fsum(|x: int| fmul(tabs[0][x], tabs[1][x]), m),
    decreases m,
{
    if m > 0 {
        lemma_pair_sum(tabs, (m - 1) as nat);
        let x = m - 1;
        assert(point_prod(tabs, x, 0) == 1);
        assert(point_prod(tabs, x, 1) == fmul(1, tabs[0][x]));
        vstd::arithmetic::div_mod::lemma_small_mod(tabs[0][x] as nat, p() as nat);
        assert(point_prod(tabs, x, 2) == fmul(tabs[0][x], tabs[1][x]));
    }
}

/// Every entry of the bound sparse matrix is a residue.
proof fn lemma_adj_value_residue(
    edges: Seq<(usize, usize)>,
    weights: Seq<Option<Fe>>,
    r: Seq<int>,
    nr: int,
    nc: int,
    transpose: bool,
    k: nat,
    i: int,
)
    ensures
        0 <= adj_value(edges, weights, r, nr, nc, transpose, k, i) < p(),
    decreases k,
{
    if k > 0 {
        lemma_adj_value_residue(edges, weights, r, nr, nc, transpose, (k - 1) as nat, i);
        let e = edges[k - 1];
        lemma_residue(
            adj_value(edges, weights, r, nr, nc, transpose, (k - 1) as nat, i) + fmul(
                edge_weight(weights[k - 1]),
                lagrange_single(r, edge_out_idx(e, transpose), r.len()),
            ),
        );
    } else {
        lemma_residue(0);
    }
}

/// The multilinear extension of a table of residues is a residue.
proof fn lemma_mle_residue(e: Seq<int>, x: Seq<int>)
    requires
        forall|k: int| 0 <= k < e.len() ==> 0 <= #[trigger] e[k] < p(),
    ensures
        0 <= mle(e, x) < p(),
{
    lemma_folds_residues(e, x);
    if folds(e, x).len() > 0 {
        assert(0 <= folds(e, x)[0] < p());
    }
}

/// The sum the sumcheck starts from is the output claim: for an output
/// point `pt`, the sum over the input rows of the bound sparse matrix times
/// `H` with its features bound is the extension of `Z = S·H` (or `Sᵀ·H`)
/// at `pt`.
pub proof fn lemma_spmv_sum_is_output_claim(
    spmv: SpMV,
    edges: Seq<(usize, usize)>,
    weights: Seq<Option<Fe>>,
    h: Seq<Fe>,
    pt: Seq<int>,
)
    requires
        spmv.dims_ok(),
        pt.len() >= spmv.out_log(),
        h.len() == spmv.in_dim() * pow2((pt.len() - spmv.out_log()) as nat),
    ensures
        hypercube_sum(spmv.instance_tables(edges, weights, fvals(h), pt), pow2(spmv.in_log())) == mle(
            output_table(
                edges,
                weights,
                h,
                pow2(spmv.num_rows_log as nat) as int,
                pow2(spmv.num_cols_log as nat) as int,
                spmv.transpose,
                pow2((pt.len() - spmv.out_log()) as nat),
            ),
            pt,
        ),
{
    let nr = pow2(spmv.num_rows_log as nat) as int;
    let nc = pow2(spmv.num_cols_log as nat) as int;
    let t = spmv.transpose;
    let ol = spmv.out_log() as int;
    let nf = (pt.len() - ol) as nat;
    let fixed = pt.take(ol);
    let hp = pt.skip(ol);
    let tabs = spmv.instance_tables(edges, weights, fvals(h), pt);
    let in_dim = spmv.in_dim();
    assert(in_dim == pow2(spmv.in_log()));
    assert forall|x: int| 0 <= x < tabs[0].len() implies 0 <= #[trigger] tabs[0][x] < p() by {
        lemma_adj_value_residue(edges, weights, fixed, nr, nc, t, edges.len(), x);
    }
    lemma_pair_sum(tabs, in_dim as nat);
    lemma_spmv_point_claim(spmv, edges, weights, h, nf, fixed, hp);
    assert(fixed + hp =~= pt);
    assert(hp.len() == nf);
    let g1 = |x: int| fmul(tabs[0][x], tabs[1][x]);
    let g2 = |i: int|
        fmul(
            adj_value(edges, weights, fixed, nr, nc, t, edges.len(), i),
            mle(high_column(fvals(h), in_dim, pow2(nf), i), hp),
        );
    assert forall|x: int| 0 <= x < in_dim implies cong(#[trigger] g1(x), g2(x)) by {
    }
    lemma_fsum_congruent(g1, g2, in_dim as nat);
}

/// `a · b · c` does not depend on the order of the factors.
proof fn lemma_fmul_swap_last(a: int, b: int, c: int)
    ensures
        fmul(fmul(a, b), c) == fmul(fmul(a, c), b),
{
    lemma_cong_mod(a * b);
    lemma_cong_mod(a * c);
    lemma_cong_mul((a * b) % p(), c, a * b, c);
    lemma_cong_mul((a * c) % p(), b, a * c, b);
    assert((a * b) * c == (a * c) * b) by (nonlinear_arith);
    lemma_residue(((a * b) % p()) * c);
    lemma_residue(((a * c) % p()) * b);
    lemma_cong_mod(((a * b) % p()) * c);
    lemma_cong_mod(((a * c) % p()) * b);
    lemma_cong_residues(fmul(fmul(a, b), c), fmul(fmul(a, c), b));
}

/// Binding the last variables first, then the others, gives the
/// multilinear extension: for `H` over `n_in + n_f` variables, the table of
/// `H` with its last `n_f` variables bound to `hp`, evaluated at `x`, is
/// `H` at `x` followed by `hp`.
pub proof fn lemma_fix_right_then_left(h: Seq<int>, n_in: nat, x: Seq<int>, hp: Seq<int>)
    requires
        h.len() == pow2(n_in + hp.len()),
        x.len() == n_in,
        forall|k: int| 0 <= k < h.len() ==> 0 <= #[trigger] h[k] < p(),
    ensures
        mle(
            Seq::new(pow2(n_in) as nat, |i: int| mle(high_column(h, pow2(n_in) as int, pow2(hp.len()), i), hp)),
            x,
        ) == mle(h, x + hp),
{
    let nf = hp.len();
    let in_dim = pow2(n_in) as int;
    let nfeat = pow2(nf);
    lemma_pow2_pos(n_in);
    lemma_pow2_pos(nf);
    lemma_pow2_adds(n_in, nf);
    let hpt = Seq::new(in_dim as nat, |i: int| mle(high_column(h, in_dim, nfeat, i), hp));
    // Right side: bind x first, then hp.
    lemma_folds_concat(h, x, hp);
    let ph = folds(h, x);
    assert(mle(h, x + hp) == mle(ph, hp));
    assert(ph.len() == nfeat) by {
        lemma_folds_blocks(h, x, n_in + nf, 0);
        assert((n_in + nf - n_in) as nat == nf);
    }
    lemma_folds_residues(h, x);
    lemma_mle_expansion(ph, hp, nf);
    let bx = |i: int| basis_at(x, i, n_in);
    let bf = |f: int| basis_at(hp, f, nf);
    let c = |f: int, i: int| fmul(fmul(h[i + f * in_dim], bx(i)), bf(f));
    let left1 = |f: int| fmul(ph[f], basis_at(hp, f, nf));
    let left2 = |f: int| fsum(|i: int| c(f, i), in_dim as nat);
    assert forall|f: int| 0 <= f < nfeat implies cong(#[trigger] left1(f), left2(f)) by {
        assert((n_in + nf - n_in) as nat == nf);
        lemma_folds_blocks(h, x, n_in + nf, f);
        assert(f * in_dim + in_dim <= in_dim * nfeat) by (nonlinear_arith)
            requires
                0 <= f < nfeat,
                in_dim > 0,
        ;
        assert((f + 1) * in_dim == f * in_dim + in_dim) by (nonlinear_arith);
        assert(0 <= f * in_dim) by (nonlinear_arith)
            requires
                0 <= f,
                in_dim > 0,
        ;
        let blk = h.subrange(f * in_dim, (f + 1) * in_dim);
        assert(blk.len() == pow2(n_in));
        assert forall|i: int| 0 <= i < blk.len() implies 0 <= #[trigger] blk[i] < p() && blk[i] == h[i + f * in_dim] by {
        }
        lemma_mle_expansion(blk, x, n_in);
        let g = |i: int| fmul(blk[i], basis_at(x, i, n_in));
        lemma_fsum_scale(g, bf(f), in_dim as nat);
        let gs = |i: int| fmul(g(i), bf(f));
        let cf = |i: int| c(f, i);
        assert forall|i: int| 0 <= i < in_dim implies cong(#[trigger] gs(i), cf(i)) by {
        }
        lemma_fsum_congruent(gs, cf, in_dim as nat);
    }
    lemma_fsum_congruent(left1, left2, nfeat);
    lemma_fsum_swap(c, nfeat, in_dim as nat);
    // Left side: bind hp first (the table hpt), then x.
    assert forall|i: int| 0 <= i < hpt.len() implies 0 <= #[trigger] hpt[i] < p() by {
        let hc = high_column(h, in_dim, nfeat, i);
        assert forall|f: int| 0 <= f < hc.len() implies 0 <= #[trigger] hc[f] < p() by {
            crate::basicblock::lemma_index_bound(i, f, in_dim, nfeat as int);
        }
        lemma_mle_residue(hc, hp);
    }
    lemma_mle_expansion(hpt, x, n_in);
    let right1 = |i: int| fmul(hpt[i], basis_at(x, i, n_in));
    let right2 = |i: int| fsum(|f: int| c(f, i), nfeat);
    assert forall|i: int| 0 <= i < in_dim implies cong(#[trigger] right1(i), right2(i)) by {
        let hc = high_column(h, in_dim, nfeat, i);
        assert forall|f: int| 0 <= f < hc.len() implies 0 <= #[trigger] hc[f] < p() && hc[f] == h[i + f
            * in_dim] by {
            crate::basicblock::lemma_index_bound(i, f, in_dim, nfeat as int);
        }
        lemma_mle_expansion(hc, hp, nf);
        let g = |f: int| fmul(hc[f], basis_at(hp, f, nf));
        lemma_fsum_scale(g, bx(i), nfeat);
        let gs = |f: int| fmul(g(f), bx(i));
        let ci = |f: int| c(f, i);
        assert forall|f: int| 0 <= f < nfeat implies cong(#[trigger] gs(f), ci(f)) by {
            lemma_fmul_swap_last(h[i + f * in_dim], bf(f), bx(i));
        }
        lemma_fsum_congruent(gs, ci, nfeat);
    }
    lemma_fsum_congruent(right1, right2, in_dim as nat);
}

/// The low bits of `a + b · 2^m` are those of `a`, the high ones those of
/// `b`.
pub(crate) proof fn lemma_bits_split(a: int, b: int, m: nat, v: nat)
    requires
        0 <= a < pow2(m),
        0 <= b,
    ensures
        v < m ==> bit(a + b * pow2(m), v as int) == bit(a, v as int),
        bit(a + b * pow2(m), (m + v) as int) == bit(b, v as int),
{
    let c = a + b * pow2(m);
    lemma_pow2_pos(m);
    lemma_pow2_pos(v);
    if v < m {
        let d = pow2(v) as int;
        let e = pow2((m - v) as nat) as int;
        lemma_pow2_adds(v, (m - v) as nat);
        assert(v + (m - v) as nat == m);
        assert(pow2(m) == d * e);
        vstd::arithmetic::div_mod::lemma_fundamental_div_mod(a, d);
        vstd::arithmetic::div_mod::lemma_mod_bound(a, d);
        assert(c == (a / d + b * e) * d + a % d) by (nonlinear_arith)
            requires
                c == a + b * pow2(m),
                pow2(m) == d * e,
                a == d * (a / d) + a % d,
        ;
        vstd::arithmetic::div_mod::lemma_fundamental_div_mod_converse(c, d, a / d + b * e, a % d);
        lemma_pow2_unfold((m - v) as nat);
        let e2 = pow2((m - v - 1) as nat) as int;
        assert(b * e == 2 * (b * e2)) by (nonlinear_arith)
            requires
                e == 2 * e2,
        ;
        vstd::arithmetic::div_mod::lemma_mod_multiples_vanish(b * e2, a / d, 2);
        assert(a / d + b * e == 2 * (b * e2) + a / d);
    }
    // high bits
    vstd::arithmetic::div_mod::lemma_mod_bound(a, pow2(m) as int);
    assert(c == b * pow2(m) + a);
    vstd::arithmetic::div_mod::lemma_fundamental_div_mod_converse(c, pow2(m) as int, b, a);
    assert(c >= 0) by (nonlinear_arith)
        requires
            a >= 0,
            b >= 0,
            pow2(m) > 0,
            c == a + b * pow2(m),
    ;
    vstd::arithmetic::div_mod::lemma_div_denominator(c, pow2(m) as int, pow2(v) as int);
    lemma_pow2_adds(m, v);
}

/// The basis polynomial at a corner of a product of two hypercubes is the
/// product of the basis polynomials, up to the first `j` coordinates.
proof fn lemma_basis_prefix(x: Seq<int>, y: Seq<int>, a: int, b: int, j: nat)
    requires
        0 <= a < pow2(x.len()),
        0 <= b,
        j <= x.len(),
    ensures
        basis_at(x + y, a + b * pow2(x.len()), j) == basis_at(x, a, j),
    decreases j,
{
    if j > 0 {
        lemma_basis_prefix(x, y, a, b, (j - 1) as nat);
        lemma_bits_split(a, b, x.len(), (j - 1) as nat);
        assert((x + y)[j - 1] == x[j - 1]);
    }
}

/// The basis polynomial at a corner of a product of two hypercubes is the
/// product of the basis polynomials of its two parts:
/// `B_{a + b·2^m}(x, y) = B_a(x) · B_b(y)`.
pub proof fn lemma_basis_split(x: Seq<int>, y: Seq<int>, a: int, b: int, k: nat)
    requires
        0 <= a < pow2(x.len()),
        0 <= b,
        k <= y.len(),
    ensures
        basis_at(x + y, a + b * pow2(x.len()), x.len() + k) == fmul(basis_at(x, a, x.len()), basis_at(y, b, k)),
    decreases k,
{
    let m = x.len();
    let c = a + b * pow2(m);
    if k == 0 {
        lemma_basis_prefix(x, y, a, b, m);
        lemma_basis_residue(x, a, m);
        vstd::arithmetic::div_mod::lemma_small_mod(basis_at(x, a, m) as nat, p() as nat);
        assert(basis_at(y, b, 0) == 1);
    } else {
        let km = (k - 1) as nat;
        lemma_basis_split(x, y, a, b, km);
        lemma_bits_split(a, b, m, km);
        assert((x + y)[(m + km) as int] == y[km as int]);
        assert((m + k - 1) as nat == m + km);
        let bx = basis_at(x, a, m);
        let by = basis_at(y, b, km);
        let fct = bit_factor(bit(b, km as int), y[km as int]);
        assert(basis_at(x + y, c, m + k) == fmul(basis_at(x + y, c, m + km), fct));
        assert(basis_at(y, b, k) == fmul(by, fct));
        lemma_fmul_assoc3(bx, by, fct);
    }
}

/// `(a · b) · c = a · (b · c)` in the field.
proof fn lemma_fmul_assoc3(a: int, b: int, c: int)
    ensures
        fmul(fmul(a, b), c) == fmul(a, fmul(b, c)),
{
    lemma_cong_mod(a * b);
    lemma_cong_mod(b * c);
    lemma_cong_mul((a * b) % p(), c, a * b, c);
    lemma_cong_mul(a, (b * c) % p(), a, b * c);
    assert((a * b) * c == a * (b * c)) by (nonlinear_arith);
    lemma_residue(((a * b) % p()) * c);
    lemma_residue(a * ((b * c) % p()));
    lemma_cong_mod(((a * b) % p()) * c);
    lemma_cong_mod(a * ((b * c) % p()));
    lemma_cong_residues(fmul(fmul(a, b), c), fmul(a, fmul(b, c)));
}

/// A basis polynomial's value is a residue.
pub(crate) proof fn lemma_basis_residue(x: Seq<int>, i: int, n: nat)
    ensures
        0 <= basis_at(x, i, n) < p(),
    decreases n,
{
    if n > 0 {
        lemma_residue(basis_at(x, i, (n - 1) as nat) * bit_factor(bit(i, n - 1), x[n - 1]));
    }
}

proof fn lemma_fmul_comm2(a: int, b: int)
    ensures
        fmul(a, b) == fmul(b, a),
{
    assert(a * b == b * a) by (nonlinear_arith);
}

proof fn lemma_adjacency_claim_prefix(
    spmv: SpMV,
    edges: Seq<(usize, usize)>,
    weights: Seq<Option<Fe>>,
    fixed: Seq<int>,
    chs: Seq<int>,
    k: nat,
)
    requires
        spmv.dims_ok(),
        pow2((spmv.num_rows_log + spmv.num_cols_log) as nat) <= usize::MAX,
        fixed.len() == spmv.out_log(),
        chs.len() == spmv.in_log(),
        k <= edges.len(),
    ensures
        fsum(
            |i: int|
                fmul(
                    adj_value(
                        edges,
                        weights,
                        fixed,
                        pow2(spmv.num_rows_log as nat) as int,
                        pow2(spmv.num_cols_log as nat) as int,
                        spmv.transpose,
                        k,
                        i,
                    ),
                    basis_at(chs, i, spmv.in_log()),
                ),
            spmv.in_dim() as nat,
        ) == sparse_mle(
            edges,
            weights,
            spmv.adj_point(fixed, chs),
            pow2(spmv.num_rows_log as nat) as int,
            pow2(spmv.num_cols_log as nat) as int,
            k,
        ),
    decreases k,
{
    let nr = pow2(spmv.num_rows_log as nat) as int;
    let nc = pow2(spmv.num_cols_log as nat) as int;
    let t = spmv.transpose;
    let in_dim = spmv.in_dim();
    let nin = spmv.in_log();
    let ap = spmv.adj_point(fixed, chs);
    let term = |kk: nat| |i: int| fmul(adj_value(edges, weights, fixed, nr, nc, t, kk, i), basis_at(chs, i, nin));
    lemma_pow2_pos(nin);
    if k == 0 {
        assert forall|i: int| 0 <= i < in_dim implies cong(#[trigger] term(0)(i), (|i: int| 0int)(i)) by {
            lemma_cong_mod(0);
        }
        lemma_fsum_congruent(term(0), |i: int| 0int, in_dim as nat);
        lemma_fsum_zero(in_dim as nat);
    } else {
        let km = (k - 1) as nat;
        lemma_adjacency_claim_prefix(spmv, edges, weights, fixed, chs, km);
        let e = edges[km as int];
        if e.0 < nr && e.1 < nc {
            let row = e.0 as int;
            let col = e.1 as int;
            let rl = spmv.num_rows_log as nat;
            let cl = spmv.num_cols_log as nat;
            let ie = edge_in(e, t);
            let w = edge_weight(weights[km as int]);
            let lo = lagrange_single(fixed, edge_out_idx(e, t), fixed.len());
            let u = fmul(w, lo);
            let b_in = basis_at(chs, ie, nin);
            let d = fmul(u, b_in);
            // the bound adjacency gains u at ie
            assert forall|i: int| 0 <= i < in_dim && i != ie implies cong(#[trigger] term(km)(i), term(k)(i)) by {
            }
            assert(cong(term(k)(ie), term(km)(ie) + d)) by {
                let a0 = adj_value(edges, weights, fixed, nr, nc, t, km, ie);
                lemma_fmul_fadd(b_in, a0, u);
                lemma_fmul_comm2(fadd(a0, u), b_in);
                lemma_fmul_comm2(a0, b_in);
                lemma_fmul_comm2(u, b_in);
            }
            lemma_fsum_bump(term(km), term(k), in_dim as nat, ie, d);
            // the sparse term is the same product
            lemma_pow2_adds(rl, cl);
            lemma_log_below_bits(rl + cl);
            let idx = row + col * nr;
            assert(0 <= idx < nr * nc) by (nonlinear_arith)
                requires
                    0 <= row < nr,
                    0 <= col < nc,
                    idx == row + col * nr,
            ;
            assert((idx as usize) as int == idx);
            let rowpt = if t {
                chs
            } else {
                fixed
            };
            let colpt = if t {
                fixed
            } else {
                chs
            };
            assert(ap == rowpt + colpt);
            assert(rowpt.len() == rl && colpt.len() == cl);
            lemma_lagrange_single_is_basis(ap, idx as usize, ap.len());
            lemma_basis_split(rowpt, colpt, row, col, cl);
            let br = basis_at(rowpt, row, rl);
            let bc = basis_at(colpt, col, cl);
            assert(lagrange_single(ap, idx as usize, ap.len()) == fmul(br, bc));
            lemma_log_below_bits(spmv.out_log());
            lemma_lagrange_single_is_basis(fixed, edge_out_idx(e, t), fixed.len());
            if t {
                assert(lo == bc);
                assert(b_in == br);
                lemma_fmul_swap_last(w, bc, br);
                lemma_fmul_comm2(bc, br);
                lemma_fmul_assoc3(w, br, bc);
            } else {
                assert(lo == br);
                assert(b_in == bc);
                lemma_fmul_assoc3(w, br, bc);
            }
        } else {
            assert forall|i: int| 0 <= i < in_dim implies cong(#[trigger] term(km)(i), term(k)(i)) by {
            }
            lemma_fsum_congruent(term(km), term(k), in_dim as nat);
        }
    }
}

/// The claim on the sparse matrix is the bound sparse matrix's extension
/// at the challenges: the sparse matrix at the point made of the output
/// coordinates `fixed` and the challenges `chs` (row coordinates first)
/// equals the extension at `chs` of the table that binds its output
/// variables to `fixed`.
pub proof fn lemma_adjacency_claim(
    spmv: SpMV,
    edges: Seq<(usize, usize)>,
    weights: Seq<Option<Fe>>,
    fixed: Seq<int>,
    chs: Seq<int>,
)
    requires
        spmv.dims_ok(),
        pow2((spmv.num_rows_log + spmv.num_cols_log) as nat) <= usize::MAX,
        fixed.len() == spmv.out_log(),
        chs.len() == spmv.in_log(),
    ensures
        mle(spmv.adj_table(edges, weights, fixed), chs) == sparse_mle(
            edges,
            weights,
            spmv.adj_point(fixed, chs),
            pow2(spmv.num_rows_log as nat) as int,
            pow2(spmv.num_cols_log as nat) as int,
            edges.len(),
        ),
{
    let nr = pow2(spmv.num_rows_log as nat) as int;
    let nc = pow2(spmv.num_cols_log as nat) as int;
    let t = spmv.transpose;
    let a = spmv.adj_table(edges, weights, fixed);
    assert forall|x: int| 0 <= x < a.len() implies 0 <= #[trigger] a[x] < p() by {
        lemma_adj_value_residue(edges, weights, fixed, nr, nc, t, edges.len(), x);
    }
    lemma_mle_expansion(a, chs, spmv.in_log());
    lemma_adjacency_claim_prefix(spmv, edges, weights, fixed, chs, edges.len());
    let g1 = |i: int| fmul(a[i], basis_at(chs, i, spmv.in_log()));
    let g2 = |i: int| fmul(adj_value(edges, weights, fixed, nr, nc, t, edges.len(), i), basis_at(chs, i, spmv.in_log()));
    assert forall|i: int| 0 <= i < spmv.in_dim() implies cong(#[trigger] g1(i), g2(i)) by {
    }
    lemma_fsum_congruent(g1, g2, spmv.in_dim() as nat);
}

/// The Lagrange basis polynomials of the hypercube sum to one: at any point
/// `r` whose `2^|r|` corners fit a word, `Σ_{idx < 2^|r|} L_idx(r) = 1`.
pub proof fn lemma_lagrange_sum_one(r: Seq<int>)
    requires
        pow2(r.len()) <= usize::MAX,
    ensures
        crate::util::expansion::fsum(|i: int| lagrange_single(r, i as usize, r.len()), pow2(r.len())) == 1,
{
    let n = r.len();
    let ones = Seq::new(pow2(n), |i: int| 1int);
    lemma_log_below_bits(n);
    crate::util::expansion::lemma_mle_expansion(ones, r, n);
    crate::basicblock::einsum_sumcheck::lemma_folds_constant(ones, 1, r);
    crate::util::poly::lemma_folds_len(ones, r, n);
    assert(pow2(0) == 1) by {
        vstd::arithmetic::power2::lemma2_to64();
    }
    let h1 = |i: int| fmul(ones[i], basis_at(r, i, n));
    let h2 = |i: int| lagrange_single(r, i as usize, n);
    assert forall|i: int| 0 <= i < pow2(n) implies cong(#[trigger] h1(i), h2(i)) by {
        lemma_basis_residue(r, i, n);
        lemma_lagrange_single_is_basis(r, i as usize, n);
        crate::util::field::lemma_cong_mod(basis_at(r, i, n));
    }
    crate::util::expansion::lemma_fsum_congruent(h1, h2, pow2(n));
}

/// Plain proving is determined by its inputs and the transcript: two
/// results that both meet the plain prover's contract (that of `prove`,
/// which `prove_zk` meets when zero knowledge is off) from the same log
/// have the same round messages, final value, challenges and claims, and
/// leave the same log.
pub proof fn lemma_spmv_proof_determined(
    spmv: SpMV,
    edges: Seq<(usize, usize)>,
    weights: Seq<Option<Fe>>,
    h: Seq<int>,
    edge_ids: Seq<EdgeId>,
    pt: Seq<int>,
    p1: SumcheckProof,
    c1: Seq<Claim>,
    p2: SumcheckProof,
    c2: Seq<Claim>,
    log1: Seq<u8>,
    l2a: Seq<u8>,
    l2b: Seq<u8>,
)
    requires
        sumcheck_proof_ok(spmv.instance_tables(edges, weights, h, pt), p1, log1, spmv.in_log(), l2a),
        sumcheck_proof_ok(spmv.instance_tables(edges, weights, h, pt), p2, log1, spmv.in_log(), l2b),
        spmv.claims_ok(edges, weights, h, edge_ids, pt, rounds_challenges(log1, msgs_vals(p1.round_messages@)), c1),
        spmv.claims_ok(edges, weights, h, edge_ids, pt, rounds_challenges(log1, msgs_vals(p2.round_messages@)), c2),
    ensures
        msgs_vals(p1.round_messages@) == msgs_vals(p2.round_messages@),
        p1.final_eval@ == p2.final_eval@,
        l2a == l2b,
        c1.len() == c2.len(),
        forall|i: int|
            0 <= i < c1.len() ==> {
                &&& (#[trigger] c1[i]).edge_id == c2[i].edge_id
                &&& c1[i].sparse_id == c2[i].sparse_id
                &&& fvals(c1[i].point@) == fvals(c2[i].point@)
                &&& c1[i].eval@ == c2[i].eval@
            },
{
    lemma_plain_proof_determined(spmv.instance_tables(edges, weights, h, pt), p1, p2, log1, spmv.in_log(), l2a, l2b);
}

/// Completeness of the proof of `Z = S·H` (or `Sᵀ·H`): when the claim on
/// the output is true (its value is the extension of the product at its
/// point `pt`), the verifier, run from the transcript where the prover's
/// sumcheck started, accepts the prover's round messages, ends with the
/// product of the values of the two claims the prover returned, draws the
/// prover's challenges, and leaves the transcript where the prover did.
pub proof fn lemma_spmv_completeness(
    spmv: SpMV,
    edges: Seq<(usize, usize)>,
    weights: Seq<Option<Fe>>,
    h: DenseMLPoly,
    edge_ids: Seq<EdgeId>,
    pt: Seq<int>,
    proof: SumcheckProof,
    claims: Seq<Claim>,
    log1: Seq<u8>,
    log2: Seq<u8>,
)
    requires
        spmv.dims_ok(),
        pow2((spmv.num_rows_log + spmv.num_cols_log) as nat) <= usize::MAX,
        h.wf(),
        pt.len() >= spmv.out_log(),
        h.num_vars == spmv.in_log() + (pt.len() - spmv.out_log()),
        sumcheck_proof_ok(spmv.instance_tables(edges, weights, h.table(), pt), proof, log1, spmv.in_log(), log2),
        spmv.claims_ok(
            edges,
            weights,
            h.table(),
            edge_ids,
            pt,
            rounds_challenges(log1, msgs_vals(proof.round_messages@)),
            claims,
        ),
    ensures
        verify_spec(
            spmv.in_log(),
            2,
            log1,
            msgs_vals(proof.round_messages@),
            mle(
                output_table(
                    edges,
                    weights,
                    h.evaluations@,
                    pow2(spmv.num_rows_log as nat) as int,
                    pow2(spmv.num_cols_log as nat) as int,
                    spmv.transpose,
                    pow2((pt.len() - spmv.out_log()) as nat),
                ),
                pt,
            ),
        ) == (
            true,
            fmul(claims[0].eval@, claims[1].eval@),
            rounds_challenges(log1, msgs_vals(proof.round_messages@)),
            log2,
        ),
{
    let n = spmv.in_log();
    let ol = spmv.out_log() as int;
    let nf = (pt.len() - ol) as nat;
    let ms = msgs_vals(proof.round_messages@);
    let chs = rounds_challenges(log1, ms);
    let tabs = spmv.instance_tables(edges, weights, h.table(), pt);
    assert(verify_spec(n, 2, log1, ms, hypercube_sum(tabs, pow2(n))) == (
        true,
        tables_mle_prod(tabs, chs, 2),
        chs,
        log2,
    )) by {
        reveal(sumcheck_proof_ok);
    }
    lemma_rounds_take(log1, ms, 0);
    assert(chs.len() == n);
    lemma_pow2_adds(n, nf);
    assert(h.evaluations.len() == spmv.in_dim() * pow2(nf));
    assert(fvals(h.evaluations@) == h.table());
    lemma_spmv_sum_is_output_claim(spmv, edges, weights, h.evaluations@, pt);
    lemma_final_value_is_claims(spmv, edges, weights, h, edge_ids, pt, chs, claims);
}

/// The value the proof ends with is the product of the two claims: for
/// the challenges `chs` of either proof, the product of the extensions of
/// the two sumcheck tables at `chs` is the product of the values the
/// prover claims on the sparse matrix and on `H`.
proof fn lemma_final_value_is_claims(
    spmv: SpMV,
    edges: Seq<(usize, usize)>,
    weights: Seq<Option<Fe>>,
    h: DenseMLPoly,
    edge_ids: Seq<EdgeId>,
    pt: Seq<int>,
    chs: Seq<int>,
    claims: Seq<Claim>,
)
    requires
        spmv.dims_ok(),
        pow2((spmv.num_rows_log + spmv.num_cols_log) as nat) <= usize::MAX,
        h.wf(),
        pt.len() >= spmv.out_log(),
        h.num_vars == spmv.in_log() + (pt.len() - spmv.out_log()),
        chs.len() == spmv.in_log(),
        spmv.claims_ok(edges, weights, h.table(), edge_ids, pt, chs, claims),
    ensures
        tables_mle_prod(spmv.instance_tables(edges, weights, h.table(), pt), chs, 2) == fmul(
            claims[0].eval@,
            claims[1].eval@,
        ),
{
    let n = spmv.in_log();
    let ol = spmv.out_log() as int;
    let fixed = pt.take(ol);
    let hp = pt.skip(ol);
    let tabs = spmv.instance_tables(edges, weights, h.table(), pt);
    let nr = pow2(spmv.num_rows_log as nat) as int;
    let nc = pow2(spmv.num_cols_log as nat) as int;
    assert(tables_mle_prod(tabs, chs, 0) == 1);
    assert(tables_mle_prod(tabs, chs, 1) == fmul(1, mle(tabs[0], chs)));
    assert(tables_mle_prod(tabs, chs, 2) == fmul(fmul(1, mle(tabs[0], chs)), mle(tabs[1], chs)));
    assert forall|x: int| 0 <= x < tabs[0].len() implies 0 <= #[trigger] tabs[0][x] < p() by {
        lemma_adj_value_residue(edges, weights, fixed, nr, nc, spmv.transpose, edges.len(), x);
    }
    lemma_mle_residue(tabs[0], chs);
    vstd::arithmetic::div_mod::lemma_small_mod(mle(tabs[0], chs) as nat, p() as nat);
    lemma_adjacency_claim(spmv, edges, weights, fixed, chs);
    assert forall|k: int| 0 <= k < h.table().len() implies 0 <= #[trigger] h.table()[k] < p() by {
        lemma_fe_range(h.evaluations@[k]);
    }
    lemma_pow2_adds(n, hp.len());
    lemma_fix_right_then_left(h.table(), n, chs, hp);
}

/// Completeness of the zero-knowledge proof of `Z = S·H` (or `Sᵀ·H`): when
/// the claim on the output is true, the verifier, run from the transcript
/// where the prover's sumcheck started and past the mask preamble, accepts
/// the masked round messages against the output value plus `ρ` times the
/// mask sum, ends with the product of the two input claims plus `ρ` times
/// the mask at the challenges, and draws the prover's challenges; the mask
/// sum is the sum of the mask, and without a committer the mask's checks
/// pass.
pub proof fn lemma_spmv_zk_completeness(
    spmv: SpMV,
    edges: Seq<(usize, usize)>,
    weights: Seq<Option<Fe>>,
    h: DenseMLPoly,
    edge_ids: Seq<EdgeId>,
    pt: Seq<int>,
    proof: SumcheckProof,
    claims: Seq<Claim>,
    log1: Seq<u8>,
    with_committer: bool,
    log2: Seq<u8>,
)
    requires
        spmv.dims_ok(),
        pow2((spmv.num_rows_log + spmv.num_cols_log) as nat) <= usize::MAX,
        h.wf(),
        pt.len() >= spmv.out_log(),
        h.num_vars == spmv.in_log() + (pt.len() - spmv.out_log()),
        zk_sumcheck_proof_ok(
            spmv.instance_tables(edges, weights, h.table(), pt),
            proof,
            log1,
            spmv.in_log(),
            with_committer,
            log2,
        ),
        spmv.claims_ok(
            edges,
            weights,
            h.table(),
            edge_ids,
            pt,
            rounds_challenges(zk_rounds_start(proof, log1), msgs_vals(proof.round_messages@)),
            claims,
        ),
    ensures
        proof.zk_mask_sum is Some,
        proof.zk_mask_coeffs is Some,
        ({
            let sm = proof.zk_mask_sum->0@;
            let cs = coeffs_vals(proof.zk_mask_coeffs->0@);
            let rho = t_challenge(zk_start_preamble(proof, log1), LABEL_RHO);
            let l1 = zk_rounds_start(proof, log1);
            let ms = msgs_vals(proof.round_messages@);
            let chs = rounds_challenges(l1, ms);
            &&& sm == mask_sum(cs)
            &&& proof.zk_mask_coeffs->0.len() == spmv.in_log()
            &&& verify_spec(
                spmv.in_log(),
                2,
                l1,
                ms,
                fadd(
                    mle(
                        output_table(
                            edges,
                            weights,
                            h.evaluations@,
                            pow2(spmv.num_rows_log as nat) as int,
                            pow2(spmv.num_cols_log as nat) as int,
                            spmv.transpose,
                            pow2((pt.len() - spmv.out_log()) as nat),
                        ),
                        pt,
                    ),
                    fmul(rho, sm),
                ),
            ) == (
                true,
                fadd(fmul(claims[0].eval@, claims[1].eval@), fmul(rho, mask_eval(cs, chs, spmv.in_log()))),
                chs,
                rounds_log(l1, ms),
            )
            &&& !with_committer ==> mask_checks(proof)
        }),
{
    let n = spmv.in_log();
    let nf = (pt.len() - spmv.out_log()) as nat;
    let tabs = spmv.instance_tables(edges, weights, h.table(), pt);
    let sm = proof.zk_mask_sum->0@;
    let cs = coeffs_vals(proof.zk_mask_coeffs->0@);
    let rho = t_challenge(zk_start_preamble(proof, log1), LABEL_RHO);
    let l1 = zk_rounds_start(proof, log1);
    let ms = msgs_vals(proof.round_messages@);
    let chs = rounds_challenges(l1, ms);
    assert(proof.zk_mask_sum is Some && proof.zk_mask_coeffs is Some && sm == mask_sum(cs)
        && proof.zk_mask_coeffs->0.len() == n && proof.round_messages.len() == n
        && verify_spec(n, 2, l1, ms, fadd(hypercube_sum(tabs, pow2(n)), fmul(rho, sm))) == (
        true,
        fadd(tables_mle_prod(tabs, chs, 2), fmul(rho, mask_eval(cs, chs, n))),
        chs,
        rounds_log(l1, ms),
    ) && (!with_committer ==> {
        &&& proof.zk_mask_commitment is None
        &&& proof.zk_mask_opening_proof is None
        &&& proof.zk_mask_opening_point is None
        &&& proof.zk_mask_opening_eval is None
    })) by {
        reveal(zk_sumcheck_proof_ok);
    }
    lemma_rounds_take(l1, ms, 0);
    lemma_pow2_adds(n, nf);
    assert(h.evaluations.len() == spmv.in_dim() * pow2(nf));
    assert(fvals(h.evaluations@) == h.table());
    lemma_spmv_sum_is_output_claim(spmv, edges, weights, h.evaluations@, pt);
    lemma_final_value_is_claims(spmv, edges, weights, h, edge_ids, pt, chs, claims);
}

} // verus!
