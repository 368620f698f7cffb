# zk_torch_2

The verified core of a zero-knowledge prover for machine-learning models,
over the Goldilocks field (`p = 2^64 - 2^32 + 1`). Every function in `src/`
is written in Verus and carries a contract that Verus proves, except three
trusted wrappers whose bodies only call outside code and whose contracts are
believed: `sha3_digest` (SHA3-256 from `tiny-keccak`), `random_below`
(`rand`'s thread-local generator) and `push_char` (`String::push`).

## Layout

- `src/util/`: field arithmetic (`field`), Fermat's little theorem for the
  modulus (`fermat`, from the order of 7, whence every Lagrange denominator
  is invertible), dense multilinear polynomials and univariate
  interpolation (`poly`, `lagrange`), the multilinear extension as
  a sum over the hypercube (`expansion`), zero-padding of integer tensors
  (`padding`), and the Fiat-Shamir transcript (`transcript`, hashing with
  SHA3-256 from `tiny-keccak`).
- `src/crypto/sumcheck/`: the linear sumcheck prover, its general form over
  several multilinear factors, the zero-knowledge variant with a random
  masking polynomial, the verifier, and a mask committer that sends the
  packed mask in the clear (`table_committer`). The laws there state completeness:
  an honestly produced proof is accepted, and the masked proof replays the
  verifier's transcript. `runs` describes a run on a list of polynomials
  through their tables.
- `src/crypto/polycommit/`: the commitment interface, the naive commitment,
  and the shape helpers of the two-dimensional KZH scheme.
- `src/basicblock/`: witness generation of the lookup-based blocks (range
  checks, sign bits, division, rescaling, exponentials, softmax, sparse
  matrix-vector products, reshaping), the index bookkeeping of einsum
  (variable reordering of evaluation tables, parsing of equations), and the
  sumcheck reductions of the sparse-times-dense product (`spmv`) and of
  einsum (`einsum_sumcheck`), each with its completeness and claims on the
  inputs that are their true values.
- `src/dag/`: the computation graph: compilation to a topological order with
  the readers and writer of each edge, the backward search for what an edge
  depends on, and builder helpers.
- `tests/`: tests on concrete values.
- `app/`: a small program that runs a masked sumcheck end to end, reads
  integer tensors from files, and the floating-point parts of some blocks
  (rounding, logarithms, square roots), which Verus does not reason about.
