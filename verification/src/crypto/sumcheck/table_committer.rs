//! A mask committer that sends the packed table in the clear: the
//! commitment is the table's entries as little-endian words, an opening
//! carries no bytes, and it is checked by evaluating the committed table at
//! the point.  Binding but not hiding; for exercising the zero-knowledge
//! interface.
use crate::crypto::sumcheck::prover::MaskCommitter;
use crate::crypto::sumcheck::zk_linear_prover::lemma_shl_pow2;
use crate::util::field::{fvals, lemma_fe_range, p, Fe};
use crate::util::poly::{mle, DenseMLPoly};
use crate::util::transcript::{le_word, push_u64_le, read_u64_le, u64_le};
use vstd::arithmetic::power2::pow2;
use vstd::prelude::*;

verus! {

/// The little-endian words of the residues of `t`, one after another.
pub open spec fn table_bytes(t: Seq<int>) -> Seq<u8>
    decreases t.len(),
{
    if t.len() == 0 {
        seq![]
    } else {
        table_bytes(t.drop_last()) + u64_le(t.last() as u64)
    }
}

/// The table of residues that the bytes `c` hold, eight bytes per entry.
pub open spec fn bytes_table(c: Seq<u8>) -> Seq<int> {
    Seq::new(c.len() / 8, |i: int| (le_word(c.subrange(8 * i, 8 * i + 8), 8) as int) % p())
}

/// Commits to a table by sending it.
#[derive(Clone, Copy, Debug)]
pub struct TableCommitter;

impl MaskCommitter for TableCommitter {
    open spec fn binds(&self, table: Seq<int>, commitment: Seq<u8>) -> bool {
        commitment == table_bytes(table)
    }

    open spec fn accepts(&self, commitment: Seq<u8>, proof: Seq<u8>, point: Seq<int>, eval: int) -> bool {
        &&& point.len() <= 60
        &&& commitment.len() == 8 * pow2(point.len())
        &&& eval == mle(bytes_table(commitment), point)
    }

    fn commit(&self, poly: &DenseMLPoly) -> (c: Vec<u8>) {
        let mut out: Vec<u8> = Vec::new();
        let ghost t = poly.table();
        let mut i: usize = 0;
        while i < poly.evaluations.len()
            invariant
                i <= poly.evaluations.len(),
                t == poly.table(),
                out@ == table_bytes(t.take(i as int)),
            decreases poly.evaluations.len() - i,
        {
            let w = poly.evaluations[i].canonical();
            push_u64_le(&mut out, w);
            proof {
                assert(t.take(i + 1 as int).drop_last() =~= t.take(i as int));
                assert(t[i as int] == poly.evaluations@[i as int]@);
            }
            i = i + 1;
        }
        proof {
            assert(t.take(i as int) =~= t);
        }
        out
    }

    fn open(&self, poly: &DenseMLPoly, point: &[Fe]) -> (r: (Vec<u8>, Fe)) {
        (Vec::new(), poly.evaluate_at_point(point))
    }

    fn verify(&self, commitment: &[u8], proof: &[u8], point: &[Fe], eval: Fe) -> (r: bool) {
        let ghost c = commitment@;
        let nv = point.len();
        if nv > 60 {
            return false;
        }
        proof {
            lemma_shl_pow2(nv as u64);
            if nv < 60 {
                vstd::arithmetic::power2::lemma_pow2_strictly_increases(nv as nat, 60);
            }
            vstd::arithmetic::power2::lemma2_to64();
            vstd::arithmetic::power2::lemma2_to64_rest();
        }
        let size: u64 = 1u64 << (nv as u64);
        assert(size == pow2(nv as nat));
        assert(size <= 0x1000_0000_0000_0000);
        if commitment.len() as u64 != 8 * size {
            return false;
        }
        let n = commitment.len() / 8;
        let mut evals: Vec<Fe> = Vec::new();
        let mut i: usize = 0;
        while i < n
            invariant
                i <= n,
                n == c.len() / 8,
                c == commitment@,
                commitment.len() == 8 * n,
                evals.len() == i,
                fvals(evals@) == bytes_table(c).take(i as int),
            decreases n - i,
        {
            let mut word: Vec<u8> = Vec::new();
            let mut j: usize = 0;
            while j < 8
                invariant
                    j <= 8,
                    i < n,
                    commitment.len() == 8 * n,
                    c == commitment@,
                    word@ == c.subrange(8 * i as int, 8 * i + j as int),
                decreases 8 - j,
            {
                word.push(commitment[8 * i + j]);
                j = j + 1;
                assert(word@ =~= c.subrange(8 * i as int, 8 * i + j as int));
            }
            let w = read_u64_le(&word);
            let e = Fe::from_u64(w);
            evals.push(e);
            proof {
                assert(fvals(evals@) =~= bytes_table(c).take(i + 1 as int));
            }
            i = i + 1;
        }
        proof {
            assert(bytes_table(c).take(n as int) =~= bytes_table(c));
        }
        let poly = DenseMLPoly::new(nv, evals);
        let value = poly.evaluate_at_point(point);
        value.equals(&eval)
    }
}

/// The bytes of a table hold eight per entry.
proof fn lemma_table_bytes_len(t: Seq<int>)
    ensures
        table_bytes(t).len() == 8 * t.len(),
    decreases t.len(),
{
    if t.len() > 0 {
        lemma_table_bytes_len(t.drop_last());
    }
}

/// Entry `i` of a table sits in bytes `8i .. 8i + 8`.
proof fn lemma_table_bytes_chunk(t: Seq<int>, i: int)
    requires
        0 <= i < t.len(),
    ensures
        table_bytes(t).subrange(8 * i, 8 * i + 8) == u64_le(t[i] as u64),
    decreases t.len(),
{
    let init = t.drop_last();
    lemma_table_bytes_len(init);
    if i < t.len() - 1 {
        lemma_table_bytes_chunk(init, i);
        assert(table_bytes(t).subrange(8 * i, 8 * i + 8) =~= table_bytes(init).subrange(8 * i, 8 * i + 8));
    } else {
        assert(table_bytes(t).subrange(8 * i, 8 * i + 8) =~= u64_le(t.last() as u64));
    }
}

/// Reading back the eight little-endian bytes of a word gives the word.
proof fn lemma_le_word_of_bytes(x: u64)
    ensures
        le_word(u64_le(x), 8) == x,
{
    reveal_with_fuel(le_word, 9);
    let b = u64_le(x);
    let b0 = b[0];
    let b1 = b[1];
    let b2 = b[2];
    let b3 = b[3];
    let b4 = b[4];
    let b5 = b[5];
    let b6 = b[6];
    let b7 = b[7];
    assert(b0 == ((x >> 0u64) & 0xff) as u8);
    assert(b1 == ((x >> 8u64) & 0xff) as u8);
    assert(b2 == ((x >> 16u64) & 0xff) as u8);
    assert(b3 == ((x >> 24u64) & 0xff) as u8);
    assert(b4 == ((x >> 32u64) & 0xff) as u8);
    assert(b5 == ((x >> 40u64) & 0xff) as u8);
    assert(b6 == ((x >> 48u64) & 0xff) as u8);
    assert(b7 == ((x >> 56u64) & 0xff) as u8);
    assert((((((((0u64 | ((b0 as u64) << 0u64)) | ((b1 as u64) << 8u64)) | ((b2 as u64) << 16u64)) | ((b3 as u64)
        << 24u64)) | ((b4 as u64) << 32u64)) | ((b5 as u64) << 40u64)) | ((b6 as u64) << 48u64)) | ((b7 as u64)
        << 56u64) == x) by (bit_vector)
        requires
            b0 == ((x >> 0u64) & 0xff) as u8,
            b1 == ((x >> 8u64) & 0xff) as u8,
            b2 == ((x >> 16u64) & 0xff) as u8,
            b3 == ((x >> 24u64) & 0xff) as u8,
            b4 == ((x >> 32u64) & 0xff) as u8,
            b5 == ((x >> 40u64) & 0xff) as u8,
            b6 == ((x >> 48u64) & 0xff) as u8,
            b7 == ((x >> 56u64) & 0xff) as u8,
    ;
}

/// An honest opening is accepted: for a commitment to a table of residues
/// of `2^k` entries (`k <= 60`), the table committer accepts the table's
/// extension at any point of `k` coordinates, whatever the opening bytes.
pub proof fn lemma_table_committer_complete(
    cm: TableCommitter,
    t: Seq<int>,
    c: Seq<u8>,
    pf: Seq<u8>,
    pt: Seq<int>,
)
    requires
        cm.binds(t, c),
        pt.len() <= 60,
        t.len() == pow2(pt.len()),
        forall|i: int| 0 <= i < t.len() ==> 0 <= #[trigger] t[i] < p(),
    ensures
        cm.accepts(c, pf, pt, mle(t, pt)),
{
    lemma_table_bytes_len(t);
    assert forall|i: int| 0 <= i < t.len() implies #[trigger] bytes_table(c)[i] == t[i] by {
        lemma_table_bytes_chunk(t, i);
        lemma_le_word_of_bytes(t[i] as u64);
        vstd::arithmetic::div_mod::lemma_small_mod(t[i] as nat, p() as nat);
    }
    assert(bytes_table(c) =~= t);
}

} // verus!
