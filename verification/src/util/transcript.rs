//! Fiat-Shamir transcript.  Everything absorbed is appended, as
//! little-endian 64-bit words, to a byte log; a challenge is the SHA3-256
//! digest of the log (its first eight bytes, read little-endian, reduced
//! into the field), and the challenge itself is absorbed afterwards.
//! Labels are 64-bit domain-separation tags.
use crate::util::field::{lemma_fe_range, p, Fe, MODULUS};
use tiny_keccak::{Hasher, Sha3};
use vstd::prelude::*;

verus! {

pub const LABEL_NUM_VAR: u64 = 0x6e75_6d5f_7661_7201;
pub const LABEL_NUM_POLY: u64 = 0x6e75_6d5f_706f_6c79;
pub const LABEL_ROUND_MESSAGE: u64 = 0x726f_756e_645f_6d73;
pub const LABEL_CHALLENGE: u64 = 0x6368_616c_6c65_6e67;
pub const LABEL_MASK_COMMIT: u64 = 0x7a6b_5f6d_636f_6d6d;
pub const LABEL_MASK_SUM: u64 = 0x7a6b_5f6d_5f73_756d;
pub const LABEL_RHO: u64 = 0x7a6b_5f72_686f_0001;
pub const LABEL_MASK_OPEN: u64 = 0x7a6b_5f6d_6f70_656e;

/// The SHA3-256 digest of a byte string.
pub uninterp spec fn sha3_256(data: Seq<u8>) -> Seq<u8>;

/// SHA3-256 through `tiny_keccak::Sha3::v256`: the digest of `data`,
/// 32 bytes long.
#[verifier::external_body]
fn sha3_digest(data: &Vec<u8>) -> (r: Vec<u8>)
    ensures
        r@ == sha3_256(data@),
        r@.len() == 32,
{
    let mut h = Sha3::v256();
    h.update(data.as_slice());
    let mut out = [0u8; 32];
    h.finalize(&mut out);
    out.to_vec()
}

/// The eight little-endian bytes of `x`.
pub open spec fn u64_le(x: u64) -> Seq<u8> {
    Seq::new(8, |i: int| ((x >> ((8 * i) as u64)) & 0xff) as u8)
}

/// The word whose little-endian bytes are the first `k` of `b`.
pub open spec fn le_word(b: Seq<u8>, k: nat) -> u64
    decreases k,
{
    if k == 0 {
        0
    } else {
        le_word(b, (k - 1) as nat) | ((b[k - 1] as u64) << ((8 * (k - 1)) as u64))
    }
}

/// Log after absorbing the word `x` under `label`.
pub open spec fn t_append_u64(log: Seq<u8>, label: u64, x: u64) -> Seq<u8> {
    log + u64_le(label) + u64_le(x)
}

/// Log after absorbing the byte string `bytes` under `label`.
pub open spec fn t_append_bytes(log: Seq<u8>, label: u64, bytes: Seq<u8>) -> Seq<u8> {
    log + u64_le(label) + u64_le(bytes.len() as u64) + bytes
}

/// The challenge drawn under `label` from a transcript with log `log`.
pub open spec fn t_challenge(log: Seq<u8>, label: u64) -> int {
    (le_word(sha3_256(log + u64_le(label)), 8) as int) % p()
}

/// Log after drawing the challenge under `label`.
pub open spec fn t_after_challenge(log: Seq<u8>, label: u64) -> Seq<u8> {
    log + u64_le(label) + u64_le(t_challenge(log, label) as u64)
}

/// Log after drawing `k` challenges under `label`.
pub open spec fn t_after_challenges(log: Seq<u8>, label: u64, k: nat) -> Seq<u8>
    decreases k,
{
    if k == 0 {
        log
    } else {
        t_after_challenge(t_after_challenges(log, label, (k - 1) as nat), label)
    }
}

/// The `k` challenges drawn in a row under `label`.
pub open spec fn t_challenges(log: Seq<u8>, label: u64, k: nat) -> Seq<int>
    decreases k,
{
    if k == 0 {
        seq![]
    } else {
        t_challenges(log, label, (k - 1) as nat).push(
            t_challenge(t_after_challenges(log, label, (k - 1) as nat), label),
        )
    }
}

/// Appends the little-endian bytes of `x` to `out`.
pub(crate) fn push_u64_le(out: &mut Vec<u8>, x: u64)
    ensures
        final(out)@ == old(out)@ + u64_le(x),
{
    let ghost start = out@;
    let mut i: u64 = 0;
    while i < 8
        invariant
            i <= 8,
            out@ == start + u64_le(x).take(i as int),
        decreases 8 - i,
    {
        out.push(((x >> (8 * i)) & 0xff) as u8);
        i = i + 1;
        assert(out@ =~= start + u64_le(x).take(i as int));
    }
    assert(u64_le(x).take(8) =~= u64_le(x));
}

/// Reads the first eight bytes of `b` as a little-endian word.
pub(crate) fn read_u64_le(b: &Vec<u8>) -> (r: u64)
    requires
        b.len() >= 8,
    ensures
        r == le_word(b@, 8),
{
    let mut acc: u64 = 0;
    let mut i: u64 = 0;
    while i < 8
        invariant
            i <= 8,
            b.len() >= 8,
            acc == le_word(b@, i as nat),
        decreases 8 - i,
    {
        acc = acc | ((b[i as usize] as u64) << (8 * i));
        i = i + 1;
    }
    acc
}

/// A Fiat-Shamir transcript; `log` holds every byte absorbed so far.
#[derive(Clone, Debug)]
pub struct Transcript {
    pub log: Vec<u8>,
}

impl View for Transcript {
    type V = Seq<u8>;

    open spec fn view(&self) -> Seq<u8> {
        self.log@
    }
}

impl Transcript {
    /// A fresh transcript whose log starts with the domain label.
    pub fn new(label: u64) -> (t: Transcript)
        ensures
            t@ == u64_le(label),
    {
        let mut log: Vec<u8> = Vec::new();
        push_u64_le(&mut log, label);
        assert(log@ =~= u64_le(label));
        Transcript { log }
    }

    pub fn append_u64(&mut self, label: u64, x: u64)
        ensures
            final(self)@ == t_append_u64(old(self)@, label, x),
    {
        push_u64_le(&mut self.log, label);
        push_u64_le(&mut self.log, x);
    }

    /// Absorbs a field element by its canonical word.
    pub fn append_scalar(&mut self, label: u64, x: &Fe)
        ensures
            final(self)@ == t_append_u64(old(self)@, label, x@ as u64),
    {
        let c = x.canonical();
        self.append_u64(label, c);
    }

    pub fn append_bytes(&mut self, label: u64, bytes: &[u8])
        ensures
            final(self)@ == t_append_bytes(old(self)@, label, bytes@),
    {
        let ghost start = self.log@;
        push_u64_le(&mut self.log, label);
        push_u64_le(&mut self.log, bytes.len() as u64);
        let mut i: usize = 0;
        let ghost mid = self.log@;
        while i < bytes.len()
            invariant
                i <= bytes.len(),
                self.log@ == mid + bytes@.take(i as int),
            decreases bytes.len() - i,
        {
            self.log.push(bytes[i]);
            i = i + 1;
            assert(self.log@ =~= mid + bytes@.take(i as int));
        }
        assert(bytes@.take(bytes.len() as int) =~= bytes@);
    }

    /// Draws a challenge under `label` and absorbs it.
    pub fn challenge_scalar(&mut self, label: u64) -> (c: Fe)
        ensures
            c@ == t_challenge(old(self)@, label),
            c.v < MODULUS,
            final(self)@ == t_after_challenge(old(self)@, label),
    {
        push_u64_le(&mut self.log, label);
        let digest = sha3_digest(&self.log);
        let w = read_u64_le(&digest);
        let c = Fe::from_u64(w);
        proof {
            lemma_fe_range(c);
            vstd::arithmetic::div_mod::lemma_small_mod(c.v as nat, p() as nat);
        }
        push_u64_le(&mut self.log, c.v);
        c
    }
}

} // verus!
