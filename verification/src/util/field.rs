//! The Goldilocks prime field `p = 2^64 - 2^32 + 1`.
//!
//! A field element is stored as a `u64`; its value is the residue of that
//! word modulo `p`, so every `u64` is a valid representative.  All
//! operations return canonical representatives (`v < p`).
use vstd::arithmetic::div_mod::*;
use vstd::arithmetic::power::*;
use vstd::prelude::*;

verus! {

/// The field modulus.
pub const MODULUS: u64 = 0xFFFF_FFFF_0000_0001;

/// The field modulus as a mathematical integer.
pub open spec fn p() -> int {
    MODULUS as int
}

/// Field addition on residues.
pub open spec fn fadd(a: int, b: int) -> int {
    (a + b) % p()
}

/// Field subtraction on residues.
pub open spec fn fsub(a: int, b: int) -> int {
    (a - b) % p()
}

/// Field multiplication on residues.
pub open spec fn fmul(a: int, b: int) -> int {
    (a * b) % p()
}

/// Field negation on residues.
pub open spec fn fneg(a: int) -> int {
    (-a) % p()
}

/// The multiplicative inverse of `a`, where one exists.
pub open spec fn finv(a: int) -> int {
    choose|x: int| 0 <= x < p() && fmul(a, x) == 1
}

/// Field exponentiation on residues.
pub open spec fn fpow(a: int, e: nat) -> int {
    pow(a, e) % p()
}

/// The signed integer that a residue stands for: residues above `(p-1)/2`
/// encode negative numbers.
pub open spec fn signed_value(a: int) -> int {
    if a > (p() - 1) / 2 {
        a - p()
    } else {
        a
    }
}

/// A Goldilocks field element.
#[derive(Clone, Copy, Debug)]
pub struct Fe {
    pub v: u64,
}

impl View for Fe {
    type V = int;

    open spec fn view(&self) -> int {
        (self.v as int) % p()
    }
}

/// Residues of a sequence of field elements.
pub open spec fn fvals(s: Seq<Fe>) -> Seq<int> {
    s.map_values(|x: Fe| x@)
}

pub broadcast proof fn lemma_fe_range(x: Fe)
    ensures
        0 <= #[trigger] x@ < p(),
{
    lemma_mod_bound(x.v as int, p());
}

pub proof fn lemma_fvals_index(s: Seq<Fe>, i: int)
    requires
        0 <= i < s.len(),
    ensures
        fvals(s)[i] == s[i]@,
        fvals(s).len() == s.len(),
{
}

impl PartialEq for Fe {
    fn eq(&self, other: &Self) -> (r: bool) {
        self.v % MODULUS == other.v % MODULUS
    }
}

impl vstd::std_specs::cmp::PartialEqSpecImpl for Fe {
    open spec fn obeys_eq_spec() -> bool {
        true
    }

    open spec fn eq_spec(&self, other: &Self) -> bool {
        self.v % MODULUS == other.v % MODULUS
    }
}

impl Fe {
    /// The canonical word of this element (`< p`).
    pub fn canonical(&self) -> (r: u64)
        ensures
            r < MODULUS,
            r as int == self@,
    {
        self.v % MODULUS
    }

    pub fn zero() -> (r: Fe)
        ensures
            r@ == 0,
            r.v == 0,
    {
        Fe { v: 0 }
    }

    pub fn one() -> (r: Fe)
        ensures
            r@ == 1,
            r.v == 1,
    {
        proof {
            lemma_small_mod(1, p() as nat);
        }
        Fe { v: 1 }
    }

    pub fn from_u64(x: u64) -> (r: Fe)
        ensures
            r@ == (x as int) % p(),
            r.v < MODULUS,
    {
        Fe { v: x % MODULUS }
    }

    pub fn from_u32(x: u32) -> (r: Fe)
        ensures
            r@ == x as int,
            r.v == x,
    {
        proof {
            lemma_small_mod(x as nat, p() as nat);
        }
        Fe { v: x as u64 }
    }

    /// Embeds a signed integer: the residue of `x` modulo `p`.
    pub fn from_i128(x: i128) -> (r: Fe)
        ensures
            r@ == (x as int) % p(),
            r.v < MODULUS,
    {
        if x >= 0 {
            let m = (x as u128) % (MODULUS as u128);
            proof {
                lemma_mod_bound(x as int, p());
                lemma_mod_twice(x as int, p());
            }
            Fe { v: m as u64 }
        } else {
            // -x = (-(x + 1)) + 1 avoids overflow at i128::MIN
            let a: u128 = ((-(x + 1)) as u128) + 1;
            let m = a % (MODULUS as u128);
            let v: u64 = if m == 0 {
                0
            } else {
                (MODULUS as u128 - m) as u64
            };
            proof {
                assert(a as int == -(x as int));
                lemma_mod_bound(a as int, p());
                if m == 0 {
                    lemma_mod_is_zero_neg(a as int);
                    lemma_small_mod(0, p() as nat);
                } else {
                    lemma_neg_mod(a as int);
                    lemma_small_mod(v as nat, p() as nat);
                }
            }
            Fe { v }
        }
    }

    /// The signed integer this element encodes (`f_to_int`).
    pub fn to_int(&self) -> (r: i128)
        ensures
            r as int == signed_value(self@),
    {
        let c = self.v % MODULUS;
        if c > (MODULUS - 1) / 2 {
            (c as i128) - (MODULUS as i128)
        } else {
            c as i128
        }
    }

    pub fn add(&self, o: &Fe) -> (r: Fe)
        ensures
            r@ == fadd(self@, o@),
            r.v < MODULUS,
    {
        let s: u128 = (self.v as u128) + (o.v as u128);
        let m = s % (MODULUS as u128);
        proof {
            lemma_mod_bound(s as int, p());
            lemma_add_mod_noop(self.v as int, o.v as int, p());
            lemma_small_mod(m as nat, p() as nat);
        }
        Fe { v: m as u64 }
    }

    pub fn sub(&self, o: &Fe) -> (r: Fe)
        ensures
            r@ == fsub(self@, o@),
            r.v < MODULUS,
    {
        let b = (o.v % MODULUS) as u128;
        let s: u128 = (self.v as u128) + (MODULUS as u128) - b;
        let m = s % (MODULUS as u128);
        proof {
            lemma_mod_bound(s as int, p());
            lemma_small_mod(m as nat, p() as nat);
            lemma_mod_add_multiples_vanish((self.v as int) - (b as int), p());
            lemma_sub_mod_noop(self.v as int, o.v as int, p());
            lemma_sub_mod_noop_right(self.v as int, o.v as int, p());
            lemma_mod_twice(self.v as int, p());
        }
        Fe { v: m as u64 }
    }

    pub fn mul(&self, o: &Fe) -> (r: Fe)
        ensures
            r@ == fmul(self@, o@),
            r.v < MODULUS,
    {
        proof {
            assert((self.v as int) * (o.v as int) <= u64::MAX * u64::MAX) by (nonlinear_arith);
        }
        let s: u128 = (self.v as u128) * (o.v as u128);
        let m = s % (MODULUS as u128);
        proof {
            lemma_mod_bound(s as int, p());
            lemma_mul_mod_noop(self.v as int, o.v as int, p());
            lemma_small_mod(m as nat, p() as nat);
        }
        Fe { v: m as u64 }
    }

    pub fn neg(&self) -> (r: Fe)
        ensures
            r@ == fneg(self@),
            r.v < MODULUS,
    {
        let z = Fe::zero();
        let r = z.sub(self);
        proof {
            lemma_mod_bound(self.v as int, p());
            assert(0int - self@ == -self@);
        }
        r
    }

    /// `self^e` by square-and-multiply.
    pub fn pow(&self, e: u64) -> (r: Fe)
        ensures
            r@ == fpow(self@, e as nat),
            r.v < MODULUS,
    {
        let mut result = Fe::one();
        let mut base = *self;
        let mut k = e;
        proof {
            lemma_fe_range(*self);
            lemma_small_mod(fpow(self@, e as nat) as nat, p() as nat);
            lemma_mod_bound(pow(self@, e as nat), p());
            assert(fmul(1, fpow(self@, e as nat)) == fpow(self@, e as nat));
        }
        while k > 0
            invariant
                fmul(result@, fpow(base@, k as nat)) == fpow(self@, e as nat),
                result.v < MODULUS,
            decreases k,
        {
            proof {
                lemma_pow_step(result@, base@, k as nat);
            }
            if k % 2 == 1 {
                result = result.mul(&base);
            }
            base = base.mul(&base);
            k = k / 2;
        }
        proof {
            lemma_pow0(base@);
            lemma_fe_range(result);
            lemma_small_mod(result@ as nat, p() as nat);
            assert(fpow(base@, 0) == 1);
            assert(result@ * 1 == result@);
        }
        result
    }

    /// The multiplicative inverse `self^(p-2)`, returned when it checks
    /// (`self * x == 1`); zero has none.
    pub fn inverse(&self) -> (r: Option<Fe>)
        ensures
            r is Some <==> fmul(self@, fpow(self@, (p() - 2) as nat)) == 1,
            r is Some ==> self@ != 0,
            r matches Some(x) ==> fmul(self@, x@) == 1 && x@ == finv(self@) && x.v < MODULUS
                && x@ == fpow(self@, (p() - 2) as nat),
    {
        let x = self.pow(MODULUS - 2);
        let prod = self.mul(&x);
        if prod.v == 1 {
            proof {
                lemma_fe_range(x);
                lemma_small_mod(1, p() as nat);
                lemma_finv_unique(self@, x@);
                if self@ == 0 {
                    assert(self@ * x@ == 0);
                    lemma_small_mod(0, p() as nat);
                }
            }
            Some(x)
        } else {
            proof {
                lemma_small_mod(prod.v as nat, p() as nat);
            }
            None
        }
    }

    /// Field equality (`==` on residues).
    pub fn equals(&self, o: &Fe) -> (r: bool)
        ensures
            r == (self@ == o@),
    {
        self.v % MODULUS == o.v % MODULUS
    }
}

/// One square-and-multiply step preserves `result * base^k`.
proof fn lemma_pow_step(r: int, x: int, k: nat)
    requires
        k > 0,
    ensures
        fmul(
            if k % 2 == 1 {
                fmul(r, x)
            } else {
                r
            },
            fpow(fmul(x, x), k / 2),
        ) == fmul(r, fpow(x, k)),
{
    let q = k / 2;
    let xx = fmul(x, x);
    // fpow(xx, q) == pow(x, 2q) % p
    lemma_pow_mod_noop(x * x, q, p());
    lemma_square_is_pow2(x);
    lemma_pow_multiplies(x, 2, q);
    assert(pow(x, 2) == x * x);
    assert(fpow(xx, q) == pow(x, 2 * q) % p());
    if k % 2 == 1 {
        assert(k == 2 * q + 1);
        lemma_pow_adds(x, 2 * q, 1);
        lemma_pow1(x);
        // ((r*x)%p * (x^{2q} % p)) % p == (r * x * x^{2q}) % p
        lemma_mul_mod_noop(r * x, pow(x, 2 * q), p());
        lemma_mul_mod_noop_right(r, pow(x, k), p());
        lemma_mod_twice(r * x, p());
        lemma_mod_twice(pow(x, 2 * q), p());
        assert((r * x) * pow(x, 2 * q) == r * (pow(x, 2 * q) * x)) by (nonlinear_arith);
        assert(pow(x, k) == pow(x, 2 * q) * pow(x, 1));
    } else {
        assert(k == 2 * q);
        lemma_mul_mod_noop_right(r, pow(x, k), p());
        lemma_mul_mod_noop_right(r, pow(x, 2 * q), p());
    }
}

proof fn lemma_mod_is_zero_neg(a: int)
    requires
        a > 0,
        a % p() == 0,
    ensures
        (-a) % p() == 0,
{
    lemma_fundamental_div_mod(a, p());
    let q = a / p();
    assert(-a == (-q) * p()) by (nonlinear_arith)
        requires
            a == p() * q + 0,
    ;
    lemma_mod_multiples_basic(-q, p());
}

proof fn lemma_neg_mod(a: int)
    requires
        a > 0,
        a % p() != 0,
    ensures
        (-a) % p() == p() - a % p(),
{
    lemma_fundamental_div_mod(a, p());
    let q = a / p();
    let r = a % p();
    lemma_mod_bound(a, p());
    assert(-a == (-q - 1) * p() + (p() - r)) by (nonlinear_arith)
        requires
            a == p() * q + r,
    ;
    lemma_fundamental_div_mod_converse(-a, p(), -q - 1, p() - r);
}

/// Inverses are unique: an element with `fmul(a, x) == 1` is `finv(a)`.
pub proof fn lemma_finv_unique(a: int, x: int)
    requires
        0 <= x < p(),
        fmul(a, x) == 1,
    ensures
        finv(a) == x,
{
    let y = finv(a);
    assert(0 <= y < p() && fmul(a, y) == 1);
    // x = x * (a * y) = (x * a) * y = y   (mod p)
    lemma_mul_mod_noop_right(x, a * y, p());
    lemma_mul_mod_noop_left(x * a, y, p());
    assert(x * (a * y) == (x * a) * y) by (nonlinear_arith);
    assert(x * a == a * x) by (nonlinear_arith);
    lemma_small_mod(x as nat, p() as nat);
    lemma_small_mod(y as nat, p() as nat);
    assert(x * 1 == x);
    assert(1 * y == y);
}


/// `a` and `b` are congruent modulo `p`.
pub open spec fn cong(a: int, b: int) -> bool {
    a % p() == b % p()
}

pub proof fn lemma_cong_mod(a: int)
    ensures
        cong(a % p(), a),
{
    lemma_mod_twice(a, p());
}

pub proof fn lemma_cong_add(a: int, b: int, c: int, d: int)
    requires
        cong(a, c),
        cong(b, d),
    ensures
        cong(a + b, c + d),
{
    lemma_add_mod_noop(a, b, p());
    lemma_add_mod_noop(c, d, p());
}

pub proof fn lemma_cong_sub(a: int, b: int, c: int, d: int)
    requires
        cong(a, c),
        cong(b, d),
    ensures
        cong(a - b, c - d),
{
    lemma_sub_mod_noop(a, b, p());
    lemma_sub_mod_noop(c, d, p());
}

pub proof fn lemma_cong_mul(a: int, b: int, c: int, d: int)
    requires
        cong(a, c),
        cong(b, d),
    ensures
        cong(a * b, c * d),
{
    lemma_mul_mod_noop(a, b, p());
    lemma_mul_mod_noop(c, d, p());
}

/// Two residues that are congruent are equal.
pub proof fn lemma_cong_residues(a: int, b: int)
    requires
        cong(a, b),
        0 <= a < p(),
        0 <= b < p(),
    ensures
        a == b,
{
    lemma_small_mod(a as nat, p() as nat);
    lemma_small_mod(b as nat, p() as nat);
}

/// A field operation's result is a residue.
pub proof fn lemma_residue(a: int)
    ensures
        0 <= a % p() < p(),
{
    lemma_mod_bound(a, p());
}

/// The signed integer an element stands for lies within `±(p-1)/2`.
pub proof fn lemma_signed_value_bounds(a: int)
    requires
        0 <= a < p(),
    ensures
        -(p() - 1) / 2 <= signed_value(a) <= (p() - 1) / 2,
{
}

} // verus!
