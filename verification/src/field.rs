//! The Goldilocks prime field GF(P), P = 2^64 - 2^32 + 1.
//!
//! An element is held as a `u64` whose value is taken modulo P; every
//! operation returns its canonical representative. The mathematical model of
//! an element is its view, a `nat` below P.
use p3_field::{Field, PrimeField64};
use p3_goldilocks::Goldilocks;
use vstd::arithmetic::div_mod::*;
use vstd::arithmetic::mul::*;
use vstd::prelude::*;

verus! {

/// The Goldilocks prime.
pub const P: u64 = 0xffff_ffff_0000_0001;

/// The residue of an integer modulo P, in `0..P`.
pub open spec fn modp(x: int) -> nat {
    (x % (P as int)) as nat
}

pub open spec fn fadd(a: nat, b: nat) -> nat {
    modp(a + b as int)
}

pub open spec fn fsub(a: nat, b: nat) -> nat {
    modp(a - b)
}

pub open spec fn fmul(a: nat, b: nat) -> nat {
    modp((a * b) as int)
}

/// `x` is the inverse of `a` in GF(P).
pub open spec fn is_inverse(a: nat, x: nat) -> bool {
    x < P && fmul(a, x) == 1
}

/// The inverse of `a` in GF(P) (meaningful where one exists).
pub open spec fn finv(a: nat) -> nat {
    choose|x: nat| is_inverse(a, x)
}

/// A field element of GF(P).
#[derive(Clone, Copy, Debug)]
pub struct Fp {
    v: u64,
}

impl View for Fp {
    type V = nat;

    closed spec fn view(&self) -> nat {
        modp(self.v as int)
    }
}

pub broadcast proof fn lemma_fp_view_bound(x: Fp)
    ensures
        #[trigger] x@ < P,
{
}

pub proof fn lemma_modp_bound(x: int)
    ensures
        modp(x) < P,
        0 <= x < P ==> modp(x) == x,
{
    if 0 <= x < P {
        lemma_small_mod(x as nat, P as nat);
    }
}

/// The inverse of an element is unique.
pub proof fn lemma_inverse_unique(a: nat, x: nat, y: nat)
    requires
        is_inverse(a, x),
        is_inverse(a, y),
    ensures
        x == y,
{
    let p = P as int;
    // x == x * (a * y) == (x * a) * y == y  (mod P)
    lemma_mul_mod_noop_right(x as int, (a * y) as int, p);
    lemma_mul_is_associative(x as int, a as int, y as int);
    lemma_mul_is_commutative(x as int, a as int);
    lemma_mul_mod_noop_left((x * a) as int, y as int, p);
    lemma_small_mod(x, P as nat);
    lemma_small_mod(y, P as nat);
}

/// An inverse of `a` is `finv(a)`.
pub proof fn lemma_finv(a: nat, x: nat)
    requires
        is_inverse(a, x),
    ensures
        finv(a) == x,
{
    let y = finv(a);
    assert(is_inverse(a, y));
    lemma_inverse_unique(a, x, y);
}

/// The inverse of a product is the product of the inverses.
pub proof fn lemma_inverse_mul(a: nat, b: nat, x: nat, y: nat)
    requires
        is_inverse(a, x),
        is_inverse(b, y),
    ensures
        is_inverse(fmul(a, b), fmul(x, y)),
        is_inverse(modp((a * b) as int), modp((x * y) as int)),
{
    let p = P as int;
    lemma_modp_bound((x * y) as int);
    // (a b mod P)(x y mod P) == (a x)(b y) == 1 (mod P)
    lemma_mul_mod_noop((a * b) as int, (x * y) as int, p);
    assert((a * b) * (x * y) == (a * x) * (b * y)) by (nonlinear_arith);
    lemma_mul_mod_noop((a * x) as int, (b * y) as int, p);
    lemma_small_mod(1, P as nat);
}

/// The inverse of `-a` is `-x` when `x` is the inverse of `a`.
pub proof fn lemma_inverse_neg(a: nat, x: nat)
    requires
        is_inverse(a, x),
    ensures
        is_inverse(modp(-a), modp(-(x as int))),
{
    let p = P as int;
    lemma_modp_bound(-(x as int));
    lemma_mul_mod_noop(-a, -(x as int), p);
    assert((-a) * (-(x as int)) == a * x) by (nonlinear_arith);
}

/// `fmul` is commutative and associative, and distributes over `fadd`.
pub proof fn lemma_fmul_laws(a: nat, b: nat, c: nat)
    ensures
        fmul(a, b) == fmul(b, a),
        fmul(fmul(a, b), c) == fmul(a, fmul(b, c)),
        fmul(a, fadd(b, c)) == fadd(fmul(a, b), fmul(a, c)),
        fmul(a, 1) == modp(a as int),
        fmul(a, 0) == 0,
{
    let p = P as int;
    lemma_mul_is_commutative(a as int, b as int);
    lemma_mul_mod_noop_left((a * b) as int, c as int, p);
    lemma_mul_mod_noop_right(a as int, (b * c) as int, p);
    lemma_mul_is_associative(a as int, b as int, c as int);
    lemma_mul_mod_noop_right(a as int, (b + c) as int, p);
    lemma_mul_is_distributive_add(a as int, b as int, c as int);
    lemma_add_mod_noop((a * b) as int, (a * c) as int, p);
    lemma_small_mod(0, P as nat);
}

/// The Goldilocks inverse of p3: `Field::inverse`. Claimed: for a nonzero
/// canonical value the result is canonical and is its inverse modulo P.
/// p3 panics on zero, which the `requires` leaves out.
#[verifier::external_body]
fn goldilocks_inverse(a: u64) -> (r: u64)
    requires
        0 < a < P,
    ensures
        r < P,
        (a as nat * r as nat) % (P as nat) == 1,
{
    Goldilocks::new(a).inverse().as_canonical_u64()
}

impl Fp {
    /// The field element `x mod P`.
    pub fn from_u64(x: u64) -> (r: Fp)
        ensures
            r@ == modp(x as int),
    {
        Fp { v: x % P }
    }

    pub fn zero() -> (r: Fp)
        ensures
            r@ == 0,
    {
        proof {
            lemma_small_mod(0, P as nat);
        }
        Fp { v: 0 }
    }

    pub fn one() -> (r: Fp)
        ensures
            r@ == 1,
    {
        proof {
            lemma_small_mod(1, P as nat);
        }
        Fp { v: 1 }
    }

    /// The canonical representative, in `0..P`.
    pub fn as_canonical_u64(&self) -> (r: u64)
        ensures
            r as nat == self@,
            r < P,
    {
        self.v % P
    }

    pub fn add(&self, other: &Fp) -> (r: Fp)
        ensures
            r@ == fadd(self@, other@),
    {
        let a = self.v % P;
        let b = other.v % P;
        let s = ((a as u128 + b as u128) % (P as u128)) as u64;
        proof {
            lemma_add_mod_noop(self.v as int, other.v as int, P as int);
            lemma_small_mod(s as nat, P as nat);
        }
        Fp { v: s }
    }

    pub fn sub(&self, other: &Fp) -> (r: Fp)
        ensures
            r@ == fsub(self@, other@),
    {
        let a = self.v % P;
        let b = other.v % P;
        let s = if a >= b {
            a - b
        } else {
            a + (P - b)
        };
        proof {
            lemma_sub_mod_noop(self.v as int, other.v as int, P as int);
            if a >= b {
                lemma_small_mod((a - b) as nat, P as nat);
            } else {
                lemma_mod_add_multiples_vanish(a - b, P as int);
                lemma_small_mod((a - b + P) as nat, P as nat);
            }
            lemma_small_mod(s as nat, P as nat);
        }
        Fp { v: s }
    }

    pub fn mul(&self, other: &Fp) -> (r: Fp)
        ensures
            r@ == fmul(self@, other@),
    {
        let a = self.v as u128;
        let b = other.v as u128;
        proof {
            lemma_mul_upper_bound(a as int, u64::MAX as int, b as int, u64::MAX as int);
        }
        let s = ((a * b) % (P as u128)) as u64;
        proof {
            lemma_mul_mod_noop(self.v as int, other.v as int, P as int);
            lemma_small_mod(s as nat, P as nat);
        }
        Fp { v: s }
    }

    pub fn neg(&self) -> (r: Fp)
        ensures
            r@ == modp(-(self@ as int)),
    {
        let z = Fp::zero();
        let r = z.sub(self);
        r
    }

    /// Field equality.
    pub fn equals(&self, other: &Fp) -> (r: bool)
        ensures
            r == (self@ == other@),
    {
        self.v % P == other.v % P
    }

    pub fn is_zero(&self) -> (r: bool)
        ensures
            r == (self@ == 0),
    {
        self.v % P == 0
    }

    /// The multiplicative inverse; the element must be nonzero.
    pub fn inverse(&self) -> (r: Fp)
        requires
            self@ != 0,
        ensures
            is_inverse(self@, r@),
            r@ == finv(self@),
    {
        let a = self.v % P;
        let x = goldilocks_inverse(a);
        proof {
            lemma_small_mod(x as nat, P as nat);
            lemma_finv(self@, x as nat);
        }
        Fp { v: x }
    }
}

impl PartialEq for Fp {
    fn eq(&self, other: &Fp) -> (r: bool) {
        self.v % P == other.v % P
    }
}

impl Eq for Fp {
}

impl vstd::std_specs::cmp::PartialEqSpecImpl for Fp {
    open spec fn obeys_eq_spec() -> bool {
        true
    }

    open spec fn eq_spec(&self, other: &Fp) -> bool {
        self@ == other@
    }
}

} // verus!
