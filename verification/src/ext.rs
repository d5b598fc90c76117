//! The quadratic extension GF(P^2) = GF(P)[X] / (X^2 - 7).
//!
//! An element `c0 + c1 X` is modelled by the pair of views `(c0@, c1@)`.
use crate::field::{fadd, fmul, fsub, lemma_fp_view_bound, lemma_modp_bound, modp, Fp, P};
use p3_field::extension::BinomialExtensionField;
use p3_field::{BasedVectorSpace, Field, PrimeField64};
use p3_goldilocks::Goldilocks;
use vstd::arithmetic::div_mod::*;
use vstd::arithmetic::mul::*;
use vstd::prelude::*;

verus! {

broadcast use lemma_fp_view_bound;

/// The non-residue `W` with `X^2 = W`.
pub const W: u64 = 7;

/// An element of GF(P^2) as the pair of its coordinates.
pub type Ext = (nat, nat);

pub open spec fn ezero() -> Ext {
    (0, 0)
}

pub open spec fn eone() -> Ext {
    (1, 0)
}

/// The base-field element `f` seen in the extension.
pub open spec fn ebase(f: nat) -> Ext {
    (modp(f as int), 0)
}

/// The integer `i` seen in the extension.
pub open spec fn eint(i: int) -> Ext {
    (modp(i), 0)
}

pub open spec fn eadd(a: Ext, b: Ext) -> Ext {
    (fadd(a.0, b.0), fadd(a.1, b.1))
}

pub open spec fn esub(a: Ext, b: Ext) -> Ext {
    (fsub(a.0, b.0), fsub(a.1, b.1))
}

/// `(a0 + a1 X)(b0 + b1 X) = a0 b0 + 7 a1 b1 + (a0 b1 + a1 b0) X`.
pub open spec fn emul(a: Ext, b: Ext) -> Ext {
    (modp((a.0 * b.0 + 7 * (a.1 * b.1)) as int), modp((a.0 * b.1 + a.1 * b.0) as int))
}

/// The product of an extension element by a base-field element.
pub open spec fn escale(a: Ext, f: nat) -> Ext {
    (fmul(a.0, f), fmul(a.1, f))
}

/// A canonical pair: both coordinates below P.
pub open spec fn ecanon(a: Ext) -> bool {
    a.0 < P && a.1 < P
}

pub open spec fn is_einverse(a: Ext, x: Ext) -> bool {
    ecanon(x) && emul(a, x) == eone()
}

/// The inverse of `a` in GF(P^2) (meaningful where one exists).
pub open spec fn einv(a: Ext) -> Ext {
    choose|x: Ext| is_einverse(a, x)
}

/// An element of GF(P^2).
#[derive(Clone, Copy, Debug)]
pub struct Fp2 {
    c0: Fp,
    c1: Fp,
}

impl View for Fp2 {
    type V = Ext;

    closed spec fn view(&self) -> Ext {
        (self.c0@, self.c1@)
    }
}

pub broadcast proof fn lemma_fp2_canon(x: Fp2)
    ensures
        #[trigger] ecanon(x@),
{
}

proof fn lemma_modp_lin(u: int, v: int, w: int, z: int)
    ensures
        modp(modp(u) * v + modp(w) * z) == modp(u * v + w * z),
        modp(u * modp(v) + w * modp(z)) == modp(u * v + w * z),
{
    let p = P as int;
    lemma_mul_mod_noop_left(u, v, p);
    lemma_mul_mod_noop_left(w, z, p);
    lemma_add_mod_noop(modp(u) * v, modp(w) * z, p);
    lemma_add_mod_noop(u * v, w * z, p);
    lemma_mul_mod_noop_right(u, v, p);
    lemma_mul_mod_noop_right(w, z, p);
    lemma_add_mod_noop(u * modp(v), w * modp(z), p);
}

proof fn lemma_assoc_identity(a0: int, a1: int, b0: int, b1: int, c0: int, c1: int)
    ensures
        (a0 * b0 + 7 * (a1 * b1)) * c0 + (a0 * b1 + a1 * b0) * (7 * c1) == a0 * (b0 * c0 + 7 * (
        b1 * c1)) + (7 * a1) * (b0 * c1 + b1 * c0),
        (a0 * b0 + 7 * (a1 * b1)) * c1 + (a0 * b1 + a1 * b0) * c0 == a0 * (b0 * c1 + b1 * c0) + a1
            * (b0 * c0 + 7 * (b1 * c1)),
{
    lemma_mul_is_distributive_add_other_way(c0, a0 * b0, 7 * (a1 * b1));
    lemma_mul_is_distributive_add_other_way(7 * c1, a0 * b1, a1 * b0);
    lemma_mul_is_distributive_add(a0, b0 * c0, 7 * (b1 * c1));
    lemma_mul_is_distributive_add(7 * a1, b0 * c1, b1 * c0);
    assert((a0 * b0) * c0 == a0 * (b0 * c0)) by (nonlinear_arith);
    assert((7 * (a1 * b1)) * c0 == (7 * a1) * (b1 * c0)) by (nonlinear_arith);
    assert((a0 * b1) * (7 * c1) == a0 * (7 * (b1 * c1))) by (nonlinear_arith);
    assert((a1 * b0) * (7 * c1) == (7 * a1) * (b0 * c1)) by (nonlinear_arith);
    lemma_mul_is_distributive_add_other_way(c1, a0 * b0, 7 * (a1 * b1));
    lemma_mul_is_distributive_add_other_way(c0, a0 * b1, a1 * b0);
    lemma_mul_is_distributive_add(a0, b0 * c1, b1 * c0);
    lemma_mul_is_distributive_add(a1, b0 * c0, 7 * (b1 * c1));
    assert((a0 * b0) * c1 == a0 * (b0 * c1)) by (nonlinear_arith);
    assert((7 * (a1 * b1)) * c1 == a1 * (7 * (b1 * c1))) by (nonlinear_arith);
    assert((a0 * b1) * c0 == a0 * (b1 * c0)) by (nonlinear_arith);
    assert((a1 * b0) * c0 == a1 * (b0 * c0)) by (nonlinear_arith);
}

/// Multiplication in GF(P^2) is commutative and associative, and `1` is neutral.
pub proof fn lemma_emul_laws(a: Ext, b: Ext, c: Ext)
    ensures
        emul(a, b) == emul(b, a),
        emul(emul(a, b), c) == emul(a, emul(b, c)),
        ecanon(a) ==> emul(a, eone()) == a,
{
    assert(a.0 * b.0 + 7 * (a.1 * b.1) == b.0 * a.0 + 7 * (b.1 * a.1)) by (nonlinear_arith);
    assert(a.0 * b.1 + a.1 * b.0 == b.0 * a.1 + b.1 * a.0) by (nonlinear_arith);
    let ab0: int = (a.0 * b.0 + 7 * (a.1 * b.1)) as int;
    let ab1: int = (a.0 * b.1 + a.1 * b.0) as int;
    let bc0: int = (b.0 * c.0 + 7 * (b.1 * c.1)) as int;
    let bc1: int = (b.0 * c.1 + b.1 * c.0) as int;
    // first coordinate
    lemma_modp_lin(ab0, c.0 as int, ab1, 7 * (c.1 as int));
    assert(modp(ab1) * (7 * c.1) == 7 * (modp(ab1) * c.1)) by (nonlinear_arith);
    lemma_modp_lin(a.0 as int, bc0, 7 * (a.1 as int), bc1);
    assert((7 * a.1) * modp(bc1) == 7 * (a.1 * modp(bc1))) by (nonlinear_arith);
    lemma_assoc_identity(a.0 as int, a.1 as int, b.0 as int, b.1 as int, c.0 as int, c.1 as int);
    // second coordinate
    lemma_modp_lin(ab0, c.1 as int, ab1, c.0 as int);
    lemma_modp_lin(a.0 as int, bc1, a.1 as int, bc0);
    
    if ecanon(a) {
        lemma_modp_bound(a.0 as int);
        lemma_modp_bound(a.1 as int);
    }
}

/// The inverse of an element of GF(P^2) is unique.
pub proof fn lemma_einverse_unique(a: Ext, x: Ext, y: Ext)
    requires
        is_einverse(a, x),
        is_einverse(a, y),
    ensures
        x == y,
{
    // x == x (a y) == (x a) y == y
    lemma_emul_laws(x, a, y);
    lemma_emul_laws(a, x, y);
    lemma_emul_laws(x, eone(), y);
    lemma_emul_laws(y, eone(), x);
}

pub proof fn lemma_einv(a: Ext, x: Ext)
    requires
        is_einverse(a, x),
    ensures
        einv(a) == x,
{
    let y = einv(a);
    assert(is_einverse(a, y));
    lemma_einverse_unique(a, x, y);
}

/// The GF(P^2) inverse of p3: `Field::inverse` on
/// `BinomialExtensionField<Goldilocks, 2>`, whose `X^2 = 7`. Claimed: for a
/// nonzero canonical pair the result is canonical and its product with the
/// input is one. p3 panics on zero, which the `requires` leaves out.
#[verifier::external_body]
fn ext_inverse(a0: u64, a1: u64) -> (r: (u64, u64))
    requires
        a0 < P,
        a1 < P,
        a0 != 0 || a1 != 0,
    ensures
        is_einverse((a0 as nat, a1 as nat), (r.0 as nat, r.1 as nat)),
{
    let a = BinomialExtensionField::<Goldilocks, 2>::new([Goldilocks::new(a0), Goldilocks::new(a1)]);
    let c = a.inverse();
    let cs = <BinomialExtensionField<Goldilocks, 2> as BasedVectorSpace<Goldilocks>>::as_basis_coefficients_slice(&c);
    (cs[0].as_canonical_u64(), cs[1].as_canonical_u64())
}

impl Fp2 {
    pub fn new(c0: Fp, c1: Fp) -> (r: Fp2)
        ensures
            r@ == (c0@, c1@),
    {
        Fp2 { c0, c1 }
    }

    /// The coordinates `(c0, c1)` of `c0 + c1 X`.
    pub fn coeffs(&self) -> (r: (Fp, Fp))
        ensures
            r.0@ == self@.0,
            r.1@ == self@.1,
    {
        (self.c0, self.c1)
    }

    pub fn from_base(f: Fp) -> (r: Fp2)
        ensures
            r@ == ebase(f@),
    {
        proof {
            lemma_modp_bound(f@ as int);
        }
        Fp2 { c0: f, c1: Fp::zero() }
    }

    /// The integer `x mod P` in the extension.
    pub fn from_u64(x: u64) -> (r: Fp2)
        ensures
            r@ == eint(x as int),
    {
        Fp2 { c0: Fp::from_u64(x), c1: Fp::zero() }
    }

    pub fn zero() -> (r: Fp2)
        ensures
            r@ == ezero(),
    {
        Fp2 { c0: Fp::zero(), c1: Fp::zero() }
    }

    pub fn one() -> (r: Fp2)
        ensures
            r@ == eone(),
    {
        Fp2 { c0: Fp::one(), c1: Fp::zero() }
    }

    pub fn add(&self, other: &Fp2) -> (r: Fp2)
        ensures
            r@ == eadd(self@, other@),
    {
        Fp2 { c0: self.c0.add(&other.c0), c1: self.c1.add(&other.c1) }
    }

    pub fn sub(&self, other: &Fp2) -> (r: Fp2)
        ensures
            r@ == esub(self@, other@),
    {
        Fp2 { c0: self.c0.sub(&other.c0), c1: self.c1.sub(&other.c1) }
    }

    pub fn mul(&self, other: &Fp2) -> (r: Fp2)
        ensures
            r@ == emul(self@, other@),
    {
        let w = Fp::from_u64(W);
        let t00 = self.c0.mul(&other.c0);
        let t11 = self.c1.mul(&other.c1);
        let t01 = self.c0.mul(&other.c1);
        let t10 = self.c1.mul(&other.c0);
        let c0 = t00.add(&w.mul(&t11));
        let c1 = t01.add(&t10);
        proof {
            let (a0, a1, b0, b1) = (self@.0 as int, self@.1 as int, other@.0 as int, other@.1 as int);
            lemma_modp_bound(7);
            lemma_modp_lin(a0 * b0, 1, 7 * (a1 * b1), 1);
            lemma_mul_mod_noop_right(7, a1 * b1, P as int);
            lemma_modp_lin(a0 * b1, 1, a1 * b0, 1);
        }
        Fp2 { c0, c1 }
    }

    /// The product by a base-field element.
    pub fn mul_base(&self, f: &Fp) -> (r: Fp2)
        ensures
            r@ == escale(self@, f@),
    {
        Fp2 { c0: self.c0.mul(f), c1: self.c1.mul(f) }
    }

    pub fn equals(&self, other: &Fp2) -> (r: bool)
        ensures
            r == (self@ == other@),
    {
        self.c0.equals(&other.c0) && self.c1.equals(&other.c1)
    }

    pub fn is_zero(&self) -> (r: bool)
        ensures
            r == (self@ == ezero()),
    {
        self.c0.is_zero() && self.c1.is_zero()
    }

    /// The multiplicative inverse; the element must be nonzero.
    pub fn inverse(&self) -> (r: Fp2)
        requires
            self@ != ezero(),
        ensures
            is_einverse(self@, r@),
            r@ == einv(self@),
    {
        let a0 = self.c0.as_canonical_u64();
        let a1 = self.c1.as_canonical_u64();
        let (r0, r1) = ext_inverse(a0, a1);
        let r = Fp2 { c0: Fp::from_u64(r0), c1: Fp::from_u64(r1) };
        proof {
            lemma_modp_bound(r0 as int);
            lemma_modp_bound(r1 as int);
            lemma_einv(self@, r@);
        }
        r
    }
}

impl PartialEq for Fp2 {
    fn eq(&self, other: &Fp2) -> (r: bool) {
        self.c0.equals(&other.c0) && self.c1.equals(&other.c1)
    }
}

impl Eq for Fp2 {
}

impl vstd::std_specs::cmp::PartialEqSpecImpl for Fp2 {
    open spec fn obeys_eq_spec() -> bool {
        true
    }

    open spec fn eq_spec(&self, other: &Fp2) -> bool {
        self@ == other@
    }
}

} // verus!
