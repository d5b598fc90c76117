//! Ring laws of GF(P^2) and of its finite sums and products.
use crate::ext::{eadd, ebase, ecanon, eint, emul, eone, escale, esub, ezero, is_einverse, lemma_emul_laws, Ext};
use crate::field::{fadd, fmul, fsub, lemma_modp_bound, modp, P};
use crate::sums::{eprod, esum, lemma_eadd_laws};
use vstd::arithmetic::div_mod::*;
use vstd::arithmetic::mul::*;
use vstd::prelude::*;

verus! {

/// `-a` in GF(P^2).
pub open spec fn eneg(a: Ext) -> Ext {
    (modp(-(a.0 as int)), modp(-(a.1 as int)))
}

proof fn lemma_modp_add(x: int, y: int)
    ensures
        modp(modp(x) + modp(y) as int) == modp(x + y),
        modp(modp(x) + y) == modp(x + y),
        modp(x + modp(y)) == modp(x + y),
        modp(modp(x) - modp(y)) == modp(x - y),
        modp(x - modp(y)) == modp(x - y),
        modp(modp(x) - y) == modp(x - y),
{
    let p = P as int;
    lemma_add_mod_noop(x, y, p);
    lemma_add_mod_noop_right(y, x, p);
    lemma_add_mod_noop_right(x, y, p);
    lemma_sub_mod_noop(x, y, p);
    lemma_sub_mod_noop_right(x, y, p);
    lemma_mod_twice(x, p);
    lemma_sub_mod_noop(x % p, y, p);
    lemma_mod_twice(y, p);
}

proof fn lemma_modp_mul(x: int, y: int)
    ensures
        modp(modp(x) * y) == modp(x * y),
        modp(x * modp(y)) == modp(x * y),
{
    let p = P as int;
    lemma_mul_mod_noop_left(x, y, p);
    lemma_mul_mod_noop_right(x, y, p);
}

/// Multiplication distributes over addition and subtraction; zero absorbs.
pub proof fn lemma_edistrib(a: Ext, b: Ext, c: Ext)
    ensures
        emul(a, eadd(b, c)) == eadd(emul(a, b), emul(a, c)),
        emul(a, esub(b, c)) == esub(emul(a, b), emul(a, c)),
        emul(eadd(b, c), a) == eadd(emul(b, a), emul(c, a)),
        emul(a, ezero()) == ezero(),
        emul(ezero(), a) == ezero(),
{
    let (a0, a1, b0, b1, c0, c1) = (a.0 as int, a.1 as int, b.0 as int, b.1 as int, c.0 as int, c.1 as int);
    // add
    lemma_modp_mul(a0, b0 + c0);
    lemma_modp_mul(a1, b1 + c1);
    lemma_modp_mul(a0, b1 + c1);
    lemma_modp_mul(a1, b0 + c0);
    lemma_modp_lin_sum(a0, b0 + c0, 7 * a1, b1 + c1);
    lemma_modp_lin_sum(a0, b1 + c1, a1, b0 + c0);
    assert(a0 * (b0 + c0) + (7 * a1) * (b1 + c1) == (a0 * b0 + 7 * (a1 * b1)) + (a0 * c0 + 7 * (
    a1 * c1))) by (nonlinear_arith);
    assert(a0 * (b1 + c1) + a1 * (b0 + c0) == (a0 * b1 + a1 * b0) + (a0 * c1 + a1 * c0)) by (nonlinear_arith);
    lemma_modp_add(a0 * b0 + 7 * (a1 * b1), a0 * c0 + 7 * (a1 * c1));
    lemma_modp_add(a0 * b1 + a1 * b0, a0 * c1 + a1 * c0);
    assert(7 * (a1 * modp(b1 + c1)) == (7 * a1) * modp(b1 + c1)) by (nonlinear_arith);
    // sub
    lemma_modp_lin_sum(a0, b0 - c0, 7 * a1, b1 - c1);
    lemma_modp_lin_sum(a0, b1 - c1, a1, b0 - c0);
    assert(a0 * (b0 - c0) + (7 * a1) * (b1 - c1) == (a0 * b0 + 7 * (a1 * b1)) - (a0 * c0 + 7 * (
    a1 * c1))) by (nonlinear_arith);
    assert(a0 * (b1 - c1) + a1 * (b0 - c0) == (a0 * b1 + a1 * b0) - (a0 * c1 + a1 * c0)) by (nonlinear_arith);
    lemma_modp_add(a0 * b0 + 7 * (a1 * b1), a0 * c0 + 7 * (a1 * c1));
    lemma_modp_add(a0 * b1 + a1 * b0, a0 * c1 + a1 * c0);
    assert(7 * (a1 * modp(b1 - c1)) == (7 * a1) * modp(b1 - c1)) by (nonlinear_arith);
    // the other side, by commutativity
    lemma_emul_laws(eadd(b, c), a, a);
    lemma_emul_laws(b, a, a);
    lemma_emul_laws(c, a, a);
    // zero
    lemma_modp_bound(0);
    lemma_emul_laws(ezero(), a, a);
}

proof fn lemma_modp_lin_sum(u: int, v: int, w: int, z: int)
    ensures
        modp(u * modp(v) + w * modp(z)) == modp(u * v + w * z),
{
    lemma_modp_mul(u, v);
    lemma_modp_mul(w, z);
    lemma_modp_add(u * modp(v), w * modp(z));
    lemma_modp_add(u * v, w * z);
}

proof fn lemma_coord_sub(x: int, y: int)
    requires
        0 <= x < P,
        0 <= y < P,
    ensures
        modp(modp(x - y) + y) == x,
        modp(x - y) == modp(x + modp(-y)),
        modp(x - x) == 0,
        modp(x - 0) == x,
        modp(x + modp(-x)) == 0,
        modp(0 - x) == modp(-x),
{
    assert(modp(modp(x - y) + y) == x) by {
        lemma_modp_add(x - y, y);
        lemma_modp_bound(x);
    }
    assert(modp(x - y) == modp(x + modp(-y))) by {
        lemma_modp_add(x, -y);
    }
    assert(modp(x + modp(-x)) == 0) by {
        lemma_modp_add(x, -x);
        lemma_modp_bound(0);
    }
    lemma_modp_bound(0);
    lemma_modp_bound(x);
}

/// Subtraction and negation.
pub proof fn lemma_esub_laws(a: Ext, b: Ext)
    requires
        ecanon(a),
        ecanon(b),
    ensures
        eadd(esub(a, b), b) == a,
        esub(a, b) == eadd(a, eneg(b)),
        esub(a, a) == ezero(),
        esub(a, ezero()) == a,
        eadd(a, eneg(a)) == ezero(),
        esub(ezero(), a) == eneg(a),
{
    lemma_coord_sub(a.0 as int, b.0 as int);
    lemma_coord_sub(a.1 as int, b.1 as int);
}

/// `escale` is multiplication by a base-field element.
pub proof fn lemma_escale_is_emul(a: Ext, f: nat)
    ensures
        escale(a, f) == emul(a, ebase(f)),
{
    lemma_modp_mul(a.0 as int, f as int);
    lemma_modp_mul(a.1 as int, f as int);
    lemma_modp_bound(0);
}

/// The integers embed in GF(P^2).
pub proof fn lemma_eint_hom(x: int, y: int)
    ensures
        eadd(eint(x), eint(y)) == eint(x + y),
        esub(eint(x), eint(y)) == eint(x - y),
        emul(eint(x), eint(y)) == eint(x * y),
        ecanon(eint(x)),
        eint(0) == ezero(),
        eint(1) == eone(),
{
    lemma_modp_add(x, y);
    lemma_modp_mul(x, y);
    lemma_modp_mul(modp(x) as int, y);
    lemma_modp_bound(0);
    lemma_modp_bound(1);
    lemma_modp_bound(x);
    assert(modp(x) * modp(y) + 7 * (0 * 0) == modp(x) * modp(y));
    assert(modp(x) * 0 + 0 * modp(y) == 0);
}

/// The base field embeds in GF(P^2).
pub proof fn lemma_ebase_hom(a: nat, b: nat)
    ensures
        eadd(ebase(a), ebase(b)) == ebase(fadd(a, b)),
        emul(ebase(a), ebase(b)) == ebase(fmul(a, b)),
        esub(ebase(a), ebase(b)) == ebase(fsub(a, b)),
        ecanon(ebase(a)),
{
    lemma_modp_add(a as int, b as int);
    lemma_modp_mul(a as int, b as int);
    lemma_modp_mul(modp(a as int) as int, b as int);
    lemma_modp_bound(0);
    lemma_modp_bound(a as int);
    lemma_modp_bound((a + b) as int);
    lemma_modp_bound((a * b) as int);
    lemma_modp_bound(a - b);
    lemma_modp_add(a as int, -(b as int));
    assert(modp(a as int) * modp(b as int) + 7 * (0 * 0) == modp(a as int) * modp(b as int));
    assert(modp(a as int) * 0 + 0 * modp(b as int) == 0);
}

/// Multiplying a sum by a constant.
pub proof fn lemma_esum_scale(a: Ext, f: spec_fn(nat) -> Ext, n: nat)
    ensures
        emul(a, esum(f, n)) == esum(|i: nat| emul(a, f(i)), n),
    decreases n,
{
    if n == 0 {
        lemma_edistrib(a, ezero(), ezero());
    } else {
        lemma_esum_scale(a, f, (n - 1) as nat);
        lemma_edistrib(a, esum(f, (n - 1) as nat), f((n - 1) as nat));
    }
}

/// A sum of zeros is zero.
pub proof fn lemma_esum_zero(f: spec_fn(nat) -> Ext, n: nat)
    requires
        forall|i: nat| i < n ==> #[trigger] f(i) == ezero(),
    ensures
        esum(f, n) == ezero(),
    decreases n,
{
    if n > 0 {
        lemma_esum_zero(f, (n - 1) as nat);
        lemma_modp_bound(0);
    }
}

/// A sum whose terms are zero except at `k` is the term at `k`.
pub proof fn lemma_esum_single(f: spec_fn(nat) -> Ext, n: nat, k: nat)
    requires
        k < n,
        ecanon(f(k)),
        forall|i: nat| i < n && i != k ==> #[trigger] f(i) == ezero(),
    ensures
        esum(f, n) == f(k),
    decreases n,
{
    if n == k + 1 {
        lemma_esum_zero(f, k);
        lemma_eadd_laws(f(k), ezero(), ezero());
        lemma_eadd_laws(ezero(), f(k), ezero());
    } else {
        lemma_esum_single(f, (n - 1) as nat, k);
        lemma_eadd_laws(f(k), ezero(), ezero());
    }
}

/// A product with a zero factor is zero.
pub proof fn lemma_eprod_zero(f: spec_fn(nat) -> Ext, n: nat, k: nat)
    requires
        k < n,
        f(k) == ezero(),
    ensures
        eprod(f, n) == ezero(),
    decreases n,
{
    if n == k + 1 {
        lemma_edistrib(eprod(f, k), ezero(), ezero());
    } else {
        lemma_eprod_zero(f, (n - 1) as nat, k);
        lemma_edistrib(f((n - 1) as nat), ezero(), ezero());
    }
}

pub proof fn lemma_eprod_canon(f: spec_fn(nat) -> Ext, n: nat)
    ensures
        ecanon(eprod(f, n)),
{
    if n == 0 {
        lemma_modp_bound(0);
    } else {
        let (p, q) = (eprod(f, (n - 1) as nat), f((n - 1) as nat));
        lemma_modp_bound((p.0 * q.0 + 7 * (p.1 * q.1)) as int);
        lemma_modp_bound((p.0 * q.1 + p.1 * q.0) as int);
    }
}

/// Every nonzero element of GF(P^2) has an inverse.
pub open spec fn ext_is_field() -> bool {
    forall|a: Ext| ecanon(a) && a != ezero() ==> exists|x: Ext| #[trigger] is_einverse(a, x)
}

} // verus!
