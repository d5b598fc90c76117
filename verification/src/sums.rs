//! Finite sums and products in GF(P) and GF(P^2), accumulated left to right
//! from the neutral element, as the loops of the protocol compute them.
use crate::ext::{eadd, emul, eone, ezero, Ext};
use crate::field::{fadd, fmul, lemma_modp_bound, P};
use vstd::arithmetic::div_mod::*;
use vstd::prelude::*;

verus! {

/// `f(0) + ... + f(n-1)` in GF(P).
pub open spec fn fsum(f: spec_fn(nat) -> nat, n: nat) -> nat
    decreases n,
{
    if n == 0 {
        0
    } else {
        fadd(fsum(f, (n - 1) as nat), f((n - 1) as nat))
    }
}

/// `1 * f(0) * ... * f(n-1)` in GF(P).
pub open spec fn fprod(f: spec_fn(nat) -> nat, n: nat) -> nat
    decreases n,
{
    if n == 0 {
        1
    } else {
        fmul(fprod(f, (n - 1) as nat), f((n - 1) as nat))
    }
}

/// `f(0) + ... + f(n-1)` in GF(P^2).
pub open spec fn esum(f: spec_fn(nat) -> Ext, n: nat) -> Ext
    decreases n,
{
    if n == 0 {
        ezero()
    } else {
        eadd(esum(f, (n - 1) as nat), f((n - 1) as nat))
    }
}

/// `1 * f(0) * ... * f(n-1)` in GF(P^2).
pub open spec fn eprod(f: spec_fn(nat) -> Ext, n: nat) -> Ext
    decreases n,
{
    if n == 0 {
        eone()
    } else {
        emul(eprod(f, (n - 1) as nat), f((n - 1) as nat))
    }
}

pub proof fn lemma_fsum_bound(f: spec_fn(nat) -> nat, n: nat)
    ensures
        fsum(f, n) < P,
    decreases n,
{
    if n > 0 {
        lemma_modp_bound((fsum(f, (n - 1) as nat) + f((n - 1) as nat)) as int);
    }
}

/// Sums of functions that agree below `n` agree.
pub proof fn lemma_fsum_ext(f: spec_fn(nat) -> nat, g: spec_fn(nat) -> nat, n: nat)
    requires
        forall|i: nat| i < n ==> #[trigger] f(i) == g(i),
    ensures
        fsum(f, n) == fsum(g, n),
    decreases n,
{
    if n > 0 {
        lemma_fsum_ext(f, g, (n - 1) as nat);
    }
}

pub proof fn lemma_fprod_ext(f: spec_fn(nat) -> nat, g: spec_fn(nat) -> nat, n: nat)
    requires
        forall|i: nat| i < n ==> #[trigger] f(i) == g(i),
    ensures
        fprod(f, n) == fprod(g, n),
    decreases n,
{
    if n > 0 {
        lemma_fprod_ext(f, g, (n - 1) as nat);
    }
}

pub proof fn lemma_esum_ext(f: spec_fn(nat) -> Ext, g: spec_fn(nat) -> Ext, n: nat)
    requires
        forall|i: nat| i < n ==> #[trigger] f(i) == g(i),
    ensures
        esum(f, n) == esum(g, n),
    decreases n,
{
    if n > 0 {
        lemma_esum_ext(f, g, (n - 1) as nat);
    }
}

pub proof fn lemma_eprod_ext(f: spec_fn(nat) -> Ext, g: spec_fn(nat) -> Ext, n: nat)
    requires
        forall|i: nat| i < n ==> #[trigger] f(i) == g(i),
    ensures
        eprod(f, n) == eprod(g, n),
    decreases n,
{
    if n > 0 {
        lemma_eprod_ext(f, g, (n - 1) as nat);
    }
}

/// Addition in GF(P) is commutative and associative, with neutral 0.
pub proof fn lemma_fadd_laws(a: nat, b: nat, c: nat)
    ensures
        fadd(a, b) == fadd(b, a),
        fadd(fadd(a, b), c) == fadd(a, fadd(b, c)),
        a < P ==> fadd(a, 0) == a,
{
    let p = P as int;
    let (x, y, z) = (a as int, b as int, c as int);
    lemma_add_mod_noop_right(z, x + y, p);
    lemma_add_mod_noop_right(x, y + z, p);
    assert(fadd(fadd(a, b), c) == (z + (x + y) % p) % p);
    assert(fadd(a, fadd(b, c)) == (x + (y + z) % p) % p);
    lemma_modp_bound(x);
}

/// A sum of two sums is the sum of the pointwise sums.
pub proof fn lemma_fsum_add(f: spec_fn(nat) -> nat, g: spec_fn(nat) -> nat, n: nat)
    ensures
        fadd(fsum(f, n), fsum(g, n)) == fsum(|i: nat| fadd(f(i), g(i)), n),
    decreases n,
{
    let h = |i: nat| fadd(f(i), g(i));
    if n == 0 {
        lemma_modp_bound(0);
    } else {
        let m = (n - 1) as nat;
        lemma_fsum_add(f, g, m);
        let (sf, sg, a, b) = (fsum(f, m), fsum(g, m), f(m), g(m));
        // (sf + a) + (sg + b) == (sf + sg) + (a + b)
        lemma_fadd_laws(sf, a, fadd(sg, b));
        lemma_fadd_laws(a, sg, b);
        lemma_fadd_laws(sg, a, b);
        lemma_fadd_laws(sf, sg, fadd(a, b));
        lemma_fadd_laws(fadd(sf, sg), 0, 0);
        lemma_fadd_laws(sg, fadd(a, b), 0);
        assert(fadd(fsum(f, n), fsum(g, n)) == fadd(sf, fadd(a, fadd(sg, b))));
        assert(fadd(a, fadd(sg, b)) == fadd(sg, fadd(a, b)));
    }
}

/// Splitting a sum at `a`.
pub proof fn lemma_fsum_split(f: spec_fn(nat) -> nat, a: nat, m: nat)
    ensures
        fsum(f, a + m) == fadd(fsum(f, a), fsum(|h: nat| f(a + h), m)),
    decreases m,
{
    let g = |h: nat| f(a + h);
    lemma_fsum_bound(f, a);
    if m == 0 {
        lemma_fadd_laws(fsum(f, a), 0, 0);
    } else {
        lemma_fsum_split(f, a, (m - 1) as nat);
        assert(g((m - 1) as nat) == f((a + m - 1) as nat));
        lemma_fadd_laws(fsum(f, a), fsum(g, (m - 1) as nat), g((m - 1) as nat));
    }
}

/// Exchanging the order of a double sum.
pub proof fn lemma_fsum_swap(f: spec_fn(nat, nat) -> nat, n: nat, m: nat)
    ensures
        fsum(|i: nat| fsum(|j: nat| f(i, j), m), n) == fsum(|j: nat| fsum(|i: nat| f(i, j), n), m),
    decreases n,
{
    if n > 0 {
        let k = (n - 1) as nat;
        lemma_fsum_swap(f, k, m);
        let a = |j: nat| fsum(|i: nat| f(i, j), k);
        let b = |j: nat| f(k, j);
        let c = |j: nat| fadd(a(j), b(j));
        let d = |j: nat| fsum(|i: nat| f(i, j), n);
        lemma_fsum_add(a, b, m);
        assert forall|j: nat| j < m implies #[trigger] c(j) == d(j) by {}
        lemma_fsum_ext(c, d, m);
        let row = |i: nat| fsum(|j: nat| f(i, j), m);
        assert(row(k) == fsum(b, m));
    } else {
        lemma_fsum_zero(|j: nat| fsum(|i: nat| f(i, j), n), m);
    }
}

/// A sum of zeros is zero.
pub proof fn lemma_fsum_zero(f: spec_fn(nat) -> nat, m: nat)
    requires
        forall|j: nat| j < m ==> #[trigger] f(j) == 0,
    ensures
        fsum(f, m) == 0,
    decreases m,
{
    if m > 0 {
        lemma_fsum_zero(f, (m - 1) as nat);
        lemma_modp_bound(0);
    }
}

/// Addition in GF(P^2) is commutative and associative, with neutral 0.
pub proof fn lemma_eadd_laws(a: Ext, b: Ext, c: Ext)
    ensures
        eadd(a, b) == eadd(b, a),
        eadd(eadd(a, b), c) == eadd(a, eadd(b, c)),
        a.0 < P && a.1 < P ==> eadd(a, ezero()) == a,
{
    lemma_fadd_laws(a.0, b.0, c.0);
    lemma_fadd_laws(a.1, b.1, c.1);
}

pub proof fn lemma_esum_canon(f: spec_fn(nat) -> Ext, n: nat)
    ensures
        esum(f, n).0 < P,
        esum(f, n).1 < P,
    decreases n,
{
    if n > 0 {
        lemma_esum_canon(f, (n - 1) as nat);
        lemma_modp_bound((esum(f, (n - 1) as nat).0 + f((n - 1) as nat).0) as int);
        lemma_modp_bound((esum(f, (n - 1) as nat).1 + f((n - 1) as nat).1) as int);
    } else {
        lemma_modp_bound(0);
    }
}

/// A sum of two sums is the sum of the pointwise sums.
pub proof fn lemma_esum_add(f: spec_fn(nat) -> Ext, g: spec_fn(nat) -> Ext, n: nat)
    ensures
        eadd(esum(f, n), esum(g, n)) == esum(|i: nat| eadd(f(i), g(i)), n),
    decreases n,
{
    if n == 0 {
        lemma_eadd_laws(ezero(), ezero(), ezero());
        lemma_modp_bound(0);
    } else {
        let m = (n - 1) as nat;
        lemma_esum_add(f, g, m);
        let (sf, sg, a, b) = (esum(f, m), esum(g, m), f(m), g(m));
        lemma_eadd_laws(sf, a, eadd(sg, b));
        lemma_eadd_laws(a, sg, b);
        lemma_eadd_laws(sg, a, b);
        lemma_eadd_laws(sf, sg, eadd(a, b));
        assert(eadd(a, eadd(sg, b)) == eadd(sg, eadd(a, b)));
    }
}

/// Splitting a sum at `a`.
pub proof fn lemma_esum_split(f: spec_fn(nat) -> Ext, a: nat, m: nat)
    ensures
        esum(f, a + m) == eadd(esum(f, a), esum(|h: nat| f(a + h), m)),
    decreases m,
{
    let g = |h: nat| f(a + h);
    lemma_esum_canon(f, a);
    if m == 0 {
        lemma_eadd_laws(esum(f, a), ezero(), ezero());
    } else {
        lemma_esum_split(f, a, (m - 1) as nat);
        assert(g((m - 1) as nat) == f((a + m - 1) as nat));
        lemma_eadd_laws(esum(f, a), esum(g, (m - 1) as nat), g((m - 1) as nat));
    }
}

} // verus!
