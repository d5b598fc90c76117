//! Lagrange interpolation on the nodes `0..n` reproduces every polynomial
//! with at most `n` coefficients (in the field GF(P^2)).
use crate::units::lemma_ext_is_field;
use crate::algebra::{eneg, lemma_ebase_hom, lemma_edistrib, lemma_eint_hom, lemma_eprod_canon, lemma_eprod_zero, lemma_escale_is_emul, lemma_esub_laws, lemma_esum_single};
use crate::ext::{eadd, ebase, ecanon, eint, emul, eone, esub, ezero, is_einverse, lemma_emul_laws, Ext};
use crate::field::{fmul, is_inverse, lemma_finv, lemma_modp_bound, modp, P};
use crate::poly::{lemma_emul_cancel, lemma_esub_zero, lemma_padd, lemma_peval_canon, lemma_pmul, lemma_pmul_len, lemma_pscale, lemma_vanishing, padd, peval, pmul, pscale};
use crate::rounds::{interpolate, interpolation_terms};
use crate::skip::{bary_weight, enode_factor, enode_prod, node_factor, node_prod};
use crate::sums::{eprod, esum, lemma_esum_ext};
use vstd::prelude::*;

verus! {

/// The polynomial `x - j`.
pub open spec fn plin(j: int) -> Seq<Ext> {
    seq![eint(-j), eone()]
}

/// The polynomial `prod_{j < n, j != h} (x - j)`.
pub open spec fn node_poly(n: nat, h: nat) -> Seq<Ext>
    decreases n,
{
    if n == 0 {
        seq![eone()]
    } else if (n - 1) as nat == h {
        node_poly((n - 1) as nat, h)
    } else {
        pmul(node_poly((n - 1) as nat, h), plin(n - 1))
    }
}

/// `sum_{i < n} f(i)` for polynomials.
pub open spec fn psum(f: spec_fn(nat) -> Seq<Ext>, n: nat) -> Seq<Ext>
    decreases n,
{
    if n == 0 {
        seq![]
    } else {
        padd(psum(f, (n - 1) as nat), f((n - 1) as nat))
    }
}

proof fn lemma_plin(j: int, x: Ext)
    requires
        ecanon(x),
    ensures
        peval(plin(j), x) == esub(x, eint(j)),
{
    let c = plin(j);
    assert(c.drop_first().drop_first().len() == 0);
    assert(peval(c.drop_first().drop_first(), x) == ezero());
    lemma_edistrib(x, ezero(), ezero());
    lemma_modp_bound(1);
    lemma_modp_bound(0);
    assert(peval(c.drop_first(), x) == eadd(eone(), ezero()));
    assert(peval(c.drop_first(), x) == eone());
    lemma_emul_laws(x, eone(), eone());
    lemma_eint_hom(-j, 0);
    lemma_esub_laws(x, eint(j));
    // eint(-j) + x == x - j
    crate::algebra::lemma_esub_laws(ezero(), eint(j));
    lemma_modp_bound(x.0 as int);
    lemma_modp_bound(x.1 as int);
    vstd::arithmetic::div_mod::lemma_add_mod_noop((-j) % (P as int), x.0 as int, P as int);
    vstd::arithmetic::div_mod::lemma_add_mod_noop(-j, x.0 as int, P as int);
    vstd::arithmetic::div_mod::lemma_sub_mod_noop(x.0 as int, j, P as int);
    vstd::arithmetic::div_mod::lemma_mod_twice(-j, P as int);
    vstd::arithmetic::div_mod::lemma_mod_twice(j, P as int);
    vstd::arithmetic::div_mod::lemma_sub_mod_noop_right(x.0 as int, j, P as int);
}

/// `node_poly` evaluates to the node product and has `n` coefficients.
pub proof fn lemma_node_poly(n: nat, h: nat, x: Ext)
    requires
        ecanon(x),
        h < n || n == 0,
    ensures
        peval(node_poly(n, h), x) == enode_prod(n, h, x),
        node_poly(n, h).len() == (if h < n {
            n
        } else {
            1
        }),
    decreases n,
{
    if n == 0 {
        assert(seq![eone()].drop_first().len() == 0);
        assert(peval(seq![eone()].drop_first(), x) == ezero());
        lemma_edistrib(x, ezero(), ezero());
        lemma_modp_bound(1);
        lemma_modp_bound(0);
    } else {
        let m = (n - 1) as nat;
        if m == h {
            if m > 0 {
                lemma_node_poly_below(m, h, x);
            } else {
                lemma_node_poly(0, h, x);
            }
            lemma_eprod_canon(enode_factor(h, x), m);
            lemma_emul_laws(enode_prod(m, h, x), eone(), eone());
        } else {
            lemma_node_poly(m, h, x);
            lemma_pmul(node_poly(m, h), plin(m as int), x);
            lemma_plin(m as int, x);
            lemma_pmul_len(node_poly(m, h), plin(m as int));
        }
    }
}

/// Below the node `h` the product has every factor.
proof fn lemma_node_poly_below(n: nat, h: nat, x: Ext)
    requires
        ecanon(x),
        n <= h,
    ensures
        peval(node_poly(n, h), x) == enode_prod(n, h, x),
        node_poly(n, h).len() == n + 1,
    decreases n,
{
    if n == 0 {
        assert(seq![eone()].drop_first().len() == 0);
        assert(peval(seq![eone()].drop_first(), x) == ezero());
        lemma_edistrib(x, ezero(), ezero());
        lemma_modp_bound(1);
        lemma_modp_bound(0);
    } else {
        let m = (n - 1) as nat;
        lemma_node_poly_below(m, h, x);
        let prev = node_poly(m, h);
        assert(node_poly(n, h) == pmul(prev, plin(m as int)));
        lemma_pmul(prev, plin(m as int), x);
        lemma_plin(m as int, x);
        lemma_pmul_len(prev, plin(m as int));
        assert(enode_factor(h, x)(m) == esub(x, eint(m as int)));
        assert(enode_prod(n, h, x) == emul(enode_prod(m, h, x), esub(x, eint(m as int))));
    }
}

/// Sums of polynomials evaluate to sums of values.
pub proof fn lemma_psum(f: spec_fn(nat) -> Seq<Ext>, n: nat, x: Ext, bound: nat)
    requires
        forall|i: nat| i < n ==> (#[trigger] f(i)).len() <= bound,
    ensures
        peval(psum(f, n), x) == esum(|i: nat| peval(f(i), x), n),
        psum(f, n).len() <= bound,
    decreases n,
{
    if n > 0 {
        lemma_psum(f, (n - 1) as nat, x, bound);
        lemma_padd(psum(f, (n - 1) as nat), f((n - 1) as nat), x);
    }
}

/// At an integer point the extension node product is the base one.
pub proof fn lemma_enode_prod_at_int(n: nat, h: nat, y: int)
    ensures
        enode_prod(n, h, eint(y)) == ebase(node_prod(n, h, y)),
    decreases n,
{
    if n == 0 {
        lemma_modp_bound(1);
    } else {
        let m = (n - 1) as nat;
        lemma_enode_prod_at_int(m, h, y);
        let prev = node_prod(m, h, y);
        crate::skip::lemma_fprod_bound(node_factor(h, y), m);
        lemma_modp_bound(prev as int);
        if m == h {
            lemma_ebase_hom(prev, 1);
            lemma_modp_bound(1);
            vstd::arithmetic::div_mod::lemma_small_mod(prev, P as nat);
            assert(fmul(prev, 1) == prev);
        } else {
            lemma_eint_hom(y, m as int);
            lemma_ebase_hom(prev, modp(y - m));
            lemma_modp_bound(y - m);
            assert(eint(y - m) == ebase(modp(y - m)));
        }
    }
}

/// A product of nonzero factors is nonzero (in a field).
proof fn lemma_eprod_nonzero(f: spec_fn(nat) -> Ext, n: nat)
    requires
        forall|i: nat| i < n ==> ecanon(#[trigger] f(i)) && f(i) != ezero(),
    ensures
        eprod(f, n) != ezero(),
    decreases n,
{
    lemma_ext_is_field();
    if n == 0 {
        lemma_modp_bound(1);
        lemma_modp_bound(0);
    } else {
        let m = (n - 1) as nat;
        lemma_eprod_nonzero(f, m);
        lemma_eprod_canon(f, m);
        if eprod(f, n) == ezero() {
            lemma_emul_cancel(eprod(f, m), f(m));
        }
    }
}

/// The node products of distinct nodes are invertible, so the barycentric weights are inverses.
pub proof fn lemma_node_weight_inverse(n: nat, k: nat)
    requires
        k < n <= P,
    ensures
        is_inverse(node_prod(n, k, k as int), bary_weight(n, k)),
{
    lemma_ext_is_field();
    let f = enode_factor(k, eint(k as int));
    assert forall|j: nat| j < n implies ecanon(#[trigger] f(j)) && f(j) != ezero() by {
        lemma_eint_hom(k as int, j as int);
        lemma_eint_hom(1, 0);
        if j != k {
            lemma_eint_hom(k as int - j, 0);
            lemma_modp_bound(k as int - j);
            if k > j {
                vstd::arithmetic::div_mod::lemma_small_mod((k - j) as nat, P as nat);
            } else {
                vstd::arithmetic::div_mod::lemma_mod_add_multiples_vanish(k as int - j, P as int);
                vstd::arithmetic::div_mod::lemma_small_mod((k as int - j + P) as nat, P as nat);
            }
        } else {
            lemma_modp_bound(0);
            lemma_modp_bound(1);
        }
    }
    lemma_eprod_nonzero(f, n);
    lemma_enode_prod_at_int(n, k, k as int);
    let np = node_prod(n, k, k as int);
    crate::skip::lemma_fprod_bound(node_factor(k, k as int), n);
    lemma_ebase_hom(np, np);
    assert(exists|z: Ext| is_einverse(ebase(np), z));
    let z = choose|z: Ext| is_einverse(ebase(np), z);
    lemma_modp_bound(np as int);
    vstd::arithmetic::div_mod::lemma_small_mod(np, P as nat);
    assert(np * z.0 + 7 * (0 * z.1) == np * z.0);
    assert(is_inverse(np, z.0));
    lemma_finv(np, z.0);
}

/// Interpolation at a node gives the value there.
pub proof fn lemma_interpolate_at_node(vals: Seq<Ext>, k: nat)
    requires
        k < vals.len() <= P,
        ecanon(vals[k as int]),
    ensures
        interpolate(vals, eint(k as int)) == vals[k as int],
{
    lemma_ext_is_field();
    let n = vals.len();
    let x = eint(k as int);
    let f = interpolation_terms(vals, x);
    assert forall|i: nat| i < n && i != k implies #[trigger] f(i) == ezero() by {
        lemma_eint_hom(k as int, k as int);
        lemma_eprod_zero(enode_factor(i, x), n, k);
        lemma_edistrib(vals[i as int], ezero(), ezero());
        lemma_escale_is_emul(ezero(), bary_weight(n, i));
        lemma_edistrib(ebase(bary_weight(n, i)), ezero(), ezero());
        lemma_emul_laws(ezero(), ebase(bary_weight(n, i)), ezero());
    }
    // the term at k: v * np * (1 / np) == v
    let np = node_prod(n, k, k as int);
    let w = bary_weight(n, k);
    lemma_node_weight_inverse(n, k);
    lemma_enode_prod_at_int(n, k, k as int);
    let v = vals[k as int];
    lemma_escale_is_emul(emul(v, ebase(np)), w);
    lemma_emul_laws(v, ebase(np), ebase(w));
    lemma_ebase_hom(np, w);
    lemma_modp_bound(1);
    assert(ebase(fmul(np, w)) == eone());
    lemma_emul_laws(v, eone(), eone());
    lemma_esum_single(f, n, k);
}

/// `-1 * v == -v`.
proof fn lemma_neg_one_mul(v: Ext)
    ensures
        emul(eneg(eone()), v) == eneg(v),
{
    let p = P as int;
    let m1 = modp(-1);
    vstd::arithmetic::div_mod::lemma_mul_mod_noop_left(-1, v.0 as int, p);
    vstd::arithmetic::div_mod::lemma_mul_mod_noop_left(-1, v.1 as int, p);
    lemma_modp_bound(0);
    assert(eneg(eone()) == (m1, 0nat)) by {
        lemma_modp_bound(1);
    }
    assert(m1 * v.0 + 7 * (0 * v.1) == m1 * v.0);
    assert(m1 * v.1 + 0 * v.0 == m1 * v.1);
    assert(-1 * (v.0 as int) == -(v.0 as int));
    assert(-1 * (v.1 as int) == -(v.1 as int));
}

/// The terms of the interpolation polynomial.
pub open spec fn interp_terms(vals: Seq<Ext>) -> spec_fn(nat) -> Seq<Ext> {
    |i: nat| pscale(node_poly(vals.len(), i), emul(vals[i as int], ebase(bary_weight(vals.len(), i))))
}

/// The interpolation polynomial of `vals` on the nodes `0..vals.len()`.
pub open spec fn interp_poly(vals: Seq<Ext>) -> Seq<Ext> {
    psum(interp_terms(vals), vals.len())
}

/// The interpolation is the value of a polynomial with `n` coefficients.
pub proof fn lemma_interp_poly(vals: Seq<Ext>, x: Ext)
    requires
        ecanon(x),
    ensures
        peval(interp_poly(vals), x) == interpolate(vals, x),
        interp_poly(vals).len() <= vals.len(),
{
    let n = vals.len();
    let f = interp_terms(vals);
    assert forall|i: nat| i < n implies (#[trigger] f(i)).len() <= n by {
        lemma_node_poly(n, i, x);
        lemma_pscale(node_poly(n, i), emul(vals[i as int], ebase(bary_weight(n, i))), x);
    }
    lemma_psum(f, n, x, n);
    let g = |i: nat| peval(f(i), x);
    assert forall|i: nat| i < n implies #[trigger] g(i) == interpolation_terms(vals, x)(i) by {
        let v = vals[i as int];
        let w = ebase(bary_weight(n, i));
        let e = enode_prod(n, i, x);
        lemma_node_poly(n, i, x);
        lemma_pscale(node_poly(n, i), emul(v, w), x);
        lemma_escale_is_emul(emul(v, e), bary_weight(n, i));
        // (v w) e == (v e) w
        lemma_emul_laws(v, w, e);
        lemma_emul_laws(w, e, e);
        lemma_emul_laws(v, e, w);
    }
    lemma_esum_ext(g, interpolation_terms(vals, x), n);
}

/// The values of a polynomial on the nodes `0..n`.
pub open spec fn node_values(c: Seq<Ext>, n: nat) -> Seq<Ext> {
    Seq::new(n, |i: int| peval(c, eint(i)))
}

/// Lagrange interpolation on `0..n` reproduces a polynomial with at most `n` coefficients.
pub proof fn lemma_interpolation_exact(c: Seq<Ext>, n: nat, x: Ext)
    requires
        1 <= n <= P,
        c.len() <= n,
        ecanon(x),
    ensures
        interpolate(node_values(c, n), x) == peval(c, x),
{
    lemma_ext_is_field();
    let vals = node_values(c, n);
    let ip = interp_poly(vals);
    let negc = pscale(c, eneg(eone()));
    let d = padd(ip, negc);
    let nodes = Seq::new(n, |i: int| eint(i));
    assert forall|k: int| 0 <= k < n implies peval(d, #[trigger] nodes[k]) == ezero() by {
        let y = eint(k);
        lemma_eint_hom(k, 0);
        lemma_padd(ip, negc, y);
        lemma_interp_poly(vals, y);
        lemma_peval_canon(c, y);
        lemma_interpolate_at_node(vals, k as nat);
        lemma_pscale(c, eneg(eone()), y);
        lemma_neg_one_mul(peval(c, y));
        lemma_esub_laws(peval(c, y), peval(c, y));
    }
    assert forall|i: int, j: int| 0 <= i < j < n implies nodes[i] != nodes[j] by {
        lemma_modp_bound(i);
        lemma_modp_bound(j);
        vstd::arithmetic::div_mod::lemma_small_mod(i as nat, P as nat);
        vstd::arithmetic::div_mod::lemma_small_mod(j as nat, P as nat);
    }
    assert forall|i: int| 0 <= i < n implies ecanon(#[trigger] nodes[i]) by {
        lemma_eint_hom(i, 0);
    }
    lemma_interp_poly(vals, x);
    lemma_pscale(c, eneg(eone()), x);
    assert(d.len() <= n);
    lemma_vanishing(d, nodes, x);
    lemma_padd(ip, negc, x);
    lemma_peval_canon(c, x);
    lemma_peval_canon(ip, x);
    lemma_neg_one_mul(peval(c, x));
    lemma_esub_laws(peval(ip, x), peval(c, x));
    lemma_esub_zero(peval(ip, x), peval(c, x));
}

} // verus!
