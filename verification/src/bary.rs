//! The barycentric evaluation of `Skip::eval_on_d` is Lagrange interpolation:
//! away from the nodes its denominator is the inverse of `prod_j (r - j)`.
use crate::units::lemma_ext_is_field;
use crate::algebra::{lemma_edistrib, lemma_eint_hom, lemma_esum_scale, lemma_escale_is_emul};
use crate::ext::{ebase, ecanon, einv, eint, emul, eone, escale, esub, ezero, is_einverse, lemma_einv, lemma_emul_laws, Ext};
use crate::field::{lemma_modp_bound, P};
use crate::interp::{lemma_interpolation_exact, lemma_interpolate_at_node, node_values};
use crate::poly::peval;
use crate::rounds::{interpolate, interpolation_terms};
use crate::skip::{bary_sums, bary_weight, enode_factor, enode_prod, eval_on_d_defined, eval_on_d_spec, is_node};
use crate::sums::{eprod, esum, lemma_esum_ext, lemma_eprod_ext};
use vstd::prelude::*;

verus! {

/// The weights `bary_m / (r - m)` of the barycentric sums.
pub open spec fn bary_den_terms(bary: Seq<nat>, r: Ext) -> spec_fn(nat) -> Ext {
    |m: nat| escale(einv(esub(r, eint(m as int))), bary[m as int])
}

/// The terms `bary_m v_m / (r - m)` of the barycentric numerator.
pub open spec fn bary_num_terms(vals: Seq<Ext>, bary: Seq<nat>, r: Ext) -> spec_fn(nat) -> Ext {
    |m: nat| emul(bary_den_terms(bary, r)(m), vals[m as int])
}

/// The running barycentric sums are plain sums of their terms.
proof fn lemma_bary_sums_closed(vals: Seq<Ext>, bary: Seq<nat>, r: Ext, i: nat)
    ensures
        bary_sums(vals, bary, r, i) == (
            esum(bary_num_terms(vals, bary, r), i),
            esum(bary_den_terms(bary, r), i),
        ),
    decreases i,
{
    if i > 0 {
        lemma_bary_sums_closed(vals, bary, r, (i - 1) as nat);
    }
}

/// Two products that differ in the factor at `k` only.
proof fn lemma_eprod_swap_factor(f: spec_fn(nat) -> Ext, g: spec_fn(nat) -> Ext, n: nat, k: nat)
    requires
        k < n,
        forall|j: nat| j < n && j != k ==> #[trigger] f(j) == g(j),
    ensures
        emul(eprod(f, n), g(k)) == emul(eprod(g, n), f(k)),
    decreases n,
{
    let m = (n - 1) as nat;
    if m == k {
        lemma_eprod_ext(f, g, m);
        let q = eprod(f, m);
        lemma_emul_laws(q, f(k), g(k));
        lemma_emul_laws(q, g(k), f(k));
        lemma_emul_laws(f(k), g(k), g(k));
    } else {
        lemma_eprod_swap_factor(f, g, m, k);
        let (pf, pg, a) = (eprod(f, m), eprod(g, m), f(m));
        // (pf a) g(k) == (pf g(k)) a == (pg f(k)) a == (pg a) f(k)
        lemma_emul_laws(pf, a, g(k));
        lemma_emul_laws(a, g(k), g(k));
        lemma_emul_laws(pf, g(k), a);
        lemma_emul_laws(pg, f(k), a);
        lemma_emul_laws(f(k), a, a);
        lemma_emul_laws(pg, a, f(k));
    }
}

/// `r - m` is nonzero and canonical for every node `m` when `r` is not a node.
proof fn lemma_node_diff_nonzero(r: Ext, n: nat, m: nat)
    requires
        ecanon(r),
        !is_node(r, n),
        m < n <= P,
    ensures
        ecanon(esub(r, eint(m as int))),
        esub(r, eint(m as int)) != ezero(),
{
    lemma_modp_bound(m as int);
    lemma_modp_bound(r.0 - m);
    lemma_modp_bound(r.1 - 0);
    if r.1 == 0 {
        vstd::arithmetic::div_mod::lemma_small_mod((r.0 - m) as nat, P as nat);
    } else {
        vstd::arithmetic::div_mod::lemma_small_mod(r.1, P as nat);
    }
}

/// With `l = prod_j (r - j)`: `l / (r - m)` is the node product of `m`.
proof fn lemma_full_over_factor(r: Ext, n: nat, m: nat)
    requires
        ecanon(r),
        !is_node(r, n),
        m < n <= P,
    ensures
        is_einverse(esub(r, eint(m as int)), einv(esub(r, eint(m as int)))),
        emul(enode_prod(n, n, r), einv(esub(r, eint(m as int)))) == enode_prod(n, m, r),
{
    lemma_ext_is_field();
    let u = esub(r, eint(m as int));
    lemma_node_diff_nonzero(r, n, m);
    assert(exists|x: Ext| is_einverse(u, x));
    let iu = einv(u);
    let f = enode_factor(m, r);
    let g = enode_factor(n, r);
    assert forall|j: nat| j < n && j != m implies #[trigger] f(j) == g(j) by {}
    lemma_eprod_swap_factor(f, g, n, m);
    let e = enode_prod(n, m, r);
    let l = enode_prod(n, n, r);
    crate::algebra::lemma_eprod_canon(g, n);
    crate::algebra::lemma_eprod_canon(f, n);
    lemma_emul_laws(l, eone(), eone());
    // e u == l, so l iu == e (u iu) == e
    lemma_emul_laws(e, u, iu);
    lemma_emul_laws(e, eone(), eone());
}

/// The barycentric evaluation is defined at every point, and equals Lagrange
/// interpolation on the nodes `0..vals.len()`.
pub proof fn lemma_eval_on_d_interpolates(vals: Seq<Ext>, bary: Seq<nat>, r: Ext)
    requires
        1 <= vals.len() <= P,
        bary.len() >= vals.len(),
        forall|m: int| 0 <= m < vals.len() ==> #[trigger] bary[m] == bary_weight(vals.len(), m as nat),
        forall|m: int| 0 <= m < vals.len() ==> ecanon(#[trigger] vals[m]),
        ecanon(r),
    ensures
        eval_on_d_defined(vals, bary, r),
        eval_on_d_spec(vals, bary, r) == interpolate(vals, r),
{
    lemma_ext_is_field();
    let n = vals.len();
    if is_node(r, n) {
        let k = r.0;
        lemma_modp_bound(k as int);
        assert(r == eint(k as int));
        lemma_interpolate_at_node(vals, k);
    } else {
        lemma_bary_sums_closed(vals, bary, r, n);
        let l = enode_prod(n, n, r);
        crate::algebra::lemma_eprod_canon(enode_factor(n, r), n);
        let dt = bary_den_terms(bary, r);
        let nt = bary_num_terms(vals, bary, r);
        let num = esum(nt, n);
        let den = esum(dt, n);
        // l * den is the interpolation of the constant one
        let one = seq![eone()];
        let ones = node_values(one, n);
        assert forall|m: nat| m < n implies #[trigger] emul(l, dt(m)) == interpolation_terms(ones, r)(m) by {
            lemma_full_over_factor(r, n, m);
            let iu = einv(esub(r, eint(m as int)));
            let b = ebase(bary_weight(n, m));
            let e = enode_prod(n, m, r);
            lemma_escale_is_emul(iu, bary_weight(n, m));
            lemma_emul_laws(l, iu, b);
            let x = eint(m as int);
            lemma_eint_hom(m as int, 0);
            assert(one.drop_first().len() == 0);
            assert(peval(one.drop_first(), x) == ezero());
            lemma_edistrib(x, ezero(), ezero());
            lemma_modp_bound(1);
            lemma_modp_bound(0);
            assert(ones[m as int] == eone());
            crate::algebra::lemma_eprod_canon(enode_factor(m, r), n);
            lemma_emul_laws(e, eone(), eone());
            lemma_emul_laws(eone(), e, e);
            lemma_escale_is_emul(emul(eone(), e), bary_weight(n, m));
        }
        lemma_esum_scale(l, dt, n);
        lemma_esum_ext(|m: nat| emul(l, dt(m)), interpolation_terms(ones, r), n);
        assert(ones.len() == n);
        lemma_interpolation_exact(one, n, r);
        assert(one.drop_first().len() == 0);
        assert(peval(one.drop_first(), r) == ezero());
        lemma_edistrib(r, ezero(), ezero());
        assert(emul(l, den) == eone());
        // so den is nonzero and its inverse is l
        if den == ezero() {
            lemma_edistrib(l, ezero(), ezero());
        }
        lemma_emul_laws(l, den, den);
        lemma_einv(den, l);
        // l * num is the interpolation of vals
        assert forall|m: nat| m < n implies #[trigger] emul(l, nt(m)) == interpolation_terms(vals, r)(m) by {
            lemma_full_over_factor(r, n, m);
            let iu = einv(esub(r, eint(m as int)));
            let b = ebase(bary_weight(n, m));
            let e = enode_prod(n, m, r);
            let v = vals[m as int];
            lemma_escale_is_emul(iu, bary_weight(n, m));
            lemma_emul_laws(l, iu, b);
            // l ((iu b) v) == ((l iu) b) v == (e b) v == (v e) b
            lemma_emul_laws(l, emul(iu, b), v);
            lemma_emul_laws(e, b, v);
            lemma_emul_laws(b, v, v);
            lemma_emul_laws(v, b, e);
            lemma_emul_laws(e, v, b);
            lemma_emul_laws(v, e, e);
            lemma_escale_is_emul(emul(v, e), bary_weight(n, m));
            lemma_emul_laws(emul(v, e), b, b);
            lemma_emul_laws(v, e, b);
            lemma_emul_laws(e, b, b);
        }
        lemma_esum_scale(l, nt, n);
        lemma_esum_ext(|m: nat| emul(l, nt(m)), interpolation_terms(vals, r), n);
        lemma_emul_laws(num, l, l);
    }
}

} // verus!
