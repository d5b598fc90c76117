//! Polynomials over GF(P^2) as coefficient sequences (lowest degree first),
//! evaluated in Horner form, and the fact that a polynomial with fewer
//! coefficients than the distinct points where it vanishes is zero.
use crate::units::lemma_ext_is_field;
use crate::algebra::{lemma_edistrib, lemma_esub_laws};
use crate::ext::{eadd, ecanon, emul, eone, esub, ezero, is_einverse, lemma_emul_laws, Ext};
use crate::field::lemma_modp_bound;
use crate::sums::lemma_eadd_laws;
use vstd::prelude::*;

verus! {

/// `c[0] + x (c[1] + x (c[2] + ...))`.
pub open spec fn peval(c: Seq<Ext>, x: Ext) -> Ext
    decreases c.len(),
{
    if c.len() == 0 {
        ezero()
    } else {
        eadd(c[0], emul(x, peval(c.drop_first(), x)))
    }
}

/// The coefficient of degree `k` (zero beyond the sequence).
pub open spec fn pcoef(c: Seq<Ext>, k: nat) -> Ext {
    if k < c.len() {
        c[k as int]
    } else {
        ezero()
    }
}

/// The coefficients above the constant one.
pub open spec fn ptail(c: Seq<Ext>) -> Seq<Ext> {
    if c.len() == 0 {
        c
    } else {
        c.drop_first()
    }
}

/// `c(x) + d(x)`.
pub open spec fn padd(c: Seq<Ext>, d: Seq<Ext>) -> Seq<Ext> {
    Seq::new(
        if c.len() >= d.len() {
            c.len()
        } else {
            d.len()
        },
        |k: int| eadd(pcoef(c, k as nat), pcoef(d, k as nat)),
    )
}

/// `s c(x)`.
pub open spec fn pscale(c: Seq<Ext>, s: Ext) -> Seq<Ext> {
    Seq::new(c.len(), |k: int| emul(s, c[k]))
}

/// `x c(x)`.
pub open spec fn pshift(c: Seq<Ext>) -> Seq<Ext> {
    seq![ezero()] + c
}

/// `c(x) d(x)`.
pub open spec fn pmul(c: Seq<Ext>, d: Seq<Ext>) -> Seq<Ext>
    decreases c.len(),
{
    if c.len() == 0 {
        seq![]
    } else {
        padd(pscale(d, c[0]), pshift(pmul(c.drop_first(), d)))
    }
}

/// The quotient of `c(x) - c(a)` by `x - a`.
pub open spec fn pquot(c: Seq<Ext>, a: Ext) -> Seq<Ext>
    decreases c.len(),
{
    if c.len() <= 1 {
        seq![]
    } else {
        seq![peval(c.drop_first(), a)] + pquot(c.drop_first(), a)
    }
}

pub proof fn lemma_peval_canon(c: Seq<Ext>, x: Ext)
    ensures
        ecanon(peval(c, x)),
    decreases c.len(),
{
    if c.len() == 0 {
        lemma_modp_bound(0);
    } else {
        lemma_modp_bound((c[0].0 + emul(x, peval(c.drop_first(), x)).0) as int);
        lemma_modp_bound((c[0].1 + emul(x, peval(c.drop_first(), x)).1) as int);
    }
}

/// Horner's rule holds for every sequence, the empty one included.
pub proof fn lemma_peval_unfold(c: Seq<Ext>, x: Ext)
    ensures
        peval(c, x) == eadd(pcoef(c, 0), emul(x, peval(ptail(c), x))),
{
    if c.len() == 0 {
        lemma_edistrib(x, ezero(), ezero());
        lemma_modp_bound(0);
    }
}

/// Scaling multiplies the value.
pub proof fn lemma_pscale(c: Seq<Ext>, s: Ext, x: Ext)
    ensures
        peval(pscale(c, s), x) == emul(s, peval(c, x)),
        pscale(c, s).len() == c.len(),
    decreases c.len(),
{
    if c.len() == 0 {
        lemma_edistrib(s, ezero(), ezero());
    } else {
        let t = c.drop_first();
        assert(pscale(c, s).drop_first() =~= pscale(t, s));
        lemma_pscale(t, s, x);
        let v = peval(t, x);
        // s (c0 + x v) == s c0 + x (s v)
        lemma_edistrib(s, c[0], emul(x, v));
        lemma_emul_laws(s, x, v);
        lemma_emul_laws(x, s, v);
        lemma_emul_laws(s, x, x);
    }
}

/// Shifting multiplies the value by `x`.
pub proof fn lemma_pshift(c: Seq<Ext>, x: Ext)
    ensures
        peval(pshift(c), x) == emul(x, peval(c, x)),
        pshift(c).len() == c.len() + 1,
{
    assert(pshift(c).drop_first() =~= c);
    lemma_peval_canon(c, x);
    let v = emul(x, peval(c, x));
    lemma_modp_bound(v.0 as int);
    lemma_modp_bound(v.1 as int);
    lemma_eadd_laws(v, ezero(), ezero());
    lemma_eadd_laws(ezero(), v, ezero());
}

/// Adding adds the values.
pub proof fn lemma_padd(c: Seq<Ext>, d: Seq<Ext>, x: Ext)
    ensures
        peval(padd(c, d), x) == eadd(peval(c, x), peval(d, x)),
    decreases c.len() + d.len(),
{
    let s = padd(c, d);
    if s.len() == 0 {
        lemma_modp_bound(0);
    } else {
        assert(s.drop_first() =~= padd(ptail(c), ptail(d)));
        lemma_padd(ptail(c), ptail(d), x);
        lemma_peval_unfold(c, x);
        lemma_peval_unfold(d, x);
        let (c0, d0) = (pcoef(c, 0), pcoef(d, 0));
        let (cv, dv) = (peval(ptail(c), x), peval(ptail(d), x));
        // (c0 + d0) + x (cv + dv) == (c0 + x cv) + (d0 + x dv)
        lemma_edistrib(x, cv, dv);
        let (xc, xd) = (emul(x, cv), emul(x, dv));
        lemma_eadd_laws(c0, d0, eadd(xc, xd));
        lemma_eadd_laws(d0, xc, xd);
        lemma_eadd_laws(xc, d0, xd);
        lemma_eadd_laws(c0, xc, eadd(d0, xd));
    }
}

/// Multiplying multiplies the values.
pub proof fn lemma_pmul(c: Seq<Ext>, d: Seq<Ext>, x: Ext)
    ensures
        peval(pmul(c, d), x) == emul(peval(c, x), peval(d, x)),
    decreases c.len(),
{
    if c.len() == 0 {
        lemma_edistrib(peval(d, x), ezero(), ezero());
        lemma_emul_laws(ezero(), peval(d, x), ezero());
    } else {
        let t = c.drop_first();
        lemma_pmul(t, d, x);
        lemma_padd(pscale(d, c[0]), pshift(pmul(t, d)), x);
        lemma_pscale(d, c[0], x);
        lemma_pshift(pmul(t, d), x);
        let (tv, dv) = (peval(t, x), peval(d, x));
        // c0 dv + x (tv dv) == (c0 + x tv) dv
        lemma_emul_laws(x, tv, dv);
        lemma_edistrib(dv, c[0], emul(x, tv));
        lemma_emul_laws(dv, c[0], c[0]);
        lemma_emul_laws(dv, emul(x, tv), dv);
    }
}

/// The length of a product.
pub proof fn lemma_pmul_len(c: Seq<Ext>, d: Seq<Ext>)
    requires
        d.len() >= 1,
    ensures
        c.len() >= 1 ==> pmul(c, d).len() == c.len() + d.len() - 1,
        c.len() == 0 ==> pmul(c, d).len() == 0,
    decreases c.len(),
{
    if c.len() > 0 {
        lemma_pmul_len(c.drop_first(), d);
    }
}

/// Division by `x - a`: `c(x) = (x - a) q(x) + c(a)`.
pub proof fn lemma_pquot(c: Seq<Ext>, a: Ext, x: Ext)
    requires
        ecanon(x),
        ecanon(a),
    ensures
        peval(c, x) == eadd(emul(esub(x, a), peval(pquot(c, a), x)), peval(c, a)),
        c.len() >= 1 ==> pquot(c, a).len() == c.len() - 1,
    decreases c.len(),
{
    let xa = esub(x, a);
    if c.len() <= 1 {
        lemma_pquot_base(c, a, x);
    } else {
        let t = c.drop_first();
        lemma_pquot(t, a, x);
        let q = pquot(c, a);
        let qt = pquot(t, a);
        assert(q.drop_first() =~= qt);
        let ta = peval(t, a);
        let qx = peval(qt, x);
        lemma_peval_canon(t, a);
        lemma_peval_canon(qt, x);
        lemma_quot_step(c[0], x, a, ta, qx);
        assert(q[0] == ta);
        assert(peval(q, x) == eadd(ta, emul(x, qx)));
        assert(peval(t, x) == eadd(emul(xa, qx), ta));
        assert(peval(c, x) == eadd(c[0], emul(x, peval(t, x))));
        assert(peval(c, a) == eadd(c[0], emul(a, ta)));
    }
}

proof fn lemma_pquot_base(c: Seq<Ext>, a: Ext, x: Ext)
    requires
        c.len() <= 1,
    ensures
        peval(c, x) == eadd(emul(esub(x, a), peval(pquot(c, a), x)), peval(c, a)),
{
    lemma_edistrib(esub(x, a), ezero(), ezero());
    lemma_edistrib(x, ezero(), ezero());
    lemma_edistrib(a, ezero(), ezero());
    lemma_peval_canon(c, a);
    lemma_eadd_laws(ezero(), peval(c, a), ezero());
    lemma_eadd_laws(peval(c, a), ezero(), ezero());
    assert(pquot(c, a) =~= seq![]);
    assert(peval(pquot(c, a), x) == ezero());
    if c.len() == 1 {
        assert(c.drop_first().len() == 0);
        assert(peval(c.drop_first(), x) == ezero());
        assert(peval(c.drop_first(), a) == ezero());
        assert(peval(c, x) == eadd(c[0], ezero()));
        assert(peval(c, a) == eadd(c[0], ezero()));
    }
    assert(peval(c, x) == peval(c, a));
}

/// Four terms rearranged: `p + (q + (r + s)) == (r + q) + (p + s)`.
proof fn lemma_add4(p: Ext, q: Ext, r: Ext, s: Ext)
    ensures
        eadd(p, eadd(q, eadd(r, s))) == eadd(eadd(r, q), eadd(p, s)),
{
    // p + (q + (r + s)) == p + ((q + r) + s) == p + ((r + q) + s) == p + (s + (r + q))
    //   == (p + s) + (r + q) == (r + q) + (p + s)
    lemma_eadd_laws(q, r, s);
    lemma_eadd_laws(q, r, r);
    lemma_eadd_laws(eadd(r, q), s, s);
    lemma_eadd_laws(p, s, eadd(r, q));
    lemma_eadd_laws(eadd(p, s), eadd(r, q), eadd(r, q));
}

/// The ring identity behind one step of the division.
proof fn lemma_quot_step(c0: Ext, x: Ext, a: Ext, ta: Ext, qx: Ext)
    requires
        ecanon(x),
        ecanon(a),
    ensures
        eadd(c0, emul(x, eadd(emul(esub(x, a), qx), ta))) == eadd(
            emul(esub(x, a), eadd(ta, emul(x, qx))),
            eadd(c0, emul(a, ta)),
        ),
{
    let xa = esub(x, a);
    let big_a = emul(xa, emul(x, qx));
    let big_b = emul(xa, ta);
    let big_c = emul(a, ta);
    assert(emul(x, eadd(emul(xa, qx), ta)) == eadd(big_a, eadd(big_b, big_c))) by {
        lemma_edistrib(x, emul(xa, qx), ta);
        lemma_emul_laws(x, xa, qx);
        lemma_emul_laws(xa, x, qx);
        lemma_emul_laws(x, xa, xa);
        lemma_esub_laws(x, a);
        lemma_edistrib(ta, xa, a);
        lemma_emul_laws(ta, xa, xa);
        lemma_emul_laws(ta, a, a);
        lemma_emul_laws(ta, x, x);
    }
    assert(emul(xa, eadd(ta, emul(x, qx))) == eadd(big_b, big_a)) by {
        lemma_edistrib(xa, ta, emul(x, qx));
    }
    lemma_add4(c0, big_a, big_b, big_c);
}

/// `y - a` is zero exactly when `y == a`.
pub proof fn lemma_esub_zero(y: Ext, a: Ext)
    requires
        ecanon(y),
        ecanon(a),
    ensures
        (esub(y, a) == ezero()) == (y == a),
{
    lemma_esub_laws(y, a);
    lemma_esub_laws(a, a);
    if esub(y, a) == ezero() {
        lemma_eadd_laws(ezero(), a, a);
        lemma_eadd_laws(a, ezero(), ezero());
    }
}

/// A product is zero only if a factor is (in a field).
pub proof fn lemma_emul_cancel(u: Ext, v: Ext)
    requires
        ecanon(u),
        ecanon(v),
        u != ezero(),
        emul(u, v) == ezero(),
    ensures
        v == ezero(),
{
    lemma_ext_is_field();
    assert(exists|z: Ext| is_einverse(u, z));
    let z = choose|z: Ext| is_einverse(u, z);
    // v == (z u) v == z (u v) == z 0 == 0
    lemma_emul_laws(z, u, v);
    lemma_emul_laws(u, z, z);
    lemma_emul_laws(v, eone(), eone());
    lemma_emul_laws(eone(), v, v);
    lemma_edistrib(z, ezero(), ezero());
}

/// A polynomial with at most as many coefficients as the distinct points
/// where it vanishes is zero everywhere.
pub proof fn lemma_vanishing(c: Seq<Ext>, nodes: Seq<Ext>, x: Ext)
    requires
        c.len() <= nodes.len(),
        forall|i: int| 0 <= i < nodes.len() ==> ecanon(#[trigger] nodes[i]),
        forall|i: int, j: int| 0 <= i < j < nodes.len() ==> nodes[i] != nodes[j],
        forall|i: int| 0 <= i < nodes.len() ==> peval(c, #[trigger] nodes[i]) == ezero(),
        ecanon(x),
    ensures
        peval(c, x) == ezero(),
    decreases nodes.len(),
{
    lemma_ext_is_field();
    if c.len() > 0 {
        let a = nodes[0];
        let q = pquot(c, a);
        let rest = nodes.drop_first();
        lemma_pquot(c, a, a);
        assert forall|i: int| 0 <= i < rest.len() implies peval(q, #[trigger] rest[i]) == ezero() by {
            let y = rest[i];
            assert(y == nodes[i + 1]);
            lemma_pquot(c, a, y);
            let u = esub(y, a);
            let v = peval(q, y);
            lemma_peval_canon(q, y);
            lemma_esub_zero(y, a);
            let w = emul(u, v);
            lemma_modp_bound(w.0 as int);
            lemma_modp_bound(w.1 as int);
            lemma_eadd_laws(w, ezero(), ezero());
            lemma_emul_cancel(u, v);
        }
        assert forall|i: int, j: int| 0 <= i < j < rest.len() implies rest[i] != rest[j] by {
            assert(rest[i] == nodes[i + 1] && rest[j] == nodes[j + 1]);
        }
        lemma_vanishing(q, rest, x);
        lemma_pquot(c, a, x);
        lemma_edistrib(esub(x, a), ezero(), ezero());
        lemma_modp_bound(0);
    }
}

} // verus!
