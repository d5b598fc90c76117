//! The prover's messages are values of low-degree polynomials: the skip
//! message is `s(Y) = sum_b prod_i f~_i(Y, b)` on `D`, a round message is
//! `sum_j prod_i g_i(t, j)` on `0..=d`. So interpolating a message at a
//! challenge gives the claim of the folded tables.
use crate::units::lemma_ext_is_field;
use crate::algebra::{lemma_ebase_hom, lemma_edistrib, lemma_eint_hom, lemma_escale_is_emul};
use crate::ext::{ebase, ecanon, eint, emul, eone, escale, esub, ezero, lemma_emul_laws, Ext};
use crate::field::{fadd, fmul, lemma_fmul_laws, lemma_modp_bound, P};
use crate::interp::{interp_poly, lemma_enode_prod_at_int, lemma_interp_poly, lemma_interpolate_at_node, lemma_interpolation_exact, lemma_psum, node_values, psum};
use crate::poly::{lemma_pmul, padd, peval, pmul, pscale, pshift};
use crate::protocol::{fold_skip_tables, fold_tables, round_message_spec, skip_message_spec};
use crate::rounds::{block_factors, block_terms, ecolumn, ecolumn_products, eclaim, eline, ext_at, ext_terms, fold_skip_terms, fold_skip_value, interpolate, interpolation_terms, round_lines, round_terms, skip_value};
use crate::skip::{bary_weight, enode_prod, node_prod};
use crate::sums::{eprod, esum, fprod, fsum, lemma_eadd_laws, lemma_eprod_ext, lemma_esum_ext};
use crate::verify::skip_in_ext;
use vstd::prelude::*;

verus! {

/// `f(0) f(1) ... f(n-1)` for polynomials.
pub open spec fn pprod(f: spec_fn(nat) -> Seq<Ext>, n: nat) -> Seq<Ext>
    decreases n,
{
    if n == 0 {
        seq![eone()]
    } else {
        pmul(pprod(f, (n - 1) as nat), f((n - 1) as nat))
    }
}

/// `sum_{b < nb} prod_{i < nt} f(b, i)` for polynomials.
pub open spec fn sum_of_products(f: spec_fn(nat, nat) -> Seq<Ext>, nb: nat, nt: nat) -> Seq<Ext> {
    psum(|b: nat| pprod(|i: nat| f(b, i), nt), nb)
}

/// The length of a product of polynomials.
proof fn lemma_pmul_length(c: Seq<Ext>, d: Seq<Ext>)
    requires
        c.len() >= 1,
    ensures
        pmul(c, d).len() == c.len() + (if d.len() >= 1 {
            d.len()
        } else {
            1
        }) - 1,
    decreases c.len(),
{
    let t = c.drop_first();
    if t.len() >= 1 {
        lemma_pmul_length(t, d);
    } else {
        assert(pmul(t, d) == Seq::<Ext>::empty());
    }
    assert(pmul(c, d) == padd(pscale(d, c[0]), pshift(pmul(t, d))));
    assert(pscale(d, c[0]).len() == d.len());
    assert(pshift(pmul(t, d)).len() == pmul(t, d).len() + 1);
}

/// The constant polynomial one.
proof fn lemma_peval_one(x: Ext)
    ensures
        peval(seq![eone()], x) == eone(),
{
    let one = seq![eone()];
    assert(one.drop_first().len() == 0);
    assert(peval(one.drop_first(), x) == ezero());
    lemma_edistrib(x, ezero(), ezero());
    lemma_modp_bound(1);
    lemma_modp_bound(0);
}

/// A product of polynomials evaluates to the product of the values, and has
/// at most `n (L - 1) + 1` coefficients when each factor has at most `L`.
proof fn lemma_pprod(f: spec_fn(nat) -> Seq<Ext>, n: nat, x: Ext, bound: nat)
    requires
        bound >= 1,
        forall|i: nat| i < n ==> (#[trigger] f(i)).len() <= bound,
    ensures
        peval(pprod(f, n), x) == eprod(|i: nat| peval(f(i), x), n),
        1 <= pprod(f, n).len() <= n * (bound - 1) + 1,
    decreases n,
{
    if n == 0 {
        lemma_peval_one(x);
    } else {
        let m = (n - 1) as nat;
        lemma_pprod(f, m, x, bound);
        lemma_pmul(pprod(f, m), f(m), x);
        lemma_pmul_length(pprod(f, m), f(m));
        assert(m * (bound - 1) + 1 + (bound - 1) == n * (bound - 1) + 1) by (nonlinear_arith)
            requires
                m == n - 1,
        ;
        lemma_eprod_ext(
            |i: nat| peval(f(i), x),
            |i: nat| peval(f(i), x),
            m,
        );
    }
}

/// A sum of products of polynomials evaluates to the sum of products of the values.
proof fn lemma_sum_of_products(f: spec_fn(nat, nat) -> Seq<Ext>, nb: nat, nt: nat, x: Ext, bound: nat)
    requires
        bound >= 1,
        forall|b: nat, i: nat| b < nb && i < nt ==> (#[trigger] f(b, i)).len() <= bound,
    ensures
        peval(sum_of_products(f, nb, nt), x) == esum(
            |b: nat| eprod(|i: nat| peval(f(b, i), x), nt),
            nb,
        ),
        sum_of_products(f, nb, nt).len() <= nt * (bound - 1) + 1,
{
    let g = |b: nat| pprod(|i: nat| f(b, i), nt);
    assert forall|b: nat| b < nb implies (#[trigger] g(b)).len() <= nt * (bound - 1) + 1 by {
        lemma_pprod(|i: nat| f(b, i), nt, x, bound);
    }
    lemma_psum(g, nb, x, (nt * (bound - 1) + 1) as nat);
    assert forall|b: nat| b < nb implies #[trigger] peval(g(b), x) == eprod(
        |i: nat| peval(f(b, i), x),
        nt,
    ) by {
        lemma_pprod(|i: nat| f(b, i), nt, x, bound);
        lemma_eprod_ext(|i: nat| peval((|i: nat| f(b, i))(i), x), |i: nat| peval(f(b, i), x), nt);
    }
    lemma_esum_ext(
        |b: nat| peval(g(b), x),
        |b: nat| eprod(|i: nat| peval(f(b, i), x), nt),
        nb,
    );
}

/// Sums in GF(P) embed in GF(P^2).
pub proof fn lemma_esum_ebase(f: spec_fn(nat) -> nat, n: nat)
    ensures
        esum(|i: nat| ebase(f(i)), n) == ebase(fsum(f, n)),
    decreases n,
{
    if n == 0 {
        lemma_modp_bound(0);
    } else {
        let m = (n - 1) as nat;
        lemma_esum_ebase(f, m);
        lemma_ebase_hom(fsum(f, m), f(m));
        crate::sums::lemma_fsum_bound(f, m);
        lemma_modp_bound(fsum(f, m) as int);
        lemma_modp_bound(f(m) as int);
        vstd::arithmetic::div_mod::lemma_add_mod_noop(fsum(f, m) as int, f(m) as int, P as int);
        lemma_modp_bound((fsum(f, m) + f(m)) as int);
        lemma_modp_bound(fadd(fsum(f, m), f(m)) as int);
    }
}

/// Products in GF(P) embed in GF(P^2).
pub proof fn lemma_eprod_ebase(f: spec_fn(nat) -> nat, n: nat)
    ensures
        eprod(|i: nat| ebase(f(i)), n) == ebase(fprod(f, n)),
    decreases n,
{
    if n == 0 {
        lemma_modp_bound(1);
    } else {
        let m = (n - 1) as nat;
        lemma_eprod_ebase(f, m);
        lemma_ebase_hom(fprod(f, m), f(m));
        crate::skip::lemma_fprod_bound(f, m);
        lemma_modp_bound(fprod(f, m) as int);
        vstd::arithmetic::div_mod::lemma_mul_mod_noop(fprod(f, m) as int, f(m) as int, P as int);
        lemma_modp_bound((fprod(f, m) * f(m)) as int);
        lemma_modp_bound(fmul(fprod(f, m), f(m)) as int);
    }
}

/// The values of block `b` of a table, in the extension.
pub open spec fn block_vals(t: Seq<nat>, hs: nat, b: nat) -> Seq<Ext> {
    Seq::new(hs, |h: int| ebase(t[b * hs + h]))
}

/// The polynomials `f~_i(Y, b)`, as a function of `(b, i)`.
pub open spec fn skip_factor_polys(t: Seq<Seq<nat>>, hs: nat) -> spec_fn(nat, nat) -> Seq<Ext> {
    |b: nat, i: nat| interp_poly(block_vals(t[i as int], hs, b))
}

/// The skip polynomial `s(Y) = sum_{b < nb} prod_i f~_i(Y, b)`.
pub open spec fn skip_poly(t: Seq<Seq<nat>>, hs: nat, nb: nat) -> Seq<Ext> {
    sum_of_products(skip_factor_polys(t, hs), nb, t.len())
}

/// The entries of a table are canonical.
pub open spec fn table_canon(t: Seq<nat>) -> bool {
    forall|x: int| 0 <= x < t.len() ==> #[trigger] t[x] < P
}

/// At a point `y` of `D` the block polynomial is the block's extension.
proof fn lemma_block_poly_at_int(t: Seq<nat>, hs: nat, b: nat, y: nat)
    requires
        1 <= hs <= P,
        y < P,
        (b + 1) * hs <= t.len(),
        table_canon(t),
    ensures
        peval(interp_poly(block_vals(t, hs, b)), eint(y as int)) == ebase(ext_at(t, hs, b, y)),
{
    lemma_ext_is_field();
    let v = block_vals(t, hs, b);
    let x = eint(y as int);
    lemma_eint_hom(y as int, 0);
    lemma_interp_poly(v, x);
    assert((b + 1) * hs == b * hs + hs) by (nonlinear_arith);
    if y < hs {
        lemma_ebase_hom(t[(b * hs + y) as int], 0);
        lemma_interpolate_at_node(v, y);
    } else {
        let f = interpolation_terms(v, x);
        let g = ext_terms(t, hs, b, y);
        assert forall|h: nat| h < hs implies #[trigger] f(h) == ebase(g(h)) by {
            let th = t[(b * hs + h) as int];
            let np = node_prod(hs, h, y as int);
            let w = bary_weight(hs, h);
            lemma_enode_prod_at_int(hs, h, y as int);
            lemma_ebase_hom(th, np);
            lemma_escale_is_emul(emul(ebase(th), ebase(np)), w);
            lemma_ebase_hom(fmul(th, np), w);
            // (th np) w == (np w) th
            lemma_fmul_laws(th, np, w);
            lemma_fmul_laws(np, w, th);
            lemma_fmul_laws(th, fmul(np, w), th);
            lemma_fmul_laws(np, th, w);
        }
        lemma_esum_ext(f, |h: nat| ebase(g(h)), hs);
        lemma_esum_ebase(g, hs);
    }
}

/// At the challenge the block polynomial is the folded table entry.
proof fn lemma_block_poly_at_r(t: Seq<nat>, hs: nat, b: nat, r: Ext)
    requires
        ecanon(r),
        (b + 1) * hs <= t.len(),
    ensures
        peval(interp_poly(block_vals(t, hs, b)), r) == fold_skip_value(t, hs, r, b),
        interp_poly(block_vals(t, hs, b)).len() <= hs,
{
    let v = block_vals(t, hs, b);
    lemma_interp_poly(v, r);
    let f = interpolation_terms(v, r);
    let g = fold_skip_terms(t, hs, r, b);
    assert((b + 1) * hs == b * hs + hs) by (nonlinear_arith);
    assert forall|h: nat| h < hs implies #[trigger] f(h) == g(h) by {
        let th = t[(b * hs + h) as int];
        let e = enode_prod(hs, h, r);
        let w = bary_weight(hs, h);
        let (bt, bw) = (ebase(th), ebase(w));
        lemma_escale_is_emul(emul(bt, e), w);
        lemma_escale_is_emul(e, w);
        lemma_escale_is_emul(escale(e, w), th);
        // (bt e) bw == (e bw) bt
        lemma_emul_laws(bt, e, bw);
        lemma_emul_laws(e, bw, bt);
        lemma_emul_laws(bt, emul(e, bw), bt);
    }
    lemma_esum_ext(f, g, hs);
}

/// Interpolating the skip message at `r` gives the claim of the tables folded at `r`.
pub proof fn lemma_skip_message_at(t: Seq<Seq<nat>>, hs: nat, nb: nat, ds: nat, r: Ext)
    requires
        1 <= hs <= ds <= P,
        t.len() * (hs - 1) + 1 <= ds,
        forall|i: int| 0 <= i < t.len() ==> nb <= (#[trigger] t[i]).len() / hs,
        forall|i: int| 0 <= i < t.len() ==> table_canon(#[trigger] t[i]),
        ecanon(r),
    ensures
        interpolate(skip_in_ext(Seq::new(ds, |y: int| skip_value(t, hs, nb, y as nat))), r)
            == eclaim(fold_skip_tables(t, hs, r), nb),
{
    lemma_ext_is_field();
    let nt = t.len();
    let fp = skip_factor_polys(t, hs);
    let s = skip_poly(t, hs, nb);
    assert forall|b: nat, i: nat| b < nb && i < nt implies (#[trigger] fp(b, i)).len() <= hs by {
        crate::rounds::lemma_block_fits(t[i as int].len(), hs, b);
        lemma_block_poly_at_r(t[i as int], hs, b, r);
    }
    lemma_sum_of_products(fp, nb, nt, r, hs);
    let msg = Seq::new(ds, |y: int| skip_value(t, hs, nb, y as nat));
    assert forall|y: int| 0 <= y < ds implies #[trigger] skip_in_ext(msg)[y] == node_values(s, ds)[y] by {
        let x = eint(y);
        lemma_sum_of_products(fp, nb, nt, x, hs);
        let inner = |b: nat| eprod(|i: nat| peval(fp(b, i), x), nt);
        assert forall|b: nat| b < nb implies #[trigger] inner(b) == ebase(block_terms(t, hs, y as nat)(b)) by {
            assert forall|i: nat| i < nt implies #[trigger] peval(fp(b, i), x) == ebase(
                block_factors(t, hs, b, y as nat)(i),
            ) by {
                crate::rounds::lemma_block_fits(t[i as int].len(), hs, b);
                lemma_block_poly_at_int(t[i as int], hs, b, y as nat);
            }
            lemma_eprod_ext(
                |i: nat| peval(fp(b, i), x),
                |i: nat| ebase(block_factors(t, hs, b, y as nat)(i)),
                nt,
            );
            lemma_eprod_ebase(block_factors(t, hs, b, y as nat), nt);
        }
        lemma_esum_ext(inner, |b: nat| ebase(block_terms(t, hs, y as nat)(b)), nb);
        lemma_esum_ebase(block_terms(t, hs, y as nat), nb);
    }
    assert(skip_in_ext(msg) =~= node_values(s, ds));
    lemma_interpolation_exact(s, ds, r);
    // the value at r
    let g = fold_skip_tables(t, hs, r);
    let inner = |b: nat| eprod(|i: nat| peval(fp(b, i), r), nt);
    assert forall|b: nat| b < nb implies #[trigger] inner(b) == ecolumn_products(g)(b) by {
        assert forall|i: nat| i < nt implies #[trigger] peval(fp(b, i), r) == ecolumn(g, b)(i) by {
            crate::rounds::lemma_block_fits(t[i as int].len(), hs, b);
            lemma_block_poly_at_r(t[i as int], hs, b, r);
        }
        lemma_eprod_ext(|i: nat| peval(fp(b, i), r), ecolumn(g, b), nt);
    }
    lemma_esum_ext(inner, ecolumn_products(g), nb);
}

/// The polynomial `lo + (hi - lo) x`.
pub open spec fn line_poly(lo: Ext, hi: Ext) -> Seq<Ext> {
    seq![lo, esub(hi, lo)]
}

proof fn lemma_line_poly(lo: Ext, hi: Ext, x: Ext)
    ensures
        peval(line_poly(lo, hi), x) == eline(lo, hi, x),
{
    let c = line_poly(lo, hi);
    let z = esub(hi, lo);
    assert(c.drop_first().drop_first().len() == 0);
    assert(peval(c.drop_first().drop_first(), x) == ezero());
    lemma_edistrib(x, ezero(), ezero());
    lemma_modp_bound(hi.0 - lo.0);
    lemma_modp_bound(hi.1 - lo.1);
    lemma_eadd_laws(z, ezero(), ezero());
    assert(peval(c.drop_first(), x) == z);
}

/// The lines `g_i(t, j)`, as polynomials, as a function of `(j, i)`.
pub open spec fn round_factor_polys(g: Seq<Seq<Ext>>) -> spec_fn(nat, nat) -> Seq<Ext> {
    |j: nat, i: nat| line_poly(g[i as int][(2 * j) as int], g[i as int][(2 * j + 1) as int])
}

/// Interpolating the round message at `r` gives the claim of the tables folded at `r`.
pub proof fn lemma_round_message_at(g: Seq<Seq<Ext>>, d: nat, r: Ext)
    requires
        g.len() <= d,
        d + 1 <= P,
        forall|i: int| 0 <= i < g.len() ==> (#[trigger] g[i]).len() / 2 >= g[0].len() / 2,
        ecanon(r),
    ensures
        interpolate(round_message_spec(g, d), r) == eclaim(fold_tables(g, r), g[0].len() / 2),
{
    lemma_ext_is_field();
    let nt = g.len();
    let half = g[0].len() / 2;
    let fp = round_factor_polys(g);
    let s = sum_of_products(fp, half, nt);
    lemma_sum_of_products(fp, half, nt, r, 2);
    assert forall|k: int| 0 <= k < d + 1 implies #[trigger] round_message_spec(g, d)[k] == node_values(s, d + 1)[k] by {
        let x = eint(k);
        lemma_sum_of_products(fp, half, nt, x, 2);
        assert forall|j: nat| j < half implies eprod(|i: nat| peval(fp(j, i), x), nt) == #[trigger] round_terms(g, x)(j) by {
            assert forall|i: nat| i < nt implies #[trigger] peval(fp(j, i), x) == round_lines(g, j, x)(i) by {
                lemma_line_poly(g[i as int][(2 * j) as int], g[i as int][(2 * j + 1) as int], x);
            }
            lemma_eprod_ext(|i: nat| peval(fp(j, i), x), round_lines(g, j, x), nt);
        }
        lemma_esum_ext(|j: nat| eprod(|i: nat| peval(fp(j, i), x), nt), round_terms(g, x), half);
    }
    assert(round_message_spec(g, d) =~= node_values(s, d + 1));
    lemma_interpolation_exact(s, d + 1, r);
    let gf = fold_tables(g, r);
    assert forall|j: nat| j < half implies eprod(|i: nat| peval(fp(j, i), r), nt) == #[trigger] ecolumn_products(gf)(j) by {
        assert forall|i: nat| i < nt implies #[trigger] peval(fp(j, i), r) == ecolumn(gf, j)(i) by {
            lemma_line_poly(g[i as int][(2 * j) as int], g[i as int][(2 * j + 1) as int], r);
        }
        lemma_eprod_ext(|i: nat| peval(fp(j, i), r), ecolumn(gf, j), nt);
    }
    lemma_esum_ext(|j: nat| eprod(|i: nat| peval(fp(j, i), r), nt), ecolumn_products(gf), half);
}

/// Tables of base-field values seen in the extension.
pub open spec fn lift_tables(t: Seq<Seq<nat>>) -> Seq<Seq<Ext>> {
    Seq::new(t.len(), |i: int| Seq::new(t[i].len(), |x: int| ebase(t[i][x])))
}

/// With one skipped variable (`|H| = 2`), the extension of a block at `y` is
/// the line through its two entries.
proof fn lemma_block_line(t: Seq<nat>, b: nat, y: nat)
    requires
        y < P,
        2 * b + 2 <= t.len(),
        table_canon(t),
    ensures
        ebase(ext_at(t, 2, b, y)) == eline(ebase(t[(2 * b) as int]), ebase(t[(2 * b + 1) as int]), eint(y as int)),
{
    lemma_ext_is_field();
    let (lo, hi) = (ebase(t[(2 * b) as int]), ebase(t[(2 * b + 1) as int]));
    let v = block_vals(t, 2, b);
    let x = eint(y as int);
    lemma_eint_hom(y as int, 0);
    lemma_block_poly_at_int(t, 2, b, y);
    lemma_interp_poly(v, x);
    lemma_ebase_hom(t[(2 * b) as int], 0);
    lemma_ebase_hom(t[(2 * b + 1) as int], 0);
    let c = line_poly(lo, hi);
    assert forall|k: int| 0 <= k < 2 implies #[trigger] v[k] == node_values(c, 2)[k] by {
        lemma_line_poly(lo, hi, eint(k));
        crate::rounds::lemma_eline_ends(lo, hi);
    }
    assert(v =~= node_values(c, 2));
    lemma_interpolation_exact(c, 2, x);
    lemma_line_poly(lo, hi, x);
}

/// With one skipped variable the skip message is the first round message of
/// the plain protocol: the round polynomial of the tables on `0..=d`.
pub proof fn lemma_one_skipped_variable_is_first_round(t: Seq<Seq<nat>>, d: nat)
    requires
        d < P,
        t.len() >= 1,
        forall|i: int| 0 <= i < t.len() ==> (#[trigger] t[i]).len() / 2 >= t[0].len() / 2,
        forall|i: int| 0 <= i < t.len() ==> table_canon(#[trigger] t[i]),
    ensures
        skip_in_ext(skip_message_spec(t, 2, d + 1)) == round_message_spec(lift_tables(t), d),
{
    let nt = t.len();
    let g = lift_tables(t);
    let nb = crate::rounds::num_blocks(t, 2);
    assert(g[0].len() / 2 == nb);
    assert forall|y: int| 0 <= y < d + 1 implies #[trigger] skip_in_ext(skip_message_spec(t, 2, d + 1))[y]
        == round_message_spec(g, d)[y] by {
        let x = eint(y);
        assert forall|b: nat| b < nb implies #[trigger] ebase(block_terms(t, 2, y as nat)(b)) == round_terms(g, x)(b) by {
            assert forall|i: nat| i < nt implies #[trigger] ebase(block_factors(t, 2, b, y as nat)(i))
                == round_lines(g, b, x)(i) by {
                lemma_block_line(t[i as int], b, y as nat);
            }
            lemma_eprod_ext(
                |i: nat| ebase(block_factors(t, 2, b, y as nat)(i)),
                round_lines(g, b, x),
                nt,
            );
            lemma_eprod_ebase(block_factors(t, 2, b, y as nat), nt);
        }
        lemma_esum_ext(|b: nat| ebase(block_terms(t, 2, y as nat)(b)), round_terms(g, x), nb);
        lemma_esum_ebase(block_terms(t, 2, y as nat), nb);
    }
    assert(skip_in_ext(skip_message_spec(t, 2, d + 1)) =~= round_message_spec(g, d));
}

} // verus!
