//! The prover's table work: the skip message, the fold at the skip challenge,
//! the ordinary round messages and folds, and univariate evaluation.
use crate::ext::{eadd, emul, eint, eone, escale, esub, ezero, lemma_fp2_canon, Ext, Fp2};
use crate::field::{fmul, lemma_fp_view_bound, lemma_modp_bound, Fp, P};
use crate::skip::{bary_weight, enode_factor, enode_prod, fp2s, fps, lagrange_at, lagrange_ext, node_weights, Skip};
use crate::sums::{eprod, esum, fprod, fsum};
use vstd::prelude::*;

verus! {

broadcast use {lemma_fp_view_bound, lemma_fp2_canon};

/// The values of tables of base-field elements.
pub open spec fn fp_tables(t: Seq<Vec<Fp>>) -> Seq<Seq<nat>> {
    t.map_values(|v: Vec<Fp>| fps(v@))
}

/// The values of tables of extension elements.
pub open spec fn fp2_tables(t: Seq<Vec<Fp2>>) -> Seq<Seq<Ext>> {
    t.map_values(|v: Vec<Fp2>| fp2s(v@))
}

/// The entries at index `x` of the tables, as a function of the table index.
pub open spec fn column(t: Seq<Seq<nat>>, x: nat) -> spec_fn(nat) -> nat {
    |i: nat| t[i as int][x as int]
}

/// `prod_i t_i[x]`, as a function of `x`.
pub open spec fn column_products(t: Seq<Seq<nat>>) -> spec_fn(nat) -> nat {
    |x: nat| fprod(column(t, x), t.len())
}

/// `sum_{x < n} prod_i t_i[x]`: the sumcheck claim of the tables over their first `n` entries.
pub open spec fn claim_spec(t: Seq<Seq<nat>>, n: nat) -> nat {
    fsum(column_products(t), n)
}

/// The terms `L_h^H(y) t[b |H| + h]` of the extension of a block at `y`.
pub open spec fn ext_terms(t: Seq<nat>, hs: nat, b: nat, y: nat) -> spec_fn(nat) -> nat {
    |h: nat| fmul(lagrange_at(hs, h, y as int), t[(b * hs + h) as int])
}

/// The value at the point `y` of `D` of the univariate extension of block `b`
/// of a table: the table value for `y` in `H`, else `sum_h L_h^H(y) t[b |H| + h]`.
pub open spec fn ext_at(t: Seq<nat>, hs: nat, b: nat, y: nat) -> nat {
    if y < hs {
        t[(b * hs + y) as int]
    } else {
        fsum(ext_terms(t, hs, b, y), hs)
    }
}

/// `f~_i(y, b)` as a function of the table index `i`.
pub open spec fn block_factors(t: Seq<Seq<nat>>, hs: nat, b: nat, y: nat) -> spec_fn(nat) -> nat {
    |i: nat| ext_at(t[i as int], hs, b, y)
}

/// `prod_i f~_i(y, b)` as a function of the block `b`.
pub open spec fn block_terms(t: Seq<Seq<nat>>, hs: nat, y: nat) -> spec_fn(nat) -> nat {
    |b: nat| fprod(block_factors(t, hs, b, y), t.len())
}

/// The skip message at the point `y` of `D`: `s(y) = sum_{b < nb} prod_i f~_i(y, b)`.
pub open spec fn skip_value(t: Seq<Seq<nat>>, hs: nat, nb: nat, y: nat) -> nat {
    fsum(block_terms(t, hs, y), nb)
}

/// The number of blocks of `|H|` entries in the first table.
pub open spec fn num_blocks(t: Seq<Seq<nat>>, hs: nat) -> nat {
    t[0].len() / hs
}

/// Every table holds the blocks of the first.
pub open spec fn tables_cover(t: Seq<Seq<nat>>, hs: nat) -> bool {
    &&& t.len() >= 1
    &&& forall|i: int| 0 <= i < t.len() ==> (#[trigger] t[i]).len() / hs >= t[0].len() / hs
}

/// The terms `L_h^H(r) t[c |H| + h]`.
pub open spec fn fold_skip_terms(t: Seq<nat>, hs: nat, r: Ext, c: nat) -> spec_fn(nat) -> Ext {
    |h: nat| escale(lagrange_ext(hs, h, r), t[(c * hs + h) as int])
}

/// The fold of a table at the skip challenge: `g(c) = sum_h L_h^H(r) t[c |H| + h]`.
pub open spec fn fold_skip_value(t: Seq<nat>, hs: nat, r: Ext, c: nat) -> Ext {
    esum(fold_skip_terms(t, hs, r, c), hs)
}

/// The line through `lo` (at 0) and `hi` (at 1), at `t`.
pub open spec fn eline(lo: Ext, hi: Ext, t: Ext) -> Ext {
    eadd(lo, emul(t, esub(hi, lo)))
}

/// `g_i(t, j)` on the line through the entries `2j` and `2j + 1`, as a function of `i`.
pub open spec fn round_lines(g: Seq<Seq<Ext>>, j: nat, t: Ext) -> spec_fn(nat) -> Ext {
    |i: nat| eline(g[i as int][(2 * j) as int], g[i as int][(2 * j + 1) as int], t)
}

/// `prod_i g_i(t, j)` as a function of `j`.
pub open spec fn round_terms(g: Seq<Seq<Ext>>, t: Ext) -> spec_fn(nat) -> Ext {
    |j: nat| eprod(round_lines(g, j, t), g.len())
}

/// The round polynomial at `t`: `sum_{j < half} prod_i g_i(t, j)`.
pub open spec fn round_value(g: Seq<Seq<Ext>>, half: nat, t: nat) -> Ext {
    esum(round_terms(g, eint(t as int)), half)
}

/// A table folded at `r` on its low bit.
pub open spec fn fold_table(g: Seq<Ext>, r: Ext) -> Seq<Ext> {
    Seq::new(g.len() / 2, |j: int| eline(g[2 * j], g[2 * j + 1], r))
}

/// The terms `v_i L_i(r)` of the Lagrange interpolation.
pub open spec fn interpolation_terms(vals: Seq<Ext>, r: Ext) -> spec_fn(nat) -> Ext {
    |i: nat| escale(emul(vals[i as int], enode_prod(vals.len(), i, r)), bary_weight(vals.len(), i))
}

/// The Lagrange interpolation at `r` of the values on the nodes `0..vals.len()`.
pub open spec fn interpolate(vals: Seq<Ext>, r: Ext) -> Ext {
    esum(interpolation_terms(vals, r), vals.len())
}

/// A block index below the number of blocks fits in the table.
pub proof fn lemma_block_fits(len: nat, hs: nat, b: nat)
    requires
        hs >= 1,
        b < len / hs,
    ensures
        (b + 1) * hs <= len,
        b * hs + hs <= len,
{
    vstd::arithmetic::div_mod::lemma_fundamental_div_mod(len as int, hs as int);
    vstd::arithmetic::mul::lemma_mul_inequality((b + 1) as int, (len / hs) as int, hs as int);
    assert((b + 1) * hs == b * hs + hs) by (nonlinear_arith);
    assert(hs * (len / hs) == (len / hs) * hs) by (nonlinear_arith);
}

/// The claim `sum_{x < n} prod_i t_i[x]`.
pub fn claim_of(tables: &[Vec<Fp>], n: usize) -> (c: Fp)
    requires
        forall|i: int| 0 <= i < tables@.len() ==> (#[trigger] tables@[i])@.len() >= n,
    ensures
        c@ == claim_spec(fp_tables(tables@), n as nat),
{
    let ghost t = fp_tables(tables@);
    let mut acc = Fp::zero();
    let mut x: usize = 0;
    while x < n
        invariant
            x <= n,
            t == fp_tables(tables@),
            forall|i: int| 0 <= i < tables@.len() ==> (#[trigger] tables@[i])@.len() >= n,
            acc@ == claim_spec(t, x as nat),
        decreases n - x,
    {
        let ghost row = column(t, x as nat);
        let mut p = Fp::one();
        let mut i: usize = 0;
        while i < tables.len()
            invariant
                i <= tables@.len(),
                x < n,
                t == fp_tables(tables@),
                forall|i: int| 0 <= i < tables@.len() ==> (#[trigger] tables@[i])@.len() >= n,
                row == column(t, x as nat),
                p@ == fprod(row, i as nat),
            decreases tables@.len() - i,
        {
            p = p.mul(&tables[i][x]);
            i = i + 1;
        }
        acc = acc.add(&p);
        x = x + 1;
    }
    acc
}

/// The skip-round message: `s` on `D`. Tables are indexed `x'' |H| + h` (the
/// skipped variables are the low bits).
pub fn skip_message(tables: &[Vec<Fp>], sk: &Skip) -> (s: Vec<Fp>)
    requires
        sk.wf(),
        tables_cover(fp_tables(tables@), sk.hsize as nat),
        num_blocks(fp_tables(tables@), sk.hsize as nat) == 0 || sk.hsize <= sk.dsize,
    ensures
        s@.len() == sk.dsize,
        forall|y: int|
            0 <= y < sk.dsize ==> (#[trigger] s@[y])@ == skip_value(
                fp_tables(tables@),
                sk.hsize as nat,
                num_blocks(fp_tables(tables@), sk.hsize as nat),
                y as nat,
            ),
{
    let ghost t = fp_tables(tables@);
    let ghost hsn = sk.hsize as nat;
    let hs = sk.hsize;
    let blocks = tables[0].len() / hs;
    let ghost nb = num_blocks(t, hsn);
    let mut s: Vec<Fp> = Vec::new();
    let mut y: usize = 0;
    while y < sk.dsize
        invariant
            y <= sk.dsize,
            s@.len() == y,
            forall|q: int| 0 <= q < y ==> (#[trigger] s@[q])@ == 0,
        decreases sk.dsize - y,
    {
        s.push(Fp::zero());
        y = y + 1;
    }
    let mut b: usize = 0;
    while b < blocks
        invariant
            sk.wf(),
            hs == sk.hsize,
            t == fp_tables(tables@),
            hsn == hs as nat,
            tables_cover(t, hsn),
            blocks == nb,
            nb == num_blocks(t, hsn),
            nb == 0 || hs <= sk.dsize,
            b <= blocks,
            s@.len() == sk.dsize,
            forall|q: int| 0 <= q < sk.dsize ==> (#[trigger] s@[q])@ == skip_value(t, hsn, b as nat, q as nat),
        decreases blocks - b,
    {
        let prod = block_products(tables, sk, b);
        let mut y: usize = 0;
        while y < sk.dsize
            invariant
                sk.wf(),
                t == fp_tables(tables@),
                hsn == sk.hsize as nat,
                b < blocks,
                y <= sk.dsize,
                s@.len() == sk.dsize,
                prod@.len() == sk.dsize,
                forall|q: int|
                    0 <= q < sk.dsize ==> (#[trigger] prod@[q])@ == fprod(block_factors(t, hsn, b as nat, q as nat), t.len()),
                forall|q: int| 0 <= q < y ==> (#[trigger] s@[q])@ == skip_value(t, hsn, (b + 1) as nat, q as nat),
                forall|q: int| y <= q < sk.dsize ==> (#[trigger] s@[q])@ == skip_value(t, hsn, b as nat, q as nat),
            decreases sk.dsize - y,
        {
            let v = s[y].add(&prod[y]);
            s.set(y, v);
            y = y + 1;
        }
        b = b + 1;
    }
    s
}

/// For block `b`: `prod_i f~_i(y, b)` for every `y` in `D`.
fn block_products(tables: &[Vec<Fp>], sk: &Skip, b: usize) -> (prod: Vec<Fp>)
    requires
        sk.wf(),
        tables_cover(fp_tables(tables@), sk.hsize as nat),
        b < num_blocks(fp_tables(tables@), sk.hsize as nat),
        sk.hsize <= sk.dsize,
    ensures
        prod@.len() == sk.dsize,
        forall|q: int|
            0 <= q < sk.dsize ==> (#[trigger] prod@[q])@ == fprod(
                block_factors(fp_tables(tables@), sk.hsize as nat, b as nat, q as nat),
                tables@.len(),
            ),
{
    let ghost t = fp_tables(tables@);
    let ghost hsn = sk.hsize as nat;
    let hs = sk.hsize;
    let mut prod: Vec<Fp> = Vec::new();
    let mut y: usize = 0;
    while y < sk.dsize
        invariant
            y <= sk.dsize,
            prod@.len() == y,
            forall|q: int| 0 <= q < y ==> (#[trigger] prod@[q])@ == 1,
        decreases sk.dsize - y,
    {
        prod.push(Fp::one());
        y = y + 1;
    }
    let mut i: usize = 0;
    while i < tables.len()
        invariant
            sk.wf(),
            hs == sk.hsize,
            hsn == hs as nat,
            hs <= sk.dsize,
            t == fp_tables(tables@),
            tables_cover(t, hsn),
            b < num_blocks(t, hsn),
            i <= tables@.len(),
            prod@.len() == sk.dsize,
            forall|q: int|
                0 <= q < sk.dsize ==> (#[trigger] prod@[q])@ == fprod(block_factors(t, hsn, b as nat, q as nat), i as nat),
        decreases tables@.len() - i,
    {
        proof {
            lemma_block_fits(t[i as int].len(), hsn, b as nat);
        }
        let ext = block_extension(&tables[i], sk, b);
        let mut y: usize = 0;
        while y < sk.dsize
            invariant
                i < tables@.len(),
                y <= sk.dsize,
                prod@.len() == sk.dsize,
                ext@.len() == sk.dsize,
                forall|q: int|
                    0 <= q < sk.dsize ==> (#[trigger] ext@[q])@ == ext_at(t[i as int], hsn, b as nat, q as nat),
                forall|q: int|
                    0 <= q < y ==> (#[trigger] prod@[q])@ == fprod(block_factors(t, hsn, b as nat, q as nat), (i + 1) as nat),
                forall|q: int|
                    y <= q < sk.dsize ==> (#[trigger] prod@[q])@ == fprod(block_factors(t, hsn, b as nat, q as nat), i as nat),
            decreases sk.dsize - y,
        {
            let v = prod[y].mul(&ext[y]);
            prod.set(y, v);
            y = y + 1;
        }
        i = i + 1;
    }
    prod
}

/// The univariate extension of block `b` of a table, on `D`.
fn block_extension(table: &Vec<Fp>, sk: &Skip, b: usize) -> (ext: Vec<Fp>)
    requires
        sk.wf(),
        sk.hsize <= sk.dsize,
        (b + 1) * sk.hsize <= table@.len(),
    ensures
        ext@.len() == sk.dsize,
        forall|q: int|
            0 <= q < sk.dsize ==> (#[trigger] ext@[q])@ == ext_at(fps(table@), sk.hsize as nat, b as nat, q as nat),
{
    let ghost tv = fps(table@);
    let ghost hsn = sk.hsize as nat;
    let hs = sk.hsize;
    let tlen = table.len();
    assert(b * hs + hs == (b + 1) * hs) by (nonlinear_arith);
    let base = b * hs;
    let mut ext: Vec<Fp> = Vec::new();
    let mut y: usize = 0;
    while y < hs
        invariant
            hs == sk.hsize,
            hsn == hs as nat,
            base == b * hs,
            base + hs <= table@.len(),
            table@.len() <= usize::MAX,
            tv == fps(table@),
            y <= hs,
            ext@.len() == y,
            forall|q: int| 0 <= q < y ==> (#[trigger] ext@[q])@ == ext_at(tv, hsn, b as nat, q as nat),
        decreases hs - y,
    {
        ext.push(table[base + y]);
        y = y + 1;
    }
    while y < sk.dsize
        invariant
            sk.wf(),
            hs == sk.hsize,
            hsn == hs as nat,
            base == b * hs,
            base + hs <= table@.len(),
            table@.len() <= usize::MAX,
            tv == fps(table@),
            hs <= y <= sk.dsize,
            ext@.len() == y,
            forall|q: int| 0 <= q < y ==> (#[trigger] ext@[q])@ == ext_at(tv, hsn, b as nat, q as nat),
        decreases sk.dsize - y,
    {
        let ghost term = ext_terms(tv, hsn, b as nat, y as nat);
        let row = &sk.lag[y - hs];
        let mut acc = Fp::zero();
        let mut h: usize = 0;
        while h < hs
            invariant
                sk.wf(),
                hs == sk.hsize,
                hsn == hs as nat,
                base == b * hs,
                base + hs <= table@.len(),
                table@.len() <= usize::MAX,
            table@.len() <= usize::MAX,
                tv == fps(table@),
                hs <= y < sk.dsize,
                row@ == sk.lag@[y - hs]@,
                h <= hs,
                term == ext_terms(tv, hsn, b as nat, y as nat),
                acc@ == fsum(term, h as nat),
            decreases hs - h,
        {
            acc = acc.add(&row[h].mul(&table[base + h]));
            h = h + 1;
        }
        ext.push(acc);
        y = y + 1;
    }
    ext
}

/// Fold the skipped variables at `r`: `g(x'') = sum_h L_h(r) f(x'' |H| + h)`.
pub fn fold_skip(tables: &[Vec<Fp>], sk: &Skip, r: Fp2) -> (g: Vec<Vec<Fp2>>)
    requires
        sk.wf(),
    ensures
        g@.len() == tables@.len(),
        forall|i: int|
            0 <= i < tables@.len() ==> (#[trigger] g@[i])@.len() == tables@[i]@.len() / (sk.hsize as nat),
        forall|i: int, c: int|
            0 <= i < tables@.len() && 0 <= c < g@[i]@.len() ==> (#[trigger] g@[i]@[c])@
                == fold_skip_value(fp_tables(tables@)[i], sk.hsize as nat, r@, c as nat),
{
    let w = sk.weights_at(r);
    let ghost t = fp_tables(tables@);
    let ghost hsn = sk.hsize as nat;
    let hs = sk.hsize;
    let mut g: Vec<Vec<Fp2>> = Vec::new();
    let mut i: usize = 0;
    while i < tables.len()
        invariant
            sk.wf(),
            hs == sk.hsize,
            hsn == hs as nat,
            t == fp_tables(tables@),
            w@.len() == hs,
            forall|h: int| 0 <= h < hs ==> (#[trigger] w@[h])@ == lagrange_ext(hsn, h as nat, r@),
            i <= tables@.len(),
            g@.len() == i,
            forall|q: int| 0 <= q < i ==> (#[trigger] g@[q])@.len() == tables@[q]@.len() / hsn,
            forall|q: int, c: int|
                0 <= q < i && 0 <= c < g@[q]@.len() ==> (#[trigger] g@[q]@[c])@
                    == fold_skip_value(t[q], hsn, r@, c as nat),
        decreases tables@.len() - i,
    {
        let tab = &tables[i];
        let chunks = tab.len() / hs;
        let mut gi: Vec<Fp2> = Vec::new();
        let mut c: usize = 0;
        while c < chunks
            invariant
                hs == sk.hsize,
                hs >= 1,
                hsn == hs as nat,
                i < tables@.len(),
                t == fp_tables(tables@),
                tab@ == tables@[i as int]@,
                chunks == tab@.len() / hsn,
                tab@.len() <= usize::MAX,
                w@.len() == hs,
                forall|h: int| 0 <= h < hs ==> (#[trigger] w@[h])@ == lagrange_ext(hsn, h as nat, r@),
                c <= chunks,
                gi@.len() == c,
                forall|q: int| 0 <= q < c ==> (#[trigger] gi@[q])@ == fold_skip_value(t[i as int], hsn, r@, q as nat),
            decreases chunks - c,
        {
            proof {
                lemma_block_fits(tab@.len(), hsn, c as nat);
            }
            let ghost term = fold_skip_terms(t[i as int], hsn, r@, c as nat);
            let mut acc = Fp2::zero();
            let mut h: usize = 0;
            while h < hs
                invariant
                    hs == sk.hsize,
                    hsn == hs as nat,
                    i < tables@.len(),
                    t == fp_tables(tables@),
                    tab@ == tables@[i as int]@,
                    c * hs + hs <= tab@.len(),
                    tab@.len() <= usize::MAX,
                    w@.len() == hs,
                    forall|h: int| 0 <= h < hs ==> (#[trigger] w@[h])@ == lagrange_ext(hsn, h as nat, r@),
                    h <= hs,
                    term == fold_skip_terms(t[i as int], hsn, r@, c as nat),
                    acc@ == esum(term, h as nat),
                decreases hs - h,
            {
                acc = acc.add(&w[h].mul_base(&tab[c * hs + h]));
                h = h + 1;
            }
            gi.push(acc);
            c = c + 1;
        }
        g.push(gi);
        i = i + 1;
    }
    g
}

/// Round message: `p(t) = sum_{x'} prod_i g_i(t, x')` at `t = 0..=d`, folding the low bit.
pub fn round_message(tables: &[Vec<Fp2>], d: usize) -> (out: Vec<Fp2>)
    requires
        tables@.len() >= 1,
        d < usize::MAX,
        forall|i: int|
            0 <= i < tables@.len() ==> 2 * (tables@[0]@.len() / 2) <= (#[trigger] tables@[i])@.len(),
    ensures
        out@.len() == d + 1,
        forall|t: int|
            0 <= t <= d ==> (#[trigger] out@[t])@ == round_value(
                fp2_tables(tables@),
                tables@[0]@.len() / 2,
                t as nat,
            ),
        d >= 1 ==> eadd(out@[0]@, out@[1]@) == eclaim(fp2_tables(tables@), 2 * (tables@[0]@.len() / 2)),
{
    let ghost g = fp2_tables(tables@);
    let half = tables[0].len() / 2;
    let mut out: Vec<Fp2> = Vec::new();
    let mut t: usize = 0;
    while t <= d
        invariant
            t <= d + 1,
            d < usize::MAX,
            out@.len() == t,
            forall|q: int| 0 <= q < t ==> (#[trigger] out@[q])@ == ezero(),
        decreases d + 1 - t,
    {
        out.push(Fp2::zero());
        t = t + 1;
    }
    let mut j: usize = 0;
    while j < half
        invariant
            g == fp2_tables(tables@),
            tables@.len() >= 1,
            half == tables@[0]@.len() / 2,
            forall|i: int| 0 <= i < tables@.len() ==> 2 * half <= (#[trigger] tables@[i])@.len(),
            d < usize::MAX,
            j <= half,
            out@.len() == d + 1,
            forall|q: int| 0 <= q <= d ==> (#[trigger] out@[q])@ == round_value(g, j as nat, q as nat),
        decreases half - j,
    {
        let mut t: usize = 0;
        while t <= d
            invariant
                g == fp2_tables(tables@),
                forall|i: int| 0 <= i < tables@.len() ==> 2 * half <= (#[trigger] tables@[i])@.len(),
                d < usize::MAX,
                j < half,
                t <= d + 1,
                out@.len() == d + 1,
                forall|q: int| 0 <= q < t ==> (#[trigger] out@[q])@ == round_value(g, (j + 1) as nat, q as nat),
                forall|q: int| t <= q <= d ==> (#[trigger] out@[q])@ == round_value(g, j as nat, q as nat),
            decreases d + 1 - t,
        {
            let tf = Fp2::from_u64(t as u64);
            let ghost line = round_lines(g, j as nat, eint(t as int));
            let mut p = Fp2::one();
            let mut i: usize = 0;
            while i < tables.len()
                invariant
                    g == fp2_tables(tables@),
                    forall|i: int| 0 <= i < tables@.len() ==> 2 * half <= (#[trigger] tables@[i])@.len(),
                    j < half,
                    i <= tables@.len(),
                    tf@ == eint(t as int),
                    line == round_lines(g, j as nat, eint(t as int)),
                    p@ == eprod(line, i as nat),
                decreases tables@.len() - i,
            {
                let gl = tables[i].len();
                assert(2 * half <= tables@[i as int]@.len());
                let lo = tables[i][2 * j];
                let hi = tables[i][2 * j + 1];
                let v = lo.add(&tf.mul(&hi.sub(&lo)));
                p = p.mul(&v);
                i = i + 1;
            }
            let v = out[t].add(&p);
            out.set(t, v);
            t = t + 1;
        }
        j = j + 1;
    }
    proof {
        assert forall|i: int, x: int|
            0 <= i < g.len() && 0 <= x < g[i].len() implies crate::ext::ecanon(#[trigger] g[i][x]) by {
            lemma_fp2_canon(tables@[i]@[x]);
        }
        lemma_round_sum(g, half as nat);
    }
    out
}

/// Fold one table at `r` on its low bit, in place.
fn fold_table_in_place(g: &mut Vec<Fp2>, r: &Fp2)
    ensures
        fp2s(final(g)@) == fold_table(fp2s(old(g)@), r@),
{
    let ghost old_g = fp2s(g@);
    let half = g.len() / 2;
    assert(2 * half <= g@.len());
    let mut j: usize = 0;
    while j < half
        invariant
            half == old_g.len() / 2,
            2 * half <= old_g.len(),
            old_g.len() <= usize::MAX,
            g@.len() == old_g.len(),
            j <= half,
            forall|q: int| 0 <= q < j ==> (#[trigger] g@[q])@ == eline(old_g[2 * q], old_g[2 * q + 1], r@),
            forall|q: int| j <= q < g@.len() ==> (#[trigger] g@[q])@ == old_g[q],
        decreases half - j,
    {
        let lo = g[2 * j];
        let hi = g[2 * j + 1];
        let v = lo.add(&r.mul(&hi.sub(&lo)));
        g.set(j, v);
        j = j + 1;
    }
    g.truncate(half);
    assert(fp2s(g@) =~= fold_table(old_g, r@));
}

/// Fold every table at `r` on its low bit.
pub fn fold_round(tables: &mut Vec<Vec<Fp2>>, r: Fp2)
    ensures
        final(tables)@.len() == old(tables)@.len(),
        forall|i: int|
            0 <= i < old(tables)@.len() ==> fp2s((#[trigger] final(tables)@[i])@) == fold_table(
                fp2s(old(tables)@[i]@),
                r@,
            ),
{
    let ghost old_t = tables@;
    let mut i: usize = 0;
    while i < tables.len()
        invariant
            tables@.len() == old_t.len(),
            i <= tables@.len(),
            forall|q: int| 0 <= q < i ==> fp2s((#[trigger] tables@[q])@) == fold_table(fp2s(old_t[q]@), r@),
            forall|q: int| i <= q < tables@.len() ==> (#[trigger] tables@[q]) == old_t[q],
        decreases tables@.len() - i,
    {
        fold_table_in_place(&mut tables[i], &r);
        i = i + 1;
    }
}

/// Evaluate at `r` the polynomial of degree `< vals.len()` given by its values
/// at `0..vals.len()` (Lagrange form).
pub fn eval_univariate(vals: &[Fp2], r: Fp2) -> (v: Fp2)
    requires
        1 <= vals@.len() <= P,
    ensures
        v@ == interpolate(fp2s(vals@), r@),
{
    let n = vals.len();
    let ghost vs = fp2s(vals@);
    let w = node_weights(n);
    let ghost term = interpolation_terms(vs, r@);
    let mut acc = Fp2::zero();
    let mut i: usize = 0;
    while i < n
        invariant
            n == vals@.len(),
            vs == fp2s(vals@),
            w@.len() == n,
            forall|q: int| 0 <= q < n ==> (#[trigger] w@[q])@ == bary_weight(n as nat, q as nat),
            term == interpolation_terms(vs, r@),
            i <= n,
            acc@ == esum(term, i as nat),
        decreases n - i,
    {
        let ghost fac = enode_factor(i as nat, r@);
        let mut num = Fp2::one();
        let mut j: usize = 0;
        while j < n
            invariant
                j <= n,
                fac == enode_factor(i as nat, r@),
                num@ == eprod(fac, j as nat),
            decreases n - j,
        {
            if j != i {
                num = num.mul(&r.sub(&Fp2::from_u64(j as u64)));
            } else {
                proof {
                    crate::ext::lemma_emul_laws(num@, eone(), eone());
                }
            }
            j = j + 1;
        }
        acc = acc.add(&vals[i].mul(&num).mul_base(&w[i]));
        i = i + 1;
    }
    acc
}

/// The entries `f(b |H| + y)` of block `b`, as a function of `y`.
pub open spec fn block_of(f: spec_fn(nat) -> nat, hs: nat, b: nat) -> spec_fn(nat) -> nat {
    |y: nat| f(b * hs + y)
}

/// The sum of block `b`, as a function of `b`.
pub open spec fn block_sums(f: spec_fn(nat) -> nat, hs: nat) -> spec_fn(nat) -> nat {
    |b: nat| fsum(block_of(f, hs, b), hs)
}

/// A sum over `nb` blocks of `hs` entries is the sum of the block sums.
pub proof fn lemma_fsum_blocks(f: spec_fn(nat) -> nat, hs: nat, nb: nat)
    ensures
        fsum(f, nb * hs) == fsum(block_sums(f, hs), nb),
    decreases nb,
{
    if nb > 0 {
        let k = (nb - 1) as nat;
        lemma_fsum_blocks(f, hs, k);
        assert(nb * hs == k * hs + hs) by (nonlinear_arith)
            requires
                k == nb - 1,
        ;
        crate::sums::lemma_fsum_split(f, k * hs, hs);
        crate::sums::lemma_fsum_ext(|h: nat| f(k * hs + h), block_of(f, hs, k), hs);
    }
}

/// `prod_i f~_i(y, b)` as a function of `y`.
pub open spec fn block_row(t: Seq<Seq<nat>>, hs: nat, b: nat) -> spec_fn(nat) -> nat {
    |y: nat| fprod(block_factors(t, hs, b, y), t.len())
}

/// The skip message over `H` as a function.
pub open spec fn skip_on_h(t: Seq<Seq<nat>>, hs: nat, nb: nat) -> spec_fn(nat) -> nat {
    |y: nat| skip_value(t, hs, nb, y)
}

/// The skip message sums over `H` to the claim of the tables over the blocks.
pub proof fn lemma_skip_sums_to_claim(t: Seq<Seq<nat>>, hs: nat, nb: nat)
    requires
        hs >= 1,
        forall|i: int| 0 <= i < t.len() ==> (#[trigger] t[i]).len() >= nb * hs,
    ensures
        fsum(skip_on_h(t, hs, nb), hs) == claim_spec(t, nb * hs),
{
    let f = |b: nat, y: nat| fprod(block_factors(t, hs, b, y), t.len());
    crate::sums::lemma_fsum_swap(f, nb, hs);
    assert forall|y: nat| y < hs implies #[trigger] skip_on_h(t, hs, nb)(y) == fsum(
        |b: nat| f(b, y),
        nb,
    ) by {
        crate::sums::lemma_fsum_ext(block_terms(t, hs, y), |b: nat| f(b, y), nb);
    }
    crate::sums::lemma_fsum_ext(skip_on_h(t, hs, nb), |y: nat| fsum(|b: nat| f(b, y), nb), hs);
    assert forall|b: nat| b < nb implies #[trigger] block_sums(column_products(t), hs)(b) == fsum(
        |j: nat| f(b, j),
        hs,
    ) by {
        crate::sums::lemma_fsum_ext(|j: nat| f(b, j), block_row(t, hs, b), hs);
        assert forall|y: nat| y < hs implies #[trigger] block_row(t, hs, b)(y) == block_of(
            column_products(t),
            hs,
            b,
        )(y) by {
            crate::sums::lemma_fprod_ext(block_factors(t, hs, b, y), column(t, b * hs + y), t.len());
        }
        crate::sums::lemma_fsum_ext(block_row(t, hs, b), block_of(column_products(t), hs, b), hs);
    }
    crate::sums::lemma_fsum_ext(|i: nat| fsum(|j: nat| f(i, j), hs), block_sums(column_products(t), hs), nb);
    lemma_fsum_blocks(column_products(t), hs, nb);
}

/// The entries at index `x` of extension tables, as a function of the table index.
pub open spec fn ecolumn(g: Seq<Seq<Ext>>, x: nat) -> spec_fn(nat) -> Ext {
    |i: nat| g[i as int][x as int]
}

/// `prod_i g_i[x]`, as a function of `x`.
pub open spec fn ecolumn_products(g: Seq<Seq<Ext>>) -> spec_fn(nat) -> Ext {
    |x: nat| eprod(ecolumn(g, x), g.len())
}

/// `sum_{x < n} prod_i g_i[x]`: the claim of extension tables over their first `n` entries.
pub open spec fn eclaim(g: Seq<Seq<Ext>>, n: nat) -> Ext {
    esum(ecolumn_products(g), n)
}

/// Every entry of the tables is canonical.
pub open spec fn ecanon_tables(g: Seq<Seq<Ext>>) -> bool {
    forall|i: int, x: int| 0 <= i < g.len() && 0 <= x < g[i].len() ==> crate::ext::ecanon(#[trigger] g[i][x])
}

/// The line through `lo` and `hi` is `lo` at 0 and `hi` at 1.
pub proof fn lemma_eline_ends(lo: Ext, hi: Ext)
    requires
        crate::ext::ecanon(lo),
        crate::ext::ecanon(hi),
    ensures
        eline(lo, hi, eint(0)) == lo,
        eline(lo, hi, eint(1)) == hi,
{
    crate::field::lemma_modp_bound(0);
    crate::field::lemma_modp_bound(1);
    crate::field::lemma_modp_bound(lo.0 as int);
    crate::field::lemma_modp_bound(lo.1 as int);
    let z = esub(hi, lo);
    crate::field::lemma_modp_bound(hi.0 - lo.0);
    crate::field::lemma_modp_bound(hi.1 - lo.1);
    assert(emul(eint(0), z) == ezero());
    assert(emul(eint(1), z) == z) by {
        crate::field::lemma_modp_bound(z.0 as int);
        crate::field::lemma_modp_bound(z.1 as int);
    }
    let p = P as int;
    vstd::arithmetic::div_mod::lemma_add_mod_noop_right(lo.0 as int, hi.0 - lo.0, p);
    vstd::arithmetic::div_mod::lemma_add_mod_noop_right(lo.1 as int, hi.1 - lo.1, p);
    vstd::arithmetic::div_mod::lemma_small_mod(hi.0, P as nat);
    vstd::arithmetic::div_mod::lemma_small_mod(hi.1, P as nat);
}

/// A sum over `2h` entries is the sum of the pairs.
pub proof fn lemma_esum_pairs(f: spec_fn(nat) -> Ext, h: nat)
    ensures
        esum(f, 2 * h) == esum(|j: nat| eadd(f(2 * j), f(2 * j + 1)), h),
    decreases h,
{
    if h > 0 {
        let k = (h - 1) as nat;
        lemma_esum_pairs(f, k);
        let a = esum(f, 2 * k);
        assert(esum(f, (2 * k + 1) as nat) == eadd(a, f(2 * k)));
        assert(esum(f, 2 * h) == eadd(eadd(a, f(2 * k)), f(2 * k + 1)));
        crate::sums::lemma_eadd_laws(a, f(2 * k), f(2 * k + 1));
    }
}

/// The round message at 0 and at 1 adds up to the claim of the tables.
pub proof fn lemma_round_sum(g: Seq<Seq<Ext>>, half: nat)
    requires
        ecanon_tables(g),
        forall|i: int| 0 <= i < g.len() ==> (#[trigger] g[i]).len() >= 2 * half,
    ensures
        eadd(round_value(g, half, 0), round_value(g, half, 1)) == eclaim(g, 2 * half),
{
    let f0 = round_terms(g, eint(0));
    let f1 = round_terms(g, eint(1));
    let cp = ecolumn_products(g);
    crate::sums::lemma_esum_add(f0, f1, half);
    lemma_esum_pairs(cp, half);
    assert forall|j: nat| j < half implies #[trigger] f0(j) == cp(2 * j) && f1(j) == cp(2 * j + 1) by {
        assert forall|i: nat| i < g.len() implies #[trigger] round_lines(g, j, eint(0))(i) == ecolumn(g, 2 * j)(i) by {
            lemma_eline_ends(g[i as int][(2 * j) as int], g[i as int][(2 * j + 1) as int]);
        }
        assert forall|i: nat| i < g.len() implies #[trigger] round_lines(g, j, eint(1))(i) == ecolumn(g, 2 * j + 1)(i) by {
            lemma_eline_ends(g[i as int][(2 * j) as int], g[i as int][(2 * j + 1) as int]);
        }
        crate::sums::lemma_eprod_ext(round_lines(g, j, eint(0)), ecolumn(g, 2 * j), g.len());
        crate::sums::lemma_eprod_ext(round_lines(g, j, eint(1)), ecolumn(g, 2 * j + 1), g.len());
    }
    crate::sums::lemma_esum_ext(|i: nat| eadd(f0(i), f1(i)), |j: nat| eadd(cp(2 * j), cp(2 * j + 1)), half);
}

} // verus!
