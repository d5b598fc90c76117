//! Precomputed data for skipping `k` variables with a degree-`d` product:
//! the nodes `H = {0, .., 2^k - 1}` and `D = {0, .., d (2^k - 1)}`, the Lagrange
//! basis of `H` evaluated on `D \ H`, and the barycentric weights of `D` and `H`.
use crate::ext::{eadd, einv, emul, eint, eone, escale, esub, ezero, lemma_fp2_canon, Ext, Fp2};
use crate::field::{finv, fmul, is_inverse, lemma_finv, lemma_fmul_laws, lemma_fp_view_bound, lemma_inverse_mul, lemma_inverse_neg, lemma_modp_bound, modp, Fp, P};
use crate::bary::lemma_eval_on_d_interpolates;
use crate::rounds::interpolate;
use crate::sums::{eprod, fprod};
use vstd::arithmetic::power2::{lemma2_to64_rest, lemma_pow2_pos, lemma_pow2_strictly_increases, pow2};
use vstd::bits::{lemma_usize_pow2_no_overflow, lemma_usize_shl_is_mul};
use vstd::prelude::*;

verus! {

broadcast use {lemma_fp_view_bound, lemma_fp2_canon};

/// The factors `x - j` for `j != h`, and 1 at `j == h`.
pub open spec fn node_factor(h: nat, x: int) -> spec_fn(nat) -> nat {
    |j: nat| if j == h { 1 } else { modp(x - j) }
}

/// `prod_{j < n, j != h} (x - j)` in GF(P).
pub open spec fn node_prod(n: nat, h: nat, x: int) -> nat {
    fprod(node_factor(h, x), n)
}

/// The barycentric weight `1 / prod_{j < n, j != i} (i - j)` of node `i` among `0..n`.
pub open spec fn bary_weight(n: nat, i: nat) -> nat {
    finv(node_prod(n, i, i as int))
}

/// The Lagrange basis polynomial of node `h` over the nodes `0..n`, at `x`.
pub open spec fn lagrange_at(n: nat, h: nat, x: int) -> nat {
    fmul(node_prod(n, h, x), bary_weight(n, h))
}

/// The factors `r - j` for `j != h`, and 1 at `j == h`, in GF(P^2).
pub open spec fn enode_factor(h: nat, r: Ext) -> spec_fn(nat) -> Ext {
    |j: nat| if j == h { eone() } else { esub(r, eint(j as int)) }
}

/// `prod_{j < n, j != h} (r - j)` in GF(P^2).
pub open spec fn enode_prod(n: nat, h: nat, r: Ext) -> Ext {
    eprod(enode_factor(h, r), n)
}

/// The Lagrange basis polynomial of node `h` over the nodes `0..n`, at an extension point.
pub open spec fn lagrange_ext(n: nat, h: nat, r: Ext) -> Ext {
    escale(enode_prod(n, h, r), bary_weight(n, h))
}

/// The running sums `(sum t_m v_m, sum t_m)` over `m < i` of the barycentric
/// evaluation, with `t_m = bary_m / (r - m)`.
pub open spec fn bary_sums(vals: Seq<Ext>, bary: Seq<nat>, r: Ext, i: nat) -> (Ext, Ext)
    decreases i,
{
    if i == 0 {
        (ezero(), ezero())
    } else {
        let m = (i - 1) as nat;
        let (num, den) = bary_sums(vals, bary, r, m);
        let t = escale(einv(esub(r, eint(m as int))), bary[m as int]);
        (eadd(num, emul(t, vals[m as int])), eadd(den, t))
    }
}

/// `r` is the node `i` of `0..n`.
pub open spec fn is_node(r: Ext, n: nat) -> bool {
    r.1 == 0 && r.0 < n
}

/// The barycentric evaluation at `r` of the values `vals` on the nodes `0..vals.len()`:
/// the value at the node if `r` is one, else `num / den`.
pub open spec fn eval_on_d_spec(vals: Seq<Ext>, bary: Seq<nat>, r: Ext) -> Ext {
    if is_node(r, vals.len()) {
        vals[r.0 as int]
    } else {
        let (num, den) = bary_sums(vals, bary, r, vals.len());
        emul(num, einv(den))
    }
}

/// The barycentric evaluation does not divide by zero.
pub open spec fn eval_on_d_defined(vals: Seq<Ext>, bary: Seq<nat>, r: Ext) -> bool {
    is_node(r, vals.len()) || bary_sums(vals, bary, r, vals.len()).1 != ezero()
}

/// Sizes for which `Skip::new(k, d)` runs: `2^k` fits a `usize`, and
/// `d (2^k - 1) + 1` fits a `usize` and does not exceed P (so the nodes are distinct).
pub open spec fn skip_sizes_ok(k: usize, d: usize) -> bool {
    &&& k < usize::BITS
    &&& d * (pow2(k as nat) - 1) + 1 <= usize::MAX
    &&& d * (pow2(k as nat) - 1) + 1 <= P
}

/// Precomputed data for the univariate skip.
pub struct Skip {
    /// `|H| = 2^k`.
    pub hsize: usize,
    /// `|D| = d (2^k - 1) + 1`.
    pub dsize: usize,
    /// `lag[y][h] = L_h^H(|H| + y)` for `|H| + y` in `D \ H`, `h` in `H`.
    pub lag: Vec<Vec<Fp>>,
    /// The barycentric weights over `D`.
    pub bary: Vec<Fp>,
    /// The barycentric weights over `H`.
    pub hweights: Vec<Fp>,
}

/// The values of a sequence of base-field elements.
pub open spec fn fps(xs: Seq<Fp>) -> Seq<nat> {
    xs.map_values(|x: Fp| x@)
}

impl Skip {
    /// The tables hold what their names say.
    pub open spec fn wf(&self) -> bool {
        &&& 1 <= self.hsize <= P
        &&& 1 <= self.dsize <= P
        &&& self.hweights@.len() == self.hsize
        &&& forall|h: int|
            0 <= h < self.hsize ==> (#[trigger] self.hweights@[h])@ == bary_weight(
                self.hsize as nat,
                h as nat,
            ) && is_inverse(node_prod(self.hsize as nat, h as nat, h), self.hweights@[h]@)
        &&& self.bary@.len() == self.dsize
        &&& forall|i: int|
            0 <= i < self.dsize ==> (#[trigger] self.bary@[i])@ == bary_weight(
                self.dsize as nat,
                i as nat,
            ) && is_inverse(node_prod(self.dsize as nat, i as nat, i), self.bary@[i]@)
        &&& self.lag@.len() == (if self.dsize > self.hsize {
            self.dsize - self.hsize
        } else {
            0
        })
        &&& forall|y: int|
            0 <= y < self.lag@.len() ==> (#[trigger] self.lag@[y])@.len() == self.hsize
        &&& forall|y: int, h: int|
            0 <= y < self.lag@.len() && 0 <= h < self.hsize ==> (#[trigger] self.lag@[y]@[h])@
                == lagrange_at(self.hsize as nat, h as nat, self.hsize + y)
    }
}

pub proof fn lemma_fprod_bound(f: spec_fn(nat) -> nat, n: nat)
    ensures
        fprod(f, n) < P,
{
    if n == 0 {
    } else {
        lemma_modp_bound((fprod(f, (n - 1) as nat) * f((n - 1) as nat)) as int);
    }
}

/// The inverses of `1..n` (index `m` holds the inverse of `m`; index 0 holds 0).
fn small_inverses(n: usize) -> (inv: Vec<Fp>)
    requires
        1 <= n <= P,
    ensures
        inv@.len() == n,
        forall|m: int| 1 <= m < n ==> is_inverse(m as nat, (#[trigger] inv@[m])@),
{
    let mut inv: Vec<Fp> = Vec::new();
    inv.push(Fp::zero());
    let mut m: usize = 1;
    while m < n
        invariant
            1 <= m <= n,
            n <= P,
            inv@.len() == m,
            forall|q: int| 1 <= q < m ==> is_inverse(q as nat, (#[trigger] inv@[q])@),
        decreases n - m,
    {
        let x = Fp::from_u64(m as u64);
        proof {
            lemma_modp_bound(m as int);
        }
        inv.push(x.inverse());
        m = m + 1;
    }
    inv
}

/// The barycentric weights `1 / prod_{j != i} (i - j)` of the nodes `0..n`.
pub fn node_weights(n: usize) -> (w: Vec<Fp>)
    requires
        1 <= n <= P,
    ensures
        w@.len() == n,
        forall|i: int|
            0 <= i < n ==> (#[trigger] w@[i])@ == bary_weight(n as nat, i as nat) && is_inverse(
                node_prod(n as nat, i as nat, i),
                w@[i]@,
            ),
{
    let inv = small_inverses(n);
    let mut w: Vec<Fp> = Vec::new();
    let mut i: usize = 0;
    while i < n
        invariant
            i <= n,
            n <= P,
            inv@.len() == n,
            forall|m: int| 1 <= m < n ==> is_inverse(m as nat, (#[trigger] inv@[m])@),
            w@.len() == i,
            forall|q: int|
                0 <= q < i ==> (#[trigger] w@[q])@ == bary_weight(n as nat, q as nat)
                    && is_inverse(node_prod(n as nat, q as nat, q), w@[q]@),
        decreases n - i,
    {
        let ghost fac = node_factor(i as nat, i as int);
        let mut acc = Fp::one();
        let mut j: usize = 0;
        proof {
            lemma_modp_bound(1);
        }
        while j < n
            invariant
                j <= n,
                i < n,
                n <= P,
                inv@.len() == n,
                forall|m: int| 1 <= m < n ==> is_inverse(m as nat, (#[trigger] inv@[m])@),
                fac == node_factor(i as nat, i as int),
                is_inverse(fprod(fac, j as nat), acc@),
            decreases n - j,
        {
            let ghost before = fprod(fac, j as nat);
            proof {
                lemma_fprod_bound(fac, j as nat);
            }
            if j != i {
                let f = if j < i {
                    inv[i - j]
                } else {
                    inv[j - i].neg()
                };
                proof {
                    if j < i {
                        lemma_modp_bound(i - j);
                        lemma_inverse_mul(before, modp(i - j), acc@, f@);
                    } else {
                        lemma_inverse_neg((j - i) as nat, inv@[j - i]@);
                        assert(modp(-((j - i) as int)) == modp(i - j));
                        lemma_inverse_mul(before, modp(i - j), acc@, f@);
                    }
                }
                acc = acc.mul(&f);
            } else {
                proof {
                    lemma_fmul_laws(before, 1, 0);
                    lemma_modp_bound(before as int);
                }
            }
            j = j + 1;
        }
        proof {
            lemma_finv(node_prod(n as nat, i as nat, i as int), acc@);
        }
        w.push(acc);
        i = i + 1;
    }
    w
}

impl Skip {
    /// The data for `k` skipped variables and products of degree `d`.
    pub fn new(k: usize, d: usize) -> (sk: Skip)
        requires
            skip_sizes_ok(k, d),
        ensures
            sk.wf(),
            sk.hsize == pow2(k as nat),
            sk.dsize == d * (pow2(k as nat) - 1) + 1,
    {
        proof {
            lemma_usize_pow2_no_overflow(k as nat);
            lemma_usize_shl_is_mul(1, k);
            lemma_pow2_pos(k as nat);
        }
        let hsize: usize = 1usize << k;
        let dsize: usize = d * (hsize - 1) + 1;
        assert(hsize <= dsize || d == 0) by (nonlinear_arith)
            requires
                hsize >= 1,
                dsize == d * (hsize - 1) + 1,
        ;
        assert(hsize <= P) by {
            if d == 0 {
                assert(hsize <= usize::MAX);
                assert(hsize < P) by {
                    if k < 63 {
                        lemma_pow2_strictly_increases(k as nat, 63);
                    }
                    lemma2_to64_rest();
                }
            }
        }
        let hweights = node_weights(hsize);
        let bary = node_weights(dsize);
        let mut lag: Vec<Vec<Fp>> = Vec::new();
        let mut y: usize = hsize;
        while y < dsize
            invariant
                1 <= hsize <= P,
                dsize <= P,
                hsize <= y,
                y <= dsize || y == hsize,
                lag@.len() == y - hsize,
                hweights@.len() == hsize,
                forall|h: int|
                    0 <= h < hsize ==> (#[trigger] hweights@[h])@ == bary_weight(
                        hsize as nat,
                        h as nat,
                    ) && is_inverse(node_prod(hsize as nat, h as nat, h), hweights@[h]@),
                forall|q: int| 0 <= q < lag@.len() ==> (#[trigger] lag@[q])@.len() == hsize,
                forall|q: int, h: int|
                    0 <= q < lag@.len() && 0 <= h < hsize ==> (#[trigger] lag@[q]@[h])@
                        == lagrange_at(hsize as nat, h as nat, hsize + q),
            decreases dsize - y,
        {
            let row = lagrange_row(hsize, y, &hweights);
            lag.push(row);
            y = y + 1;
        }
        Skip { hsize, dsize, lag, bary, hweights }
    }

    /// Lagrange weights `L_h^H(r)` for `h` in `H` at an extension point `r`.
    pub fn weights_at(&self, r: Fp2) -> (w: Vec<Fp2>)
        requires
            self.wf(),
        ensures
            w@.len() == self.hsize,
            forall|h: int|
                0 <= h < self.hsize ==> (#[trigger] w@[h])@ == lagrange_ext(
                    self.hsize as nat,
                    h as nat,
                    r@,
                ),
    {
        let mut w: Vec<Fp2> = Vec::new();
        let mut h: usize = 0;
        while h < self.hsize
            invariant
                self.wf(),
                h <= self.hsize,
                w@.len() == h,
                forall|q: int|
                    0 <= q < h ==> (#[trigger] w@[q])@ == lagrange_ext(
                        self.hsize as nat,
                        q as nat,
                        r@,
                    ),
            decreases self.hsize - h,
        {
            let ghost fac = enode_factor(h as nat, r@);
            let mut num = Fp2::one();
            let mut j: usize = 0;
            while j < self.hsize
                invariant
                    j <= self.hsize,
                    fac == enode_factor(h as nat, r@),
                    num@ == eprod(fac, j as nat),
                decreases self.hsize - j,
            {
                if j != h {
                    num = num.mul(&r.sub(&Fp2::from_u64(j as u64)));
                } else {
                    proof {
                        crate::ext::lemma_emul_laws(num@, eone(), eone());
                    }
                }
                j = j + 1;
            }
            w.push(num.mul_base(&self.hweights[h]));
            h = h + 1;
        }
        w
    }

    /// Evaluate the polynomial of degree `< |D|` given by its values on `D` at `r`
    /// (barycentric form). `None` exactly where the barycentric denominator is zero.
    pub fn try_eval_on_d(&self, vals: &[Fp2], r: Fp2) -> (v: Option<Fp2>)
        requires
            self.wf(),
            vals@.len() <= self.dsize,
        ensures
            v is Some <==> eval_on_d_defined(fp2s(vals@), fps(self.bary@), r@),
            v matches Some(x) ==> x@ == eval_on_d_spec(fp2s(vals@), fps(self.bary@), r@),
            vals@.len() == self.dsize ==> (v matches Some(x) && x@ == interpolate(fp2s(vals@), r@)),
    {
        let ghost vs = fp2s(vals@);
        let ghost bs = fps(self.bary@);
        proof {
            if vals@.len() == self.dsize {
                assert forall|m: int| 0 <= m < vs.len() implies crate::ext::ecanon(#[trigger] vs[m]) by {
                    lemma_fp2_canon(vals@[m]);
                }
                lemma_fp2_canon(r);
                lemma_eval_on_d_interpolates(vs, bs, r@);
            }
        }
        let mut num = Fp2::zero();
        let mut den = Fp2::zero();
        let mut i: usize = 0;
        while i < vals.len()
            invariant
                self.wf(),
                vals@.len() <= self.dsize,
                i <= vals@.len(),
                vs == fp2s(vals@),
                bs == fps(self.bary@),
                !is_node(r@, i as nat),
                (num@, den@) == bary_sums(vs, bs, r@, i as nat),
                vals@.len() == self.dsize ==> eval_on_d_defined(vs, bs, r@) && eval_on_d_spec(vs, bs, r@)
                    == interpolate(vs, r@),
            decreases vals@.len() - i,
        {
            let diff = r.sub(&Fp2::from_u64(i as u64));
            proof {
                lemma_fp2_canon(r);
                lemma_node_diff(r@, i as nat);
            }
            if diff.is_zero() {
                return Some(vals[i]);
            }
            let t = diff.inverse().mul_base(&self.bary[i]);
            num = num.add(&t.mul(&vals[i]));
            den = den.add(&t);
            i = i + 1;
        }
        if den.is_zero() {
            return None;
        }
        Some(num.mul(&den.inverse()))
    }

    /// Evaluate the polynomial of degree `< |D|` given by its values on `D` at `r`
    /// (barycentric form): on all of `D` this is Lagrange interpolation.
    pub fn eval_on_d(&self, vals: &[Fp2], r: Fp2) -> (v: Fp2)
        requires
            self.wf(),
            vals@.len() <= self.dsize,
            vals@.len() == self.dsize || eval_on_d_defined(fp2s(vals@), fps(self.bary@), r@),
        ensures
            v@ == eval_on_d_spec(fp2s(vals@), fps(self.bary@), r@),
            vals@.len() == self.dsize ==> v@ == interpolate(fp2s(vals@), r@),
    {
        match self.try_eval_on_d(vals, r) {
            Some(v) => v,
            None => {
                proof {
                    assert(false);
                }
                Fp2::zero()
            },
        }
    }
}

/// The values of a sequence of extension elements.
pub open spec fn fp2s(xs: Seq<Fp2>) -> Seq<Ext> {
    xs.map_values(|x: Fp2| x@)
}

/// `r - i` is zero exactly when `r` is the node `i`.
proof fn lemma_node_diff(r: Ext, i: nat)
    requires
        r.0 < P,
        r.1 < P,
        i < P,
    ensures
        (esub(r, eint(i as int)) == ezero()) == (r.1 == 0 && r.0 == i),
{
    lemma_modp_bound(i as int);
    lemma_modp_bound(r.0 - i);
    lemma_modp_bound(r.1 - 0);
    if r.0 != i {
        assert(modp(r.0 - i) != 0) by {
            if r.0 > i {
                lemma_modp_bound(r.0 - i);
            } else {
                assert(modp(r.0 - i) == r.0 - i + P) by {
                    vstd::arithmetic::div_mod::lemma_mod_add_multiples_vanish(r.0 - i, P as int);
                    lemma_modp_bound(r.0 - i + P);
                }
            }
        }
    }
}

/// The row `L_h^H(y)` for `h` in `H`.
fn lagrange_row(hsize: usize, y: usize, hweights: &Vec<Fp>) -> (row: Vec<Fp>)
    requires
        1 <= hsize <= P,
        y < P,
        hweights@.len() == hsize,
        forall|h: int|
            0 <= h < hsize ==> (#[trigger] hweights@[h])@ == bary_weight(hsize as nat, h as nat),
    ensures
        row@.len() == hsize,
        forall|h: int|
            0 <= h < hsize ==> (#[trigger] row@[h])@ == lagrange_at(hsize as nat, h as nat, y as int),
{
    let mut row: Vec<Fp> = Vec::new();
    let mut h: usize = 0;
    while h < hsize
        invariant
            h <= hsize,
            hsize <= P,
            y < P,
            hweights@.len() == hsize,
            forall|q: int|
                0 <= q < hsize ==> (#[trigger] hweights@[q])@ == bary_weight(
                    hsize as nat,
                    q as nat,
                ),
            row@.len() == h,
            forall|q: int|
                0 <= q < h ==> (#[trigger] row@[q])@ == lagrange_at(hsize as nat, q as nat, y as int),
        decreases hsize - h,
    {
        let ghost fac = node_factor(h as nat, y as int);
        let py = Fp::from_u64(y as u64);
        let mut num = Fp::one();
        let mut j: usize = 0;
        while j < hsize
            invariant
                j <= hsize,
                hsize <= P,
                y < P,
                py@ == modp(y as int),
                fac == node_factor(h as nat, y as int),
                num@ == fprod(fac, j as nat),
            decreases hsize - j,
        {
            proof {
                lemma_fprod_bound(fac, j as nat);
            }
            if j != h {
                let pj = Fp::from_u64(j as u64);
                proof {
                    lemma_modp_bound(y as int);
                    lemma_modp_bound(j as int);
                    vstd::arithmetic::div_mod::lemma_sub_mod_noop(y as int, j as int, P as int);
                }
                num = num.mul(&py.sub(&pj));
            } else {
                proof {
                    lemma_fmul_laws(num@, 1, 0);
                    lemma_modp_bound(num@ as int);
                }
            }
            j = j + 1;
        }
        row.push(num.mul(&hweights[h]));
        h = h + 1;
    }
    row
}

} // verus!
