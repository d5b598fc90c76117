//! An honest proof passes the verifier: the skip message sums to the claim,
//! each round message is consistent with the running claim, and after the last
//! fold the verifier's own evaluation of each table is the prover's final value.
use crate::units::lemma_ext_is_field;
use crate::algebra::{lemma_edistrib, lemma_esum_scale};
use crate::ext::{eadd, ecanon, emul, eone, esub, ezero, lemma_emul_laws, Ext};
use crate::field::{lemma_modp_bound, P};
use crate::msgpoly::{lemma_round_message_at, lemma_skip_message_at, table_canon};
use crate::protocol::{
    fold_skip_tables, fold_tables, prove_tail_spec, round_message_spec, seeded_state,
    skip_message_spec, tail_rounds, two_adicity,
};
use crate::rounds::{
    claim_spec, ecanon_tables, eclaim, ecolumn, ecolumn_products, eline, fold_skip_terms,
    fold_skip_value, interpolate, lemma_round_sum, lemma_skip_sums_to_claim, num_blocks, round_value,
    skip_on_h,
};
use crate::skip::{lagrange_ext, Skip};
use crate::sums::{
    eprod, esum, fsum, lemma_eadd_laws, lemma_eprod_ext, lemma_esum_canon, lemma_esum_ext,
    lemma_esum_split,
};
use crate::transcript::{challenge_spec, exts_bytes, ro_state, transcript_init};
use crate::verify::{
    eq_table, msg_skip_sum, oracle_inner_terms, oracle_run, oracle_terms, oracle_value,
    rounds_run, seq_fn, skip_in_ext, verify_spec, RoundsState, Verdict,
};
use vstd::arithmetic::div_mod::lemma_add_mod_noop;
use vstd::arithmetic::power2::pow2;
use vstd::prelude::*;

verus! {

/// `(a - b) + c == a + (c - b)`.
proof fn lemma_add_sub_swap(a: Ext, b: Ext, c: Ext)
    requires
        ecanon(a),
        ecanon(b),
        ecanon(c),
    ensures
        eadd(esub(a, b), c) == eadd(a, esub(c, b)),
{
    let p = P as int;
    lemma_add_mod_noop(a.0 - b.0, c.0 as int, p);
    lemma_add_mod_noop(a.0 as int, c.0 - b.0, p);
    lemma_add_mod_noop(a.1 - b.1, c.1 as int, p);
    lemma_add_mod_noop(a.1 as int, c.1 - b.1, p);
    vstd::arithmetic::div_mod::lemma_mod_twice(a.0 - b.0, p);
    vstd::arithmetic::div_mod::lemma_mod_twice(c.0 - b.0, p);
    vstd::arithmetic::div_mod::lemma_mod_twice(a.1 - b.1, p);
    vstd::arithmetic::div_mod::lemma_mod_twice(c.1 - b.1, p);
    vstd::arithmetic::div_mod::lemma_small_mod(a.0, P as nat);
    vstd::arithmetic::div_mod::lemma_small_mod(a.1, P as nat);
    vstd::arithmetic::div_mod::lemma_small_mod(c.0, P as nat);
    vstd::arithmetic::div_mod::lemma_small_mod(c.1, P as nat);
    assert(a.0 - b.0 + c.0 == a.0 + (c.0 - b.0));
    assert(a.1 - b.1 + c.1 == a.1 + (c.1 - b.1));
}

/// The line through `lo` and `hi` at `r` is `(1 - r) lo + r hi`.
pub proof fn lemma_eline_affine(lo: Ext, hi: Ext, r: Ext)
    requires
        ecanon(lo),
        ecanon(hi),
        ecanon(r),
    ensures
        eline(lo, hi, r) == eadd(emul(esub(eone(), r), lo), emul(r, hi)),
{
    // (1 - r) lo == lo - r lo
    lemma_edistrib(lo, eone(), r);
    lemma_emul_laws(lo, eone(), eone());
    lemma_emul_laws(esub(eone(), r), lo, lo);
    lemma_emul_laws(lo, r, r);
    // r (hi - lo) == r hi - r lo
    lemma_edistrib(r, hi, lo);
    let (rl, rh) = (emul(r, lo), emul(r, hi));
    lemma_modp_bound(rl.0 as int);
    lemma_modp_bound(rl.1 as int);
    lemma_modp_bound(rh.0 as int);
    lemma_modp_bound(rh.1 as int);
    lemma_add_sub_swap(lo, rl, rh);
}

/// `sum_{b < |eq|} eq[b] g[c |eq| + b]`: entry `c` of a table folded with the weights `eq`.
pub open spec fn fold_sum(g: Seq<Ext>, eq: Seq<Ext>, c: nat) -> Ext {
    esum(|b: nat| emul(eq[b as int], g[(c * eq.len() + b) as int]), eq.len())
}

/// The weights after one more fold at `r` on the next bit.
pub open spec fn eq_next(eq: Seq<Ext>, r: Ext) -> Seq<Ext> {
    eq.map_values(|e: Ext| emul(e, esub(eone(), r))) + eq.map_values(|e: Ext| emul(e, r))
}

/// Folding the entries `2c` and `2c + 1` of a folded table at `r` folds the
/// original table once more.
proof fn lemma_fold_sum_step(g: Seq<Ext>, eq: Seq<Ext>, r: Ext, c: nat)
    requires
        ecanon(r),
    ensures
        eline(fold_sum(g, eq, 2 * c), fold_sum(g, eq, 2 * c + 1), r) == fold_sum(g, eq_next(eq, r), c),
{
    let n = eq.len();
    let e2 = eq_next(eq, r);
    let s = esub(eone(), r);
    let lo_t = |b: nat| emul(eq[b as int], g[(2 * c * n + b) as int]);
    let hi_t = |b: nat| emul(eq[b as int], g[((2 * c + 1) * n + b) as int]);
    let lo = fold_sum(g, eq, 2 * c);
    let hi = fold_sum(g, eq, 2 * c + 1);
    lemma_esum_ext(|b: nat| emul(eq[b as int], g[((2 * c) * eq.len() + b) as int]), lo_t, n);
    lemma_esum_ext(|b: nat| emul(eq[b as int], g[((2 * c + 1) * eq.len() + b) as int]), hi_t, n);
    lemma_esum_canon(lo_t, n);
    lemma_esum_canon(hi_t, n);
    lemma_modp_bound(1 - r.0);
    lemma_modp_bound(0 - r.1);
    lemma_eline_affine(lo, hi, r);
    lemma_esum_scale(s, lo_t, n);
    lemma_esum_scale(r, hi_t, n);
    // the sum over 2n weights, split in halves
    let f = |b: nat| emul(e2[b as int], g[(c * e2.len() + b) as int]);
    assert(e2.len() == 2 * n);
    lemma_esum_split(f, n, n);
    assert forall|b: nat| b < n implies #[trigger] f(b) == emul(s, lo_t(b)) by {
        let (x, y) = (eq[b as int], g[(2 * c * n + b) as int]);
        assert(c * (2 * n) == 2 * c * n) by (nonlinear_arith);
        lemma_emul_laws(x, s, y);
        lemma_emul_laws(s, x, y);
        lemma_emul_laws(x, s, s);
    }
    let fh = |h: nat| f(n + h);
    assert forall|b: nat| b < n implies #[trigger] fh(b) == emul(r, hi_t(b)) by {
        let (x, y) = (eq[b as int], g[((2 * c + 1) * n + b) as int]);
        assert(c * (2 * n) + (n + b) == (2 * c + 1) * n + b) by (nonlinear_arith);
        assert(e2[(n + b) as int] == emul(x, r));
        lemma_emul_laws(x, r, y);
        lemma_emul_laws(r, x, y);
        lemma_emul_laws(x, r, r);
    }
    lemma_esum_ext(f, |b: nat| emul(s, lo_t(b)), n);
    lemma_esum_ext(fh, |b: nat| emul(r, hi_t(b)), n);
    lemma_esum_ext(|b: nat| emul(e2[b as int], g[(c * e2.len() + b) as int]), f, 2 * n);
}

/// The challenges drawn in the first `n` ordinary rounds.
pub open spec fn tail_points(block: Seq<u8>, state: Seq<u8>, g: Seq<Seq<Ext>>, d: nat, n: nat) -> Seq<Ext>
    decreases n,
{
    if n == 0 {
        seq![]
    } else {
        let (s, g1, ms) = tail_rounds(block, state, g, d, (n - 1) as nat);
        let m = round_message_spec(g1, d);
        tail_points(block, state, g, d, (n - 1) as nat).push(
            challenge_spec(block, ro_state(block, s, exts_bytes(m))).1,
        )
    }
}

/// `nt` tables of `w` canonical entries each.
pub open spec fn rect(g: Seq<Seq<Ext>>, nt: nat, w: nat) -> bool {
    &&& g.len() == nt
    &&& forall|i: int| 0 <= i < nt ==> (#[trigger] g[i]).len() == w
    &&& ecanon_tables(g)
}

/// The messages of the ordinary rounds are the round messages of the tables of each round.
proof fn lemma_tail_messages(block: Seq<u8>, state: Seq<u8>, g: Seq<Seq<Ext>>, d: nat, n: nat)
    ensures
        tail_rounds(block, state, g, d, n).2.len() == n,
        tail_points(block, state, g, d, n).len() == n,
        forall|k: nat|
            k < n ==> #[trigger] tail_rounds(block, state, g, d, n).2[k as int] == round_message_spec(
                tail_rounds(block, state, g, d, k).1,
                d,
            ),
    decreases n,
{
    if n > 0 {
        lemma_tail_messages(block, state, g, d, (n - 1) as nat);
    }
}

/// A challenge has canonical coordinates.
proof fn lemma_challenge_canon(block: Seq<u8>, state: Seq<u8>)
    ensures
        ecanon(challenge_spec(block, state).1),
{
    let (s1, c0) = crate::transcript::sample(block, state);
    let (s2, c1) = crate::transcript::sample(block, s1);
    lemma_modp_bound(vstd::bytes::spec_u64_from_le_bytes(
        ro_state(block, state, crate::transcript::challenge_label()).subrange(0, 8),
    ) as int);
    lemma_modp_bound(vstd::bytes::spec_u64_from_le_bytes(
        ro_state(block, s1, crate::transcript::challenge_label()).subrange(0, 8),
    ) as int);
}

/// Folding every table halves the width.
proof fn lemma_fold_tables_rect(g: Seq<Seq<Ext>>, r: Ext, nt: nat, w: nat)
    requires
        rect(g, nt, 2 * w),
    ensures
        rect(fold_tables(g, r), nt, w),
{
    let f = fold_tables(g, r);
    assert forall|i: int, x: int| 0 <= i < f.len() && 0 <= x < f[i].len() implies crate::ext::ecanon(
        #[trigger] f[i][x],
    ) by {
        let e = emul(r, esub(g[i][2 * x + 1], g[i][2 * x]));
        lemma_modp_bound((g[i][2 * x].0 + e.0) as int);
        lemma_modp_bound((g[i][2 * x].1 + e.1) as int);
    }
}

/// One fold of tables that are folds of `g0` with the weights `eq`.
proof fn lemma_fold_tables_law(gk: Seq<Seq<Ext>>, g0: Seq<Seq<Ext>>, eq: Seq<Ext>, r: Ext, nt: nat, w: nat)
    requires
        rect(gk, nt, 2 * w),
        forall|i: int, c: nat| 0 <= i < nt && c < 2 * w ==> #[trigger] gk[i][c as int] == fold_sum(g0[i], eq, c),
        ecanon(r),
    ensures
        rect(fold_tables(gk, r), nt, w),
        forall|i: int, c: nat|
            0 <= i < nt && c < w ==> #[trigger] fold_tables(gk, r)[i][c as int] == fold_sum(g0[i], eq_next(eq, r), c),
{
    lemma_fold_tables_rect(gk, r, nt, w);
    assert forall|i: int, c: nat| 0 <= i < nt && c < w implies #[trigger] fold_tables(gk, r)[i][c as int]
        == fold_sum(g0[i], eq_next(eq, r), c) by {
        assert(gk[i][(2 * c) as int] == fold_sum(g0[i], eq, 2 * c));
        assert(gk[i][(2 * c + 1) as int] == fold_sum(g0[i], eq, (2 * c + 1) as nat));
        lemma_fold_sum_step(g0[i], eq, r, c);
    }
}

/// Folding with the single weight one changes nothing.
proof fn lemma_fold_sum_one(g: Seq<Ext>, c: nat)
    requires
        c < g.len(),
        ecanon(g[c as int]),
    ensures
        fold_sum(g, seq![eone()], c) == g[c as int],
{
    let one = seq![eone()];
    let f = |b: nat| emul(one[b as int], g[(c * one.len() + b) as int]);
    assert(one.len() == 1);
    assert(c * one.len() + 0 == c) by (nonlinear_arith)
        requires
            one.len() == 1,
    ;
    assert(f(0) == emul(eone(), g[c as int]));
    lemma_emul_laws(g[c as int], eone(), eone());
    lemma_emul_laws(eone(), g[c as int], eone());
    lemma_eadd_laws(g[c as int], ezero(), ezero());
    lemma_eadd_laws(ezero(), g[c as int], ezero());
    assert(esum(f, 1) == eadd(esum(f, 0), f(0)));
    assert(fold_sum(g, one, c) == esum(f, 1));
}

/// After `j` ordinary rounds each table is the original folded with the
/// weights `eq(point, .)` of the challenges drawn.
proof fn lemma_tail_fold(block: Seq<u8>, state: Seq<u8>, g0: Seq<Seq<Ext>>, d: nat, nt: nat, l: nat, j: nat)
    requires
        j <= l,
        rect(g0, nt, pow2(l)),
    ensures
        rect(tail_rounds(block, state, g0, d, j).1, nt, pow2((l - j) as nat)),
        eq_table(tail_points(block, state, g0, d, j)).len() == pow2(j),
        forall|i: int, c: nat|
            0 <= i < nt && c < pow2((l - j) as nat) ==> #[trigger] tail_rounds(block, state, g0, d, j).1[i][c as int]
                == fold_sum(g0[i], eq_table(tail_points(block, state, g0, d, j)), c),
    decreases j,
{
    if j == 0 {
        vstd::arithmetic::power2::lemma2_to64();
        assert forall|i: int, c: nat| 0 <= i < nt && c < pow2(l) implies #[trigger] g0[i][c as int]
            == fold_sum(g0[i], seq![eone()], c) by {
            lemma_fold_sum_one(g0[i], c);
        }
    } else {
        let k = (j - 1) as nat;
        lemma_tail_fold(block, state, g0, d, nt, l, k);
        let (s, gk, ms) = tail_rounds(block, state, g0, d, k);
        let m = round_message_spec(gk, d);
        let rj = challenge_spec(block, ro_state(block, s, exts_bytes(m))).1;
        lemma_challenge_canon(block, ro_state(block, s, exts_bytes(m)));
        let pk = tail_points(block, state, g0, d, k);
        let pj = tail_points(block, state, g0, d, j);
        assert(pj.drop_last() =~= pk);
        let eq = eq_table(pk);
        assert(eq_table(pj) =~= eq_next(eq, rj));
        vstd::arithmetic::power2::lemma_pow2_unfold((l - k) as nat);
        vstd::arithmetic::power2::lemma_pow2_unfold(j);
        assert((l - k) as nat - 1 == (l - j) as nat);
        lemma_fold_tables_law(gk, g0, eq, rj, nt, pow2((l - j) as nat));
        assert(tail_rounds(block, state, g0, d, j).1 == fold_tables(gk, rj));
    }
}

/// The verifier accepts the first `j` honest round messages, and its running
/// claim is then the claim of the tables of round `j`.
proof fn lemma_rounds_accept(block: Seq<u8>, state: Seq<u8>, g0: Seq<Seq<Ext>>, d: nat, nt: nat, l: nat, j: nat)
    requires
        1 <= nt <= d,
        d + 1 <= P,
        j <= l,
        rect(g0, nt, pow2(l)),
    ensures
        rounds_run(block, state, eclaim(g0, pow2(l)), tail_rounds(block, state, g0, d, l).2, d, j)
            == (RoundsState {
            verdict: Verdict::Accepted,
            state: tail_rounds(block, state, g0, d, j).0,
            cur: eclaim(tail_rounds(block, state, g0, d, j).1, pow2((l - j) as nat)),
            point: tail_points(block, state, g0, d, j),
        }),
    decreases j,
{
    lemma_ext_is_field();
    if j > 0 {
        let k = (j - 1) as nat;
        lemma_rounds_accept(block, state, g0, d, nt, l, k);
        lemma_tail_fold(block, state, g0, d, nt, l, k);
        lemma_tail_messages(block, state, g0, d, l);
        let (s, gk, ms) = tail_rounds(block, state, g0, d, k);
        let m = round_message_spec(gk, d);
        assert(tail_rounds(block, state, g0, d, l).2[k as int] == m);
        let rj = challenge_spec(block, ro_state(block, s, exts_bytes(m))).1;
        lemma_challenge_canon(block, ro_state(block, s, exts_bytes(m)));
        vstd::arithmetic::power2::lemma_pow2_unfold((l - k) as nat);
        assert((l - k) as nat - 1 == (l - j) as nat);
        let half = pow2((l - j) as nat);
        assert(gk[0].len() / 2 == half);
        lemma_round_sum(gk, half);
        assert(m[0] == round_value(gk, half, 0));
        assert(m[1] == round_value(gk, half, 1));
        lemma_round_message_at(gk, d, rj);
    }
}

/// The verifier's evaluation of a table at the challenges is the table folded
/// at the skip challenge and then with the weights `eq`.
proof fn lemma_oracle_value(t: Seq<nat>, hs: nat, r: Ext, eq: Seq<Ext>)
    requires
        hs >= 1,
        t.len() >= eq.len() * hs,
    ensures
        oracle_value(t, Seq::new(hs, |h: int| lagrange_ext(hs, h as nat, r)), eq, hs) == fold_sum(
            Seq::new(t.len() / hs, |c: int| fold_skip_value(t, hs, r, c as nat)),
            eq,
            0,
        ),
{
    let w = Seq::new(hs, |h: int| lagrange_ext(hs, h as nat, r));
    let g = Seq::new(t.len() / hs, |c: int| fold_skip_value(t, hs, r, c as nat));
    vstd::arithmetic::div_mod::lemma_div_is_ordered((eq.len() * hs) as int, t.len() as int, hs as int);
    vstd::arithmetic::div_mod::lemma_div_multiples_vanish(eq.len() as int, hs as int);
    assert((eq.len() * hs) / hs == eq.len()) by {
        vstd::arithmetic::mul::lemma_mul_is_commutative(eq.len() as int, hs as int);
    }
    assert forall|b: nat| b < eq.len() implies #[trigger] oracle_terms(t, w, eq, hs)(b) == emul(
        eq[b as int],
        g[(0 * eq.len() + b) as int],
    ) by {
        lemma_esum_ext(oracle_inner_terms(t, w, hs, b), fold_skip_terms(t, hs, r, b), hs);
    }
    lemma_esum_ext(
        oracle_terms(t, w, eq, hs),
        |b: nat| emul(eq[b as int], g[(0 * eq.len() + b) as int]),
        eq.len(),
    );
}

/// The verifier accepts the final values of the honest proof, and their running
/// product is the product of the entries of the last tables.
proof fn lemma_oracle_accept(t: Seq<Seq<nat>>, hs: nat, r: Ext, gl: Seq<Seq<Ext>>, eq: Seq<Ext>, n: nat)
    requires
        hs >= 1,
        n <= t.len(),
        gl.len() == t.len(),
        forall|i: int| 0 <= i < t.len() ==> (#[trigger] t[i]).len() >= eq.len() * hs,
        forall|i: int|
            0 <= i < t.len() ==> #[trigger] gl[i][0] == fold_sum(fold_skip_tables(t, hs, r)[i], eq, 0),
    ensures
        oracle_run(
            t,
            Seq::new(gl.len(), |i: int| gl[i][0]),
            Seq::new(hs, |h: int| lagrange_ext(hs, h as nat, r)),
            eq,
            hs,
            n,
        ) == (Verdict::Accepted, eprod(|i: nat| gl[i as int][0], n)),
    decreases n,
{
    if n > 0 {
        let k = (n - 1) as nat;
        lemma_oracle_accept(t, hs, r, gl, eq, k);
        assert(gl[k as int][0] == fold_sum(fold_skip_tables(t, hs, r)[k as int], eq, 0));
        lemma_oracle_value(t[k as int], hs, r, eq);
    }
}

/// The 2-adic valuation of a power of two.
proof fn lemma_two_adicity_pow2(l: nat)
    ensures
        two_adicity(pow2(l)) == l,
    decreases l,
{
    vstd::arithmetic::power2::lemma_pow2_pos(l);
    if l > 0 {
        vstd::arithmetic::power2::lemma_pow2_unfold(l);
        lemma_two_adicity_pow2((l - 1) as nat);
        vstd::arithmetic::power2::lemma_pow2_pos((l - 1) as nat);
    } else {
        vstd::arithmetic::power2::lemma2_to64();
    }
}

/// The tables folded at the skip challenge have `nb` canonical entries each.
proof fn lemma_fold_skip_rect(t: Seq<Seq<nat>>, hs: nat, r: Ext, nb: nat)
    requires
        hs >= 1,
        forall|i: int| 0 <= i < t.len() ==> (#[trigger] t[i]).len() == nb * hs,
    ensures
        rect(fold_skip_tables(t, hs, r), t.len(), nb),
{
    let g = fold_skip_tables(t, hs, r);
    assert forall|i: int| 0 <= i < t.len() implies (#[trigger] g[i]).len() == nb by {
        vstd::arithmetic::div_mod::lemma_div_multiples_vanish(nb as int, hs as int);
        vstd::arithmetic::mul::lemma_mul_is_commutative(nb as int, hs as int);
    }
    assert forall|i: int, x: int| 0 <= i < g.len() && 0 <= x < g[i].len() implies crate::ext::ecanon(
        #[trigger] g[i][x],
    ) by {
        lemma_esum_canon(fold_skip_terms(t[i], hs, r, x as nat), hs);
    }
}

/// The tables of the sumcheck: `nt >= 1` tables of `2^l` blocks of `|H|`
/// canonical entries each, with `nt <= d`, `D` large enough for the skip
/// polynomial, and the round messages' `d + 1` nodes distinct in GF(P).
pub open spec fn honest_inputs(t: Seq<Seq<nat>>, sk: Skip, d: nat, l: nat) -> bool {
    &&& sk.wf()
    &&& 1 <= t.len() <= d
    &&& d + 1 <= P
    &&& t.len() * (sk.hsize - 1) + 1 <= sk.dsize
    &&& pow2(l) * sk.hsize <= usize::MAX
    &&& forall|i: int|
        0 <= i < t.len() ==> (#[trigger] t[i]).len() == pow2(l) * sk.hsize && table_canon(t[i])
}

/// The skip round of an honest proof: the message has `|D|` values summing to
/// the claim over `H`, and its interpolation at the skip challenge is the claim
/// of the tables folded there.
proof fn lemma_skip_stage(t: Seq<Seq<nat>>, sk: Skip, tag: Seq<u8>, d: nat, l: nat)
    requires
        honest_inputs(t, sk, d, l),
    ensures
        ({
            let hs = sk.hsize as nat;
            let claim = claim_spec(t, pow2(l) * hs);
            let skip = skip_message_spec(t, hs, sk.dsize as nat);
            let r = challenge_spec(transcript_init(tag).0, seeded_state(tag, claim, skip)).1;
            let vals = skip_in_ext(skip);
            &&& skip.len() == sk.dsize
            &&& sk.hsize <= sk.dsize
            &&& fsum(seq_fn(skip), hs) == claim
            &&& ecanon(r)
            &&& interpolate(vals, r) == eclaim(fold_skip_tables(t, hs, r), pow2(l))
            &&& rect(fold_skip_tables(t, hs, r), t.len(), pow2(l))
        }),
{
    lemma_ext_is_field();
    let hs = sk.hsize as nat;
    let ds = sk.dsize as nat;
    let nt = t.len();
    let nb = pow2(l);
    let n = nb * hs;
    let claim = claim_spec(t, n);
    let skip = skip_message_spec(t, hs, ds);
    vstd::arithmetic::power2::lemma_pow2_pos(l);
    assert(hs <= ds) by (nonlinear_arith)
        requires
            nt >= 1,
            hs >= 1,
            nt * (hs - 1) + 1 <= ds,
    ;
    assert(num_blocks(t, hs) == nb) by {
        vstd::arithmetic::div_mod::lemma_div_multiples_vanish(nb as int, hs as int);
        vstd::arithmetic::mul::lemma_mul_is_commutative(nb as int, hs as int);
    }
    assert forall|i: int| 0 <= i < nt implies nb <= (#[trigger] t[i]).len() / hs && t[i].len() >= nb * hs by {
        vstd::arithmetic::div_mod::lemma_div_multiples_vanish(nb as int, hs as int);
        vstd::arithmetic::mul::lemma_mul_is_commutative(nb as int, hs as int);
    }
    lemma_skip_sums_to_claim(t, hs, nb);
    crate::sums::lemma_fsum_ext(seq_fn(skip), skip_on_h(t, hs, nb), hs);
    let block = transcript_init(tag).0;
    let r = challenge_spec(block, seeded_state(tag, claim, skip)).1;
    lemma_challenge_canon(block, seeded_state(tag, claim, skip));
    lemma_skip_message_at(t, hs, nb, ds, r);
    lemma_fold_skip_rect(t, hs, r, nb);
}

/// The ordinary rounds and the final values of an honest proof: the verifier
/// accepts every round message, and the product of its own evaluations of the
/// tables is its last running claim.
#[verifier::rlimit(50)]
proof fn lemma_tail_stage(t: Seq<Seq<nat>>, hs: nat, r: Ext, block: Seq<u8>, s: Seq<u8>, d: nat, l: nat)
    requires
        hs >= 1,
        1 <= t.len() <= d,
        d + 1 <= P,
        pow2(l) <= usize::MAX,
        forall|i: int| 0 <= i < t.len() ==> (#[trigger] t[i]).len() == pow2(l) * hs,
        rect(fold_skip_tables(t, hs, r), t.len(), pow2(l)),
    ensures
        ({
            let g0 = fold_skip_tables(t, hs, r);
            let tr = tail_rounds(block, s, g0, d, two_adicity(g0[0].len()));
            let finals = Seq::new(tr.1.len(), |i: int| tr.1[i][0]);
            let st = rounds_run(block, s, eclaim(g0, pow2(l)), tr.2, d, tr.2.len());
            let w = Seq::new(hs, |h: int| lagrange_ext(hs, h as nat, r));
            &&& st.verdict is Accepted
            &&& pow2(st.point.len()) <= usize::MAX
            &&& finals.len() == t.len()
            &&& oracle_run(t, finals, w, eq_table(st.point), hs, t.len()) == (Verdict::Accepted, st.cur)
        }),
{
    lemma_ext_is_field();
    let nt = t.len();
    let g0 = fold_skip_tables(t, hs, r);
    let tr = tail_rounds(block, s, g0, d, l);
    let gl = tr.1;
    let pts = tail_points(block, s, g0, d, l);
    let eq = eq_table(pts);
    let finals = Seq::new(gl.len(), |i: int| gl[i][0]);
    let w = Seq::new(hs, |h: int| lagrange_ext(hs, h as nat, r));
    vstd::arithmetic::power2::lemma2_to64();
    assert(two_adicity(g0[0].len()) == l) by {
        lemma_two_adicity_pow2(l);
    }
    assert(tr.2.len() == l && pts.len() == l) by {
        lemma_tail_messages(block, s, g0, d, l);
    }
    assert((l - l) as nat == 0);
    let st = rounds_run(block, s, eclaim(g0, pow2(l)), tr.2, d, l);
    assert(st == RoundsState {
        verdict: Verdict::Accepted,
        state: tr.0,
        cur: eclaim(gl, 1),
        point: pts,
    }) by {
        lemma_rounds_accept(block, s, g0, d, nt, l, l);
    }
    assert(rect(gl, nt, 1) && eq.len() == pow2(l) && forall|i: int| 0 <= i < nt ==> #[trigger] gl[i][0]
        == fold_sum(g0[i], eq, 0)) by {
        lemma_tail_fold(block, s, g0, d, nt, l, l);
        assert forall|i: int| 0 <= i < nt implies #[trigger] gl[i][0] == fold_sum(g0[i], eq, 0) by {
            assert(gl[i][0 as int] == fold_sum(g0[i], eq, 0nat));
        }
    }
    lemma_final_values(t, hs, r, gl, eq, l);
}

/// The verifier's check of the final values of an honest proof.
proof fn lemma_final_values(t: Seq<Seq<nat>>, hs: nat, r: Ext, gl: Seq<Seq<Ext>>, eq: Seq<Ext>, l: nat)
    requires
        hs >= 1,
        rect(gl, t.len(), 1),
        eq.len() == pow2(l),
        forall|i: int| 0 <= i < t.len() ==> (#[trigger] t[i]).len() == pow2(l) * hs,
        forall|i: int| 0 <= i < t.len() ==> #[trigger] gl[i][0] == fold_sum(fold_skip_tables(t, hs, r)[i], eq, 0),
    ensures
        oracle_run(
            t,
            Seq::new(gl.len(), |i: int| gl[i][0]),
            Seq::new(hs, |h: int| lagrange_ext(hs, h as nat, r)),
            eq,
            hs,
            t.len(),
        ) == (Verdict::Accepted, eclaim(gl, 1)),
{
    let nt = t.len();
    assert forall|i: int| 0 <= i < nt implies (#[trigger] t[i]).len() >= eq.len() * hs by {}
    lemma_oracle_accept(t, hs, r, gl, eq, nt);
    let c0 = ecolumn(gl, 0);
    lemma_eprod_ext(c0, |i: nat| gl[i as int][0], nt);
    crate::algebra::lemma_eprod_canon(c0, nt);
    let e = eprod(c0, nt);
    lemma_eadd_laws(e, ezero(), ezero());
    lemma_eadd_laws(ezero(), e, ezero());
    let cp = ecolumn_products(gl);
    assert(esum(cp, 0) == ezero());
    assert(esum(cp, 1) == eadd(esum(cp, 0), cp(0)));
    assert(cp(0) == e);
}

/// Completeness: the proof that the prover makes for the true sum
/// `sum_x prod_i t_i[x]` under any tag passes the verifier under that tag.
pub proof fn lemma_honest_proof_accepted(t: Seq<Seq<nat>>, sk: Skip, tag: Seq<u8>, d: nat, l: nat)
    requires
        honest_inputs(t, sk, d, l),
    ensures
        verify_spec(
            t,
            sk,
            claim_spec(t, pow2(l) * (sk.hsize as nat)),
            tag,
            d,
            prove_tail_spec(
                t,
                sk.hsize as nat,
                claim_spec(t, pow2(l) * (sk.hsize as nat)),
                skip_message_spec(t, sk.hsize as nat, sk.dsize as nat),
                tag,
                d,
            ),
        ) is Accepted,
{
    lemma_ext_is_field();
    let hs = sk.hsize as nat;
    let claim = claim_spec(t, pow2(l) * hs);
    let skip = skip_message_spec(t, hs, sk.dsize as nat);
    let block = transcript_init(tag).0;
    let (s, r) = challenge_spec(block, seeded_state(tag, claim, skip));
    lemma_skip_stage(t, sk, tag, d, l);
    vstd::arithmetic::power2::lemma_pow2_pos(l);
    assert(pow2(l) <= usize::MAX) by (nonlinear_arith)
        requires
            hs >= 1,
            pow2(l) * hs <= usize::MAX,
    ;
    lemma_tail_stage(t, hs, r, block, s, d, l);
}

/// A claim other than the true sum is rejected, with the skip-sum message, for
/// the proof the prover makes (whatever claim it was made for).
pub proof fn lemma_wrong_claim_rejected(
    t: Seq<Seq<nat>>,
    sk: Skip,
    claim: nat,
    other: nat,
    tag: Seq<u8>,
    d: nat,
)
    requires
        sk.wf(),
        sk.hsize <= sk.dsize,
        t.len() >= 1,
        forall|i: int| 0 <= i < t.len() ==> (#[trigger] t[i]).len() >= num_blocks(t, sk.hsize as nat) * sk.hsize,
        other != claim_spec(t, num_blocks(t, sk.hsize as nat) * (sk.hsize as nat)),
    ensures
        verify_spec(
            t,
            sk,
            other,
            tag,
            d,
            prove_tail_spec(
                t,
                sk.hsize as nat,
                claim,
                skip_message_spec(t, sk.hsize as nat, sk.dsize as nat),
                tag,
                d,
            ),
        ) == Verdict::Rejected(msg_skip_sum()),
{
    let hs = sk.hsize as nat;
    let nb = num_blocks(t, hs);
    let skip = skip_message_spec(t, hs, sk.dsize as nat);
    lemma_skip_sums_to_claim(t, hs, nb);
    crate::sums::lemma_fsum_ext(seq_fn(skip), skip_on_h(t, hs, nb), hs);
}

} // verus!
