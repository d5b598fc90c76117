//! The verifier, with oracle access to the tables: it replays the transcript,
//! checks every message against the running claim, and finally evaluates the
//! tables' extensions at the challenge point itself.
use crate::ext::{ebase, eadd, emul, eone, escale, esub, lemma_fp2_canon, Ext, Fp2};
use crate::field::{lemma_fp_view_bound, Fp, P};
use crate::protocol::{seeded_state, Proof, ProofModel};
use crate::rounds::{fp2_tables, fp_tables, interpolate, eval_univariate};
use crate::skip::{fp2s, fps, lagrange_ext, Skip};
use crate::sums::{esum, fsum};
use crate::transcript::{challenge_spec, exts_bytes, ro_state, transcript_init, Transcript};
use vstd::arithmetic::power2::pow2;
use vstd::prelude::*;

verus! {

broadcast use {lemma_fp_view_bound, lemma_fp2_canon};

/// What the verifier does with its inputs.
pub enum Verdict {
    /// It returns `Ok(())`.
    Accepted,
    /// It returns `Err` with this message.
    Rejected(Seq<char>),
    /// It panics (an index out of range, an inverse of zero, a table too large).
    Panics,
}

/// The state of the verifier after some round messages: its verdict so far
/// (`Accepted` while it goes on), the transcript state, the running claim and
/// the challenges drawn.
pub struct RoundsState {
    pub verdict: Verdict,
    pub state: Seq<u8>,
    pub cur: Ext,
    pub point: Seq<Ext>,
}

pub open spec fn msg_skip_length() -> Seq<char> {
    "skip message length"@
}

pub open spec fn msg_skip_sum() -> Seq<char> {
    "skip message does not sum to the claim"@
}

pub open spec fn msg_round_length() -> Seq<char> {
    "round message length"@
}

pub open spec fn msg_round_inconsistent() -> Seq<char> {
    "round message inconsistent with the claim"@
}

pub open spec fn msg_final_count() -> Seq<char> {
    "fewer final values than tables"@
}

pub open spec fn msg_final_evaluation() -> Seq<char> {
    "final evaluation mismatch"@
}

pub open spec fn msg_final_product() -> Seq<char> {
    "final product mismatch"@
}

/// The verifier's pass over the first `n` round messages.
pub open spec fn rounds_run(
    block: Seq<u8>,
    s0: Seq<u8>,
    cur0: Ext,
    ms: Seq<Seq<Ext>>,
    d: nat,
    n: nat,
) -> RoundsState
    decreases n,
{
    if n == 0 {
        RoundsState { verdict: Verdict::Accepted, state: s0, cur: cur0, point: seq![] }
    } else {
        let st = rounds_run(block, s0, cur0, ms, d, (n - 1) as nat);
        let m = ms[n - 1];
        if !(st.verdict is Accepted) {
            st
        } else if m.len() != d + 1 {
            RoundsState { verdict: Verdict::Rejected(msg_round_length()), ..st }
        } else if m.len() < 2 {
            RoundsState { verdict: Verdict::Panics, ..st }
        } else if eadd(m[0], m[1]) != st.cur {
            RoundsState { verdict: Verdict::Rejected(msg_round_inconsistent()), ..st }
        } else if m.len() > P {
            RoundsState { verdict: Verdict::Panics, ..st }
        } else {
            let (s2, rj) = challenge_spec(block, ro_state(block, st.state, exts_bytes(m)));
            RoundsState {
                verdict: Verdict::Accepted,
                state: s2,
                cur: interpolate(m, rj),
                point: st.point.push(rj),
            }
        }
    }
}

/// The table `eq(point, b)` over `b < 2^k`: the low bit of `b` goes with the first challenge.
pub open spec fn eq_table(point: Seq<Ext>) -> Seq<Ext>
    decreases point.len(),
{
    if point.len() == 0 {
        seq![eone()]
    } else {
        let prev = eq_table(point.drop_last());
        let rj = point.last();
        prev.map_values(|e: Ext| emul(e, esub(eone(), rj))) + prev.map_values(|e: Ext| emul(e, rj))
    }
}

/// `sum_h L_h(r) t[b |H| + h]`, as a function of `h`.
pub open spec fn oracle_inner_terms(t: Seq<nat>, w: Seq<Ext>, hs: nat, b: nat) -> spec_fn(nat) -> Ext {
    |h: nat| escale(w[h as int], t[(b * hs + h) as int])
}

/// `eq(point, b) * sum_h L_h(r) t[b |H| + h]`, as a function of `b`.
pub open spec fn oracle_terms(t: Seq<nat>, w: Seq<Ext>, eq: Seq<Ext>, hs: nat) -> spec_fn(nat) -> Ext {
    |b: nat| emul(eq[b as int], esum(oracle_inner_terms(t, w, hs, b), hs))
}

/// The verifier's own evaluation of a table at `(r, point)`.
pub open spec fn oracle_value(t: Seq<nat>, w: Seq<Ext>, eq: Seq<Ext>, hs: nat) -> Ext {
    esum(oracle_terms(t, w, eq, hs), eq.len())
}

/// The oracle check over the first `n` pairs of a table and its claimed final value:
/// the verdict so far and the running product of the evaluations.
pub open spec fn oracle_run(
    t: Seq<Seq<nat>>,
    fins: Seq<Ext>,
    w: Seq<Ext>,
    eq: Seq<Ext>,
    hs: nat,
    n: nat,
) -> (Verdict, Ext)
    decreases n,
{
    if n == 0 {
        (Verdict::Accepted, eone())
    } else {
        let (v, prod) = oracle_run(t, fins, w, eq, hs, (n - 1) as nat);
        if !(v is Accepted) {
            (v, prod)
        } else if t[n - 1].len() < eq.len() * hs {
            (Verdict::Panics, prod)
        } else {
            let acc = oracle_value(t[n - 1], w, eq, hs);
            if acc != fins[n - 1] {
                (Verdict::Rejected(msg_final_evaluation()), prod)
            } else {
                (Verdict::Accepted, emul(prod, acc))
            }
        }
    }
}

/// The skip message seen in the extension.
pub open spec fn skip_in_ext(skip: Seq<nat>) -> Seq<Ext> {
    Seq::new(skip.len(), |i: int| ebase(skip[i]))
}

/// The first `n` values of a sequence, as a function.
pub open spec fn seq_fn(s: Seq<nat>) -> spec_fn(nat) -> nat {
    |h: nat| s[h as int]
}

/// What `verify` does on a proof.
pub open spec fn verify_spec(
    t: Seq<Seq<nat>>,
    sk: Skip,
    claim: nat,
    tag: Seq<u8>,
    d: nat,
    pf: ProofModel,
) -> Verdict {
    let hs = sk.hsize as nat;
    let ds = sk.dsize as nat;
    if pf.skip.len() != ds {
        Verdict::Rejected(msg_skip_length())
    } else if hs > ds {
        Verdict::Panics
    } else if fsum(seq_fn(pf.skip), hs) != claim {
        Verdict::Rejected(msg_skip_sum())
    } else {
        let block = transcript_init(tag).0;
        let (s, r) = challenge_spec(block, seeded_state(tag, claim, pf.skip));
        let st = rounds_run(block, s, interpolate(skip_in_ext(pf.skip), r), pf.rounds, d, pf.rounds.len());
        if !(st.verdict is Accepted) {
            st.verdict
        } else if pf.finals.len() < t.len() {
            Verdict::Rejected(msg_final_count())
        } else if pow2(st.point.len()) > usize::MAX {
            Verdict::Panics
        } else {
            let w = Seq::new(hs, |h: int| lagrange_ext(hs, h as nat, r));
            let (v, prod) = oracle_run(t, pf.finals, w, eq_table(st.point), hs, t.len());
            if !(v is Accepted) {
                v
            } else if prod != st.cur {
                Verdict::Rejected(msg_final_product())
            } else {
                Verdict::Accepted
            }
        }
    }
}

/// The result of `verify` for a verdict other than `Panics`.
pub open spec fn verdict_result(v: Verdict, r: Result<(), String>) -> bool {
    match v {
        Verdict::Accepted => r is Ok,
        Verdict::Rejected(m) => r matches Err(e) && e@ == m,
        Verdict::Panics => false,
    }
}

/// Once the pass over the round messages stops, later messages change nothing.
pub proof fn lemma_rounds_run_stops(
    block: Seq<u8>,
    s0: Seq<u8>,
    cur0: Ext,
    ms: Seq<Seq<Ext>>,
    d: nat,
    n: nat,
    m: nat,
)
    requires
        n <= m,
        !(rounds_run(block, s0, cur0, ms, d, n).verdict is Accepted),
    ensures
        rounds_run(block, s0, cur0, ms, d, m) == rounds_run(block, s0, cur0, ms, d, n),
    decreases m - n,
{
    if n < m {
        lemma_rounds_run_stops(block, s0, cur0, ms, d, n, (m - 1) as nat);
    }
}

/// Once the oracle check stops, later tables change nothing.
pub proof fn lemma_oracle_run_stops(
    t: Seq<Seq<nat>>,
    fins: Seq<Ext>,
    w: Seq<Ext>,
    eq: Seq<Ext>,
    hs: nat,
    n: nat,
    m: nat,
)
    requires
        n <= m,
        !(oracle_run(t, fins, w, eq, hs, n).0 is Accepted),
    ensures
        oracle_run(t, fins, w, eq, hs, m) == oracle_run(t, fins, w, eq, hs, n),
    decreases m - n,
{
    if n < m {
        lemma_oracle_run_stops(t, fins, w, eq, hs, n, (m - 1) as nat);
    }
}

/// `skip[0] + ... + skip[hs - 1]`.
fn skip_sum(skip: &[Fp], hs: usize) -> (sum: Fp)
    requires
        hs <= skip@.len(),
    ensures
        sum@ == fsum(seq_fn(fps(skip@)), hs as nat),
{
    let mut sum = Fp::zero();
    let mut h: usize = 0;
    while h < hs
        invariant
            hs <= skip@.len(),
            h <= hs,
            sum@ == fsum(seq_fn(fps(skip@)), h as nat),
        decreases hs - h,
    {
        sum = sum.add(&skip[h]);
        h = h + 1;
    }
    sum
}

/// The table `eq(point, .)`, or `None` where its `2^k` entries would not fit a `usize`.
fn build_eq(point: &Vec<Fp2>) -> (eq: Option<Vec<Fp2>>)
    ensures
        eq is None <==> pow2(point@.len()) > usize::MAX,
        eq matches Some(v) ==> fp2s(v@) == eq_table(fp2s(point@)),
{
    let mut eq: Vec<Fp2> = Vec::new();
    eq.push(Fp2::one());
    let ghost pts = fp2s(point@);
    proof {
        vstd::arithmetic::power2::lemma2_to64();
        assert(fp2s(eq@) =~= eq_table(pts.subrange(0, 0)));
    }
    let mut k: usize = 0;
    while k < point.len()
        invariant
            pts == fp2s(point@),
            k <= point@.len(),
            eq@.len() == pow2(k as nat),
            eq@.len() <= usize::MAX,
            fp2s(eq@) == eq_table(pts.subrange(0, k as int)),
        decreases point@.len() - k,
    {
        let rj = point[k];
        if eq.len() > usize::MAX / 2 {
            proof {
                vstd::arithmetic::power2::lemma_pow2_unfold((k + 1) as nat);
                if k + 1 < point@.len() {
                    vstd::arithmetic::power2::lemma_pow2_strictly_increases((k + 1) as nat, point@.len());
                }
            }
            return None;
        }
        let one_minus = Fp2::one().sub(&rj);
        let mut nx: Vec<Fp2> = Vec::new();
        let mut b: usize = 0;
        while b < eq.len()
            invariant
                b <= eq@.len(),
                nx@.len() == b,
                forall|q: int| 0 <= q < b ==> (#[trigger] nx@[q])@ == emul(eq@[q]@, one_minus@),
            decreases eq@.len() - b,
        {
            nx.push(eq[b].mul(&one_minus));
            b = b + 1;
        }
        let mut b: usize = 0;
        while b < eq.len()
            invariant
                b <= eq@.len(),
                eq@.len() <= usize::MAX / 2,
                nx@.len() == eq@.len() + b,
                forall|q: int| 0 <= q < eq@.len() ==> (#[trigger] nx@[q])@ == emul(eq@[q]@, one_minus@),
                forall|q: int| 0 <= q < b ==> (#[trigger] nx@[eq@.len() + q])@ == emul(eq@[q]@, rj@),
            decreases eq@.len() - b,
        {
            nx.push(eq[b].mul(&rj));
            b = b + 1;
        }
        proof {
            let prefix = pts.subrange(0, (k + 1) as int);
            assert(prefix.drop_last() =~= pts.subrange(0, k as int));
            assert(prefix.last() == rj@);
            let prev = eq_table(pts.subrange(0, k as int));
            let lhs = prev.map_values(|e: Ext| emul(e, esub(eone(), rj@)));
            let rhs = prev.map_values(|e: Ext| emul(e, rj@));
            assert forall|q: int| 0 <= q < nx@.len() implies #[trigger] fp2s(nx@)[q] == (lhs + rhs)[q] by {
                assert(one_minus@ == esub(eone(), rj@));
                if q < eq@.len() {
                    assert(prev[q] == eq@[q]@);
                    assert(nx@[q]@ == emul(eq@[q]@, one_minus@));
                    assert((lhs + rhs)[q] == lhs[q]);
                } else {
                    let q2 = q - eq@.len();
                    assert(prev[q2] == eq@[q2]@);
                    assert(nx@[eq@.len() + q2]@ == emul(eq@[q2]@, rj@));
                    assert((lhs + rhs)[q] == rhs[q2]);
                }
            }
            assert(fp2s(nx@) =~= prev.map_values(|e: Ext| emul(e, esub(eone(), rj@))) + prev.map_values(
                |e: Ext| emul(e, rj@),
            ));
            vstd::arithmetic::power2::lemma_pow2_unfold((k + 1) as nat);
        }
        eq = nx;
        k = k + 1;
    }
    proof {
        assert(pts.subrange(0, point@.len() as int) =~= pts);
    }
    Some(eq)
}

/// The verifier's evaluation of a table at `(r, point)`.
fn oracle_eval(t: &Vec<Fp>, w: &Vec<Fp2>, eq: &Vec<Fp2>, hs: usize) -> (acc: Fp2)
    requires
        eq@.len() * hs <= t@.len(),
        w@.len() == hs,
    ensures
        acc@ == oracle_value(fps(t@), fp2s(w@), fp2s(eq@), hs as nat),
{
    let ghost tv = fps(t@);
    let ghost wv = fp2s(w@);
    let ghost ev = fp2s(eq@);
    let _tlen = t.len();
    let mut acc = Fp2::zero();
    let mut b: usize = 0;
    while b < eq.len()
        invariant
            eq@.len() * hs <= t@.len(),
            t@.len() <= usize::MAX,
            w@.len() == hs,
            tv == fps(t@),
            wv == fp2s(w@),
            ev == fp2s(eq@),
            b <= eq@.len(),
            acc@ == esum(oracle_terms(tv, wv, ev, hs as nat), b as nat),
        decreases eq@.len() - b,
    {
        proof {
            assert(b * hs + hs <= eq@.len() * hs) by (nonlinear_arith)
                requires
                    b < eq@.len(),
            ;
        }
        let mut inner = Fp2::zero();
        let mut h: usize = 0;
        while h < hs
            invariant
                b * hs + hs <= t@.len(),
                t@.len() <= usize::MAX,
                w@.len() == hs,
                tv == fps(t@),
                wv == fp2s(w@),
                h <= hs,
                inner@ == esum(oracle_inner_terms(tv, wv, hs as nat, b as nat), h as nat),
            decreases hs - h,
        {
            inner = inner.add(&w[h].mul_base(&t[b * hs + h]));
            h = h + 1;
        }
        acc = acc.add(&eq[b].mul(&inner));
        b = b + 1;
    }
    acc
}

/// The verifier's pass over the round messages from the running claim `cur`:
/// `None` where it would panic, `Err` with its message where it rejects, else
/// the final running claim and the challenges drawn.
fn verify_rounds(tr: &mut Transcript, cur: Fp2, rounds: &Vec<Vec<Fp2>>, d: usize) -> (res: Option<
    Result<(Fp2, Vec<Fp2>), String>,
>)
    ensures
        final(tr)@.0 == old(tr)@.0,
        ({
            let st = rounds_run(
                old(tr)@.0,
                old(tr)@.1,
                cur@,
                fp2_tables(rounds@),
                d as nat,
                rounds@.len(),
            );
            &&& res is None <==> st.verdict is Panics
            &&& res matches Some(Err(e)) ==> st.verdict == Verdict::Rejected(e@)
            &&& res matches Some(Ok(out)) ==> st.verdict is Accepted && out.0@ == st.cur && fp2s(
                out.1@,
            ) == st.point
        }),
{
    let ghost block = tr@.0;
    let ghost s0 = tr@.1;
    let ghost cur0 = cur@;
    let ghost ms = fp2_tables(rounds@);
    let mut running = cur;
    let mut point: Vec<Fp2> = Vec::new();
    let mut k: usize = 0;
    while k < rounds.len()
        invariant
            tr@.0 == block,
            block == old(tr)@.0,
            s0 == old(tr)@.1,
            ms == fp2_tables(rounds@),
            k <= rounds@.len(),
            rounds_run(block, s0, cur0, ms, d as nat, k as nat).verdict is Accepted,
            rounds_run(block, s0, cur0, ms, d as nat, k as nat).state == tr@.1,
            rounds_run(block, s0, cur0, ms, d as nat, k as nat).cur == running@,
            cur0 == cur@,
            rounds_run(block, s0, cur0, ms, d as nat, k as nat).point == fp2s(point@),
        decreases rounds@.len() - k,
    {
        let m = &rounds[k];
        assert(ms[k as int] == fp2s(m@));
        if m.len() == 0 || m.len() - 1 != d {
            proof {
                lemma_rounds_run_stops(block, s0, cur0, ms, d as nat, (k + 1) as nat, ms.len());
            }
            return Some(Err(String::from_str("round message length")));
        }
        if m.len() < 2 {
            proof {
                lemma_rounds_run_stops(block, s0, cur0, ms, d as nat, (k + 1) as nat, ms.len());
            }
            return None;
        }
        if !m[0].add(&m[1]).equals(&running) {
            proof {
                lemma_rounds_run_stops(block, s0, cur0, ms, d as nat, (k + 1) as nat, ms.len());
            }
            return Some(Err(String::from_str("round message inconsistent with the claim")));
        }
        if m.len() as u64 > P {
            proof {
                lemma_rounds_run_stops(block, s0, cur0, ms, d as nat, (k + 1) as nat, ms.len());
            }
            return None;
        }
        tr.absorb_ef(m.as_slice());
        let rj = tr.challenge();
        running = eval_univariate(m.as_slice(), rj);
        point.push(rj);
        proof {
            assert(fp2s(point@) =~= rounds_run(block, s0, cur0, ms, d as nat, k as nat).point.push(rj@));
        }
        k = k + 1;
    }
    Some(Ok((running, point)))
}

/// The oracle check: `None` where a table is too short for the evaluation
/// point, `Err` where an evaluation differs from its claimed final value,
/// else the product of the evaluations.
fn verify_oracle(tables: &[Vec<Fp>], finals: &Vec<Fp2>, w: &Vec<Fp2>, eq: &Vec<Fp2>, hs: usize) -> (res:
    Option<Result<Fp2, String>>)
    requires
        hs >= 1,
        w@.len() == hs,
        finals@.len() >= tables@.len(),
    ensures
        ({
            let n = tables@.len();
            let (v, prod) = oracle_run(fp_tables(tables@), fp2s(finals@), fp2s(w@), fp2s(eq@), hs as nat, n);
            &&& res is None <==> v is Panics
            &&& res matches Some(Err(e)) ==> v == Verdict::Rejected(e@)
            &&& res matches Some(Ok(p)) ==> v is Accepted && p@ == prod
        }),
{
    let ghost t = fp_tables(tables@);
    let ghost wv = fp2s(w@);
    let ghost ev = fp2s(eq@);
    let ghost fins = fp2s(finals@);
    let n = tables.len();
    let mut prod = Fp2::one();
    let mut i: usize = 0;
    while i < n
        invariant
            t == fp_tables(tables@),
            fins == fp2s(finals@),
            n <= tables@.len(),
            n <= finals@.len(),
            wv == fp2s(w@),
            ev == fp2s(eq@),
            w@.len() == hs,
            hs >= 1,
            i <= n,
            n == tables@.len(),
            oracle_run(t, fins, wv, ev, hs as nat, i as nat).0 is Accepted,
            oracle_run(t, fins, wv, ev, hs as nat, i as nat).1 == prod@,
        decreases n - i,
    {
        let tab = &tables[i];
        assert(t[i as int] == fps(tab@));
        assert(ev.len() == eq@.len());
        if eq.len() > tab.len() / hs {
            proof {
                assert(tab@.len() < eq@.len() * hs) by (nonlinear_arith)
                    requires
                        eq@.len() > tab@.len() / hs as nat,
                        hs >= 1,
                ;
                lemma_oracle_run_stops(t, fins, wv, ev, hs as nat, (i + 1) as nat, n as nat);
            }
            return None;
        }
        proof {
            assert(eq@.len() * hs <= tab@.len()) by (nonlinear_arith)
                requires
                    eq@.len() <= tab@.len() / hs as nat,
                    hs >= 1,
            ;
        }
        let acc = oracle_eval(tab, w, eq, hs);
        if !acc.equals(&finals[i]) {
            proof {
                lemma_oracle_run_stops(t, fins, wv, ev, hs as nat, (i + 1) as nat, n as nat);
            }
            return Some(Err(String::from_str("final evaluation mismatch")));
        }
        prod = prod.mul(&acc);
        i = i + 1;
    }
    Some(Ok(prod))
}

/// The verifier, returning `None` exactly where it cannot finish: where the
/// proof's shape would make it index out of range, divide by zero, or build a
/// table of more than `usize::MAX` entries. A proof with fewer final values
/// than tables is rejected; extra final values are ignored.
pub fn verify_checked(
    tables: &[Vec<Fp>],
    sk: &Skip,
    claim: Fp,
    tag: &[u8; 32],
    d: usize,
    pf: &Proof,
) -> (res: Option<Result<(), String>>)
    requires
        sk.wf(),
    ensures
        res is None <==> verify_spec(fp_tables(tables@), *sk, claim@, tag@, d as nat, pf@) is Panics,
        res matches Some(r) ==> verdict_result(
            verify_spec(fp_tables(tables@), *sk, claim@, tag@, d as nat, pf@),
            r,
        ),
{
    let ghost hsn = sk.hsize as nat;
    if pf.skip.len() != sk.dsize {
        return Some(Err(String::from_str("skip message length")));
    }
    if sk.hsize > sk.dsize {
        return None;
    }
    let sum = skip_sum(pf.skip.as_slice(), sk.hsize);
    if !sum.equals(&claim) {
        return Some(Err(String::from_str("skip message does not sum to the claim")));
    }
    let mut tr = Transcript::new(tag);
    let cl = vec![claim];
    tr.absorb_f(cl.as_slice());
    tr.absorb_f(pf.skip.as_slice());
    proof {
        assert(fps(cl@) == seq![claim@]);
    }
    let r = tr.challenge();
    let mut skip_ef: Vec<Fp2> = Vec::new();
    let mut i: usize = 0;
    while i < pf.skip.len()
        invariant
            i <= pf.skip@.len(),
            skip_ef@.len() == i,
            forall|q: int| 0 <= q < i ==> (#[trigger] skip_ef@[q])@ == ebase(pf.skip@[q]@),
        decreases pf.skip@.len() - i,
    {
        skip_ef.push(Fp2::from_base(pf.skip[i]));
        i = i + 1;
    }
    proof {
        assert(fp2s(skip_ef@) =~= skip_in_ext(pf@.skip));
    }
    let cur = sk.eval_on_d(skip_ef.as_slice(), r);
    let (cur, point) = match verify_rounds(&mut tr, cur, &pf.rounds, d) {
        None => {
            return None;
        },
        Some(Err(e)) => {
            return Some(Err(e));
        },
        Some(Ok(out)) => out,
    };
    if pf.finals.len() < tables.len() {
        return Some(Err(String::from_str("fewer final values than tables")));
    }
    let eq = match build_eq(&point) {
        Some(v) => v,
        None => {
            return None;
        },
    };
    let w = sk.weights_at(r);
    proof {
        assert(fp2s(w@) =~= Seq::new(hsn, |h: int| lagrange_ext(hsn, h as nat, r@)));
    }
    let prod = match verify_oracle(tables, &pf.finals, &w, &eq, sk.hsize) {
        None => {
            return None;
        },
        Some(Err(e)) => {
            return Some(Err(e));
        },
        Some(Ok(p)) => p,
    };
    if !prod.equals(&cur) {
        return Some(Err(String::from_str("final product mismatch")));
    }
    Some(Ok(()))
}

/// The verifier, with oracle access to the tables (it evaluates their
/// extensions at the final point itself, in `O(2^l)`). A proof must carry a
/// final value for every table; values beyond the last table are ignored.
pub fn verify(
    tables: &[Vec<Fp>],
    sk: &Skip,
    claim: Fp,
    tag: &[u8; 32],
    d: usize,
    pf: &Proof,
) -> (res: Result<(), String>)
    requires
        sk.wf(),
        !(verify_spec(fp_tables(tables@), *sk, claim@, tag@, d as nat, pf@) is Panics),
    ensures
        verdict_result(verify_spec(fp_tables(tables@), *sk, claim@, tag@, d as nat, pf@), res),
{
    match verify_checked(tables, sk, claim, tag, d, pf) {
        Some(r) => r,
        None => {
            proof {
                assert(false);
            }
            Ok(())
        },
    }
}

} // verus!
