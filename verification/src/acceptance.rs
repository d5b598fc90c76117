//! What the verifier's acceptance guarantees of any proof, honest or not:
//! the skip message sums to the claim over `H`, every round message has
//! `d + 1` values whose sum at 0 and 1 is the running claim, every final value
//! is the verifier's own evaluation of its table at the challenges, and the
//! product of the final values is the last running claim.
use crate::ext::{eadd, Ext};
use crate::protocol::{seeded_state, ProofModel};
use crate::rounds::interpolate;
use crate::skip::{lagrange_ext, Skip};
use crate::sums::{eprod, fsum};
use crate::transcript::{challenge_spec, transcript_init};
use crate::verify::{
    eq_table, oracle_run, oracle_value, rounds_run, seq_fn, skip_in_ext, verify_spec, Verdict,
};
use vstd::prelude::*;

verus! {

/// The running claim before round `j`: the first claim `c0`, then the
/// interpolation of the previous round message at the previous challenge.
pub open spec fn claim_before(c0: Ext, ms: Seq<Seq<Ext>>, point: Seq<Ext>, j: nat) -> Ext {
    if j == 0 {
        c0
    } else {
        interpolate(ms[j - 1], point[j - 1])
    }
}

/// An accepting pass over the round messages: one challenge per message, each
/// message of `d + 1` values summing at 0 and 1 to the claim before it, and
/// the last claim the interpolation of the last message at its challenge.
proof fn lemma_rounds_run_accepted(block: Seq<u8>, s0: Seq<u8>, c0: Ext, ms: Seq<Seq<Ext>>, d: nat, n: nat)
    requires
        n <= ms.len(),
        rounds_run(block, s0, c0, ms, d, n).verdict is Accepted,
    ensures
        ({
            let st = rounds_run(block, s0, c0, ms, d, n);
            &&& st.point.len() == n
            &&& st.cur == claim_before(c0, ms, st.point, n)
            &&& forall|j: int|
                0 <= j < n ==> (#[trigger] ms[j]).len() == d + 1 && eadd(ms[j][0], ms[j][1])
                    == claim_before(c0, ms, st.point, j as nat)
        }),
    decreases n,
{
    if n > 0 {
        let k = (n - 1) as nat;
        let prev = rounds_run(block, s0, c0, ms, d, k);
        let st = rounds_run(block, s0, c0, ms, d, n);
        if !(prev.verdict is Accepted) {
            assert(st == prev);
        }
        lemma_rounds_run_accepted(block, s0, c0, ms, d, k);
        let m = ms[k as int];
        let rj = st.point.last();
        assert(st.point == prev.point.push(rj) && st.cur == interpolate(m, rj) && m.len() == d + 1
            && eadd(m[0], m[1]) == prev.cur);
        assert forall|j: int| 0 <= j < n implies (#[trigger] ms[j]).len() == d + 1 && eadd(ms[j][0], ms[j][1])
            == claim_before(c0, ms, st.point, j as nat) by {
            if j > 0 {
                assert(st.point[j - 1] == prev.point[j - 1]);
            }
            assert(claim_before(c0, ms, st.point, j as nat) == claim_before(c0, ms, prev.point, j as nat));
        }
    }
}

/// An accepting oracle check: every final value is the evaluation of its
/// table, and the running product is the product of the final values.
proof fn lemma_oracle_run_accepted(
    t: Seq<Seq<nat>>,
    fins: Seq<Ext>,
    w: Seq<Ext>,
    eq: Seq<Ext>,
    hs: nat,
    n: nat,
)
    requires
        oracle_run(t, fins, w, eq, hs, n).0 is Accepted,
    ensures
        forall|i: int| 0 <= i < n ==> #[trigger] fins[i] == oracle_value(t[i], w, eq, hs),
        oracle_run(t, fins, w, eq, hs, n).1 == eprod(|i: nat| fins[i as int], n),
    decreases n,
{
    if n > 0 {
        let k = (n - 1) as nat;
        if !(oracle_run(t, fins, w, eq, hs, k).0 is Accepted) {
            assert(oracle_run(t, fins, w, eq, hs, n) == oracle_run(t, fins, w, eq, hs, k));
        }
        lemma_oracle_run_accepted(t, fins, w, eq, hs, k);
    }
}

/// Soundness of the checks: whatever the proof, if the verifier accepts it
/// then, with `r` the skip challenge and `point` the round challenges,
/// - the skip message has `|D|` values that sum to the claim over `H`;
/// - there is one challenge per round message, and each message has `d + 1`
///   values whose sum at 0 and 1 is the running claim before it (the skip
///   message interpolated at `r`, then each message at its challenge);
/// - there are final values for all tables, each equal to the verifier's own
///   evaluation of its table at `(r, point)`;
/// - the product of those final values is the last running claim.
pub proof fn lemma_accepted_proof(t: Seq<Seq<nat>>, sk: Skip, claim: nat, tag: Seq<u8>, d: nat, pf: ProofModel)
    requires
        verify_spec(t, sk, claim, tag, d, pf) is Accepted,
    ensures
        ({
            let hs = sk.hsize as nat;
            let block = transcript_init(tag).0;
            let (s, r) = challenge_spec(block, seeded_state(tag, claim, pf.skip));
            let c0 = interpolate(skip_in_ext(pf.skip), r);
            let point = rounds_run(block, s, c0, pf.rounds, d, pf.rounds.len()).point;
            let w = Seq::new(hs, |h: int| lagrange_ext(hs, h as nat, r));
            &&& pf.skip.len() == sk.dsize
            &&& fsum(seq_fn(pf.skip), hs) == claim
            &&& point.len() == pf.rounds.len()
            &&& forall|j: int|
                0 <= j < pf.rounds.len() ==> (#[trigger] pf.rounds[j]).len() == d + 1 && eadd(
                    pf.rounds[j][0],
                    pf.rounds[j][1],
                ) == claim_before(c0, pf.rounds, point, j as nat)
            &&& pf.finals.len() >= t.len()
            &&& forall|i: int|
                0 <= i < t.len() ==> #[trigger] pf.finals[i] == oracle_value(t[i], w, eq_table(point), hs)
            &&& eprod(|i: nat| pf.finals[i as int], t.len()) == claim_before(
                c0,
                pf.rounds,
                point,
                pf.rounds.len(),
            )
        }),
{
    let hs = sk.hsize as nat;
    let block = transcript_init(tag).0;
    let (s, r) = challenge_spec(block, seeded_state(tag, claim, pf.skip));
    let c0 = interpolate(skip_in_ext(pf.skip), r);
    let st = rounds_run(block, s, c0, pf.rounds, d, pf.rounds.len());
    let w = Seq::new(hs, |h: int| lagrange_ext(hs, h as nat, r));
    lemma_rounds_run_accepted(block, s, c0, pf.rounds, d, pf.rounds.len());
    lemma_oracle_run_accepted(t, pf.finals, w, eq_table(st.point), hs, t.len());
}

} // verus!
