//! The tagged prover and verifier.
use crate::ext::{lemma_fp2_canon, Ext, Fp2};
use crate::field::{lemma_fp_view_bound, Fp, P};
use crate::keccak::{keccak256, keccak256_digest};
use crate::rounds::{fold_round, fold_skip, fold_skip_value, fold_table, fp2_tables, fp_tables, round_message, round_value, skip_message, skip_value, tables_cover, num_blocks};
use crate::skip::{fp2s, fps, Skip};
use crate::transcript::{fe_le, challenge_spec, exts_bytes, fes_bytes, ro_state, transcript_init, Transcript};
use vstd::bytes::{spec_u64_to_le_bytes, u64_to_le_bytes};
use vstd::prelude::*;

verus! {

broadcast use {lemma_fp_view_bound, lemma_fp2_canon};

/// A proof: the skip message, the round messages and the final table values.
pub struct Proof {
    pub skip: Vec<Fp>,
    pub rounds: Vec<Vec<Fp2>>,
    pub finals: Vec<Fp2>,
}

/// The values of a proof.
pub struct ProofModel {
    pub skip: Seq<nat>,
    pub rounds: Seq<Seq<Ext>>,
    pub finals: Seq<Ext>,
}

impl View for Proof {
    type V = ProofModel;

    open spec fn view(&self) -> ProofModel {
        ProofModel {
            skip: fps(self.skip@),
            rounds: fp2_tables(self.rounds@),
            finals: fp2s(self.finals@),
        }
    }
}

/// The number of times `n` halves evenly (its 2-adic valuation; 0 for 0).
pub open spec fn two_adicity(n: nat) -> nat
    decreases n,
{
    if n > 0 && n % 2 == 0 {
        1 + two_adicity(n / 2)
    } else {
        0
    }
}

/// The tables folded at the skip challenge.
pub open spec fn fold_skip_tables(t: Seq<Seq<nat>>, hs: nat, r: Ext) -> Seq<Seq<Ext>> {
    Seq::new(t.len(), |i: int| Seq::new(t[i].len() / hs, |c: int| fold_skip_value(t[i], hs, r, c as nat)))
}

/// Every table folded at `r`.
pub open spec fn fold_tables(g: Seq<Seq<Ext>>, r: Ext) -> Seq<Seq<Ext>> {
    Seq::new(g.len(), |i: int| fold_table(g[i], r))
}

/// The round message of the tables: the round polynomial on `0..=d`.
pub open spec fn round_message_spec(g: Seq<Seq<Ext>>, d: nat) -> Seq<Ext> {
    Seq::new(d + 1, |t: int| round_value(g, g[0].len() / 2, t as nat))
}

/// The transcript state, the tables and the messages after `n` ordinary rounds.
pub open spec fn tail_rounds(block: Seq<u8>, state: Seq<u8>, g: Seq<Seq<Ext>>, d: nat, n: nat) -> (
    Seq<u8>,
    Seq<Seq<Ext>>,
    Seq<Seq<Ext>>,
)
    decreases n,
{
    if n == 0 {
        (state, g, seq![])
    } else {
        let (s, g1, ms) = tail_rounds(block, state, g, d, (n - 1) as nat);
        let m = round_message_spec(g1, d);
        let (s2, rj) = challenge_spec(block, ro_state(block, s, exts_bytes(m)));
        (s2, fold_tables(g1, rj), ms.push(m))
    }
}

/// The transcript state after seeding with the tag, the claim and the skip message.
pub open spec fn seeded_state(tag: Seq<u8>, claim: nat, skip: Seq<nat>) -> Seq<u8> {
    let (block, s0) = transcript_init(tag);
    let s1 = ro_state(block, s0, fes_bytes(seq![claim]));
    ro_state(block, s1, fes_bytes(skip))
}

/// The proof that the prover sends for `tag`, given the skip message.
pub open spec fn prove_tail_spec(
    t: Seq<Seq<nat>>,
    hs: nat,
    claim: nat,
    skip: Seq<nat>,
    tag: Seq<u8>,
    d: nat,
) -> ProofModel {
    let block = transcript_init(tag).0;
    let (s, r) = challenge_spec(block, seeded_state(tag, claim, skip));
    let g = fold_skip_tables(t, hs, r);
    let (_, gf, rounds) = tail_rounds(block, s, g, d, two_adicity(g[0].len()));
    ProofModel { skip, rounds, finals: Seq::new(gf.len(), |i: int| gf[i][0]) }
}

/// The skip message as a sequence of values.
pub open spec fn skip_message_spec(t: Seq<Seq<nat>>, hs: nat, ds: nat) -> Seq<nat> {
    Seq::new(ds, |y: int| skip_value(t, hs, num_blocks(t, hs), y as nat))
}

/// The width every table must reach for the tail: the first table's block
/// count where a round runs (its rounds read every table that far), else 1
/// (the final value of each table).
pub open spec fn tail_width(t: Seq<Seq<nat>>, hs: nat) -> nat {
    if two_adicity(num_blocks(t, hs)) > 0 {
        num_blocks(t, hs)
    } else {
        1
    }
}

/// Inputs on which the prover's tail runs: at least one table, at least one
/// block in the first, every table folded to at least `tail_width`, and,
/// where a round runs, `d + 1` fitting a `usize`.
pub open spec fn tail_inputs_ok(t: Seq<Seq<nat>>, sk: Skip, d: nat) -> bool {
    &&& sk.wf()
    &&& t.len() >= 1
    &&& num_blocks(t, sk.hsize as nat) >= 1
    &&& forall|i: int| 0 <= i < t.len() ==> (#[trigger] t[i]).len() / (sk.hsize as nat) >= tail_width(t, sk.hsize as nat)
    &&& two_adicity(num_blocks(t, sk.hsize as nat)) > 0 ==> d < usize::MAX
}

/// Inputs on which the prover runs: at least one table, every table holding
/// the blocks of the first, at least one block, `H` inside `D`, and, where a
/// round runs, `d + 1` fitting a `usize`.
pub open spec fn prover_inputs_ok(t: Seq<Seq<nat>>, sk: Skip, d: nat) -> bool {
    &&& sk.wf()
    &&& tables_cover(t, sk.hsize as nat)
    &&& num_blocks(t, sk.hsize as nat) >= 1
    &&& sk.hsize <= sk.dsize
    &&& two_adicity(num_blocks(t, sk.hsize as nat)) > 0 ==> d < usize::MAX
}

fn copy_fps(xs: &[Fp]) -> (v: Vec<Fp>)
    ensures
        v@ == xs@,
{
    let mut v: Vec<Fp> = Vec::new();
    let mut i: usize = 0;
    while i < xs.len()
        invariant
            i <= xs@.len(),
            v@ == xs@.subrange(0, i as int),
        decreases xs@.len() - i,
    {
        v.push(xs[i]);
        i = i + 1;
    }
    assert(xs@.subrange(0, xs@.len() as int) == xs@);
    v
}

pub proof fn lemma_two_adicity_bound(n: nat)
    ensures
        two_adicity(n) <= n,
    decreases n,
{
    if n > 0 && n % 2 == 0 {
        lemma_two_adicity_bound(n / 2);
    }
}

/// The 2-adic valuation of a length.
fn two_adicity_of(n: usize) -> (k: usize)
    ensures
        k == two_adicity(n as nat),
{
    let mut m = n;
    let mut k: usize = 0;
    proof {
        lemma_two_adicity_bound(n as nat);
    }
    while m > 0 && m % 2 == 0
        invariant
            k + two_adicity(m as nat) == two_adicity(n as nat),
            two_adicity(n as nat) <= n,
        decreases m,
    {
        m = m / 2;
        k = k + 1;
    }
    k
}

/// The part after the skip message, which depends on the tag through the transcript.
pub fn prove_tail(
    tables: &[Vec<Fp>],
    sk: &Skip,
    claim: Fp,
    skip: &[Fp],
    tag: &[u8; 32],
    d: usize,
) -> (pf: Proof)
    requires
        tail_inputs_ok(fp_tables(tables@), *sk, d as nat),
    ensures
        pf@ == prove_tail_spec(fp_tables(tables@), sk.hsize as nat, claim@, fps(skip@), tag@, d as nat),
{
    let ghost t = fp_tables(tables@);
    let ghost hsn = sk.hsize as nat;
    let mut tr = Transcript::new(tag);
    let cl = vec![claim];
    tr.absorb_f(cl.as_slice());
    tr.absorb_f(skip);
    proof {
        assert(fps(cl@) == seq![claim@]);
    }
    let ghost block = tr@.0;
    let r = tr.challenge();
    let mut g = fold_skip(tables, sk, r);
    proof {
        assert forall|i: int| 0 <= i < g@.len() implies #[trigger] fp2_tables(g@)[i] =~= fold_skip_tables(t, hsn, r@)[i] by {}
        assert(fp2_tables(g@) =~= fold_skip_tables(t, hsn, r@));
        assert forall|i: int| 0 <= i < g@.len() implies (#[trigger] g@[i])@.len() >= tail_width(t, hsn) by {
            assert(t[i].len() / hsn >= tail_width(t, hsn));
        }
    }
    let l_rem = two_adicity_of(g[0].len());
    proof {
        assert forall|i: int| 0 <= i < g@.len() implies (#[trigger] g@[i])@.len() >= (if l_rem > 0 {
            g@[0]@.len()
        } else {
            1
        }) by {
            assert(g@[i]@.len() >= tail_width(t, hsn));
        }
    }
    let ghost g0 = fp2_tables(g@);
    let ghost s0 = tr@.1;
    let mut rounds: Vec<Vec<Fp2>> = Vec::new();
    let mut k: usize = 0;
    while k < l_rem
        invariant
            tr@.0 == block,
            g@.len() == tables@.len(),
            g@.len() >= 1,
            k <= l_rem,
            l_rem > 0 ==> d < usize::MAX,
            (tr@.1, fp2_tables(g@), fp2_tables(rounds@)) == tail_rounds(block, s0, g0, d as nat, k as nat),
            forall|i: int| 0 <= i < g@.len() ==> (#[trigger] g@[i])@.len() >= (if l_rem > 0 {
                g@[0]@.len()
            } else {
                1
            }),
            g@[0]@.len() >= 1,
            k + two_adicity(g@[0]@.len() as nat) == l_rem,
        decreases l_rem - k,
    {
        let m = round_message(g.as_slice(), d);
        tr.absorb_ef(m.as_slice());
        let rj = tr.challenge();
        let ghost before = g@;
        fold_round(&mut g, rj);
        proof {
            let ghost mv = fp2s(m@);
            assert(mv =~= round_message_spec(fp2_tables(before), d as nat));
            assert(fp2_tables(g@) =~= fold_tables(fp2_tables(before), rj@));
            assert forall|i: int| 0 <= i < g@.len() implies (#[trigger] g@[i])@.len() >= g@[0]@.len() by {
                assert(before[i]@.len() >= before[0]@.len());
                assert(fp2s(g@[i]@).len() == fp2s(before[i]@).len() / 2);
                assert(fp2s(g@[0]@).len() == fp2s(before[0]@).len() / 2);
            }
            assert(fp2s(g@[0]@).len() == fp2s(before[0]@).len() / 2);
            assert(fp2_tables(rounds@.push(m)) =~= fp2_tables(rounds@).push(mv));
        }
        rounds.push(m);
        k = k + 1;
    }
    let mut finals: Vec<Fp2> = Vec::new();
    let mut i: usize = 0;
    while i < g.len()
        invariant
            i <= g@.len(),
            forall|q: int| 0 <= q < g@.len() ==> (#[trigger] g@[q])@.len() >= 1,
            finals@.len() == i,
            forall|q: int| 0 <= q < i ==> (#[trigger] finals@[q]) == g@[q]@[0],
        decreases g@.len() - i,
    {
        finals.push(g[i][0]);
        i = i + 1;
    }
    let pf = Proof { skip: copy_fps(skip), rounds, finals };
    proof {
        assert(pf@.finals =~= Seq::new(fp2_tables(g@).len(), |i: int| fp2_tables(g@)[i][0]));
    }
    pf
}

/// The prover: the skip message, then the tagged tail.
pub fn prove(tables: &[Vec<Fp>], sk: &Skip, claim: Fp, tag: &[u8; 32], d: usize) -> (pf: Proof)
    requires
        prover_inputs_ok(fp_tables(tables@), *sk, d as nat),
    ensures
        pf@ == prove_tail_spec(
            fp_tables(tables@),
            sk.hsize as nat,
            claim@,
            skip_message_spec(fp_tables(tables@), sk.hsize as nat, sk.dsize as nat),
            tag@,
            d as nat,
        ),
{
    let skip = skip_message(tables, sk);
    proof {
        let t = fp_tables(tables@);
        let hsn = sk.hsize as nat;
        assert forall|i: int| 0 <= i < t.len() implies (#[trigger] t[i]).len() / hsn >= tail_width(t, hsn) by {
            assert(t[i].len() / hsn >= t[0].len() / hsn);
        }
        assert(fps(skip@) =~= skip_message_spec(fp_tables(tables@), sk.hsize as nat, sk.dsize as nat));
    }
    prove_tail(tables, sk, claim, skip.as_slice(), tag, d)
}

/// The bytes of "tag".
pub open spec fn tag_label() -> Seq<u8> {
    seq![116u8, 97, 103]
}

/// The tag of index `i`: `Keccak256("tag" || i as 8 little-endian bytes)`.
pub fn tag_of(i: u64) -> (tag: [u8; 32])
    ensures
        tag@ == keccak256(tag_label() + spec_u64_to_le_bytes(i)),
{
    let mut msg: Vec<u8> = vec![116u8, 97, 103];
    let le = u64_to_le_bytes(i);
    let mut j: usize = 0;
    while j < le.len()
        invariant
            j <= le@.len(),
            msg@ == tag_label() + le@.subrange(0, j as int),
        decreases le@.len() - j,
    {
        msg.push(le[j]);
        j = j + 1;
    }
    assert(le@.subrange(0, le@.len() as int) == le@);
    keccak256_digest(msg.as_slice())
}

/// The skip challenge is drawn from a state that has absorbed the tag, the
/// domain label, the claim and then the skip message, each as one Keccak-256
/// call over the tag block, the previous state and the message; two distinct
/// claims enter that hash as distinct bytes.
pub proof fn lemma_seeded_state_binds_claim(tag: Seq<u8>, claim: nat, other: nat, skip: Seq<nat>)
    ensures
        ({
            let (block, s0) = transcript_init(tag);
            &&& seeded_state(tag, claim, skip) == keccak256(
                block + keccak256(block + s0 + fe_le(claim)) + fes_bytes(skip),
            )
            &&& (claim < P && other < P && claim != other ==> block + s0 + fe_le(claim) != block + s0
                + fe_le(other))
        }),
{
    let (block, s0) = transcript_init(tag);
    crate::transcript::lemma_fes_bytes_single(claim);
    if claim < P && other < P && claim != other {
        crate::transcript::lemma_fe_le(claim);
        crate::transcript::lemma_fe_le(other);
        let (u, v) = (block + s0 + fe_le(claim), block + s0 + fe_le(other));
        if u == v {
            let n = (block + s0).len() as int;
            assert(u.subrange(n, n + 8) =~= fe_le(claim));
            assert(v.subrange(n, n + 8) =~= fe_le(other));
        }
    }
}

} // verus!
