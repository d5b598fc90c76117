use p3_field::{PrimeCharacteristicRing, PrimeField64};
use p3_goldilocks::Goldilocks;
use sumcheck_uniskip::ext::Fp2;
use sumcheck_uniskip::field::{Fp, P};
use sumcheck_uniskip::protocol::{prove, prove_tail, tag_of, Proof};
use sumcheck_uniskip::rounds::{
    claim_of, eval_univariate, fold_round, fold_skip, round_message, skip_message,
};
use sumcheck_uniskip::skip::{node_weights, Skip};
use sumcheck_uniskip::transcript::Transcript;
use sumcheck_uniskip::verify::{verify, verify_checked};
use tiny_keccak::{Hasher, Keccak};

fn lcg(state: &mut u64) -> u64 {
    *state = state.wrapping_mul(6364136223846793005).wrapping_add(1442695040888963407);
    *state ^ (*state >> 29)
}

fn random_tables(d: usize, l: usize, seed: u64) -> Vec<Vec<Fp>> {
    let mut s = seed;
    (0..d).map(|_| (0..1usize << l).map(|_| Fp::from_u64(lcg(&mut s))).collect()).collect()
}

fn ef(a: u64, b: u64) -> Fp2 {
    Fp2::new(Fp::from_u64(a), Fp::from_u64(b))
}

fn c(x: &Fp2) -> (u64, u64) {
    let (a, b) = x.coeffs();
    (a.as_canonical_u64(), b.as_canonical_u64())
}

fn same_proof(a: &Proof, b: &Proof) -> bool {
    a.skip == b.skip && a.rounds == b.rounds && a.finals == b.finals
}

/// Horner evaluation of a polynomial with base-field coefficients at an extension point.
fn horner(coeffs: &[u64], r: &Fp2) -> Fp2 {
    let mut acc = Fp2::zero();
    for &k in coeffs.iter().rev() {
        acc = acc.mul(r).add(&Fp2::from_u64(k));
    }
    acc
}

#[test]
fn skip_new_small_tables() {
    let sk = Skip::new(1, 2);
    assert_eq!(sk.hsize, 2);
    assert_eq!(sk.dsize, 3);
    // H = {0, 1}, y = 2: L_0(2) = -1, L_1(2) = 2.
    assert_eq!(sk.lag.len(), 1);
    assert_eq!(sk.lag[0][0].as_canonical_u64(), P - 1);
    assert_eq!(sk.lag[0][1].as_canonical_u64(), 2);
    // D = {0, 1, 2}: weights 1/2, -1, 1/2.
    let half = (P + 1) / 2;
    let b: Vec<u64> = sk.bary.iter().map(|x| x.as_canonical_u64()).collect();
    assert_eq!(b, vec![half, P - 1, half]);
    let h: Vec<u64> = sk.hweights.iter().map(|x| x.as_canonical_u64()).collect();
    assert_eq!(h, vec![P - 1, 1]);
    let sk3 = Skip::new(3, 3);
    assert_eq!(sk3.hsize, 8);
    assert_eq!(sk3.dsize, 22);
    assert_eq!(sk3.lag.len(), 14);
    let sk0 = Skip::new(1, 0);
    assert_eq!(sk0.dsize, 1);
    assert_eq!(sk0.lag.len(), 0);
}

#[test]
fn node_weights_are_inverse_node_products() {
    let w = node_weights(4);
    // nodes 0..4: prod_{j != i} (i - j) = -6, 2, -2, 6
    let dens = [P - 6, 2, P - 2, 6];
    for i in 0..4 {
        assert_eq!(w[i].mul(&Fp::from_u64(dens[i])).as_canonical_u64(), 1);
    }
}

#[test]
fn lagrange_weights_at_point() {
    let sk = Skip::new(2, 2);
    // at a node of H the weights are the unit vector
    let w = sk.weights_at(Fp2::from_u64(2));
    let cs: Vec<(u64, u64)> = w.iter().map(c).collect();
    assert_eq!(cs, vec![(0, 0), (0, 0), (1, 0), (0, 0)]);
    // they always sum to one
    let r = ef(123456789, 987654321);
    let w = sk.weights_at(r);
    let mut s = Fp2::zero();
    for x in &w {
        s = s.add(x);
    }
    assert_eq!(c(&s), (1, 0));
}

#[test]
fn eval_univariate_interpolates() {
    // f(x) = 1 + 2x + 3x^2
    let coeffs = [1u64, 2, 3];
    let vals: Vec<Fp2> = (0..3u64).map(|x| horner(&coeffs, &Fp2::from_u64(x))).collect();
    let r = ef(10, 4);
    assert_eq!(c(&eval_univariate(&vals, r)), c(&horner(&coeffs, &r)));
    assert_eq!(c(&eval_univariate(&vals, Fp2::from_u64(5))), (1 + 10 + 75, 0));
    for i in 0..3u64 {
        assert_eq!(c(&eval_univariate(&vals, Fp2::from_u64(i))), c(&vals[i as usize]));
    }
    assert_eq!(c(&eval_univariate(&[ef(8, 9)], ef(1, 1))), (8, 9));
}

#[test]
fn eval_on_d_interpolates() {
    let sk = Skip::new(2, 3);
    assert_eq!(sk.dsize, 10);
    let coeffs: Vec<u64> = (0..10u64).map(|k| k * k + 3).collect();
    let vals: Vec<Fp2> = (0..10u64).map(|x| horner(&coeffs, &Fp2::from_u64(x))).collect();
    let r = ef(31337, 4242);
    assert_eq!(c(&sk.eval_on_d(&vals, r)), c(&horner(&coeffs, &r)));
    assert_eq!(c(&sk.eval_on_d(&vals, Fp2::from_u64(7))), c(&vals[7]));
    assert!(sk.try_eval_on_d(&vals, r).is_some());
}

#[test]
fn skip_message_sums_to_claim() {
    for &(l, d, k) in &[(4usize, 2usize, 1usize), (5, 3, 2), (6, 2, 3)] {
        let tables = random_tables(d, l, 11 + l as u64);
        let sk = Skip::new(k, d);
        let claim = claim_of(&tables, 1 << l);
        let s = skip_message(&tables, &sk);
        assert_eq!(s.len(), sk.dsize);
        let mut sum = Fp::zero();
        for h in 0..sk.hsize {
            sum = sum.add(&s[h]);
        }
        assert!(sum.equals(&claim));
    }
}

#[test]
fn skip_message_small_exact() {
    // one table [1, 2, 3, 4], k = 1: blocks (1, 2), (3, 4); D = {0, 1} for d = 1
    let t = vec![vec![Fp::from_u64(1), Fp::from_u64(2), Fp::from_u64(3), Fp::from_u64(4)]];
    let sk = Skip::new(1, 1);
    let s = skip_message(&t, &sk);
    let v: Vec<u64> = s.iter().map(|x| x.as_canonical_u64()).collect();
    assert_eq!(v, vec![4, 6]);
    // two tables, d = 2: s(y) = sum_b f1(y, b) f2(y, b), s(2) uses 2 t[1] - t[0]
    let t2 = vec![
        vec![Fp::from_u64(1), Fp::from_u64(2), Fp::from_u64(3), Fp::from_u64(4)],
        vec![Fp::from_u64(5), Fp::from_u64(6), Fp::from_u64(7), Fp::from_u64(8)],
    ];
    let sk2 = Skip::new(1, 2);
    let s2 = skip_message(&t2, &sk2);
    let v2: Vec<u64> = s2.iter().map(|x| x.as_canonical_u64()).collect();
    assert_eq!(v2, vec![1 * 5 + 3 * 7, 2 * 6 + 4 * 8, 3 * 7 + 5 * 9]);
    assert_eq!(claim_of(&t2, 4).as_canonical_u64(), 5 + 12 + 21 + 32);
}

#[test]
fn fold_skip_at_a_node_selects() {
    let t = vec![vec![Fp::from_u64(1), Fp::from_u64(2), Fp::from_u64(3), Fp::from_u64(4)]];
    let sk = Skip::new(1, 1);
    let g = fold_skip(&t, &sk, Fp2::from_u64(1));
    let v: Vec<(u64, u64)> = g[0].iter().map(c).collect();
    assert_eq!(v, vec![(2, 0), (4, 0)]);
    let g = fold_skip(&t, &sk, Fp2::from_u64(3));
    // the line through (0, a), (1, b) at 3 is 3b - 2a
    let v: Vec<(u64, u64)> = g[0].iter().map(c).collect();
    assert_eq!(v, vec![(4, 0), (6, 0)]);
}

#[test]
fn round_message_and_fold() {
    let g = vec![
        vec![Fp2::from_u64(1), Fp2::from_u64(2), Fp2::from_u64(3), Fp2::from_u64(4)],
        vec![Fp2::from_u64(5), Fp2::from_u64(6), Fp2::from_u64(7), Fp2::from_u64(8)],
    ];
    let m = round_message(&g, 2);
    let v: Vec<(u64, u64)> = m.iter().map(c).collect();
    // p(t) = (1 + t)(5 + t) + (3 + t)(7 + t)
    assert_eq!(v, vec![(5 + 21, 0), (12 + 32, 0), (21 + 45, 0)]);
    assert_eq!(c(&m[0].add(&m[1])), (5 + 12 + 21 + 32, 0));
    let mut g2 = g.clone();
    fold_round(&mut g2, Fp2::from_u64(10));
    let v: Vec<Vec<(u64, u64)>> = g2.iter().map(|t| t.iter().map(c).collect()).collect();
    assert_eq!(v, vec![vec![(11, 0), (13, 0)], vec![(15, 0), (17, 0)]]);
    let mut odd = vec![vec![Fp2::from_u64(1), Fp2::from_u64(2), Fp2::from_u64(3)]];
    fold_round(&mut odd, Fp2::zero());
    assert_eq!(odd[0].len(), 1);
    assert_eq!(c(&odd[0][0]), (1, 0));
}

#[test]
fn tag_of_is_keccak_of_label_and_index() {
    for i in [0u64, 1, 1_000_000] {
        let mut k = Keccak::v256();
        k.update(b"tag");
        k.update(&i.to_le_bytes());
        let mut o = [0u8; 32];
        k.finalize(&mut o);
        assert_eq!(tag_of(i), o);
    }
    assert_ne!(tag_of(0), tag_of(1));
}

#[test]
fn transcript_matches_keccak_construction() {
    let tag = tag_of(3);
    let mut block = [0u8; 136];
    block[..32].copy_from_slice(&tag);
    let ro = |state: &[u8; 32], msg: &[u8]| -> [u8; 32] {
        let mut k = Keccak::v256();
        k.update(&block);
        k.update(state);
        k.update(msg);
        let mut o = [0u8; 32];
        k.finalize(&mut o);
        o
    };
    let mut state = ro(&[0u8; 32], b"sumcheck-uniskip-v1");
    let mut tr = Transcript::new(&tag);
    let xs = [Fp::from_u64(5), Fp::from_u64(P + 9)];
    tr.absorb_f(&xs);
    let mut msg = Vec::new();
    msg.extend_from_slice(&5u64.to_le_bytes());
    msg.extend_from_slice(&9u64.to_le_bytes());
    state = ro(&state, &msg);
    let e = [ef(1, 2)];
    tr.absorb_ef(&e);
    let mut msg = Vec::new();
    msg.extend_from_slice(&1u64.to_le_bytes());
    msg.extend_from_slice(&2u64.to_le_bytes());
    state = ro(&state, &msg);
    let ch = tr.challenge();
    let mut cs = [0u64; 2];
    for slot in cs.iter_mut() {
        state = ro(&state, b"challenge");
        let w = u64::from_le_bytes(state[..8].try_into().unwrap());
        *slot = Goldilocks::from_u64(w % P).as_canonical_u64();
    }
    assert_eq!(c(&ch), (cs[0], cs[1]));
}

#[test]
fn honest_proofs_verify() {
    for &(l, d, k) in &[(4usize, 2usize, 1usize), (5, 3, 2), (6, 2, 3), (4, 2, 4), (5, 1, 2), (7, 3, 5)] {
        let tables = random_tables(d, l, 100 + l as u64 + d as u64);
        let sk = Skip::new(k, d);
        let claim = claim_of(&tables, 1 << l);
        let tag = tag_of(0);
        let pf = prove(&tables, &sk, claim, &tag, d);
        assert_eq!(pf.skip.len(), sk.dsize);
        assert_eq!(pf.rounds.len(), l - k);
        assert_eq!(pf.finals.len(), d);
        assert!(pf.rounds.iter().all(|m| m.len() == d + 1));
        assert_eq!(verify(&tables, &sk, claim, &tag, d, &pf), Ok(()));
        assert_eq!(verify_checked(&tables, &sk, claim, &tag, d, &pf), Some(Ok(())));
    }
}

#[test]
fn batch_proof_equals_single_proof() {
    let (l, d, k) = (6usize, 3usize, 2usize);
    let tables = random_tables(d, l, 5);
    let sk = Skip::new(k, d);
    let claim = claim_of(&tables, 1 << l);
    let skip = skip_message(&tables, &sk);
    for i in 0..4u64 {
        let tag = tag_of(i);
        let batch = prove_tail(&tables, &sk, claim, &skip, &tag, d);
        let single = prove(&tables, &sk, claim, &tag, d);
        assert!(same_proof(&batch, &single));
        assert_eq!(verify(&tables, &sk, claim, &tag, d, &batch), Ok(()));
    }
}

#[test]
fn replay_under_another_tag_is_rejected() {
    let (l, d, k) = (6usize, 2usize, 2usize);
    let tables = random_tables(d, l, 9);
    let sk = Skip::new(k, d);
    let claim = claim_of(&tables, 1 << l);
    let pf = prove(&tables, &sk, claim, &tag_of(0), d);
    assert!(verify(&tables, &sk, claim, &tag_of(1_000_000), d, &pf).is_err());
    let pf0 = prove(&tables, &sk, claim, &tag_of(1), d);
    assert!(!same_proof(&pf, &pf0));
}

#[test]
fn wrong_claim_is_rejected() {
    let (l, d, k) = (5usize, 3usize, 1usize);
    let tables = random_tables(d, l, 21);
    let sk = Skip::new(k, d);
    let claim = claim_of(&tables, 1 << l);
    let pf = prove(&tables, &sk, claim, &tag_of(0), d);
    let wrong = claim.add(&Fp::one());
    assert_eq!(
        verify(&tables, &sk, wrong, &tag_of(0), d, &pf),
        Err("skip message does not sum to the claim".to_string())
    );
}

#[test]
fn verifier_errors() {
    let (l, d, k) = (5usize, 2usize, 2usize);
    let tables = random_tables(d, l, 33);
    let sk = Skip::new(k, d);
    let claim = claim_of(&tables, 1 << l);
    let tag = tag_of(0);
    let pf = prove(&tables, &sk, claim, &tag, d);

    let mut short = Proof { skip: pf.skip[1..].to_vec(), rounds: pf.rounds.clone(), finals: pf.finals.clone() };
    assert_eq!(verify(&tables, &sk, claim, &tag, d, &short), Err("skip message length".to_string()));
    short.skip = pf.skip.clone();

    let mut bad_round = Proof { skip: pf.skip.clone(), rounds: pf.rounds.clone(), finals: pf.finals.clone() };
    bad_round.rounds[0].push(Fp2::zero());
    assert_eq!(verify(&tables, &sk, claim, &tag, d, &bad_round), Err("round message length".to_string()));

    let mut bad_value = Proof { skip: pf.skip.clone(), rounds: pf.rounds.clone(), finals: pf.finals.clone() };
    bad_value.rounds[0][0] = bad_value.rounds[0][0].add(&Fp2::one());
    assert_eq!(
        verify(&tables, &sk, claim, &tag, d, &bad_value),
        Err("round message inconsistent with the claim".to_string())
    );

    let mut bad_final = Proof { skip: pf.skip.clone(), rounds: pf.rounds.clone(), finals: pf.finals.clone() };
    bad_final.finals[1] = bad_final.finals[1].add(&Fp2::one());
    assert_eq!(verify(&tables, &sk, claim, &tag, d, &bad_final), Err("final evaluation mismatch".to_string()));

    // a skip message that sums to the claim on H but is wrong elsewhere, with no rounds left
    let (l2, k2) = (2usize, 2usize);
    let t2 = random_tables(d, l2, 44);
    let sk2 = Skip::new(k2, d);
    let claim2 = claim_of(&t2, 1 << l2);
    let mut skip = skip_message(&t2, &sk2);
    let last = skip.len() - 1;
    skip[last] = skip[last].add(&Fp::one());
    let forged = prove_tail(&t2, &sk2, claim2, &skip, &tag, d);
    assert_eq!(forged.rounds.len(), 0);
    assert_eq!(verify(&t2, &sk2, claim2, &tag, d, &forged), Err("final product mismatch".to_string()));
    // with rounds left, the first round catches it
    let mut skip = skip_message(&tables, &sk);
    let last = skip.len() - 1;
    skip[last] = skip[last].add(&Fp::one());
    let forged = prove_tail(&tables, &sk, claim, &skip, &tag, d);
    assert_eq!(
        verify(&tables, &sk, claim, &tag, d, &forged),
        Err("round message inconsistent with the claim".to_string())
    );
}

#[test]
fn verifier_cannot_finish() {
    // |H| > |D|: the skip message cannot be summed over H
    let sk = Skip::new(1, 0);
    let t = vec![vec![Fp::one(), Fp::one()]];
    let pf = Proof { skip: vec![Fp::zero()], rounds: vec![], finals: vec![] };
    assert_eq!(verify_checked(&t, &sk, Fp::zero(), &tag_of(0), 0, &pf), None);
    // a table shorter than the evaluation point needs
    let (l, d, k) = (4usize, 2usize, 1usize);
    let tables = random_tables(d, l, 3);
    let sk = Skip::new(k, d);
    let claim = claim_of(&tables, 1 << l);
    let pf = prove(&tables, &sk, claim, &tag_of(0), d);
    let mut short = tables.clone();
    short[0].truncate(4);
    assert_eq!(verify_checked(&short, &sk, claim, &tag_of(0), d, &pf), None);
}

#[test]
fn honest_proofs_verify_with_fewer_tables_than_degree() {
    // two tables under degree 3, with and without a skip
    for &k in &[0usize, 1, 2] {
        let (l, d) = (4usize, 3usize);
        let tables = random_tables(2, l, 77 + k as u64);
        let sk = Skip::new(k, d);
        let claim = claim_of(&tables, 1 << l);
        let tag = tag_of(3);
        let pf = prove(&tables, &sk, claim, &tag, d);
        assert_eq!(pf.rounds.len(), l - k);
        assert_eq!(verify(&tables, &sk, claim, &tag, d, &pf), Ok(()));
    }
}

#[test]
fn odd_block_count_fails_the_final_product() {
    // 6 entries in blocks of 2: three blocks, so no round can fold them to one
    let d = 2usize;
    let mut s = 5u64;
    let tables: Vec<Vec<Fp>> = (0..d).map(|_| (0..6).map(|_| Fp::from_u64(lcg(&mut s))).collect()).collect();
    let sk = Skip::new(1, d);
    let claim = claim_of(&tables, 6);
    let tag = tag_of(0);
    let pf = prove(&tables, &sk, claim, &tag, d);
    assert_eq!(pf.rounds.len(), 0);
    assert_eq!(verify(&tables, &sk, claim, &tag, d, &pf), Err("final product mismatch".to_string()));
}

#[test]
fn one_skipped_variable_is_the_first_round() {
    let (l, d) = (4usize, 3usize);
    let tables = random_tables(d, l, 11);
    let sk = Skip::new(1, d);
    let skip = skip_message(&tables, &sk);
    let lifted: Vec<Vec<Fp2>> =
        tables.iter().map(|t| t.iter().map(|x| Fp2::from_base(*x)).collect()).collect();
    let m = round_message(&lifted, d);
    assert_eq!(skip.len(), d + 1);
    assert_eq!(m.len(), d + 1);
    for (a, b) in skip.iter().zip(m.iter()) {
        assert!(Fp2::from_base(*a) == *b);
    }
}

#[test]
fn verifier_rejects_missing_final_values() {
    let tables = vec![vec![Fp::zero(); 2]; 2];
    let sk = Skip::new(1, 2);
    let claim = Fp::from_u64(2);
    let tag = [0u8; 32];
    let pf = Proof { skip: vec![Fp::one(); 3], rounds: vec![], finals: vec![] };
    assert_eq!(verify(&tables, &sk, claim, &tag, 2, &pf), Err("fewer final values than tables".to_string()));
    // extra final values are ignored: the product check still catches the wrong claim
    let extra = Proof { skip: vec![Fp::one(); 3], rounds: vec![], finals: vec![Fp2::zero(); 3] };
    assert_eq!(
        verify_checked(&tables, &sk, claim, &tag, 2, &extra),
        Some(Err("final product mismatch".to_string()))
    );
}

#[test]
fn verifier_ignores_extra_final_values() {
    let (l, d, k) = (4usize, 2usize, 2usize);
    let tables = random_tables(d, l, 61);
    let sk = Skip::new(k, d);
    let claim = claim_of(&tables, 1 << l);
    let tag = tag_of(2);
    let mut pf = prove(&tables, &sk, claim, &tag, d);
    pf.finals.push(Fp2::one());
    pf.finals.push(Fp2::zero());
    assert_eq!(verify(&tables, &sk, claim, &tag, d, &pf), Ok(()));
}

#[test]
fn prove_with_no_rounds_and_the_largest_degree() {
    // one block (k = l = 0): no round runs, so d + 1 need not fit a usize
    let tables = vec![vec![Fp::from_u64(3)], vec![Fp::from_u64(4)]];
    let sk = Skip::new(0, usize::MAX);
    let pf = prove(&tables, &sk, Fp::from_u64(12), &tag_of(0), usize::MAX);
    assert_eq!(pf.rounds.len(), 0);
    assert_eq!(pf.finals.len(), 2);
    assert_eq!(c(&pf.finals[0]), (3, 0));
    assert_eq!(c(&pf.finals[1]), (4, 0));
}

#[test]
fn prove_tail_with_degree_zero() {
    // |H| = 2 and d = 0, so |D| = 1 < |H|: the tail still runs
    let tables = random_tables(1, 3, 17);
    let sk = Skip::new(1, 0);
    let skip = vec![Fp::from_u64(5)];
    let pf = prove_tail(&tables, &sk, Fp::zero(), &skip, &tag_of(0), 0);
    assert!(pf.skip == skip);
    assert_eq!(pf.rounds.len(), 2);
    assert!(pf.rounds.iter().all(|m| m.len() == 1));
    assert_eq!(pf.finals.len(), 1);
}

#[test]
fn prove_tail_with_a_shorter_table_and_no_rounds() {
    // three blocks in the first table, one in the second: no round runs
    let mut s = 9u64;
    let tables: Vec<Vec<Fp>> = vec![
        (0..6).map(|_| Fp::from_u64(lcg(&mut s))).collect(),
        (0..2).map(|_| Fp::from_u64(lcg(&mut s))).collect(),
    ];
    let sk = Skip::new(1, 2);
    let skip = vec![Fp::one(); 3];
    let pf = prove_tail(&tables, &sk, Fp::zero(), &skip, &tag_of(0), 2);
    assert_eq!(pf.rounds.len(), 0);
    assert_eq!(pf.finals.len(), 2);
}
