# sumcheck_uniskip

A Fiat-Shamir sumcheck prover and verifier over the Goldilocks field
(P = 2^64 - 2^32 + 1) and its quadratic extension GF(P)[X] / (X^2 - 7), with a
univariate skip of the first k variables and a transcript bound to a 32-byte
tag (Keccak-256). The prover's first message is tag-independent, so a batch
prover computes it once and redoes only the per-tag tail.

The library is written in Verus; every function carries a contract over a
mathematical model (`Seq<nat>` tables, pairs of naturals for GF(P^2)).

## Layout

- `src/field.rs`, `src/ext.rs`: GF(P) and GF(P^2) elements; inverses come from
  p3 (`goldilocks_inverse`, `ext_inverse`).
- `src/keccak.rs`, `src/transcript.rs`: the tagged transcript; Keccak-256 is
  named (`keccak256`) and called through tiny-keccak.
- `src/skip.rs`: the nodes H and D, Lagrange and barycentric weights.
- `src/rounds.rs`: skip message, folds, round messages, univariate evaluation.
- `src/protocol.rs`: `prove_tail` and `prove`; `src/verify.rs`: the verifier.
  A proof must carry a final value for every table (fewer is rejected with
  "fewer final values than tables"); final values beyond the last table are
  ignored.
- `src/args.rs`: the `--name 1,2,3` list arguments.
- `src/sums.rs`, `src/algebra.rs`, `src/poly.rs`, `src/interp.rs`: sums,
  ring laws, polynomials, Lagrange interpolation.
- `src/bary.rs`, `src/msgpoly.rs`, `src/completeness.rs`: the barycentric
  evaluation is interpolation, messages are values of low-degree polynomials,
  and an honest proof passes the verifier (`lemma_honest_proof_accepted`);
  and a claim other than the true sum is rejected for the proof the prover
  makes (`lemma_wrong_claim_rejected`).
- `src/units.rs`: P is prime and 7 is a non-square modulo P, so GF(P^2) is a
  field (`lemma_ext_is_field`), shown with Lucas certificates.
- `app/main.rs`: the benchmark program (random tables, timing, CSV output).
- `tests/`: scenario tests, exact values, and agreement with p3 and tiny-keccak.
