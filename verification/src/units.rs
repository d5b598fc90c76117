//! P = 2^64 - 2^32 + 1 is prime and 7 is not a square modulo P, so every
//! nonzero element of GF(P^2) = GF(P)[X] / (X^2 - 7) is invertible.
//!
//! The argument is Lucas's: an element whose powers `g^0, .., g^(n-2)` are all
//! distinct modulo `n` and `g^(n-1) = 1` reaches every nonzero residue, so every
//! nonzero residue is a power of `g` and has an inverse. That the powers are
//! distinct follows from `g^((n-1)/q) != 1` for the prime factors `q` of
//! `n - 1`, checked by computation; `P - 1 = 2^32 3 5 17 257 65537`, and each of
//! those odd factors is in turn shown prime the same way.
use vstd::arithmetic::div_mod::{lemma_fundamental_div_mod, lemma_mod_twice, lemma_mul_mod_noop};
use vstd::arithmetic::power::{lemma_pow0, lemma_pow1, lemma_pow_adds, pow};
use crate::algebra::ext_is_field;
use crate::ext::{ecanon, emul, ezero, is_einverse, Ext};
use vstd::prelude::*;
use vstd::relations::injective_on;
use vstd::set_lib::set_int_range;

verus! {

/// `b^e mod n` by repeated squaring.
pub open spec fn mpow(b: int, e: nat, n: int) -> int
    decreases e,
{
    if e == 0 {
        1int % n
    } else {
        let h = mpow(b, e / 2, n);
        if e % 2 == 0 {
            (h * h) % n
        } else {
            ((h * h) % n * (b % n)) % n
        }
    }
}

/// Repeated squaring computes `b^e mod n`.
pub proof fn lemma_mpow(b: int, e: nat, n: int)
    requires
        n > 0,
    ensures
        mpow(b, e, n) == pow(b, e) % n,
    decreases e,
{
    if e == 0 {
        lemma_pow0(b);
    } else {
        let k = e / 2;
        lemma_mpow(b, k, n);
        let h = pow(b, k);
        lemma_pow_adds(b, k, k);
        lemma_mul_mod_noop(h, h, n);
        if e % 2 == 0 {
            assert(k + k == e);
        } else {
            assert(k + k + 1 == e);
            lemma_pow_adds(b, k + k, 1);
            lemma_pow1(b);
            lemma_mul_mod_noop(h * h, b, n);
            lemma_mod_twice(h * h, n);
        }
    }
}

/// One step of repeated squaring, on given values.
proof fn lemma_mpow_step(b: int, e: nat, n: int, h: int, v: int)
    requires
        n > 0,
        e > 0,
        mpow(b, e / 2, n) == h,
        v == (if e % 2 == 0 {
            (h * h) % n
        } else {
            ((h * h) % n * (b % n)) % n
        }),
    ensures
        mpow(b, e, n) == v,
{
}

/// `x` has an inverse modulo `n`.
pub open spec fn invertible_mod(x: int, n: int) -> bool {
    exists|y: int| 0 <= y < n && #[trigger] ((x * y) % n) == 1
}

/// Every nonzero residue modulo `n` has an inverse.
pub open spec fn units_mod(n: int) -> bool {
    forall|x: int| 0 < x < n ==> #[trigger] invertible_mod(x, n)
}

/// An odd divisor of `2 x` divides `x`.
proof fn lemma_odd_divides_half(m: int, x: int)
    requires
        m > 0,
        m % 2 == 1,
        x >= 0,
        (2 * x) % m == 0,
    ensures
        x % m == 0,
{
    let t = (2 * x) / m;
    lemma_fundamental_div_mod(2 * x, m);
    assert(2 * x == m * t);
    lemma_fundamental_div_mod(m, 2);
    lemma_fundamental_div_mod(t, 2);
    let (a, b) = (m / 2, t / 2);
    if t % 2 == 1 {
        assert(m * t == 2 * (2 * a * b + a + b) + 1) by (nonlinear_arith)
            requires
                m == 2 * a + 1,
                t == 2 * b + 1,
        ;
        assert(false);
    }
    assert(x == m * b) by (nonlinear_arith)
        requires
            2 * x == m * t,
            t == 2 * b + t % 2,
            t % 2 == 0,
    ;
    vstd::arithmetic::div_mod::lemma_mod_multiples_basic(b, m);
    vstd::arithmetic::mul::lemma_mul_is_commutative(m, b);
}

/// An odd divisor of `2^s x` divides `x`.
proof fn lemma_odd_divides(m: int, s: nat, x: int)
    requires
        m > 0,
        m % 2 == 1,
        x >= 0,
        (pow(2, s) * x) % m == 0,
    ensures
        x % m == 0,
    decreases s,
{
    if s == 0 {
        lemma_pow0(2);
    } else {
        vstd::arithmetic::power::lemma_pow_adds(2, (s - 1) as nat, 1);
        lemma_pow1(2);
        let k = pow(2, (s - 1) as nat);
        vstd::arithmetic::power::lemma_pow_positive(2, (s - 1) as nat);
        assert(pow(2, s) * x == 2 * (k * x)) by (nonlinear_arith)
            requires
                pow(2, s) == k * 2,
        ;
        assert(k * x >= 0) by (nonlinear_arith)
            requires
                k > 0,
                x >= 0,
        ;
        lemma_odd_divides_half(m, k * x);
        lemma_odd_divides(m, (s - 1) as nat, x);
    }
}

/// Euclid's lemma for a modulus `q` whose nonzero residues are invertible: if
/// `q` does not divide `m` and `m` divides `q y`, then `m` divides `y`.
proof fn lemma_euclid(q: int, m: int, y: int)
    requires
        q >= 2,
        units_mod(q),
        m > 0,
        y >= 0,
        m % q != 0,
        (q * y) % m == 0,
    ensures
        y % m == 0,
{
    let t = (q * y) / m;
    lemma_fundamental_div_mod(q * y, m);
    assert(q * y == m * t);
    let u = m % q;
    vstd::arithmetic::div_mod::lemma_mod_pos_bound(m, q);
    assert(invertible_mod(u, q));
    let v = choose|v: int| 0 <= v < q && #[trigger] ((u * v) % q) == 1;
    assert((u * v) % q == 1);
    // q divides m t, hence u t, hence t
    vstd::arithmetic::div_mod::lemma_mod_multiples_basic(y, q);
    vstd::arithmetic::mul::lemma_mul_is_commutative(q, y);
    assert((m * t) % q == 0);
    vstd::arithmetic::div_mod::lemma_mul_mod_noop_left(m, t, q);
    assert((u * t) % q == 0);
    vstd::arithmetic::div_mod::lemma_mul_mod_noop_right(v, u * t, q);
    assert((v * (u * t)) % q == 0) by {
        assert(v * ((u * t) % q) == 0);
        vstd::arithmetic::div_mod::lemma_small_mod(0, q as nat);
    }
    assert(v * (u * t) == (u * v) * t) by (nonlinear_arith);
    vstd::arithmetic::div_mod::lemma_mul_mod_noop_left(u * v, t, q);
    assert(t % q == 0);
    let t2 = t / q;
    lemma_fundamental_div_mod(t, q);
    assert(q * y == q * (m * t2)) by (nonlinear_arith)
        requires
            q * y == m * t,
            t == q * t2,
    ;
    assert(y == m * t2) by (nonlinear_arith)
        requires
            q * y == q * (m * t2),
            q >= 2,
    ;
    vstd::arithmetic::div_mod::lemma_mod_multiples_basic(t2, m);
    vstd::arithmetic::mul::lemma_mul_is_commutative(m, t2);
}

/// `g^k mod n`, as a function of `k`.
pub open spec fn gpow(g: int, n: int) -> spec_fn(int) -> int {
    |k: int| pow(g, k as nat) % n
}

/// The powers `g^k`, `0 <= k < n - 1`, of an element of order `n - 1` are
/// distinct nonzero residues.
proof fn lemma_powers_distinct(g: int, n: int)
    requires
        n >= 2,
        pow(g, (n - 1) as nat) % n == 1,
        forall|e: nat| 0 < e < n - 1 ==> #[trigger] (pow(g, e) % n) != 1,
    ensures
        injective_on(gpow(g, n), set_int_range(0, n - 1)),
        forall|k: int| 0 <= k < n - 1 ==> 0 < #[trigger] gpow(g, n)(k) < n,
{
    let e = (n - 1) as nat;
    let f = gpow(g, n);
    let a = set_int_range(0, n - 1);
    assert forall|k: int| 0 <= k < n - 1 implies 0 < #[trigger] gpow(g, n)(k) < n by {
        lemma_pow_adds(g, k as nat, (e - k) as nat);
        vstd::arithmetic::div_mod::lemma_mod_pos_bound(1, n);
        vstd::arithmetic::div_mod::lemma_mod_bound(pow(g, k as nat), n);
        if pow(g, k as nat) % n == 0 {
            vstd::arithmetic::div_mod::lemma_mul_mod_noop_left(pow(g, k as nat), pow(g, (e - k) as nat), n);
            vstd::arithmetic::div_mod::lemma_small_mod(0, n as nat);
        }
    }
    assert forall|i: int, j: int| a.contains(i) && a.contains(j) && #[trigger] f(i) == #[trigger] f(j) implies i == j by {
        if i != j {
            let (lo, hi) = if i < j { (i, j) } else { (j, i) };
            let x = pow(g, lo as nat);
            let c = pow(g, (hi - lo) as nat);
            let w = pow(g, (e - lo) as nat);
            lemma_pow_adds(g, lo as nat, (hi - lo) as nat);
            lemma_pow_adds(g, (e - lo) as nat, lo as nat);
            assert(pow(g, hi as nat) == x * c);
            assert(w * x == pow(g, e));
            // (w x) c == w (x c), read in two ways modulo n
            assert(w * (x * c) == (w * x) * c) by (nonlinear_arith);
            vstd::arithmetic::div_mod::lemma_mul_mod_noop_left(w * x, c, n);
            vstd::arithmetic::div_mod::lemma_mul_mod_noop_right(w, x * c, n);
            vstd::arithmetic::div_mod::lemma_mul_mod_noop_right(w, x, n);
            assert((x * c) % n == x % n);
            assert((w * x) % n == 1);
            assert(((w * x) * c) % n == (1 * c) % n);
            assert((w * (x * c)) % n == (w * (x % n)) % n);
            assert((w * (x % n)) % n == (w * x) % n);
            assert(c % n == 1);
        }
    }
}

/// An element of order `n - 1` modulo `n` makes every nonzero residue a power
/// of it; so every nonzero residue is invertible and `x^(n-1) = 1` (Fermat).
pub proof fn lemma_generator_units(g: int, n: int)
    requires
        n >= 2,
        pow(g, (n - 1) as nat) % n == 1,
        forall|e: nat| 0 < e < n - 1 ==> #[trigger] (pow(g, e) % n) != 1,
    ensures
        units_mod(n),
        forall|x: int| 0 < x < n ==> #[trigger] (pow(x, (n - 1) as nat) % n) == 1,
{
    let e = (n - 1) as nat;
    let f = gpow(g, n);
    let a = set_int_range(0, n - 1);
    let b = set_int_range(1, n);
    lemma_powers_distinct(g, n);
    vstd::set_lib::lemma_int_range(0, n - 1);
    vstd::set_lib::lemma_int_range(1, n);
    vstd::set_lib::lemma_map_size(a, a.map(f), f);
    assert(a.map(f).subset_of(b));
    vstd::set_lib::lemma_subset_equality(a.map(f), b);
    assert forall|x: int|
        #![trigger invertible_mod(x, n)]
        #![trigger pow(x, e) % n]
        0 < x < n implies invertible_mod(x, n) && pow(x, e) % n == 1 by {
        assert(b.contains(x));
        assert(a.map(f).contains(x));
        let k = choose|k: int| a.contains(k) && x == f(k);
        let y = pow(g, (e - k) as nat) % n;
        lemma_pow_adds(g, k as nat, (e - k) as nat);
        lemma_mul_mod_noop(pow(g, k as nat), pow(g, (e - k) as nat), n);
        vstd::arithmetic::div_mod::lemma_mod_bound(pow(g, (e - k) as nat), n);
        assert((x * y) % n == 1);
        // Fermat: x^e = (g^k)^e = (g^e)^k = 1
        vstd::arithmetic::power::lemma_pow_mod_noop(pow(g, k as nat), e, n);
        vstd::arithmetic::power::lemma_pow_multiplies(g, k as nat, e);
        vstd::arithmetic::power::lemma_pow_multiplies(g, e, k as nat);
        vstd::arithmetic::mul::lemma_mul_is_commutative(k, e as int);
        vstd::arithmetic::power::lemma_pow_mod_noop(pow(g, e), k as nat, n);
        vstd::arithmetic::power::lemma1_pow(k as nat);
        vstd::arithmetic::div_mod::lemma_small_mod(1, n as nat);
    }
}

/// `m` is a multiple of one of `qs`.
pub open spec fn has_factor_in(m: int, qs: Seq<int>) -> bool {
    exists|i: int| 0 <= i < qs.len() && #[trigger] (m % qs[i]) == 0
}

/// Every divisor `m >= 2` of `e` is a multiple of one of `qs`.
pub open spec fn divisors_covered(e: int, qs: Seq<int>) -> bool {
    forall|m: int| 2 <= m && e % m == 0 ==> #[trigger] has_factor_in(m, qs)
}

/// The least positive exponent below `e0` that gives 1.
proof fn lemma_least_exponent(g: int, n: int, e0: nat) -> (e: nat)
    requires
        0 < e0,
        pow(g, e0) % n == 1,
    ensures
        0 < e <= e0,
        pow(g, e) % n == 1,
        forall|e2: nat| 0 < e2 < e ==> #[trigger] (pow(g, e2) % n) != 1,
    decreases e0,
{
    if exists|e2: nat| 0 < e2 < e0 && #[trigger] (pow(g, e2) % n) == 1 {
        let e2 = choose|e2: nat| 0 < e2 < e0 && #[trigger] (pow(g, e2) % n) == 1;
        lemma_least_exponent(g, n, e2)
    } else {
        e0
    }
}

/// The order of `g` divides every exponent that gives 1.
proof fn lemma_order_divides(g: int, n: int, e: nat, big: nat)
    requires
        n >= 2,
        0 < e,
        pow(g, e) % n == 1,
        forall|e2: nat| 0 < e2 < e ==> #[trigger] (pow(g, e2) % n) != 1,
        pow(g, big) % n == 1,
    ensures
        (big as int) % (e as int) == 0,
{
    let q = (big / e) as nat;
    let r = (big % e) as nat;
    lemma_fundamental_div_mod(big as int, e as int);
    vstd::arithmetic::mul::lemma_mul_nonnegative(e as int, q as int);
    assert(big == e * q + r);
    lemma_pow_adds(g, e * q, r);
    vstd::arithmetic::power::lemma_pow_multiplies(g, e, q);
    vstd::arithmetic::power::lemma_pow_mod_noop(pow(g, e), q, n);
    vstd::arithmetic::power::lemma1_pow(q);
    vstd::arithmetic::div_mod::lemma_small_mod(1, n as nat);
    let x = pow(pow(g, e), q);
    assert(x % n == 1);
    vstd::arithmetic::div_mod::lemma_mul_mod_noop_left(x, pow(g, r), n);
    assert(x == pow(g, e * q));
    assert(pow(g, big) == x * pow(g, r));
    assert((x * pow(g, r)) % n == 1);
    assert(((x % n) * pow(g, r)) % n == (1 * pow(g, r)) % n);
    assert(pow(g, r) % n == 1);
}

/// A certificate of order `n - 1`: `g^(n-1) = 1` and `g^((n-1)/q) != 1` for
/// each `q` of a list covering the divisors of `n - 1`.
proof fn lemma_order_certificate(g: int, n: int, qs: Seq<int>)
    requires
        n >= 3,
        pow(g, (n - 1) as nat) % n == 1,
        divisors_covered(n - 1, qs),
        forall|i: int| 0 <= i < qs.len() ==> #[trigger] qs[i] > 0 && (n - 1) % qs[i] == 0,
        forall|i: int| 0 <= i < qs.len() ==> #[trigger] (pow(g, ((n - 1) / qs[i]) as nat) % n) != 1,
    ensures
        forall|e: nat| 0 < e < n - 1 ==> #[trigger] (pow(g, e) % n) != 1,
{
    let big = (n - 1) as nat;
    assert forall|e0: nat| 0 < e0 < n - 1 implies #[trigger] (pow(g, e0) % n) != 1 by {
        if pow(g, e0) % n == 1 {
            let e = lemma_least_exponent(g, n, e0);
            lemma_order_divides(g, n, e, big);
            let m: int = (big / e) as int;
            lemma_fundamental_div_mod(big as int, e as int);
            assert(big == e * m);
            assert(m >= 2) by (nonlinear_arith)
                requires
                    big == e * m,
                    0 < e < big,
            ;
            assert((big as int) % m == 0) by {
                vstd::arithmetic::div_mod::lemma_mod_multiples_basic(e as int, m);
                vstd::arithmetic::mul::lemma_mul_is_commutative(e as int, m);
            }
            assert(has_factor_in(m, qs));
            let i = choose|i: int| 0 <= i < qs.len() && #[trigger] (m % qs[i]) == 0;
            let q = qs[i];
            let m2 = m / q;
            lemma_fundamental_div_mod(m, q);
            assert(m == q * m2);
            vstd::arithmetic::mul::lemma_mul_nonnegative(q, m2);
            assert(m2 >= 0) by (nonlinear_arith)
                requires
                    m == q * m2,
                    m >= 2,
                    q > 0,
            ;
            assert(big == q * (e * m2)) by (nonlinear_arith)
                requires
                    big == e * m,
                    m == q * m2,
            ;
            vstd::arithmetic::div_mod::lemma_div_multiples_vanish(e * m2, q);
            vstd::arithmetic::mul::lemma_mul_nonnegative(e as int, m2);
            vstd::arithmetic::power::lemma_pow_multiplies(g, e, m2 as nat);
            vstd::arithmetic::power::lemma_pow_mod_noop(pow(g, e), m2 as nat, n);
            vstd::arithmetic::power::lemma1_pow(m2 as nat);
            vstd::arithmetic::div_mod::lemma_small_mod(1, n as nat);
            assert(pow(g, ((n - 1) / qs[i]) as nat) % n == 1);
        }
    }
}

/// A Fermat number `2^s + 1` with an element of order `2^s` has every nonzero residue invertible.
proof fn lemma_fermat_units(q: int, g: int, s: nat)
    requires
        q == pow(2, s) + 1,
        s >= 1,
        mpow(g, (q - 1) as nat, q) == 1,
        mpow(g, ((q - 1) / 2) as nat, q) != 1,
    ensures
        units_mod(q),
{
    vstd::arithmetic::power::lemma_pow_adds(2, (s - 1) as nat, 1);
    lemma_pow1(2);
    vstd::arithmetic::power::lemma_pow_positive(2, (s - 1) as nat);
    assert(q >= 3);
    lemma_mpow(g, (q - 1) as nat, q);
    lemma_mpow(g, ((q - 1) / 2) as nat, q);
    let qs = seq![2int];
    assert forall|m: int| 2 <= m && (q - 1) % m == 0 implies #[trigger] has_factor_in(m, qs) by {
        if m % 2 != 0 {
            vstd::arithmetic::div_mod::lemma_mod_pos_bound(m, 2);
            lemma_odd_divides(m, s, 1);
            vstd::arithmetic::div_mod::lemma_small_mod(1, m as nat);
        }
        assert(m % qs[0] == 0);
    }
    assert(pow(2, s) % 2 == 0) by {
        vstd::arithmetic::div_mod::lemma_mod_multiples_basic(pow(2, (s - 1) as nat), 2);
    }
    lemma_order_certificate(g, q, qs);
    lemma_generator_units(g, q);
}

/// 2 has order 2 modulo 3.
proof fn lemma_cert_3()
    ensures
        mpow(2, 2, 3) == 1,
        mpow(2, 1, 3) != 1,
{
    assert(mpow(2, 0, 3) == 1);
    lemma_mpow_step(2, 1, 3, 1, 2);
    lemma_mpow_step(2, 2, 3, 2, 1);
}

/// 2 has order 4 modulo 5.
proof fn lemma_cert_5()
    ensures
        mpow(2, 4, 5) == 1,
        mpow(2, 2, 5) != 1,
{
    assert(mpow(2, 0, 5) == 1);
    lemma_mpow_step(2, 1, 5, 1, 2);
    lemma_mpow_step(2, 2, 5, 2, 4);
    lemma_mpow_step(2, 4, 5, 4, 1);
}

/// 3 has order 16 modulo 17.
proof fn lemma_cert_17()
    ensures
        mpow(3, 16, 17) == 1,
        mpow(3, 8, 17) != 1,
{
    assert(mpow(3, 0, 17) == 1);
    lemma_mpow_step(3, 1, 17, 1, 3);
    lemma_mpow_step(3, 2, 17, 3, 9);
    lemma_mpow_step(3, 4, 17, 9, 13);
    lemma_mpow_step(3, 8, 17, 13, 16);
    lemma_mpow_step(3, 16, 17, 16, 1);
}

/// 3 has order 256 modulo 257.
proof fn lemma_cert_257()
    ensures
        mpow(3, 256, 257) == 1,
        mpow(3, 128, 257) != 1,
{
    assert(mpow(3, 0, 257) == 1);
    lemma_mpow_step(3, 1, 257, 1, 3);
    lemma_mpow_step(3, 2, 257, 3, 9);
    lemma_mpow_step(3, 4, 257, 9, 81);
    lemma_mpow_step(3, 8, 257, 81, 136);
    lemma_mpow_step(3, 16, 257, 136, 249);
    lemma_mpow_step(3, 32, 257, 249, 64);
    lemma_mpow_step(3, 64, 257, 64, 241);
    lemma_mpow_step(3, 128, 257, 241, 256);
    lemma_mpow_step(3, 256, 257, 256, 1);
}

/// 3 has order 65536 modulo 65537.
proof fn lemma_cert_65537()
    ensures
        mpow(3, 65536, 65537) == 1,
        mpow(3, 32768, 65537) != 1,
{
    assert(mpow(3, 0, 65537) == 1);
    lemma_mpow_step(3, 1, 65537, 1, 3);
    lemma_mpow_step(3, 2, 65537, 3, 9);
    lemma_mpow_step(3, 4, 65537, 9, 81);
    lemma_mpow_step(3, 8, 65537, 81, 6561);
    lemma_mpow_step(3, 16, 65537, 6561, 54449);
    lemma_mpow_step(3, 32, 65537, 54449, 61869);
    lemma_mpow_step(3, 64, 65537, 61869, 19139);
    lemma_mpow_step(3, 128, 65537, 19139, 15028);
    lemma_mpow_step(3, 256, 65537, 15028, 282);
    lemma_mpow_step(3, 512, 65537, 282, 13987);
    lemma_mpow_step(3, 1024, 65537, 13987, 8224);
    lemma_mpow_step(3, 2048, 65537, 8224, 65529);
    lemma_mpow_step(3, 4096, 65537, 65529, 64);
    lemma_mpow_step(3, 8192, 65537, 64, 4096);
    lemma_mpow_step(3, 16384, 65537, 4096, 65281);
    lemma_mpow_step(3, 32768, 65537, 65281, 65536);
    lemma_mpow_step(3, 65536, 65537, 65536, 1);
}

/// 7 to the power P - 1 is 1 modulo P, and to the power (P - 1) / 2 is not.
#[verifier::rlimit(40)]
proof fn lemma_cert_p()
    ensures
        mpow(7, 18446744069414584320, 18446744069414584321) == 1,
        mpow(7, 9223372034707292160, 18446744069414584321) != 1,
{
    assert(mpow(7, 0, 18446744069414584321) == 1);
    lemma_mpow_step(7, 1, 18446744069414584321, 1, 7);
    lemma_mpow_step(7, 3, 18446744069414584321, 7, 343);
    lemma_mpow_step(7, 7, 18446744069414584321, 343, 823543);
    lemma_mpow_step(7, 15, 18446744069414584321, 823543, 4747561509943);
    lemma_mpow_step(7, 31, 18446744069414584321, 4747561509943, 11074261478625843323);
    lemma_mpow_step(7, 63, 18446744069414584321, 11074261478625843323, 12148266161370408270);
    lemma_mpow_step(7, 127, 18446744069414584321, 12148266161370408270, 7007601668316978083);
    lemma_mpow_step(7, 255, 18446744069414584321, 7007601668316978083, 8125271997680889877);
    lemma_mpow_step(7, 511, 18446744069414584321, 8125271997680889877, 2624486902016877951);
    lemma_mpow_step(7, 1023, 18446744069414584321, 2624486902016877951, 8253119735826302939);
    lemma_mpow_step(7, 2047, 18446744069414584321, 8253119735826302939, 3543566522599720475);
    lemma_mpow_step(7, 4095, 18446744069414584321, 3543566522599720475, 11981551684735969599);
    lemma_mpow_step(7, 8191, 18446744069414584321, 11981551684735969599, 10062120588441922115);
    lemma_mpow_step(7, 16383, 18446744069414584321, 10062120588441922115, 10485806445487905393);
    lemma_mpow_step(7, 32767, 18446744069414584321, 10485806445487905393, 4139485063330164956);
    lemma_mpow_step(7, 65535, 18446744069414584321, 4139485063330164956, 12134830135347446949);
    lemma_mpow_step(7, 131071, 18446744069414584321, 12134830135347446949, 4326791766630348883);
    lemma_mpow_step(7, 262143, 18446744069414584321, 4326791766630348883, 206761543466863628);
    lemma_mpow_step(7, 524287, 18446744069414584321, 206761543466863628, 10086585273483141421);
    lemma_mpow_step(7, 1048575, 18446744069414584321, 10086585273483141421, 1855730417186139594);
    lemma_mpow_step(7, 2097151, 18446744069414584321, 1855730417186139594, 7626447102712710903);
    lemma_mpow_step(7, 4194303, 18446744069414584321, 7626447102712710903, 7790920094560990216);
    lemma_mpow_step(7, 8388607, 18446744069414584321, 7790920094560990216, 5901922255895126089);
    lemma_mpow_step(7, 16777215, 18446744069414584321, 5901922255895126089, 8935258787870022506);
    lemma_mpow_step(7, 33554431, 18446744069414584321, 8935258787870022506, 13093775858033092690);
    lemma_mpow_step(7, 67108863, 18446744069414584321, 13093775858033092690, 11243737384857129666);
    lemma_mpow_step(7, 134217727, 18446744069414584321, 11243737384857129666, 2063617152444052883);
    lemma_mpow_step(7, 268435455, 18446744069414584321, 2063617152444052883, 13064848991504552222);
    lemma_mpow_step(7, 536870911, 18446744069414584321, 13064848991504552222, 16593403251012455084);
    lemma_mpow_step(7, 1073741823, 18446744069414584321, 16593403251012455084, 5859133952941131217);
    lemma_mpow_step(7, 2147483647, 18446744069414584321, 5859133952941131217, 15659105665374529263);
    lemma_mpow_step(7, 4294967295, 18446744069414584321, 15659105665374529263, 1753635133440165772);
    lemma_mpow_step(7, 8589934590, 18446744069414584321, 1753635133440165772, 4614640910117430873);
    lemma_mpow_step(7, 17179869180, 18446744069414584321, 4614640910117430873, 9123114210336311365);
    lemma_mpow_step(7, 34359738360, 18446744069414584321, 9123114210336311365, 16116352524544190054);
    lemma_mpow_step(7, 68719476720, 18446744069414584321, 16116352524544190054, 6414415596519834757);
    lemma_mpow_step(7, 137438953440, 18446744069414584321, 6414415596519834757, 1213594585890690845);
    lemma_mpow_step(7, 274877906880, 18446744069414584321, 1213594585890690845, 17096174751763063430);
    lemma_mpow_step(7, 549755813760, 18446744069414584321, 17096174751763063430, 5456943929260765144);
    lemma_mpow_step(7, 1099511627520, 18446744069414584321, 5456943929260765144, 9713644485405565297);
    lemma_mpow_step(7, 2199023255040, 18446744069414584321, 9713644485405565297, 16905767614792059275);
    lemma_mpow_step(7, 4398046510080, 18446744069414584321, 16905767614792059275, 5416168637041100469);
    lemma_mpow_step(7, 8796093020160, 18446744069414584321, 5416168637041100469, 17654865857378133588);
    lemma_mpow_step(7, 17592186040320, 18446744069414584321, 17654865857378133588, 3511170319078647661);
    lemma_mpow_step(7, 35184372080640, 18446744069414584321, 3511170319078647661, 18146160046829613826);
    lemma_mpow_step(7, 70368744161280, 18446744069414584321, 18146160046829613826, 9306717745644682924);
    lemma_mpow_step(7, 140737488322560, 18446744069414584321, 9306717745644682924, 12380578893860276750);
    lemma_mpow_step(7, 281474976645120, 18446744069414584321, 12380578893860276750, 6115771955107415310);
    lemma_mpow_step(7, 562949953290240, 18446744069414584321, 6115771955107415310, 17776499369601055404);
    lemma_mpow_step(7, 1125899906580480, 18446744069414584321, 17776499369601055404, 16207902636198568418);
    lemma_mpow_step(7, 2251799813160960, 18446744069414584321, 16207902636198568418, 1532612707718625687);
    lemma_mpow_step(7, 4503599626321920, 18446744069414584321, 1532612707718625687, 17492915097719143606);
    lemma_mpow_step(7, 9007199252643840, 18446744069414584321, 17492915097719143606, 455906449640507599);
    lemma_mpow_step(7, 18014398505287680, 18446744069414584321, 455906449640507599, 11353340290879379826);
    lemma_mpow_step(7, 36028797010575360, 18446744069414584321, 11353340290879379826, 1803076106186727246);
    lemma_mpow_step(7, 72057594021150720, 18446744069414584321, 1803076106186727246, 13797081185216407910);
    lemma_mpow_step(7, 144115188042301440, 18446744069414584321, 13797081185216407910, 17870292113338400769);
    lemma_mpow_step(7, 288230376084602880, 18446744069414584321, 17870292113338400769, 549755813888);
    lemma_mpow_step(7, 576460752169205760, 18446744069414584321, 549755813888, 70368744161280);
    lemma_mpow_step(7, 1152921504338411520, 18446744069414584321, 70368744161280, 17293822564807737345);
    lemma_mpow_step(7, 2305843008676823040, 18446744069414584321, 17293822564807737345, 18446744069397807105);
    lemma_mpow_step(7, 4611686017353646080, 18446744069414584321, 18446744069397807105, 281474976710656);
    lemma_mpow_step(7, 9223372034707292160, 18446744069414584321, 281474976710656, 18446744069414584320);
    lemma_mpow_step(7, 18446744069414584320, 18446744069414584321, 18446744069414584320, 1);
}

/// 7 to the power (P - 1) / 3 is not 1 modulo P.
#[verifier::rlimit(40)]
proof fn lemma_cert_p_3()
    ensures
        mpow(7, 6148914689804861440, 18446744069414584321) != 1,
{
    assert(mpow(7, 0, 18446744069414584321) == 1);
    lemma_mpow_step(7, 1, 18446744069414584321, 1, 7);
    lemma_mpow_step(7, 2, 18446744069414584321, 7, 49);
    lemma_mpow_step(7, 5, 18446744069414584321, 49, 16807);
    lemma_mpow_step(7, 10, 18446744069414584321, 16807, 282475249);
    lemma_mpow_step(7, 21, 18446744069414584321, 282475249, 558545864083284007);
    lemma_mpow_step(7, 42, 18446744069414584321, 558545864083284007, 8022122801911579307);
    lemma_mpow_step(7, 85, 18446744069414584321, 8022122801911579307, 12800950874161730379);
    lemma_mpow_step(7, 170, 18446744069414584321, 12800950874161730379, 14271156885488964304);
    lemma_mpow_step(7, 341, 18446744069414584321, 14271156885488964304, 9587782661304029968);
    lemma_mpow_step(7, 682, 18446744069414584321, 9587782661304029968, 10276868313419320864);
    lemma_mpow_step(7, 1365, 18446744069414584321, 10276868313419320864, 15061306595140985043);
    lemma_mpow_step(7, 2730, 18446744069414584321, 15061306595140985043, 10087193495066827832);
    lemma_mpow_step(7, 5461, 18446744069414584321, 10087193495066827832, 12984983231508602376);
    lemma_mpow_step(7, 10922, 18446744069414584321, 12984983231508602376, 1362657970957379548);
    lemma_mpow_step(7, 21845, 18446744069414584321, 1362657970957379548, 11834541208736377360);
    lemma_mpow_step(7, 43690, 18446744069414584321, 11834541208736377360, 15486580570079272365);
    lemma_mpow_step(7, 87381, 18446744069414584321, 15486580570079272365, 2195267778297645936);
    lemma_mpow_step(7, 174762, 18446744069414584321, 2195267778297645936, 12545318111885672966);
    lemma_mpow_step(7, 349525, 18446744069414584321, 12545318111885672966, 3239519442280833256);
    lemma_mpow_step(7, 699050, 18446744069414584321, 3239519442280833256, 11109814195885452171);
    lemma_mpow_step(7, 1398101, 18446744069414584321, 11109814195885452171, 4804669246163822745);
    lemma_mpow_step(7, 2796202, 18446744069414584321, 4804669246163822745, 438903447396483212);
    lemma_mpow_step(7, 5592405, 18446744069414584321, 438903447396483212, 5017700972839514350);
    lemma_mpow_step(7, 11184810, 18446744069414584321, 5017700972839514350, 7499557959359525151);
    lemma_mpow_step(7, 22369621, 18446744069414584321, 7499557959359525151, 8616883547669016587);
    lemma_mpow_step(7, 44739242, 18446744069414584321, 8616883547669016587, 458110968676413213);
    lemma_mpow_step(7, 89478485, 18446744069414584321, 458110968676413213, 11751894947584113056);
    lemma_mpow_step(7, 178956970, 18446744069414584321, 11751894947584113056, 525895266577965633);
    lemma_mpow_step(7, 357913941, 18446744069414584321, 525895266577965633, 3177182820897284811);
    lemma_mpow_step(7, 715827882, 18446744069414584321, 3177182820897284811, 7964267603545906836);
    lemma_mpow_step(7, 1431655765, 18446744069414584321, 7964267603545906836, 14159254819154955796);
    lemma_mpow_step(7, 2863311530, 18446744069414584321, 14159254819154955796, 998724450546658713);
    lemma_mpow_step(7, 5726623060, 18446744069414584321, 998724450546658713, 1811047956385014016);
    lemma_mpow_step(7, 11453246120, 18446744069414584321, 1811047956385014016, 2957134717709447844);
    lemma_mpow_step(7, 22906492240, 18446744069414584321, 2957134717709447844, 8418656202527058970);
    lemma_mpow_step(7, 45812984480, 18446744069414584321, 8418656202527058970, 9344165103595421707);
    lemma_mpow_step(7, 91625968960, 18446744069414584321, 9344165103595421707, 12398472707942400981);
    lemma_mpow_step(7, 183251937920, 18446744069414584321, 12398472707942400981, 10977358340789161543);
    lemma_mpow_step(7, 366503875840, 18446744069414584321, 10977358340789161543, 14519574879452399500);
    lemma_mpow_step(7, 733007751680, 18446744069414584321, 14519574879452399500, 3056692624244734627);
    lemma_mpow_step(7, 1466015503360, 18446744069414584321, 3056692624244734627, 17973258314804772181);
    lemma_mpow_step(7, 2932031006720, 18446744069414584321, 17973258314804772181, 15462695660743809749);
    lemma_mpow_step(7, 5864062013440, 18446744069414584321, 15462695660743809749, 18046908317468628738);
    lemma_mpow_step(7, 11728124026880, 18446744069414584321, 18046908317468628738, 9144605907772536802);
    lemma_mpow_step(7, 23456248053760, 18446744069414584321, 9144605907772536802, 8796482344486648840);
    lemma_mpow_step(7, 46912496107520, 18446744069414584321, 8796482344486648840, 3596945015050375886);
    lemma_mpow_step(7, 93824992215040, 18446744069414584321, 3596945015050375886, 4201997653601256896);
    lemma_mpow_step(7, 187649984430080, 18446744069414584321, 4201997653601256896, 6905479200839918232);
    lemma_mpow_step(7, 375299968860160, 18446744069414584321, 6905479200839918232, 1725491680989254570);
    lemma_mpow_step(7, 750599937720320, 18446744069414584321, 1725491680989254570, 12370230134295797906);
    lemma_mpow_step(7, 1501199875440640, 18446744069414584321, 12370230134295797906, 3734230229149707555);
    lemma_mpow_step(7, 3002399750881280, 18446744069414584321, 3734230229149707555, 16496341184493220914);
    lemma_mpow_step(7, 6004799501762560, 18446744069414584321, 16496341184493220914, 15331777707844533717);
    lemma_mpow_step(7, 12009599003525120, 18446744069414584321, 15331777707844533717, 11895029263313522992);
    lemma_mpow_step(7, 24019198007050240, 18446744069414584321, 11895029263313522992, 11373273867503537004);
    lemma_mpow_step(7, 48038396014100480, 18446744069414584321, 11373273867503537004, 13835058050987180033);
    lemma_mpow_step(7, 96076792028200960, 18446744069414584321, 13835058050987180033, 35184372080640);
    lemma_mpow_step(7, 192153584056401920, 18446744069414584321, 35184372080640, 18158513693262872577);
    lemma_mpow_step(7, 384307168112803840, 18446744069414584321, 18158513693262872577, 18446744069413535745);
    lemma_mpow_step(7, 768614336225607680, 18446744069414584321, 18446744069413535745, 1099511627776);
    lemma_mpow_step(7, 1537228672451215360, 18446744069414584321, 1099511627776, 281474976645120);
    lemma_mpow_step(7, 3074457344902430720, 18446744069414584321, 281474976645120, 18446744065119617026);
    lemma_mpow_step(7, 6148914689804861440, 18446744069414584321, 18446744065119617026, 18446744065119617025);
}

/// 7 to the power (P - 1) / 5 is not 1 modulo P.
#[verifier::rlimit(40)]
proof fn lemma_cert_p_5()
    ensures
        mpow(7, 3689348813882916864, 18446744069414584321) != 1,
{
    assert(mpow(7, 0, 18446744069414584321) == 1);
    lemma_mpow_step(7, 1, 18446744069414584321, 1, 7);
    lemma_mpow_step(7, 3, 18446744069414584321, 7, 343);
    lemma_mpow_step(7, 6, 18446744069414584321, 343, 117649);
    lemma_mpow_step(7, 12, 18446744069414584321, 117649, 13841287201);
    lemma_mpow_step(7, 25, 18446744069414584321, 13841287201, 12903046666114829695);
    lemma_mpow_step(7, 51, 18446744069414584321, 12903046666114829695, 11221315429317299127);
    lemma_mpow_step(7, 102, 18446744069414584321, 11221315429317299127, 3745031562215636174);
    lemma_mpow_step(7, 204, 18446744069414584321, 3745031562215636174, 14721374862152863140);
    lemma_mpow_step(7, 409, 18446744069414584321, 14721374862152863140, 4722125031313448055);
    lemma_mpow_step(7, 819, 18446744069414584321, 4722125031313448055, 13185163832710852318);
    lemma_mpow_step(7, 1638, 18446744069414584321, 13185163832710852318, 2814030611640221029);
    lemma_mpow_step(7, 3276, 18446744069414584321, 2814030611640221029, 15305242945550478579);
    lemma_mpow_step(7, 6553, 18446744069414584321, 15305242945550478579, 4055957887005023019);
    lemma_mpow_step(7, 13107, 18446744069414584321, 4055957887005023019, 15895862450598400473);
    lemma_mpow_step(7, 26214, 18446744069414584321, 15895862450598400473, 15907429390595540903);
    lemma_mpow_step(7, 52428, 18446744069414584321, 15907429390595540903, 9571849187322067488);
    lemma_mpow_step(7, 104857, 18446744069414584321, 9571849187322067488, 13342646475897591308);
    lemma_mpow_step(7, 209715, 18446744069414584321, 13342646475897591308, 11968414678554910634);
    lemma_mpow_step(7, 419430, 18446744069414584321, 11968414678554910634, 9815939365277946145);
    lemma_mpow_step(7, 838860, 18446744069414584321, 9815939365277946145, 15620185229717233314);
    lemma_mpow_step(7, 1677721, 18446744069414584321, 15620185229717233314, 531677932165793774);
    lemma_mpow_step(7, 3355443, 18446744069414584321, 531677932165793774, 5959305040220178296);
    lemma_mpow_step(7, 6710886, 18446744069414584321, 5959305040220178296, 6422988881738978288);
    lemma_mpow_step(7, 13421772, 18446744069414584321, 6422988881738978288, 6417963550187649822);
    lemma_mpow_step(7, 26843545, 18446744069414584321, 6417963550187649822, 7536491442022418664);
    lemma_mpow_step(7, 53687091, 18446744069414584321, 7536491442022418664, 6156600053163182347);
    lemma_mpow_step(7, 107374182, 18446744069414584321, 6156600053163182347, 774671493430776042);
    lemma_mpow_step(7, 214748364, 18446744069414584321, 774671493430776042, 5396215078887381364);
    lemma_mpow_step(7, 429496729, 18446744069414584321, 5396215078887381364, 15314337471363908198);
    lemma_mpow_step(7, 858993459, 18446744069414584321, 15314337471363908198, 3662027161463226824);
    lemma_mpow_step(7, 1717986918, 18446744069414584321, 3662027161463226824, 11820361339200135398);
    lemma_mpow_step(7, 3435973836, 18446744069414584321, 11820361339200135398, 10563623981652513853);
    lemma_mpow_step(7, 6871947672, 18446744069414584321, 10563623981652513853, 11556889392494533434);
    lemma_mpow_step(7, 13743895344, 18446744069414584321, 11556889392494533434, 5123117391711505057);
    lemma_mpow_step(7, 27487790688, 18446744069414584321, 5123117391711505057, 18163573378392062736);
    lemma_mpow_step(7, 54975581376, 18446744069414584321, 18163573378392062736, 17372647198866510400);
    lemma_mpow_step(7, 109951162752, 18446744069414584321, 17372647198866510400, 1220884775256242639);
    lemma_mpow_step(7, 219902325504, 18446744069414584321, 1220884775256242639, 1436240010618898855);
    lemma_mpow_step(7, 439804651008, 18446744069414584321, 1436240010618898855, 968157462317130011);
    lemma_mpow_step(7, 879609302016, 18446744069414584321, 968157462317130011, 993397133647309316);
    lemma_mpow_step(7, 1759218604032, 18446744069414584321, 993397133647309316, 14359758886168776598);
    lemma_mpow_step(7, 3518437208064, 18446744069414584321, 14359758886168776598, 11469785989846425790);
    lemma_mpow_step(7, 7036874416128, 18446744069414584321, 11469785989846425790, 7202858824453247222);
    lemma_mpow_step(7, 14073748832256, 18446744069414584321, 7202858824453247222, 8980223327998268287);
    lemma_mpow_step(7, 28147497664512, 18446744069414584321, 8980223327998268287, 2898061628613144896);
    lemma_mpow_step(7, 56294995329024, 18446744069414584321, 2898061628613144896, 5148563552100513047);
    lemma_mpow_step(7, 112589990658048, 18446744069414584321, 5148563552100513047, 10405746850183322052);
    lemma_mpow_step(7, 225179981316096, 18446744069414584321, 10405746850183322052, 8376609452955824527);
    lemma_mpow_step(7, 450359962632192, 18446744069414584321, 8376609452955824527, 17819501121686609562);
    lemma_mpow_step(7, 900719925264384, 18446744069414584321, 17819501121686609562, 12701195747762323519);
    lemma_mpow_step(7, 1801439850528768, 18446744069414584321, 12701195747762323519, 16093963071722629223);
    lemma_mpow_step(7, 3602879701057536, 18446744069414584321, 16093963071722629223, 18098504255140688579);
    lemma_mpow_step(7, 7205759402115072, 18446744069414584321, 18098504255140688579, 3705545293506004500);
    lemma_mpow_step(7, 14411518804230144, 18446744069414584321, 3705545293506004500, 12143967077249500439);
    lemma_mpow_step(7, 28823037608460288, 18446744069414584321, 12143967077249500439, 8898934198923663040);
    lemma_mpow_step(7, 57646075216920576, 18446744069414584321, 8898934198923663040, 14017153681711143730);
    lemma_mpow_step(7, 115292150433841152, 18446744069414584321, 14017153681711143730, 13369903252519103517);
    lemma_mpow_step(7, 230584300867682304, 18446744069414584321, 13369903252519103517, 2271703332821311793);
    lemma_mpow_step(7, 461168601735364608, 18446744069414584321, 2271703332821311793, 14026992134716723275);
    lemma_mpow_step(7, 922337203470729216, 18446744069414584321, 14026992134716723275, 2281812832982421726);
    lemma_mpow_step(7, 1844674406941458432, 18446744069414584321, 2281812832982421726, 2625919085333925275);
    lemma_mpow_step(7, 3689348813882916864, 18446744069414584321, 2625919085333925275, 1373043270956696022);
}

/// 7 to the power (P - 1) / 17 is not 1 modulo P.
#[verifier::rlimit(40)]
proof fn lemma_cert_p_17()
    ensures
        mpow(7, 1085102592318504960, 18446744069414584321) != 1,
{
    assert(mpow(7, 0, 18446744069414584321) == 1);
    lemma_mpow_step(7, 1, 18446744069414584321, 1, 7);
    lemma_mpow_step(7, 3, 18446744069414584321, 7, 343);
    lemma_mpow_step(7, 7, 18446744069414584321, 343, 823543);
    lemma_mpow_step(7, 15, 18446744069414584321, 823543, 4747561509943);
    lemma_mpow_step(7, 30, 18446744069414584321, 4747561509943, 1582037354089406189);
    lemma_mpow_step(7, 60, 18446744069414584321, 1582037354089406189, 6704211459967285318);
    lemma_mpow_step(7, 120, 18446744069414584321, 6704211459967285318, 12536486945555764682);
    lemma_mpow_step(7, 240, 18446744069414584321, 12536486945555764682, 8329639379454877396);
    lemma_mpow_step(7, 481, 18446744069414584321, 8329639379454877396, 12103073565623681441);
    lemma_mpow_step(7, 963, 18446744069414584321, 12103073565623681441, 14844191010664918863);
    lemma_mpow_step(7, 1927, 18446744069414584321, 14844191010664918863, 13122058918416823729);
    lemma_mpow_step(7, 3855, 18446744069414584321, 13122058918416823729, 18391788000542569559);
    lemma_mpow_step(7, 7710, 18446744069414584321, 18391788000542569559, 5815952681263863745);
    lemma_mpow_step(7, 15420, 18446744069414584321, 5815952681263863745, 15534263258852221519);
    lemma_mpow_step(7, 30840, 18446744069414584321, 15534263258852221519, 9621442331152125603);
    lemma_mpow_step(7, 61680, 18446744069414584321, 9621442331152125603, 13847347385863248794);
    lemma_mpow_step(7, 123361, 18446744069414584321, 13847347385863248794, 9759263770000967494);
    lemma_mpow_step(7, 246723, 18446744069414584321, 9759263770000967494, 8617703953199623826);
    lemma_mpow_step(7, 493447, 18446744069414584321, 8617703953199623826, 18341993165004160224);
    lemma_mpow_step(7, 986895, 18446744069414584321, 18341993165004160224, 16325541388042428380);
    lemma_mpow_step(7, 1973790, 18446744069414584321, 16325541388042428380, 87681681590930466);
    lemma_mpow_step(7, 3947580, 18446744069414584321, 87681681590930466, 1247600097974775228);
    lemma_mpow_step(7, 7895160, 18446744069414584321, 1247600097974775228, 263672500424845310);
    lemma_mpow_step(7, 15790320, 18446744069414584321, 263672500424845310, 14075661776324224620);
    lemma_mpow_step(7, 31580641, 18446744069414584321, 14075661776324224620, 7684278052474903173);
    lemma_mpow_step(7, 63161283, 18446744069414584321, 7684278052474903173, 7708761456973364157);
    lemma_mpow_step(7, 126322567, 18446744069414584321, 7708761456973364157, 69940930452546681);
    lemma_mpow_step(7, 252645135, 18446744069414584321, 69940930452546681, 16357725396938484569);
    lemma_mpow_step(7, 505290270, 18446744069414584321, 16357725396938484569, 9635924811972810304);
    lemma_mpow_step(7, 1010580540, 18446744069414584321, 9635924811972810304, 17792655913659759447);
    lemma_mpow_step(7, 2021161080, 18446744069414584321, 17792655913659759447, 757864979510442991);
    lemma_mpow_step(7, 4042322160, 18446744069414584321, 757864979510442991, 5359388630104522475);
    lemma_mpow_step(7, 8084644320, 18446744069414584321, 5359388630104522475, 16844089689671372755);
    lemma_mpow_step(7, 16169288640, 18446744069414584321, 16844089689671372755, 3416859319420511225);
    lemma_mpow_step(7, 32338577280, 18446744069414584321, 3416859319420511225, 13225002848613916298);
    lemma_mpow_step(7, 64677154560, 18446744069414584321, 13225002848613916298, 3046446182183887513);
    lemma_mpow_step(7, 129354309120, 18446744069414584321, 3046446182183887513, 8471950025145571556);
    lemma_mpow_step(7, 258708618240, 18446744069414584321, 8471950025145571556, 14240312891968862088);
    lemma_mpow_step(7, 517417236480, 18446744069414584321, 14240312891968862088, 14284159170854690980);
    lemma_mpow_step(7, 1034834472960, 18446744069414584321, 14284159170854690980, 2140736107784648890);
    lemma_mpow_step(7, 2069668945920, 18446744069414584321, 2140736107784648890, 720221585272617730);
    lemma_mpow_step(7, 4139337891840, 18446744069414584321, 720221585272617730, 14933742682021830494);
    lemma_mpow_step(7, 8278675783680, 18446744069414584321, 14933742682021830494, 16866753830962059859);
    lemma_mpow_step(7, 16557351567360, 18446744069414584321, 16866753830962059859, 4185523320037657098);
    lemma_mpow_step(7, 33114703134720, 18446744069414584321, 4185523320037657098, 17086191566025186696);
    lemma_mpow_step(7, 66229406269440, 18446744069414584321, 17086191566025186696, 1098680059505421076);
    lemma_mpow_step(7, 132458812538880, 18446744069414584321, 1098680059505421076, 16940429312545755789);
    lemma_mpow_step(7, 264917625077760, 18446744069414584321, 16940429312545755789, 16945016486212160087);
    lemma_mpow_step(7, 529835250155520, 18446744069414584321, 16945016486212160087, 18171560771947831624);
    lemma_mpow_step(7, 1059670500311040, 18446744069414584321, 18171560771947831624, 14884189242943664099);
    lemma_mpow_step(7, 2119341000622080, 18446744069414584321, 14884189242943664099, 7182983899389742773);
    lemma_mpow_step(7, 4238682001244160, 18446744069414584321, 7182983899389742773, 7794706010606133772);
    lemma_mpow_step(7, 8477364002488320, 18446744069414584321, 7794706010606133772, 5944394147430185930);
    lemma_mpow_step(7, 16954728004976640, 18446744069414584321, 5944394147430185930, 11638363544692747458);
    lemma_mpow_step(7, 33909456009953280, 18446744069414584321, 11638363544692747458, 8942909788274506390);
    lemma_mpow_step(7, 67818912019906560, 18446744069414584321, 8942909788274506390, 10254463118692560346);
    lemma_mpow_step(7, 135637824039813120, 18446744069414584321, 10254463118692560346, 6509392022269312871);
    lemma_mpow_step(7, 271275648079626240, 18446744069414584321, 6509392022269312871, 3060481852759670200);
    lemma_mpow_step(7, 542551296159252480, 18446744069414584321, 3060481852759670200, 9492362781570530732);
    lemma_mpow_step(7, 1085102592318504960, 18446744069414584321, 9492362781570530732, 16301593560560007290);
}

/// 7 to the power (P - 1) / 257 is not 1 modulo P.
#[verifier::rlimit(40)]
proof fn lemma_cert_p_257()
    ensures
        mpow(7, 71777214277877760, 18446744069414584321) != 1,
{
    assert(mpow(7, 0, 18446744069414584321) == 1);
    lemma_mpow_step(7, 1, 18446744069414584321, 1, 7);
    lemma_mpow_step(7, 3, 18446744069414584321, 7, 343);
    lemma_mpow_step(7, 7, 18446744069414584321, 343, 823543);
    lemma_mpow_step(7, 15, 18446744069414584321, 823543, 4747561509943);
    lemma_mpow_step(7, 31, 18446744069414584321, 4747561509943, 11074261478625843323);
    lemma_mpow_step(7, 63, 18446744069414584321, 11074261478625843323, 12148266161370408270);
    lemma_mpow_step(7, 127, 18446744069414584321, 12148266161370408270, 7007601668316978083);
    lemma_mpow_step(7, 255, 18446744069414584321, 7007601668316978083, 8125271997680889877);
    lemma_mpow_step(7, 510, 18446744069414584321, 8125271997680889877, 10915923311382173605);
    lemma_mpow_step(7, 1020, 18446744069414584321, 10915923311382173605, 8682737361258234340);
    lemma_mpow_step(7, 2040, 18446744069414584321, 8682737361258234340, 13168992710278412212);
    lemma_mpow_step(7, 4080, 18446744069414584321, 13168992710278412212, 3615243740316660512);
    lemma_mpow_step(7, 8160, 18446744069414584321, 3615243740316660512, 9701552052102210316);
    lemma_mpow_step(7, 16320, 18446744069414584321, 9701552052102210316, 12082995573853045936);
    lemma_mpow_step(7, 32640, 18446744069414584321, 12082995573853045936, 2592469405483382171);
    lemma_mpow_step(7, 65280, 18446744069414584321, 2592469405483382171, 8929377406043347353);
    lemma_mpow_step(7, 130561, 18446744069414584321, 8929377406043347353, 13230650959860397101);
    lemma_mpow_step(7, 261123, 18446744069414584321, 13230650959860397101, 4567519111026823348);
    lemma_mpow_step(7, 522247, 18446744069414584321, 4567519111026823348, 14039453651739780561);
    lemma_mpow_step(7, 1044495, 18446744069414584321, 14039453651739780561, 9849600182067894019);
    lemma_mpow_step(7, 2088991, 18446744069414584321, 9849600182067894019, 294188574756026472);
    lemma_mpow_step(7, 4177983, 18446744069414584321, 294188574756026472, 13396756356721479597);
    lemma_mpow_step(7, 8355967, 18446744069414584321, 13396756356721479597, 227377812062300433);
    lemma_mpow_step(7, 16711935, 18446744069414584321, 227377812062300433, 3277408507376532532);
    lemma_mpow_step(7, 33423870, 18446744069414584321, 3277408507376532532, 10187910960120918295);
    lemma_mpow_step(7, 66847740, 18446744069414584321, 10187910960120918295, 1234511965033452377);
    lemma_mpow_step(7, 133695480, 18446744069414584321, 1234511965033452377, 15363200638052948867);
    lemma_mpow_step(7, 267390960, 18446744069414584321, 15363200638052948867, 1236027695563809108);
    lemma_mpow_step(7, 534781920, 18446744069414584321, 1236027695563809108, 12002353154524589429);
    lemma_mpow_step(7, 1069563840, 18446744069414584321, 12002353154524589429, 14027517171084490203);
    lemma_mpow_step(7, 2139127680, 18446744069414584321, 14027517171084490203, 2711851439569513933);
    lemma_mpow_step(7, 4278255360, 18446744069414584321, 2711851439569513933, 80652374890911913);
    lemma_mpow_step(7, 8556510720, 18446744069414584321, 80652374890911913, 5283607704788425345);
    lemma_mpow_step(7, 17113021440, 18446744069414584321, 5283607704788425345, 15514810852250684057);
    lemma_mpow_step(7, 34226042880, 18446744069414584321, 15514810852250684057, 13397417830393806946);
    lemma_mpow_step(7, 68452085760, 18446744069414584321, 13397417830393806946, 16359729400225625612);
    lemma_mpow_step(7, 136904171520, 18446744069414584321, 16359729400225625612, 8019533974815212444);
    lemma_mpow_step(7, 273808343040, 18446744069414584321, 8019533974815212444, 9655755660440986855);
    lemma_mpow_step(7, 547616686080, 18446744069414584321, 9655755660440986855, 3604536941271117731);
    lemma_mpow_step(7, 1095233372160, 18446744069414584321, 3604536941271117731, 17307879323250707139);
    lemma_mpow_step(7, 2190466744320, 18446744069414584321, 17307879323250707139, 16869139653157226251);
    lemma_mpow_step(7, 4380933488640, 18446744069414584321, 16869139653157226251, 6953284473670099805);
    lemma_mpow_step(7, 8761866977280, 18446744069414584321, 6953284473670099805, 18224581395058808609);
    lemma_mpow_step(7, 17523733954560, 18446744069414584321, 18224581395058808609, 12317229062629230801);
    lemma_mpow_step(7, 35047467909120, 18446744069414584321, 12317229062629230801, 8521080430804482018);
    lemma_mpow_step(7, 70094935818240, 18446744069414584321, 8521080430804482018, 1553296775282575040);
    lemma_mpow_step(7, 140189871636480, 18446744069414584321, 1553296775282575040, 13200482976866298980);
    lemma_mpow_step(7, 280379743272960, 18446744069414584321, 13200482976866298980, 14925891398157497804);
    lemma_mpow_step(7, 560759486545920, 18446744069414584321, 14925891398157497804, 15678887058344505597);
    lemma_mpow_step(7, 1121518973091840, 18446744069414584321, 15678887058344505597, 14658776698600081839);
    lemma_mpow_step(7, 2243037946183680, 18446744069414584321, 14658776698600081839, 16565152875265738852);
    lemma_mpow_step(7, 4486075892367360, 18446744069414584321, 16565152875265738852, 5984943436188102888);
    lemma_mpow_step(7, 8972151784734720, 18446744069414584321, 5984943436188102888, 14921717924877542342);
    lemma_mpow_step(7, 17944303569469440, 18446744069414584321, 14921717924877542342, 1654982787239893223);
    lemma_mpow_step(7, 35888607138938880, 18446744069414584321, 1654982787239893223, 18353445258623017512);
    lemma_mpow_step(7, 71777214277877760, 18446744069414584321, 18353445258623017512, 995085315851368103);
}

/// 7 to the power (P - 1) / 65537 is not 1 modulo P.
#[verifier::rlimit(40)]
proof fn lemma_cert_p_65537()
    ensures
        mpow(7, 281470681743360, 18446744069414584321) != 1,
{
    assert(mpow(7, 0, 18446744069414584321) == 1);
    lemma_mpow_step(7, 1, 18446744069414584321, 1, 7);
    lemma_mpow_step(7, 3, 18446744069414584321, 7, 343);
    lemma_mpow_step(7, 7, 18446744069414584321, 343, 823543);
    lemma_mpow_step(7, 15, 18446744069414584321, 823543, 4747561509943);
    lemma_mpow_step(7, 31, 18446744069414584321, 4747561509943, 11074261478625843323);
    lemma_mpow_step(7, 63, 18446744069414584321, 11074261478625843323, 12148266161370408270);
    lemma_mpow_step(7, 127, 18446744069414584321, 12148266161370408270, 7007601668316978083);
    lemma_mpow_step(7, 255, 18446744069414584321, 7007601668316978083, 8125271997680889877);
    lemma_mpow_step(7, 511, 18446744069414584321, 8125271997680889877, 2624486902016877951);
    lemma_mpow_step(7, 1023, 18446744069414584321, 2624486902016877951, 8253119735826302939);
    lemma_mpow_step(7, 2047, 18446744069414584321, 8253119735826302939, 3543566522599720475);
    lemma_mpow_step(7, 4095, 18446744069414584321, 3543566522599720475, 11981551684735969599);
    lemma_mpow_step(7, 8191, 18446744069414584321, 11981551684735969599, 10062120588441922115);
    lemma_mpow_step(7, 16383, 18446744069414584321, 10062120588441922115, 10485806445487905393);
    lemma_mpow_step(7, 32767, 18446744069414584321, 10485806445487905393, 4139485063330164956);
    lemma_mpow_step(7, 65535, 18446744069414584321, 4139485063330164956, 12134830135347446949);
    lemma_mpow_step(7, 131070, 18446744069414584321, 12134830135347446949, 618113109518621269);
    lemma_mpow_step(7, 262140, 18446744069414584321, 618113109518621269, 10057574059836717585);
    lemma_mpow_step(7, 524280, 18446744069414584321, 10057574059836717585, 11436575600859740313);
    lemma_mpow_step(7, 1048560, 18446744069414584321, 11436575600859740313, 2460531272136303351);
    lemma_mpow_step(7, 2097120, 18446744069414584321, 2460531272136303351, 5287351674330089703);
    lemma_mpow_step(7, 4194240, 18446744069414584321, 5287351674330089703, 2729558173611838869);
    lemma_mpow_step(7, 8388480, 18446744069414584321, 2729558173611838869, 5809869834850305452);
    lemma_mpow_step(7, 16776960, 18446744069414584321, 5809869834850305452, 4380238239217790048);
    lemma_mpow_step(7, 33553920, 18446744069414584321, 4380238239217790048, 10313688370767105378);
    lemma_mpow_step(7, 67107840, 18446744069414584321, 10313688370767105378, 1116132233887293652);
    lemma_mpow_step(7, 134215680, 18446744069414584321, 1116132233887293652, 8201916556687100419);
    lemma_mpow_step(7, 268431360, 18446744069414584321, 8201916556687100419, 9569002298025400893);
    lemma_mpow_step(7, 536862720, 18446744069414584321, 9569002298025400893, 3860342023949954178);
    lemma_mpow_step(7, 1073725440, 18446744069414584321, 3860342023949954178, 2518827640559301834);
    lemma_mpow_step(7, 2147450880, 18446744069414584321, 2518827640559301834, 4408381949760333744);
    lemma_mpow_step(7, 4294901760, 18446744069414584321, 4408381949760333744, 5214785644524920463);
    lemma_mpow_step(7, 8589803520, 18446744069414584321, 5214785644524920463, 16359673064222316581);
    lemma_mpow_step(7, 17179607040, 18446744069414584321, 16359673064222316581, 7241809583754189836);
    lemma_mpow_step(7, 34359214080, 18446744069414584321, 7241809583754189836, 12639803007403283714);
    lemma_mpow_step(7, 68718428160, 18446744069414584321, 12639803007403283714, 12324653451830581392);
    lemma_mpow_step(7, 137436856320, 18446744069414584321, 12324653451830581392, 3248773168955372845);
    lemma_mpow_step(7, 274873712640, 18446744069414584321, 3248773168955372845, 11622038198969340988);
    lemma_mpow_step(7, 549747425280, 18446744069414584321, 11622038198969340988, 13512512774593501075);
    lemma_mpow_step(7, 1099494850560, 18446744069414584321, 13512512774593501075, 7628844061018354094);
    lemma_mpow_step(7, 2198989701120, 18446744069414584321, 7628844061018354094, 10832619856158324041);
    lemma_mpow_step(7, 4397979402240, 18446744069414584321, 10832619856158324041, 6522121551337605094);
    lemma_mpow_step(7, 8795958804480, 18446744069414584321, 6522121551337605094, 4924686556790045269);
    lemma_mpow_step(7, 17591917608960, 18446744069414584321, 4924686556790045269, 8233486007872169718);
    lemma_mpow_step(7, 35183835217920, 18446744069414584321, 8233486007872169718, 6861851865518519982);
    lemma_mpow_step(7, 70367670435840, 18446744069414584321, 6861851865518519982, 16452032933035937120);
    lemma_mpow_step(7, 140735340871680, 18446744069414584321, 16452032933035937120, 7318164361609642178);
    lemma_mpow_step(7, 281470681743360, 18446744069414584321, 7318164361609642178, 8478886009461009681);
}

/// The Fermat primes that divide `P - 1` have all nonzero residues invertible.
proof fn lemma_small_units()
    ensures
        units_mod(3),
        units_mod(5),
        units_mod(17),
        units_mod(257),
        units_mod(65537),
{
    vstd::arithmetic::power2::lemma2_to64();
    vstd::arithmetic::power2::lemma_pow2(1);
    vstd::arithmetic::power2::lemma_pow2(2);
    vstd::arithmetic::power2::lemma_pow2(4);
    vstd::arithmetic::power2::lemma_pow2(8);
    vstd::arithmetic::power2::lemma_pow2(16);
    lemma_cert_3();
    lemma_cert_5();
    lemma_cert_17();
    lemma_cert_257();
    lemma_cert_65537();
    lemma_fermat_units(3, 2, 1);
    lemma_fermat_units(5, 2, 2);
    lemma_fermat_units(17, 3, 4);
    lemma_fermat_units(257, 3, 8);
    lemma_fermat_units(65537, 3, 16);
}

/// The prime factors of `P - 1 = 2^32 3 5 17 257 65537`.
pub open spec fn p_factors() -> Seq<int> {
    seq![2int, 3, 5, 17, 257, 65537]
}

/// Every divisor `m >= 2` of `P - 1` is a multiple of one of its prime factors.
proof fn lemma_p_divisors()
    ensures
        divisors_covered(18446744069414584320, p_factors()),
{
    let qs = p_factors();
    lemma_small_units();
    vstd::arithmetic::power2::lemma2_to64();
    vstd::arithmetic::power2::lemma_pow2(32);
    assert forall|m: int| 2 <= m && 18446744069414584320int % m == 0 implies #[trigger] has_factor_in(m, qs) by {
        if m % 2 == 0 {
            assert(m % qs[0] == 0);
        } else {
            vstd::arithmetic::div_mod::lemma_mod_pos_bound(m, 2);
            assert(pow(2, 32) * 4294967295 == 18446744069414584320);
            lemma_odd_divides(m, 32, 4294967295);
            if m % 3 == 0 {
                assert(m % qs[1] == 0);
            } else {
                lemma_euclid(3, m, 1431655765);
                if m % 5 == 0 {
                    assert(m % qs[2] == 0);
                } else {
                    lemma_euclid(5, m, 286331153);
                    if m % 17 == 0 {
                        assert(m % qs[3] == 0);
                    } else {
                        lemma_euclid(17, m, 16843009);
                        if m % 257 == 0 {
                            assert(m % qs[4] == 0);
                        } else {
                            lemma_euclid(257, m, 65537);
                            if m % 65537 == 0 {
                                assert(m % qs[5] == 0);
                            } else {
                                lemma_euclid(65537, m, 1);
                                vstd::arithmetic::div_mod::lemma_small_mod(1, m as nat);
                            }
                        }
                    }
                }
            }
        }
    }
}

/// Every nonzero residue modulo P is invertible, and `x^(P-1) = 1` for each (Fermat).
pub proof fn lemma_p_units()
    ensures
        units_mod(18446744069414584321),
        forall|x: int| 0 < x < 18446744069414584321 ==> #[trigger] (pow(x, 18446744069414584320) % 18446744069414584321) == 1,
{
    let n = 18446744069414584321int;
    let qs = p_factors();
    lemma_p_divisors();
    lemma_cert_p();
    lemma_cert_p_3();
    lemma_cert_p_5();
    lemma_cert_p_17();
    lemma_cert_p_257();
    lemma_cert_p_65537();
    lemma_mpow(7, 18446744069414584320, n);
    assert(qs.len() == 6 && qs[0] == 2 && qs[1] == 3 && qs[2] == 5 && qs[3] == 17 && qs[4] == 257
        && qs[5] == 65537);
    assert forall|i: int| 0 <= i < qs.len() implies #[trigger] qs[i] > 0 && (n - 1) % qs[i] == 0 by {
        assert(i == 0 || i == 1 || i == 2 || i == 3 || i == 4 || i == 5);
    }
    assert forall|i: int| 0 <= i < qs.len() implies #[trigger] (pow(7, ((n - 1) / qs[i]) as nat) % n) != 1 by {
        if i == 0 {
            assert((n - 1) / qs[i] == 9223372034707292160);
            lemma_mpow(7, 9223372034707292160, n);
        } else if i == 1 {
            assert((n - 1) / qs[i] == 6148914689804861440);
            lemma_mpow(7, 6148914689804861440, n);
        } else if i == 2 {
            assert((n - 1) / qs[i] == 3689348813882916864);
            lemma_mpow(7, 3689348813882916864, n);
        } else if i == 3 {
            assert((n - 1) / qs[i] == 1085102592318504960);
            lemma_mpow(7, 1085102592318504960, n);
        } else if i == 4 {
            assert((n - 1) / qs[i] == 71777214277877760);
            lemma_mpow(7, 71777214277877760, n);
        } else if i == 5 {
            assert((n - 1) / qs[i] == 281470681743360);
            lemma_mpow(7, 281470681743360, n);
        }
    }
    lemma_order_certificate(7, n, qs);
    lemma_generator_units(7, n);
}

/// Products of congruent factors are congruent.
proof fn lemma_cong_mul(a: int, b: int, c: int, d: int, m: int)
    requires
        m > 0,
        a % m == b % m,
        c % m == d % m,
    ensures
        (a * c) % m == (b * d) % m,
{
    lemma_mul_mod_noop(a, c, m);
    lemma_mul_mod_noop(b, d, m);
}

/// Sums of congruent terms are congruent.
proof fn lemma_cong_add(a: int, b: int, c: int, d: int, m: int)
    requires
        m > 0,
        a % m == b % m,
        c % m == d % m,
    ensures
        (a + c) % m == (b + d) % m,
{
    vstd::arithmetic::div_mod::lemma_add_mod_noop(a, c, m);
    vstd::arithmetic::div_mod::lemma_add_mod_noop(b, d, m);
}

/// 7 is not a square modulo P.
pub proof fn lemma_seven_not_square(x: int)
    requires
        0 <= x < 18446744069414584321,
    ensures
        (x * x) % 18446744069414584321 != 7,
{
    let n = 18446744069414584321int;
    let h: nat = 9223372034707292160;
    if (x * x) % n == 7 {
        assert(x != 0);
        lemma_p_units();
        assert(pow(x, 18446744069414584320) % n == 1);
        lemma_pow_adds(x, 1, 1);
        lemma_pow1(x);
        vstd::arithmetic::power::lemma_pow_multiplies(x, 2, h);
        vstd::arithmetic::power::lemma_pow_mod_noop(x * x, h, n);
        lemma_cert_p();
        lemma_mpow(7, h, n);
        assert(pow(7, h) % n == pow(x * x, h) % n);
    }
}

/// The inverse of a nonzero element of GF(P^2): `(a0 - a1 X) / (a0^2 - 7 a1^2)`.
proof fn lemma_ext_inverse(a: Ext) -> (x: Ext)
    requires
        ecanon(a),
        a != ezero(),
    ensures
        is_einverse(a, x),
{
    let p = 18446744069414584321int;
    let (a0, a1) = (a.0 as int, a.1 as int);
    lemma_p_units();
    let nn = (a0 * a0 - 7 * (a1 * a1)) % p;
    vstd::arithmetic::div_mod::lemma_mod_bound(a0 * a0 - 7 * (a1 * a1), p);
    // the norm is nonzero
    if a1 == 0 {
        assert(invertible_mod(a0, p));
        let y = choose|y: int| 0 <= y < p && #[trigger] ((a0 * y) % p) == 1;
        assert(nn == (a0 * a0) % p);
        if nn == 0 {
            lemma_cong_mul(a0 * a0, 0, y * y, y * y, p);
            lemma_cong_mul(a0 * y, 1, a0 * y, 1, p);
            assert((a0 * a0) * (y * y) == (a0 * y) * (a0 * y)) by (nonlinear_arith);
            vstd::arithmetic::div_mod::lemma_small_mod(1, p as nat);
            vstd::arithmetic::div_mod::lemma_small_mod(0, p as nat);
            assert(false);
        }
    } else {
        assert(invertible_mod(a1, p));
        let z = choose|z: int| 0 <= z < p && #[trigger] ((a1 * z) % p) == 1;
        if nn == 0 {
            let sq = (a0 * z) % p;
            vstd::arithmetic::div_mod::lemma_mod_bound(a0 * z, p);
            lemma_mod_twice(a0 * z, p);
            // sq^2 == a0^2 z^2 == (a0^2 - 7 a1^2) z^2 + 7 (a1 z)^2 == 7
            lemma_cong_mul(sq, a0 * z, sq, a0 * z, p);
            lemma_cong_mul(a0 * a0 - 7 * (a1 * a1), 0, z * z, z * z, p);
            lemma_cong_mul(a1 * z, 1, a1 * z, 1, p);
            lemma_cong_mul(7, 7, (a1 * z) * (a1 * z), 1, p);
            vstd::arithmetic::div_mod::lemma_small_mod(1, p as nat);
            vstd::arithmetic::div_mod::lemma_small_mod(0, p as nat);
            vstd::arithmetic::div_mod::lemma_small_mod(7, p as nat);
            lemma_cong_add((a0 * a0 - 7 * (a1 * a1)) * (z * z), 0, 7 * ((a1 * z) * (a1 * z)), 7, p);
            assert((a0 * z) * (a0 * z) == (a0 * a0 - 7 * (a1 * a1)) * (z * z) + 7 * ((a1 * z) * (a1 * z)))
                by (nonlinear_arith);
            lemma_seven_not_square(sq);
            assert(false);
        }
    }
    assert(0 < nn < p);
    assert(invertible_mod(nn, p));
    let ni = choose|ni: int| 0 <= ni < p && #[trigger] ((nn * ni) % p) == 1;
    let x0 = (a0 * ni) % p;
    let x1 = ((p - a1) * ni) % p;
    vstd::arithmetic::div_mod::lemma_mod_bound(a0 * ni, p);
    vstd::arithmetic::div_mod::lemma_mod_bound((p - a1) * ni, p);
    lemma_mod_twice(a0 * ni, p);
    lemma_mod_twice((p - a1) * ni, p);
    vstd::arithmetic::div_mod::lemma_small_mod(1, p as nat);
    vstd::arithmetic::div_mod::lemma_small_mod(0, p as nat);
    // first coordinate: a0 x0 + 7 a1 x1 == (a0^2 - 7 a1^2) ni + p (7 a1 ni)
    lemma_cong_mul(a0, a0, x0, a0 * ni, p);
    lemma_cong_mul(a1, a1, x1, (p - a1) * ni, p);
    lemma_cong_mul(7, 7, a1 * x1, a1 * ((p - a1) * ni), p);
    lemma_cong_add(a0 * x0, a0 * (a0 * ni), 7 * (a1 * x1), 7 * (a1 * ((p - a1) * ni)), p);
    assert(a0 * (a0 * ni) + 7 * (a1 * ((p - a1) * ni)) == p * (7 * a1 * ni) + (a0 * a0 - 7 * (a1 * a1)) * ni)
        by (nonlinear_arith);
    vstd::arithmetic::div_mod::lemma_mod_multiples_vanish(7 * a1 * ni, (a0 * a0 - 7 * (a1 * a1)) * ni, p);
    lemma_mod_twice(a0 * a0 - 7 * (a1 * a1), p);
    lemma_cong_mul(a0 * a0 - 7 * (a1 * a1), nn, ni, ni, p);
    // second coordinate: a0 x1 + a1 x0 == p (a0 ni)
    lemma_cong_mul(a0, a0, x1, (p - a1) * ni, p);
    lemma_cong_mul(a1, a1, x0, a0 * ni, p);
    lemma_cong_add(a0 * x1, a0 * ((p - a1) * ni), a1 * x0, a1 * (a0 * ni), p);
    assert(a0 * ((p - a1) * ni) + a1 * (a0 * ni) == p * (a0 * ni) + 0) by (nonlinear_arith);
    vstd::arithmetic::div_mod::lemma_mod_multiples_vanish(a0 * ni, 0, p);
    let x: Ext = (x0 as nat, x1 as nat);
    assert(emul(a, x).0 == 1);
    assert(emul(a, x).1 == 0);
    x
}

/// GF(P^2) is a field: every nonzero element has an inverse.
pub proof fn lemma_ext_is_field()
    ensures
        ext_is_field(),
{
    assert forall|a: Ext| ecanon(a) && a != ezero() implies exists|x: Ext| #[trigger] is_einverse(a, x) by {
        let x = lemma_ext_inverse(a);
    }
}

} // verus!
