use p3_field::extension::BinomialExtensionField;
use p3_field::{BasedVectorSpace, Field, PrimeCharacteristicRing, PrimeField64};
use p3_goldilocks::Goldilocks;
use sumcheck_uniskip::ext::Fp2;
use sumcheck_uniskip::field::{Fp, P};

type Ef = BinomialExtensionField<Goldilocks, 2>;

fn lcg(state: &mut u64) -> u64 {
    *state = state.wrapping_mul(6364136223846793005).wrapping_add(1442695040888963407);
    *state ^ (*state >> 29)
}

fn to_p3(x: &Fp2) -> Ef {
    let (a, b) = x.coeffs();
    Ef::new([Goldilocks::new(a.as_canonical_u64()), Goldilocks::new(b.as_canonical_u64())])
}

fn coeffs_of(x: &Ef) -> (u64, u64) {
    let c = <Ef as BasedVectorSpace<Goldilocks>>::as_basis_coefficients_slice(x);
    (c[0].as_canonical_u64(), c[1].as_canonical_u64())
}

fn coeffs(x: &Fp2) -> (u64, u64) {
    let (a, b) = x.coeffs();
    (a.as_canonical_u64(), b.as_canonical_u64())
}

#[test]
fn field_constants() {
    assert_eq!(P, 18446744069414584321);
    assert_eq!(Fp::from_u64(P).as_canonical_u64(), 0);
    assert_eq!(Fp::from_u64(P + 5).as_canonical_u64(), 5);
    assert_eq!(Fp::from_u64(u64::MAX).as_canonical_u64(), u64::MAX - P);
    assert!(Fp::zero().is_zero());
    assert_eq!(Fp::one().as_canonical_u64(), 1);
}

#[test]
fn field_exact_values() {
    let a = Fp::from_u64(P - 1);
    let b = Fp::from_u64(2);
    assert_eq!(a.add(&b).as_canonical_u64(), 1);
    assert_eq!(b.sub(&a).as_canonical_u64(), 3);
    assert_eq!(a.mul(&a).as_canonical_u64(), 1);
    assert_eq!(b.neg().as_canonical_u64(), P - 2);
    assert_eq!(b.inverse().as_canonical_u64(), (P + 1) / 2);
    assert_eq!(Fp::from_u64(7).mul(&Fp::from_u64(7).inverse()).as_canonical_u64(), 1);
    assert!(Fp::from_u64(3).equals(&Fp::from_u64(P + 3)));
    assert!(Fp::from_u64(3) == Fp::from_u64(P + 3));
    assert!(!Fp::from_u64(3).equals(&Fp::from_u64(4)));
}

#[test]
fn field_ops_agree_with_goldilocks() {
    let mut s = 1u64;
    for _ in 0..2000 {
        let (x, y) = (lcg(&mut s), lcg(&mut s));
        let (a, b) = (Fp::from_u64(x), Fp::from_u64(y));
        let (ga, gb) = (Goldilocks::from_u64(x), Goldilocks::from_u64(y));
        assert_eq!(a.add(&b).as_canonical_u64(), (ga + gb).as_canonical_u64());
        assert_eq!(a.sub(&b).as_canonical_u64(), (ga - gb).as_canonical_u64());
        assert_eq!(a.mul(&b).as_canonical_u64(), (ga * gb).as_canonical_u64());
        assert_eq!(a.neg().as_canonical_u64(), (-ga).as_canonical_u64());
        if !a.is_zero() {
            assert_eq!(a.inverse().as_canonical_u64(), ga.inverse().as_canonical_u64());
        }
    }
}

#[test]
fn extension_exact_values() {
    // X * X = 7
    let x = Fp2::new(Fp::zero(), Fp::one());
    assert_eq!(coeffs(&x.mul(&x)), (7, 0));
    // (1 + X)(1 - X) = 1 - 7
    let a = Fp2::new(Fp::one(), Fp::one());
    let b = Fp2::new(Fp::one(), Fp::from_u64(P - 1));
    assert_eq!(coeffs(&a.mul(&b)), (P - 6, 0));
    assert_eq!(coeffs(&Fp2::from_u64(5).mul_base(&Fp::from_u64(3))), (15, 0));
    assert_eq!(coeffs(&Fp2::from_base(Fp::from_u64(9))), (9, 0));
    let inv = a.inverse();
    assert!(a.mul(&inv).equals(&Fp2::one()));
    assert!(Fp2::zero().is_zero());
    assert!(a.sub(&a).is_zero());
    assert_eq!(coeffs(&a.add(&b)), (2, 0));
}

#[test]
fn extension_ops_agree_with_binomial_extension() {
    let mut s = 7u64;
    for _ in 0..1000 {
        let a = Fp2::new(Fp::from_u64(lcg(&mut s)), Fp::from_u64(lcg(&mut s)));
        let b = Fp2::new(Fp::from_u64(lcg(&mut s)), Fp::from_u64(lcg(&mut s)));
        let (pa, pb) = (to_p3(&a), to_p3(&b));
        assert_eq!(coeffs(&a.mul(&b)), coeffs_of(&(pa * pb)));
        assert_eq!(coeffs(&a.add(&b)), coeffs_of(&(pa + pb)));
        assert_eq!(coeffs(&a.sub(&b)), coeffs_of(&(pa - pb)));
        let f = Fp::from_u64(lcg(&mut s));
        assert_eq!(coeffs(&a.mul_base(&f)), coeffs_of(&(pa * Goldilocks::new(f.as_canonical_u64()))));
        if !a.is_zero() {
            assert_eq!(coeffs(&a.inverse()), coeffs_of(&pa.inverse()));
        }
    }
}
