use cyclotomic_fhe::Cyclotomic;

fn elem(coefficients: Vec<i64>) -> Cyclotomic {
    Cyclotomic { m: 3, coefficients, q: None }
}

#[test]
fn test_add_m3_q65() {
    let m = 3;
    let q = 65;
    let s = Cyclotomic::with_coef(m, vec![1, 1]);
    let a = Cyclotomic::with_coef(m, vec![-19, -8]);
    let e = Cyclotomic::with_coef(m, vec![1, -1]);
    let b = s.mul(&a).add(&e).rem(q);
    assert_eq!(b, Cyclotomic { m: m, coefficients: vec![-10, -20], q: None });
}

#[test]
fn test_mul_m3_p65() {
    for t in vec![
        (vec![11, -6], vec![21, 15], vec![-4, -1]),
        (vec![-11, -21], vec![21, 15], vec![19, -31]),
        (vec![11, 21], vec![12, -11], vec![-27, -28]),
    ] {
        let c0 = elem(t.0);
        let c1 = elem(t.1);
        assert_eq!(Cyclotomic::with_coef(3, t.2), c0.mul(&c1).rem(65));
    }
}

#[test]
fn test_neg_mul_m3_p65() {
    for t in vec![
        (vec![-11, -21], vec![12, -11], vec![-27, -28]),
        (vec![-23, -6], vec![-15, -23], vec![-12, -26]),
    ] {
        let c0 = elem(t.0);
        let c1 = elem(t.1);
        assert_eq!(Cyclotomic::with_coef(3, t.2), c0.mul(&c1).neg().rem(65));
    }
}

#[test]
fn with_coef_keeps_coefficients_untagged() {
    let c = Cyclotomic::with_coef(5, vec![1, -2, 3, -4]);
    assert_eq!(c.m, 5);
    assert_eq!(c.coefficients, vec![1, -2, 3, -4]);
    assert_eq!(c.q, None);
}

#[test]
fn mul_wraps_and_eliminates_top_slot() {
    // x^3 * x^3 = x^6 = x when x^5 = 1.
    let a = Cyclotomic::with_coef(5, vec![0, 0, 0, 1]);
    let r = a.mul(&a);
    assert_eq!(r.coefficients, vec![0, 1, 0, 0]);
    // x^2 * x^2 = x^4, the eliminated slot: -(1 + x + x^2 + x^3).
    let b = Cyclotomic::with_coef(5, vec![0, 0, 1, 0]);
    assert_eq!(b.mul(&b).coefficients, vec![-1, -1, -1, -1]);
    // Products of the general case.
    let c = Cyclotomic::with_coef(5, vec![1, 2, 3, 4]);
    let d = Cyclotomic::with_coef(5, vec![2, -1, 0, 5]);
    assert_eq!(c.mul(&d).coefficients, vec![11, 17, -2, 4]);
}

#[test]
fn mul_keeps_left_tag() {
    let a = Cyclotomic::with_coef(3, vec![3, 4]).rem(7);
    let b = Cyclotomic::with_coef(3, vec![1, 1]);
    let r = a.mul(&b);
    assert_eq!(r.q, Some(7));
    assert_eq!(b.mul(&a).q, None);
}

#[test]
fn rem_is_centered() {
    let c = Cyclotomic::with_coef(5, vec![5, -5, 6, -6]).rem(10);
    assert_eq!(c.coefficients, vec![5, 5, -4, 4]);
    assert_eq!(c.q, Some(10));
    let d = Cyclotomic::with_coef(5, vec![7, -7, 3, -3]).rem(5);
    assert_eq!(d.coefficients, vec![2, -2, -2, 2]);
    let bits = Cyclotomic::with_coef(5, vec![-1, 0, 1, 3]).rem(2);
    assert_eq!(bits.coefficients, vec![1, 0, 1, 1]);
    let big = Cyclotomic::with_coef(3, vec![i64::MIN, i64::MAX]).rem(65);
    for c in big.coefficients {
        assert!(-65 < 2 * c && 2 * c <= 65);
    }
}

#[test]
fn linear_operations() {
    let a = Cyclotomic::with_coef(3, vec![4, -9]);
    let b = Cyclotomic::with_coef(3, vec![-1, 2]);
    assert_eq!(a.add(&b).coefficients, vec![3, -7]);
    assert_eq!(a.sub(&b).coefficients, vec![5, -11]);
    assert_eq!(a.mul_scalar(-3).coefficients, vec![-12, 27]);
    assert_eq!(a.neg().coefficients, vec![-4, 9]);
    let mut c = a.clone();
    c.add_assign(&b);
    assert_eq!(c.coefficients, vec![3, -7]);
    c.sub_assign(&b);
    assert_eq!(c, a);
    c.mul_scalar_assign(2);
    assert_eq!(c.coefficients, vec![8, -18]);
    c.mul_assign(&b);
    assert_eq!(c, a.mul_scalar(2).mul(&b));
}

#[test]
fn equality_ignores_tag() {
    let a = Cyclotomic::with_coef(3, vec![1, 2]);
    let b = Cyclotomic { m: 3, coefficients: vec![1, 2], q: Some(9) };
    assert_eq!(a, b);
    assert_ne!(a, Cyclotomic::with_coef(3, vec![2, 1]));
}

#[test]
fn sample_is_centered() {
    for q in [2i64, 3, 65, 257 * 259] {
        let s = Cyclotomic::sample_with_module(7, q);
        assert_eq!(s.coefficients.len(), 6);
        assert_eq!(s.q, Some(q));
        for c in s.coefficients {
            assert!(-q < 2 * c && 2 * c <= q);
        }
    }
}

#[test]
fn ring_laws_mod_q() {
    let x = Cyclotomic::with_coef(5, vec![17, -40, 3, 99]);
    let y = Cyclotomic::with_coef(5, vec![-8, 21, 60, -1]);
    let z = Cyclotomic::with_coef(5, vec![5, 5, -77, 12]);
    let q = 65;
    assert_eq!(x.add(&y).add(&z).rem(q), x.add(&y.add(&z)).rem(q));
    assert_eq!(x.mul(&y.add(&z)).rem(q), x.mul(&y).add(&x.mul(&z)).rem(q));
}
