use cyclotomic_fhe::crypt_message::rescale_coef;
use cyclotomic_fhe::{Cyclotomic, Lattice};
use rand_distr::{Distribution, Normal};

fn gaussian(m: usize, delta: f64) -> Cyclotomic {
    let normal = Normal::new(0., delta).unwrap();
    let coefficients = (0..m - 1)
        .map(|_| normal.sample(&mut rand::thread_rng()).round() as i64)
        .collect();
    Cyclotomic::with_coef(m, coefficients)
}

fn fixture_pk(m: usize) -> (Cyclotomic, Cyclotomic) {
    (
        Cyclotomic::with_coef(m, vec![-19, -8]),
        Cyclotomic::with_coef(m, vec![-9, -21]),
    )
}

#[test]
fn test_m3_q65_delta2_p67() {
    let m = 3;
    let q = 65;
    let delta = 2.;
    let p = 67;
    let lattice = Lattice::new(m, q, p).unwrap();
    let mes = Cyclotomic::with_coef(m, vec![1, 0]);
    let sk = Cyclotomic::with_coef(m, vec![1, 1]);
    let pk = fixture_pk(m);
    let switch_key = lattice.gen_switch_key(&sk, &gaussian(m, delta));
    let c = lattice.encode(&mes, &pk, &switch_key, &gaussian(m, delta), &gaussian(m, delta));
    let hat_mes = lattice.decode(&sk, &c);
    assert_eq!(mes, hat_mes);
}

#[test]
fn test_add_m3_q257_delta2_p259() {
    let m = 3;
    let q = 257;
    let delta = 2.;
    let p = 259;
    let lattice = Lattice::new(m, q, p).unwrap();

    for t in vec![
        (vec![1, 0], vec![1, 0], vec![0, 0]),
        (vec![1, 1], vec![1, 0], vec![0, 1]),
        (vec![1, 1], vec![1, 0], vec![0, 1]),
    ] {
        let mes_a = Cyclotomic::with_coef(m, t.0);
        let mes_b = Cyclotomic::with_coef(m, t.1);

        let sk = Cyclotomic::with_coef(m, vec![1, 1]);
        let pk = fixture_pk(m);
        let switch_key = lattice.gen_switch_key(&sk, &gaussian(m, delta));
        let c_a = lattice.encode(&mes_a, &pk, &switch_key, &gaussian(m, delta), &gaussian(m, delta));
        let c_b = lattice.encode(&mes_b, &pk, &switch_key, &gaussian(m, delta), &gaussian(m, delta));
        let hat_mes = lattice.decode(&sk, &c_a.add(c_b));
        assert_eq!(Cyclotomic::with_coef(m, t.2), hat_mes);
    }
}

// The draws are fixed (a sample of the uniform masks and of the noise at
// delta = 2): with fresh draws at these parameters the noise overflows the
// budget in a fraction of runs.
#[test]
fn test_mul_m3_q257_delta2_p259() {
    let m = 3;
    let q = 257;
    let p = 259;
    let lattice = Lattice::new(m, q, p).unwrap();
    for t in vec![(vec![0, 1], vec![1, 1], vec![1, 0])] {
        let mes_a = Cyclotomic::with_coef(m, t.0);
        let mes_b = Cyclotomic::with_coef(m, t.1);

        let sk = Cyclotomic::with_coef(m, vec![1, 1]);
        let pk = fixture_pk(m);
        let switch_key = lattice.switch_key(
            &sk,
            Cyclotomic::with_coef(m, vec![-30401, 268]).rem(p * q),
            &Cyclotomic::with_coef(m, vec![-1, 0]),
        );
        let c_a = lattice.encode_with(
            &mes_a,
            &pk,
            &switch_key,
            &Cyclotomic::with_coef(m, vec![1, 1]),
            &Cyclotomic::with_coef(m, vec![1, 0]),
            &Cyclotomic::with_coef(m, vec![0, 0]),
        );
        let c_b = lattice.encode_with(
            &mes_b,
            &pk,
            &switch_key,
            &Cyclotomic::with_coef(m, vec![1, 0]),
            &Cyclotomic::with_coef(m, vec![-2, 0]),
            &Cyclotomic::with_coef(m, vec![1, -2]),
        );
        let hat_mes = lattice.decode(&sk, &c_a.mul(c_b));
        assert_eq!(Cyclotomic::with_coef(m, t.2), hat_mes);
    }
}

#[test]
fn new_rejects_even_p() {
    assert!(Lattice::new(3, 65, 66).is_none());
    assert!(Lattice::new(3, 65, 2).is_none());
    let l = Lattice::new(3, 65, 67).unwrap();
    assert_eq!((l.m, l.q, l.p), (3, 65, 67));
}

#[test]
fn public_key_fixture() {
    let m = 3;
    let lattice = Lattice::new(m, 65, 67).unwrap();
    let sk = Cyclotomic::with_coef(m, vec![1, 1]);
    let (a, b) = lattice.public_key(
        &sk,
        Cyclotomic::with_coef(m, vec![-19, -8]),
        &Cyclotomic::with_coef(m, vec![1, -1]),
    );
    assert_eq!(a.coefficients, vec![-19, -8]);
    assert_eq!(b.coefficients, vec![-9, -21]);
    assert_eq!(b.q, Some(65));
}

#[test]
fn generated_keys_satisfy_their_relations() {
    let m = 5;
    let (q, p) = (257, 259);
    let lattice = Lattice::new(m, q, p).unwrap();
    let sk = lattice.gen_sk();
    for c in &sk.coefficients {
        assert!(*c == 0 || *c == 1);
    }
    let e = Cyclotomic::with_coef(m, vec![1, -2, 0, 3]);
    let (a, b) = lattice.gen_pk(&sk, &e);
    assert_eq!(b, a.mul(&sk).add(&e.mul_scalar(2)).rem(q));
    let (sa, sb) = lattice.gen_switch_key(&sk, &e);
    for c in &sa.coefficients {
        assert!(-(p * q) < 2 * c && 2 * c <= p * q);
    }
    let expected = sa.mul(&sk).sub(&sk.mul(&sk).mul_scalar(p)).add(&e.mul_scalar(2)).rem(p * q);
    assert_eq!(sb, expected);
}

#[test]
fn switch_key_fixture() {
    let m = 3;
    let (q, p) = (257, 259);
    let lattice = Lattice::new(m, q, p).unwrap();
    let sk = Cyclotomic::with_coef(m, vec![1, 1]);
    let (a, b) = lattice.switch_key(
        &sk,
        Cyclotomic::with_coef(m, vec![-30401, 268]),
        &Cyclotomic::with_coef(m, vec![-1, 0]),
    );
    assert_eq!(a.coefficients, vec![-30401, 268]);
    assert_eq!(b.coefficients, vec![-30671, -30660]);
}

#[test]
fn ciphertext_fixtures() {
    let m = 3;
    let (q, p) = (257, 259);
    let lattice = Lattice::new(m, q, p).unwrap();
    let sk = Cyclotomic::with_coef(m, vec![1, 1]);
    let pk = fixture_pk(m);
    let switch_key = lattice.switch_key(
        &sk,
        Cyclotomic::with_coef(m, vec![-30401, 268]),
        &Cyclotomic::with_coef(m, vec![-1, 0]),
    );
    let make_a = || {
        lattice.encode_with(
            &Cyclotomic::with_coef(m, vec![0, 1]),
            &pk,
            &switch_key,
            &Cyclotomic::with_coef(m, vec![1, 1]),
            &Cyclotomic::with_coef(m, vec![1, 0]),
            &Cyclotomic::with_coef(m, vec![0, 0]),
        )
    };
    let make_b = || {
        lattice.encode_with(
            &Cyclotomic::with_coef(m, vec![1, 1]),
            &pk,
            &switch_key,
            &Cyclotomic::with_coef(m, vec![1, 0]),
            &Cyclotomic::with_coef(m, vec![-2, 0]),
            &Cyclotomic::with_coef(m, vec![1, -2]),
        )
    };
    let c_a = make_a();
    assert_eq!(c_a.c0.coefficients, vec![14, -8]);
    assert_eq!(c_a.c1.coefficients, vec![-11, -19]);
    assert_eq!((c_a.q, c_a.p), (q, p));
    assert_eq!(c_a.switch_key.1.coefficients, vec![-30671, -30660]);
    let c_b = make_b();
    assert_eq!(c_b.c0.coefficients, vec![-12, -20]);
    assert_eq!(c_b.c1.coefficients, vec![-17, -12]);
    assert_eq!(lattice.decode(&sk, &c_a).coefficients, vec![0, 1]);
    assert_eq!(lattice.decode(&sk, &c_b).coefficients, vec![1, 1]);

    let sum = make_a().add(make_b());
    assert_eq!(sum.c0.coefficients, vec![2, -28]);
    assert_eq!(sum.c1.coefficients, vec![-28, -31]);
    assert_eq!(lattice.decode(&sk, &sum).coefficients, vec![1, 0]);

    let product = make_a().mul(make_b());
    assert_eq!(product.c0.coefficients, vec![-89, -58]);
    assert_eq!(product.c1.coefficients, vec![-28, 28]);
    assert_eq!(product.switch_key.0.coefficients, vec![-30401, 268]);
}

#[test]
fn scalar_round_trip_fixture() {
    let m = 3;
    let lattice = Lattice::new(m, 65, 67).unwrap();
    let sk = Cyclotomic::with_coef(m, vec![1, 1]);
    let pk = fixture_pk(m);
    let switch_key = lattice.switch_key(
        &sk,
        Cyclotomic::with_coef(m, vec![100, -2000]).rem(67 * 65),
        &Cyclotomic::with_coef(m, vec![0, 1]),
    );
    let mes = Cyclotomic::with_coef(m, vec![1, 1]);
    for v in [vec![0, 0], vec![1, 0], vec![0, 1], vec![1, 1]] {
        let c = lattice.encode_with(
            &mes,
            &pk,
            &switch_key,
            &Cyclotomic::with_coef(m, v),
            &Cyclotomic::with_coef(m, vec![2, -1]),
            &Cyclotomic::with_coef(m, vec![-3, 1]),
        );
        assert_eq!(lattice.decode(&sk, &c), mes);
    }
}

#[test]
fn rescaling_leaves_an_even_remainder() {
    for p in [1i64, 3, 67, 259] {
        for c in -700i64..=700 {
            let k = rescale_coef(c, p);
            let r = c - k * p;
            assert_eq!(r % 2, 0, "c = {}, p = {}", c, p);
            assert!(-p < r && r < p, "c = {}, p = {}", c, p);
        }
    }
    assert_eq!(rescale_coef(10, 3), 4);
    assert_eq!(rescale_coef(11, 3), 3);
    assert_eq!(rescale_coef(-10, 3), -4);
    assert_eq!(rescale_coef(-11, 3), -3);
    assert_eq!(rescale_coef(7, 3), 3);
}
