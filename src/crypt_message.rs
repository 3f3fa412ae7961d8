//! Ciphertexts and their homomorphic addition and multiplication.

use vstd::prelude::*;
use vstd::arithmetic::div_mod::{lemma_fundamental_div_mod, lemma_fundamental_div_mod_converse};
use crate::cyclotomic::{
    Cyclotomic, add_s, cmod_s, mul_s, neg_s, scale_s, within, centered_in, lemma_centered_within,
    lemma_linear_within, lemma_mul_within,
};

verus! {

/// Scheme parameters for which every intermediate value of encryption,
/// decryption and the homomorphic operations fits in an `i64`.
pub open spec fn params_ok(m: int, q: int, p: int) -> bool {
    m >= 2 && q >= 2 && p >= 1 && 4 * m * m * p * q * q <= i64::MAX
}

/// Rust's remainder, whose sign follows the dividend.
pub open spec fn trem(c: int, p: int) -> int {
    if c >= 0 { c % p } else { -((-c) % p) }
}

/// The remainder of `c` by `p`, shifted by `p` toward the opposite sign when it
/// is odd, so that it is even (`p` is odd).
pub open spec fn parity_rem(c: int, p: int) -> int {
    let r = trem(c, p);
    if r % 2 != 0 && r < 0 {
        r + p
    } else if r % 2 != 0 && r > 0 {
        r - p
    } else {
        r
    }
}

/// `c` divided by `p` after removing its parity-corrected remainder.
pub open spec fn rescale(c: int, p: int) -> int {
    (c - parity_rem(c, p)) / p
}

pub open spec fn rescale_s(a: Seq<int>, p: int) -> Seq<int> {
    Seq::new(a.len(), |i: int| rescale(a[i], p))
}

/// The parity-corrected remainder leaves an exact multiple of `p`, and it is
/// even, so the quotient keeps the parity information of `c`.
pub proof fn lemma_rescale_exact(c: int, p: int)
    requires
        p >= 1,
        p % 2 == 1,
    ensures
        (c - parity_rem(c, p)) % p == 0,
        p * rescale(c, p) == c - parity_rem(c, p),
        parity_rem(c, p) % 2 == 0,
        -p < parity_rem(c, p) < p,
{
    let r = trem(c, p);
    let k: int = if c >= 0 { c / p } else { -((-c) / p) };
    if c >= 0 {
        lemma_fundamental_div_mod(c, p);
        assert(c - r == k * p) by (nonlinear_arith)
            requires
                c == p * (c / p) + c % p,
                k == c / p,
                r == c % p,
        ;
    } else {
        lemma_fundamental_div_mod(-c, p);
        assert(c - r == k * p) by (nonlinear_arith)
            requires
                -c == p * ((-c) / p) + (-c) % p,
                k == -((-c) / p),
                r == -((-c) % p),
        ;
    }
    let pr = parity_rem(c, p);
    let k2: int = if r % 2 != 0 && r < 0 { k - 1 } else if r % 2 != 0 && r > 0 { k + 1 } else { k };
    assert(c - pr == k2 * p) by (nonlinear_arith)
        requires
            c - r == k * p,
            k2 == k - 1 ==> pr == r + p,
            k2 == k + 1 ==> pr == r - p,
            k2 == k ==> pr == r,
            k2 == k - 1 || k2 == k + 1 || k2 == k,
    ;
    lemma_fundamental_div_mod_converse(c - pr, p, k2, 0);
    assert(rescale(c, p) == k2);
    assert(p * k2 == k2 * p) by (nonlinear_arith);
}

/// `rescale` of one value.
pub fn rescale_coef(c: i64, p: i64) -> (o: i64)
    requires
        p >= 1,
        p % 2 == 1,
        -i64::MAX + p <= c <= i64::MAX - p,
    ensures
        o == rescale(c as int, p as int),
{
    proof {
        lemma_rescale_exact(c as int, p as int);
    }
    let mut rem = c % p;
    if rem % 2 != 0 && rem < 0 {
        rem += p;
    } else if rem % 2 != 0 && rem > 0 {
        rem -= p;
    }
    assert(rem == parity_rem(c as int, p as int));
    let x = c - rem;
    proof {
        let k = rescale(c as int, p as int);
        if x < 0 {
            assert(-x == (-k) * p) by (nonlinear_arith)
                requires
                    p * k == x,
            ;
            lemma_fundamental_div_mod_converse(-x, p as int, -k, 0);
        } else {
            assert(x == k * p) by (nonlinear_arith)
                requires
                    p * k == x,
            ;
            lemma_fundamental_div_mod_converse(x as int, p as int, k, 0);
        }
    }
    x / p
}

/// `rescale` of every coefficient; the modulus tag is dropped.
fn rescale_elem(a: &Cyclotomic, p: i64) -> (r: Cyclotomic)
    requires
        a.wf(),
        p >= 1,
        p % 2 == 1,
        within(a@, i64::MAX - p),
    ensures
        r.wf(),
        r.m == a.m,
        r@ == rescale_s(a@, p as int),
{
    let mut coefficients: Vec<i64> = Vec::new();
    let n = a.coefficients.len();
    let mut i: usize = 0;
    while i < n
        invariant
            n == a.coefficients@.len(),
            p >= 1,
            p % 2 == 1,
            within(a@, i64::MAX - p),
            i <= n,
            coefficients@.len() == i,
            forall|j: int| 0 <= j < i ==> #[trigger] coefficients@[j] == rescale(a@[j], p as int),
        decreases n - i,
    {
        assert(-(i64::MAX - p) <= a@[i as int] <= i64::MAX - p);
        coefficients.push(rescale_coef(a.coefficients[i], p));
        i += 1;
    }
    let r = Cyclotomic { m: a.m, coefficients, q: None };
    assert(r@ =~= rescale_s(a@, p as int));
    r
}

/// A ciphertext `(c0, c1)` with its modulus `q`, the boost factor `p`, and the
/// switch key `(A, B)` that multiplication relinearizes with.
pub struct CryptMessage {
    pub q: i64,
    pub c0: Cyclotomic,
    pub c1: Cyclotomic,
    pub p: i64,
    pub switch_key: (Cyclotomic, Cyclotomic),
}

impl CryptMessage {
    /// The ring index all parts share.
    pub open spec fn m(&self) -> int {
        self.c0.m as int
    }

    /// Well-formed: parameters in range, `p` odd, all parts of one ring, the
    /// ciphertext reduced modulo `q` and the switch key modulo `p * q`.
    pub open spec fn wf(&self) -> bool {
        &&& params_ok(self.m(), self.q as int, self.p as int)
        &&& self.p % 2 == 1
        &&& self.c0.wf() && self.c1.wf() && self.switch_key.0.wf() && self.switch_key.1.wf()
        &&& self.c1.m == self.c0.m && self.switch_key.0.m == self.c0.m && self.switch_key.1.m
            == self.c0.m
        &&& centered_in(self.c0@, self.q as int)
        &&& centered_in(self.c1@, self.q as int)
        &&& centered_in(self.switch_key.0@, self.p * self.q)
        &&& centered_in(self.switch_key.1@, self.p * self.q)
    }

    /// Two ciphertexts that can be combined: both well-formed, of one ring and
    /// one modulus.
    pub open spec fn compatible(&self, rhs: &CryptMessage) -> bool {
        self.wf() && rhs.wf() && self.c0.m == rhs.c0.m && self.q == rhs.q
    }
}

/// Bounds that the scheme's parameters give on intermediate values.
pub proof fn lemma_params(m: int, q: int, p: int)
    requires
        params_ok(m, q, p),
    ensures
        2 * m * m * q * q + 2 * m * m * q * q <= i64::MAX,
        p * q + 2 * m * m * (p * q) * q <= i64::MAX,
        q * p + 2 * m * m * (p * q) * q <= i64::MAX,
        p * q <= i64::MAX - p,
        p * q >= 1,
        q * p <= i64::MAX,
        2 * m * m * q * 1 + q * 2 + 1 <= i64::MAX,
        2 * m * m * q * 1 + q <= i64::MAX,
        2 * m * m * (p * q) * 1 + 2 * m * m * 1 * 1 * p + q * 2 <= i64::MAX,
        2 * m * m * 1 * 1 * p <= i64::MAX,
        2 * m * m * (p * q) * 1 + 2 * m * m * 1 * 1 * p <= i64::MAX,
        2 * m * m * (p * q) * 1 <= i64::MAX,
        2 * m * m * 1 * 1 <= i64::MAX,
        q + q <= i64::MAX,
{
    assert(2 * m * m * q * q + 2 * m * m * q * q <= i64::MAX) by (nonlinear_arith)
        requires
            params_ok(m, q, p),
    ;
    assert(p * q + 2 * m * m * (p * q) * q <= i64::MAX) by (nonlinear_arith)
        requires
            params_ok(m, q, p),
    ;
    assert(p * q <= i64::MAX - p) by (nonlinear_arith)
        requires
            params_ok(m, q, p),
    ;
    assert(q * p == p * q) by (nonlinear_arith);
    assert(p * q >= 1) by (nonlinear_arith)
        requires
            p >= 1,
            q >= 2,
    ;
    assert(2 * m * m * 1 * 1 <= i64::MAX) by (nonlinear_arith)
        requires
            params_ok(m, q, p),
    ;
    assert(2 * m * m * q * 1 + q * 2 + 1 <= i64::MAX) by (nonlinear_arith)
        requires
            params_ok(m, q, p),
    ;
    assert(2 * m * m * (p * q) * 1 + 2 * m * m * 1 * 1 * p + q * 2 <= i64::MAX) by (nonlinear_arith)
        requires
            params_ok(m, q, p),
    ;
}

/// `c0` of the sum of two ciphertexts.
pub open spec fn sum_c0(l: &CryptMessage, r: &CryptMessage) -> Seq<int> {
    cmod_s(add_s(l.c0@, r.c0@), l.q as int)
}

/// `c1` of the sum of two ciphertexts.
pub open spec fn sum_c1(l: &CryptMessage, r: &CryptMessage) -> Seq<int> {
    cmod_s(add_s(l.c1@, r.c1@), l.q as int)
}

/// The tensored term in `s^0`.
pub open spec fn tensor_d0(l: &CryptMessage, r: &CryptMessage) -> Seq<int> {
    cmod_s(mul_s(l.c0@, r.c0@, l.m()), l.q as int)
}

/// The tensored term in `s^1`.
pub open spec fn tensor_d1(l: &CryptMessage, r: &CryptMessage) -> Seq<int> {
    cmod_s(add_s(mul_s(l.c1@, r.c0@, l.m()), mul_s(l.c0@, r.c1@, l.m())), l.q as int)
}

/// The tensored term in `s^2`, negated.
pub open spec fn tensor_d2(l: &CryptMessage, r: &CryptMessage) -> Seq<int> {
    cmod_s(neg_s(mul_s(l.c1@, r.c1@, l.m())), l.q as int)
}

/// A degree-one term scaled by `p`, with the `s^2` term folded in through the
/// switch key half `k`, reduced modulo `p * q`.
pub open spec fn boosted(l: &CryptMessage, d: Seq<int>, k: Seq<int>, d2: Seq<int>) -> Seq<int> {
    cmod_s(add_s(scale_s(d, l.p as int), mul_s(k, d2, l.m())), l.p * l.q)
}

/// `c0` of the product of two ciphertexts.
pub open spec fn product_c0(l: &CryptMessage, r: &CryptMessage) -> Seq<int> {
    cmod_s(
        rescale_s(boosted(l, tensor_d0(l, r), l.switch_key.1@, tensor_d2(l, r)), l.p as int),
        l.q as int,
    )
}

/// `c1` of the product of two ciphertexts.
pub open spec fn product_c1(l: &CryptMessage, r: &CryptMessage) -> Seq<int> {
    cmod_s(
        rescale_s(boosted(l, tensor_d1(l, r), l.switch_key.0@, tensor_d2(l, r)), l.p as int),
        l.q as int,
    )
}

impl CryptMessage {
    /// Homomorphic addition: the parts added and reduced modulo `q`; the other
    /// fields are those of `self`.
    pub fn add(self, rhs: CryptMessage) -> (r: CryptMessage)
        requires
            self.compatible(&rhs),
        ensures
            r.wf(),
            r.q == self.q,
            r.p == self.p,
            r.switch_key == self.switch_key,
            r.c0.m == self.c0.m,
            r.c0@ == sum_c0(&self, &rhs),
            r.c1@ == sum_c1(&self, &rhs),
    {
        let q = self.q;
        proof {
            lemma_params(self.m(), q as int, self.p as int);
            lemma_centered_within(self.c0@, q as int);
            lemma_centered_within(rhs.c0@, q as int);
            lemma_centered_within(self.c1@, q as int);
            lemma_centered_within(rhs.c1@, q as int);
            lemma_linear_within(self.c0@, rhs.c0@, q as int, q as int, 0);
            lemma_linear_within(self.c1@, rhs.c1@, q as int, q as int, 0);
        }
        let c0 = self.c0.add(&rhs.c0).rem(q);
        let c1 = self.c1.add(&rhs.c1).rem(q);
        CryptMessage { c0, c1, ..self }
    }

    /// Homomorphic multiplication: tensor the two ciphertexts, fold the `s^2`
    /// term in with the switch key at scale `p`, divide the scale out with
    /// parity-corrected rounding and reduce modulo `q`.
    pub fn mul(self, rhs: CryptMessage) -> (r: CryptMessage)
        requires
            self.compatible(&rhs),
        ensures
            r.wf(),
            r.q == self.q,
            r.p == self.p,
            r.switch_key == self.switch_key,
            r.c0.m == self.c0.m,
            r.c0@ == product_c0(&self, &rhs),
            r.c1@ == product_c1(&self, &rhs),
    {
        let q = self.q;
        let p = self.p;
        let ghost m = self.m();
        let ghost qi = q as int;
        let ghost pq = p * q;
        proof {
            lemma_params(m, qi, p as int);
            lemma_centered_within(self.c0@, qi);
            lemma_centered_within(rhs.c0@, qi);
            lemma_centered_within(self.c1@, qi);
            lemma_centered_within(rhs.c1@, qi);
            lemma_centered_within(self.switch_key.0@, pq);
            lemma_centered_within(self.switch_key.1@, pq);
            lemma_mul_within(self.c0@, rhs.c0@, m, qi, qi);
            lemma_mul_within(self.c1@, rhs.c0@, m, qi, qi);
            lemma_mul_within(self.c0@, rhs.c1@, m, qi, qi);
            lemma_mul_within(self.c1@, rhs.c1@, m, qi, qi);
        }
        let d0 = self.c0.mul(&rhs.c0).rem(q);
        let t1 = self.c1.mul(&rhs.c0);
        let t2 = self.c0.mul(&rhs.c1);
        proof {
            lemma_linear_within(t1@, t2@, 2 * m * m * qi * qi, 2 * m * m * qi * qi, 0);
        }
        let d1 = t1.add(&t2).rem(q);
        let t3 = self.c1.mul(&rhs.c1);
        proof {
            lemma_linear_within(t3@, t3@, 2 * m * m * qi * qi, 2 * m * m * qi * qi, 0);
        }
        let d2 = t3.neg().rem(q);
        let pq_exec = p * q;
        proof {
            lemma_centered_within(d0@, qi);
            lemma_centered_within(d1@, qi);
            lemma_centered_within(d2@, qi);
            lemma_linear_within(d0@, d0@, qi, qi, p as int);
            lemma_linear_within(d1@, d1@, qi, qi, p as int);
            lemma_mul_within(self.switch_key.1@, d2@, m, pq, qi);
            lemma_mul_within(self.switch_key.0@, d2@, m, pq, qi);
        }
        let s0 = d0.mul_scalar(p);
        let k0 = self.switch_key.1.mul(&d2);
        proof {
            lemma_linear_within(s0@, k0@, qi * p, 2 * m * m * pq * qi, 0);
        }
        let e0 = s0.add(&k0).rem(pq_exec);
        let s1 = d1.mul_scalar(p);
        let k1 = self.switch_key.0.mul(&d2);
        proof {
            lemma_linear_within(s1@, k1@, qi * p, 2 * m * m * pq * qi, 0);
            lemma_centered_within(e0@, pq);
            assert(within(e0@, i64::MAX - p));
        }
        let e1 = s1.add(&k1).rem(pq_exec);
        proof {
            lemma_centered_within(e1@, pq);
            assert(within(e1@, i64::MAX - p));
        }
        let c0 = rescale_elem(&e0, p).rem(q);
        let c1 = rescale_elem(&e1, p).rem(q);
        CryptMessage { c0, c1, ..self }
    }
}

} // verus!
