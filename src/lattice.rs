//! Key generation, encryption and decryption.
//!
//! The Gaussian noise terms are handed in by the caller; the uniform draws
//! (the key, the masks `a` and `A`, the encryption randomness `v`) are made
//! here.

use vstd::prelude::*;
use crate::crypt_message::{CryptMessage, params_ok, lemma_params};
use vstd::arithmetic::div_mod::lemma_fundamental_div_mod_converse;
use crate::cyclotomic::{
    Cyclotomic, add_s, sub_s, cmod_s, mul_s, scale_s, within, centered_in, congruent,
    lemma_centered_within, lemma_linear_within, lemma_mul_within, lemma_cmod_congruent,
    lemma_cmod_centered, lemma_cmod_s_congruent, lemma_mul_congruent, lemma_add_congruent,
    lemma_congruent_trans, lemma_mul_distributes,
};

verus! {

/// The parameters of the scheme: ring index `m`, ciphertext modulus `q` and
/// the odd boost factor `p`.
pub struct Lattice {
    pub m: usize,
    pub q: i64,
    pub p: i64,
}

/// The public key `b` for the secret `sk`, the mask `a` and the noise `e`.
pub open spec fn public_key_b(m: int, q: int, sk: Seq<int>, a: Seq<int>, e: Seq<int>) -> Seq<int> {
    cmod_s(add_s(mul_s(a, sk, m), scale_s(e, 2)), q)
}

/// The switch key `B = A·sk − p·sk² + 2e (mod p·q)`.
pub open spec fn switch_key_b(m: int, q: int, p: int, sk: Seq<int>, a: Seq<int>, e: Seq<int>) -> Seq<int> {
    cmod_s(add_s(sub_s(mul_s(a, sk, m), scale_s(mul_s(sk, sk, m), p)), scale_s(e, 2)), p * q)
}

/// `c0 = b·v + 2e0 + mes (mod q)`.
pub open spec fn encode_c0(m: int, q: int, b: Seq<int>, mes: Seq<int>, v: Seq<int>, e0: Seq<int>) -> Seq<int> {
    cmod_s(add_s(add_s(mul_s(b, v, m), scale_s(e0, 2)), mes), q)
}

/// `c1 = a·v + 2e1 (mod q)`.
pub open spec fn encode_c1(m: int, q: int, a: Seq<int>, v: Seq<int>, e1: Seq<int>) -> Seq<int> {
    cmod_s(add_s(mul_s(a, v, m), scale_s(e1, 2)), q)
}

/// `(c0 − sk·c1 mod q) mod 2`.
pub open spec fn decoded(m: int, q: int, sk: Seq<int>, c0: Seq<int>, c1: Seq<int>) -> Seq<int> {
    cmod_s(cmod_s(sub_s(c0, mul_s(sk, c1, m)), q), 2)
}

impl Lattice {
    pub open spec fn wf(&self) -> bool {
        params_ok(self.m as int, self.q as int, self.p as int) && self.p % 2 == 1
    }

    /// An element of this ring whose coefficients lie in `[-b, b]`.
    pub open spec fn bounded(&self, x: &Cyclotomic, b: int) -> bool {
        x.wf() && x.m == self.m && within(x@, b)
    }

    /// An element of this ring reduced modulo `r`.
    pub open spec fn reduced(&self, x: &Cyclotomic, r: int) -> bool {
        x.wf() && x.m == self.m && centered_in(x@, r)
    }

    /// The scheme with ring index `m`, modulus `q` and boost factor `p`; `None`
    /// when `p` is even.
    pub fn new(m: usize, q: i64, p: i64) -> (r: Option<Lattice>)
        requires
            params_ok(m as int, q as int, p as int),
        ensures
            r is None <==> p % 2 == 0,
            r matches Some(l) ==> l.wf() && l.m == m && l.q == q && l.p == p,
    {
        if p % 2 == 1 {
            Some(Lattice { m, q, p })
        } else {
            None
        }
    }

    /// A secret key: coefficients drawn uniformly and reduced modulo 2.
    pub fn gen_sk(&self) -> (r: Cyclotomic)
        requires
            self.wf(),
        ensures
            self.reduced(&r, 2),
            self.bounded(&r, 1),
    {
        let r = Cyclotomic::sample_with_module(self.m, 2);
        proof {
            lemma_centered_within(r@, 2);
            assert(within(r@, 1));
        }
        r
    }

    /// The public key `(a, a·sk + 2e mod q)` for the mask `a` and the noise `e`.
    pub fn public_key(&self, sk: &Cyclotomic, a: Cyclotomic, e: &Cyclotomic) -> (r: (Cyclotomic, Cyclotomic))
        requires
            self.wf(),
            self.bounded(sk, 1),
            self.reduced(&a, self.q as int),
            self.bounded(e, self.q as int),
        ensures
            r.0 == a,
            self.reduced(&r.1, self.q as int),
            r.1@ == public_key_b(self.m as int, self.q as int, sk@, a@, e@),
    {
        let ghost m = self.m as int;
        let ghost q = self.q as int;
        proof {
            lemma_params(m, q, self.p as int);
            lemma_centered_within(a@, q);
            lemma_mul_within(a@, sk@, m, q, 1);
        }
        let t = a.mul(sk);
        proof {
            lemma_linear_within(e@, e@, q, q, 2);
        }
        let s = e.mul_scalar(2);
        proof {
            lemma_linear_within(t@, s@, 2 * m * m * q * 1, q * 2, 0);
        }
        let b = t.add(&s).rem(self.q);
        (a, b)
    }

    /// A public key for `sk`: the mask `a` is drawn uniformly modulo `q`, the
    /// noise `e` is the caller's.
    pub fn gen_pk(&self, sk: &Cyclotomic, e: &Cyclotomic) -> (r: (Cyclotomic, Cyclotomic))
        requires
            self.wf(),
            self.bounded(sk, 1),
            self.bounded(e, self.q as int),
        ensures
            self.reduced(&r.0, self.q as int),
            self.reduced(&r.1, self.q as int),
            r.1@ == public_key_b(self.m as int, self.q as int, sk@, r.0@, e@),
    {
        let a = Cyclotomic::sample_with_module(self.m, self.q);
        self.public_key(sk, a, e)
    }

    /// The switch key `(A, A·sk − p·sk² + 2e mod p·q)` for the mask `A` and the
    /// noise `e`.
    pub fn switch_key(&self, sk: &Cyclotomic, a: Cyclotomic, e: &Cyclotomic) -> (r: (Cyclotomic, Cyclotomic))
        requires
            self.wf(),
            self.bounded(sk, 1),
            self.reduced(&a, self.p * self.q),
            self.bounded(e, self.q as int),
        ensures
            r.0 == a,
            self.reduced(&r.1, self.p * self.q),
            r.1@ == switch_key_b(self.m as int, self.q as int, self.p as int, sk@, a@, e@),
    {
        let ghost m = self.m as int;
        let ghost q = self.q as int;
        let ghost p = self.p as int;
        proof {
            lemma_params(m, q, p);
        }
        let pq = self.p * self.q;
        proof {
            lemma_centered_within(a@, p * q);
            lemma_mul_within(a@, sk@, m, p * q, 1);
            lemma_mul_within(sk@, sk@, m, 1, 1);
        }
        let t = a.mul(sk);
        let s2 = sk.mul(sk);
        proof {
            lemma_linear_within(s2@, s2@, 2 * m * m * 1 * 1, 2 * m * m * 1 * 1, p);
        }
        let s2p = s2.mul_scalar(self.p);
        proof {
            lemma_linear_within(t@, s2p@, 2 * m * m * (p * q) * 1, 2 * m * m * 1 * 1 * p, 0);
            lemma_linear_within(e@, e@, q, q, 2);
        }
        let u = t.sub(&s2p);
        let s = e.mul_scalar(2);
        proof {
            lemma_linear_within(
                u@,
                s@,
                2 * m * m * (p * q) * 1 + 2 * m * m * 1 * 1 * p,
                q * 2,
                0,
            );
        }
        let b = u.add(&s).rem(pq);
        (a, b)
    }

    /// A switch key for `sk`: the mask `A` is drawn uniformly modulo `p·q`,
    /// the noise `e` is the caller's.
    pub fn gen_switch_key(&self, sk: &Cyclotomic, e: &Cyclotomic) -> (r: (Cyclotomic, Cyclotomic))
        requires
            self.wf(),
            self.bounded(sk, 1),
            self.bounded(e, self.q as int),
        ensures
            self.reduced(&r.0, self.p * self.q),
            self.reduced(&r.1, self.p * self.q),
            r.1@ == switch_key_b(self.m as int, self.q as int, self.p as int, sk@, r.0@, e@),
    {
        proof {
            lemma_params(self.m as int, self.q as int, self.p as int);
        }
        let a = Cyclotomic::sample_with_module(self.m, self.p * self.q);
        self.switch_key(sk, a, e)
    }

    /// Encrypts `mes` under the public key `pk` with the randomness `v` and the
    /// noises `e0`, `e1`; the ciphertext carries a copy of `switch_key`.
    pub fn encode_with(
        &self,
        mes: &Cyclotomic,
        pk: &(Cyclotomic, Cyclotomic),
        switch_key: &(Cyclotomic, Cyclotomic),
        v: &Cyclotomic,
        e0: &Cyclotomic,
        e1: &Cyclotomic,
    ) -> (r: CryptMessage)
        requires
            self.wf(),
            self.bounded(mes, 1),
            self.reduced(&pk.0, self.q as int),
            self.reduced(&pk.1, self.q as int),
            self.reduced(&switch_key.0, self.p * self.q),
            self.reduced(&switch_key.1, self.p * self.q),
            self.bounded(v, 1),
            self.bounded(e0, self.q as int),
            self.bounded(e1, self.q as int),
        ensures
            r.wf(),
            r.c0.m == self.m,
            r.q == self.q,
            r.p == self.p,
            r.switch_key.0@ == switch_key.0@,
            r.switch_key.1@ == switch_key.1@,
            r.c0@ == encode_c0(self.m as int, self.q as int, pk.1@, mes@, v@, e0@),
            r.c1@ == encode_c1(self.m as int, self.q as int, pk.0@, v@, e1@),
    {
        let ghost m = self.m as int;
        let ghost q = self.q as int;
        proof {
            lemma_params(m, q, self.p as int);
            lemma_centered_within(pk.0@, q);
            lemma_centered_within(pk.1@, q);
            lemma_mul_within(pk.1@, v@, m, q, 1);
            lemma_mul_within(pk.0@, v@, m, q, 1);
            lemma_linear_within(e0@, e0@, q, q, 2);
            lemma_linear_within(e1@, e1@, q, q, 2);
        }
        let t0 = pk.1.mul(v);
        let s0 = e0.mul_scalar(2);
        proof {
            lemma_linear_within(t0@, s0@, 2 * m * m * q * 1, q * 2, 0);
        }
        let u0 = t0.add(&s0);
        proof {
            lemma_linear_within(u0@, mes@, 2 * m * m * q * 1 + q * 2, 1, 0);
        }
        let c0 = u0.add(mes).rem(self.q);
        let t1 = pk.0.mul(v);
        let s1 = e1.mul_scalar(2);
        proof {
            lemma_linear_within(t1@, s1@, 2 * m * m * q * 1, q * 2, 0);
        }
        let c1 = t1.add(&s1).rem(self.q);
        CryptMessage {
            c0,
            c1,
            q: self.q,
            p: self.p,
            switch_key: (switch_key.0.duplicate(), switch_key.1.duplicate()),
        }
    }

    /// Encrypts `mes`: the randomness `v` is drawn uniformly modulo 2, the
    /// noises `e0`, `e1` are the caller's.
    pub fn encode(
        &self,
        mes: &Cyclotomic,
        pk: &(Cyclotomic, Cyclotomic),
        switch_key: &(Cyclotomic, Cyclotomic),
        e0: &Cyclotomic,
        e1: &Cyclotomic,
    ) -> (r: CryptMessage)
        requires
            self.wf(),
            self.bounded(mes, 1),
            self.reduced(&pk.0, self.q as int),
            self.reduced(&pk.1, self.q as int),
            self.reduced(&switch_key.0, self.p * self.q),
            self.reduced(&switch_key.1, self.p * self.q),
            self.bounded(e0, self.q as int),
            self.bounded(e1, self.q as int),
        ensures
            r.wf(),
            r.c0.m == self.m,
            r.q == self.q,
            r.p == self.p,
            r.switch_key.0@ == switch_key.0@,
            r.switch_key.1@ == switch_key.1@,
            exists|v: Seq<int>|
                within(v, 1) && v.len() == self.m - 1
                && #[trigger] encode_c0(self.m as int, self.q as int, pk.1@, mes@, v, e0@) == r.c0@
                && encode_c1(self.m as int, self.q as int, pk.0@, v, e1@) == r.c1@,
    {
        let v = Cyclotomic::sample_with_module(self.m, 2);
        proof {
            lemma_centered_within(v@, 2);
            assert(within(v@, 1));
        }
        let r = self.encode_with(mes, pk, switch_key, &v, e0, e1);
        assert(encode_c0(self.m as int, self.q as int, pk.1@, mes@, v@, e0@) == r.c0@);
        r
    }

    /// Decrypts `c` with the secret key `sk`: `(c0 − sk·c1 mod q) mod 2`.
    pub fn decode(&self, sk: &Cyclotomic, c: &CryptMessage) -> (r: Cyclotomic)
        requires
            self.wf(),
            self.bounded(sk, 1),
            c.wf(),
            c.q == self.q,
            c.c0.m == self.m,
        ensures
            r.wf(),
            r.m == self.m,
            r.q == Some(2i64),
            r@ == decoded(self.m as int, self.q as int, sk@, c.c0@, c.c1@),
            centered_in(r@, 2),
    {
        let ghost m = self.m as int;
        let ghost q = self.q as int;
        proof {
            lemma_params(m, q, self.p as int);
            lemma_centered_within(c.c0@, q);
            lemma_centered_within(c.c1@, q);
            lemma_mul_within(sk@, c.c1@, m, 1, q);
            assert(2 * m * m * 1 * q == 2 * m * m * q * 1) by (nonlinear_arith);
        }
        let t = sk.mul(&c.c1);
        proof {
            lemma_linear_within(c.c0@, t@, q, 2 * m * m * 1 * q, 0);
            assert(q + 2 * m * m * 1 * q <= i64::MAX);
        }
        c.c0.sub(&t).rem(self.q).rem(2)
    }
}

/// The phase `c0 − sk·c1` of a ciphertext under `sk`, before reduction.
pub open spec fn phase(m: int, sk: Seq<int>, c0: Seq<int>, c1: Seq<int>) -> Seq<int> {
    sub_s(c0, mul_s(sk, c1, m))
}

/// Decryption within the noise budget: when the phase of `(c0, c1)` agrees
/// modulo `q` with `mes + 2·noise` and that value lies in `(-q/2, q/2]`,
/// decryption gives `mes` modulo 2, which is `mes` itself for a plaintext of
/// bits.
pub proof fn lemma_decode_within_budget(
    m: int,
    q: int,
    sk: Seq<int>,
    c0: Seq<int>,
    c1: Seq<int>,
    mes: Seq<int>,
    noise: Seq<int>,
)
    requires
        m >= 1,
        q >= 2,
        sk.len() == m - 1,
        c0.len() == m - 1,
        c1.len() == m - 1,
        mes.len() == m - 1,
        noise.len() == m - 1,
        congruent(phase(m, sk, c0, c1), add_s(mes, scale_s(noise, 2)), q),
        centered_in(add_s(mes, scale_s(noise, 2)), q),
    ensures
        decoded(m, q, sk, c0, c1) == cmod_s(mes, 2),
        centered_in(mes, 2) ==> decoded(m, q, sk, c0, c1) == mes,
{
    let ph = phase(m, sk, c0, c1);
    let y = add_s(mes, scale_s(noise, 2));
    assert forall|i: int| 0 <= i < m - 1 implies #[trigger] decoded(m, q, sk, c0, c1)[i] == cmod_s(
        mes,
        2,
    )[i] by {
        lemma_cmod_congruent(ph[i], y[i], q);
        lemma_cmod_centered(y[i], q);
        lemma_fundamental_div_mod_converse(y[i] - mes[i], 2, noise[i], 0);
        lemma_cmod_congruent(y[i], mes[i], 2);
    }
    assert(decoded(m, q, sk, c0, c1) =~= cmod_s(mes, 2));
    if centered_in(mes, 2) {
        assert forall|i: int| 0 <= i < m - 1 implies #[trigger] cmod_s(mes, 2)[i] == mes[i] by {
            lemma_cmod_centered(mes[i], 2);
        }
        assert(cmod_s(mes, 2) =~= mes);
    }
}

/// Homomorphic addition within the noise budget: when each ciphertext's phase
/// agrees modulo `q` with its plaintext plus twice its noise, and the sum of
/// these lies in `(-q/2, q/2]`, the sum of the ciphertexts decrypts to the sum
/// of the plaintexts modulo 2.
pub proof fn lemma_add_decodes(
    m: int,
    q: int,
    sk: Seq<int>,
    ca0: Seq<int>,
    ca1: Seq<int>,
    cb0: Seq<int>,
    cb1: Seq<int>,
    ma: Seq<int>,
    na: Seq<int>,
    mb: Seq<int>,
    nb: Seq<int>,
)
    requires
        m >= 1,
        q >= 2,
        sk.len() == m - 1,
        ca0.len() == m - 1,
        ca1.len() == m - 1,
        cb0.len() == m - 1,
        cb1.len() == m - 1,
        ma.len() == m - 1,
        na.len() == m - 1,
        mb.len() == m - 1,
        nb.len() == m - 1,
        congruent(phase(m, sk, ca0, ca1), add_s(ma, scale_s(na, 2)), q),
        congruent(phase(m, sk, cb0, cb1), add_s(mb, scale_s(nb, 2)), q),
        centered_in(add_s(add_s(ma, mb), scale_s(add_s(na, nb), 2)), q),
    ensures
        decoded(m, q, sk, cmod_s(add_s(ca0, cb0), q), cmod_s(add_s(ca1, cb1), q)) == cmod_s(
            add_s(ma, mb),
            2,
        ),
{
    let s0 = cmod_s(add_s(ca0, cb0), q);
    let s1 = cmod_s(add_s(ca1, cb1), q);
    lemma_cmod_s_congruent(add_s(ca0, cb0), q);
    lemma_cmod_s_congruent(add_s(ca1, cb1), q);
    lemma_mul_congruent(sk, s1, add_s(ca1, cb1), m, q);
    lemma_add_congruent(s0, mul_s(sk, s1, m), add_s(ca0, cb0), mul_s(sk, add_s(ca1, cb1), m), q);
    lemma_mul_distributes(sk, ca1, cb1, m);
    let pa = phase(m, sk, ca0, ca1);
    let pb = phase(m, sk, cb0, cb1);
    assert(sub_s(add_s(ca0, cb0), mul_s(sk, add_s(ca1, cb1), m)) =~= add_s(pa, pb));
    lemma_add_congruent(pa, pb, add_s(ma, scale_s(na, 2)), add_s(mb, scale_s(nb, 2)), q);
    let y = add_s(add_s(ma, mb), scale_s(add_s(na, nb), 2));
    assert(add_s(add_s(ma, scale_s(na, 2)), add_s(mb, scale_s(nb, 2))) =~= y);
    lemma_congruent_trans(phase(m, sk, s0, s1), add_s(pa, pb), y, q);
    lemma_decode_within_budget(m, q, sk, s0, s1, add_s(ma, mb), add_s(na, nb));
}

} // verus!
