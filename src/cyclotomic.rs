//! Elements of the cyclotomic integer ring of a prime index `m`, stored as
//! their `m - 1` coefficients.

use vstd::prelude::*;
use vstd::arithmetic::div_mod::{lemma_fundamental_div_mod, lemma_fundamental_div_mod_converse};

verus! {

/// The representative of `c` modulo `r` in the half-open range `(-r/2, r/2]`.
pub open spec fn cmod(c: int, r: int) -> int {
    let t = c % r;
    if 2 * t > r { t - r } else { t }
}

/// Every value of `s` is representable as an `i64`.
pub open spec fn fits(s: Seq<int>) -> bool {
    forall|i: int| 0 <= i < s.len() ==> i64::MIN <= #[trigger] s[i] <= i64::MAX
}

/// Every value of `s` lies in `(-r/2, r/2]`.
pub open spec fn centered_in(s: Seq<int>, r: int) -> bool {
    forall|i: int| 0 <= i < s.len() ==> -r < 2 * #[trigger] s[i] <= r
}

/// Every value of `s` lies in `[-b, b]`.
pub open spec fn within(s: Seq<int>, b: int) -> bool {
    forall|i: int| 0 <= i < s.len() ==> -b <= #[trigger] s[i] <= b
}

pub open spec fn add_s(a: Seq<int>, b: Seq<int>) -> Seq<int> {
    Seq::new(a.len(), |i: int| a[i] + b[i])
}

pub open spec fn sub_s(a: Seq<int>, b: Seq<int>) -> Seq<int> {
    Seq::new(a.len(), |i: int| a[i] - b[i])
}

pub open spec fn neg_s(a: Seq<int>) -> Seq<int> {
    Seq::new(a.len(), |i: int| -a[i])
}

pub open spec fn scale_s(a: Seq<int>, k: int) -> Seq<int> {
    Seq::new(a.len(), |i: int| a[i] * k)
}

pub open spec fn cmod_s(a: Seq<int>, r: int) -> Seq<int> {
    Seq::new(a.len(), |i: int| cmod(a[i], r))
}

/// `sum_{j < nb, (ia + j) mod m == k} x * b[j]`: the part of slot `k` of the
/// product that row `ia` contributes, up to column `nb`.
pub open spec fn row(x: int, b: Seq<int>, m: int, k: int, ia: int, nb: int) -> int
    decreases nb,
{
    if nb <= 0 {
        0
    } else {
        row(x, b, m, k, ia, nb - 1) + (if (ia + nb - 1) % m == k { x * b[nb - 1] } else { 0 })
    }
}

/// `sum_{i < na, j < |b|, (i + j) mod m == k} a[i] * b[j]`: slot `k` of the
/// product of the polynomials `a` and `b` modulo `x^m - 1`, over the first
/// `na` rows.
pub open spec fn slot(a: Seq<int>, b: Seq<int>, m: int, k: int, na: int) -> int
    decreases na,
{
    if na <= 0 {
        0
    } else {
        slot(a, b, m, k, na - 1) + row(a[na - 1], b, m, k, na - 1, b.len() as int)
    }
}

/// The ring product: the polynomial product modulo `x^m - 1`, with the slot of
/// degree `m - 1` eliminated by `x^(m-1) = -(1 + x + ... + x^(m-2))`.
pub open spec fn mul_s(a: Seq<int>, b: Seq<int>, m: int) -> Seq<int> {
    Seq::new(
        (m - 1) as nat,
        |k: int| slot(a, b, m, k, a.len() as int) - slot(a, b, m, m - 1, a.len() as int),
    )
}

/// The product of two elements can be computed in `i64` without overflow.
pub open spec fn mul_fits(a: Seq<int>, b: Seq<int>, m: int) -> bool {
    forall|i: int, j: int|
        0 <= i < a.len() && 0 <= j < b.len() ==> 2 * m * m * abs(#[trigger] a[i] * #[trigger] b[j])
            <= i64::MAX
}

pub open spec fn abs(x: int) -> int {
    if x < 0 { -x } else { x }
}

#[derive(Debug, Clone)]
pub struct Cyclotomic {
    /// The ring index, a prime.
    pub m: usize,
    /// The coefficient of `x^i` at index `i`.
    pub coefficients: Vec<i64>,
    /// The modulus the coefficients were last reduced by, if any.
    pub q: Option<i64>,
}

impl View for Cyclotomic {
    type V = Seq<int>;

    open spec fn view(&self) -> Seq<int> {
        self.coefficients@.map_values(|c: i64| c as int)
    }
}


/// Two elements are equal when their coefficients are; the modulus tag is not
/// compared.
impl PartialEq for Cyclotomic {
    fn eq(&self, other: &Cyclotomic) -> (r: bool) {
        let n = self.coefficients.len();
        if n != other.coefficients.len() {
            assert(self@.len() != other@.len());
            return false;
        }
        let mut i: usize = 0;
        while i < n
            invariant
                n == self.coefficients@.len(),
                n == other.coefficients@.len(),
                i <= n,
                forall|j: int| 0 <= j < i ==> self@[j] == other@[j],
            decreases n - i,
        {
            if self.coefficients[i] != other.coefficients[i] {
                assert(self@[i as int] != other@[i as int]);
                return false;
            }
            i += 1;
        }
        assert(self@ =~= other@);
        true
    }
}

impl vstd::std_specs::cmp::PartialEqSpecImpl for Cyclotomic {
    open spec fn obeys_eq_spec() -> bool {
        true
    }

    open spec fn eq_spec(&self, other: &Cyclotomic) -> bool {
        self@ == other@
    }
}
/// Relies on rand::random: an `i64` drawn uniformly, of which nothing is promised.
#[verifier::external_body]
fn random_i64() -> (r: i64) {
    rand::random::<i64>()
}

/// The centered representative of `c` modulo `r`.
fn centered(c: i64, r: i64) -> (o: i64)
    requires
        r > 0,
    ensures
        o == cmod(c as int, r as int),
{
    let t: i64 = match c.checked_rem_euclid(r) {
        Some(t) => t,
        None => 0,
    };
    if t > r - t {
        t - r
    } else {
        t
    }
}

impl Cyclotomic {
    /// Well-formed: `m - 1` coefficients.
    pub open spec fn wf(&self) -> bool {
        self.m >= 1 && self.coefficients@.len() == self.m - 1
    }

    /// The element of ring index `m` with the given coefficients, not reduced.
    pub fn with_coef(m: usize, coefficients: Vec<i64>) -> (r: Cyclotomic)
        requires
            m >= 1,
            coefficients@.len() == m - 1,
        ensures
            r.wf(),
            r.m == m,
            r.coefficients@ == coefficients@,
            r.q is None,
    {
        Cyclotomic { m, coefficients, q: None }
    }

    /// An element whose `m - 1` coefficients are drawn uniformly and folded into
    /// `(-q/2, q/2]`.
    pub fn sample_with_module(m: usize, q: i64) -> (r: Cyclotomic)
        requires
            m >= 1,
            q >= 1,
        ensures
            r.wf(),
            r.m == m,
            r.q == Some(q),
            cmod_s(r@, q as int) == r@,
            centered_in(r@, q as int),
    {
        let mut coefficients: Vec<i64> = Vec::new();
        let mut i: usize = 0;
        while i < m - 1
            invariant
                m >= 1,
                q >= 1,
                i <= m - 1,
                coefficients@.len() == i,
                forall|j: int| 0 <= j < i ==> cmod(#[trigger] coefficients@[j] as int, q as int) == coefficients@[j],
            decreases m - 1 - i,
        {
            let raw = random_i64();
            let c = centered(raw, q);
            proof { lemma_cmod_idempotent(raw as int, q as int); }
            coefficients.push(c);
            i += 1;
        }
        let r = Cyclotomic { m, coefficients, q: Some(q) };
        assert(cmod_s(r@, q as int) =~= r@);
        assert forall|i: int| 0 <= i < r@.len() implies -q < 2 * #[trigger] r@[i] <= q by {
            lemma_cmod_idempotent(r@[i], q as int);
        }
        r
    }

    /// Coefficient-wise sum; the modulus tag of `self` is kept.
    pub fn add(&self, rhs: &Cyclotomic) -> (r: Cyclotomic)
        requires
            self.wf(),
            rhs.wf(),
            self.m == rhs.m,
            fits(add_s(self@, rhs@)),
        ensures
            r.wf(),
            r.m == self.m,
            r.q == self.q,
            r@ == add_s(self@, rhs@),
    {
        let mut coefficients: Vec<i64> = Vec::new();
        let n = self.coefficients.len();
        let mut i: usize = 0;
        while i < n
            invariant
                n == self.coefficients@.len(),
                n == rhs.coefficients@.len(),
                fits(add_s(self@, rhs@)),
                i <= n,
                coefficients@.len() == i,
                forall|j: int| 0 <= j < i ==> #[trigger] coefficients@[j] == self@[j] + rhs@[j],
            decreases n - i,
        {
            assert(add_s(self@, rhs@)[i as int] == self@[i as int] + rhs@[i as int]);
            coefficients.push(self.coefficients[i] + rhs.coefficients[i]);
            i += 1;
        }
        let r = Cyclotomic { m: self.m, coefficients, q: self.q };
        assert(r@ =~= add_s(self@, rhs@));
        r
    }

    /// In-place coefficient-wise sum.
    pub fn add_assign(&mut self, rhs: &Cyclotomic)
        requires
            old(self).wf(),
            rhs.wf(),
            old(self).m == rhs.m,
            fits(add_s(old(self)@, rhs@)),
        ensures
            final(self).wf(),
            final(self).m == old(self).m,
            final(self).q == old(self).q,
            final(self)@ == add_s(old(self)@, rhs@),
    {
        let r = self.add(rhs);
        self.coefficients = r.coefficients;
    }

    /// Coefficient-wise difference; the modulus tag of `self` is kept.
    pub fn sub(&self, rhs: &Cyclotomic) -> (r: Cyclotomic)
        requires
            self.wf(),
            rhs.wf(),
            self.m == rhs.m,
            fits(sub_s(self@, rhs@)),
        ensures
            r.wf(),
            r.m == self.m,
            r.q == self.q,
            r@ == sub_s(self@, rhs@),
    {
        let mut coefficients: Vec<i64> = Vec::new();
        let n = self.coefficients.len();
        let mut i: usize = 0;
        while i < n
            invariant
                n == self.coefficients@.len(),
                n == rhs.coefficients@.len(),
                fits(sub_s(self@, rhs@)),
                i <= n,
                coefficients@.len() == i,
                forall|j: int| 0 <= j < i ==> #[trigger] coefficients@[j] == self@[j] - rhs@[j],
            decreases n - i,
        {
            assert(sub_s(self@, rhs@)[i as int] == self@[i as int] - rhs@[i as int]);
            coefficients.push(self.coefficients[i] - rhs.coefficients[i]);
            i += 1;
        }
        let r = Cyclotomic { m: self.m, coefficients, q: self.q };
        assert(r@ =~= sub_s(self@, rhs@));
        r
    }

    /// In-place coefficient-wise difference.
    pub fn sub_assign(&mut self, rhs: &Cyclotomic)
        requires
            old(self).wf(),
            rhs.wf(),
            old(self).m == rhs.m,
            fits(sub_s(old(self)@, rhs@)),
        ensures
            final(self).wf(),
            final(self).m == old(self).m,
            final(self).q == old(self).q,
            final(self)@ == sub_s(old(self)@, rhs@),
    {
        let r = self.sub(rhs);
        self.coefficients = r.coefficients;
    }

    /// Every coefficient multiplied by the integer `k`.
    pub fn mul_scalar(&self, k: i64) -> (r: Cyclotomic)
        requires
            self.wf(),
            fits(scale_s(self@, k as int)),
        ensures
            r.wf(),
            r.m == self.m,
            r.q == self.q,
            r@ == scale_s(self@, k as int),
    {
        let mut coefficients: Vec<i64> = Vec::new();
        let n = self.coefficients.len();
        let mut i: usize = 0;
        while i < n
            invariant
                n == self.coefficients@.len(),
                fits(scale_s(self@, k as int)),
                i <= n,
                coefficients@.len() == i,
                forall|j: int| 0 <= j < i ==> #[trigger] coefficients@[j] == self@[j] * k,
            decreases n - i,
        {
            assert(scale_s(self@, k as int)[i as int] == self@[i as int] * k);
            coefficients.push(self.coefficients[i] * k);
            i += 1;
        }
        let r = Cyclotomic { m: self.m, coefficients, q: self.q };
        assert(r@ =~= scale_s(self@, k as int));
        r
    }

    /// In-place multiplication by the integer `k`.
    pub fn mul_scalar_assign(&mut self, k: i64)
        requires
            old(self).wf(),
            fits(scale_s(old(self)@, k as int)),
        ensures
            final(self).wf(),
            final(self).m == old(self).m,
            final(self).q == old(self).q,
            final(self)@ == scale_s(old(self)@, k as int),
    {
        let r = self.mul_scalar(k);
        self.coefficients = r.coefficients;
    }

    /// Every coefficient negated.
    pub fn neg(&self) -> (r: Cyclotomic)
        requires
            self.wf(),
            fits(neg_s(self@)),
        ensures
            r.wf(),
            r.m == self.m,
            r.q == self.q,
            r@ == neg_s(self@),
    {
        let mut coefficients: Vec<i64> = Vec::new();
        let n = self.coefficients.len();
        let mut i: usize = 0;
        while i < n
            invariant
                n == self.coefficients@.len(),
                fits(neg_s(self@)),
                i <= n,
                coefficients@.len() == i,
                forall|j: int| 0 <= j < i ==> #[trigger] coefficients@[j] == -self@[j],
            decreases n - i,
        {
            assert(neg_s(self@)[i as int] == -self@[i as int]);
            coefficients.push(-self.coefficients[i]);
            i += 1;
        }
        let r = Cyclotomic { m: self.m, coefficients, q: self.q };
        assert(r@ =~= neg_s(self@));
        r
    }

    /// Every coefficient reduced into `(-r/2, r/2]`; the result is tagged with `r`.
    pub fn rem(&self, r: i64) -> (o: Cyclotomic)
        requires
            self.wf(),
            r >= 1,
        ensures
            o.wf(),
            o.m == self.m,
            o.q == Some(r),
            o@ == cmod_s(self@, r as int),
            centered_in(o@, r as int),
    {
        let mut coefficients: Vec<i64> = Vec::new();
        let n = self.coefficients.len();
        let mut i: usize = 0;
        while i < n
            invariant
                n == self.coefficients@.len(),
                r >= 1,
                i <= n,
                coefficients@.len() == i,
                forall|j: int| 0 <= j < i ==> #[trigger] coefficients@[j] == cmod(self@[j], r as int),
            decreases n - i,
        {
            coefficients.push(centered(self.coefficients[i], r));
            i += 1;
        }
        let o = Cyclotomic { m: self.m, coefficients, q: Some(r) };
        assert(o@ =~= cmod_s(self@, r as int));
        assert forall|i: int| 0 <= i < o@.len() implies -r < 2 * #[trigger] o@[i] <= r by {
            lemma_cmod_idempotent(self@[i], r as int);
        }
        o
    }


    /// The ring product: convolution with indices taken modulo `m`, then the
    /// slot of degree `m - 1` subtracted from every other slot and dropped.
    pub fn mul(&self, rhs: &Cyclotomic) -> (r: Cyclotomic)
        requires
            self.wf(),
            rhs.wf(),
            self.m == rhs.m,
            mul_fits(self@, rhs@, self.m as int),
        ensures
            r.wf(),
            r.m == self.m,
            r.q == self.q,
            r@ == mul_s(self@, rhs@, self.m as int),
    {
        let m = self.m;
        let n = m - 1;
        let ghost a = self@;
        let ghost b = rhs@;
        let ghost mi = m as int;
        let ghost pb = (i64::MAX as int) / (2 * mi * mi);
        proof {
            assert(2 * mi * mi > 0) by (nonlinear_arith)
                requires
                    mi >= 1,
            ;
            lemma_fundamental_div_mod(i64::MAX as int, 2 * mi * mi);
            assert forall|i: int, j: int| 0 <= i < a.len() && 0 <= j < b.len() implies abs(
                #[trigger] a[i] * #[trigger] b[j],
            ) <= pb by {
                let x = abs(a[i] * b[j]);
                let d = 2 * mi * mi;
                assert(x <= pb) by (nonlinear_arith)
                    requires
                        d * x <= i64::MAX,
                        d > 0,
                        i64::MAX == d * pb + (i64::MAX as int) % d,
                        0 <= (i64::MAX as int) % d < d,
                ;
            }
            assert(2 * (n * n * pb) <= i64::MAX) by (nonlinear_arith)
                requires
                    n == mi - 1,
                    mi >= 1,
                    pb >= 0,
                    i64::MAX == 2 * mi * mi * pb + (i64::MAX as int) % (2 * mi * mi),
                    0 <= (i64::MAX as int) % (2 * mi * mi),
            ;
        }
        let mut acc: Vec<i64> = Vec::new();
        let mut k: usize = 0;
        while k < m
            invariant
                k <= m,
                acc@.len() == k,
                forall|j: int| 0 <= j < k ==> #[trigger] acc@[j] == 0,
            decreases m - k,
        {
            acc.push(0);
            k += 1;
        }
        let mut ia: usize = 0;
        while ia < n
            invariant
                n == m - 1,
                m >= 1,
                a == self@,
                b == rhs@,
                mi == m,
                a.len() == n,
                b.len() == n,
                pb >= 0,
                2 * (n * n * pb) <= i64::MAX,
                forall|i: int, j: int|
                    0 <= i < a.len() && 0 <= j < b.len() ==> abs(#[trigger] a[i] * #[trigger] b[j]) <= pb,
                ia <= n,
                acc@.len() == m,
                forall|j: int| 0 <= j < m ==> #[trigger] acc@[j] == slot(a, b, mi, j, ia as int),
            decreases n - ia,
        {
            let x = self.coefficients[ia];
            let mut ib: usize = 0;
            while ib < n
                invariant
                    n == m - 1,
                    m >= 1,
                    a == self@,
                    b == rhs@,
                    mi == m,
                    a.len() == n,
                    b.len() == n,
                    pb >= 0,
                    2 * (n * n * pb) <= i64::MAX,
                    forall|i: int, j: int|
                        0 <= i < a.len() && 0 <= j < b.len() ==> abs(#[trigger] a[i] * #[trigger] b[j]) <= pb,
                    ia < n,
                    x == a[ia as int],
                    ib <= n,
                    acc@.len() == m,
                    forall|j: int|
                        0 <= j < m ==> #[trigger] acc@[j] == slot(a, b, mi, j, ia as int) + row(
                            x as int,
                            b,
                            mi,
                            j,
                            ia as int,
                            ib as int,
                        ),
                decreases n - ib,
            {
                let k: usize = if ib >= m - ia {
                    ib - (m - ia)
                } else {
                    ia + ib
                };
                proof {
                    if ib >= m - ia {
                        lemma_fundamental_div_mod_converse(ia + ib, mi, 1, k as int);
                    } else {
                        lemma_fundamental_div_mod_converse(ia + ib, mi, 0, k as int);
                    }
                    assert((ia + ib) % mi == k);
                }
                let y = rhs.coefficients[ib];
                proof {
                    let xi = x as int;
                    assert forall|j: int| 0 <= j < b.len() implies abs(xi * #[trigger] b[j]) <= pb by {
                        assert(abs(a[ia as int] * b[j]) <= pb);
                    }
                    lemma_slot_bound(a, b, mi, k as int, ia as int, pb);
                    lemma_row_bound(xi, b, mi, k as int, ia as int, ib as int + 1, pb);
                    let s0 = slot(a, b, mi, k as int, ia as int);
                    let r1 = row(xi, b, mi, k as int, ia as int, ib as int + 1);
                    assert(r1 == row(xi, b, mi, k as int, ia as int, ib as int) + xi * y);
                    assert(-i64::MAX <= s0 + r1 <= i64::MAX) by (nonlinear_arith)
                        requires
                            abs(s0) <= ia * n * pb,
                            abs(r1) <= (ib + 1) * pb,
                            ia < n,
                            ib < n,
                            pb >= 0,
                            2 * (n * n * pb) <= i64::MAX,
                    ;
                    assert(abs(xi * y) <= pb);
                    assert(-i64::MAX <= xi * y <= i64::MAX) by (nonlinear_arith)
                        requires
                            abs(xi * y) <= pb,
                            pb >= 0,
                            2 * (n * n * pb) <= i64::MAX,
                            n >= 1,
                    ;
                }
                let v = acc[k] + x * y;
                acc.set(k, v);
                proof {
                    assert forall|j: int| 0 <= j < m implies #[trigger] acc@[j] == slot(
                        a,
                        b,
                        mi,
                        j,
                        ia as int,
                    ) + row(x as int, b, mi, j, ia as int, ib as int + 1) by {
                        assert(row(x as int, b, mi, j, ia as int, ib as int + 1) == row(
                            x as int,
                            b,
                            mi,
                            j,
                            ia as int,
                            ib as int,
                        ) + (if (ia + ib) % mi == j { x * b[ib as int] } else { 0 }));
                    }
                }
                ib += 1;
            }
            proof {
                assert forall|j: int| 0 <= j < m implies #[trigger] acc@[j] == slot(
                    a,
                    b,
                    mi,
                    j,
                    ia as int + 1,
                ) by {
                    assert(slot(a, b, mi, j, ia as int + 1) == slot(a, b, mi, j, ia as int) + row(
                        a[ia as int],
                        b,
                        mi,
                        j,
                        ia as int,
                        n as int,
                    ));
                }
            }
            ia += 1;
        }
        let last = acc[n];
        let mut coefficients: Vec<i64> = Vec::new();
        let mut i: usize = 0;
        while i < n
            invariant
                n == m - 1,
                a == self@,
                b == rhs@,
                mi == m,
                a.len() == n,
                b.len() == n,
                pb >= 0,
                2 * (n * n * pb) <= i64::MAX,
                forall|i: int, j: int|
                    0 <= i < a.len() && 0 <= j < b.len() ==> abs(#[trigger] a[i] * #[trigger] b[j]) <= pb,
                acc@.len() == m,
                forall|j: int| 0 <= j < m ==> #[trigger] acc@[j] == slot(a, b, mi, j, n as int),
                last == acc@[n as int],
                i <= n,
                coefficients@.len() == i,
                forall|j: int| 0 <= j < i ==> #[trigger] coefficients@[j] == mul_s(a, b, mi)[j],
            decreases n - i,
        {
            proof {
                lemma_slot_bound(a, b, mi, i as int, n as int, pb);
                lemma_slot_bound(a, b, mi, n as int, n as int, pb);
            }
            coefficients.push(acc[i] - last);
            i += 1;
        }
        let r = Cyclotomic { m, coefficients, q: self.q };
        assert(r@ =~= mul_s(a, b, mi));
        r
    }

    /// In-place ring product.
    pub fn mul_assign(&mut self, rhs: &Cyclotomic)
        requires
            old(self).wf(),
            rhs.wf(),
            old(self).m == rhs.m,
            mul_fits(old(self)@, rhs@, old(self).m as int),
        ensures
            final(self).wf(),
            final(self).m == old(self).m,
            final(self).q == old(self).q,
            final(self)@ == mul_s(old(self)@, rhs@, old(self).m as int),
    {
        let r = self.mul(rhs);
        self.coefficients = r.coefficients;
    }
    /// A copy of this element.
    pub fn duplicate(&self) -> (r: Cyclotomic)
        ensures
            r.m == self.m,
            r.coefficients@ == self.coefficients@,
            r.q == self.q,
            r@ == self@,
    {
        Cyclotomic { m: self.m, coefficients: self.coefficients.clone(), q: self.q }
    }
}

/// Centered values lie within the modulus.
pub proof fn lemma_centered_within(s: Seq<int>, r: int)
    requires
        centered_in(s, r),
    ensures
        within(s, r),
{
}

/// Bounds on sums, differences, negations and multiples from bounds on the
/// operands.
pub proof fn lemma_linear_within(a: Seq<int>, b: Seq<int>, ba: int, bb: int, k: int)
    requires
        a.len() == b.len(),
        within(a, ba),
        within(b, bb),
        k >= 0,
    ensures
        within(add_s(a, b), ba + bb),
        within(sub_s(a, b), ba + bb),
        within(neg_s(a), ba),
        within(scale_s(a, k), ba * k),
        ba + bb <= i64::MAX ==> fits(add_s(a, b)) && fits(sub_s(a, b)),
        ba <= i64::MAX ==> fits(neg_s(a)),
        ba * k <= i64::MAX ==> fits(scale_s(a, k)),
{
    assert forall|i: int| 0 <= i < a.len() implies -(ba * k) <= #[trigger] scale_s(a, k)[i] <= ba * k by {
        let x = a[i];
        assert(-(ba * k) <= x * k <= ba * k) by (nonlinear_arith)
            requires
                -ba <= x <= ba,
                k >= 0,
        ;
    }
}

/// Reducing twice by the same modulus is reducing once.
pub proof fn lemma_cmod_idempotent(c: int, r: int)
    requires
        r > 0,
    ensures
        cmod(cmod(c, r), r) == cmod(c, r),
        -r < 2 * cmod(c, r) <= r,
        (c - cmod(c, r)) % r == 0,
{
    let t = c % r;
    let k = c / r;
    lemma_fundamental_div_mod(c, r);
    assert(c == k * r + t) by (nonlinear_arith)
        requires
            c == r * (c / r) + c % r,
            k == c / r,
            t == c % r,
    ;
    if 2 * t > r {
        lemma_fundamental_div_mod_converse(t - r, r, -1, t);
        assert(c - (t - r) == (k + 1) * r) by (nonlinear_arith)
            requires
                c == k * r + t,
        ;
        lemma_fundamental_div_mod_converse(c - (t - r), r, k + 1, 0);
    } else {
        lemma_fundamental_div_mod_converse(t, r, 0, t);
        lemma_fundamental_div_mod_converse(c - t, r, k, 0);
    }
}


proof fn lemma_abs_mul(x: int, y: int, bx: int, by: int)
    requires
        -bx <= x <= bx,
        -by <= y <= by,
    ensures
        abs(x * y) <= bx * by,
{
    assert(abs(x * y) <= bx * by) by (nonlinear_arith)
        requires
            -bx <= x <= bx,
            -by <= y <= by,
    ;
}

proof fn lemma_row_bound(x: int, b: Seq<int>, m: int, k: int, ia: int, nb: int, pb: int)
    requires
        0 <= nb <= b.len(),
        forall|j: int| 0 <= j < b.len() ==> abs(x * #[trigger] b[j]) <= pb,
    ensures
        abs(row(x, b, m, k, ia, nb)) <= nb * pb,
    decreases nb,
{
    if nb > 0 {
        lemma_row_bound(x, b, m, k, ia, nb - 1, pb);
        assert(abs(x * b[nb - 1]) <= pb);
        assert((nb - 1) * pb + pb == nb * pb) by (nonlinear_arith);
        let t = if (ia + nb - 1) % m == k { x * b[nb - 1] } else { 0 };
        assert(row(x, b, m, k, ia, nb) == row(x, b, m, k, ia, nb - 1) + t);
        assert(abs(t) <= pb);
        let r0 = row(x, b, m, k, ia, nb - 1);
        assert(abs(r0) <= (nb - 1) * pb);
        assert(abs(r0 + t) <= (nb - 1) * pb + pb);
    } else {
        assert(nb * pb == 0) by (nonlinear_arith)
            requires
                nb == 0,
        ;
    }
}

proof fn lemma_slot_bound(a: Seq<int>, b: Seq<int>, m: int, k: int, na: int, pb: int)
    requires
        0 <= na <= a.len(),
        forall|i: int, j: int|
            0 <= i < a.len() && 0 <= j < b.len() ==> abs(#[trigger] a[i] * #[trigger] b[j]) <= pb,
    ensures
        abs(slot(a, b, m, k, na)) <= na * b.len() * pb,
    decreases na,
{
    if na > 0 {
        lemma_slot_bound(a, b, m, k, na - 1, pb);
        let x = a[na - 1];
        assert forall|j: int| 0 <= j < b.len() implies abs(x * #[trigger] b[j]) <= pb by {
            assert(abs(a[na - 1] * b[j]) <= pb);
        }
        lemma_row_bound(x, b, m, k, na - 1, b.len() as int, pb);
        let l = b.len() as int;
        assert((na - 1) * l * pb + l * pb == na * l * pb) by (nonlinear_arith);
        assert(slot(a, b, m, k, na) == slot(a, b, m, k, na - 1) + row(x, b, m, k, na - 1, l));
    } else {
        assert(na * b.len() * pb == 0) by (nonlinear_arith)
            requires
                na == 0,
        ;
    }
}

/// A bound on the coefficients of a product from bounds on its factors.
pub proof fn lemma_mul_within(a: Seq<int>, b: Seq<int>, m: int, ba: int, bb: int)
    requires
        m >= 1,
        a.len() == m - 1,
        b.len() == m - 1,
        ba >= 0,
        bb >= 0,
        within(a, ba),
        within(b, bb),
    ensures
        within(mul_s(a, b, m), 2 * m * m * ba * bb),
        2 * m * m * ba * bb <= i64::MAX ==> mul_fits(a, b, m),
{
    let n = m - 1;
    assert forall|i: int, j: int| 0 <= i < a.len() && 0 <= j < b.len() implies abs(
        #[trigger] a[i] * #[trigger] b[j],
    ) <= ba * bb by {
        lemma_abs_mul(a[i], b[j], ba, bb);
    }
    let pb = ba * bb;
    assert(pb >= 0) by (nonlinear_arith)
        requires
            ba >= 0,
            bb >= 0,
            pb == ba * bb,
    ;
    assert forall|k: int| 0 <= k < n implies -(2 * m * m * pb) <= #[trigger] mul_s(a, b, m)[k] <= 2 * m * m * pb by {
        lemma_slot_bound(a, b, m, k, n, pb);
        lemma_slot_bound(a, b, m, m - 1, n, pb);
        let s1 = slot(a, b, m, k, n);
        let s2 = slot(a, b, m, m - 1, n);
        assert(-(2 * m * m * pb) <= s1 - s2 <= 2 * m * m * pb) by (nonlinear_arith)
            requires
                n == m - 1,
                0 <= n,
                0 <= pb,
                abs(s1) <= n * n * pb,
                abs(s2) <= n * n * pb,
        ;
    }
    assert(within(mul_s(a, b, m), 2 * m * m * ba * bb)) by (nonlinear_arith)
        requires
            within(mul_s(a, b, m), 2 * m * m * pb),
            pb == ba * bb,
    ;
    if 2 * m * m * ba * bb <= i64::MAX {
        assert forall|i: int, j: int| 0 <= i < a.len() && 0 <= j < b.len() implies 2 * m * m * abs(
            #[trigger] a[i] * #[trigger] b[j],
        ) <= i64::MAX by {
            let x = abs(a[i] * b[j]);
            assert(2 * m * m * x <= i64::MAX) by (nonlinear_arith)
                requires
                    x <= pb,
                    m >= 1,
                    pb == ba * bb,
                    2 * m * m * ba * bb <= i64::MAX,
            ;
        }
    }
}

proof fn lemma_row_linear(x: int, b: Seq<int>, c: Seq<int>, m: int, k: int, ia: int, nb: int)
    requires
        0 <= nb <= b.len(),
        b.len() == c.len(),
    ensures
        row(x, add_s(b, c), m, k, ia, nb) == row(x, b, m, k, ia, nb) + row(x, c, m, k, ia, nb),
    decreases nb,
{
    if nb > 0 {
        lemma_row_linear(x, b, c, m, k, ia, nb - 1);
        let (u, v) = (b[nb - 1], c[nb - 1]);
        assert(add_s(b, c)[nb - 1] == u + v);
        assert(x * (u + v) == x * u + x * v) by (nonlinear_arith);
    }
}

proof fn lemma_slot_linear(a: Seq<int>, b: Seq<int>, c: Seq<int>, m: int, k: int, na: int)
    requires
        0 <= na <= a.len(),
        b.len() == c.len(),
    ensures
        slot(a, add_s(b, c), m, k, na) == slot(a, b, m, k, na) + slot(a, c, m, k, na),
    decreases na,
{
    if na > 0 {
        lemma_slot_linear(a, b, c, m, k, na - 1);
        lemma_row_linear(a[na - 1], b, c, m, k, na - 1, b.len() as int);
    }
}

/// Ring laws modulo `q`: addition is associative, and multiplication
/// distributes over addition, once both sides are reduced modulo `q`.
pub proof fn lemma_ring_laws(x: Seq<int>, y: Seq<int>, z: Seq<int>, m: int, q: int)
    requires
        m >= 1,
        q >= 1,
        x.len() == m - 1,
        y.len() == m - 1,
        z.len() == m - 1,
    ensures
        cmod_s(add_s(add_s(x, y), z), q) == cmod_s(add_s(x, add_s(y, z)), q),
        cmod_s(mul_s(x, add_s(y, z), m), q) == cmod_s(add_s(mul_s(x, y, m), mul_s(x, z, m)), q),
{
    assert(add_s(add_s(x, y), z) =~= add_s(x, add_s(y, z)));
    lemma_mul_distributes(x, y, z, m);
}

/// The product distributes over addition in its right factor.
pub proof fn lemma_mul_distributes(x: Seq<int>, y: Seq<int>, z: Seq<int>, m: int)
    requires
        m >= 1,
        x.len() == m - 1,
        y.len() == m - 1,
        z.len() == m - 1,
    ensures
        mul_s(x, add_s(y, z), m) == add_s(mul_s(x, y, m), mul_s(x, z, m)),
{
    assert forall|k: int| 0 <= k < m - 1 implies #[trigger] mul_s(x, add_s(y, z), m)[k] == add_s(
        mul_s(x, y, m),
        mul_s(x, z, m),
    )[k] by {
        lemma_slot_linear(x, y, z, m, k, x.len() as int);
        lemma_slot_linear(x, y, z, m, m - 1, x.len() as int);
    }
    assert(mul_s(x, add_s(y, z), m) =~= add_s(mul_s(x, y, m), mul_s(x, z, m)));
}

/// `s` and `t` agree value by value modulo `q`.
pub open spec fn congruent(s: Seq<int>, t: Seq<int>, q: int) -> bool {
    s.len() == t.len() && forall|i: int| 0 <= i < s.len() ==> (#[trigger] s[i] - t[i]) % q == 0
}

proof fn lemma_row_scale(x: int, w: Seq<int>, m: int, k: int, ia: int, nb: int, q: int)
    requires
        0 <= nb <= w.len(),
    ensures
        row(x, scale_s(w, q), m, k, ia, nb) == q * row(x, w, m, k, ia, nb),
    decreases nb,
{
    if nb > 0 {
        lemma_row_scale(x, w, m, k, ia, nb - 1, q);
        let u = w[nb - 1];
        assert(scale_s(w, q)[nb - 1] == u * q);
        assert(x * (u * q) == q * (x * u)) by (nonlinear_arith);
        let r0 = row(x, w, m, k, ia, nb - 1);
        assert(q * r0 + q * (x * u) == q * (r0 + x * u)) by (nonlinear_arith);
        assert(q * r0 + 0 == q * (r0 + 0)) by (nonlinear_arith);
    } else {
        assert(q * 0 == 0) by (nonlinear_arith);
    }
}

proof fn lemma_slot_scale(a: Seq<int>, w: Seq<int>, m: int, k: int, na: int, q: int)
    requires
        0 <= na <= a.len(),
    ensures
        slot(a, scale_s(w, q), m, k, na) == q * slot(a, w, m, k, na),
    decreases na,
{
    if na > 0 {
        lemma_slot_scale(a, w, m, k, na - 1, q);
        lemma_row_scale(a[na - 1], w, m, k, na - 1, w.len() as int, q);
        let s0 = slot(a, w, m, k, na - 1);
        let r0 = row(a[na - 1], w, m, k, na - 1, w.len() as int);
        assert(q * s0 + q * r0 == q * (s0 + r0)) by (nonlinear_arith);
    } else {
        assert(q * 0 == 0) by (nonlinear_arith);
    }
}

/// Values that agree modulo `q` have the same centered representative.
pub proof fn lemma_cmod_congruent(x: int, y: int, q: int)
    requires
        q >= 1,
        (x - y) % q == 0,
    ensures
        cmod(x, q) == cmod(y, q),
{
    lemma_fundamental_div_mod(x - y, q);
    lemma_fundamental_div_mod(y, q);
    let k = (x - y) / q;
    let j = y / q;
    assert(x == (k + j) * q + y % q) by (nonlinear_arith)
        requires
            x - y == q * k + 0,
            y == q * j + y % q,
    ;
    lemma_fundamental_div_mod_converse(x, q, k + j, y % q);
}

/// A centered value is its own representative.
pub proof fn lemma_cmod_centered(y: int, q: int)
    requires
        q >= 1,
        -q < 2 * y <= q,
    ensures
        cmod(y, q) == y,
{
    if y >= 0 {
        lemma_fundamental_div_mod_converse(y, q, 0, y);
    } else {
        lemma_fundamental_div_mod_converse(y, q, -1, y + q);
    }
}

/// Reduction keeps the value modulo `q`.
pub proof fn lemma_cmod_s_congruent(s: Seq<int>, q: int)
    requires
        q >= 1,
    ensures
        congruent(cmod_s(s, q), s, q),
{
    assert forall|i: int| 0 <= i < s.len() implies (#[trigger] cmod_s(s, q)[i] - s[i]) % q == 0 by {
        lemma_cmod_idempotent(s[i], q);
        lemma_fundamental_div_mod_converse(0, q, 0, 0);
        assert((s[i] - cmod(s[i], q)) % q == 0);
        lemma_negate_multiple(s[i] - cmod(s[i], q), q);
    }
}

proof fn lemma_negate_multiple(x: int, q: int)
    requires
        q >= 1,
        x % q == 0,
    ensures
        (-x) % q == 0,
{
    lemma_fundamental_div_mod(x, q);
    let k = x / q;
    assert(-x == (-k) * q) by (nonlinear_arith)
        requires
            x == q * k + 0,
    ;
    lemma_fundamental_div_mod_converse(-x, q, -k, 0);
}

/// Sums of congruent values are congruent.
pub proof fn lemma_add_congruent(s: Seq<int>, t: Seq<int>, u: Seq<int>, v: Seq<int>, q: int)
    requires
        q >= 1,
        congruent(s, u, q),
        congruent(t, v, q),
        s.len() == t.len(),
    ensures
        congruent(add_s(s, t), add_s(u, v), q),
        congruent(sub_s(s, t), sub_s(u, v), q),
{
    assert forall|i: int| 0 <= i < s.len() implies (#[trigger] add_s(s, t)[i] - add_s(u, v)[i]) % q
        == 0 by {
        lemma_multiples_add(s[i] - u[i], t[i] - v[i], q);
    }
    assert forall|i: int| 0 <= i < s.len() implies (#[trigger] sub_s(s, t)[i] - sub_s(u, v)[i]) % q
        == 0 by {
        lemma_multiples_add(s[i] - u[i], t[i] - v[i], q);
    }
}

proof fn lemma_multiples_add(x: int, y: int, q: int)
    requires
        q >= 1,
        x % q == 0,
        y % q == 0,
    ensures
        (x + y) % q == 0,
        (x - y) % q == 0,
{
    lemma_fundamental_div_mod(x, q);
    lemma_fundamental_div_mod(y, q);
    let (kx, ky) = (x / q, y / q);
    assert(x + y == (kx + ky) * q && x - y == (kx - ky) * q) by (nonlinear_arith)
        requires
            x == q * kx + 0,
            y == q * ky + 0,
    ;
    lemma_fundamental_div_mod_converse(x + y, q, kx + ky, 0);
    lemma_fundamental_div_mod_converse(x - y, q, kx - ky, 0);
}

/// Congruence is transitive.
pub proof fn lemma_congruent_trans(s: Seq<int>, t: Seq<int>, u: Seq<int>, q: int)
    requires
        q >= 1,
        congruent(s, t, q),
        congruent(t, u, q),
    ensures
        congruent(s, u, q),
{
    assert forall|i: int| 0 <= i < s.len() implies (#[trigger] s[i] - u[i]) % q == 0 by {
        lemma_multiples_add(s[i] - t[i], t[i] - u[i], q);
    }
}

/// The product respects congruence modulo `q` in its right factor.
pub proof fn lemma_mul_congruent(a: Seq<int>, b: Seq<int>, c: Seq<int>, m: int, q: int)
    requires
        m >= 1,
        q >= 1,
        a.len() == m - 1,
        b.len() == m - 1,
        congruent(b, c, q),
    ensures
        congruent(mul_s(a, b, m), mul_s(a, c, m), q),
{
    let w = Seq::new(b.len(), |j: int| (b[j] - c[j]) / q);
    assert forall|j: int| 0 <= j < b.len() implies #[trigger] b[j] == add_s(c, scale_s(w, q))[j] by {
        lemma_fundamental_div_mod(b[j] - c[j], q);
        assert(w[j] * q == q * w[j]) by (nonlinear_arith);
    }
    assert(b =~= add_s(c, scale_s(w, q)));
    assert forall|k: int| 0 <= k < m - 1 implies (#[trigger] mul_s(a, b, m)[k] - mul_s(a, c, m)[k]) % q
        == 0 by {
        lemma_slot_linear(a, c, scale_s(w, q), m, k, a.len() as int);
        lemma_slot_linear(a, c, scale_s(w, q), m, m - 1, a.len() as int);
        lemma_slot_scale(a, w, m, k, a.len() as int, q);
        lemma_slot_scale(a, w, m, m - 1, a.len() as int, q);
        let (s1, s2) = (slot(a, w, m, k, a.len() as int), slot(a, w, m, m - 1, a.len() as int));
        assert(q * s1 - q * s2 == (s1 - s2) * q) by (nonlinear_arith);
        lemma_fundamental_div_mod_converse(q * s1 - q * s2, q, s1 - s2, 0);
    }
}

} // verus!
