//! Long division of polynomials.
use crate::field::{fmod, group_fmod, group_fp, modulus, Fp};
use crate::polynomial::{coeff, conv_sum, degree_of, fp_seq, has_nonzero, lemma_conv_sum_update, mul_coeff, zeros, Polynomial};
use vstd::prelude::*;

verus! {

broadcast use group_fp;

/// A copy of a coefficient vector.
fn copy_coeffs(v: &Vec<Fp>) -> (r: Vec<Fp>)
    ensures
        r@ == v@,
{
    let mut r: Vec<Fp> = Vec::new();
    let mut i: usize = 0;
    while i < v.len()
        invariant
            i <= v.len(),
            r@ == v@.subrange(0, i as int),
        decreases v.len() - i,
    {
        r.push(v[i]);
        i += 1;
    }
    proof {
        assert(v@.subrange(0, v.len() as int) =~= v@);
    }
    r
}

/// A residue plus zero (or minus zero) is itself.
proof fn lemma_fmod_zero_plus(x: int)
    requires
        0 <= x < modulus(),
    ensures
        fmod(0 + x) == x,
        fmod(fmod(0) + x) == x,
        fmod(x) == x,
{
    vstd::arithmetic::div_mod::lemma_small_mod(x as nat, modulus() as nat);
    vstd::arithmetic::div_mod::lemma_small_mod(0, modulus() as nat);
}

/// The division `self = q * divisor + r` is trivial (q = 0, r = self): `self`
/// is empty or of lower degree than the divisor.
pub open spec fn div_trivial(s: Seq<int>, d: Seq<int>) -> bool {
    s.len() == 0 || degree_of(s) < degree_of(d)
}

/// One long-division step keeps `s = q * d + r` (coefficientwise, mod p):
/// the quotient gains c at position i and c * d is taken off the remainder.
proof fn lemma_div_step(s_k: int, q0: Seq<int>, d: Seq<int>, k: int, i: int, c: int, r0_k: int, r1_k: int)
    requires
        0 <= i < q0.len(),
        q0[i] == 0,
        s_k == fmod(mul_coeff(q0, d, k) + r0_k),
        r1_k == fmod(r0_k - c * coeff(d, k - i)),
    ensures
        s_k == fmod(mul_coeff(q0.update(i, c), d, k) + r1_k),
{
    broadcast use group_fmod;
    lemma_conv_sum_update(q0, d, k, q0.len() as int, i, c);
    let cs = conv_sum(q0, d, k, q0.len() as int);
    let t = c * coeff(d, k - i);
    assert(q0.update(i, c).len() == q0.len());
    assert(mul_coeff(q0.update(i, c), d, k) == fmod(cs + t));
    assert(fmod(fmod(cs + t) + fmod(r0_k - t)) == fmod(cs + t + (r0_k - t)));
    assert(fmod(fmod(cs) + r0_k) == fmod(cs + r0_k));
    assert(cs + t + (r0_k - t) == cs + r0_k);
}

/// Taking c = r * lead^-1 times the leading coefficient off r leaves zero.
proof fn lemma_div_cancel(r: int, lead: int, lead_inv: int)
    requires
        0 <= r < modulus(),
        fmod(lead * lead_inv) == 1,
    ensures
        fmod(r - fmod(r * lead_inv) * lead) == 0,
{
    broadcast use group_fmod;
    let c = fmod(r * lead_inv);
    assert(fmod(c * lead) == fmod((r * lead_inv) * lead));
    assert((r * lead_inv) * lead == r * (lead * lead_inv)) by (nonlinear_arith);
    assert(fmod(r * (lead * lead_inv)) == fmod(r * fmod(lead * lead_inv)));
    assert(fmod(r * 1) == r);
    assert(fmod(r - c * lead) == fmod(r - fmod(c * lead)));
    assert(fmod(r - r) == 0);
}

/// The long-division loop. `num` has degree `n_deg`, `den` has degree
/// `d_deg` with leading coefficient inverse `lead_inv`. Returns the quotient
/// (n_deg - d_deg + 1 coefficients) and the untrimmed remainder, with
/// num = quotient * den + remainder coefficientwise and the remainder zero
/// from index d_deg on.
fn divide_loop(num: &Vec<Fp>, den: &Vec<Fp>, d_deg: usize, n_deg: usize, lead_inv: Fp) -> (r: (Vec<Fp>, Vec<Fp>))
    requires
        d_deg <= n_deg < num.len(),
        d_deg < den.len(),
        fmod(den@[d_deg as int]@ * lead_inv@) == 1,
        forall|j: int| d_deg < j < den.len() ==> (#[trigger] den@[j])@ == 0,
        forall|k: int| n_deg < k < num.len() ==> (#[trigger] num@[k])@ == 0,
    ensures
        r.0.len() == n_deg - d_deg + 1,
        r.1.len() == num.len(),
        forall|k: int| 0 <= k < num.len() ==> fp_seq(num@)[k] == fmod(mul_coeff(fp_seq(r.0@), fp_seq(den@), k) + (#[trigger] r.1@[k])@),
        forall|k: int| d_deg <= k < num.len() ==> (#[trigger] r.1@[k])@ == 0,
{
    let ghost s = fp_seq(num@);
    let ghost d = fp_seq(den@);
    let n = num.len();
    let mut remainder = copy_coeffs(num);
    let q_len = n_deg - d_deg + 1;
    let mut quotient = zeros(q_len);
    proof {
        assert forall|k: int| 0 <= k < n implies s[k] == fmod(mul_coeff(fp_seq(quotient@), d, k) + (#[trigger] remainder@[k])@) by {
            lemma_conv_sum_zero(fp_seq(quotient@), d, k, q_len as int);
            assert(s[k] == num@[k]@);
            lemma_fmod_zero_plus(s[k]);
        }
        assert forall|j: int| d_deg < j < d.len() implies d[j] == 0 by {
            assert(d[j] == den@[j]@);
        }
        assert(d[d_deg as int] == den@[d_deg as int]@);
    }
    let mut i = q_len;
    while i > 0
        invariant
            s == fp_seq(num@),
            d == fp_seq(den@),
            n == num.len(),
            n == s.len(),
            remainder.len() == n,
            quotient.len() == q_len,
            d_deg <= n_deg < n,
            q_len == n_deg - d_deg + 1,
            d_deg < d.len(),
            fmod(d[d_deg as int] * lead_inv@) == 1,
            forall|j: int| d_deg < j < d.len() ==> d[j] == 0,
            i <= q_len,
            forall|t: int| 0 <= t < i ==> (#[trigger] quotient@[t])@ == 0,
            forall|k: int| 0 <= k < n ==> s[k] == fmod(mul_coeff(fp_seq(quotient@), d, k) + (#[trigger] remainder@[k])@),
            forall|k: int| i + d_deg <= k < n ==> (#[trigger] remainder@[k])@ == 0,
        decreases i,
    {
        i -= 1;
        let c = remainder[i + d_deg] * lead_inv;
        let ghost q0 = fp_seq(quotient@);
        let ghost r0 = remainder@;
        let ghost top = remainder@[i + d_deg]@;
        quotient.set(i, c);
        let mut j: usize = 0;
        while j <= d_deg
            invariant
                i < q_len,
                q_len == n_deg - d_deg + 1,
                n_deg < n,
                d == fp_seq(den@),
                d_deg < d.len(),
                remainder.len() == n,
                r0.len() == n,
                j <= d_deg + 1,
                forall|k: int| 0 <= k < n ==> (#[trigger] remainder@[k])@ == (if i <= k < i + j {
                    fmod(r0[k]@ - c@ * d[k - i])
                } else {
                    r0[k]@
                }),
            decreases d_deg + 1 - j,
        {
            let dj = den[j];
            proof {
                assert(dj@ == d[j as int]);
            }
            let v = remainder[i + j] - c * dj;
            remainder.set(i + j, v);
            j += 1;
        }
        proof {
            assert(fp_seq(quotient@) =~= q0.update(i as int, c@));
            assert(q0[i as int] == 0);
            assert forall|k: int| 0 <= k < n implies s[k] == fmod(mul_coeff(fp_seq(quotient@), d, k) + (#[trigger] remainder@[k])@) by {
                assert(s[k] == fmod(mul_coeff(q0, d, k) + r0[k]@));
                if i <= k <= i + d_deg {
                    assert(coeff(d, k - i) == d[k - i]);
                } else {
                    assert(coeff(d, k - i) == 0);
                    lemma_fmod_zero_plus(r0[k]@);
                    assert(r0[k]@ - c@ * 0 == r0[k]@);
                }
                lemma_div_step(s[k], q0, d, k, i as int, c@, r0[k]@, remainder@[k]@);
            }
            assert(remainder@[i + d_deg]@ == 0) by {
                lemma_div_cancel(top, d[d_deg as int], lead_inv@);
            }
        }
    }
    (quotient, remainder)
}

/// (q, r) is the result of dividing s by d: s = q * d + r coefficientwise,
/// q has deg(s) - deg(d) + 1 coefficients, r is zero from index deg(d) on,
/// has at least one coefficient, and no trailing zero beyond the first.
pub open spec fn div_result(s: Seq<int>, d: Seq<int>, q: Seq<int>, r: Seq<int>) -> bool {
    let dd = degree_of(d);
    let nd = degree_of(s);
    &&& q.len() == nd - dd + 1
    &&& forall|k: int| 0 <= k < s.len() ==> #[trigger] s[k] == fmod(mul_coeff(q, d, k) + coeff(r, k))
    &&& forall|k: int| dd <= k ==> #[trigger] coeff(r, k) == 0
    &&& 1 <= r.len() <= s.len()
    &&& (r.len() == 1 || r[r.len() - 1] != 0)
}

impl Polynomial {
    /// Long division: `self = quotient * divisor + remainder` with the
    /// remainder of lower degree than the divisor and its trailing zeros
    /// trimmed (keeping at least one coefficient). When `self` is empty or of
    /// lower degree than the divisor the quotient is empty and the remainder
    /// is `self`.
    pub fn div_rem(&self, divisor: &Polynomial) -> (r: (Polynomial, Polynomial))
        requires
            div_trivial(self@, divisor@) || has_nonzero(divisor@),
        ensures
            div_trivial(self@, divisor@) ==> r.0@ == Seq::<int>::empty() && r.1.coeffs@ == self.coeffs@,
            !div_trivial(self@, divisor@) ==> div_result(self@, divisor@, r.0@, r.1@),
    {
        let d_deg = divisor.degree();
        let n_deg = self.degree();
        if self.coeffs.len() == 0 || n_deg < d_deg {
            return (Self::zero(), Polynomial { coeffs: copy_coeffs(&self.coeffs) });
        }
        proof {
            let d = divisor@;
            let w = choose|i: int| 0 <= i < d.len() && d[i] != 0;
            assert(0 <= w < d.len() && d[w] != 0);
            assert(d_deg < d.len() && d[d_deg as int] != 0);
            assert forall|j: int| d_deg < j < divisor.coeffs.len() implies (#[trigger] divisor.coeffs@[j])@ == 0 by {
                assert(d[j] == divisor.coeffs@[j]@);
            }
            if has_nonzero(self@) {
                assert forall|k: int| n_deg < k < self.coeffs.len() implies (#[trigger] self.coeffs@[k])@ == 0 by {
                    assert(self@[k] == self.coeffs@[k]@);
                }
            } else {
                assert forall|k: int| n_deg < k < self.coeffs.len() implies (#[trigger] self.coeffs@[k])@ == 0 by {
                    assert(self@[k] == self.coeffs@[k]@);
                }
            }
        }
        let lead = divisor.coeffs[d_deg];
        proof {
            assert(lead@ == divisor@[d_deg as int]);
        }
        let lead_inv = lead.inv();
        let (quotient, full) = divide_loop(&self.coeffs, &divisor.coeffs, d_deg, n_deg, lead_inv);
        let remainder = trim_zeros(full);
        let q = Polynomial { coeffs: quotient };
        let r = Polynomial { coeffs: remainder };
        proof {
            let n = self.coeffs.len();
            assert forall|k: int| 0 <= k < n implies coeff(r@, k) == (#[trigger] full@[k])@ by {
                if k < r@.len() {
                    assert(r@[k] == remainder@[k]@);
                }
            }
            assert forall|k: int| 0 <= k < self@.len() implies #[trigger] self@[k] == fmod(mul_coeff(q@, divisor@, k) + coeff(r@, k)) by {
                assert(coeff(r@, k) == full@[k]@);
                assert(self@[k] == fp_seq(self.coeffs@)[k]);
            }
            assert forall|k: int| d_deg <= k implies #[trigger] coeff(r@, k) == 0 by {
                if k < n {
                    assert(coeff(r@, k) == full@[k]@);
                }
            }
            if r@.len() > 1 {
                assert(r@[r@.len() - 1] == remainder@[remainder.len() - 1]@);
            }
        }
        (q, r)
    }
}

/// With every coefficient of `a` zero, every partial sum is zero.
proof fn lemma_conv_sum_zero(a: Seq<int>, b: Seq<int>, k: int, m: int)
    requires
        m <= a.len(),
        forall|t: int| 0 <= t < a.len() ==> a[t] == 0,
    ensures
        conv_sum(a, b, k, m) == 0,
    decreases m,
{
    if m > 0 {
        lemma_conv_sum_zero(a, b, k, m - 1);
    }
}

/// Drop trailing zero coefficients, keeping at least one.
fn trim_zeros(v: Vec<Fp>) -> (r: Vec<Fp>)
    requires
        v.len() >= 1,
    ensures
        1 <= r.len() <= v.len(),
        r@ == v@.subrange(0, r.len() as int),
        forall|k: int| r.len() <= k < v.len() ==> (#[trigger] v[k])@ == 0,
        r.len() == 1 || r[r.len() - 1]@ != 0,
{
    let mut r = v;
    let ghost full = r@;
    let ghost n = r.len();
    while r.len() > 1 && r[r.len() - 1].value() == 0
        invariant
            full.len() == n,
            1 <= r.len() <= n,
            r@ == full.subrange(0, r.len() as int),
            forall|k: int| r.len() <= k < n ==> (#[trigger] full[k])@ == 0,
        decreases r.len(),
    {
        r.pop();
    }
    r
}

impl Polynomial {
    /// Exact division: the quotient of a division that leaves no remainder.
    pub fn div_exact(&self, divisor: &Polynomial) -> (q: Polynomial)
        requires
            div_trivial(self@, divisor@) ==> !has_nonzero(self@),
            !div_trivial(self@, divisor@) ==> has_nonzero(divisor@),
            !div_trivial(self@, divisor@) ==> forall|q: Seq<int>, r: Seq<int>| #[trigger] div_result(self@, divisor@, q, r) ==> !has_nonzero(r),
        ensures
            div_trivial(self@, divisor@) ==> q@ == Seq::<int>::empty(),
            !div_trivial(self@, divisor@) ==> {
                &&& q@.len() == degree_of(self@) - degree_of(divisor@) + 1
                &&& forall|k: int| 0 <= k < self@.len() ==> #[trigger] self@[k] == mul_coeff(q@, divisor@, k)
            },
    {
        let (q, r) = self.div_rem(divisor);
        proof {
            if !div_trivial(self@, divisor@) {
                assert(div_result(self@, divisor@, q@, r@));
                assert forall|k: int| 0 <= k < self@.len() implies #[trigger] self@[k] == mul_coeff(q@, divisor@, k) by {
                    assert(self@[k] == fmod(mul_coeff(q@, divisor@, k) + coeff(r@, k)));
                    if 0 <= k < r@.len() {
                        assert(r@[k] == 0);
                    }
                    lemma_fmod_zero_plus(mul_coeff(q@, divisor@, k));
                    assert(mul_coeff(q@, divisor@, k) + 0 == mul_coeff(q@, divisor@, k));
                }
            }
        }
        q
    }
}

} // verus!
