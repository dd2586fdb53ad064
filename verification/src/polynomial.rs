//! Polynomials over the Goldilocks field in coefficient form:
//! `coeffs[i]` is the coefficient of x^i.
use crate::field::{fmod, finv, fpow, group_fmod, group_fp, lemma_finv, lemma_fmod_small, lemma_fmod_nonzero_product, modulus, Fp};
use vstd::arithmetic::power::*;
use vstd::prelude::*;
use vstd::std_specs::ops::AddSpec;
use vstd::std_specs::ops::MulSpec;
use vstd::std_specs::ops::NegSpec;
use core::ops::Neg;
use vstd::std_specs::ops::SubSpec;

verus! {

broadcast use group_fp, group_fmod;

/// The residues of a sequence of field elements.
pub open spec fn fp_seq(v: Seq<Fp>) -> Seq<int> {
    v.map_values(|f: Fp| f@)
}

/// Coefficient `i` of a coefficient sequence, zero beyond its end.
pub open spec fn coeff(c: Seq<int>, i: int) -> int {
    if 0 <= i < c.len() {
        c[i]
    } else {
        0
    }
}

/// The value at `x` of the polynomial with coefficients `c`:
/// c[0] + x * (c[1] + x * (c[2] + ...)), reduced modulo p.
pub open spec fn eval_seq(c: Seq<int>, x: int) -> int
    decreases c.len(),
{
    if c.len() == 0 {
        0
    } else {
        fmod(c[0] + x * eval_seq(c.drop_first(), x))
    }
}

/// A polynomial represented by its coefficients: coeffs[i] * x^i.
#[derive(Debug, Clone)]
pub struct Polynomial {
    pub coeffs: Vec<Fp>,
}

impl View for Polynomial {
    type V = Seq<int>;

    open spec fn view(&self) -> Seq<int> {
        fp_seq(self.coeffs@)
    }
}

/// A vector of `n` zeros.
pub(crate) fn zeros(n: usize) -> (r: Vec<Fp>)
    ensures
        r.len() == n,
        forall|i: int| 0 <= i < n ==> (#[trigger] r[i])@ == 0,
{
    let mut r: Vec<Fp> = Vec::new();
    while r.len() < n
        invariant
            r.len() <= n,
            forall|i: int| 0 <= i < r.len() ==> (#[trigger] r[i])@ == 0,
        decreases n - r.len(),
    {
        r.push(Fp::zero());
    }
    r
}

// ---------------------------------------------------------------------------
// Lemmas on evaluation
// ---------------------------------------------------------------------------

/// Peeling the leading coefficient off a suffix: the Horner step.
pub proof fn lemma_eval_suffix_step(c: Seq<int>, i: int, x: int)
    requires
        0 <= i < c.len(),
    ensures
        eval_seq(c.subrange(i, c.len() as int), x) == fmod(c[i] + x * eval_seq(
            c.subrange(i + 1, c.len() as int),
            x,
        )),
{
    let s = c.subrange(i, c.len() as int);
    assert(s.drop_first() =~= c.subrange(i + 1, c.len() as int));
}

/// The length of the longer of two sequences.
pub open spec fn max_len(a: Seq<int>, b: Seq<int>) -> int {
    if a.len() >= b.len() {
        a.len() as int
    } else {
        b.len() as int
    }
}

/// Evaluation is linear: if r == a + s * b coefficientwise, then
/// r(x) == a(x) + s * b(x).
pub proof fn lemma_eval_lincomb(a: Seq<int>, b: Seq<int>, s: int, r: Seq<int>, x: int)
    requires
        r.len() == max_len(a, b),
        forall|i: int| 0 <= i < r.len() ==> #[trigger] r[i] == fmod(coeff(a, i) + s * coeff(b, i)),
    ensures
        eval_seq(r, x) == fmod(eval_seq(a, x) + s * eval_seq(b, x)),
    decreases r.len(),
{
    if r.len() == 0 {
        assert(a.len() == 0 && b.len() == 0);
        assert(s * 0 == 0);
    } else {
        let a1 = if a.len() > 0 { a.drop_first() } else { a };
        let b1 = if b.len() > 0 { b.drop_first() } else { b };
        let r1 = r.drop_first();
        assert forall|i: int| 0 <= i < r1.len() implies #[trigger] r1[i] == fmod(
            coeff(a1, i) + s * coeff(b1, i),
        ) by {
            assert(r1[i] == r[i + 1]);
        }
        lemma_eval_lincomb(a1, b1, s, r1, x);
        let ea = eval_seq(a1, x);
        let eb = eval_seq(b1, x);
        lemma_eval_head(a, x);
        lemma_eval_head(b, x);
        let a0 = coeff(a, 0);
        let b0 = coeff(b, 0);
        let t = fmod(ea + s * eb);
        assert(eval_seq(r, x) == fmod(fmod(a0 + s * b0) + x * t));
        assert(a0 + s * b0 + x * (ea + s * eb) == (a0 + x * ea) + s * (b0 + x * eb))
            by (nonlinear_arith);
        assert(fmod(fmod(a0 + s * b0) + x * t) == fmod(a0 + s * b0 + x * (ea + s * eb))) by {
            assert(fmod(x * t) == fmod(x * (ea + s * eb)));
            assert(fmod(a0 + s * b0 + x * t) == fmod(a0 + s * b0 + fmod(x * t)));
            assert(fmod(a0 + s * b0 + x * (ea + s * eb)) == fmod(a0 + s * b0 + fmod(
                x * (ea + s * eb),
            )));
        }
        let va = a0 + x * ea;
        let vb = b0 + x * eb;
        assert(fmod(fmod(va) + s * fmod(vb)) == fmod(va + s * vb)) by {
            assert(fmod(s * fmod(vb)) == fmod(s * vb));
            assert(fmod(va + s * fmod(vb)) == fmod(va + fmod(s * fmod(vb))));
            assert(fmod(va + s * vb) == fmod(va + fmod(s * vb)));
        }
    }
}

/// Unfolding evaluation at the head, also for the empty sequence.
pub proof fn lemma_eval_head(a: Seq<int>, x: int)
    ensures
        eval_seq(a, x) == fmod(
            coeff(a, 0) + x * eval_seq(if a.len() > 0 { a.drop_first() } else { a }, x),
        ),
{
    if a.len() == 0 {
        assert(x * 0 == 0);
        assert(fmod(0) == 0);
    }
}

/// Scaling every coefficient scales the value.
pub proof fn lemma_eval_scale(c: Seq<int>, s: int, r: Seq<int>, x: int)
    requires
        r.len() == c.len(),
        forall|i: int| 0 <= i < r.len() ==> #[trigger] r[i] == fmod(s * c[i]),
    ensures
        eval_seq(r, x) == fmod(s * eval_seq(c, x)),
{
    let e: Seq<int> = Seq::empty();
    assert forall|i: int| 0 <= i < r.len() implies #[trigger] r[i] == fmod(
        coeff(e, i) + s * coeff(c, i),
    ) by {}
    lemma_eval_lincomb(e, c, s, r, x);
}

/// Dropping a trailing zero coefficient does not change the value.
pub proof fn lemma_eval_trailing_zero(c: Seq<int>, x: int)
    requires
        c.len() >= 1,
        c[c.len() - 1] == 0,
    ensures
        eval_seq(c, x) == eval_seq(c.drop_last(), x),
    decreases c.len(),
{
    if c.len() == 1 {
        assert(c.drop_last().len() == 0);
        assert(c.drop_first().len() == 0);
        assert(eval_seq(c.drop_first(), x) == 0);
        assert(eval_seq(c.drop_last(), x) == 0);
        assert(c[0] == 0);
        assert(x * 0 == 0);
        assert(fmod(0) == 0);
    } else {
        let c1 = c.drop_first();
        lemma_eval_trailing_zero(c1, x);
        assert(c1.drop_last() =~= c.drop_last().drop_first());
        assert(c.drop_last()[0] == c[0]);
        assert(eval_seq(c.drop_last(), x) == fmod(c[0] + x * eval_seq(c.drop_last().drop_first(), x)));
    }
}

/// Multiplying by a linear factor (x + a): if new[t] == old[t-1] + a * old[t]
/// and old has a zero top coefficient, then new(x) == (x + a) * old(x).
pub proof fn lemma_eval_mul_linear(old: Seq<int>, new: Seq<int>, a: int, x: int)
    requires
        old.len() >= 1,
        new.len() == old.len(),
        old[old.len() - 1] == 0,
        forall|t: int| 0 <= t < new.len() ==> #[trigger] new[t] == fmod(coeff(old, t - 1) + a * coeff(old, t)),
    ensures
        eval_seq(new, x) == fmod((x + a) * eval_seq(old, x)),
{
    let n = old.len() as int;
    let sh = seq![0int] + old.subrange(0, n - 1);
    assert(sh.len() == n);
    assert forall|t: int| 0 <= t < new.len() implies #[trigger] new[t] == fmod(coeff(sh, t) + a * coeff(old, t)) by {
        if t > 0 {
            assert(sh[t] == old[t - 1]);
        }
    }
    lemma_eval_lincomb(sh, old, a, new, x);
    lemma_eval_trailing_zero(old, x);
    assert(old.drop_last() =~= old.subrange(0, n - 1));
    assert(sh.drop_first() =~= old.subrange(0, n - 1));
    let e = eval_seq(old, x);
    assert(eval_seq(sh, x) == fmod(0 + x * e));
    assert(fmod(fmod(x * e) + a * e) == fmod(x * e + a * e));
    assert(x * e + a * e == (x + a) * e) by (nonlinear_arith);
}

/// The product over j' < j, j' != i, of (x - xs[j']), reduced modulo p.
pub open spec fn prod_except(xs: Seq<int>, i: int, x: int, j: int) -> int
    decreases j,
{
    if j <= 0 {
        1
    } else if j - 1 == i {
        prod_except(xs, i, x, j - 1)
    } else {
        fmod(prod_except(xs, i, x, j - 1) * (x - xs[j - 1]))
    }
}

/// All entries are residues and pairwise distinct.
pub open spec fn distinct_residues(xs: Seq<int>) -> bool {
    &&& forall|k: int| 0 <= k < xs.len() ==> 0 <= #[trigger] xs[k] < modulus()
    &&& forall|a: int, b: int| 0 <= a < xs.len() && 0 <= b < xs.len() && a != b ==> xs[a] != xs[b]
}

proof fn lemma_prod_except_range(xs: Seq<int>, i: int, x: int, j: int)
    ensures
        0 <= prod_except(xs, i, x, j) < modulus(),
    decreases j,
{
    if j > 0 {
        lemma_prod_except_range(xs, i, x, j - 1);
    }
}

/// The product vanishes at any other node that has been multiplied in.
proof fn lemma_prod_except_zero(xs: Seq<int>, i: int, k: int, j: int)
    requires
        0 <= k < j <= xs.len(),
        k != i,
    ensures
        prod_except(xs, i, xs[k], j) == 0,
    decreases j,
{
    if k < j - 1 {
        lemma_prod_except_zero(xs, i, k, j - 1);
        if j - 1 != i {
            assert(0 * (xs[k] - xs[j - 1]) == 0);
        }
    } else {
        assert(xs[k] - xs[j - 1] == 0);
        assert(prod_except(xs, i, xs[k], j - 1) * 0 == 0);
    }
}

/// At its own node the product is non-zero when the nodes are distinct residues.
proof fn lemma_prod_except_nonzero(xs: Seq<int>, i: int, j: int)
    requires
        distinct_residues(xs),
        0 <= i < xs.len(),
        0 <= j <= xs.len(),
    ensures
        prod_except(xs, i, xs[i], j) != 0,
    decreases j,
{
    if j > 0 {
        lemma_prod_except_nonzero(xs, i, j - 1);
        if j - 1 != i {
            let p = prod_except(xs, i, xs[i], j - 1);
            let d = xs[i] - xs[j - 1];
            lemma_prod_except_range(xs, i, xs[i], j - 1);
            lemma_fmod_nonzero_product(p, xs[i], xs[j - 1]);
        }
    }
}

/// A sequence that is a constant followed by zeros evaluates to that constant.
proof fn lemma_eval_leading_only(c: Seq<int>, x: int)
    requires
        c.len() >= 1,
        forall|t: int| 1 <= t < c.len() ==> c[t] == 0,
    ensures
        eval_seq(c, x) == fmod(c[0]),
    decreases c.len(),
{
    if c.len() == 1 {
        assert(eval_seq(c.drop_first(), x) == 0);
        assert(x * 0 == 0);
    } else {
        lemma_eval_trailing_zero(c, x);
        lemma_eval_leading_only(c.drop_last(), x);
    }
}

/// The residues of a slice of field elements, entry by entry.
pub proof fn lemma_fp_seq_index(v: Seq<Fp>, k: int)
    requires
        0 <= k < v.len(),
    ensures
        fp_seq(v)[k] == v[k]@,
        fp_seq(v).len() == v.len(),
{
}

impl Polynomial {
    /// The zero polynomial (no coefficients).
    pub fn zero() -> (r: Polynomial)
        ensures
            r@ == Seq::<int>::empty(),
    {
        let r = Polynomial { coeffs: Vec::new() };
        proof {
            assert(r@ =~= Seq::<int>::empty());
        }
        r
    }

    /// A constant polynomial; the zero constant gives the zero polynomial.
    pub fn constant(c: Fp) -> (r: Polynomial)
        ensures
            r@ == (if c@ == 0 { Seq::<int>::empty() } else { seq![c@] }),
    {
        if c == Fp::zero() {
            Self::zero()
        } else {
            let mut v: Vec<Fp> = Vec::new();
            v.push(c);
            let r = Polynomial { coeffs: v };
            proof {
                assert(r@ =~= seq![c@]);
            }
            r
        }
    }

    /// Index of the last non-zero coefficient; 0 when every coefficient is zero.
    pub fn degree(&self) -> (r: usize)
        ensures
            (exists|i: int| 0 <= i < self@.len() && self@[i] != 0) ==> {
                &&& r < self@.len()
                &&& self@[r as int] != 0
                &&& forall|j: int| r < j < self@.len() ==> self@[j] == 0
            },
            !(exists|i: int| 0 <= i < self@.len() && self@[i] != 0) ==> r == 0,
            r == degree_of(self@),
    {
        let n = self.coeffs.len();
        if n == 0 {
            return 0;
        }
        let mut i = n;
        while i > 0
            invariant
                i <= n,
                n == self@.len(),
                forall|j: int| i <= j < n ==> self@[j] == 0,
            decreases i,
        {
            i -= 1;
            if self.coeffs[i] != Fp::zero() {
                proof {
                    assert(self@[i as int] == self.coeffs[i as int]@);
                    lemma_degree_unique(self@, i as int);
                }
                return i;
            }
        }
        0
    }

    /// Evaluate at a point by Horner's rule.
    pub fn evaluate(&self, x: Fp) -> (r: Fp)
        ensures
            r@ == eval_seq(self@, x@),
    {
        let n = self.coeffs.len();
        if n == 0 {
            return Fp::zero();
        }
        let mut result = Fp::zero();
        let mut i = n;
        proof {
            assert(self@.subrange(n as int, n as int) =~= Seq::<int>::empty());
        }
        while i > 0
            invariant
                i <= n,
                n == self@.len(),
                result@ == eval_seq(self@.subrange(i as int, n as int), x@),
            decreases i,
        {
            i -= 1;
            let c = self.coeffs[i];
            proof {
                lemma_eval_suffix_step(self@, i as int, x@);
                assert(self@[i as int] == c@);
            }
            let ghost r0 = result@;
            result = result * x + c;
            proof {
                assert(result@ == fmod(fmod(r0 * x@) + c@));
                assert(fmod(fmod(r0 * x@) + c@) == fmod(r0 * x@ + c@));
                assert(r0 * x@ + c@ == c@ + x@ * r0) by (nonlinear_arith);
            }
        }
        proof {
            assert(self@.subrange(0, n as int) =~= self@);
        }
        result
    }

    /// Evaluate at every point of a domain.
    pub fn evaluate_domain(&self, domain: &[Fp]) -> (r: Vec<Fp>)
        ensures
            r.len() == domain.len(),
            forall|i: int| 0 <= i < domain.len() ==> (#[trigger] r[i])@ == eval_seq(self@, domain[i]@),
    {
        let mut r: Vec<Fp> = Vec::new();
        let mut i: usize = 0;
        while i < domain.len()
            invariant
                i <= domain.len(),
                r.len() == i,
                forall|k: int| 0 <= k < i ==> (#[trigger] r[k])@ == eval_seq(self@, domain[k]@),
            decreases domain.len() - i,
        {
            r.push(self.evaluate(domain[i]));
            i += 1;
        }
        r
    }

    /// Lagrange interpolation: the polynomial of degree below n through the
    /// points (xs[i], ys[i]), with trailing zero coefficients trimmed.
    pub fn interpolate(xs: &[Fp], ys: &[Fp]) -> (r: Polynomial)
        requires
            xs.len() == ys.len(),
            distinct_residues(fp_seq(xs@)),
        ensures
            xs.len() == 0 ==> r@.len() == 0,
            xs.len() > 0 ==> 1 <= r@.len() <= xs.len(),
            r@.len() > 1 ==> r@[r@.len() - 1] != 0,
            forall|k: int| 0 <= k < xs.len() ==> #[trigger] eval_seq(r@, xs[k]@) == ys[k]@,
    {
        let n = xs.len();
        if n == 0 {
            return Self::zero();
        }
        let ghost xv = fp_seq(xs@);
        let mut result = zeros(n);
        proof {
            assert forall|k: int| 0 <= k < n implies #[trigger] eval_seq(fp_seq(result@), xv[k]) == 0 by {
                lemma_eval_leading_only(fp_seq(result@), xv[k]);
                assert(fp_seq(result@)[0] == result[0]@);
                lemma_fmod_small(0);
                assert forall|t: int| 1 <= t < n implies fp_seq(result@)[t] == 0 by {
                    assert(fp_seq(result@)[t] == result[t]@);
                }
            }
        }
        let mut i: usize = 0;
        while i < n
            invariant
                n == xs.len(),
                n == ys.len(),
                n > 0,
                xv == fp_seq(xs@),
                distinct_residues(xv),
                i <= n,
                result.len() == n,
                forall|k: int| 0 <= k < n ==> #[trigger] eval_seq(fp_seq(result@), xv[k]) == (if k < i {
                    ys[k]@
                } else {
                    0
                }),
            decreases n - i,
        {
            // The denominator: the product over j != i of (xs[i] - xs[j]).
            let mut denom = Fp::one();
            let mut j: usize = 0;
            proof {
                lemma_fp_seq_index(xs@, i as int);
            }
            while j < n
                invariant
                    n == xs.len(),
                    i < n,
                    xv == fp_seq(xs@),
                    j <= n,
                    denom@ == prod_except(xv, i as int, xv[i as int], j as int),
                decreases n - j,
            {
                proof {
                    lemma_fp_seq_index(xs@, i as int);
                    lemma_fp_seq_index(xs@, j as int);
                }
                if j != i {
                    let ghost d0 = denom@;
                    denom = denom * (xs[i] - xs[j]);
                    proof {
                        assert(fmod(d0 * fmod(xv[i as int] - xv[j as int])) == fmod(d0 * (xv[i as int] - xv[j as int])));
                    }
                }
                j += 1;
            }
            proof {
                lemma_prod_except_nonzero(xv, i as int, n as int);
            }
            let denom_inv = denom.inv();
            // The numerator: the product over j != i of (x - xs[j]), one linear factor at a time.
            let mut basis = zeros(n);
            basis.set(0, Fp::one());
            let mut deg: usize = 0;
            let mut j: usize = 0;
            proof {
                assert forall|x: int| #[trigger] eval_seq(fp_seq(basis@), x) == prod_except(xv, i as int, x, 0) by {
                    lemma_eval_leading_only(fp_seq(basis@), x);
                    assert(fp_seq(basis@)[0] == basis[0]@);
                    assert forall|t: int| 1 <= t < n implies fp_seq(basis@)[t] == 0 by {
                        assert(fp_seq(basis@)[t] == basis[t]@);
                    }
                }
            }
            while j < n
                invariant
                    n == xs.len(),
                    i < n,
                    xv == fp_seq(xs@),
                    j <= n,
                    basis.len() == n,
                    deg as int == j as int - (if (i as int) < (j as int) { 1int } else { 0int }),
                    forall|t: int| deg < t < n ==> (#[trigger] basis[t])@ == 0,
                    forall|x: int| #[trigger] eval_seq(fp_seq(basis@), x) == prod_except(xv, i as int, x, j as int),
                decreases n - j,
            {
                if j != i {
                    let neg_xj = xs[j].neg();
                    let ghost old_b = fp_seq(basis@);
                    let ghost a = neg_xj@;
                    proof {
                        assert(deg + 1 < n);
                        assert(old_b[n - 1] == basis[n - 1]@);
                    }
                    let mut k = deg + 1;
                    while k > 0
                        invariant
                            n == basis.len(),
                            old_b.len() == n,
                            deg + 1 < n,
                            old_b[n - 1] == 0,
                            k <= deg + 1,
                            a == neg_xj@,
                            forall|t: int| k < t <= deg + 1 ==> (#[trigger] basis[t])@ == fmod(old_b[t - 1] + a * old_b[t]),
                            forall|t: int| 0 <= t <= k ==> (#[trigger] basis[t])@ == old_b[t],
                            forall|t: int| deg + 1 < t < n ==> (#[trigger] basis[t])@ == old_b[t],
                        decreases k,
                    {
                        let v = basis[k - 1] + neg_xj * basis[k];
                        basis.set(k, v);
                        k -= 1;
                    }
                    let v0 = neg_xj * basis[0];
                    basis.set(0, v0);
                    proof {
                        let nb = fp_seq(basis@);
                        assert forall|t: int| 0 <= t < nb.len() implies #[trigger] nb[t] == fmod(coeff(old_b, t - 1) + a * coeff(old_b, t)) by {
                            assert(nb[t] == basis[t]@);
                            if t == 0 {
                                assert(coeff(old_b, -1) == 0);
                            } else if t > deg + 1 {
                                assert(old_b[t] == 0);
                                assert(old_b[t - 1] == 0);
                                assert(a * 0 == 0);
                                assert(fmod(0) == 0);
                            }
                        }
                        assert forall|x: int| #[trigger] eval_seq(nb, x) == prod_except(xv, i as int, x, j + 1) by {
                            lemma_eval_mul_linear(old_b, nb, a, x);
                            let e = eval_seq(old_b, x);
                            assert(fmod((x + a) * e) == fmod(fmod(x + a) * e));
                            assert(fmod(x + a) == fmod(x - xv[j as int])) by {
                                lemma_fp_seq_index(xs@, j as int);
                                assert(fmod(x + fmod(-xv[j as int])) == fmod(x + -xv[j as int]));
                            }
                            assert(fmod(fmod(x - xv[j as int]) * e) == fmod((x - xv[j as int]) * e));
                            assert((x - xv[j as int]) * e == e * (x - xv[j as int])) by (nonlinear_arith);
                        }
                        assert forall|t: int| deg + 1 < t < n implies (#[trigger] basis[t])@ == 0 by {}
                    }
                    deg += 1;
                } else {
                    proof {
                        assert forall|x: int| #[trigger] eval_seq(fp_seq(basis@), x) == prod_except(xv, i as int, x, j + 1) by {}
                    }
                }
                j += 1;
            }
            let scale = ys[i] * denom_inv;
            let ghost old_r = fp_seq(result@);
            let mut k: usize = 0;
            while k < n
                invariant
                    n == result.len(),
                    n == basis.len(),
                    old_r.len() == n,
                    k <= n,
                    forall|t: int| 0 <= t < k ==> (#[trigger] result[t])@ == fmod(old_r[t] + scale@ * basis[t]@),
                    forall|t: int| k <= t < n ==> (#[trigger] result[t])@ == old_r[t],
                decreases n - k,
            {
                let v = result[k] + scale * basis[k];
                result.set(k, v);
                k += 1;
            }
            proof {
                let nr = fp_seq(result@);
                let b = fp_seq(basis@);
                assert forall|t: int| 0 <= t < nr.len() implies #[trigger] nr[t] == fmod(coeff(old_r, t) + scale@ * coeff(b, t)) by {
                    assert(nr[t] == result[t]@);
                    assert(b[t] == basis[t]@);
                }
                assert forall|k2: int| 0 <= k2 < n implies #[trigger] eval_seq(fp_seq(result@), xv[k2]) == (if k2 < i + 1 {
                    ys[k2]@
                } else {
                    0
                }) by {
                    lemma_eval_lincomb(old_r, b, scale@, nr, xv[k2]);
                    let y = ys[i as int]@;
                    let d = denom@;
                    if k2 == i {
                        assert(eval_seq(b, xv[k2]) == d);
                        lemma_finv(d);
                        assert(scale@ == fmod(y * finv(d)));
                        assert(fmod(scale@ * d) == fmod(y * finv(d) * d)) by {
                            assert(fmod(fmod(y * finv(d)) * d) == fmod(y * finv(d) * d));
                        }
                        assert(y * finv(d) * d == y * (d * finv(d))) by (nonlinear_arith);
                        assert(fmod(y * fmod(d * finv(d))) == fmod(y * (d * finv(d))));
                        assert(fmod(y * 1) == y) by {
                            lemma_fmod_small(y);
                        }
                        assert(fmod(0 + fmod(scale@ * d)) == fmod(scale@ * d));
                    } else {
                        lemma_prod_except_zero(xv, i as int, k2, n as int);
                        assert(scale@ * 0 == 0);
                        if k2 < i {
                            lemma_fmod_small(ys[k2]@);
                        }
                    }
                }
            }
            i += 1;
        }
        // Trim trailing zeros.
        let ghost full = fp_seq(result@);
        while result.len() > 1 && result[result.len() - 1] == Fp::zero()
            invariant
                1 <= result.len() <= n,
                forall|x: int| #[trigger] eval_seq(fp_seq(result@), x) == eval_seq(full, x),
            decreases result.len(),
        {
            let ghost before = fp_seq(result@);
            result.pop();
            proof {
                assert(fp_seq(result@) =~= before.drop_last());
                assert forall|x: int| #[trigger] eval_seq(fp_seq(result@), x) == eval_seq(full, x) by {
                    lemma_eval_trailing_zero(before, x);
                }
            }
        }
        let r = Polynomial { coeffs: result };
        proof {
            if r@.len() > 1 {
                assert(r@[r@.len() - 1] == result[result.len() - 1]@);
            }
            assert forall|k: int| 0 <= k < xs.len() implies #[trigger] eval_seq(r@, xs[k]@) == ys[k]@ by {
                lemma_fp_seq_index(xs@, k);
            }
        }
        r
    }

    /// Interpolate values on a multiplicative subgroup: the nodes are
    /// omega^0, omega^1, ..., omega^(n-1), which must be pairwise distinct.
    pub fn interpolate_subgroup(omega: Fp, ys: &[Fp]) -> (r: Polynomial)
        requires
            forall|i: nat, j: nat| i < j < ys.len() ==> fpow(omega@, i) != fpow(omega@, j),
        ensures
            ys.len() == 0 ==> r@.len() == 0,
            ys.len() > 0 ==> 1 <= r@.len() <= ys.len(),
            r@.len() > 1 ==> r@[r@.len() - 1] != 0,
            forall|k: int| 0 <= k < ys.len() ==> #[trigger] eval_seq(r@, fpow(omega@, k as nat)) == ys[k]@,
    {
        let n = ys.len();
        let mut xs: Vec<Fp> = Vec::new();
        let mut i: usize = 0;
        while i < n
            invariant
                n == ys.len(),
                i <= n,
                xs.len() == i,
                forall|k: int| 0 <= k < i ==> (#[trigger] xs[k])@ == fpow(omega@, k as nat),
            decreases n - i,
        {
            xs.push(omega.pow(i as u64));
            i += 1;
        }
        proof {
            let xv = fp_seq(xs@);
            assert forall|k: int| 0 <= k < xv.len() implies 0 <= #[trigger] xv[k] < modulus() by {
                assert(xv[k] == xs[k]@);
            }
            assert forall|a: int, b: int| 0 <= a < xv.len() && 0 <= b < xv.len() && a != b implies xv[a] != xv[b] by {
                assert(xv[a] == xs[a]@);
                assert(xv[b] == xs[b]@);
                if a < b {
                    assert(fpow(omega@, a as nat) != fpow(omega@, b as nat));
                } else {
                    assert(fpow(omega@, b as nat) != fpow(omega@, a as nat));
                }
            }
        }
        let r = Self::interpolate(xs.as_slice(), ys);
        proof {
            assert forall|k: int| 0 <= k < ys.len() implies #[trigger] eval_seq(r@, fpow(omega@, k as nat)) == ys[k]@ by {
                assert(xs@[k]@ == fpow(omega@, k as nat));
            }
        }
        r
    }

    /// Coefficientwise sum.
    pub fn add(&self, other: &Polynomial) -> (r: Polynomial)
        ensures
            r@.len() == max_len(self@, other@),
            forall|i: int| 0 <= i < r@.len() ==> #[trigger] r@[i] == fmod(coeff(self@, i) + coeff(other@, i)),
            forall|x: int| #[trigger] eval_seq(r@, x) == fmod(eval_seq(self@, x) + eval_seq(other@, x)),
    {
        let r = Self::combine(self, other, false);
        proof {
            assert forall|x: int| #[trigger] eval_seq(r@, x) == fmod(eval_seq(self@, x) + eval_seq(other@, x)) by {
                assert forall|i: int| 0 <= i < r@.len() implies #[trigger] r@[i] == fmod(coeff(self@, i) + 1 * coeff(other@, i)) by {}
                lemma_eval_lincomb(self@, other@, 1, r@, x);
            }
        }
        r
    }

    /// Coefficientwise difference.
    pub fn sub(&self, other: &Polynomial) -> (r: Polynomial)
        ensures
            r@.len() == max_len(self@, other@),
            forall|i: int| 0 <= i < r@.len() ==> #[trigger] r@[i] == fmod(coeff(self@, i) - coeff(other@, i)),
            forall|x: int| #[trigger] eval_seq(r@, x) == fmod(eval_seq(self@, x) - eval_seq(other@, x)),
    {
        let r = Self::combine(self, other, true);
        proof {
            assert forall|x: int| #[trigger] eval_seq(r@, x) == fmod(eval_seq(self@, x) - eval_seq(other@, x)) by {
                assert forall|i: int| 0 <= i < r@.len() implies #[trigger] r@[i] == fmod(coeff(self@, i) + (-1) * coeff(other@, i)) by {}
                lemma_eval_lincomb(self@, other@, -1, r@, x);
                assert(eval_seq(self@, x) + (-1) * eval_seq(other@, x) == eval_seq(self@, x) - eval_seq(other@, x));
            }
        }
        r
    }

    /// The coefficientwise sum (or, with `negate`, difference) of two polynomials.
    fn combine(a: &Polynomial, b: &Polynomial, negate: bool) -> (r: Polynomial)
        ensures
            r@.len() == max_len(a@, b@),
            forall|i: int| 0 <= i < r@.len() ==> #[trigger] r@[i] == (if negate {
                fmod(coeff(a@, i) - coeff(b@, i))
            } else {
                fmod(coeff(a@, i) + coeff(b@, i))
            }),
    {
        let la = a.coeffs.len();
        let lb = b.coeffs.len();
        let len = if la >= lb { la } else { lb };
        let mut result = zeros(len);
        let mut i: usize = 0;
        while i < la
            invariant
                la == a@.len(),
                lb == b@.len(),
                len == max_len(a@, b@),
                i <= la,
                result.len() == len,
                forall|k: int| 0 <= k < len ==> (#[trigger] result[k])@ == (if k < i { coeff(a@, k) } else { 0 }),
            decreases la - i,
        {
            let v = result[i] + a.coeffs[i];
            result.set(i, v);
            i += 1;
        }
        let mut i: usize = 0;
        while i < lb
            invariant
                la == a@.len(),
                lb == b@.len(),
                len == max_len(a@, b@),
                i <= lb,
                result.len() == len,
                forall|k: int| 0 <= k < len ==> (#[trigger] result[k])@ == (if k < i {
                    if negate {
                        fmod(coeff(a@, k) - coeff(b@, k))
                    } else {
                        fmod(coeff(a@, k) + coeff(b@, k))
                    }
                } else {
                    coeff(a@, k)
                }),
            decreases lb - i,
        {
            let v = if negate {
                result[i] - b.coeffs[i]
            } else {
                result[i] + b.coeffs[i]
            };
            result.set(i, v);
            i += 1;
        }
        let r = Polynomial { coeffs: result };
        proof {
            assert forall|k: int| 0 <= k < r@.len() implies #[trigger] r@[k] == (if negate {
                fmod(coeff(a@, k) - coeff(b@, k))
            } else {
                fmod(coeff(a@, k) + coeff(b@, k))
            }) by {
                assert(r@[k] == result[k]@);
            }
        }
        r
    }

    /// Multiply every coefficient by a scalar.
    pub fn scale(&self, s: Fp) -> (r: Polynomial)
        ensures
            r@.len() == self@.len(),
            forall|i: int| 0 <= i < r@.len() ==> #[trigger] r@[i] == fmod(self@[i] * s@),
            forall|x: int| #[trigger] eval_seq(r@, x) == fmod(s@ * eval_seq(self@, x)),
    {
        let n = self.coeffs.len();
        let mut v: Vec<Fp> = Vec::new();
        let mut i: usize = 0;
        while i < n
            invariant
                n == self@.len(),
                i <= n,
                v.len() == i,
                forall|k: int| 0 <= k < i ==> (#[trigger] v[k])@ == fmod(self@[k] * s@),
            decreases n - i,
        {
            v.push(self.coeffs[i] * s);
            i += 1;
        }
        let r = Polynomial { coeffs: v };
        proof {
            assert forall|k: int| 0 <= k < r@.len() implies #[trigger] r@[k] == fmod(self@[k] * s@) by {
                assert(r@[k] == v[k]@);
            }
            assert forall|x: int| #[trigger] eval_seq(r@, x) == fmod(s@ * eval_seq(self@, x)) by {
                assert forall|k: int| 0 <= k < r@.len() implies #[trigger] r@[k] == fmod(s@ * self@[k]) by {
                    assert(self@[k] * s@ == s@ * self@[k]);
                }
                lemma_eval_scale(self@, s@, r@, x);
            }
        }
        r
    }

    /// The vanishing polynomial of the order-n subgroup: x^n - 1.
    pub fn vanishing(n: usize) -> (r: Polynomial)
        requires
            n < usize::MAX,
        ensures
            r@.len() == n + 1,
            forall|i: int| 0 <= i <= n ==> #[trigger] r@[i] == (if i == n {
                1
            } else if i == 0 {
                modulus() - 1
            } else {
                0
            }),
            n >= 1 ==> forall|x: int| #[trigger] eval_seq(r@, x) == fmod(pow(x, n as nat) - 1),
    {
        let mut coeffs = zeros(n + 1);
        coeffs.set(0, Fp::one().neg());
        coeffs.set(n, Fp::one());
        let r = Polynomial { coeffs };
        proof {
            assert forall|i: int| 0 <= i <= n implies #[trigger] r@[i] == (if i == n {
                1
            } else if i == 0 {
                modulus() - 1
            } else {
                0
            }) by {
                assert(r@[i] == coeffs[i]@);
                assert(fmod(-1) == modulus() - 1) by {
                    vstd::arithmetic::div_mod::lemma_mod_add_multiples_vanish(-1, modulus());
                }
            }
            if n >= 1 {
                assert forall|x: int| #[trigger] eval_seq(r@, x) == fmod(pow(x, n as nat) - 1) by {
                    lemma_eval_vanishing(r@, n as nat, x);
                }
            }
        }
        r
    }
}

/// x^k is the polynomial with a single coefficient 1 at index k.
proof fn lemma_eval_monomial(c: Seq<int>, k: nat, x: int)
    requires
        c.len() == k + 1,
        c[k as int] == 1,
        forall|i: int| 0 <= i < k ==> c[i] == 0,
    ensures
        eval_seq(c, x) == fmod(pow(x, k)),
    decreases k,
{
    reveal(pow);
    let c1 = c.drop_first();
    if k == 0 {
        assert(c1.len() == 0);
        assert(eval_seq(c1, x) == 0);
        assert(x * 0 == 0);
        assert(c[0] == 1);
        assert(pow(x, 0) == 1);
    } else {
        assert(c[0] == 0);
        assert(c1.len() == k);
        assert(c1[k - 1] == 1);
        assert forall|i: int| 0 <= i < k - 1 implies c1[i] == 0 by {
            assert(c1[i] == c[i + 1]);
        }
        lemma_eval_monomial(c1, (k - 1) as nat, x);
        assert(pow(x, k) == x * pow(x, (k - 1) as nat));
        assert(eval_seq(c, x) == fmod(0 + x * fmod(pow(x, (k - 1) as nat))));
        assert(fmod(x * fmod(pow(x, (k - 1) as nat))) == fmod(x * pow(x, (k - 1) as nat)));
    }
}

proof fn lemma_eval_vanishing(c: Seq<int>, n: nat, x: int)
    requires
        n >= 1,
        c.len() == n + 1,
        forall|i: int| 0 <= i <= n ==> #[trigger] c[i] == (if i == n {
            1
        } else if i == 0 {
            modulus() - 1
        } else {
            0
        }),
    ensures
        eval_seq(c, x) == fmod(pow(x, n) - 1),
{
    reveal(pow);
    {
        let c1 = c.drop_first();
        assert forall|i: int| 0 <= i < n - 1 implies c1[i] == 0 by {
            assert(c1[i] == c[i + 1]);
        }
        assert(c1[n - 1] == c[n as int]);
        lemma_eval_monomial(c1, (n - 1) as nat, x);
        let e = pow(x, (n - 1) as nat);
        assert(pow(x, n) == x * e);
        assert(eval_seq(c, x) == fmod(modulus() - 1 + x * fmod(e)));
        assert(fmod(modulus() - 1 + x * fmod(e)) == fmod(modulus() - 1 + x * e)) by {
            assert(fmod(x * fmod(e)) == fmod(x * e));
            assert(fmod(modulus() - 1 + x * fmod(e)) == fmod(modulus() - 1 + fmod(x * fmod(e))));
            assert(fmod(modulus() - 1 + x * e) == fmod(modulus() - 1 + fmod(x * e)));
        }
        vstd::arithmetic::div_mod::lemma_mod_add_multiples_vanish(x * e - 1, modulus());
    }
}

// ---------------------------------------------------------------------------
// Products and division
// ---------------------------------------------------------------------------

/// sum_{t < m} a_t * b_(k - t): the first m terms of the coefficient of x^k in a * b.
pub open spec fn conv_sum(a: Seq<int>, b: Seq<int>, k: int, m: int) -> int
    decreases m,
{
    if m <= 0 {
        0
    } else {
        conv_sum(a, b, k, m - 1) + coeff(a, m - 1) * coeff(b, k - (m - 1))
    }
}

/// The coefficient of x^k in the product a * b.
pub open spec fn mul_coeff(a: Seq<int>, b: Seq<int>, k: int) -> int {
    fmod(conv_sum(a, b, k, a.len() as int))
}

/// The coefficients of the product a * b: empty if either factor is empty,
/// else a.len() + b.len() - 1 of them.
pub open spec fn poly_mul_spec(a: Seq<int>, b: Seq<int>) -> Seq<int> {
    if a.len() == 0 || b.len() == 0 {
        Seq::empty()
    } else {
        Seq::new((a.len() + b.len() - 1) as nat, |k: int| mul_coeff(a, b, k))
    }
}

/// Some coefficient is non-zero.
pub open spec fn has_nonzero(c: Seq<int>) -> bool {
    exists|i: int| 0 <= i < c.len() && c[i] != 0
}

/// The index of the last non-zero coefficient, 0 when there is none.
pub open spec fn degree_of(c: Seq<int>) -> int {
    if has_nonzero(c) {
        choose|r: int| 0 <= r < c.len() && c[r] != 0 && forall|j: int| r < j < c.len() ==> c[j] == 0
    } else {
        0
    }
}

/// Only one index is the last non-zero coefficient.
proof fn lemma_degree_unique(c: Seq<int>, r: int)
    requires
        0 <= r < c.len(),
        c[r] != 0,
        forall|j: int| r < j < c.len() ==> c[j] == 0,
    ensures
        has_nonzero(c),
        degree_of(c) == r,
{
    let d = degree_of(c);
    assert(0 <= d < c.len() && c[d] != 0 && forall|j: int| d < j < c.len() ==> c[j] == 0);
    if d < r {
        assert(c[r] == 0);
    }
    if r < d {
        assert(c[d] == 0);
    }
}

/// Changing a zero coefficient of `a` at position i to v adds v * b_(k-i) to the partial sums that reach i.
pub proof fn lemma_conv_sum_update(a: Seq<int>, b: Seq<int>, k: int, m: int, i: int, v: int)
    requires
        0 <= i < a.len(),
        a[i] == 0,
    ensures
        conv_sum(a.update(i, v), b, k, m) == conv_sum(a, b, k, m) + (if i < m { v * coeff(b, k - i) } else { 0 }),
    decreases m,
{
    if m > 0 {
        lemma_conv_sum_update(a, b, k, m - 1, i, v);
    }
}


impl Polynomial {
    /// The product, coefficient by coefficient (schoolbook multiplication).
    pub fn mul(&self, other: &Polynomial) -> (r: Polynomial)
        requires
            self@.len() + other@.len() <= usize::MAX,
        ensures
            r@ == poly_mul_spec(self@, other@),
            forall|x: int| #[trigger] eval_seq(r@, x) == fmod(eval_seq(self@, x) * eval_seq(other@, x)),
    {
        let la = self.coeffs.len();
        let lb = other.coeffs.len();
        if la == 0 || lb == 0 {
            let z = Self::zero();
            proof {
                assert forall|x: int| #[trigger] eval_seq(z@, x) == fmod(eval_seq(self@, x) * eval_seq(other@, x)) by {
                    lemma_eval_mul(self@, other@, x);
                    assert(z@ =~= poly_mul_spec(self@, other@));
                }
            }
            return z;
        }
        let len = la + lb - 1;
        let mut result = zeros(len);
        let ghost a = self@;
        let ghost b = other@;
        let mut i: usize = 0;
        proof {
            assert(fmod(0) == 0);
        }
        while i < la
            invariant
                a == self@,
                b == other@,
                la == a.len(),
                lb == b.len(),
                la >= 1,
                lb >= 1,
                len == la + lb - 1,
                i <= la,
                result.len() == len,
                forall|k: int| 0 <= k < len ==> (#[trigger] result[k])@ == fmod(conv_sum(a, b, k, i as int)),
            decreases la - i,
        {
            let ai = self.coeffs[i];
            let mut j: usize = 0;
            while j < lb
                invariant
                    a == self@,
                    b == other@,
                    la == a.len(),
                    lb == b.len(),
                    len == la + lb - 1,
                    i < la,
                    j <= lb,
                    ai@ == a[i as int],
                    result.len() == len,
                    forall|k: int| 0 <= k < len ==> (#[trigger] result[k])@ == fmod(
                        conv_sum(a, b, k, i as int) + (if i <= k < i + j { a[i as int] * b[k - i] } else { 0 }),
                    ),
                decreases lb - j,
            {
                let bj = other.coeffs[j];
                proof {
                    assert(bj@ == b[j as int]);
                }
                let v = result[i + j] + ai * bj;
                result.set(i + j, v);
                j += 1;
            }
            proof {
                assert forall|k: int| 0 <= k < len implies (#[trigger] result[k])@ == fmod(conv_sum(a, b, k, i + 1)) by {
                    assert(conv_sum(a, b, k, i + 1) == conv_sum(a, b, k, i as int) + coeff(a, i as int) * coeff(b, k - i));
                }
            }
            i += 1;
        }
        let r = Polynomial { coeffs: result };
        proof {
            assert forall|k: int| 0 <= k < len implies #[trigger] r@[k] == mul_coeff(a, b, k) by {
                assert(r@[k] == result[k]@);
            }
            assert(r@ =~= poly_mul_spec(a, b));
            assert forall|x: int| #[trigger] eval_seq(r@, x) == fmod(eval_seq(a, x) * eval_seq(b, x)) by {
                lemma_eval_mul(a, b, x);
            }
        }
        r
    }
}

/// Splitting off the first coefficient of `a`:
/// sum_{t < m} a_t b_(k-t) == a_0 b_k + sum_{t < m-1} a_(t+1) b_(k-1-t).
proof fn lemma_conv_sum_head(a: Seq<int>, b: Seq<int>, k: int, m: int)
    requires
        a.len() >= 1,
        m >= 1,
    ensures
        conv_sum(a, b, k, m) == coeff(a, 0) * coeff(b, k) + conv_sum(a.drop_first(), b, k - 1, m - 1),
    decreases m,
{
    let a1 = a.drop_first();
    if m > 1 {
        lemma_conv_sum_head(a, b, k, m - 1);
        assert(coeff(a, m - 1) == coeff(a1, m - 2));
        assert(coeff(b, k - (m - 1)) == coeff(b, (k - 1) - (m - 2)));
        assert(conv_sum(a, b, k, m) == conv_sum(a, b, k, m - 1) + coeff(a, m - 1) * coeff(b, k - (m - 1)));
        assert(conv_sum(a1, b, k - 1, m - 1) == conv_sum(a1, b, k - 1, m - 2) + coeff(a1, m - 2) * coeff(b, (k - 1) - (m - 2)));
    } else {
        assert(conv_sum(a, b, k, 0) == 0);
        assert(conv_sum(a, b, k, 1) == conv_sum(a, b, k, 0) + coeff(a, 0) * coeff(b, k - 0));
        assert(conv_sum(a1, b, k - 1, 0) == 0);
    }
}

/// Coefficients at negative positions are zero.
proof fn lemma_conv_sum_negative(a: Seq<int>, b: Seq<int>, k: int, m: int)
    requires
        k < 0,
    ensures
        conv_sum(a, b, k, m) == 0,
    decreases m,
{
    if m > 0 {
        lemma_conv_sum_negative(a, b, k, m - 1);
        assert(coeff(b, k - (m - 1)) == 0);
        assert(coeff(a, m - 1) * 0 == 0);
    }
}

/// Multiplication of polynomials is multiplication of their values:
/// (a * b)(x) == a(x) * b(x).
pub proof fn lemma_eval_mul(a: Seq<int>, b: Seq<int>, x: int)
    ensures
        eval_seq(poly_mul_spec(a, b), x) == fmod(eval_seq(a, x) * eval_seq(b, x)),
    decreases a.len(),
{
    let p = poly_mul_spec(a, b);
    let eb = eval_seq(b, x);
    if a.len() == 0 || b.len() == 0 {
        assert(p.len() == 0);
        assert(eval_seq(a, x) * eb == 0 || eval_seq(b, x) == 0);
        assert(fmod(0) == 0);
        if b.len() == 0 {
            assert(eval_seq(a, x) * 0 == 0);
        } else {
            assert(0 * eb == 0);
        }
    } else {
        let a0 = a[0];
        let a1 = a.drop_first();
        let sc = Seq::new(b.len(), |k: int| fmod(a0 * b[k]));
        lemma_eval_scale(b, a0, sc, x);
        let ea1 = eval_seq(a1, x);
        assert(eval_seq(a, x) == fmod(a0 + x * ea1));
        if a.len() == 1 {
            assert(a1.len() == 0);
            assert(ea1 == 0);
            assert(x * 0 == 0);
            assert forall|k: int| 0 <= k < p.len() implies #[trigger] p[k] == sc[k] by {
                lemma_conv_sum_head(a, b, k, 1);
                assert(conv_sum(a1, b, k - 1, 0) == 0);
            }
            assert(p =~= sc);
            assert(fmod(fmod(a0) * eb) == fmod(a0 * eb));
        } else {
            let p1 = poly_mul_spec(a1, b);
            lemma_eval_mul(a1, b, x);
            let sh = seq![0int] + p1;
            assert(sh.len() == p.len());
            assert forall|k: int| 0 <= k < p.len() implies #[trigger] p[k] == fmod(coeff(sc, k) + 1 * coeff(sh, k)) by {
                lemma_conv_sum_head(a, b, k, a.len() as int);
                let c1 = conv_sum(a1, b, k - 1, a1.len() as int);
                assert(p[k] == fmod(a0 * coeff(b, k) + c1));
                if k == 0 {
                    lemma_conv_sum_negative(a1, b, -1, a1.len() as int);
                    assert(coeff(sh, 0) == 0);
                } else {
                    assert(coeff(sh, k) == p1[k - 1]);
                    assert(p1[k - 1] == fmod(c1));
                }
                if k < b.len() {
                    assert(coeff(sc, k) == fmod(a0 * coeff(b, k)));
                } else {
                    assert(coeff(b, k) == 0);
                    assert(a0 * 0 == 0);
                    assert(coeff(sc, k) == fmod(a0 * coeff(b, k)));
                }
                assert(fmod(fmod(a0 * coeff(b, k)) + 1 * fmod(c1)) == fmod(a0 * coeff(b, k) + c1));
            }
            assert(max_len(sc, sh) == p.len());
            lemma_eval_lincomb(sc, sh, 1, p, x);
            assert(sh.drop_first() =~= p1);
            assert(eval_seq(sh, x) == fmod(0 + x * eval_seq(p1, x)));
            let e1 = fmod(ea1 * eb);
            assert(fmod(x * e1) == fmod(x * (ea1 * eb)));
            assert(fmod(fmod(a0 * eb) + 1 * fmod(x * e1)) == fmod(a0 * eb + x * (ea1 * eb)));
            assert(a0 * eb + x * (ea1 * eb) == (a0 + x * ea1) * eb) by (nonlinear_arith);
            assert(fmod(fmod(a0 + x * ea1) * eb) == fmod((a0 + x * ea1) * eb));
        }
    }
}

} // verus!
