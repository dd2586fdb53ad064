//! Uniqueness of interpolation: two polynomials with at most n coefficients
//! that agree on n distinct points have the same coefficients.
use crate::field::{
    fmod, lemma_fmod_add_left, lemma_no_zero_divisors, modulus, P,
};
use crate::polynomial::{
    coeff, distinct_residues, eval_seq, lemma_eval_lincomb, lemma_eval_mul_linear, lemma_eval_suffix_step,
    lemma_eval_trailing_zero, max_len,
};
use vstd::arithmetic::div_mod::*;
use vstd::prelude::*;

verus! {

/// Every coefficient is a residue in [0, p).
pub open spec fn residues(c: Seq<int>) -> bool {
    forall|i: int| 0 <= i < c.len() ==> 0 <= #[trigger] c[i] < modulus()
}

/// Synthetic division by (x - x0): coefficient k of the quotient is the
/// value at x0 of the coefficients above k.
pub open spec fn synthetic_quotient(r: Seq<int>, x0: int) -> Seq<int> {
    Seq::new(r.len(), |k: int| eval_seq(r.subrange(k + 1, r.len() as int), x0))
}

/// Values of polynomials are residues.
proof fn lemma_eval_is_residue(c: Seq<int>, x: int)
    ensures
        0 <= eval_seq(c, x) < modulus(),
{
    if c.len() > 0 {
        lemma_mod_bound(c[0] + x * eval_seq(c.drop_first(), x), modulus());
    } else {
        lemma_small_mod(0, P as nat);
    }
}

/// The factor theorem: a polynomial with root x0 is (x - x0) times its
/// synthetic quotient.
proof fn lemma_factor_root(r: Seq<int>, x0: int, x: int)
    requires
        r.len() >= 1,
        residues(r),
        eval_seq(r, x0) == 0,
    ensures
        eval_seq(r, x) == fmod((x + (-x0)) * eval_seq(synthetic_quotient(r, x0), x)),
        synthetic_quotient(r, x0)[r.len() - 1] == 0,
{
    let m = r.len() as int;
    let s = synthetic_quotient(r, x0);
    assert(r.subrange(m, m).len() == 0);
    assert(s[m - 1] == 0);
    assert forall|t: int| 0 <= t < m implies #[trigger] r[t] == fmod(coeff(s, t - 1) + (-x0) * coeff(s, t)) by {
        lemma_eval_suffix_step(r, t, x0);
        let st = eval_seq(r.subrange(t + 1, m), x0);
        assert(s[t] == st);
        lemma_small_mod(r[t] as nat, P as nat);
        if t > 0 {
            // s[t-1] == fmod(r[t] + x0 * s[t])
            assert(s[t - 1] == fmod(r[t] + x0 * st));
            lemma_fmod_add_left(r[t] + x0 * st, (-x0) * st);
            assert(r[t] + x0 * st + (-x0) * st == r[t]) by (nonlinear_arith);
        } else {
            // r(x0) == fmod(r[0] + x0 * s[0]) == 0
            assert(r.subrange(0, m) =~= r);
            assert(fmod(r[0] + x0 * st) == 0);
            assert(coeff(s, -1) == 0);
            lemma_mod_sub_multiples_vanish(0, modulus());
            assert((-x0) * st == 0 - (r[0] + x0 * st) + r[0]) by (nonlinear_arith);
            lemma_fmod_add_left(0 - (r[0] + x0 * st) + r[0], 0);
            lemma_sub_mod_noop(r[0], r[0] + x0 * st, modulus());
            assert(fmod(r[0] - (r[0] + x0 * st)) == fmod(fmod(r[0]) - fmod(r[0] + x0 * st)));
            assert(0 - (r[0] + x0 * st) + r[0] == r[0] - (r[0] + x0 * st));
            assert(fmod(0 + (-x0) * st) == fmod((-x0) * st));
        }
    }
    lemma_eval_mul_linear(s, r, -x0, x);
}

/// A polynomial with at most n residue coefficients and n distinct roots is zero.
pub proof fn lemma_roots_force_zero(r: Seq<int>, xs: Seq<int>)
    requires
        r.len() <= xs.len(),
        residues(r),
        distinct_residues(xs),
        forall|k: int| 0 <= k < xs.len() ==> #[trigger] eval_seq(r, xs[k]) == 0,
    ensures
        forall|i: int| 0 <= i < r.len() ==> #[trigger] r[i] == 0,
    decreases r.len(),
{
    if r.len() > 0 {
        let m = r.len() as int;
        let x0 = xs[0];
        assert(eval_seq(r, xs[0]) == 0);
        let s = synthetic_quotient(r, x0);
        let s1 = s.drop_last();
        let rest = xs.drop_first();
        assert forall|k: int| 0 <= k < rest.len() implies #[trigger] eval_seq(s1, rest[k]) == 0 by {
            let xk = rest[k];
            assert(xk == xs[k + 1]);
            assert(xk != x0);
            lemma_factor_root(r, x0, xk);
            lemma_eval_trailing_zero(s, xk);
            let v = eval_seq(s, xk);
            assert(eval_seq(r, xk) == 0);
            assert(fmod((xk + (-x0)) * v) == 0);
            lemma_no_zero_divisors(xk + (-x0), v);
            lemma_eval_is_residue(s, xk);
            lemma_small_mod(v as nat, P as nat);
            if fmod(xk + (-x0)) == 0 {
                if xk >= x0 {
                    lemma_small_mod((xk - x0) as nat, P as nat);
                } else {
                    lemma_mod_add_multiples_vanish(xk - x0, modulus());
                    lemma_small_mod((xk - x0 + modulus()) as nat, P as nat);
                }
                assert(false);
            }
        }
        assert forall|i: int| 0 <= i < s1.len() implies 0 <= #[trigger] s1[i] < modulus() by {
            lemma_eval_is_residue(r.subrange(i + 1, m), x0);
        }
        lemma_roots_force_zero(s1, rest);
        // every coefficient of the quotient is zero, so r is zero
        lemma_factor_root(r, x0, x0);
        assert forall|i: int| 0 <= i < r.len() implies #[trigger] r[i] == 0 by {
            lemma_eval_suffix_step(r, i, x0);
            if i > 0 {
                assert(s1[i - 1] == 0);
                assert(s[i - 1] == s1[i - 1]);
            }
            let st = s[i];
            assert(st == 0) by {
                if i < m - 1 {
                    assert(s1[i] == 0);
                }
            }
            if i < m - 1 {
                assert(s[i] == eval_seq(r.subrange(i + 1, m), x0));
            }
            // s[i-1] == fmod(r[i] + x0 * s[i]) for i > 0; r(x0) == fmod(r[0] + x0 * s[0]) for i == 0
            assert(eval_seq(r.subrange(i, m), x0) == fmod(r[i] + x0 * eval_seq(r.subrange(i + 1, m), x0)));
            assert(x0 * 0 == 0);
            lemma_small_mod(r[i] as nat, P as nat);
            if i == 0 {
                assert(r.subrange(0, m) =~= r);
            }
        }
    }
}

/// Interpolation is unique: two polynomials with at most n residue
/// coefficients that take the same values at n distinct points have the same
/// coefficients.
pub proof fn lemma_interpolant_unique(a: Seq<int>, b: Seq<int>, xs: Seq<int>)
    requires
        a.len() <= xs.len(),
        b.len() <= xs.len(),
        residues(a),
        residues(b),
        distinct_residues(xs),
        forall|k: int| 0 <= k < xs.len() ==> #[trigger] eval_seq(a, xs[k]) == eval_seq(b, xs[k]),
    ensures
        forall|i: int| #[trigger] coeff(a, i) == coeff(b, i),
{
    let r = Seq::new(max_len(a, b) as nat, |i: int| fmod(coeff(a, i) + (-1) * coeff(b, i)));
    assert forall|i: int| 0 <= i < r.len() implies #[trigger] r[i] == fmod(coeff(a, i) + (-1) * coeff(b, i)) by {}
    assert forall|k: int| 0 <= k < xs.len() implies #[trigger] eval_seq(r, xs[k]) == 0 by {
        lemma_eval_lincomb(a, b, -1, r, xs[k]);
        let v = eval_seq(a, xs[k]);
        assert(v + (-1) * v == 0);
        lemma_small_mod(0, P as nat);
    }
    assert forall|i: int| 0 <= i < r.len() implies 0 <= #[trigger] r[i] < modulus() by {
        lemma_mod_bound(coeff(a, i) + (-1) * coeff(b, i), modulus());
    }
    lemma_roots_force_zero(r, xs);
    assert forall|i: int| #[trigger] coeff(a, i) == coeff(b, i) by {
        if 0 <= i < r.len() {
            assert(r[i] == 0);
            let ca = coeff(a, i);
            let cb = coeff(b, i);
            assert(0 <= ca < modulus() && 0 <= cb < modulus());
            if ca != cb {
                if ca > cb {
                    lemma_small_mod((ca - cb) as nat, P as nat);
                } else {
                    lemma_mod_add_multiples_vanish(ca - cb, modulus());
                    lemma_small_mod((ca - cb + modulus()) as nat, P as nat);
                }
                assert(ca + (-1) * cb == ca - cb);
            }
        }
    }
}

} // verus!
