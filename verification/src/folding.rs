//! Why FRI folding works: the fold of the evaluations of a polynomial on a
//! coset is the evaluation of a polynomial of half the length on the squared
//! coset.
use crate::domain::domain_point;
use crate::field::{
    finv, fmod, fpow, lemma_finv, lemma_fmod_add_left, lemma_fmod_add_right, lemma_fmod_mul_left,
    lemma_fmod_mul_right, lemma_fmod_sub_right, lemma_fmul_nonzero, lemma_fpow_nonzero, modulus,
    P,
};
use crate::fri::{fdiv, fold_layer, fold_pair, fri_commit_spec, layer_root};
use crate::channel::squeeze_value;
use crate::hash::sha256_spec;
use vstd::arithmetic::power2::is_pow2;
use crate::polynomial::{coeff, eval_seq, lemma_eval_lincomb, max_len};
use vstd::arithmetic::div_mod::*;
use vstd::arithmetic::mul::*;
use vstd::arithmetic::power::*;
use vstd::prelude::*;

verus! {

/// The coefficients of even degree: c_0, c_2, c_4, ...
pub open spec fn even_coeffs(c: Seq<int>) -> Seq<int> {
    Seq::new(((c.len() + 1) / 2) as nat, |i: int| c[2 * i])
}

/// The coefficients of odd degree: c_1, c_3, c_5, ...
pub open spec fn odd_coeffs(c: Seq<int>) -> Seq<int> {
    Seq::new((c.len() / 2) as nat, |i: int| c[2 * i + 1])
}

/// The folded polynomial f_even + beta * f_odd.
pub open spec fn fold_poly(c: Seq<int>, beta: int) -> Seq<int> {
    Seq::new(even_coeffs(c).len(), |i: int| fmod(even_coeffs(c)[i] + beta * coeff(odd_coeffs(c), i)))
}

/// The values of the polynomial `c` on the first n points of the coset offset * <g>.
pub open spec fn coset_evals(c: Seq<int>, offset: int, g: int, n: nat) -> Seq<int> {
    Seq::new(n, |i: int| eval_seq(c, domain_point(offset, g, i as nat)))
}

/// Evaluation only depends on the residue of the point.
pub proof fn lemma_eval_point_mod(c: Seq<int>, x: int)
    ensures
        eval_seq(c, x) == eval_seq(c, fmod(x)),
    decreases c.len(),
{
    if c.len() > 0 {
        lemma_eval_point_mod(c.drop_first(), x);
        let e = eval_seq(c.drop_first(), x);
        lemma_fmod_mul_left(x, e);
        lemma_fmod_add_right(c[0], x * e);
        lemma_fmod_add_right(c[0], fmod(x) * e);
    }
}

/// One Horner step of two coefficients, regrouped into even and odd parts.
proof fn lemma_split_step(c0: int, c1: int, x: int, er: int, or_: int)
    ensures
        fmod(c0 + x * fmod(c1 + x * fmod(er + x * or_))) == fmod(fmod(c0 + (x * x) * er) + x * fmod(c1 + (x * x) * or_)),
{
    let inner = er + x * or_;
    let mid = c1 + x * inner;
    // left side: fmod(c0 + x * mid)
    lemma_fmod_mul_right(x, inner);
    lemma_fmod_add_right(c1, x * inner);
    assert(fmod(c1 + x * fmod(inner)) == fmod(mid)) by {
        lemma_fmod_add_right(c1, x * fmod(inner));
    }
    lemma_fmod_mul_right(x, mid);
    lemma_fmod_add_right(c0, x * mid);
    lemma_fmod_add_right(c0, x * fmod(mid));
    // right side: fmod(c0 + y er + x (c1 + y or))
    let a = c0 + (x * x) * er;
    let b = c1 + (x * x) * or_;
    lemma_fmod_mul_right(x, b);
    lemma_fmod_add_right(a, x * b);
    lemma_fmod_add_right(a, x * fmod(b));
    lemma_fmod_add_left(a, x * fmod(b));
    lemma_fmod_add_left(a, x * b);
    assert(c0 + x * mid == a + x * b) by (nonlinear_arith)
        requires
            mid == c1 + x * inner,
            inner == er + x * or_,
            a == c0 + (x * x) * er,
            b == c1 + (x * x) * or_,
    ;
}

/// f(x) = f_even(x^2) + x * f_odd(x^2).
pub proof fn lemma_eval_even_odd(c: Seq<int>, x: int)
    ensures
        eval_seq(c, x) == fmod(eval_seq(even_coeffs(c), x * x) + x * eval_seq(odd_coeffs(c), x * x)),
    decreases c.len(),
{
    let y = x * x;
    let ev = even_coeffs(c);
    let od = odd_coeffs(c);
    if c.len() == 0 {
        assert(ev.len() == 0 && od.len() == 0);
        assert(x * 0 == 0);
        lemma_small_mod(0, P as nat);
    } else if c.len() == 1 {
        assert(ev.len() == 1 && od.len() == 0);
        assert(ev.drop_first().len() == 0);
        assert(c.drop_first().len() == 0);
        assert(x * 0 == 0);
        assert(y * 0 == 0);
        lemma_fmod_add_left(c[0], 0);
        assert(ev[0] == c[0]);
        assert(eval_seq(ev.drop_first(), y) == 0);
        assert(eval_seq(ev, y) == fmod(ev[0] + y * eval_seq(ev.drop_first(), y)));
        assert(eval_seq(ev, y) == fmod(c[0] + y * 0));
        assert(eval_seq(od, y) == 0);
        assert(eval_seq(c, x) == fmod(c[0] + x * eval_seq(c.drop_first(), x)));
    } else {
        let rest = c.subrange(2, c.len() as int);
        lemma_eval_even_odd(rest, x);
        let er = eval_seq(even_coeffs(rest), y);
        let or_ = eval_seq(odd_coeffs(rest), y);
        assert(ev.drop_first() =~= even_coeffs(rest));
        assert(od.drop_first() =~= odd_coeffs(rest));
        assert(c.drop_first().drop_first() =~= rest);
        assert(ev[0] == c[0]);
        assert(od[0] == c[1]);
        assert(c.drop_first()[0] == c[1]);
        assert(eval_seq(c.drop_first(), x) == fmod(c[1] + x * eval_seq(rest, x)));
        assert(eval_seq(c, x) == fmod(c[0] + x * eval_seq(c.drop_first(), x)));
        assert(eval_seq(ev, y) == fmod(ev[0] + y * eval_seq(ev.drop_first(), y)));
        assert(eval_seq(od, y) == fmod(od[0] + y * eval_seq(od.drop_first(), y)));
        lemma_split_step(c[0], c[1], x, er, or_);
    }
}

/// Sum and difference of the values at x and -x give the even and odd parts:
/// (f(x) + f(-x)) / 2 == f_even(x^2) and (f(x) - f(-x)) / (2x) == f_odd(x^2),
/// so folding them with beta gives (f_even + beta * f_odd)(x^2).
pub proof fn lemma_fold_pair_even_odd(c: Seq<int>, x: int, beta: int)
    requires
        0 < x < modulus(),
    ensures
        fold_pair(eval_seq(c, x), eval_seq(c, fmod(-x)), x, beta) == eval_seq(fold_poly(c, beta), fmod(x * x)),
{
    let p = modulus();
    let xn = fmod(-x);
    lemma_mod_add_multiples_vanish(-x, p);
    lemma_small_mod((p - x) as nat, p as nat);
    assert(xn == p - x);
    let y = fmod(x * x);
    // (-x)^2 == x^2 (mod p)
    assert(xn * xn == x * x + p * (p - 2 * x)) by (nonlinear_arith)
        requires
            xn == p - x,
    ;
    lemma_mod_multiples_vanish(p - 2 * x, x * x, p);
    assert(fmod(xn * xn) == y);
    let ev = even_coeffs(c);
    let od = odd_coeffs(c);
    lemma_eval_even_odd(c, x);
    lemma_eval_even_odd(c, xn);
    lemma_eval_point_mod(ev, x * x);
    lemma_eval_point_mod(od, x * x);
    lemma_eval_point_mod(ev, xn * xn);
    lemma_eval_point_mod(od, xn * xn);
    let e = eval_seq(ev, y);
    let o = eval_seq(od, y);
    let fx = eval_seq(c, x);
    let fxn = eval_seq(c, xn);
    assert(fx == fmod(e + x * o));
    assert(fxn == fmod(e + xn * o));
    // f(x) + f(-x) == 2e and f(x) - f(-x) == 2xo (mod p)
    assert((e + x * o) + (e + xn * o) == 2 * e + p * o) by (nonlinear_arith)
        requires
            xn == p - x,
    ;
    assert((e + x * o) - (e + xn * o) == (2 * x) * o - p * o) by (nonlinear_arith)
        requires
            xn == p - x,
    ;
    lemma_add_mod_noop(e + x * o, e + xn * o, p);
    lemma_sub_mod_noop(e + x * o, e + xn * o, p);
    lemma_mod_multiples_vanish(o, 2 * e, p);
    lemma_mod_multiples_vanish(-o, (2 * x) * o, p);
    assert(2 * e + p * o == p * o + 2 * e);
    assert((2 * x) * o - p * o == p * (-o) + (2 * x) * o) by (nonlinear_arith);
    assert(fmod(fx + fxn) == fmod(2 * e));
    assert(fmod(fx - fxn) == fmod((2 * x) * o));
    // divide by 2 and by 2x
    lemma_small_mod(2, P as nat);
    lemma_small_mod(x as nat, P as nat);
    lemma_fmul_nonzero(2, x);
    lemma_finv(2);
    lemma_finv(2 * x);
    lemma_div_by(fx + fxn, 2 * e, 2, e);
    lemma_div_by(fx - fxn, (2 * x) * o, 2 * x, o);
    assert(fdiv(fx + fxn, 2) == fmod(e));
    assert(fdiv(fx - fxn, 2 * x) == fmod(o));
    // the fold is the folded polynomial's value
    let fp = fold_poly(c, beta);
    assert(fp.len() == max_len(ev, od));
    assert forall|i: int| 0 <= i < fp.len() implies #[trigger] fp[i] == fmod(coeff(ev, i) + beta * coeff(od, i)) by {}
    lemma_eval_lincomb(ev, od, beta, fp, y);
    lemma_fmod_mul_right(beta, o);
    lemma_fmod_add_left(e, beta * fmod(o));
    lemma_fmod_add_right(e, beta * o);
    lemma_fmod_add_left(e, beta * o);
}

/// Dividing u == v * d (mod p) by d gives v (mod p).
proof fn lemma_div_by(u: int, vd: int, d: int, v: int)
    requires
        fmod(u) == fmod(vd),
        vd == v * d,
        fmod(d * finv(d)) == 1,
    ensures
        fdiv(u, d) == fmod(v),
{
    let fi = finv(d);
    lemma_fmod_mul_left(u, fi);
    lemma_fmod_mul_left(vd, fi);
    assert(vd * fi == v * (d * fi)) by (nonlinear_arith)
        requires
            vd == v * d,
    ;
    lemma_fmod_mul_right(v, d * fi);
    assert(v * 1 == v);
}

/// On a coset of size 2h whose generator has g^h == -1, the point h
/// positions further is the negated point.
pub proof fn lemma_coset_opposite(offset: int, g: int, h: nat, i: nat)
    requires
        fpow(g, h) == modulus() - 1,
    ensures
        domain_point(offset, g, i + h) == fmod(-domain_point(offset, g, i)),
{
    let p = modulus();
    let gi = pow(g, i);
    lemma_pow_adds(g, i, h);
    lemma_mul_mod_noop(gi, pow(g, h), p);
    // fpow(g, i + h) == fmod(fmod(gi) * (p - 1)) == fmod(-gi)
    let fg = fmod(gi);
    assert(fg * (p - 1) == -fg + p * fg) by (nonlinear_arith);
    lemma_mod_multiples_vanish(fg, -fg, p);
    assert(fpow(g, i + h) == fmod(-fg));
    lemma_fmod_sub_right(0, gi);
    assert(fmod(-fg) == fmod(-gi));
    // offset * (-gi) == -(offset * gi)
    lemma_fmod_mul_right(offset, -gi);
    assert(offset * -gi == -(offset * gi)) by (nonlinear_arith);
    lemma_fmod_mul_right(offset, gi);
    lemma_fmod_sub_right(0, offset * gi);
    assert(fmod(-(offset * gi)) == fmod(0 - fmod(offset * gi)));
    assert(domain_point(offset, g, i) == fmod(offset * fmod(gi)));
    lemma_fmod_mul_right(offset, gi);
}

/// Squaring a coset point gives the point of the squared coset.
pub proof fn lemma_coset_square(offset: int, g: int, i: nat)
    ensures
        fmod(domain_point(offset, g, i) * domain_point(offset, g, i)) == domain_point(fmod(offset * offset), fmod(g * g), i),
{
    let p = modulus();
    let gi = pow(g, i);
    let d = fmod(offset * fmod(gi));
    lemma_fmod_mul_right(offset, gi);
    assert(d == fmod(offset * gi));
    lemma_fmod_mul_left(offset * gi, d);
    lemma_fmod_mul_right(offset * gi, offset * gi);
    assert(fmod(d * d) == fmod((offset * gi) * (offset * gi)));
    lemma_pow_distributes(g, g, i);
    assert((offset * gi) * (offset * gi) == (offset * offset) * (gi * gi)) by (nonlinear_arith);
    lemma_pow_mod_noop(g * g, i, p);
    let g2 = fmod(g * g);
    assert(fpow(g2, i) == fmod(gi * gi));
    lemma_fmod_mul_left(offset * offset, fpow(g2, i));
    lemma_fmod_mul_right(offset * offset, gi * gi);
    lemma_fmod_mul_left(offset * offset, gi * gi);
}

/// FRI folding preserves low degree: folding the values of a polynomial
/// with n coefficients on a coset of size 2h (whose generator g has
/// g^h == -1) with challenge beta gives the values, on the squared coset, of
/// the polynomial f_even + beta * f_odd, which has (n + 1) / 2 coefficients.
pub proof fn lemma_fold_low_degree(c: Seq<int>, offset: int, g: int, h: nat, beta: int)
    requires
        h >= 1,
        0 < offset < modulus(),
        0 <= g < modulus(),
        fpow(g, h) == modulus() - 1,
    ensures
        fold_layer(coset_evals(c, offset, g, 2 * h), offset, g, beta) == coset_evals(
            fold_poly(c, beta),
            fmod(offset * offset),
            fmod(g * g),
            h,
        ),
        fold_poly(c, beta).len() == (c.len() + 1) / 2,
{
    let p = modulus();
    let e = coset_evals(c, offset, g, 2 * h);
    let lhs = fold_layer(e, offset, g, beta);
    let rhs = coset_evals(fold_poly(c, beta), fmod(offset * offset), fmod(g * g), h);
    if g == 0 {
        reveal(pow);
        lemma0_pow(h);
        lemma_small_mod(0, P as nat);
        assert(false);
    }
    lemma_small_mod(g as nat, P as nat);
    lemma_small_mod(offset as nat, P as nat);
    assert forall|i: int| 0 <= i < h implies #[trigger] lhs[i] == rhs[i] by {
        let d = domain_point(offset, g, i as nat);
        lemma_fpow_nonzero(g, i as nat);
        let gi = fpow(g, i as nat);
        lemma_mod_bound(pow(g, i as nat), p);
        lemma_small_mod(gi as nat, P as nat);
        lemma_fmul_nonzero(offset, gi);
        lemma_mod_bound(offset * gi, p);
        lemma_coset_opposite(offset, g, h, i as nat);
        assert(e[i + h] == eval_seq(c, domain_point(offset, g, (i + h) as nat)));
        assert((i + h) as nat == i as nat + h);
        lemma_fold_pair_even_odd(c, d, beta);
        lemma_coset_square(offset, g, i as nat);
    }
    assert(lhs =~= rhs);
}

/// Squaring and then raising to m is raising to 2m.
pub proof fn lemma_fpow_square(g: int, m: nat)
    ensures
        fpow(fmod(g * g), m) == fpow(g, 2 * m),
{
    let p = modulus();
    lemma_pow_mod_noop(g * g, m, p);
    assert(pow(g, 2) == g * g) by {
        reveal_with_fuel(pow, 3);
    }
    lemma_pow_multiplies(g, 2, m);
}

/// A polynomial of at most one coefficient takes the same value everywhere.
pub proof fn lemma_eval_constant(c: Seq<int>, x: int, y: int)
    requires
        c.len() <= 1,
    ensures
        eval_seq(c, x) == eval_seq(c, y),
{
    if c.len() == 1 {
        assert(c.drop_first().len() == 0);
        assert(eval_seq(c.drop_first(), x) == 0);
        assert(eval_seq(c.drop_first(), y) == 0);
        assert(x * 0 == 0 && y * 0 == 0);
        assert(eval_seq(c, x) == fmod(c[0] + x * eval_seq(c.drop_first(), x)));
        assert(eval_seq(c, y) == fmod(c[0] + y * eval_seq(c.drop_first(), y)));
    }
}

/// The FRI degree bound holds of low-degree functions: when the commit phase
/// starts from the values on a coset of n points (g of order n) of a
/// polynomial of fewer than n / 2 coefficients, every fold halves the degree
/// along with the domain, and the last layer, of two values, is constant.
pub proof fn lemma_fri_commit_low_degree(c: Seq<int>, g: int, offset: int, state: Seq<u8>, n: nat)
    requires
        is_pow2(n as int),
        n >= 2,
        c.len() <= n / 2,
        0 < offset < modulus(),
        0 <= g < modulus(),
        fpow(g, n / 2) == modulus() - 1,
    ensures
        ({
            let r = fri_commit_spec(coset_evals(c, offset, g, n), g, offset, state);
            &&& r.0.len() >= 1
            &&& r.0[r.0.len() - 1].len() == 2
            &&& r.0[r.0.len() - 1][0] == r.0[r.0.len() - 1][1]
        }),
    decreases n,
{
    reveal(is_pow2);
    let e = coset_evals(c, offset, g, n);
    let r = fri_commit_spec(e, g, offset, state);
    let s1 = state + layer_root(e);
    let beta = squeeze_value(s1);
    if n == 2 {
        assert(r.0 == seq![e]);
        lemma_eval_constant(c, domain_point(offset, g, 0), domain_point(offset, g, 1));
    } else {
        let h = n / 2;
        assert(n == 2 * h);
        lemma_fold_low_degree(c, offset, g, h, beta);
        let c2 = fold_poly(c, beta);
        let g2 = fmod(g * g);
        let o2 = fmod(offset * offset);
        assert(is_pow2(h as int));
        assert(h % 2 == 0);
        assert(c2.len() <= h / 2);
        lemma_fpow_square(g, h / 2);
        assert(2 * (h / 2) == h);
        lemma_small_mod(offset as nat, P as nat);
        lemma_fmul_nonzero(offset, offset);
        lemma_mod_bound(offset * offset, modulus());
        lemma_mod_bound(g * g, modulus());
        lemma_fri_commit_low_degree(c2, g2, o2, sha256_spec(s1), h);
        let rest = fri_commit_spec(coset_evals(c2, o2, g2, h), g2, o2, sha256_spec(s1));
        assert(r.0 == seq![e] + rest.0);
        assert(r.0[r.0.len() - 1] == rest.0[rest.0.len() - 1]);
    }
}

} // verus!
