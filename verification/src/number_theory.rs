//! Elementary number theory behind the field: Euclid's lemma, the binomial
//! theorem, Fermat's little theorem for every prime, and a proof that the
//! Goldilocks modulus is prime.
use vstd::arithmetic::div_mod::*;
use vstd::arithmetic::mul::*;
use vstd::arithmetic::power::*;
use vstd::arithmetic::power2::*;
use vstd::prelude::*;

verus! {

/// `p` is prime: at least 2, with no divisor strictly between 1 and `p`.
pub open spec fn is_prime(p: int) -> bool {
    &&& p >= 2
    &&& forall|d: int| 2 <= d < p ==> #[trigger] (p % d) != 0
}

// ---------------------------------------------------------------------------
// Euclid's lemma
// ---------------------------------------------------------------------------

proof fn lemma_euclid_reduced(a: int, b: int, p: int)
    requires
        is_prime(p),
        0 < a < p,
        (a * b) % p == 0,
    ensures
        b % p == 0,
    decreases a,
{
    if a == 1 {
        assert(a * b == b) by (nonlinear_arith)
            requires
                a == 1,
        ;
    } else {
        let q = p / a;
        let r = p % a;
        lemma_fundamental_div_mod(p, a);
        assert(r > 0) by {
            assert(p % a != 0);
        }
        assert(r < a) by {
            lemma_mod_bound(p, a);
        }
        let k = (a * b) / p;
        lemma_fundamental_div_mod(a * b, p);
        assert(a * b == p * k);
        assert(r * b == p * (b - q * k)) by (nonlinear_arith)
            requires
                p == a * q + r,
                a * b == p * k,
        ;
        lemma_mod_multiples_basic(b - q * k, p);
        assert((p * (b - q * k)) % p == 0) by {
            lemma_mul_is_commutative(p, b - q * k);
        }
        lemma_euclid_reduced(r, b, p);
    }
}

/// Euclid's lemma: a prime dividing a product divides one of the factors.
pub proof fn lemma_euclid(a: int, b: int, p: int)
    requires
        is_prime(p),
        (a * b) % p == 0,
    ensures
        a % p == 0 || b % p == 0,
{
    if a % p != 0 {
        let ar = a % p;
        lemma_mod_bound(a, p);
        lemma_mul_mod_noop_left(a, b, p);
        lemma_euclid_reduced(ar, b, p);
    }
}

// ---------------------------------------------------------------------------
// Binomial coefficients and the binomial theorem
// ---------------------------------------------------------------------------

/// Binomial coefficient by Pascal's rule.
pub open spec fn binom(n: nat, k: nat) -> nat
    decreases n,
{
    if k == 0 {
        1
    } else if n == 0 {
        0
    } else {
        binom((n - 1) as nat, (k - 1) as nat) + binom((n - 1) as nat, k)
    }
}

proof fn lemma_binom_zero_above(n: nat, k: nat)
    requires
        k > n,
    ensures
        binom(n, k) == 0,
    decreases n,
{
    if n > 0 {
        lemma_binom_zero_above((n - 1) as nat, (k - 1) as nat);
        lemma_binom_zero_above((n - 1) as nat, k);
    }
}

proof fn lemma_binom_diag(n: nat)
    ensures
        binom(n, n) == 1,
    decreases n,
{
    if n > 0 {
        lemma_binom_diag((n - 1) as nat);
        lemma_binom_zero_above((n - 1) as nat, n);
    }
}

/// k * C(n, k) == n * C(n-1, k-1).
proof fn lemma_binom_absorb(n: nat, k: nat)
    requires
        n >= 1,
        k >= 1,
    ensures
        k * binom(n, k) == n * binom((n - 1) as nat, (k - 1) as nat),
    decreases n,
{
    if n == 1 {
        if k > 1 {
            lemma_binom_zero_above(0, (k - 1) as nat);
            lemma_binom_zero_above(0, k);
            assert(binom(1, k) == 0);
            assert(binom(0, (k - 1) as nat) == 0);
            assert(k * 0 == 0);
        } else {
            assert(binom(0, 0) == 1);
            assert(binom(0, 1) == 0);
            assert(binom(1, 1) == 1);
        }
    } else {
        let n1 = (n - 1) as nat;
        let k1 = (k - 1) as nat;
        lemma_binom_absorb(n1, k);
        if k == 1 {
            assert(binom(n, 1) == binom(n1, 0) + binom(n1, 1));
            assert(binom((n1 - 1) as nat, 0) == 1);
            assert(1 * binom(n1, 1) == n1 * binom((n1 - 1) as nat, 0));
            assert(binom(n1, 1) == n1) by (nonlinear_arith)
                requires
                    1 * binom(n1, 1) == n1 * binom((n1 - 1) as nat, 0),
                    binom((n1 - 1) as nat, 0) == 1,
            ;
            assert(binom(n, 1) == n);
            assert(binom(n1, 0) == 1);
            assert(k * binom(n, k) == n * binom(n1, k1)) by (nonlinear_arith)
                requires
                    k == 1,
                    binom(n, k) == n,
                    binom(n1, k1) == 1,
            ;
        } else {
            lemma_binom_absorb(n1, k1);
            let a = binom((n1 - 1) as nat, (k1 - 1) as nat);
            let b = binom((n1 - 1) as nat, k1);
            let c = binom(n1, k1);
            let d = binom(n1, k);
            assert(c == a + b);
            assert(binom(n, k) == c + d);
            assert(k * d == n1 * b);
            assert(k1 * c == n1 * a);
            assert(k * binom(n, k) == n * c) by (nonlinear_arith)
                requires
                    c == a + b,
                    binom(n, k) == c + d,
                    k * d == n1 * b,
                    k1 * c == n1 * a,
                    k1 + 1 == k,
                    n1 + 1 == n,
            ;
        }
    }
}

/// A prime divides every inner binomial coefficient C(p, k), 0 < k < p.
proof fn lemma_binom_prime(p: nat, k: nat)
    requires
        is_prime(p as int),
        0 < k < p,
    ensures
        (binom(p, k) as int) % (p as int) == 0,
{
    lemma_binom_absorb(p, k);
    let c = binom((p - 1) as nat, (k - 1) as nat);
    lemma_mod_multiples_basic(c as int, p as int);
    assert((k * binom(p, k)) as int % (p as int) == 0) by {
        lemma_mul_is_commutative(p as int, c as int);
    }
    lemma_euclid(k as int, binom(p, k) as int, p as int);
    lemma_small_mod(k, p);
}

/// Partial binomial sum: sum over i in [0, j] of C(n, i) * a^i.
pub open spec fn binom_sum(n: nat, a: int, j: int) -> int
    decreases j + 1,
{
    if j < 0 {
        0
    } else {
        binom_sum(n, a, j - 1) + binom(n, j as nat) * pow(a, j as nat)
    }
}

proof fn lemma_binom_sum_step(n: nat, a: int, j: int)
    requires
        j >= 0,
    ensures
        binom_sum(n + 1, a, j) == binom_sum(n, a, j) + a * binom_sum(n, a, j - 1),
    decreases j,
{
    reveal(pow);
    if j == 0 {
        assert(binom_sum(n + 1, a, 0) == binom_sum(n + 1, a, -1) + binom(n + 1, 0) * pow(a, 0));
        assert(binom_sum(n, a, 0) == binom_sum(n, a, -1) + binom(n, 0) * pow(a, 0));
        assert(binom_sum(n, a, -1) == 0);
        assert(binom_sum(n + 1, a, -1) == 0);
        assert(a * 0 == 0);
    } else {
        lemma_binom_sum_step(n, a, j - 1);
        let x = pow(a, (j - 1) as nat);
        assert(pow(a, j as nat) == a * x);
        let c0 = binom(n, (j - 1) as nat);
        let c1 = binom(n, j as nat);
        assert(binom(n + 1, j as nat) == c0 + c1);
        let s1 = binom_sum(n, a, j - 1);
        let s2 = binom_sum(n, a, j - 2);
        assert(s1 == s2 + c0 * x);
        assert(binom_sum(n, a, j) == s1 + c1 * (a * x));
        assert(binom_sum(n + 1, a, j) == binom_sum(n + 1, a, j - 1) + (c0 + c1) * (a * x));
        assert(binom_sum(n + 1, a, j - 1) == s1 + a * s2);
        assert((c0 + c1) * (a * x) + s1 + a * s2 == s1 + c1 * (a * x) + a * (s2 + c0 * x))
            by (nonlinear_arith);
    }
}

/// The binomial theorem: (a + 1)^n == sum over i of C(n, i) * a^i.
proof fn lemma_binomial_theorem(n: nat, a: int)
    ensures
        pow(a + 1, n) == binom_sum(n, a, n as int),
    decreases n,
{
    reveal(pow);
    if n == 0 {
        assert(binom_sum(0, a, 0) == binom_sum(0, a, -1) + binom(0, 0) * pow(a, 0));
        assert(binom_sum(0, a, -1) == 0);
    } else {
        let n1 = (n - 1) as nat;
        lemma_binomial_theorem(n1, a);
        lemma_binom_sum_step(n1, a, n as int);
        lemma_binom_zero_above(n1, n);
        assert(binom_sum(n1, a, n as int) == binom_sum(n1, a, n1 as int));
        let s = binom_sum(n1, a, n1 as int);
        assert(binom_sum(n1, a, n as int) == s + binom(n1, n) * pow(a, n));
        assert(binom(n1, n) * pow(a, n) == 0);
        assert(binom_sum(n, a, n as int) == s + a * s);
        assert(pow(a + 1, n) == (a + 1) * pow(a + 1, n1));
        assert(pow(a + 1, n) == (a + 1) * s);
        assert((a + 1) * s == s + a * s) by (nonlinear_arith);
    }
}

proof fn lemma_binom_sum_prime_inner(p: nat, a: int, j: int)
    requires
        is_prime(p as int),
        0 <= j < p,
    ensures
        binom_sum(p, a, j) % (p as int) == 1,
    decreases j,
{
    if j == 0 {
        reveal(pow);
        assert(binom_sum(p, a, -1) == 0);
        lemma_small_mod(1, p);
    } else {
        lemma_binom_sum_prime_inner(p, a, j - 1);
        lemma_binom_prime(p, j as nat);
        let c = binom(p, j as nat) as int;
        let t = c * pow(a, j as nat);
        lemma_mul_mod_noop_left(c, pow(a, j as nat), p as int);
        assert(c % (p as int) == 0);
        assert((c % (p as int)) * pow(a, j as nat) == 0) by (nonlinear_arith)
            requires
                c % (p as int) == 0,
        ;
        lemma_small_mod(0, p);
        assert(t % (p as int) == 0);
        lemma_add_mod_noop(binom_sum(p, a, j - 1), t, p as int);
        lemma_small_mod(1, p);
    }
}

/// The freshman's dream modulo a prime: (a + 1)^p == a^p + 1 (mod p).
proof fn lemma_freshman(p: nat, a: int)
    requires
        is_prime(p as int),
    ensures
        pow(a + 1, p) % (p as int) == (pow(a, p) + 1) % (p as int),
{
    lemma_binomial_theorem(p, a);
    lemma_binom_sum_prime_inner(p, a, p - 1);
    lemma_binom_diag(p);
    assert(binom_sum(p, a, p as int) == binom_sum(p, a, p - 1) + binom(p, p) * pow(a, p));
    assert(binom_sum(p, a, p as int) == binom_sum(p, a, p - 1) + pow(a, p));
    lemma_small_mod(1, p);
    lemma_add_mod_noop(binom_sum(p, a, p - 1), pow(a, p), p as int);
    lemma_add_mod_noop(1, pow(a, p), p as int);
}

proof fn lemma_fermat_nat(p: nat, a: nat)
    requires
        is_prime(p as int),
    ensures
        pow(a as int, p) % (p as int) == (a as int) % (p as int),
    decreases a,
{
    if a == 0 {
        lemma0_pow(p);
    } else {
        let a1 = (a - 1) as nat;
        lemma_fermat_nat(p, a1);
        lemma_freshman(p, a1 as int);
        lemma_add_mod_noop(pow(a1 as int, p), 1, p as int);
        lemma_add_mod_noop(a1 as int, 1, p as int);
    }
}

/// Fermat's little theorem: for a prime p not dividing a, a^(p-1) == 1 (mod p).
pub proof fn lemma_fermat(p: int, a: int)
    requires
        is_prime(p),
        a % p != 0,
    ensures
        pow(a, (p - 1) as nat) % p == 1,
{
    let pn = p as nat;
    let ar = (a % p) as nat;
    lemma_mod_bound(a, p);
    lemma_fermat_nat(pn, ar);
    lemma_pow_mod_noop(a, pn, p);
    lemma_mod_twice(a, p);
    // a^p == a (mod p), and a^p == a * a^(p-1)
    let x = pow(a, (p - 1) as nat);
    lemma_pow_adds(a, 1, (p - 1) as nat);
    lemma_pow1(a);
    assert((1 + (p - 1) as nat) as nat == pn);
    assert(pow(a, pn) == a * x);
    assert(pow(a, pn) % p == a % p);
    // a * (x - 1) == 0 (mod p)
    assert(a * (x - 1) == a * x - a) by (nonlinear_arith);
    lemma_sub_mod_noop(a * x, a, p);
    assert((a * x) % p == a % p);
    assert((a * (x - 1)) % p == 0) by {
        lemma_sub_mod_noop(a * x, a, p);
        let v = (a * x) % p;
        assert(v - a % p == 0);
        lemma_small_mod(0, pn);
    }
    lemma_euclid(a, x - 1, p);
    lemma_sub_mod_noop(x, 1, p);
    lemma_small_mod(1, pn);
    lemma_mod_bound(x, p);
    assert(((x % p) - 1) % p == 0);
    lemma_mod_bound(x - 1, p);
    if x % p != 1 {
        let y = x % p - 1;
        assert(-1 <= y < p - 1);
        if y >= 0 {
            lemma_small_mod(y as nat, pn);
        } else {
            assert(y == -1);
            lemma_mod_add_multiples_vanish(-1, p);
            lemma_small_mod((p - 1) as nat, pn);
        }
    }
}

// ---------------------------------------------------------------------------
// Powers of two as multiplicative orders
// ---------------------------------------------------------------------------

/// Congruent bases give congruent powers.
pub proof fn lemma_pow_congruent(x: int, y: int, e: nat, m: int)
    requires
        m > 0,
        x % m == y % m,
    ensures
        pow(x, e) % m == pow(y, e) % m,
{
    lemma_pow_mod_noop(x, e, m);
    lemma_pow_mod_noop(y, e, m);
}

proof fn lemma_pow_minus_one_odd(s: nat)
    requires
        s % 2 == 1,
    ensures
        pow(-1, s) == -1,
    decreases s,
{
    reveal(pow);
    if s == 1 {
        lemma_pow1(-1);
    } else {
        lemma_pow_minus_one_odd((s - 2) as nat);
        assert(pow(-1, s) == -1 * pow(-1, (s - 1) as nat));
        assert(pow(-1, (s - 1) as nat) == -1 * pow(-1, (s - 2) as nat));
    }
}

/// An odd power of a value congruent to -1 is congruent to -1.
proof fn lemma_minus_one_odd_power(x: int, s: nat, m: int)
    requires
        m > 1,
        x % m == m - 1,
        s % 2 == 1,
    ensures
        pow(x, s) % m == m - 1,
{
    lemma_mod_add_multiples_vanish(-1, m);
    lemma_small_mod((m - 1) as nat, m as nat);
    lemma_pow_congruent(x, -1, s, m);
    lemma_pow_minus_one_odd(s);
}

/// Every positive integer is a power of two times an odd number.
proof fn lemma_odd_part(r: nat) -> (ts: (nat, nat))
    requires
        r > 0,
    ensures
        r == pow2(ts.0) * ts.1,
        ts.1 % 2 == 1,
    decreases r,
{
    lemma_pow2(0);
    reveal(pow);
    if r % 2 == 1 {
        assert(pow2(0) == 1);
        assert(r == pow2(0) * r) by (nonlinear_arith)
            requires
                pow2(0) == 1,
        ;
        (0, r)
    } else {
        let (t, s) = lemma_odd_part(r / 2);
        lemma_pow2_unfold(t + 1);
        assert(r == pow2(t + 1) * s) by (nonlinear_arith)
            requires
                r / 2 == pow2(t) * s,
                r % 2 == 0,
                pow2(t + 1) == 2 * pow2(t),
        ;
        (t + 1, s)
    }
}

/// If b^(2^k) == 1 and b^(2^(k-1)) == -1 modulo m > 2, then every exponent
/// f with b^f == 1 is a multiple of 2^k: the order of b is exactly 2^k.
pub proof fn lemma_two_power_order(b: int, m: int, k: nat, f: nat)
    requires
        m > 2,
        k >= 1,
        pow(b, pow2(k)) % m == 1,
        pow(b, pow2((k - 1) as nat)) % m == m - 1,
        pow(b, f) % m == 1,
    ensures
        f % pow2(k) == 0,
{
    let n = pow2(k);
    lemma_pow2_pos(k);
    let q = f / n;
    let r = f % n;
    lemma_fundamental_div_mod(f as int, n as int);
    lemma_mod_bound(f as int, n as int);
    // b^f = (b^n)^q * b^r
    lemma_pow_multiplies(b, n, q as nat);
    lemma_pow_adds(b, n * q, r as nat);
    assert(f == n * q + r);
    let bq = pow(pow(b, n), q as nat);
    lemma_small_mod(1, m as nat);
    lemma_pow_congruent(pow(b, n), 1, q as nat, m);
    lemma1_pow(q as nat);
    assert(bq % m == 1);
    assert(pow(b, f) == bq * pow(b, r as nat));
    lemma_mul_mod_noop_left(bq, pow(b, r as nat), m);
    assert(pow(b, r as nat) % m == 1);
    if r > 0 {
        let (t, s) = lemma_odd_part(r as nat);
        // t < k because 2^t <= r < 2^k
        if t >= k {
            if t > k {
                lemma_pow2_strictly_increases(k, t);
            }
            assert(pow2(t) >= n);
            assert(pow2(t) * s >= pow2(t)) by (nonlinear_arith)
                requires
                    s >= 1,
            ;
        }
        assert(t < k);
        let u = (k - 1 - t) as nat;
        lemma_pow2_adds(t, u);
        assert(t + u == k - 1);
        // b^(2^(k-1) * s) == (b^r)^(2^u) == 1
        lemma_pow_multiplies(b, r as nat, pow2(u));
        assert(r * pow2(u) == pow2((k - 1) as nat) * s) by (nonlinear_arith)
            requires
                r == pow2(t) * s,
                pow2((k - 1) as nat) == pow2(t) * pow2(u),
        ;
        lemma_pow_congruent(pow(b, r as nat), 1, pow2(u), m);
        lemma1_pow(pow2(u));
        lemma_pow_multiplies(b, pow2((k - 1) as nat), s);
        // ... and also == (-1)^s == -1
        lemma_minus_one_odd_power(pow(b, pow2((k - 1) as nat)), s, m);
        assert(false);
    }
}

// ---------------------------------------------------------------------------
// The Goldilocks modulus is prime
// ---------------------------------------------------------------------------

/// Modular exponentiation by halving the exponent.
pub open spec fn powmod(b: int, e: nat, m: int) -> int
    decreases e,
{
    if e == 0 {
        1int % m
    } else {
        let h = powmod(b, e / 2, m);
        if e % 2 == 0 {
            (h * h) % m
        } else {
            (h * h * b) % m
        }
    }
}

pub proof fn lemma_powmod(b: int, e: nat, m: int)
    requires
        m > 0,
    ensures
        powmod(b, e, m) == pow(b, e) % m,
    decreases e,
{
    reveal(pow);
    if e > 0 {
        let h2 = e / 2;
        lemma_powmod(b, h2, m);
        let x = pow(b, h2);
        lemma_pow_adds(b, h2, h2);
        lemma_mul_mod_noop(x, x, m);
        if e % 2 == 0 {
            assert(e == h2 + h2);
        } else {
            lemma_pow_adds(b, h2 + h2, 1);
            lemma_pow1(b);
            assert(e == h2 + h2 + 1);
            lemma_mul_mod_noop_left(x * x, b, m);
            lemma_mul_mod_noop_left((x % m) * (x % m), b, m);
            lemma_mul_mod_noop(x, x, m);
        }
    }
}

/// The least divisor of n that is at least k (n itself if there is none below n).
pub open spec fn least_divisor(n: int, k: int) -> int
    decreases n - k,
{
    if k >= n {
        n
    } else if n % k == 0 {
        k
    } else {
        least_divisor(n, k + 1)
    }
}

proof fn lemma_least_divisor(n: int, k: int)
    requires
        2 <= k <= n,
    ensures
        k <= least_divisor(n, k) <= n,
        n % least_divisor(n, k) == 0,
        forall|d: int| k <= d < least_divisor(n, k) ==> #[trigger] (n % d) != 0,
    decreases n - k,
{
    if k >= n {
        lemma_mod_self_0(n);
    } else if n % k != 0 {
        lemma_least_divisor(n, k + 1);
    }
}

proof fn lemma_least_divisor_prime(n: int)
    requires
        n >= 2,
    ensures
        is_prime(least_divisor(n, 2)),
{
    lemma_least_divisor(n, 2);
    let q = least_divisor(n, 2);
    assert forall|d: int| 2 <= d < q implies #[trigger] (q % d) != 0 by {
        if q % d == 0 {
            lemma_fundamental_div_mod(n, q);
            lemma_fundamental_div_mod(q, d);
            let s = n / q;
            let u = q / d;
            assert(n == d * (u * s)) by (nonlinear_arith)
                requires
                    n == q * s + 0,
                    q == d * u + 0,
            ;
            lemma_mod_multiples_basic(u * s, d);
            assert((d * (u * s)) % d == 0) by {
                lemma_mul_is_commutative(d, u * s);
            }
            assert(n % d != 0);
        }
    }
}

/// One square-and-multiply step of `powmod` with base 7 modulo the Goldilocks prime.
proof fn lemma_powmod_step(e: nat, h: int, r: int)
    requires
        e > 0,
        powmod(7, e / 2, 0xFFFF_FFFF_0000_0001int) == h,
        e % 2 == 0 ==> r == (h * h) % 0xFFFF_FFFF_0000_0001int,
        e % 2 == 1 ==> r == (h * h * 7) % 0xFFFF_FFFF_0000_0001int,
    ensures
        powmod(7, e, 0xFFFF_FFFF_0000_0001int) == r,
{
}

/// 7 is a quadratic non-residue modulo the Goldilocks prime: 7^((n-1)/2) == n - 1,
/// checked by unfolding square-and-multiply one bit of the exponent at a time.
pub proof fn lemma_goldilocks_euler_criterion()
    ensures
        powmod(7, 0x7FFF_FFFF_8000_0000, 0xFFFF_FFFF_0000_0001int) == 0xFFFF_FFFF_0000_0000,
{
    assert(powmod(7, 0, 0xFFFF_FFFF_0000_0001int) == 1);
    lemma_powmod_step(1, 1, 7);
    lemma_powmod_step(3, 7, 343);
    lemma_powmod_step(7, 343, 823543);
    lemma_powmod_step(15, 823543, 4747561509943);
    lemma_powmod_step(31, 4747561509943, 11074261478625843323);
    lemma_powmod_step(63, 11074261478625843323, 12148266161370408270);
    lemma_powmod_step(127, 12148266161370408270, 7007601668316978083);
    lemma_powmod_step(255, 7007601668316978083, 8125271997680889877);
    lemma_powmod_step(511, 8125271997680889877, 2624486902016877951);
    lemma_powmod_step(1023, 2624486902016877951, 8253119735826302939);
    lemma_powmod_step(2047, 8253119735826302939, 3543566522599720475);
    lemma_powmod_step(4095, 3543566522599720475, 11981551684735969599);
    lemma_powmod_step(8191, 11981551684735969599, 10062120588441922115);
    lemma_powmod_step(16383, 10062120588441922115, 10485806445487905393);
    lemma_powmod_step(32767, 10485806445487905393, 4139485063330164956);
    lemma_powmod_step(65535, 4139485063330164956, 12134830135347446949);
    lemma_powmod_step(131071, 12134830135347446949, 4326791766630348883);
    lemma_powmod_step(262143, 4326791766630348883, 206761543466863628);
    lemma_powmod_step(524287, 206761543466863628, 10086585273483141421);
    lemma_powmod_step(1048575, 10086585273483141421, 1855730417186139594);
    lemma_powmod_step(2097151, 1855730417186139594, 7626447102712710903);
    lemma_powmod_step(4194303, 7626447102712710903, 7790920094560990216);
    lemma_powmod_step(8388607, 7790920094560990216, 5901922255895126089);
    lemma_powmod_step(16777215, 5901922255895126089, 8935258787870022506);
    lemma_powmod_step(33554431, 8935258787870022506, 13093775858033092690);
    lemma_powmod_step(67108863, 13093775858033092690, 11243737384857129666);
    lemma_powmod_step(134217727, 11243737384857129666, 2063617152444052883);
    lemma_powmod_step(268435455, 2063617152444052883, 13064848991504552222);
    lemma_powmod_step(536870911, 13064848991504552222, 16593403251012455084);
    lemma_powmod_step(1073741823, 16593403251012455084, 5859133952941131217);
    lemma_powmod_step(2147483647, 5859133952941131217, 15659105665374529263);
    lemma_powmod_step(4294967295, 15659105665374529263, 1753635133440165772);
    lemma_powmod_step(8589934590, 1753635133440165772, 4614640910117430873);
    lemma_powmod_step(17179869180, 4614640910117430873, 9123114210336311365);
    lemma_powmod_step(34359738360, 9123114210336311365, 16116352524544190054);
    lemma_powmod_step(68719476720, 16116352524544190054, 6414415596519834757);
    lemma_powmod_step(137438953440, 6414415596519834757, 1213594585890690845);
    lemma_powmod_step(274877906880, 1213594585890690845, 17096174751763063430);
    lemma_powmod_step(549755813760, 17096174751763063430, 5456943929260765144);
    lemma_powmod_step(1099511627520, 5456943929260765144, 9713644485405565297);
    lemma_powmod_step(2199023255040, 9713644485405565297, 16905767614792059275);
    lemma_powmod_step(4398046510080, 16905767614792059275, 5416168637041100469);
    lemma_powmod_step(8796093020160, 5416168637041100469, 17654865857378133588);
    lemma_powmod_step(17592186040320, 17654865857378133588, 3511170319078647661);
    lemma_powmod_step(35184372080640, 3511170319078647661, 18146160046829613826);
    lemma_powmod_step(70368744161280, 18146160046829613826, 9306717745644682924);
    lemma_powmod_step(140737488322560, 9306717745644682924, 12380578893860276750);
    lemma_powmod_step(281474976645120, 12380578893860276750, 6115771955107415310);
    lemma_powmod_step(562949953290240, 6115771955107415310, 17776499369601055404);
    lemma_powmod_step(1125899906580480, 17776499369601055404, 16207902636198568418);
    lemma_powmod_step(2251799813160960, 16207902636198568418, 1532612707718625687);
    lemma_powmod_step(4503599626321920, 1532612707718625687, 17492915097719143606);
    lemma_powmod_step(9007199252643840, 17492915097719143606, 455906449640507599);
    lemma_powmod_step(18014398505287680, 455906449640507599, 11353340290879379826);
    lemma_powmod_step(36028797010575360, 11353340290879379826, 1803076106186727246);
    lemma_powmod_step(72057594021150720, 1803076106186727246, 13797081185216407910);
    lemma_powmod_step(144115188042301440, 13797081185216407910, 17870292113338400769);
    lemma_powmod_step(288230376084602880, 17870292113338400769, 549755813888);
    lemma_powmod_step(576460752169205760, 549755813888, 70368744161280);
    lemma_powmod_step(1152921504338411520, 70368744161280, 17293822564807737345);
    lemma_powmod_step(2305843008676823040, 17293822564807737345, 18446744069397807105);
    lemma_powmod_step(4611686017353646080, 18446744069397807105, 281474976710656);
    lemma_powmod_step(9223372034707292160, 281474976710656, 18446744069414584320);
}

proof fn lemma_goldilocks_prime_divisor_large(p: int)
    requires
        is_prime(p),
        (0xFFFF_FFFF_0000_0001int) % p == 0,
    ensures
        p > 0x1_0000_0000,
{
    let n: int = 0xFFFF_FFFF_0000_0001;
    let m0: nat = 0xFFFF_FFFF;
    let half: nat = 0x7FFF_FFFF_8000_0000;
    // 7^((n-1)/2) == n - 1 (mod n), by computation
    lemma_goldilocks_euler_criterion();
    lemma_powmod(7, half, n);
    let x = pow(7, half);
    assert(x % n == n - 1);
    // hence x == -1 (mod p)
    lemma_fundamental_div_mod(x, n);
    lemma_fundamental_div_mod(n, p);
    let kn = x / n;
    let kp = n / p;
    assert(x == p * (kn * kp + kp) - 1) by (nonlinear_arith)
        requires
            x == n * kn + (n - 1),
            n == p * kp + 0,
    ;
    lemma_mod_multiples_vanish(kn * kp + kp, -1, p);
    lemma_mod_add_multiples_vanish(-1, p);
    lemma_small_mod((p - 1) as nat, p as nat);
    assert(x % p == p - 1);
    // p is odd
    if p == 2 {
        assert(n % 2 == 1);
        assert(false);
    }
    // b = 7^m0 has b^(2^31) == -1 and b^(2^32) == 1 (mod p)
    let b = pow(7, m0);
    lemma2_to64();
    lemma2_to64_rest();
    lemma_pow_multiplies(7, m0, pow2(31));
    assert(m0 * pow2(31) == half);
    assert(pow(b, pow2(31)) == x);
    lemma_pow2_adds(31, 1);
    lemma_pow_multiplies(b, pow2(31), 2);
    assert(pow2(31) * 2 == pow2(32));
    lemma_square_is_pow2(x);
    assert(pow(b, pow2(32)) == x * x);
    lemma_mul_mod_noop(x, x, p);
    assert(((p - 1) * (p - 1)) == p * (p - 2) + 1) by (nonlinear_arith);
    lemma_mod_multiples_vanish(p - 2, 1, p);
    lemma_small_mod(1, p as nat);
    assert(pow(b, pow2(32)) % p == 1);
    // p does not divide b, so Fermat applies
    if b % p == 0 {
        lemma_pow_congruent(b, 0, pow2(31), p);
        lemma0_pow(pow2(31));
        lemma_small_mod(0, p as nat);
        assert(false);
    }
    lemma_fermat(p, b);
    lemma_two_power_order(b, p, 32, (p - 1) as nat);
    lemma_mod_is_zero((p - 1) as nat, pow2(32));
}

/// The Goldilocks modulus 2^64 - 2^32 + 1 is prime.
pub proof fn lemma_goldilocks_prime()
    ensures
        is_prime(0xFFFF_FFFF_0000_0001int),
{
    let n: int = 0xFFFF_FFFF_0000_0001;
    assert forall|d: int| 2 <= d < n implies #[trigger] (n % d) != 0 by {
        if n % d == 0 {
            lemma_least_divisor(n, 2);
            lemma_least_divisor_prime(n);
            let q = least_divisor(n, 2);
            assert(q <= d);
            lemma_goldilocks_prime_divisor_large(q);
            lemma_fundamental_div_mod(n, q);
            let s = n / q;
            assert(n == q * s);
            if s < 2 {
                assert(s == 1) by (nonlinear_arith)
                    requires
                        n == q * s,
                        s < 2,
                        q > 0,
                        n > 0,
                ;
                assert(n == q) by (nonlinear_arith)
                    requires
                        n == q * s,
                        s == 1,
                ;
                assert(false);
            }
            assert(s < n) by (nonlinear_arith)
                requires
                    n == q * s,
                    q >= 2,
                    s >= 2,
            ;
            lemma_mod_multiples_basic(q, s);
            assert(n % s == 0) by {
                lemma_mul_is_commutative(q, s);
            }
            assert(s >= q);
            assert(q * s >= 0x1_0000_0001 * 0x1_0000_0001) by (nonlinear_arith)
                requires
                    q >= 0x1_0000_0001,
                    s >= q,
            ;
            assert(0x1_0000_0001int * 0x1_0000_0001int > n);
            assert(false);
        }
    }
}

} // verus!
