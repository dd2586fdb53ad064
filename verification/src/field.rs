//! The Goldilocks prime field F_p with p = 2^64 - 2^32 + 1.
//!
//! An `Fp` is stored reduced below `P`; its view is the residue it stands
//! for, and every operation is stated over residues modulo `P`.
use vstd::arithmetic::div_mod::*;
use vstd::arithmetic::mul::*;
use vstd::arithmetic::power::*;
use vstd::arithmetic::power2::*;
use vstd::prelude::*;
use crate::number_theory::{
    is_prime, lemma_euclid, lemma_fermat, lemma_goldilocks_euler_criterion, lemma_goldilocks_prime,
    lemma_pow_congruent, lemma_powmod, lemma_two_power_order,
};
use vstd::std_specs::ops::AddSpec;
use vstd::std_specs::ops::DivSpec;
use vstd::std_specs::ops::MulSpec;
use vstd::std_specs::ops::NegSpec;
use vstd::std_specs::ops::SubSpec;

verus! {

/// The Goldilocks prime: 2^64 - 2^32 + 1.
pub const P: u64 = 0xFFFF_FFFF_0000_0001;

/// A generator of the full multiplicative group of order p - 1.
pub const MULTIPLICATIVE_GENERATOR: u64 = 7;

/// The modulus as a mathematical integer.
pub open spec fn modulus() -> int {
    P as int
}

/// Reduction of an integer to its residue in [0, P).
pub open spec fn fmod(x: int) -> int {
    x % modulus()
}

/// `x` to the power `e`, reduced modulo P.
pub open spec fn fpow(x: int, e: nat) -> int {
    pow(x, e) % modulus()
}

/// The inverse that Fermat's little theorem gives: x^(p-2) mod p.
pub open spec fn finv(x: int) -> int {
    fpow(x, (P - 2) as nat)
}

/// The primitive root of unity of a given power-of-two order: 7^((p-1)/order).
pub open spec fn root_of_unity_spec(order: int) -> int {
    fpow(MULTIPLICATIVE_GENERATOR as int, ((P - 1) as int / order) as nat)
}

/// An element of the Goldilocks field, stored reduced below `P`.
#[derive(Clone, Copy, Debug, Hash)]
pub struct Fp(u64);

impl View for Fp {
    type V = int;

    closed spec fn view(&self) -> int {
        (self.0 as int) % modulus()
    }
}

/// The view of a field element is its residue: it lies in [0, P).
pub broadcast proof fn lemma_fp_range(a: Fp)
    ensures
        0 <= #[trigger] a@ < modulus(),
{
}

impl Fp {
    #[verifier::type_invariant]
    spec fn reduced(self) -> bool {
        self.0 < P
    }

    /// The additive identity.
    pub fn zero() -> (r: Fp)
        ensures
            r@ == 0,
    {
        Fp(0)
    }

    /// The multiplicative identity.
    pub fn one() -> (r: Fp)
        ensures
            r@ == 1,
    {
        proof {
            lemma_small_mod(1, P as nat);
        }
        Fp(1)
    }

    /// Create a field element from a u64, reducing modulo p.
    pub fn new(val: u64) -> (r: Fp)
        ensures
            r@ == fmod(val as int),
    {
        if val >= P {
            proof {
                lemma_mod_sub_multiples_vanish(val as int, modulus());
                lemma_small_mod((val - P) as nat, P as nat);
            }
            Fp(val - P)
        } else {
            proof {
                lemma_small_mod(val as nat, P as nat);
            }
            Fp(val)
        }
    }

    /// Create a field element from a 128-bit value, reducing modulo p.
    ///
    /// Writing val = hi * 2^64 + lo, the value lo + hi * 2^32 - hi differs
    /// from val by hi * p, since 2^64 = 2^32 - 1 (mod p).
    fn from_u128(val: u128) -> (r: Fp)
        ensures
            r@ == fmod(val as int),
    {
        let val_lo = val as u64;
        let val_hi = (val >> 64u32) as u64;
        proof {
            assert(val_lo as int == val as int % 0x1_0000_0000_0000_0000) by (bit_vector)
                requires
                    val_lo == val as u64,
            ;
            assert(val_hi as int == val as int / 0x1_0000_0000_0000_0000) by (bit_vector)
                requires
                    val_hi == (val >> 64u32) as u64,
            ;
            lemma_fundamental_div_mod(val as int, 0x1_0000_0000_0000_0000);
        }
        let hi_shifted = (val_hi as u128) << 32u32;
        proof {
            assert(hi_shifted == (val_hi as u128) * 0x1_0000_0000) by (bit_vector)
                requires
                    hi_shifted == (val_hi as u128) << 32u32,
            ;
        }
        let reduced = (val_lo as u128) + hi_shifted - (val_hi as u128);
        proof {
            assert(val as int == reduced as int + (val_hi as int) * modulus()) by (nonlinear_arith)
                requires
                    val as int == 0x1_0000_0000_0000_0000 * (val_hi as int) + val_lo as int,
                    reduced as int == val_lo as int + (val_hi as int) * 0x1_0000_0000 - val_hi as int,
                    modulus() == 0xFFFF_FFFF_0000_0001,
            ;
            lemma_mod_multiples_vanish(val_hi as int, reduced as int, modulus());
        }
        let r = reduced % (P as u128);
        proof {
            lemma_small_mod(r as nat, P as nat);
        }
        Fp(r as u64)
    }

    /// The raw u64 value, already reduced modulo p.
    pub fn value(self) -> (r: u64)
        ensures
            r as int == self@,
    {
        proof {
            use_type_invariant(self);
            lemma_small_mod(self.0 as nat, P as nat);
        }
        self.0
    }

    /// Compute self^exp by binary exponentiation.
    pub fn pow(self, exp: u64) -> (r: Fp)
        ensures
            r@ == fpow(self@, exp as nat),
    {
        let mut base = self;
        let mut result = Fp::one();
        let mut e = exp;
        proof {
            lemma_pow0(base@);
            lemma_small_mod(1, P as nat);
            lemma_pow_mod_noop(self@, exp as nat, modulus());
        }
        while e > 0
            invariant
                (result@ * pow(base@, e as nat)) % modulus() == fpow(self@, exp as nat),
            decreases e,
        {
            let ghost b = base@;
            let ghost r0 = result@;
            let ghost e0 = e as nat;
            let ghost h = (e / 2) as nat;
            proof {
                lemma_fp_range(base);
                lemma_fp_range(result);
                lemma_fundamental_div_mod(e as int, 2);
                lemma_pow_adds(b, h, h);
                lemma_pow_multiplies(b, 2, h);
                lemma_square_is_pow2(b);
                lemma_pow1(b);
                lemma_pow_adds(b, 2 * h, 1);
                assert(pow(b * b, h) == pow(pow(b, 2), h));
            }
            if e % 2 == 1 {
                result = result * base;
                proof {
                    // r0 * b^(2h+1) == (r0 * b) * (b*b)^h
                    assert(pow(b, e0) == pow(b * b, h) * b);
                    assert(r0 * pow(b, e0) == (r0 * b) * pow(b * b, h)) by (nonlinear_arith)
                        requires
                            pow(b, e0) == pow(b * b, h) * b,
                    ;
                    lemma_mul_mod_noop_left(r0 * b, pow(b * b, h), modulus());
                }
            } else {
                proof {
                    assert(pow(b, e0) == pow(b * b, h));
                }
            }
            base = base * base;
            e = e / 2;
            proof {
                let r1 = result@;
                lemma_pow_mod_noop(b * b, h, modulus());
                lemma_mul_mod_noop_right(r1, pow(b * b, h), modulus());
                lemma_mul_mod_noop_right(r1, pow((b * b) % modulus(), h), modulus());
            }
        }
        proof {
            lemma_pow0(base@);
        }
        result
    }

    /// Multiplicative inverse via Fermat's little theorem: a^(p-2).
    pub fn inv(self) -> (r: Fp)
        requires
            self@ != 0,
        ensures
            r@ == finv(self@),
            fmod(self@ * r@) == 1,
    {
        proof {
            lemma_finv(self@);
        }
        self.pow(P - 2)
    }

    /// A primitive root of unity of the given order (a power of two at most 2^32):
    /// the generator 7 raised to (p-1)/order.
    pub fn root_of_unity(order: u64) -> (r: Fp)
        requires
            is_pow2(order as int),
            order <= 0x1_0000_0000,
        ensures
            r@ == root_of_unity_spec(order as int),
            fpow(r@, order as nat) == 1,
            order >= 2 ==> fpow(r@, (order / 2) as nat) == modulus() - 1,
            forall|i: nat, j: nat| i < j < order ==> fpow(r@, i) != fpow(r@, j),
    {
        proof {
            is_pow2_equiv(order as int);
            let k = choose|k: nat| pow(2, k) == order as int;
            lemma_pow2(k);
            lemma_pow2_pos(k);
            if k > 32 {
                lemma_pow2_strictly_increases(32, k);
                lemma2_to64();
                assert(pow2(32) == 0x1_0000_0000);
                assert(false);
            }
            lemma_root_of_unity(k);
        }
        let g = Fp::new(MULTIPLICATIVE_GENERATOR);
        proof {
            lemma_small_mod(7, P as nat);
        }
        let exp = (P - 1) / order;
        g.pow(exp)
    }
}

impl PartialEq for Fp {
    fn eq(&self, other: &Fp) -> (r: bool) {
        proof {
            use_type_invariant(self);
            use_type_invariant(other);
            lemma_small_mod(self.0 as nat, P as nat);
            lemma_small_mod(other.0 as nat, P as nat);
        }
        self.0 == other.0
    }
}

impl vstd::std_specs::cmp::PartialEqSpecImpl for Fp {
    open spec fn obeys_eq_spec() -> bool {
        true
    }

    open spec fn eq_spec(&self, other: &Fp) -> bool {
        self@ == other@
    }
}

impl Eq for Fp {}

impl vstd::std_specs::convert::FromSpecImpl<u64> for Fp {
    open spec fn obeys_from_spec() -> bool {
        true
    }

    closed spec fn from_spec(v: u64) -> Fp {
        Fp((v as int % modulus()) as u64)
    }
}

impl From<u64> for Fp {
    /// The residue of a u64, as `Fp::new` gives it.
    fn from(val: u64) -> (r: Fp) {
        let r = Fp::new(val);
        proof {
            use_type_invariant(r);
            lemma_small_mod(r.0 as nat, P as nat);
        }
        r
    }
}


impl vstd::std_specs::ops::AddSpecImpl for Fp {
    open spec fn obeys_add_spec() -> bool {
        true
    }

    open spec fn add_req(self, rhs: Fp) -> bool {
        true
    }

    closed spec fn add_spec(self, rhs: Fp) -> Fp {
        Fp(fmod(self@ + rhs@) as u64)
    }
}

impl core::ops::Add for Fp {
    type Output = Fp;

    fn add(self, rhs: Fp) -> (r: Fp) {
        proof {
            use_type_invariant(self);
            use_type_invariant(rhs);
            lemma_small_mod(self.0 as nat, P as nat);
            lemma_small_mod(rhs.0 as nat, P as nat);
        }
        let sum = (self.0 as u128) + (rhs.0 as u128);
        let r = if sum >= (P as u128) {
            proof {
                lemma_mod_sub_multiples_vanish(sum as int, modulus());
                lemma_small_mod((sum - P) as nat, P as nat);
            }
            (sum - (P as u128)) as u64
        } else {
            proof {
                lemma_small_mod(sum as nat, P as nat);
            }
            sum as u64
        };
        let out = Fp(r);
        proof {
            lemma_small_mod(r as nat, P as nat);
            lemma_mod_twice(self@ + rhs@, modulus());
            assert(r as int == fmod(self@ + rhs@));
        }
        out
    }
}


impl vstd::std_specs::ops::SubSpecImpl for Fp {
    open spec fn obeys_sub_spec() -> bool {
        true
    }

    open spec fn sub_req(self, rhs: Fp) -> bool {
        true
    }

    closed spec fn sub_spec(self, rhs: Fp) -> Fp {
        Fp(fmod(self@ - rhs@) as u64)
    }
}

impl core::ops::Sub for Fp {
    type Output = Fp;

    fn sub(self, rhs: Fp) -> (r: Fp) {
        proof {
            use_type_invariant(self);
            use_type_invariant(rhs);
            lemma_small_mod(self.0 as nat, P as nat);
            lemma_small_mod(rhs.0 as nat, P as nat);
        }
        let r = if self.0 >= rhs.0 {
            proof {
                lemma_small_mod((self.0 - rhs.0) as nat, P as nat);
            }
            self.0 - rhs.0
        } else {
            proof {
                lemma_small_mod((P - rhs.0 + self.0) as nat, P as nat);
                lemma_mod_add_multiples_vanish(self@ - rhs@, modulus());
            }
            P - rhs.0 + self.0
        };
        proof {
            lemma_small_mod(r as nat, P as nat);
            lemma_mod_twice(self@ - rhs@, modulus());
        }
        Fp(r)
    }
}


impl vstd::std_specs::ops::MulSpecImpl for Fp {
    open spec fn obeys_mul_spec() -> bool {
        true
    }

    open spec fn mul_req(self, rhs: Fp) -> bool {
        true
    }

    closed spec fn mul_spec(self, rhs: Fp) -> Fp {
        Fp(fmod(self@ * rhs@) as u64)
    }
}

impl core::ops::Mul for Fp {
    type Output = Fp;

    fn mul(self, rhs: Fp) -> (r: Fp) {
        proof {
            use_type_invariant(self);
            use_type_invariant(rhs);
            lemma_small_mod(self.0 as nat, P as nat);
            lemma_small_mod(rhs.0 as nat, P as nat);
            assert((self.0 as int) * (rhs.0 as int) <= 0xFFFF_FFFF_FFFF_FFFF * 0xFFFF_FFFF_FFFF_FFFF)
                by (nonlinear_arith)
                requires
                    self.0 <= 0xFFFF_FFFF_FFFF_FFFFu64,
                    rhs.0 <= 0xFFFF_FFFF_FFFF_FFFFu64,
            ;
        }
        let product = (self.0 as u128) * (rhs.0 as u128);
        let out = Fp::from_u128(product);
        proof {
            use_type_invariant(out);
            lemma_small_mod(out.0 as nat, P as nat);
        }
        out
    }
}


impl vstd::std_specs::ops::DivSpecImpl for Fp {
    open spec fn obeys_div_spec() -> bool {
        true
    }

    open spec fn div_req(self, rhs: Fp) -> bool {
        rhs@ != 0
    }

    closed spec fn div_spec(self, rhs: Fp) -> Fp {
        Fp(fmod(self@ * finv(rhs@)) as u64)
    }
}

impl core::ops::Div for Fp {
    type Output = Fp;

    fn div(self, rhs: Fp) -> (r: Fp) {
        let i = rhs.inv();
        let out = self * i;
        proof {
            assert(i@ == finv(rhs@));
            assert(out == self.mul_spec(i));
            assert(out == Fp(fmod(self@ * finv(rhs@)) as u64));
        }
        out
    }
}


impl vstd::std_specs::ops::NegSpecImpl for Fp {
    open spec fn obeys_neg_spec() -> bool {
        true
    }

    open spec fn neg_req(self) -> bool {
        true
    }

    closed spec fn neg_spec(self) -> Fp {
        Fp(fmod(-self@) as u64)
    }
}

impl core::ops::Neg for Fp {
    type Output = Fp;

    fn neg(self) -> (r: Fp) {
        proof {
            use_type_invariant(self);
            lemma_small_mod(self.0 as nat, P as nat);
        }
        if self.0 == 0 {
            proof {
                lemma_small_mod(0, P as nat);
            }
            Fp(0)
        } else {
            proof {
                lemma_small_mod((P - self.0) as nat, P as nat);
                lemma_mod_add_multiples_vanish(-self@, modulus());
            }
            Fp(P - self.0)
        }
    }
}


/// What `+` computes: the residue of the sum.
pub broadcast proof fn lemma_add_view(a: Fp, b: Fp)
    ensures
        #[trigger] a.add_spec(b)@ == fmod(a@ + b@),
{
    lemma_small_mod(fmod(a@ + b@) as nat, P as nat);
}

/// What `-` computes: the residue of the difference.
pub broadcast proof fn lemma_sub_view(a: Fp, b: Fp)
    ensures
        #[trigger] a.sub_spec(b)@ == fmod(a@ - b@),
{
    lemma_small_mod(fmod(a@ - b@) as nat, P as nat);
}

/// What `*` computes: the residue of the product.
pub broadcast proof fn lemma_mul_view(a: Fp, b: Fp)
    ensures
        #[trigger] a.mul_spec(b)@ == fmod(a@ * b@),
{
    lemma_small_mod(fmod(a@ * b@) as nat, P as nat);
}

/// What `/` computes: the product with the Fermat inverse of the divisor.
pub broadcast proof fn lemma_div_view(a: Fp, b: Fp)
    ensures
        #[trigger] a.div_spec(b)@ == fmod(a@ * finv(b@)),
{
    lemma_small_mod(fmod(a@ * finv(b@)) as nat, P as nat);
}

/// What unary `-` computes: the residue of the negation.
pub broadcast proof fn lemma_neg_view(a: Fp)
    ensures
        #[trigger] a.neg_spec()@ == fmod(-a@),
{
    lemma_small_mod(fmod(-a@) as nat, P as nat);
}

pub broadcast group group_fp {
    lemma_fp_range,
    lemma_add_view,
    lemma_sub_view,
    lemma_mul_view,
    lemma_div_view,
    lemma_neg_view,
}

// ---------------------------------------------------------------------------
// Laws of the field
// ---------------------------------------------------------------------------

/// The Goldilocks modulus is prime.
pub proof fn lemma_modulus_prime()
    ensures
        is_prime(modulus()),
{
    lemma_goldilocks_prime();
}

/// The Fermat inverse is an inverse: a * a^(p-2) == 1 (mod p) for every a != 0 (mod p).
pub proof fn lemma_finv(a: int)
    requires
        fmod(a) != 0,
    ensures
        fmod(a * finv(a)) == 1,
        0 <= finv(a) < modulus(),
{
    let p = modulus();
    lemma_goldilocks_prime();
    lemma_fermat(p, a);
    let e = (P - 2) as nat;
    lemma_pow_adds(a, 1, e);
    lemma_pow1(a);
    assert((1 + e) as nat == (p - 1) as nat);
    lemma_mul_mod_noop_right(a, pow(a, e), p);
    lemma_mod_bound(pow(a, e), p);
}

/// The field has no zero divisors.
pub proof fn lemma_no_zero_divisors(a: int, b: int)
    requires
        fmod(a * b) == 0,
    ensures
        fmod(a) == 0 || fmod(b) == 0,
{
    lemma_goldilocks_prime();
    lemma_euclid(a, b, modulus());
}

/// 7^((p-1)/2) == -1 (mod p): 7 is a quadratic non-residue.
pub proof fn lemma_generator_half_power()
    ensures
        fpow(7, ((P - 1) / 2) as nat) == modulus() - 1,
{
    lemma_goldilocks_euler_criterion();
    lemma_powmod(7, 0x7FFF_FFFF_8000_0000, modulus());
}

/// Roots of unity: for order 2^k with k <= 32, w = 7^((p-1)/order) satisfies
/// w^order == 1, w^(order/2) == -1 when order >= 2, and its first `order`
/// powers are pairwise distinct.
pub proof fn lemma_root_of_unity(k: nat)
    requires
        k <= 32,
    ensures
        ({
            let order = pow2(k) as int;
            let w = root_of_unity_spec(order);
            &&& 0 <= w < modulus()
            &&& fpow(w, order as nat) == 1
            &&& order >= 2 ==> fpow(w, (order / 2) as nat) == modulus() - 1
            &&& forall|i: nat, j: nat| i < j < order ==> fpow(w, i) != fpow(w, j)
        }),
{
    let p = modulus();
    let order = pow2(k) as int;
    lemma_pow2_pos(k);
    let u = (32 - k) as nat;
    lemma_pow2_adds(u, k);
    lemma2_to64();
    lemma2_to64_rest();
    let m0: int = 0xFFFF_FFFF;
    let e = ((P - 1) as int / order) as nat;
    assert(P - 1 == m0 * pow2(32));
    assert((P - 1) as int == (m0 * pow2(u)) * order) by (nonlinear_arith)
        requires
            P - 1 == m0 * pow2(32),
            pow2(32) == pow2(u) * pow2(k),
            order == pow2(k),
    ;
    lemma_div_by_multiple(m0 * pow2(u), order);
    assert(e == m0 * pow2(u));
    let w = root_of_unity_spec(order);
    let x = pow(7, e);
    assert(w == x % p);
    lemma_mod_bound(x, p);
    // w^order == 7^(p-1) == 1
    lemma_pow_congruent(w, x, order as nat, p);
    lemma_mod_twice(x, p);
    lemma_pow_multiplies(7, e, order as nat);
    assert(e * order == (P - 1) as int);
    lemma_goldilocks_prime();
    lemma_small_mod(7, P as nat);
    lemma_fermat(p, 7);
    assert(fpow(w, order as nat) == 1);
    if order >= 2 {
        assert(k >= 1) by {
            if k == 0 {
                assert(pow2(0) == 1);
            }
        }
        lemma_pow2_unfold(k);
        let half = (order / 2) as nat;
        assert(half == pow2((k - 1) as nat));
        lemma_pow_congruent(w, x, half, p);
        lemma_pow_multiplies(7, e, half);
        assert(e * half == (P - 1) / 2) by (nonlinear_arith)
            requires
                e * order == (P - 1) as int,
                order == 2 * half,
        ;
        lemma_generator_half_power();
        assert(fpow(w, half) == p - 1);
        assert forall|i: nat, j: nat| i < j < order implies fpow(w, i) != fpow(w, j) by {
            if fpow(w, i) == fpow(w, j) {
                let d = (j - i) as nat;
                lemma_pow_adds(w, i, d);
                assert(pow(w, j) == pow(w, i) * pow(w, d));
                // w^i * (w^d - 1) == 0 (mod p)
                assert(pow(w, i) * (pow(w, d) - 1) == pow(w, j) - pow(w, i)) by (nonlinear_arith)
                    requires
                        pow(w, j) == pow(w, i) * pow(w, d),
                ;
                lemma_sub_mod_noop(pow(w, j), pow(w, i), p);
                lemma_small_mod(0, P as nat);
                lemma_euclid(pow(w, i), pow(w, d) - 1, p);
                if pow(w, i) % p == 0 {
                    // then w^order == w^i * w^(order - i) == 0, contradiction
                    lemma_pow_adds(w, i, (order - i) as nat);
                    lemma_mul_mod_noop_left(pow(w, i), pow(w, (order - i) as nat), p);
                    assert((0 * pow(w, (order - i) as nat)) == 0);
                    assert(false);
                }
                lemma_sub_mod_noop(pow(w, d), 1, p);
                lemma_small_mod(1, P as nat);
                lemma_mod_bound(pow(w, d), p);
                if pow(w, d) % p != 1 {
                    let y = pow(w, d) % p - 1;
                    if y >= 0 {
                        lemma_small_mod(y as nat, P as nat);
                    } else {
                        lemma_mod_add_multiples_vanish(-1, p);
                        lemma_small_mod((p - 1) as nat, P as nat);
                    }
                    assert(false);
                }
                lemma_two_power_order(w, p, k, d);
                lemma_mod_is_zero(d, pow2(k));
                assert(false);
            }
        }
    } else {
        assert forall|i: nat, j: nat| i < j < order implies fpow(w, i) != fpow(w, j) by {}
    }
}

// ---------------------------------------------------------------------------
// Residue arithmetic
// ---------------------------------------------------------------------------

pub broadcast proof fn lemma_fmod_range(a: int)
    ensures
        0 <= #[trigger] fmod(a) < modulus(),
{
    lemma_mod_bound(a, modulus());
}

pub broadcast proof fn lemma_fmod_idem(a: int)
    ensures
        #[trigger] fmod(fmod(a)) == fmod(a),
{
    lemma_mod_twice(a, modulus());
}

pub broadcast proof fn lemma_fmod_small(a: int)
    requires
        0 <= a < modulus(),
    ensures
        #[trigger] fmod(a) == a,
{
    lemma_small_mod(a as nat, P as nat);
}

pub broadcast proof fn lemma_fmod_add_left(a: int, b: int)
    ensures
        #[trigger] fmod(fmod(a) + b) == fmod(a + b),
{
    lemma_add_mod_noop(a, b, modulus());
    lemma_mod_twice(b, modulus());
    lemma_add_mod_noop(fmod(a), b, modulus());
    lemma_mod_twice(a, modulus());
}

pub broadcast proof fn lemma_fmod_add_right(a: int, b: int)
    ensures
        #[trigger] fmod(a + fmod(b)) == fmod(a + b),
{
    lemma_fmod_add_left(b, a);
}

pub broadcast proof fn lemma_fmod_sub_left(a: int, b: int)
    ensures
        #[trigger] fmod(fmod(a) - b) == fmod(a - b),
{
    lemma_sub_mod_noop(a, b, modulus());
    lemma_sub_mod_noop(fmod(a), b, modulus());
    lemma_mod_twice(a, modulus());
}

pub broadcast proof fn lemma_fmod_sub_right(a: int, b: int)
    ensures
        #[trigger] fmod(a - fmod(b)) == fmod(a - b),
{
    lemma_sub_mod_noop(a, b, modulus());
    lemma_sub_mod_noop(a, fmod(b), modulus());
    lemma_mod_twice(b, modulus());
}

pub broadcast proof fn lemma_fmod_mul_left(a: int, b: int)
    ensures
        #[trigger] fmod(fmod(a) * b) == fmod(a * b),
{
    lemma_mul_mod_noop_left(a, b, modulus());
}

pub broadcast proof fn lemma_fmod_mul_right(a: int, b: int)
    ensures
        #[trigger] fmod(a * fmod(b)) == fmod(a * b),
{
    lemma_mul_mod_noop_right(a, b, modulus());
}

pub broadcast group group_fmod {
    lemma_fmod_range,
    lemma_fmod_idem,
    lemma_fmod_add_left,
    lemma_fmod_add_right,
    lemma_fmod_sub_left,
    lemma_fmod_sub_right,
    lemma_fmod_mul_left,
    lemma_fmod_mul_right,
}

/// A product of a non-zero residue and a difference of two distinct residues is non-zero.
pub proof fn lemma_fmod_nonzero_product(p: int, a: int, b: int)
    requires
        0 < p < modulus(),
        0 <= a < modulus(),
        0 <= b < modulus(),
        a != b,
    ensures
        fmod(p * (a - b)) != 0,
{
    let d = a - b;
    if fmod(p * d) == 0 {
        lemma_no_zero_divisors(p, d);
        lemma_small_mod(p as nat, P as nat);
        if d > 0 {
            lemma_small_mod(d as nat, P as nat);
        } else {
            lemma_mod_add_multiples_vanish(d, modulus());
            lemma_small_mod((d + modulus()) as nat, P as nat);
        }
    }
}

/// Powers of a non-zero element are non-zero.
pub proof fn lemma_fpow_nonzero(x: int, e: nat)
    requires
        fmod(x) != 0,
    ensures
        fpow(x, e) != 0,
    decreases e,
{
    reveal(pow);
    if e == 0 {
        lemma_small_mod(1, P as nat);
    } else {
        lemma_fpow_nonzero(x, (e - 1) as nat);
        let y = pow(x, (e - 1) as nat);
        assert(pow(x, e) == x * y);
        if fmod(x * y) == 0 {
            lemma_no_zero_divisors(x, y);
        }
    }
}

/// Products of non-zero elements are non-zero.
pub proof fn lemma_fmul_nonzero(a: int, b: int)
    requires
        fmod(a) != 0,
        fmod(b) != 0,
    ensures
        fmod(a * b) != 0,
{
    if fmod(a * b) == 0 {
        lemma_no_zero_divisors(a, b);
    }
}

/// The Fermat inverse only depends on the residue.
pub proof fn lemma_finv_mod(x: int)
    ensures
        finv(fmod(x)) == finv(x),
{
    lemma_pow_mod_noop(x, (P - 2) as nat, modulus());
}

// ---------------------------------------------------------------------------
// Laws of the operators
// ---------------------------------------------------------------------------

/// Zero is the additive identity and one the multiplicative identity;
/// a - a and a + (-a) are zero.
pub proof fn lemma_fp_identities(a: Fp, zero: Fp, one: Fp)
    requires
        zero@ == 0,
        one@ == 1,
    ensures
        a.add_spec(zero)@ == a@,
        a.mul_spec(one)@ == a@,
        a.sub_spec(a)@ == 0,
        a.add_spec(a.neg_spec())@ == 0,
        zero.neg_spec()@ == 0,
{
    lemma_fp_range(a);
    lemma_add_view(a, zero);
    lemma_mul_view(a, one);
    lemma_sub_view(a, a);
    lemma_neg_view(a);
    lemma_add_view(a, a.neg_spec());
    lemma_neg_view(zero);
    lemma_small_mod(a@ as nat, P as nat);
    lemma_small_mod(0, P as nat);
    lemma_fmod_add_right(a@, -a@);
    assert(a@ + -a@ == 0);
    assert(-zero@ == 0);
    assert(a@ * 1 == a@);
}

/// Addition and multiplication are commutative and associative, and
/// multiplication distributes over addition.
pub proof fn lemma_fp_ring(a: Fp, b: Fp, c: Fp)
    ensures
        a.add_spec(b)@ == b.add_spec(a)@,
        a.mul_spec(b)@ == b.mul_spec(a)@,
        a.add_spec(b).add_spec(c)@ == a.add_spec(b.add_spec(c))@,
        a.mul_spec(b).mul_spec(c)@ == a.mul_spec(b.mul_spec(c))@,
        a.mul_spec(b.add_spec(c))@ == a.mul_spec(b).add_spec(a.mul_spec(c))@,
{
    let (x, y, z) = (a@, b@, c@);
    lemma_add_view(a, b);
    lemma_add_view(b, a);
    lemma_mul_view(a, b);
    lemma_mul_view(b, a);
    lemma_add_view(a.add_spec(b), c);
    lemma_add_view(b, c);
    lemma_add_view(a, b.add_spec(c));
    lemma_mul_view(a.mul_spec(b), c);
    lemma_mul_view(b, c);
    lemma_mul_view(a, b.mul_spec(c));
    lemma_mul_view(a, b.add_spec(c));
    lemma_mul_view(a, c);
    lemma_add_view(a.mul_spec(b), a.mul_spec(c));
    lemma_mul_is_commutative(x, y);
    // associativity of +
    lemma_fmod_add_left(x + y, z);
    lemma_fmod_add_right(x, y + z);
    assert(x + y + z == x + (y + z));
    // associativity of *
    lemma_fmod_mul_left(x * y, z);
    lemma_fmod_mul_right(x, y * z);
    lemma_mul_is_associative(x, y, z);
    // distributivity
    lemma_fmod_mul_right(x, y + z);
    lemma_mul_is_distributive_add(x, y, z);
    lemma_fmod_add_left(x * y, fmod(x * z));
    lemma_fmod_add_right(x * y, x * z);
}

/// Subtraction undoes addition, and division by a non-zero element undoes
/// multiplication: (a - b) + b == a, (a + b) - b == a, and (a / b) * b == a.
pub proof fn lemma_fp_inverse_ops(a: Fp, b: Fp)
    ensures
        a.sub_spec(b).add_spec(b)@ == a@,
        a.add_spec(b).sub_spec(b)@ == a@,
        b@ != 0 ==> a.div_spec(b).mul_spec(b)@ == a@,
{
    let (x, y) = (a@, b@);
    lemma_fp_range(a);
    lemma_fp_range(b);
    lemma_sub_view(a, b);
    lemma_add_view(a.sub_spec(b), b);
    lemma_add_view(a, b);
    lemma_sub_view(a.add_spec(b), b);
    lemma_small_mod(x as nat, P as nat);
    lemma_fmod_add_left(x - y, y);
    assert(x - y + y == x);
    lemma_fmod_sub_left(x + y, y);
    assert(x + y - y == x);
    if y != 0 {
        lemma_div_view(a, b);
        lemma_mul_view(a.div_spec(b), b);
        lemma_small_mod(y as nat, P as nat);
        lemma_finv(y);
        let fi = finv(y);
        lemma_fmod_mul_left(x * fi, y);
        lemma_mul_is_associative(x, fi, y);
        lemma_mul_is_commutative(fi, y);
        lemma_fmod_mul_right(x, y * fi);
        assert(x * 1 == x);
    }
}

} // verus!
