//! Evaluation domains: multiplicative cosets {offset * g^i : 0 <= i < size}.
//!
//! The trace domain is the subgroup of order n (offset 1); the LDE domain is
//! a coset of a larger subgroup, shifted away from the trace domain.
use crate::field::{fmod, fpow, root_of_unity_spec, Fp, P};
use vstd::arithmetic::power2::is_pow2;
use vstd::prelude::*;

verus! {

broadcast use crate::field::group_fp, crate::field::group_fmod;

/// The element offset * g^i of a coset.
pub open spec fn domain_point(offset: int, generator: int, i: nat) -> int {
    fmod(offset * fpow(generator, i))
}

/// The coset offset of the LDE domain of a given size: 7^((p-1)/(2*size)).
pub open spec fn lde_offset_spec(lde_size: int) -> int {
    fpow(7, ((P - 1) as int / (2 * lde_size)) as nat)
}

/// A multiplicative domain: {offset * g^0, offset * g^1, ..., offset * g^(size-1)}.
#[derive(Debug, Clone, Copy)]
pub struct Domain {
    /// Generator of the subgroup (a root of unity of the given order).
    pub generator: Fp,
    /// Number of elements.
    pub size: usize,
    /// Coset offset: 1 for the trace domain, a shift for the LDE domain.
    pub offset: Fp,
}

impl Domain {
    /// The trace domain: the subgroup of the given power-of-two size.
    pub fn trace_domain(size: usize) -> (d: Domain)
        requires
            is_pow2(size as int),
            size <= 0x1_0000_0000,
        ensures
            d.generator@ == root_of_unity_spec(size as int),
            d.size == size,
            d.offset@ == 1,
            forall|i: nat, j: nat| i < j < size ==> fpow(d.generator@, i) != fpow(d.generator@, j),
    {
        let generator = Fp::root_of_unity(size as u64);
        Domain { generator, size, offset: Fp::one() }
    }

    /// The LDE domain: a coset of the subgroup of order trace_size * blowup_factor.
    pub fn lde_domain(trace_size: usize, blowup_factor: usize) -> (d: Domain)
        requires
            trace_size * blowup_factor <= 0x1_0000_0000,
            trace_size * blowup_factor <= usize::MAX,
            is_pow2(trace_size * blowup_factor),
        ensures
            d.size == trace_size * blowup_factor,
            d.generator@ == root_of_unity_spec(d.size as int),
            d.offset@ == lde_offset_spec(d.size as int),
            forall|i: nat, j: nat| i < j < d.size ==> fpow(d.generator@, i) != fpow(d.generator@, j),
    {
        let lde_size = trace_size * blowup_factor;
        proof {
            vstd::arithmetic::power2::is_pow2_equiv(lde_size as int);
            let k = choose|k: nat| vstd::arithmetic::power::pow(2, k) == lde_size as int;
            vstd::arithmetic::power::lemma_pow_positive(2, k);
        }
        let generator = Fp::root_of_unity(lde_size as u64);
        let offset = Fp::new(7).pow((P - 1) / (2 * lde_size as u64));
        proof {
            vstd::arithmetic::div_mod::lemma_small_mod(7, P as nat);
        }
        Domain { generator, size: lde_size, offset }
    }

    /// All elements of the domain, in order.
    pub fn elements(&self) -> (r: Vec<Fp>)
        ensures
            r.len() == self.size,
            forall|i: int| 0 <= i < self.size ==> (#[trigger] r[i])@ == domain_point(self.offset@, self.generator@, i as nat),
    {
        let mut elems: Vec<Fp> = Vec::new();
        let mut current = self.offset;
        let mut i: usize = 0;
        proof {
            crate::field::lemma_fp_range(self.offset);
            vstd::arithmetic::power::lemma_pow0(self.generator@);
            vstd::arithmetic::div_mod::lemma_small_mod(1, P as nat);
            vstd::arithmetic::div_mod::lemma_small_mod(self.offset@ as nat, P as nat);
            assert(self.offset@ * 1 == self.offset@);
        }
        while i < self.size
            invariant
                i <= self.size,
                elems.len() == i,
                current@ == domain_point(self.offset@, self.generator@, i as nat),
                forall|k: int| 0 <= k < i ==> (#[trigger] elems[k])@ == domain_point(self.offset@, self.generator@, k as nat),
            decreases self.size - i,
        {
            elems.push(current);
            let ghost c0 = current@;
            current = current * self.generator;
            proof {
                lemma_domain_point_step(self.offset@, self.generator@, i as nat);
            }
            i += 1;
        }
        elems
    }

    /// The i-th element: offset * g^i.
    pub fn element(&self, i: usize) -> (r: Fp)
        ensures
            r@ == domain_point(self.offset@, self.generator@, i as nat),
    {
        self.offset * self.generator.pow(i as u64)
    }
}

/// Multiplying a domain point by the generator gives the next one.
pub proof fn lemma_domain_point_step(offset: int, g: int, i: nat)
    ensures
        fmod(domain_point(offset, g, i) * g) == domain_point(offset, g, i + 1),
{
    broadcast use crate::field::group_fmod;
    let p = crate::field::modulus();
    vstd::arithmetic::power::lemma_pow_adds(g, i, 1);
    vstd::arithmetic::power::lemma_pow1(g);
    let x = vstd::arithmetic::power::pow(g, i);
    assert(fmod(fmod(offset * fmod(x)) * g) == fmod(offset * fmod(x) * g));
    assert(fmod(offset * fmod(x) * g) == fmod(offset * (fmod(x) * g))) by {
        assert(offset * fmod(x) * g == offset * (fmod(x) * g)) by (nonlinear_arith);
    }
    assert(fmod(offset * (fmod(x) * g)) == fmod(offset * fmod(fmod(x) * g)));
    assert(fmod(fmod(x) * g) == fmod(x * g));
    assert(fmod(offset * fmod(x * g)) == fmod(offset * (x * g)));
    assert(x * g == vstd::arithmetic::power::pow(g, i + 1));
}

} // verus!
