//! The Fiat-Shamir transcript. Absorbed bytes accumulate; squeezing hashes
//! them with SHA-256, takes the challenge from the digest, and reseeds the
//! transcript with that digest.
use crate::field::{fmod, modulus, Fp, P};
use crate::hash::{sha256, sha256_spec};
use vstd::arithmetic::div_mod::*;
use vstd::prelude::*;

verus! {

broadcast use crate::field::group_fp;

/// Squeezes one `squeeze_indices` call makes before it falls back to the
/// smallest indices not yet taken.
pub const MAX_SQUEEZES: u64 = 0x1_0000_0000;

/// The k low-order bytes of v, least significant first.
pub open spec fn le_bytes(v: nat, k: nat) -> Seq<u8>
    decreases k,
{
    if k == 0 {
        Seq::empty()
    } else {
        seq![(v % 256) as u8] + le_bytes(v / 256, (k - 1) as nat)
    }
}

/// The value of a little-endian byte string.
pub open spec fn le_value(b: Seq<u8>) -> nat
    decreases b.len(),
{
    if b.len() == 0 {
        0
    } else {
        b[0] as nat + 256 * le_value(b.drop_first())
    }
}

/// The field challenge derived from a transcript state: the first eight
/// bytes of its digest, little-endian, reduced modulo p.
pub open spec fn squeeze_value(state: Seq<u8>) -> int {
    (le_value(sha256_spec(state).subrange(0, 8)) as int) % modulus()
}

/// The candidate query index derived from a challenge value.
pub open spec fn index_from_value(v: int, max: int) -> int {
    ((v as u64) as usize) as int % max
}

/// Squeezing until `count` distinct indices below `max` are found; should the
/// squeeze budget run out first, the smallest indices not yet taken complete
/// the list. Returns the indices and the final state.
pub open spec fn collect_indices(state: Seq<u8>, count: nat, max: nat, budget: nat, acc: Seq<usize>) -> (Seq<usize>, Seq<u8>)
    decreases budget,
{
    if acc.len() >= count {
        (acc, state)
    } else if budget == 0 {
        (fill_indices(acc, count, max, 0), state)
    } else {
        let idx = index_from_value(squeeze_value(state), max as int) as usize;
        let acc2 = if acc.contains(idx) { acc } else { acc.push(idx) };
        collect_indices(sha256_spec(state), count, max, (budget - 1) as nat, acc2)
    }
}

/// Append the indices next, next + 1, ... below `max` that are not yet in
/// `acc`, until `acc` holds `count` of them.
pub open spec fn fill_indices(acc: Seq<usize>, count: nat, max: nat, next: nat) -> Seq<usize>
    decreases max - next,
{
    if acc.len() >= count || next >= max {
        acc
    } else if acc.contains(next as usize) {
        fill_indices(acc, count, max, next + 1)
    } else {
        fill_indices(acc.push(next as usize), count, max, next + 1)
    }
}

/// Distinct indices, all below `max`.
pub open spec fn distinct_below(acc: Seq<usize>, max: nat) -> bool {
    &&& acc.no_duplicates()
    &&& forall|k: int| 0 <= k < acc.len() ==> #[trigger] acc[k] < max
}

/// A Fiat-Shamir channel that absorbs commitments and squeezes challenges.
pub struct Channel {
    /// The bytes absorbed since the last squeeze (after a squeeze: its digest).
    pending: Vec<u8>,
}

impl View for Channel {
    type V = Seq<u8>;

    closed spec fn view(&self) -> Seq<u8> {
        self.pending@
    }
}

/// The eight little-endian bytes of a u64.
pub fn u64_le_bytes(v: u64) -> (r: Vec<u8>)
    ensures
        r@ == le_bytes(v as nat, 8),
{
    let mut r: Vec<u8> = Vec::new();
    let mut x = v;
    let mut k: usize = 0;
    while k < 8
        invariant
            k <= 8,
            r@ + le_bytes(x as nat, (8 - k) as nat) == le_bytes(v as nat, 8),
        decreases 8 - k,
    {
        proof {
            assert(le_bytes(x as nat, (8 - k) as nat) == seq![(x % 256) as u8] + le_bytes((x / 256) as nat, (8 - k - 1) as nat));
        }
        let ghost r0 = r@;
        r.push((x % 256) as u8);
        proof {
            assert(r@ + le_bytes((x / 256) as nat, (8 - k - 1) as nat) =~= r0 + (seq![(x % 256) as u8] + le_bytes((x / 256) as nat, (8 - k - 1) as nat)));
        }
        x = x / 256;
        k += 1;
    }
    proof {
        assert(r@ + le_bytes(x as nat, 0) =~= r@);
    }
    r
}

proof fn lemma_le_value_bound(b: Seq<u8>)
    ensures
        le_value(b) < vstd::arithmetic::power::pow(256, b.len()),
    decreases b.len(),
{
    reveal(vstd::arithmetic::power::pow);
    if b.len() > 0 {
        lemma_le_value_bound(b.drop_first());
        let p = vstd::arithmetic::power::pow(256, (b.len() - 1) as nat);
        assert(le_value(b) == b[0] as nat + 256 * le_value(b.drop_first()));
        assert(b[0] as nat + 256 * le_value(b.drop_first()) < 256 * p) by (nonlinear_arith)
            requires
                le_value(b.drop_first()) < p,
                b[0] < 256,
        ;
    }
}

/// The little-endian value of the first eight bytes.
fn u64_from_le_bytes(b: &[u8; 32]) -> (r: u64)
    ensures
        r as nat == le_value(b@.subrange(0, 8)),
{
    let ghost s = b@.subrange(0, 8);
    let mut val: u64 = 0;
    let mut k: usize = 8;
    proof {
        assert(s.subrange(8, 8).len() == 0);
    }
    while k > 0
        invariant
            k <= 8,
            s == b@.subrange(0, 8),
            val as nat == le_value(s.subrange(k as int, 8)),
        decreases k,
    {
        k -= 1;
        let ghost rest = s.subrange(k + 1, 8);
        proof {
            assert(s.subrange(k as int, 8).drop_first() =~= rest);
            assert(s.subrange(k as int, 8)[0] == b@[k as int]);
            lemma_le_value_bound(s.subrange(k as int, 8));
            vstd::arithmetic::power::lemma_pow_increases(256, (8 - k) as nat, 8);
            assert(vstd::arithmetic::power::pow(256, 8) == 0x1_0000_0000_0000_0000) by {
                reveal_with_fuel(vstd::arithmetic::power::pow, 9);
            }
        }
        val = val * 256 + b[k] as u64;
    }
    proof {
        assert(s.subrange(0, 8) =~= s);
    }
    val
}

/// `x` occurs in `v`.
fn contains_index(v: &Vec<usize>, x: usize) -> (r: bool)
    ensures
        r == v@.contains(x),
{
    let mut i: usize = 0;
    while i < v.len()
        invariant
            i <= v.len(),
            forall|k: int| 0 <= k < i ==> v@[k] != x,
        decreases v.len() - i,
    {
        if v[i] == x {
            return true;
        }
        i += 1;
    }
    false
}

impl Channel {
    /// An empty transcript.
    pub fn new() -> (c: Channel)
        ensures
            c@ == Seq::<u8>::empty(),
    {
        Channel { pending: Vec::new() }
    }

    /// Feed data into the transcript.
    pub fn absorb(&mut self, data: &[u8])
        ensures
            final(self)@ == old(self)@ + data@,
    {
        let mut i: usize = 0;
        let ghost start = self.pending@;
        while i < data.len()
            invariant
                i <= data.len(),
                self.pending@ == start + data@.subrange(0, i as int),
            decreases data.len() - i,
        {
            self.pending.push(data[i]);
            proof {
                assert(start + data@.subrange(0, i + 1) =~= (start + data@.subrange(0, i as int)).push(data@[i as int]));
            }
            i += 1;
        }
        proof {
            assert(data@.subrange(0, data.len() as int) =~= data@);
        }
    }

    /// Absorb a field element as its eight little-endian bytes.
    pub fn absorb_field(&mut self, val: Fp)
        ensures
            final(self)@ == old(self)@ + le_bytes(val@ as nat, 8),
    {
        let bytes = u64_le_bytes(val.value());
        self.absorb(bytes.as_slice());
    }

    /// Derive a field challenge: hash the transcript, reseed it with the
    /// digest, and reduce the digest's first eight bytes modulo p.
    pub fn squeeze_field(&mut self) -> (r: Fp)
        ensures
            r@ == squeeze_value(old(self)@),
            final(self)@ == sha256_spec(old(self)@),
    {
        let hash = sha256(self.pending.as_slice());
        let mut next: Vec<u8> = Vec::new();
        let mut i: usize = 0;
        while i < 32
            invariant
                i <= 32,
                next@ == hash@.subrange(0, i as int),
            decreases 32 - i,
        {
            next.push(hash[i]);
            i += 1;
        }
        proof {
            assert(hash@.subrange(0, 32) =~= hash@);
        }
        self.pending = next;
        let raw = u64_from_le_bytes(&hash);
        let r = Fp::new(raw % P);
        proof {
            lemma_mod_bound(raw as int, P as int);
            lemma_small_mod((raw % P) as nat, P as nat);
        }
        r
    }

    /// Derive `count` distinct query indices in [0, max). Squeezes that give
    /// an index already found are skipped; should MAX_SQUEEZES squeezes pass
    /// before `count` indices are found, the smallest indices not yet taken
    /// complete the list.
    pub fn squeeze_indices(&mut self, count: usize, max: usize) -> (indices: Vec<usize>)
        requires
            count <= max,
        ensures
            (indices@, final(self)@) == collect_indices(old(self)@, count as nat, max as nat, MAX_SQUEEZES as nat, Seq::empty()),
            indices@.len() == count,
            distinct_below(indices@, max as nat),
    {
        let ghost target = collect_indices(old(self)@, count as nat, max as nat, MAX_SQUEEZES as nat, Seq::empty());
        proof {
            if count > 0 {
                lemma_collect_indices(old(self)@, count as nat, max as nat, MAX_SQUEEZES as nat, Seq::empty());
            }
        }
        let mut indices: Vec<usize> = Vec::new();
        let mut tries: u64 = 0;
        while indices.len() < count && tries < MAX_SQUEEZES
            invariant
                count <= max,
                tries <= MAX_SQUEEZES,
                target == collect_indices(self@, count as nat, max as nat, (MAX_SQUEEZES - tries) as nat, indices@),
            decreases MAX_SQUEEZES - tries,
        {
            let val = self.squeeze_field().value() as usize;
            let idx = val % max;
            if !contains_index(&indices, idx) {
                indices.push(idx);
            }
            tries += 1;
        }
        proof {
            assert(target == (fill_indices(indices@, count as nat, max as nat, 0), self@));
        }
        let mut next: usize = 0;
        while indices.len() < count && next < max
            invariant
                target == (fill_indices(indices@, count as nat, max as nat, next as nat), self@),
            decreases max - next,
        {
            if !contains_index(&indices, next) {
                indices.push(next);
            }
            next += 1;
        }
        indices
    }
}


/// `le_bytes(v, k)` has k bytes.
pub proof fn lemma_le_bytes_len(v: nat, k: nat)
    ensures
        le_bytes(v, k).len() == k,
    decreases k,
{
    if k > 0 {
        lemma_le_bytes_len(v / 256, (k - 1) as nat);
    }
}



/// Adding an index not yet present keeps the indices distinct and below `max`.
proof fn lemma_push_distinct(acc: Seq<usize>, max: nat, idx: usize)
    requires
        distinct_below(acc, max),
        !acc.contains(idx),
        idx < max,
    ensures
        distinct_below(acc.push(idx), max),
{
    let a2 = acc.push(idx);
    assert forall|a: int, b: int| 0 <= a < a2.len() && 0 <= b < a2.len() && a != b implies a2[a] != a2[b] by {
        if a == acc.len() as int {
            assert(a2[b] == acc[b]);
        } else if b == acc.len() as int {
            assert(a2[a] == acc[a]);
        }
    }
}

/// Indices that include every value below `max` number at least `max`.
proof fn lemma_covering_len(acc: Seq<usize>, max: nat)
    requires
        max <= usize::MAX + 1,
        forall|j: usize| j < max ==> #[trigger] acc.contains(j),
    ensures
        acc.len() >= max,
{
    broadcast use vstd::seq_lib::seq_to_set_is_finite;
    let ai = acc.map_values(|u: usize| u as int);
    let range = vstd::set_lib::set_int_range(0, max as int);
    vstd::set_lib::lemma_int_range(0, max as int);
    assert forall|j: int| range.contains(j) implies ai.to_set().contains(j) by {
        assert(acc.contains(j as usize));
        let i = choose|i: int| 0 <= i < acc.len() && acc[i] == j as usize;
        assert(ai[i] == j);
    }
    vstd::set_lib::lemma_len_subset(range, ai.to_set());
    ai.lemma_cardinality_of_set();
}

/// Filling takes the list to `count` distinct indices below `max`.
proof fn lemma_fill_indices(acc: Seq<usize>, count: nat, max: nat, next: nat)
    requires
        count <= max <= usize::MAX,
        acc.len() <= count,
        distinct_below(acc, max),
        next <= max,
        forall|j: usize| j < next ==> #[trigger] acc.contains(j),
    ensures
        fill_indices(acc, count, max, next).len() == count,
        distinct_below(fill_indices(acc, count, max, next), max),
    decreases max - next,
{
    if acc.len() >= count {
    } else if next >= max {
        lemma_covering_len(acc, max);
    } else if acc.contains(next as usize) {
        lemma_fill_indices(acc, count, max, next + 1);
    } else {
        let a2 = acc.push(next as usize);
        lemma_push_distinct(acc, max, next as usize);
        assert forall|j: usize| j < next + 1 implies #[trigger] a2.contains(j) by {
            if j < next {
                assert(acc.contains(j));
                let i = choose|i: int| 0 <= i < acc.len() && acc[i] == j;
                assert(a2[i] == j);
            } else {
                assert(a2[acc.len() as int] == j);
            }
        }
        lemma_fill_indices(a2, count, max, next + 1);
    }
}

/// Collecting indices gives exactly `count` distinct indices below `max`.
pub proof fn lemma_collect_indices(state: Seq<u8>, count: nat, max: nat, budget: nat, acc: Seq<usize>)
    requires
        0 < max <= usize::MAX,
        count <= max,
        acc.len() <= count,
        distinct_below(acc, max),
    ensures
        collect_indices(state, count, max, budget, acc).0.len() == count,
        distinct_below(collect_indices(state, count, max, budget, acc).0, max),
    decreases budget,
{
    if acc.len() >= count {
    } else if budget == 0 {
        lemma_fill_indices(acc, count, max, 0);
    } else {
        let idx = index_from_value(squeeze_value(state), max as int) as usize;
        let acc2 = if acc.contains(idx) { acc } else { acc.push(idx) };
        if !acc.contains(idx) {
            lemma_push_distinct(acc, max, idx);
        }
        lemma_collect_indices(sha256_spec(state), count, max, (budget - 1) as nat, acc2);
        assert(collect_indices(state, count, max, budget, acc) == collect_indices(sha256_spec(state), count, max, (budget - 1) as nat, acc2));
    }
}

} // verus!
