use vstd::prelude::*;

verus! {

/// The universal value type for domain sizes, positions and keys.
pub type Index = u64;

/// Masks and half-width describing a power-of-4 superset domain, as the
/// triple `(left_mask, right_mask, half_bits)`.
pub type FeistelPrecomputed = (Index, Index, Index);

/// 4 raised to `k`.
pub open spec fn pow4(k: nat) -> nat
    decreases k,
{
    if k == 0 {
        1
    } else {
        4 * pow4((k - 1) as nat)
    }
}

/// The mask selecting the low `h` bits of a word.
pub open spec fn low_mask(h: u64) -> u64 {
    ((1u64 << h) - 1) as u64
}

/// The masks of `p` are exactly the ones derived from its own half-width
/// `p.2`: a right mask over the low `p.2` bits and a left mask over the
/// `p.2` bits above them.
pub open spec fn masks_wf(p: FeistelPrecomputed) -> bool {
    &&& 1 <= p.2 <= 31
    &&& p.1 == low_mask(p.2)
    &&& p.0 == low_mask(p.2) << p.2
}

/// `x` lies in the superset domain `[0, 4^half_bits)` described by `p`.
pub open spec fn in_domain(x: u64, p: FeistelPrecomputed) -> bool {
    x & (p.0 | p.1) == x
}

/// `p` describes the smallest power-of-4 superset domain for `n` elements:
/// well-formed masks whose half-width is the least positive `h` with
/// `4^h >= n`.
pub open spec fn precomputed_for(p: FeistelPrecomputed, n: u64) -> bool {
    &&& masks_wf(p)
    &&& n <= pow4(p.2 as nat)
    &&& forall|j: nat| 1 <= j < p.2 ==> pow4(j) < n
}

pub proof fn lemma_pow4_31()
    ensures
        pow4(31) == 0x4000_0000_0000_0000,
{
    reveal_with_fuel(pow4, 32);
}

/// The two masks together select exactly the low `2*h` bits, so as a number
/// they reach one below `4^h`.
pub proof fn lemma_pow4_mask(h: u64)
    requires
        1 <= h <= 31,
    ensures
        ((low_mask(h) << h) | low_mask(h)) + 1 == pow4(h as nat),
    decreases h,
{
    if h == 1 {
        assert((low_mask(1u64) << 1u64) | low_mask(1u64) == 3u64) by (bit_vector);
        assert(pow4(1) == 4) by {
            reveal_with_fuel(pow4, 2);
        }
    } else {
        lemma_pow4_mask((h - 1) as u64);
        assert((low_mask(h) << h) | low_mask(h) == 4 * ((low_mask((h - 1) as u64) << ((h
            - 1) as u64)) | low_mask((h - 1) as u64)) + 3) by (bit_vector)
            requires
                2 <= h <= 31,
        ;
        assert(pow4(h as nat) == 4 * pow4((h - 1) as nat));
    }
}

/// Every index below `n` lies in the superset domain computed for `n`.
pub proof fn lemma_index_in_domain(x: u64, n: u64, p: FeistelPrecomputed)
    requires
        precomputed_for(p, n),
        x < n,
    ensures
        in_domain(x, p),
{
    lemma_pow4_mask(p.2);
    let h = p.2;
    assert(x <= (low_mask(h) << h) | low_mask(h));
    assert(x & ((low_mask(h) << h) | low_mask(h)) == x) by (bit_vector)
        requires
            1 <= h <= 31,
            x <= (low_mask(h) << h) | low_mask(h),
    ;
}

/// When `n` itself is the power of 4 of its half-width, the superset domain
/// is exactly `[0, n)`: every value inside it is already below `n`.
pub proof fn lemma_in_domain_lt(v: u64, n: u64, p: FeistelPrecomputed)
    requires
        precomputed_for(p, n),
        n == pow4(p.2 as nat),
        in_domain(v, p),
    ensures
        v < n,
{
    lemma_pow4_mask(p.2);
    let h = p.2;
    assert(v & ((low_mask(h) << h) | low_mask(h)) == v ==> v <= (low_mask(h) << h) | low_mask(
        h,
    )) by (bit_vector);
}

/// Derive the masks and half-width of the smallest power-of-4 superset domain
/// `[0, 4^half_bits)` covering `[0, num_elements)`.
///
/// The upper bound on `num_elements` is the largest power of 4 a 64-bit word
/// holds; above it the search for the superset would overflow.
pub fn precompute(num_elements: Index) -> (r: FeistelPrecomputed)
    requires
        1 <= num_elements <= 0x4000_0000_0000_0000u64,
    ensures
        precomputed_for(r, num_elements),
{
    let mut next_pow4: Index = 4;
    let mut log4: Index = 1;
    proof {
        assert(pow4(1) == 4) by {
            reveal_with_fuel(pow4, 2);
        }
    }
    while next_pow4 < num_elements
        invariant
            1 <= log4 <= 31,
            next_pow4 == pow4(log4 as nat),
            num_elements <= 0x4000_0000_0000_0000u64,
            forall|j: nat| 1 <= j < log4 ==> pow4(j) < num_elements,
        decreases 31 - log4,
    {
        proof {
            lemma_pow4_31();
            if log4 == 31 {
                assert(false);
            }
        }
        next_pow4 = next_pow4 * 4;
        log4 = log4 + 1;
    }

    proof {
        assert(1u64 << log4 >= 1) by (bit_vector)
            requires
                log4 <= 31,
        ;
    }
    let right_mask = (1u64 << log4) - 1;
    let left_mask = right_mask << log4;

    (left_mask, right_mask, log4)
}

} // verus!
