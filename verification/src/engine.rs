use vstd::prelude::*;

use crate::domain::{FeistelPrecomputed, Index, in_domain, low_mask, masks_wf};
use crate::hashing::{blake2b_digest, blake2b_of};

verus! {

/// Number of Feistel rounds; three is an accepted minimum for a balanced
/// Feistel network, and the key schedule is consumed on exactly this many
/// rounds.
pub const FEISTEL_ROUNDS: usize = 3;

/// Byte `i` (big-endian, `0 <= i < 8`) of the 64-bit value `v`.
pub open spec fn be_byte(v: u64, i: int) -> u8 {
    ((v >> (((7 - i) * 8) as u64)) & 0xff) as u8
}

/// The frozen 16-byte layout hashed by the round function: the key written
/// big-endian over the low half (the slot first filled with the right value's
/// bytes), the upper half left zero.
pub open spec fn round_input(key: u64) -> Seq<u8> {
    Seq::new(16, |i: int| if i < 8 { be_byte(key, i) } else { 0u8 })
}

/// OR of the digest bytes at offsets `0, 8, ..., 8*(k-1)`: the frozen
/// digest-reduction step.
pub open spec fn fold_digest(d: Seq<u8>, k: nat) -> u64
    decreases k,
{
    if k == 0 {
        0u64
    } else {
        fold_digest(d, (k - 1) as nat) | (d[8 * (k - 1)] as u64)
    }
}

/// Value of the round function `F`. The frozen byte layout overwrites the
/// right value's bytes with the key's, so the digest input — and with it the
/// result — depends on the key and the mask alone.
pub open spec fn feistel_spec(key: u64, right_mask: u64) -> u64 {
    fold_digest(blake2b_of(round_input(key)), 8) & right_mask
}

/// Round function of the Feistel network, `F(R_i, K_i)`: serialize into the
/// frozen buffer layout, hash, reduce the digest and mask it to the right
/// half's width.
fn feistel(right: Index, key: Index, right_mask: Index) -> (r: Index)
    ensures
        r == feistel_spec(key, right_mask),
{
    let mut data: Vec<u8> = Vec::new();
    let mut i: usize = 0;
    while i < 16
        invariant
            i <= 16,
            data@.len() == i as int,
            forall|j: int| 0 <= j < i ==> data@[j] == round_input(key)[j],
        decreases 16 - i,
    {
        if i < 8 {
            let sh: u64 = ((7 - i) * 8) as u64;
            data.push(((key >> sh) & 0xff) as u8);
        } else {
            data.push(0u8);
        }
        i += 1;
    }
    assert(data@ =~= round_input(key));

    let hash = blake2b_digest(data.as_slice());

    let mut acc: u64 = 0;
    let mut k: usize = 0;
    while k < 8
        invariant
            k <= 8,
            hash@.len() == 64,
            hash@ == blake2b_of(round_input(key)),
            acc == fold_digest(hash@, k as nat),
        decreases 8 - k,
    {
        acc = acc | (hash[8 * k] as u64);
        k += 1;
    }

    acc & right_mask
}

/// The left half of `x` under the masks of `p`.
pub open spec fn split_left(x: u64, p: FeistelPrecomputed) -> u64 {
    (x & p.0) >> p.2
}

/// The right half of `x` under the masks of `p`.
pub open spec fn split_right(x: u64, p: FeistelPrecomputed) -> u64 {
    x & p.1
}

/// The two halves joined back into one value.
pub open spec fn recombine(l: u64, r: u64, p: FeistelPrecomputed) -> u64 {
    (l << p.2) | r
}

/// State of the halves after `i` forward rounds from `(l, r)`, consuming the
/// keys in forward order.
pub open spec fn enc_rounds(l: u64, r: u64, keys: Seq<u64>, rm: u64, i: nat) -> (u64, u64)
    decreases i,
{
    if i == 0 {
        (l, r)
    } else {
        let prev = enc_rounds(l, r, keys, rm, (i - 1) as nat);
        (prev.1, prev.0 ^ feistel_spec(keys[i - 1], rm))
    }
}

/// State of the halves after `i` backward rounds from `(l, r)`, consuming the
/// keys in reverse order.
pub open spec fn dec_rounds(l: u64, r: u64, keys: Seq<u64>, rm: u64, i: nat) -> (u64, u64)
    decreases i,
{
    if i == 0 {
        (l, r)
    } else {
        let prev = dec_rounds(l, r, keys, rm, (i - 1) as nat);
        (prev.1 ^ feistel_spec(keys[3 - i], rm), prev.0)
    }
}

/// What `encode` returns: split, three forward rounds, recombine.
pub open spec fn encode_spec(index: u64, keys: Seq<u64>, p: FeistelPrecomputed) -> u64 {
    let lr = enc_rounds(split_left(index, p), split_right(index, p), keys, p.1, 3);
    recombine(lr.0, lr.1, p)
}

/// What `decode` returns: split, three backward rounds, recombine.
pub open spec fn decode_spec(index: u64, keys: Seq<u64>, p: FeistelPrecomputed) -> u64 {
    let lr = dec_rounds(split_left(index, p), split_right(index, p), keys, p.1, 3);
    recombine(lr.0, lr.1, p)
}

/// Shared prologue of `encode` and `decode`: split `index` into its halves
/// and hand back the right mask and half-width beside them.
fn common_setup(index: Index, precomputed: FeistelPrecomputed) -> (r: (Index, Index, Index, Index))
    requires
        masks_wf(precomputed),
    ensures
        r.0 == split_left(index, precomputed),
        r.1 == split_right(index, precomputed),
        r.2 == precomputed.1,
        r.3 == precomputed.2,
{
    let (left_mask, right_mask, half_bits) = precomputed;

    let left = (index & left_mask) >> half_bits;
    let right = index & right_mask;

    (left, right, right_mask, half_bits)
}

/// Masking with `m` twice is masking once.
proof fn lemma_mask_idem(x: u64, m: u64)
    ensures
        (x & m) & m == x & m,
{
    assert((x & m) & m == x & m) by (bit_vector);
}

/// XOR of two values inside mask `m` stays inside `m`, and XORing the same
/// value twice cancels.
proof fn lemma_xor_mask(a: u64, b: u64, m: u64)
    ensures
        a & m == a && b & m == b ==> (a ^ b) & m == (a ^ b),
        (a ^ b) ^ b == a,
{
    assert((a & m == a && b & m == b ==> (a ^ b) & m == (a ^ b)) && ((a ^ b) ^ b == a))
        by (bit_vector);
}

/// Both halves of a split are inside the right mask.
proof fn lemma_split_bounded(x: u64, p: FeistelPrecomputed)
    requires
        masks_wf(p),
    ensures
        split_left(x, p) & p.1 == split_left(x, p),
        split_right(x, p) & p.1 == split_right(x, p),
{
    let h = p.2;
    assert((((x & (low_mask(h) << h)) >> h) & low_mask(h) == (x & (low_mask(h) << h)) >> h) && ((x
        & low_mask(h)) & low_mask(h) == x & low_mask(h))) by (bit_vector)
        requires
            1 <= h <= 31,
    ;
}

/// Recombining two halves that lie inside the right mask splits back into the
/// same halves, and the joined value lies in the superset domain.
proof fn lemma_recombine(l: u64, r: u64, p: FeistelPrecomputed)
    requires
        masks_wf(p),
        l & p.1 == l,
        r & p.1 == r,
    ensures
        split_left(recombine(l, r, p), p) == l,
        split_right(recombine(l, r, p), p) == r,
        in_domain(recombine(l, r, p), p),
{
    let h = p.2;
    assert(((((l << h) | r) & (low_mask(h) << h)) >> h == l) && (((l << h) | r) & low_mask(h) == r)
        && (((l << h) | r) & ((low_mask(h) << h) | low_mask(h)) == ((l << h) | r))) by (bit_vector)
        requires
            1 <= h <= 31,
            l & low_mask(h) == l,
            r & low_mask(h) == r,
    ;
}

/// A value of the superset domain is exactly the recombination of its halves.
proof fn lemma_split_recombine(x: u64, p: FeistelPrecomputed)
    requires
        masks_wf(p),
        in_domain(x, p),
    ensures
        recombine(split_left(x, p), split_right(x, p), p) == x,
{
    let h = p.2;
    assert(((((x & (low_mask(h) << h)) >> h) << h) | (x & low_mask(h))) == x) by (bit_vector)
        requires
            1 <= h <= 31,
            x & ((low_mask(h) << h) | low_mask(h)) == x,
    ;
}

/// Forward rounds keep both halves inside the right mask.
proof fn lemma_enc_rounds_bounded(l: u64, r: u64, keys: Seq<u64>, p: FeistelPrecomputed, i: nat)
    requires
        masks_wf(p),
        l & p.1 == l,
        r & p.1 == r,
    ensures
        enc_rounds(l, r, keys, p.1, i).0 & p.1 == enc_rounds(l, r, keys, p.1, i).0,
        enc_rounds(l, r, keys, p.1, i).1 & p.1 == enc_rounds(l, r, keys, p.1, i).1,
    decreases i,
{
    if i > 0 {
        lemma_enc_rounds_bounded(l, r, keys, p, (i - 1) as nat);
        let prev = enc_rounds(l, r, keys, p.1, (i - 1) as nat);
        let f = feistel_spec(keys[i - 1], p.1);
        lemma_mask_idem(fold_digest(blake2b_of(round_input(keys[i - 1])), 8), p.1);
        lemma_xor_mask(prev.0, f, p.1);
    }
}

/// Backward rounds keep both halves inside the right mask.
proof fn lemma_dec_rounds_bounded(l: u64, r: u64, keys: Seq<u64>, p: FeistelPrecomputed, i: nat)
    requires
        masks_wf(p),
        l & p.1 == l,
        r & p.1 == r,
    ensures
        dec_rounds(l, r, keys, p.1, i).0 & p.1 == dec_rounds(l, r, keys, p.1, i).0,
        dec_rounds(l, r, keys, p.1, i).1 & p.1 == dec_rounds(l, r, keys, p.1, i).1,
    decreases i,
{
    if i > 0 {
        lemma_dec_rounds_bounded(l, r, keys, p, (i - 1) as nat);
        let prev = dec_rounds(l, r, keys, p.1, (i - 1) as nat);
        let f = feistel_spec(keys[3 - i], p.1);
        lemma_mask_idem(fold_digest(blake2b_of(round_input(keys[3 - i])), 8), p.1);
        lemma_xor_mask(prev.1, f, p.1);
    }
}

/// `encode` lands in the superset domain, whatever its input.
pub proof fn lemma_encode_in_domain(index: u64, keys: Seq<u64>, p: FeistelPrecomputed)
    requires
        masks_wf(p),
    ensures
        in_domain(encode_spec(index, keys, p), p),
{
    let l0 = split_left(index, p);
    let r0 = split_right(index, p);
    lemma_split_bounded(index, p);
    lemma_enc_rounds_bounded(l0, r0, keys, p, 3);
    let lr = enc_rounds(l0, r0, keys, p.1, 3);
    lemma_recombine(lr.0, lr.1, p);
}

/// `decode` lands in the superset domain, whatever its input.
pub proof fn lemma_decode_in_domain(index: u64, keys: Seq<u64>, p: FeistelPrecomputed)
    requires
        masks_wf(p),
    ensures
        in_domain(decode_spec(index, keys, p), p),
{
    let l0 = split_left(index, p);
    let r0 = split_right(index, p);
    lemma_split_bounded(index, p);
    lemma_dec_rounds_bounded(l0, r0, keys, p, 3);
    let lr = dec_rounds(l0, r0, keys, p.1, 3);
    lemma_recombine(lr.0, lr.1, p);
}

/// Law: over the whole superset domain the backward application undoes the
/// forward one — `decode(encode(x)) == x` for every `x` the masks cover and
/// every key schedule of at least three keys, whether or not `x < n`.
pub proof fn lemma_decode_encode(x: u64, keys: Seq<u64>, p: FeistelPrecomputed)
    requires
        masks_wf(p),
        in_domain(x, p),
        keys.len() >= 3,
    ensures
        decode_spec(encode_spec(x, keys, p), keys, p) == x,
{
    let m = p.1;
    let l0 = split_left(x, p);
    let r0 = split_right(x, p);
    let f0 = feistel_spec(keys[0], m);
    let f1 = feistel_spec(keys[1], m);
    let f2 = feistel_spec(keys[2], m);

    lemma_split_bounded(x, p);
    lemma_mask_idem(fold_digest(blake2b_of(round_input(keys[0])), 8), m);
    lemma_mask_idem(fold_digest(blake2b_of(round_input(keys[1])), 8), m);
    lemma_mask_idem(fold_digest(blake2b_of(round_input(keys[2])), 8), m);

    assert(enc_rounds(l0, r0, keys, m, 0) == (l0, r0));
    assert(enc_rounds(l0, r0, keys, m, 1) == (r0, l0 ^ f0));
    assert(enc_rounds(l0, r0, keys, m, 2) == ((l0 ^ f0), (r0 ^ f1)));
    assert(enc_rounds(l0, r0, keys, m, 3) == ((r0 ^ f1), ((l0 ^ f0) ^ f2)));
    let l3 = r0 ^ f1;
    let r3 = (l0 ^ f0) ^ f2;

    lemma_xor_mask(l0, f0, m);
    lemma_xor_mask(r0, f1, m);
    lemma_xor_mask(l0 ^ f0, f2, m);
    lemma_recombine(l3, r3, p);

    let y = encode_spec(x, keys, p);
    assert(split_left(y, p) == l3);
    assert(split_right(y, p) == r3);

    assert(dec_rounds(l3, r3, keys, m, 0) == (l3, r3));
    assert(dec_rounds(l3, r3, keys, m, 1) == ((r3 ^ f2), l3));
    assert(r3 ^ f2 == l0 ^ f0);
    assert(dec_rounds(l3, r3, keys, m, 2) == ((l3 ^ f1), (l0 ^ f0)));
    assert(l3 ^ f1 == r0);
    assert(dec_rounds(l3, r3, keys, m, 3) == (((l0 ^ f0) ^ f0), r0));
    assert((l0 ^ f0) ^ f0 == l0);

    lemma_split_recombine(x, p);
}

/// One forward Feistel application over the superset domain.
pub fn encode(index: Index, keys: &[Index], precomputed: FeistelPrecomputed) -> (r: Index)
    requires
        masks_wf(precomputed),
        keys@.len() >= 3,
    ensures
        r == encode_spec(index, keys@, precomputed),
        in_domain(r, precomputed),
{
    let (mut left, mut right, right_mask, half_bits) = common_setup(index, precomputed);
    let ghost l0 = left;
    let ghost r0 = right;

    let mut i: usize = 0;
    while i < FEISTEL_ROUNDS
        invariant
            i <= 3,
            keys@.len() >= 3,
            masks_wf(precomputed),
            right_mask == precomputed.1,
            half_bits == precomputed.2,
            (left, right) == enc_rounds(l0, r0, keys@, precomputed.1, i as nat),
        decreases 3 - i,
    {
        let f = feistel(right, keys[i], right_mask);
        let new_left = right;
        let new_right = left ^ f;
        left = new_left;
        right = new_right;
        i += 1;
    }

    proof {
        lemma_encode_in_domain(index, keys@, precomputed);
    }
    (left << half_bits) | right
}

/// One backward Feistel application over the superset domain.
pub fn decode(index: Index, keys: &[Index], precomputed: FeistelPrecomputed) -> (r: Index)
    requires
        masks_wf(precomputed),
        keys@.len() >= 3,
    ensures
        r == decode_spec(index, keys@, precomputed),
        in_domain(r, precomputed),
{
    let (mut left, mut right, right_mask, half_bits) = common_setup(index, precomputed);
    let ghost l0 = left;
    let ghost r0 = right;

    let mut i: usize = FEISTEL_ROUNDS;
    while i > 0
        invariant
            i <= 3,
            keys@.len() >= 3,
            masks_wf(precomputed),
            right_mask == precomputed.1,
            half_bits == precomputed.2,
            (left, right) == dec_rounds(l0, r0, keys@, precomputed.1, (3 - i) as nat),
        decreases i,
    {
        i -= 1;
        let f = feistel(left, keys[i], right_mask);
        let new_left = right ^ f;
        let new_right = left;
        left = new_left;
        right = new_right;
    }

    proof {
        lemma_decode_in_domain(index, keys@, precomputed);
    }
    (left << half_bits) | right
}

} // verus!
