use feistel::{decode, encode, invert_permute, permute, precompute};

#[test]
fn precompute_gives_smallest_half_bits() {
    // half_bits is the least positive h with 4^h >= n.
    assert_eq!(precompute(1).2, 1);
    assert_eq!(precompute(4).2, 1);
    assert_eq!(precompute(5).2, 2);
    assert_eq!(precompute(16).2, 2);
    assert_eq!(precompute(17).2, 3);
    assert_eq!(precompute(64).2, 3);
    assert_eq!(precompute(65).2, 4);
    assert_eq!(precompute(256).2, 4);
}

#[test]
fn precompute_mask_values() {
    // (left_mask, right_mask, half_bits) for a 16-element domain.
    let p = precompute(16);
    assert_eq!(p, (0b1100, 0b0011, 2));
    // ... and for a domain that needs a strictly larger superset.
    let q = precompute(17);
    assert_eq!(q, (0b111000, 0b000111, 3));
}

#[test]
fn superset_round_trip_everywhere() {
    // decode(encode(x)) == x over the whole 2*half_bits superset domain,
    // including values at and above n.
    let n: u64 = 5;
    let p = precompute(n); // half_bits = 2, superset [0, 16)
    let keys: &[u64] = &[7, 11, 13];
    for x in 0..16u64 {
        assert_eq!(decode(encode(x, keys, p), keys, p), x);
    }
}

#[test]
fn permute_is_deterministic() {
    // Identical inputs always yield identical outputs.
    let p = precompute(12);
    let keys: &[u64] = &[1, 2, 3, 4];
    for i in 0..12u64 {
        let a = permute(12, i, keys, p);
        let b = permute(12, i, keys, p);
        assert_eq!(a, b);
        let c = invert_permute(12, a, keys, p);
        let d = invert_permute(12, a, keys, p);
        assert_eq!(c, d);
    }
}

#[test]
fn power_of_4_is_true_permutation() {
    // n = 16, K = [1,2,3,4]: half_bits is 2 and iterating 0..16 through
    // permute yields each value of 0..16 exactly once.
    let p = precompute(16);
    assert_eq!(p.2, 2);
    let keys: &[u64] = &[1, 2, 3, 4];
    let mut seen: Vec<bool> = vec![false; 16];
    for i in 0..16u64 {
        let out = permute(16, i, keys, p);
        assert!(out < 16);
        assert!(!seen[out as usize], "value {} produced twice", out);
        seen[out as usize] = true;
        assert_eq!(invert_permute(16, out, keys, p), i);
    }
    assert!(seen.iter().all(|s| *s));
}

#[test]
fn changing_a_consumed_key_changes_some_output() {
    // Holding n and the indices fixed, changing one consumed key must change
    // the output for at least one index: the keys are really mixed in. The
    // round function reduces the digest to an OR of eight bytes cut down by
    // the right mask, so many pairs of key values collide in it; scan for a
    // replacement value that escapes the collision.
    let n: u64 = 256;
    let p = precompute(n);
    let base: Vec<u64> = vec![1, 2, 3, 4];
    for slot in 0..3usize {
        let mut found: Option<u64> = None;
        for replacement in 0..5000u64 {
            if replacement == base[slot] {
                continue;
            }
            let mut keys: Vec<u64> = base.clone();
            keys[slot] = replacement;
            if permute(n, 0, base.as_slice(), p) != permute(n, 0, keys.as_slice(), p) {
                found = Some(replacement);
                break;
            }
        }
        let replacement = found.expect("no key replacement changed any output");
        let mut keys: Vec<u64> = base.clone();
        keys[slot] = replacement;
        let mut differs: bool = false;
        for i in 0..n {
            if permute(n, i, base.as_slice(), p) != permute(n, i, keys.as_slice(), p) {
                differs = true;
            }
        }
        assert!(differs, "changing key {} changed no output", slot);
    }
}

#[test]
fn fourth_key_is_never_consumed() {
    // The round count is fixed at three, so the key schedule beyond the
    // third entry cannot influence the permutation.
    let p = precompute(64);
    for i in 0..64u64 {
        assert_eq!(
            permute(64, i, &[1, 2, 3], p),
            permute(64, i, &[1, 2, 3, 100], p)
        );
    }
}

#[test]
fn single_element_domain_maps_to_itself() {
    // The walk from 0 must come back to 0: the only value below n = 1.
    let p = precompute(1);
    let keys: &[u64] = &[3, 1, 4];
    assert_eq!(permute(1, 0, keys, p), 0);
    assert_eq!(invert_permute(1, 0, keys, p), 0);
}

#[test]
fn largest_domain_size_round_trips() {
    // The largest accepted domain size, the full power of 4 a word holds.
    let n: u64 = 0x4000_0000_0000_0000;
    let p = precompute(n);
    assert_eq!(p.2, 31);
    let keys: &[u64] = &[5, 6, 7];
    for i in [0u64, 1, 123_456_789, n - 1] {
        let out = permute(n, i, keys, p);
        assert!(out < n);
        assert_eq!(invert_permute(n, out, keys, p), i);
    }
}
