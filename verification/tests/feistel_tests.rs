use feistel::{decode, encode, invert_permute, permute, precompute};

// Some sample n-values which are not powers of four and also don't
// coincidentally happen to encode/decode correctly.
const BAD_NS: &[u64] = &[5, 6, 8, 12, 17];

fn encode_decode(n: u64, expect_success: bool) {
    let mut failed: bool = false;
    let precomputed = precompute(n);
    for i in 0..n {
        let p = encode(i, &[1, 2, 3, 4], precomputed);
        let v = decode(p, &[1, 2, 3, 4], precomputed);
        let equal: bool = i == v;
        let in_range: bool = p <= n;
        if expect_success {
            assert!(equal, "failed to permute (n = {})", n);
            assert!(in_range, "output number is too big (n = {})", n);
        } else {
            if !equal || !in_range {
                failed = true;
            }
        }
    }
    if !expect_success {
        assert!(failed, "expected failure (n = {})", n);
    }
}

#[test]
fn test_feistel_power_of_4() {
    // Powers of 4 always succeed.
    let mut n: u64 = 1;
    for _ in 0..4 {
        n *= 4;
        encode_decode(n, true);
    }

    // Some non-power-of-4 values also succeed, but here is a selection of
    // examples showing that this is not guaranteed.
    for i in BAD_NS.iter() {
        encode_decode(*i, false);
    }
}

#[test]
fn test_feistel_on_arbitrary_set() {
    for n in BAD_NS.iter() {
        let precomputed = precompute(*n);
        for i in 0..*n {
            let p = permute(*n, i, &[1, 2, 3, 4], precomputed);
            let v = invert_permute(*n, p, &[1, 2, 3, 4], precomputed);
            // Since every element in the set is reversibly mapped to another
            // element also in the set, this is indeed a permutation.
            assert_eq!(i, v, "failed to permute");
            assert!(p <= *n, "output number is too big");
        }
    }
}
