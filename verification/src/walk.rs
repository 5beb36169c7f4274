use vstd::prelude::*;

use vstd::set::axiom_set_insert_len;
use vstd::set_lib::{lemma_int_range, lemma_len_subset, set_int_range};

use crate::domain::{
    FeistelPrecomputed, Index, in_domain, lemma_index_in_domain, masks_wf, pow4, precomputed_for,
};
use crate::engine::{
    decode, decode_spec, encode, encode_spec, lemma_decode_encode, lemma_decode_in_domain,
    lemma_encode_in_domain,
};

verus! {

broadcast use vstd::set::group_set_axioms;

/// `k`-fold forward Feistel application to `index`: the values the cycle
/// walk of `permute` steps through.
pub open spec fn iter_encode(index: u64, keys: Seq<u64>, p: FeistelPrecomputed, k: nat) -> u64
    decreases k,
{
    if k == 0 {
        index
    } else {
        encode_spec(iter_encode(index, keys, p, (k - 1) as nat), keys, p)
    }
}

/// `k`-fold backward Feistel application to `index`: the values the cycle
/// walk of `invert_permute` steps through.
pub open spec fn iter_decode(index: u64, keys: Seq<u64>, p: FeistelPrecomputed, k: nat) -> u64
    decreases k,
{
    if k == 0 {
        index
    } else {
        decode_spec(iter_decode(index, keys, p, (k - 1) as nat), keys, p)
    }
}

/// The forward cycle walk from `index` exits after exactly `k` applications
/// with value `r`: the first `k - 1` intermediate values fall outside
/// `[0, n)` and the `k`-th lands inside.
pub open spec fn permute_exit(
    n: u64,
    index: u64,
    keys: Seq<u64>,
    p: FeistelPrecomputed,
    k: nat,
    r: u64,
) -> bool {
    &&& 1 <= k
    &&& r == iter_encode(index, keys, p, k)
    &&& r < n
    &&& forall|j: nat| 1 <= j < k ==> iter_encode(index, keys, p, j) >= n
}

/// The backward cycle walk from `index` exits after exactly `k` applications
/// with value `r`.
pub open spec fn invert_exit(
    n: u64,
    index: u64,
    keys: Seq<u64>,
    p: FeistelPrecomputed,
    k: nat,
    r: u64,
) -> bool {
    &&& 1 <= k
    &&& r == iter_decode(index, keys, p, k)
    &&& r < n
    &&& forall|j: nat| 1 <= j < k ==> iter_decode(index, keys, p, j) >= n
}

proof fn lemma_iter_encode_in_domain(index: u64, keys: Seq<u64>, p: FeistelPrecomputed, k: nat)
    requires
        masks_wf(p),
        in_domain(index, p),
    ensures
        in_domain(iter_encode(index, keys, p, k), p),
    decreases k,
{
    if k > 0 {
        lemma_iter_encode_in_domain(index, keys, p, (k - 1) as nat);
        lemma_encode_in_domain(iter_encode(index, keys, p, (k - 1) as nat), keys, p);
    }
}

/// Forward application is injective on the superset domain: it has `decode`
/// as a left inverse there.
proof fn lemma_encode_injective(a: u64, b: u64, keys: Seq<u64>, p: FeistelPrecomputed)
    requires
        masks_wf(p),
        keys.len() >= 3,
        in_domain(a, p),
        in_domain(b, p),
        encode_spec(a, keys, p) == encode_spec(b, keys, p),
    ensures
        a == b,
{
    lemma_decode_encode(a, keys, p);
    lemma_decode_encode(b, keys, p);
}

/// Two equal iterates can be cancelled down to the start of the orbit.
proof fn lemma_iter_cancel(index: u64, keys: Seq<u64>, p: FeistelPrecomputed, i: nat, j: nat)
    requires
        masks_wf(p),
        keys.len() >= 3,
        in_domain(index, p),
        i <= j,
        iter_encode(index, keys, p, i) == iter_encode(index, keys, p, j),
    ensures
        iter_encode(index, keys, p, (j - i) as nat) == index,
    decreases i,
{
    if i > 0 {
        lemma_iter_encode_in_domain(index, keys, p, (i - 1) as nat);
        lemma_iter_encode_in_domain(index, keys, p, (j - 1) as nat);
        lemma_encode_injective(
            iter_encode(index, keys, p, (i - 1) as nat),
            iter_encode(index, keys, p, (j - 1) as nat),
            keys,
            p,
        );
        lemma_iter_cancel(index, keys, p, (i - 1) as nat, (j - 1) as nat);
    }
}

/// The first `m` iterates, collected as a set of integers.
spec fn iter_vals(index: u64, keys: Seq<u64>, p: FeistelPrecomputed, m: nat) -> Set<int>
    decreases m,
{
    if m == 0 {
        Set::empty()
    } else {
        iter_vals(index, keys, p, (m - 1) as nat).insert(
            iter_encode(index, keys, p, (m - 1) as nat) as int,
        )
    }
}

proof fn lemma_iter_vals_mem(index: u64, keys: Seq<u64>, p: FeistelPrecomputed, m: nat, v: int)
    ensures
        iter_vals(index, keys, p, m).contains(v) <==> exists|k: nat|
            k < m && iter_encode(index, keys, p, k) as int == v,
    decreases m,
{
    if m == 0 {
        assert(iter_vals(index, keys, p, 0) =~= Set::empty());
    } else {
        lemma_iter_vals_mem(index, keys, p, (m - 1) as nat, v);
        let last = iter_encode(index, keys, p, (m - 1) as nat) as int;
        if iter_vals(index, keys, p, m).contains(v) {
            if v == last {
                assert(iter_encode(index, keys, p, (m - 1) as nat) as int == v);
            } else {
                let k = choose|k: nat| k < m - 1 && iter_encode(index, keys, p, k) as int == v;
                assert(k < m && iter_encode(index, keys, p, k) as int == v);
            }
        }
        if exists|k: nat| k < m && iter_encode(index, keys, p, k) as int == v {
            let k = choose|k: nat| k < m && iter_encode(index, keys, p, k) as int == v;
            if k < m - 1 {
                assert(iter_vals(index, keys, p, (m - 1) as nat).contains(v));
            } else {
                assert(v == last);
            }
        }
    }
}

/// While no two iterates collide, each new one grows the set: `m` pairwise
/// distinct iterates occupy `m` integers.
proof fn lemma_iter_vals_distinct_len(index: u64, keys: Seq<u64>, p: FeistelPrecomputed, m: nat)
    requires
        forall|i: nat, j: nat|
            i < j < m ==> iter_encode(index, keys, p, i) != iter_encode(index, keys, p, j),
    ensures
        iter_vals(index, keys, p, m).finite(),
        iter_vals(index, keys, p, m).len() == m,
    decreases m,
{
    if m > 0 {
        lemma_iter_vals_distinct_len(index, keys, p, (m - 1) as nat);
        let prev = iter_vals(index, keys, p, (m - 1) as nat);
        let last = iter_encode(index, keys, p, (m - 1) as nat) as int;
        lemma_iter_vals_mem(index, keys, p, (m - 1) as nat, last);
        if prev.contains(last) {
            let k = choose|k: nat| k < m - 1 && iter_encode(index, keys, p, k) as int == last;
            assert(iter_encode(index, keys, p, k) == iter_encode(index, keys, p, (m - 1) as nat));
            assert(false);
        }
        axiom_set_insert_len(prev, last);
    }
}

/// Pigeonhole: 64-bit values leave room for no more than `2^64` distinct
/// iterates, so some two of the first `2^64 + 1` collide.
proof fn lemma_iter_repeat(index: u64, keys: Seq<u64>, p: FeistelPrecomputed)
    ensures
        exists|i: nat, j: nat|
            i < j <= 0x1_0000_0000_0000_0000 && iter_encode(index, keys, p, i) == iter_encode(
                index,
                keys,
                p,
                j,
            ),
{
    let bound: nat = 0x1_0000_0000_0000_0000;
    if forall|i: nat, j: nat|
        i < j <= bound ==> iter_encode(index, keys, p, i) != iter_encode(index, keys, p, j) {
        lemma_iter_vals_distinct_len(index, keys, p, (bound + 1) as nat);
        let vals = iter_vals(index, keys, p, (bound + 1) as nat);
        assert forall|v: int| vals.contains(v) implies set_int_range(0, bound as int).contains(
            v,
        ) by {
            lemma_iter_vals_mem(index, keys, p, (bound + 1) as nat, v);
        }
        assert(vals.subset_of(set_int_range(0, bound as int)));
        lemma_int_range(0, bound as int);
        lemma_len_subset(vals, set_int_range(0, bound as int));
        assert(false);
    }
}

/// The orbit of `index` under forward application returns to `index`: the
/// walk cannot wander off, because forward application is injective on the
/// finite superset domain.
proof fn lemma_cycle_returns(index: u64, keys: Seq<u64>, p: FeistelPrecomputed)
    requires
        masks_wf(p),
        keys.len() >= 3,
        in_domain(index, p),
    ensures
        exists|k: nat| 1 <= k && iter_encode(index, keys, p, k) == index,
{
    lemma_iter_repeat(index, keys, p);
    let (i, j) = choose|i: nat, j: nat|
        i < j <= 0x1_0000_0000_0000_0000 && iter_encode(index, keys, p, i) == iter_encode(
            index,
            keys,
            p,
            j,
        );
    lemma_iter_cancel(index, keys, p, i, j);
    assert(1 <= (j - i) as nat && iter_encode(index, keys, p, (j - i) as nat) == index);
}

/// Walking backward from the `k`-th forward iterate retraces the forward
/// orbit step for step.
proof fn lemma_iter_decode_of_encode(
    x: u64,
    keys: Seq<u64>,
    p: FeistelPrecomputed,
    k: nat,
    j: nat,
)
    requires
        masks_wf(p),
        keys.len() >= 3,
        in_domain(x, p),
        j <= k,
    ensures
        iter_decode(iter_encode(x, keys, p, k), keys, p, j) == iter_encode(
            x,
            keys,
            p,
            (k - j) as nat,
        ),
    decreases j,
{
    if j > 0 {
        lemma_iter_decode_of_encode(x, keys, p, k, (j - 1) as nat);
        assert(iter_encode(x, keys, p, (k - j + 1) as nat) == encode_spec(
            iter_encode(x, keys, p, (k - j) as nat),
            keys,
            p,
        ));
        lemma_iter_encode_in_domain(x, keys, p, (k - j) as nat);
        lemma_decode_encode(iter_encode(x, keys, p, (k - j) as nat), keys, p);
    }
}

/// The orbit of `index` under backward application also returns to `index`.
proof fn lemma_decode_cycle_returns(index: u64, keys: Seq<u64>, p: FeistelPrecomputed)
    requires
        masks_wf(p),
        keys.len() >= 3,
        in_domain(index, p),
    ensures
        exists|k: nat| 1 <= k && iter_decode(index, keys, p, k) == index,
{
    lemma_cycle_returns(index, keys, p);
    let kk = choose|k: nat| 1 <= k && iter_encode(index, keys, p, k) == index;
    lemma_iter_decode_of_encode(index, keys, p, kk, kk);
    assert(1 <= kk && iter_decode(index, keys, p, kk) == index);
}

/// Pseudo-randomly shuffle `index` to another position of `[0, num_elements)`
/// by cycle walking: apply the forward Feistel network until the value lands
/// back inside the range. The result is pinned down exactly: it is the first
/// forward iterate of `index` below `num_elements`.
pub fn permute(
    num_elements: Index,
    index: Index,
    keys: &[Index],
    precomputed: FeistelPrecomputed,
) -> (r: Index)
    requires
        precomputed_for(precomputed, num_elements),
        index < num_elements,
        keys@.len() >= 3,
    ensures
        r < num_elements,
        exists|k: nat| permute_exit(num_elements, index, keys@, precomputed, k, r),
{
    proof {
        lemma_index_in_domain(index, num_elements, precomputed);
        lemma_cycle_returns(index, keys@, precomputed);
    }
    let ghost kw: nat = choose|k: nat|
        1 <= k && iter_encode(index, keys@, precomputed, k) == index;
    let ghost mut step: nat = 1;

    let mut u = encode(index, keys, precomputed);
    proof {
        assert(iter_encode(index, keys@, precomputed, 0) == index);
        assert(iter_encode(index, keys@, precomputed, 1) == encode_spec(
            index,
            keys@,
            precomputed,
        ));
    }

    while u >= num_elements
        invariant
            precomputed_for(precomputed, num_elements),
            keys@.len() >= 3,
            index < num_elements,
            1 <= step <= kw,
            iter_encode(index, keys@, precomputed, kw) == index,
            u == iter_encode(index, keys@, precomputed, step),
            forall|j: nat| 1 <= j < step ==> iter_encode(index, keys@, precomputed, j)
                >= num_elements,
        decreases kw - step,
    {
        proof {
            assert(step < kw);
        }
        u = encode(u, keys, precomputed);
        proof {
            assert(iter_encode(index, keys@, precomputed, (step + 1) as nat) == encode_spec(
                iter_encode(index, keys@, precomputed, step),
                keys@,
                precomputed,
            ));
            step = step + 1;
        }
    }

    proof {
        assert(permute_exit(num_elements, index, keys@, precomputed, step, u));
    }
    u
}

/// Undo `permute` for the same key schedule: apply the backward Feistel
/// network until the value lands back inside `[0, num_elements)`.
pub fn invert_permute(
    num_elements: Index,
    index: Index,
    keys: &[Index],
    precomputed: FeistelPrecomputed,
) -> (r: Index)
    requires
        precomputed_for(precomputed, num_elements),
        index < num_elements,
        keys@.len() >= 3,
    ensures
        r < num_elements,
        exists|k: nat| invert_exit(num_elements, index, keys@, precomputed, k, r),
{
    proof {
        lemma_index_in_domain(index, num_elements, precomputed);
        lemma_decode_cycle_returns(index, keys@, precomputed);
    }
    let ghost kw: nat = choose|k: nat|
        1 <= k && iter_decode(index, keys@, precomputed, k) == index;
    let ghost mut step: nat = 1;

    let mut u = decode(index, keys, precomputed);
    proof {
        assert(iter_decode(index, keys@, precomputed, 0) == index);
        assert(iter_decode(index, keys@, precomputed, 1) == decode_spec(
            index,
            keys@,
            precomputed,
        ));
    }

    while u >= num_elements
        invariant
            precomputed_for(precomputed, num_elements),
            keys@.len() >= 3,
            index < num_elements,
            1 <= step <= kw,
            iter_decode(index, keys@, precomputed, kw) == index,
            u == iter_decode(index, keys@, precomputed, step),
            forall|j: nat| 1 <= j < step ==> iter_decode(index, keys@, precomputed, j)
                >= num_elements,
        decreases kw - step,
    {
        proof {
            assert(step < kw);
        }
        u = decode(u, keys, precomputed);
        proof {
            assert(iter_decode(index, keys@, precomputed, (step + 1) as nat) == decode_spec(
                iter_decode(index, keys@, precomputed, step),
                keys@,
                precomputed,
            ));
            step = step + 1;
        }
    }

    proof {
        assert(invert_exit(num_elements, index, keys@, precomputed, step, u));
    }
    u
}

/// Law: the backward walk undoes the forward walk for every domain size.
/// Whenever the forward walk from `index` exits with `r1` and the backward
/// walk from `r1` exits with `r2`, then `r2` is `index` again, after the same
/// number of applications.
pub proof fn lemma_permute_then_invert(
    n: u64,
    index: u64,
    keys: Seq<u64>,
    p: FeistelPrecomputed,
    k1: nat,
    r1: u64,
    k2: nat,
    r2: u64,
)
    requires
        precomputed_for(p, n),
        keys.len() >= 3,
        index < n,
        permute_exit(n, index, keys, p, k1, r1),
        invert_exit(n, r1, keys, p, k2, r2),
    ensures
        r2 == index,
        k2 == k1,
{
    lemma_index_in_domain(index, n, p);
    assert forall|j: nat| j <= k1 implies iter_decode(r1, keys, p, j) == iter_encode(
        index,
        keys,
        p,
        (k1 - j) as nat,
    ) by {
        lemma_iter_decode_of_encode(index, keys, p, k1, j);
    }
    assert(iter_decode(r1, keys, p, k1) == index);
    if k2 < k1 {
        assert(iter_decode(r1, keys, p, k2) == iter_encode(index, keys, p, (k1 - k2) as nat));
        assert(iter_encode(index, keys, p, (k1 - k2) as nat) >= n);
        assert(false);
    }
    if k2 > k1 {
        assert(iter_decode(r1, keys, p, k1) >= n);
        assert(false);
    }
}

/// Law: when `num_elements` is the power of 4 of its half-width it fills the
/// superset domain, so the forward walk exits on the very first application:
/// `permute` reduces to a single `encode`.
pub proof fn lemma_power_of_4_single_encode(
    n: u64,
    index: u64,
    keys: Seq<u64>,
    p: FeistelPrecomputed,
    k: nat,
    r: u64,
)
    requires
        precomputed_for(p, n),
        n == pow4(p.2 as nat),
        keys.len() >= 3,
        permute_exit(n, index, keys, p, k, r),
    ensures
        k == 1,
        r == encode_spec(index, keys, p),
{
    lemma_encode_in_domain(index, keys, p);
    crate::domain::lemma_in_domain_lt(encode_spec(index, keys, p), n, p);
    assert(iter_encode(index, keys, p, 0) == index);
    assert(iter_encode(index, keys, p, 1) == encode_spec(index, keys, p));
    if k > 1 {
        assert(iter_encode(index, keys, p, 1) >= n);
        assert(false);
    }
}

/// Law: when `num_elements` is the power of 4 of its half-width, the backward
/// walk likewise exits at once: `invert_permute` reduces to a single `decode`.
pub proof fn lemma_power_of_4_single_decode(
    n: u64,
    index: u64,
    keys: Seq<u64>,
    p: FeistelPrecomputed,
    k: nat,
    r: u64,
)
    requires
        precomputed_for(p, n),
        n == pow4(p.2 as nat),
        keys.len() >= 3,
        invert_exit(n, index, keys, p, k, r),
    ensures
        k == 1,
        r == decode_spec(index, keys, p),
{
    lemma_decode_in_domain(index, keys, p);
    crate::domain::lemma_in_domain_lt(decode_spec(index, keys, p), n, p);
    assert(iter_decode(index, keys, p, 0) == index);
    assert(iter_decode(index, keys, p, 1) == decode_spec(index, keys, p));
    if k > 1 {
        assert(iter_decode(index, keys, p, 1) >= n);
        assert(false);
    }
}

/// Law: the exit of a forward walk is unique, so `permute` is a function of
/// `(num_elements, index, keys, precomputed)` alone — repeated calls agree.
pub proof fn lemma_permute_exit_unique(
    n: u64,
    index: u64,
    keys: Seq<u64>,
    p: FeistelPrecomputed,
    ka: nat,
    ra: u64,
    kb: nat,
    rb: u64,
)
    requires
        permute_exit(n, index, keys, p, ka, ra),
        permute_exit(n, index, keys, p, kb, rb),
    ensures
        ra == rb,
        ka == kb,
{
    if ka < kb {
        assert(iter_encode(index, keys, p, ka) >= n);
        assert(false);
    }
    if kb < ka {
        assert(iter_encode(index, keys, p, kb) >= n);
        assert(false);
    }
}

/// Law: the exit of a backward walk is unique, so `invert_permute` is a
/// function of its inputs alone — repeated calls agree.
pub proof fn lemma_invert_exit_unique(
    n: u64,
    index: u64,
    keys: Seq<u64>,
    p: FeistelPrecomputed,
    ka: nat,
    ra: u64,
    kb: nat,
    rb: u64,
)
    requires
        invert_exit(n, index, keys, p, ka, ra),
        invert_exit(n, index, keys, p, kb, rb),
    ensures
        ra == rb,
        ka == kb,
{
    if ka < kb {
        assert(iter_decode(index, keys, p, ka) >= n);
        assert(false);
    }
    if kb < ka {
        assert(iter_decode(index, keys, p, kb) >= n);
        assert(false);
    }
}

} // verus!

