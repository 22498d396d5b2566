//! Coalitions of features encoded as bit masks, and binomial coefficients.
use vstd::prelude::*;
use vstd::arithmetic::power2::pow2;
use vstd::bits::{lemma_u64_pow2_no_overflow, lemma_u64_shl_is_mul, lemma_u64_shr_is_div};
use core::ops::Range;

verus! {

/// The number of coalitions of `n` features that the mask range covers:
/// `2^n` while a mask fits comfortably in 63 bits, and none otherwise.
pub open spec fn coalition_count(n: nat) -> nat {
    if n < 63 {
        pow2(n)
    } else {
        0
    }
}

/// Feature `i` belongs to the coalition encoded by `mask` (bit `i` is set).
pub open spec fn is_member(mask: u64, i: nat) -> bool {
    (mask as nat / pow2(i)) % 2 == 1
}

/// Every coalition mask of `n` features, `0..2^n`; empty when `n >= 63`.
pub fn all(n: usize) -> (r: Range<u64>)
    ensures
        r.start == 0,
        r.end as nat == coalition_count(n as nat),
{
    if n < 63 {
        let shift = n as u64;
        proof {
            lemma_u64_pow2_no_overflow(shift as nat);
            lemma_u64_shl_is_mul(1, shift);
        }
        0..(1u64 << shift)
    } else {
        0..0
    }
}

/// The membership flags of features `0..n` in `mask`.
pub fn members(mask: u64, n: usize) -> (r: Vec<bool>)
    requires
        n <= 64,
    ensures
        r.len() == n,
        forall|i: int| 0 <= i < n ==> r@[i] == is_member(mask, i as nat),
{
    let mut r: Vec<bool> = Vec::new();
    let mut i: usize = 0;
    while i < n
        invariant
            n <= 64,
            i <= n,
            r.len() == i,
            forall|x: int| 0 <= x < i ==> r@[x] == is_member(mask, x as nat),
        decreases n - i,
    {
        let shift = i as u64;
        let bit = mask & (1u64 << shift) != 0;
        proof {
            assert((mask & (1u64 << shift) != 0) == ((mask >> shift) & 1 == 1)) by (bit_vector)
                requires
                    shift < 64,
            ;
            let q = mask >> shift;
            assert((q & 1 == 1) == (q % 2 == 1)) by (bit_vector);
            lemma_u64_shr_is_div(mask, shift);
        }
        r.push(bit);
        i = i + 1;
    }
    r
}

/// The union of `items[p]` over the positions `p < c` that belong to the
/// subset encoded by `s`.
pub open spec fn subset_union(s: u64, items: Seq<u64>, c: nat) -> u64
    decreases c,
{
    if c == 0 {
        0
    } else if is_member(s, (c - 1) as nat) {
        subset_union(s, items, (c - 1) as nat) | items[c - 1]
    } else {
        subset_union(s, items, (c - 1) as nat)
    }
}

/// How many of the positions `p < c` belong to the subset encoded by `s`.
pub open spec fn subset_size(s: u64, c: nat) -> nat
    decreases c,
{
    if c == 0 {
        0
    } else if is_member(s, (c - 1) as nat) {
        subset_size(s, (c - 1) as nat) + 1
    } else {
        subset_size(s, (c - 1) as nat)
    }
}

/// For each subset `s` of the positions of `items`, in the order `0..2^n`:
/// the union of the chosen items and how many were chosen.
pub open spec fn subset_table(items: Seq<u64>) -> Seq<(u64, usize)> {
    Seq::new(
        pow2(items.len()),
        |s: int|
            (
                subset_union(s as u64, items, items.len()),
                subset_size(s as u64, items.len()) as usize,
            ),
    )
}

/// The positions `p < c` that belong to the subset encoded by `s`.
pub open spec fn chosen_positions(s: u64, c: nat) -> Set<int> {
    Set::new(|p: int| 0 <= p < c && is_member(s, p as nat))
}

/// The count kept for a subset is the number of positions it holds: the
/// popcount of `s` among the first `c` positions.
pub proof fn lemma_subset_size_counts_members(s: u64, c: nat)
    ensures
        chosen_positions(s, c).finite(),
        subset_size(s, c) == chosen_positions(s, c).len(),
        subset_size(s, c) <= c,
    decreases c,
{
    if c == 0 {
        assert(chosen_positions(s, c) =~= Set::<int>::empty());
    } else {
        let prev = (c - 1) as nat;
        lemma_subset_size_counts_members(s, prev);
        let before = chosen_positions(s, prev);
        assert(!before.contains(prev as int));
        if is_member(s, prev) {
            assert(chosen_positions(s, c) =~= before.insert(prev as int));
        } else {
            assert(chosen_positions(s, c) =~= before);
        }
    }
}

/// Bit `b` of a mask, read by shifting, is membership of `b`.
proof fn lemma_member_bit(x: u64, b: u64)
    requires
        b < 64,
    ensures
        is_member(x, b as nat) <==> (x >> b) & 1 == 1,
{
    lemma_u64_shr_is_div(x, b);
    let q = x >> b;
    assert((q & 1 == 1) == (q % 2 == 1)) by (bit_vector);
}

/// The union kept for a subset holds a feature exactly when one of the
/// chosen items holds it.
pub proof fn lemma_subset_union_members(s: u64, items: Seq<u64>, c: nat, b: u64)
    requires
        c <= items.len(),
        b < 64,
    ensures
        is_member(subset_union(s, items, c), b as nat) <==> exists|p: int|
            0 <= p < c && is_member(s, p as nat) && #[trigger] is_member(items[p], b as nat),
    decreases c,
{
    let u = subset_union(s, items, c);
    lemma_member_bit(u, b);
    if c == 0 {
        assert((0u64 >> b) & 1 == 0) by (bit_vector);
    } else {
        let prev = (c - 1) as nat;
        let v = subset_union(s, items, prev);
        let it = items[prev as int];
        lemma_subset_union_members(s, items, prev, b);
        lemma_member_bit(v, b);
        lemma_member_bit(it, b);
        assert(((v | it) >> b) & 1 == 1 <==> ((v >> b) & 1 == 1 || (it >> b) & 1 == 1)) by (bit_vector)
            requires
                b < 64,
        ;
        if is_member(u, b as nat) {
            if is_member(s, prev) && is_member(it, b as nat) {
                assert(is_member(items[prev as int], b as nat));
            }
        }
        if exists|p: int| 0 <= p < c && is_member(s, p as nat) && #[trigger] is_member(items[p], b as nat) {
            let p = choose|p: int| 0 <= p < c && is_member(s, p as nat) && #[trigger] is_member(items[p], b as nat);
            if p < prev {
                assert(is_member(v, b as nat));
            }
        }
    }
}

/// Enumerates the subsets of `items` by mask: entry `s` holds the union of
/// the items at the positions set in `s` and the number of those positions.
pub fn subset_unions(items: &Vec<u64>) -> (r: Vec<(u64, usize)>)
    requires
        items.len() < 64,
    ensures
        r@ == subset_table(items@),
        r@.len() == pow2(items@.len()),
        forall|s: int|
            0 <= s < r@.len() ==> (#[trigger] r@[s]).1 == chosen_positions(s as u64, items@.len()).len(),
        forall|s: int, b: u64|
            0 <= s < r@.len() && b < 64 ==> (#[trigger] is_member(r@[s].0, b as nat) <==> exists|p: int|
                0 <= p < items@.len() && is_member(s as u64, p as nat) && #[trigger] is_member(items@[p], b as nat)),
{
    let n = items.len();
    let shift = n as u64;
    proof {
        lemma_u64_pow2_no_overflow(shift as nat);
        lemma_u64_shl_is_mul(1, shift);
    }
    let limit: u64 = 1u64 << shift;
    let mut r: Vec<(u64, usize)> = Vec::new();
    let mut s: u64 = 0;
    while s < limit
        invariant
            n == items.len(),
            n < 64,
            limit as nat == pow2(n as nat),
            s <= limit,
            r@.len() == s,
            forall|t: int| 0 <= t < s ==> #[trigger] r@[t] == subset_table(items@)[t],
        decreases limit - s,
    {
        let mut mask: u64 = 0;
        let mut size: usize = 0;
        let mut p: usize = 0;
        while p < n
            invariant
                n == items.len(),
                n < 64,
                p <= n,
                size <= p,
                mask == subset_union(s, items@, p as nat),
                size == subset_size(s, p as nat),
            decreases n - p,
        {
            let at = p as u64;
            let taken = (s >> at) & 1 == 1;
            proof {
                let q = s >> at;
                assert((q & 1 == 1) == (q % 2 == 1)) by (bit_vector);
                lemma_u64_shr_is_div(s, at);
            }
            if taken {
                mask = mask | items[p];
                size = size + 1;
            }
            p = p + 1;
        }
        r.push((mask, size));
        s = s + 1;
    }
    assert(r@ =~= subset_table(items@));
    proof {
        assert forall|t: int| 0 <= t < r@.len() implies (#[trigger] r@[t]).1 == chosen_positions(
            t as u64,
            items@.len(),
        ).len() by {
            lemma_subset_size_counts_members(t as u64, items@.len());
            assert(r@[t] == subset_table(items@)[t]);
        }
        assert forall|t: int, b: u64| 0 <= t < r@.len() && b < 64 implies (#[trigger] is_member(r@[t].0, b as nat)
            <==> exists|p: int|
            0 <= p < items@.len() && is_member(t as u64, p as nat) && #[trigger] is_member(items@[p], b as nat)) by {
            lemma_subset_union_members(t as u64, items@, items@.len(), b);
        }
    }
    r
}

/// The binomial coefficient, by Pascal's rule.
pub open spec fn binom(n: nat, k: nat) -> nat
    decreases n,
{
    if k == 0 {
        1
    } else if n == 0 {
        0
    } else {
        binom((n - 1) as nat, (k - 1) as nat) + binom((n - 1) as nat, k)
    }
}

/// More items than the set holds cannot be chosen.
pub proof fn lemma_binom_too_many(n: nat, k: nat)
    requires
        k > n,
    ensures
        binom(n, k) == 0,
    decreases n,
{
    if n > 0 {
        lemma_binom_too_many((n - 1) as nat, (k - 1) as nat);
        lemma_binom_too_many((n - 1) as nat, k);
    }
}

proof fn lemma_binom_one(n: nat)
    ensures
        binom(n, 1) == n,
    decreases n,
{
    if n > 0 {
        lemma_binom_one((n - 1) as nat);
        assert(binom(n, 1) == binom((n - 1) as nat, 0) + binom((n - 1) as nat, 1));
    }
}

/// Absorption: `k * C(n, k) == n * C(n - 1, k - 1)`.
proof fn lemma_binom_absorb(n: nat, k: nat)
    requires
        n >= 1,
        k >= 1,
    ensures
        k * binom(n, k) == n * binom((n - 1) as nat, (k - 1) as nat),
    decreases n,
{
    if k == 1 {
        lemma_binom_one(n);
        let z = binom((n - 1) as nat, 0);
        assert(z == 1);
        assert(1 * binom(n, 1) == n * z) by (nonlinear_arith)
            requires
                binom(n, 1) == n,
                z == 1,
        ;
    } else if n == 1 {
        lemma_binom_too_many(1, k);
        lemma_binom_too_many(0, (k - 1) as nat);
        let z = binom(0, (k - 1) as nat);
        assert(k * binom(n, k) == n * z) by (nonlinear_arith)
            requires
                binom(n, k) == 0,
                z == 0,
        ;
    } else {
        let a = binom((n - 2) as nat, (k - 2) as nat);
        let b = binom((n - 2) as nat, (k - 1) as nat);
        let c = binom((n - 1) as nat, (k - 1) as nat);
        let d = binom((n - 1) as nat, k);
        lemma_binom_absorb((n - 1) as nat, k);
        lemma_binom_absorb((n - 1) as nat, (k - 1) as nat);
        assert(binom(n, k) == c + d);
        assert(c == a + b);
        assert(k * d == (n - 1) * b);
        assert((k - 1) * c == (n - 1) * a);
        assert(k * (c + d) == n * c) by (nonlinear_arith)
            requires
                k * d == (n - 1) * b,
                (k - 1) * c == (n - 1) * a,
                c == a + b,
        ;
        assert(k * binom(n, k) == k * (c + d));
    }
}

/// One multiplicative step: `C(n, i) * (n - i) == C(n, i + 1) * (i + 1)`.
pub proof fn lemma_binom_step(n: nat, i: nat)
    requires
        i < n,
    ensures
        binom(n, i) * (n - i) == binom(n, i + 1) * (i + 1),
{
    lemma_binom_absorb(n, i + 1);
    let e = binom((n - 1) as nat, i);
    let lhs = binom(n, i);
    let rhs = binom(n, i + 1);
    assert((i + 1) * rhs == n * e);
    if i == 0 {
        lemma_binom_one(n);
        assert(lhs == 1);
        assert(rhs == n);
        assert(lhs * (n - i) == rhs * (i + 1)) by (nonlinear_arith)
            requires
                lhs == 1,
                rhs == n,
                i == 0,
        ;
    } else {
        lemma_binom_absorb(n, i);
        let f = binom((n - 1) as nat, (i - 1) as nat);
        assert(i * lhs == n * f);
        assert(lhs == f + e);
        assert(lhs * (n - i) == rhs * (i + 1)) by (nonlinear_arith)
            requires
                i * lhs == n * f,
                lhs == f + e,
                (i + 1) * rhs == n * e,
                i < n,
        ;
    }
}

/// Symmetry: choosing `k` items is choosing the `n - k` left out.
pub proof fn lemma_binom_symmetric(n: nat, k: nat)
    requires
        k <= n,
    ensures
        binom(n, k) == binom(n, (n - k) as nat),
    decreases n,
{
    if n == 0 {
    } else if k == 0 {
        lemma_binom_all(n);
        assert((n - k) as nat == n);
    } else if k == n {
        lemma_binom_all(n);
        assert((n - k) as nat == 0);
    } else {
        let m = (n - 1) as nat;
        lemma_binom_symmetric(m, (k - 1) as nat);
        lemma_binom_symmetric(m, k);
        assert((m - (k - 1) as nat) as nat == (n - k) as nat);
        assert((m - k) as nat == (n - k - 1) as nat);
        assert(binom(n, k) == binom(m, (k - 1) as nat) + binom(m, k));
        assert(binom(n, (n - k) as nat) == binom(m, (n - k - 1) as nat) + binom(m, (n - k) as nat));
    }
}

proof fn lemma_binom_all(n: nat)
    ensures
        binom(n, n) == 1,
    decreases n,
{
    if n > 0 {
        lemma_binom_all((n - 1) as nat);
        lemma_binom_too_many((n - 1) as nat, n);
    }
}

/// Every partial product of the multiplicative formula for `C(n, k)`
/// (taken over the smaller of `k` and `n - k`) fits in `u128`.
pub open spec fn binomial_fits_u128(n: nat, k: nat) -> bool {
    let kk = if k <= n - k { k } else { (n - k) as nat };
    k > n || forall|i: nat| i < kk ==> #[trigger] binom(n, i) * (n - i) <= u128::MAX
}

/// The binomial coefficient `C(n, k)` (zero when `k > n`), computed by the
/// exact multiplicative formula over `min(k, n - k)` steps.
pub fn binomial(n: usize, k: usize) -> (r: u128)
    requires
        binomial_fits_u128(n as nat, k as nat),
    ensures
        r == binom(n as nat, k as nat),
{
    if k > n {
        proof {
            lemma_binom_too_many(n as nat, k as nat);
        }
        return 0;
    }
    let kk = if k <= n - k { k } else { n - k };
    proof {
        lemma_binom_symmetric(n as nat, k as nat);
    }
    let mut v: u128 = 1;
    let mut i: usize = 0;
    while i < kk
        invariant
            kk <= n,
            k <= n,
            i <= kk,
            kk == if k <= n - k { k } else { (n - k) as usize },
            binomial_fits_u128(n as nat, k as nat),
            v == binom(n as nat, i as nat),
        decreases kk - i,
    {
        proof {
            lemma_binom_step(n as nat, i as nat);
            assert(binom(n as nat, i as nat) * (n as nat - i as nat) <= u128::MAX);
        }
        let product = v * ((n - i) as u128);
        let next = product / ((i + 1) as u128);
        proof {
            let c = binom(n as nat, (i + 1) as nat);
            assert(product == c * (i + 1));
            assert((c * (i + 1)) / (i + 1) == c) by (nonlinear_arith)
                requires
                    i + 1 > 0,
            ;
        }
        v = next;
        i = i + 1;
    }
    v
}

/// The bit mixer behind per-sample seeds (the SplitMix64 finaliser).
pub open spec fn mix(value: u64) -> u64 {
    let a = value ^ (value >> 30u64);
    let b = a.wrapping_mul(0xBF58_476D_1CE4_E5B9u64);
    let c = b ^ (b >> 27u64);
    let d = c.wrapping_mul(0x94D0_49BB_1331_11EBu64);
    d ^ (d >> 31u64)
}

/// The seed for one sample: the mixed base seed, folded with each of the
/// sample's value bit patterns in turn.
pub open spec fn seed_of(seed: u64, bits: Seq<u64>) -> u64
    decreases bits.len(),
{
    if bits.len() == 0 {
        mix(seed)
    } else {
        mix(seed_of(seed, bits.drop_last()) ^ mix(bits.last()))
    }
}

fn mix_bits(value: u64) -> (r: u64)
    ensures
        r == mix(value),
{
    let a = value ^ (value >> 30u64);
    let b = a.wrapping_mul(0xBF58_476D_1CE4_E5B9u64);
    let c = b ^ (b >> 27u64);
    let d = c.wrapping_mul(0x94D0_49BB_1331_11EBu64);
    d ^ (d >> 31u64)
}

/// A stable generator seed derived from a base seed and the exact bit
/// patterns of one sample's values: equal samples get equal seeds.
pub fn sample_seed(seed: u64, bits: &[u64]) -> (r: u64)
    ensures
        r == seed_of(seed, bits@),
{
    let mut state = mix_bits(seed);
    let mut i: usize = 0;
    while i < bits.len()
        invariant
            i <= bits@.len(),
            state == seed_of(seed, bits@.take(i as int)),
        decreases bits@.len() - i,
    {
        proof {
            assert(bits@.take(i + 1).drop_last() =~= bits@.take(i as int));
        }
        state = mix_bits(state ^ mix_bits(bits[i]));
        i = i + 1;
    }
    assert(bits@.take(bits@.len() as int) =~= bits@);
    state
}

} // verus!
