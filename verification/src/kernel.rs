//! Counting helpers used by the Shapley kernel weights, and the coalition
//! rows of a sampled Kernel SHAP regression.
use vstd::prelude::*;
use rand::rngs::StdRng;
use crate::coalition::{binom, lemma_binom_step, lemma_binom_symmetric, lemma_binom_too_many};
use crate::explainers::partition::{lemma_rearrangement_lists_each_once, lists_each_feature_once};
use crate::explainers::permutation::identity_order;
use crate::random::{choose_item, shuffle};

verus! {

/// Every partial product of the multiplicative formula for `C(n, k)`
/// (taken over the smaller of `k` and `n - k`) fits in `usize`.
pub open spec fn n_choose_k_fits(n: nat, k: nat) -> bool {
    let kk = if k <= n - k { k } else { (n - k) as nat };
    k > n || forall|i: nat| i < kk ==> #[trigger] binom(n, i) * (n - i) <= usize::MAX
}

/// `C(n, k)`: zero when `k > n`, one when `k` is `0` or `n`, otherwise the
/// exact multiplicative formula over `min(k, n - k)` steps.
pub fn n_choose_k(n: usize, k: usize) -> (c: usize)
    requires
        n_choose_k_fits(n as nat, k as nat),
    ensures
        c == binom(n as nat, k as nat),
{
    if k > n {
        proof {
            lemma_binom_too_many(n as nat, k as nat);
        }
        return 0;
    }
    proof {
        lemma_binom_symmetric(n as nat, k as nat);
    }
    if k == 0 || k == n {
        proof {
            lemma_binom_symmetric(n as nat, 0);
        }
        return 1;
    }
    let kk = if k <= n - k { k } else { n - k };
    let mut c: usize = 1;
    let mut i: usize = 0;
    while i < kk
        invariant
            kk <= n,
            k <= n,
            i <= kk,
            kk == if k <= n - k { k } else { (n - k) as usize },
            n_choose_k_fits(n as nat, k as nat),
            c == binom(n as nat, i as nat),
        decreases kk - i,
    {
        proof {
            lemma_binom_step(n as nat, i as nat);
            assert(binom(n as nat, i as nat) * (n as nat - i as nat) <= usize::MAX);
        }
        let product = c * (n - i);
        let next = product / (i + 1);
        proof {
            let b = binom(n as nat, (i + 1) as nat);
            assert(product == b * (i + 1));
            assert((b * (i + 1)) / (i + 1) == b) by (nonlinear_arith)
                requires
                    i + 1 > 0,
            ;
        }
        c = next;
        i = i + 1;
    }
    c
}

/// `C(n, k)` as `n_choose_k` computes it, or `None` exactly when one of
/// its partial products would not fit in `usize`.
pub fn n_choose_k_checked(n: usize, k: usize) -> (r: Option<usize>)
    ensures
        r is Some <==> n_choose_k_fits(n as nat, k as nat),
        r matches Some(c) ==> c == binom(n as nat, k as nat),
{
    if k > n {
        proof {
            lemma_binom_too_many(n as nat, k as nat);
        }
        return Some(0);
    }
    proof {
        lemma_binom_symmetric(n as nat, k as nat);
    }
    if k == 0 || k == n {
        proof {
            lemma_binom_symmetric(n as nat, 0);
        }
        return Some(1);
    }
    let kk = if k <= n - k { k } else { n - k };
    let mut c: usize = 1;
    let mut i: usize = 0;
    while i < kk
        invariant
            kk <= n,
            k <= n,
            i <= kk,
            kk == if k <= n - k { k } else { (n - k) as usize },
            forall|q: nat| q < i ==> #[trigger] binom(n as nat, q) * (n - q) <= usize::MAX,
            c == binom(n as nat, i as nat),
        decreases kk - i,
    {
        proof {
            lemma_binom_step(n as nat, i as nat);
        }
        let product = match c.checked_mul(n - i) {
            Some(p) => p,
            None => {
                assert(binom(n as nat, i as nat) * (n - i) > usize::MAX);
                return None;
            },
        };
        let next = product / (i + 1);
        proof {
            let b = binom(n as nat, (i + 1) as nat);
            assert(product == b * (i + 1));
            assert((b * (i + 1)) / (i + 1) == b) by (nonlinear_arith)
                requires
                    i + 1 > 0,
            ;
        }
        c = next;
        i = i + 1;
    }
    Some(c)
}

/// The row of `m` flags marking the first `size` features of `order`.
pub open spec fn prefix_row(order: Seq<usize>, size: nat, m: nat) -> Seq<bool> {
    Seq::new(m, |j: int| exists|p: int| 0 <= p < size && order[p] == j)
}

/// A coalition size that a sampled row over `m` features may have: one of
/// `1..m`, or one when that range is empty.
pub open spec fn drawable_size(size: nat, m: nat) -> bool {
    if m >= 2 {
        1 <= size < m
    } else {
        size == 1
    }
}

/// `row` marks the first `size` features of some ordering of all `m`
/// features, and `size` is drawable.
pub open spec fn sampled_row(row: Seq<bool>, size: nat, m: nat) -> bool {
    &&& drawable_size(size, m)
    &&& exists|order: Seq<usize>|
        order.len() == m && lists_each_feature_once(order, m) && row == #[trigger] prefix_row(
            order,
            size,
            m,
        )
}

/// `n` copies of `value`.
fn filled(value: bool, n: usize) -> (r: Vec<bool>)
    ensures
        r@ == Seq::new(n as nat, |j: int| value),
{
    let mut r: Vec<bool> = Vec::new();
    let mut i: usize = 0;
    while i < n
        invariant
            i <= n,
            r@ == Seq::new(i as nat, |j: int| value),
        decreases n - i,
    {
        r.push(value);
        i = i + 1;
        assert(r@ =~= Seq::new(i as nat, |j: int| value));
    }
    r
}

/// The sizes `1..m` in increasing order.
fn size_range(m: usize) -> (r: Vec<usize>)
    ensures
        forall|x: usize| r@.contains(x) <==> 1 <= x < m,
        r@.len() == 0 <==> m <= 1,
{
    let mut r: Vec<usize> = Vec::new();
    let mut x: usize = 1;
    while x < m
        invariant
            1 <= x,
            x <= m || x == 1,
            r@.len() == x - 1,
            forall|k: int| 0 <= k < r@.len() ==> #[trigger] r@[k] == k + 1,
        decreases m - x,
    {
        r.push(x);
        x = x + 1;
    }
    assert(x == m || (m == 0 && x == 1) || (m == 1 && x == 1));
    assert(r@.len() == if m == 0 { 0 } else { m - 1 });
    assert forall|y: usize| r@.contains(y) <==> 1 <= y < m by {
        if 1 <= y < m {
            assert(r@[y - 1] == y);
        }
        if r@.contains(y) {
            let k = choose|k: int| 0 <= k < r@.len() && r@[k] == y;
            assert(r@[k] == k + 1);
        }
    }
    r
}

/// The flags of the first `size` features of `order`.
fn prefix_flags(order: &Vec<usize>, size: usize, m: usize) -> (r: Vec<bool>)
    requires
        size <= order@.len(),
        forall|k: int| 0 <= k < order@.len() ==> #[trigger] order@[k] < m,
    ensures
        r@ == prefix_row(order@, size as nat, m as nat),
{
    let mut row = filled(false, m);
    let mut p: usize = 0;
    assert(row@ =~= prefix_row(order@, 0, m as nat));
    while p < size
        invariant
            p <= size,
            size <= order@.len(),
            forall|k: int| 0 <= k < order@.len() ==> #[trigger] order@[k] < m,
            row@ == prefix_row(order@, p as nat, m as nat),
        decreases size - p,
    {
        let f = order[p];
        let ghost before = row@;
        row.set(f, true);
        proof {
            assert forall|j: int| 0 <= j < m implies row@[j] == prefix_row(order@, (p + 1) as nat, m as nat)[j] by {
                if j == f {
                    assert(order@[p as int] == j);
                } else {
                    assert(row@[j] == before[j]);
                    if exists|q: int| 0 <= q < p + 1 && order@[q] == j {
                        let q = choose|q: int| 0 <= q < p + 1 && order@[q] == j;
                        assert(q != p);
                    }
                }
            }
            assert(row@ =~= prefix_row(order@, (p + 1) as nat, m as nat));
        }
        p = p + 1;
    }
    row
}

/// The coalition rows of a sampled Kernel SHAP regression over
/// `num_features` features, with each row's coalition size: first the empty
/// coalition, then the full one, then `num_samples - 2` random rows. Each
/// random row reshuffles one running ordering of the features, draws a size
/// from `1..num_features` (one when that range is empty), and marks that
/// many features from the front of the ordering. Which rows come out
/// depends on the generator's stream.
pub fn coalition_rows(num_features: usize, num_samples: usize, rng: &mut StdRng) -> (r: (
    Vec<Vec<bool>>,
    Vec<usize>,
))
    requires
        num_samples >= 2,
        num_features >= 1 || num_samples == 2,
    ensures
        r.0@.len() == num_samples,
        r.1@.len() == num_samples,
        r.0@[0]@ == Seq::new(num_features as nat, |j: int| false),
        r.1@[0] == 0,
        r.0@[1]@ == Seq::new(num_features as nat, |j: int| true),
        r.1@[1] == num_features,
        forall|i: int|
            2 <= i < num_samples ==> sampled_row((#[trigger] r.0@[i])@, r.1@[i] as nat, num_features as nat),
{
    let m = num_features;
    let mut rows: Vec<Vec<bool>> = Vec::new();
    let mut sizes: Vec<usize> = Vec::new();
    rows.push(filled(false, m));
    sizes.push(0);
    rows.push(filled(true, m));
    sizes.push(m);
    let range = size_range(m);
    let mut order = identity_order(m);
    let mut i: usize = 2;
    while i < num_samples
        invariant
            2 <= i <= num_samples,
            m >= 1 || num_samples == 2,
            forall|x: usize| range@.contains(x) <==> 1 <= x < m,
            range@.len() == 0 <==> m <= 1,
            order@.len() == m,
            lists_each_feature_once(order@, m as nat),
            rows@.len() == i,
            sizes@.len() == i,
            rows@[0]@ == Seq::new(m as nat, |j: int| false),
            sizes@[0] == 0,
            rows@[1]@ == Seq::new(m as nat, |j: int| true),
            sizes@[1] == m,
            forall|k: int| 2 <= k < i ==> sampled_row((#[trigger] rows@[k])@, sizes@[k] as nat, m as nat),
        decreases num_samples - i,
    {
        let ghost previous = order@;
        shuffle(&mut order, rng);
        proof {
            lemma_rearrangement_lists_each_once(order@, previous, m as nat);
        }
        let size = match choose_item(&range, rng) {
            Some(s) => s,
            None => 1,
        };
        assert(drawable_size(size as nat, m as nat));
        let row = prefix_flags(&order, size, m);
        let ghost rows_before = rows@;
        let ghost sizes_before = sizes@;
        rows.push(row);
        sizes.push(size);
        proof {
            assert(sampled_row(rows@[i as int]@, sizes@[i as int] as nat, m as nat));
            assert forall|k: int| 2 <= k < i + 1 implies sampled_row(
                (#[trigger] rows@[k])@,
                sizes@[k] as nat,
                m as nat,
            ) by {
                if k < i {
                    assert(rows@[k] == rows_before[k]);
                    assert(sizes@[k] == sizes_before[k]);
                }
            }
        }
        i = i + 1;
    }
    (rows, sizes)
}

} // verus!
