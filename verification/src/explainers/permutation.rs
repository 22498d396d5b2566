//! Turning a feature ordering into the coalition masks and marginal steps
//! that permutation-based Shapley estimators evaluate.
use vstd::prelude::*;
use vstd::arithmetic::power2::pow2;
use vstd::bits::lemma_u64_shr_is_div;
use crate::coalition::is_member;
use crate::explainers::partition::{lemma_rearrangement_lists_each_once, lists_each_feature_once};
use crate::random::{seeded_rng, shuffle};
use crate::error::{count_mismatch, decimal, invalid_configuration, is_dimension_mismatch, is_invalid_configuration, Result, ShapError};
use crate::evaluation::EvaluationConfig;
use crate::link::Link;

verus! {

/// The mask of the coalition formed by the first `k` features of `order`.
pub open spec fn order_prefix_mask(order: Seq<usize>, k: nat) -> u64
    decreases k,
{
    if k == 0 {
        0
    } else {
        order_prefix_mask(order, (k - 1) as nat) | (1u64 << order[k - 1] as u64)
    }
}

/// The marginal step recorded for position `k` of `order`, when the first
/// new mask lands at index `base`: the feature, the index of the coalition
/// before it (the empty coalition at index 0 for the first feature), and
/// the index of the coalition after it.
pub open spec fn order_step(order: Seq<usize>, base: nat, k: int) -> (usize, usize, usize) {
    (order[k], if k == 0 { 0usize } else { (base + k - 1) as usize }, (base + k) as usize)
}

/// Step `(j, before, after)` is `j`'s marginal contribution within `req`:
/// both indices are in range, the coalition at `after` is the one at
/// `before` joined by `j`, and `j` is not already in the one at `before`.
pub open spec fn marginal_step(req: Seq<u64>, step: (usize, usize, usize)) -> bool {
    &&& step.1 < req.len()
    &&& step.2 < req.len()
    &&& step.0 < 64
    &&& req[step.2 as int] == req[step.1 as int] | (1u64 << step.0 as u64)
    &&& !is_member(req[step.1 as int], step.0 as nat)
}

/// Appending an ordering of distinct features behind coalitions that start
/// with the empty one records, for each feature, its marginal step: the
/// coalition after it is the coalition just before it in the order joined
/// by that feature, which did not hold it yet.
pub proof fn lemma_order_steps_are_marginal(prev: Seq<u64>, order: Seq<usize>)
    requires
        prev.len() > 0,
        prev[0] == 0,
        prev.len() + order.len() <= usize::MAX,
        forall|k: int| 0 <= k < order.len() ==> #[trigger] order[k] < 64,
        order.no_duplicates(),
    ensures
        forall|k: int|
            0 <= k < order.len() ==> marginal_step(
                prev + Seq::new(order.len(), |x: int| order_prefix_mask(order, (x + 1) as nat)),
                #[trigger] order_step(order, prev.len(), k),
            ),
{
    let req = prev + Seq::new(order.len(), |x: int| order_prefix_mask(order, (x + 1) as nat));
    assert forall|k: int| 0 <= k < order.len() implies marginal_step(
        req,
        #[trigger] order_step(order, prev.len(), k),
    ) by {
        let step = order_step(order, prev.len(), k);
        let f = order[k];
        let bit = 1u64 << f as u64;
        let before = order_prefix_mask(order, k as nat);
        assert(req[step.2 as int] == order_prefix_mask(order, (k + 1) as nat));
        if k == 0 {
            assert(req[step.1 as int] == 0u64);
            assert(before == 0u64);
            assert(0u64 | bit == bit) by (bit_vector);
        } else {
            assert(req[step.1 as int] == order_prefix_mask(order, k as nat));
        }
        assert(req[step.1 as int] == before);
        lemma_prefix_mask_members(order, k as nat, f as u64);
        if order.take(k).contains(f) {
            let j = choose|j: int| 0 <= j < k && order.take(k)[j] == f;
            assert(order[j] == order[k]);
        }
    }
}

/// Appends, for each prefix of `order`, its coalition mask to `requested`
/// and the step `(feature, index before, index after)` to `steps`.
pub fn append_order(order: &[usize], requested: &mut Vec<u64>, steps: &mut Vec<(usize, usize, usize)>)
    requires
        forall|k: int| 0 <= k < order@.len() ==> #[trigger] order@[k] < 64,
        old(requested).len() + order@.len() <= usize::MAX,
    ensures
        final(requested)@ == old(requested)@ + Seq::new(
            order@.len(),
            |k: int| order_prefix_mask(order@, (k + 1) as nat),
        ),
        final(steps)@ == old(steps)@ + Seq::new(
            order@.len(),
            |k: int| order_step(order@, old(requested).len() as nat, k),
        ),
        old(requested).len() > 0 && old(requested)@[0] == 0 && order@.no_duplicates() ==> forall|k: int|
            old(steps).len() <= k < final(steps).len() ==> marginal_step(final(requested)@, #[trigger] final(steps)@[k]),
{
    let ghost base = requested.len() as nat;
    let ghost r0 = requested@;
    let ghost s0 = steps@;
    let mut mask: u64 = 0;
    let mut before: usize = 0;
    let mut i: usize = 0;
    while i < order.len()
        invariant
            forall|k: int| 0 <= k < order@.len() ==> #[trigger] order@[k] < 64,
            base + order@.len() <= usize::MAX,
            i <= order.len(),
            mask == order_prefix_mask(order@, i as nat),
            requested@ == r0 + Seq::new(i as nat, |k: int| order_prefix_mask(order@, (k + 1) as nat)),
            steps@ == s0 + Seq::new(i as nat, |k: int| order_step(order@, base, k)),
            before == if i == 0 { 0usize } else { (base + i - 1) as usize },
            r0.len() == base,
        decreases order.len() - i,
    {
        let feature = order[i];
        mask = mask | (1u64 << feature as u64);
        requested.push(mask);
        let after = requested.len() - 1;
        steps.push((feature, before, after));
        proof {
            assert(requested@ =~= r0 + Seq::new((i + 1) as nat, |k: int| order_prefix_mask(order@, (k + 1) as nat)));
            assert(steps@ =~= s0 + Seq::new((i + 1) as nat, |k: int| order_step(order@, base, k)));
        }
        before = after;
        i = i + 1;
    }
    proof {
        assert(Seq::new(i as nat, |k: int| order_prefix_mask(order@, (k + 1) as nat)) =~= Seq::new(order@.len(), |k: int| order_prefix_mask(order@, (k + 1) as nat)));
        assert(Seq::new(i as nat, |k: int| order_step(order@, base, k)) =~= Seq::new(order@.len(), |k: int| order_step(order@, base, k)));
        if base > 0 && r0[0] == 0 && order@.no_duplicates() {
            lemma_order_steps_are_marginal(r0, order@);
            assert forall|k: int| s0.len() <= k < steps@.len() implies marginal_step(requested@, #[trigger] steps@[k]) by {
                assert(steps@[k] == order_step(order@, base, k - s0.len()));
            }
        }
    }
}

/// The mask recorded for the first `k` features of an ordering holds
/// exactly those features.
pub proof fn lemma_prefix_mask_members(order: Seq<usize>, k: nat, f: u64)
    requires
        k <= order.len(),
        forall|j: int| 0 <= j < order.len() ==> #[trigger] order[j] < 64,
        f < 64,
    ensures
        is_member(order_prefix_mask(order, k), f as nat) <==> order.take(k as int).contains(f as usize),
    decreases k,
{
    let m = order_prefix_mask(order, k);
    lemma_u64_shr_is_div(m, f);
    assert((m >> f) % 2 == 1 <==> (m >> f) & 1 == 1) by (bit_vector);
    if k == 0 {
        assert(m == 0);
        assert((0u64 >> f) & 1 == 0) by (bit_vector);
        assert(order.take(0) =~= Seq::<usize>::empty());
    } else {
        let prev = order_prefix_mask(order, (k - 1) as nat);
        let g = order[k - 1] as u64;
        lemma_prefix_mask_members(order, (k - 1) as nat, f);
        lemma_u64_shr_is_div(prev, f);
        assert((prev >> f) % 2 == 1 <==> (prev >> f) & 1 == 1) by (bit_vector);
        assert(m == prev | (1u64 << g));
        assert(((prev | (1u64 << g)) >> f) & 1 == 1 <==> ((prev >> f) & 1 == 1 || f == g)) by (bit_vector)
            requires
                f < 64,
                g < 64,
        ;
        assert(order.take(k as int) =~= order.take(k - 1).push(order[k - 1]));
        if f == g {
            assert(order.take(k as int)[k - 1] == f as usize);
        }
        if order.take(k as int).contains(f as usize) && f != g {
            let longer = order.take(k as int);
            let j = choose|j: int| 0 <= j < longer.len() && #[trigger] longer[j] == f as usize;
            assert(j < k - 1);
            assert(order.take(k - 1)[j] == f as usize);
        }
        let shorter = order.take(k - 1);
        if shorter.contains(f as usize) {
            let j = choose|j: int| 0 <= j < shorter.len() && #[trigger] shorter[j] == f as usize;
            assert(order.take(k as int)[j] == f as usize);
        }
    }
}

/// The coalition masks requested for `orders` taken in turn: the empty
/// coalition, then each order's prefixes.
pub open spec fn plan_masks(orders: Seq<Seq<usize>>) -> Seq<u64>
    decreases orders.len(),
{
    if orders.len() == 0 {
        seq![0u64]
    } else {
        let o = orders.last();
        plan_masks(orders.drop_last()) + Seq::new(
            o.len(),
            |k: int| order_prefix_mask(o, (k + 1) as nat),
        )
    }
}

/// The marginal steps recorded for `orders` taken in turn.
pub open spec fn plan_steps(orders: Seq<Seq<usize>>) -> Seq<(usize, usize, usize)>
    decreases orders.len(),
{
    if orders.len() == 0 {
        seq![]
    } else {
        let o = orders.last();
        plan_steps(orders.drop_last()) + Seq::new(
            o.len(),
            |k: int| order_step(o, plan_masks(orders.drop_last()).len(), k),
        )
    }
}

/// The planned masks start with the empty coalition.
proof fn lemma_plan_masks_start_empty(orders: Seq<Seq<usize>>)
    ensures
        plan_masks(orders).len() > 0,
        plan_masks(orders)[0] == 0,
    decreases orders.len(),
{
    if orders.len() > 0 {
        lemma_plan_masks_start_empty(orders.drop_last());
    }
}

/// Every planned step is a marginal step: for orderings of distinct
/// features, each recorded `(j, before, after)` points at a coalition
/// without `j` and at that coalition joined by `j`, so the estimator
/// credits `j` with `v(after) - v(before)`.
pub proof fn lemma_plan_steps_are_marginal(orders: Seq<Seq<usize>>)
    requires
        forall|i: int| 0 <= i < orders.len() ==> (#[trigger] orders[i]).no_duplicates(),
        forall|i: int, k: int| 0 <= i < orders.len() && 0 <= k < orders[i].len() ==> #[trigger] orders[i][k] < 64,
        plan_masks(orders).len() <= usize::MAX,
    ensures
        forall|k: int| 0 <= k < plan_steps(orders).len() ==> marginal_step(
            plan_masks(orders),
            #[trigger] plan_steps(orders)[k],
        ),
    decreases orders.len(),
{
    if orders.len() > 0 {
        let init = orders.drop_last();
        let o = orders.last();
        let masks = plan_masks(init);
        let steps = plan_steps(init);
        lemma_plan_masks_start_empty(init);
        assert forall|i: int| 0 <= i < init.len() implies (#[trigger] init[i]).no_duplicates() by {
            assert(init[i] == orders[i]);
        }
        assert forall|i: int, k: int| 0 <= i < init.len() && 0 <= k < init[i].len() implies #[trigger] init[i][k] < 64 by {
            assert(init[i] == orders[i]);
        }
        lemma_plan_steps_are_marginal(init);
        assert(o == orders[orders.len() - 1]);
        assert forall|k: int| 0 <= k < o.len() implies #[trigger] o[k] < 64 by {
            assert(orders[orders.len() - 1][k] < 64);
        }
        lemma_order_steps_are_marginal(masks, o);
        let all = plan_masks(orders);
        assert forall|k: int| 0 <= k < plan_steps(orders).len() implies marginal_step(
            all,
            #[trigger] plan_steps(orders)[k],
        ) by {
            if k < steps.len() {
                let st = steps[k];
                assert(plan_steps(orders)[k] == st);
                assert(marginal_step(masks, st));
                assert(all[st.1 as int] == masks[st.1 as int]);
                assert(all[st.2 as int] == masks[st.2 as int]);
            } else {
                assert(plan_steps(orders)[k] == order_step(o, masks.len(), k - steps.len()));
            }
        }
    }
}

/// Orders as the estimator draws them: each lists every feature `0..m`
/// once, and with antithetic pairing every second order is the reverse of
/// the one before it.
pub open spec fn drawn_orders(orders: Seq<Seq<usize>>, m: nat, antithetic: bool) -> bool {
    &&& forall|i: int| 0 <= i < orders.len() ==> lists_each_feature_once(#[trigger] orders[i], m)
    &&& antithetic ==> forall|i: int|
        0 <= i && 2 * i + 1 < orders.len() ==> #[trigger] orders[2 * i + 1] == orders[2 * i].reverse()
}

/// One mask per prefix of each order after the empty coalition.
proof fn lemma_plan_masks_len(orders: Seq<Seq<usize>>, m: nat)
    requires
        forall|i: int| 0 <= i < orders.len() ==> (#[trigger] orders[i]).len() == m,
    ensures
        plan_masks(orders).len() == 1 + orders.len() * m,
    decreases orders.len(),
{
    if orders.len() > 0 {
        lemma_plan_masks_len(orders.drop_last(), m);
        assert(orders.last().len() == m);
        assert((orders.len() - 1) * m + m == orders.len() * m) by (nonlinear_arith);
    }
}

/// The features `0..m` in increasing order.
pub(crate) fn identity_order(m: usize) -> (r: Vec<usize>)
    ensures
        lists_each_feature_once(r@, m as nat),
        r@.len() == m,
{
    let mut r: Vec<usize> = Vec::new();
    let mut i: usize = 0;
    while i < m
        invariant
            i <= m,
            r@.len() == i,
            forall|k: int| 0 <= k < i ==> #[trigger] r@[k] == k,
        decreases m - i,
    {
        r.push(i);
        i = i + 1;
    }
    assert forall|j: usize| j < m implies r@.contains(j) by {
        assert(r@[j as int] == j);
    }
    r
}

/// `v` in reverse order.
fn reversed(v: &Vec<usize>) -> (r: Vec<usize>)
    ensures
        r@ == v@.reverse(),
{
    let mut r: Vec<usize> = Vec::new();
    let mut i: usize = v.len();
    while i > 0
        invariant
            i <= v.len(),
            r@.len() == v.len() - i,
            forall|k: int| 0 <= k < r@.len() ==> #[trigger] r@[k] == v@[v.len() - 1 - k],
        decreases i,
    {
        i = i - 1;
        r.push(v[i]);
    }
    assert(r@ =~= v@.reverse());
    r
}

/// The coalitions and marginal steps a permutation estimator evaluates for
/// one sample: `n_permutations` random orders of the `m < 63` features from
/// a generator seeded with `seed`, each turned into its prefix coalitions
/// after the empty one. With antithetic pairing, every second order is the
/// reverse of the one before it. The orders themselves depend on the
/// generator's stream; every one of them lists each feature once.
pub fn permutation_plan(m: usize, n_permutations: usize, antithetic: bool, seed: u64) -> (r: (
    Vec<u64>,
    Vec<(usize, usize, usize)>,
))
    requires
        m < 63,
        n_permutations * m < usize::MAX,
    ensures
        exists|orders: Seq<Seq<usize>>|
            orders.len() == n_permutations && drawn_orders(orders, m as nat, antithetic) && r.0@
                == plan_masks(orders) && r.1@ == plan_steps(orders),
{
    let mut rng = seeded_rng(seed);
    let mut requested: Vec<u64> = vec![0u64];
    let mut steps: Vec<(usize, usize, usize)> = Vec::new();
    let ghost mut orders: Seq<Seq<usize>> = Seq::empty();
    let mut generated: usize = 0;
    while generated < n_permutations
        invariant
            m < 63,
            n_permutations * m < usize::MAX,
            generated <= n_permutations,
            orders.len() == generated,
            drawn_orders(orders, m as nat, antithetic),
            forall|i: int| 0 <= i < orders.len() ==> (#[trigger] orders[i]).len() == m,
            antithetic && generated < n_permutations ==> generated % 2 == 0,
            requested@ == plan_masks(orders),
            steps@ == plan_steps(orders),
        decreases n_permutations - generated,
    {
        let mut order = identity_order(m);
        let ghost fresh = order@;
        shuffle(&mut order, &mut rng);
        proof {
            lemma_rearrangement_lists_each_once(order@, fresh, m as nat);
            lemma_plan_masks_len(orders, m as nat);
            assert((generated + 1) * m <= n_permutations * m) by (nonlinear_arith)
                requires
                    generated + 1 <= n_permutations,
            ;
            assert(generated * m + m == (generated + 1) * m) by (nonlinear_arith);
        }
        let ghost before = orders;
        append_order(order.as_slice(), &mut requested, &mut steps);
        proof {
            orders = orders.push(order@);
            assert(orders.drop_last() =~= before);
            assert(orders.last() == order@);
            assert(steps@ =~= plan_steps(orders));
            assert(requested@ =~= plan_masks(orders));
        }
        generated = generated + 1;
        if antithetic && generated < n_permutations {
            let back = reversed(&order);
            proof {
                order@.lemma_reverse_to_multiset();
                lemma_rearrangement_lists_each_once(back@, order@, m as nat);
                lemma_plan_masks_len(orders, m as nat);
                assert((generated + 1) * m <= n_permutations * m) by (nonlinear_arith)
                    requires
                        generated + 1 <= n_permutations,
                ;
                assert(generated * m + m == (generated + 1) * m) by (nonlinear_arith);
            }
            let ghost paired = orders;
            append_order(back.as_slice(), &mut requested, &mut steps);
            proof {
                orders = orders.push(back@);
                assert(orders.drop_last() =~= paired);
                assert(orders.last() == back@);
                assert(steps@ =~= plan_steps(orders));
                assert(requested@ =~= plan_masks(orders));
                assert forall|i: int|
                    0 <= i && 2 * i + 1 < orders.len() implies #[trigger] orders[2 * i + 1]
                    == orders[2 * i].reverse() by {
                    if 2 * i + 1 == orders.len() - 1 {
                        assert(2 * i == generated - 1);
                    }
                }
            }
            generated = generated + 1;
        }
    }
    (requested, steps)
}

/// Monte-Carlo Shapley estimates from random feature orderings.
pub struct PermutationExplainer<M, K> {
    model: M,
    masker: K,
    n_permutations: usize,
    seed: u64,
    antithetic: bool,
    link: Link,
    evaluation: EvaluationConfig,
}

impl<M, K> PermutationExplainer<M, K> {
    /// The prediction model.
    pub closed spec fn spec_model(&self) -> M {
        self.model
    }

    /// The masker.
    pub closed spec fn spec_masker(&self) -> K {
        self.masker
    }

    /// The number of orderings drawn per sample.
    pub closed spec fn spec_n_permutations(&self) -> usize {
        self.n_permutations
    }

    /// The base seed of the ordering generator.
    pub closed spec fn spec_seed(&self) -> u64 {
        self.seed
    }

    /// Whether every second ordering reverses the one before.
    pub closed spec fn spec_antithetic(&self) -> bool {
        self.antithetic
    }

    /// The output transform.
    pub closed spec fn spec_link(&self) -> Link {
        self.link
    }

    /// The coalition evaluation limits.
    pub closed spec fn spec_evaluation(&self) -> EvaluationConfig {
        self.evaluation
    }

    /// An estimator drawing 128 antithetically paired orderings from seed 0,
    /// evaluating coalitions in batches of 64 with a 65536-entry cache and no
    /// row limit, in the identity link.
    pub fn from_masker(model: M, masker: K) -> (r: Self)
        ensures
            r.spec_model() == model,
            r.spec_masker() == masker,
            r.spec_n_permutations() == 128,
            r.spec_seed() == 0,
            r.spec_antithetic() == true,
            r.spec_link() == Link::Identity,
            r.spec_evaluation() == (EvaluationConfig { coalition_batch_size: 64, cache_capacity: 65536, max_model_rows: None }),
    {
        Self { model, masker, n_permutations: 128, seed: 0, antithetic: true, link: Link::Identity, evaluation: EvaluationConfig { coalition_batch_size: 64, cache_capacity: 65536, max_model_rows: None } }
    }

    /// Sets the number of orderings.
    pub fn with_n_permutations(self, value: usize) -> (r: Self)
        ensures
            r.spec_model() == self.spec_model(),
            r.spec_masker() == self.spec_masker(),
            r.spec_n_permutations() == value,
            r.spec_seed() == self.spec_seed(),
            r.spec_antithetic() == self.spec_antithetic(),
            r.spec_link() == self.spec_link(),
            r.spec_evaluation() == self.spec_evaluation(),
    {
        Self { n_permutations: value, ..self }
    }

    /// Sets the base seed.
    pub fn with_seed(self, value: u64) -> (r: Self)
        ensures
            r.spec_model() == self.spec_model(),
            r.spec_masker() == self.spec_masker(),
            r.spec_n_permutations() == self.spec_n_permutations(),
            r.spec_seed() == value,
            r.spec_antithetic() == self.spec_antithetic(),
            r.spec_link() == self.spec_link(),
            r.spec_evaluation() == self.spec_evaluation(),
    {
        Self { seed: value, ..self }
    }

    /// Enables or disables reverse-order pairing.
    pub fn with_antithetic(self, value: bool) -> (r: Self)
        ensures
            r.spec_model() == self.spec_model(),
            r.spec_masker() == self.spec_masker(),
            r.spec_n_permutations() == self.spec_n_permutations(),
            r.spec_seed() == self.spec_seed(),
            r.spec_antithetic() == value,
            r.spec_link() == self.spec_link(),
            r.spec_evaluation() == self.spec_evaluation(),
    {
        Self { antithetic: value, ..self }
    }

    /// Sets the output transform.
    pub fn with_link(self, value: Link) -> (r: Self)
        ensures
            r.spec_model() == self.spec_model(),
            r.spec_masker() == self.spec_masker(),
            r.spec_n_permutations() == self.spec_n_permutations(),
            r.spec_seed() == self.spec_seed(),
            r.spec_antithetic() == self.spec_antithetic(),
            r.spec_link() == value,
            r.spec_evaluation() == self.spec_evaluation(),
    {
        Self { link: value, ..self }
    }

    /// Sets the coalition evaluation limits.
    pub fn with_evaluation_config(self, value: EvaluationConfig) -> (r: Self)
        ensures
            r.spec_model() == self.spec_model(),
            r.spec_masker() == self.spec_masker(),
            r.spec_n_permutations() == self.spec_n_permutations(),
            r.spec_seed() == self.spec_seed(),
            r.spec_antithetic() == self.spec_antithetic(),
            r.spec_link() == self.spec_link(),
            r.spec_evaluation() == value,
    {
        Self { evaluation: value, ..self }
    }

    /// The prediction model.
    pub fn model(&self) -> (r: &M)
        ensures
            *r == self.spec_model(),
    {
        &self.model
    }

    /// The masker.
    pub fn masker(&self) -> (r: &K)
        ensures
            *r == self.spec_masker(),
    {
        &self.masker
    }

    /// The number of orderings drawn per sample.
    pub fn n_permutations(&self) -> (r: usize)
        ensures
            r == self.spec_n_permutations(),
    {
        self.n_permutations
    }

    /// The base seed of the ordering generator.
    pub fn seed(&self) -> (r: u64)
        ensures
            r == self.spec_seed(),
    {
        self.seed
    }

    /// Whether every second ordering reverses the one before.
    pub fn antithetic(&self) -> (r: bool)
        ensures
            r == self.spec_antithetic(),
    {
        self.antithetic
    }

    /// The output transform.
    pub fn link(&self) -> (r: Link)
        ensures
            r == self.spec_link(),
    {
        self.link
    }

    /// The coalition evaluation limits.
    pub fn evaluation(&self) -> (r: EvaluationConfig)
        ensures
            r == self.spec_evaluation(),
    {
        self.evaluation
    }

}

impl<M, K> PermutationExplainer<M, K> {
    /// Checks a data matrix of `rows` by `cols` against a masker of `m`
    /// features, in the order: some rows, `m` columns, at least one
    /// ordering, fewer than 63 features.
    pub fn check_input(&self, m: usize, rows: usize, cols: usize) -> (r: Result<()>)
        ensures
            r is Ok <==> rows > 0 && cols == m && self.spec_n_permutations() > 0 && m < 63,
            rows == 0 ==> r == Err::<(), ShapError>(ShapError::EmptyData),
            rows > 0 && cols != m ==> r is Err && is_dimension_mismatch(
                r->Err_0,
                decimal(m as nat) + " features"@,
                decimal(cols as nat),
            ),
            rows > 0 && cols == m && self.spec_n_permutations() == 0 ==> r is Err
                && is_invalid_configuration(r->Err_0, "n_permutations must be positive"@),
            rows > 0 && cols == m && self.spec_n_permutations() > 0 && m >= 63 ==> r is Err
                && is_invalid_configuration(
                r->Err_0,
                "permutation SHAP currently supports at most 62 features"@,
            ),
    {
        if rows == 0 {
            return Err(ShapError::EmptyData);
        }
        if cols != m {
            return Err(count_mismatch(m, " features", cols));
        }
        if self.n_permutations == 0 {
            return Err(invalid_configuration("n_permutations must be positive"));
        }
        if m >= 63 {
            return Err(invalid_configuration("permutation SHAP currently supports at most 62 features"));
        }
        Ok(())
    }
}

/// The coalitions and marginal steps for evaluating the given feature
/// orderings in turn, after the empty coalition.
pub fn orders_plan(orders: &Vec<Vec<usize>>) -> (r: (Vec<u64>, Vec<(usize, usize, usize)>))
    requires
        forall|i: int, k: int|
            0 <= i < orders.len() && 0 <= k < orders@[i]@.len() ==> #[trigger] orders@[i]@[k] < 64,
        plan_masks(orders.deep_view()).len() <= usize::MAX,
    ensures
        r.0@ == plan_masks(orders.deep_view()),
        r.1@ == plan_steps(orders.deep_view()),
{
    let ghost all = orders.deep_view();
    let mut requested: Vec<u64> = vec![0u64];
    let mut steps: Vec<(usize, usize, usize)> = Vec::new();
    let mut i: usize = 0;
    while i < orders.len()
        invariant
            i <= orders.len(),
            all == orders.deep_view(),
            forall|x: int, k: int|
                0 <= x < orders.len() && 0 <= k < orders@[x]@.len() ==> #[trigger] orders@[x]@[k] < 64,
            plan_masks(all).len() <= usize::MAX,
            requested@ == plan_masks(all.take(i as int)),
            steps@ == plan_steps(all.take(i as int)),
        decreases orders.len() - i,
    {
        let order = &orders[i];
        proof {
            assert(all.take(i + 1).drop_last() =~= all.take(i as int));
            assert(all.take(i + 1).last() == order@);
            lemma_plan_masks_prefix(all, i + 1);
        }
        append_order(order.as_slice(), &mut requested, &mut steps);
        proof {
            assert(requested@ =~= plan_masks(all.take(i + 1)));
            assert(steps@ =~= plan_steps(all.take(i + 1)));
        }
        i = i + 1;
    }
    assert(all.take(orders.len() as int) =~= all);
    (requested, steps)
}

/// Planning a prefix of the orders requests no more masks than planning
/// them all.
proof fn lemma_plan_masks_prefix(orders: Seq<Seq<usize>>, k: int)
    requires
        0 <= k <= orders.len(),
    ensures
        plan_masks(orders.take(k)).len() <= plan_masks(orders).len(),
    decreases orders.len() - k,
{
    if k < orders.len() {
        lemma_plan_masks_prefix(orders, k + 1);
        assert(orders.take(k + 1).drop_last() =~= orders.take(k));
    } else {
        assert(orders.take(k) =~= orders);
    }
}

} // verus!
