//! Limits shared by the model-agnostic explainers' coalition evaluation.
use vstd::prelude::*;
use std::collections::{HashMap, VecDeque};
use crate::error::{invalid_configuration, is_invalid_configuration, Result, ShapError};

verus! {

/// Shared limits for model-agnostic explainer evaluation.
#[derive(Debug, Clone, Copy, PartialEq, Eq, Structural)]
pub struct EvaluationConfig {
    /// Maximum coalitions combined into one model call.
    pub coalition_batch_size: usize,
    /// Maximum cached coalition results for one explained sample.
    pub cache_capacity: usize,
    /// Optional hard limit on total model rows evaluated per sample.
    pub max_model_rows: Option<usize>,
}

/// Positive batch size and cache capacity, a cache at least one batch
/// large, and a positive row limit when one is configured.
pub open spec fn config_valid(c: EvaluationConfig) -> bool {
    &&& c.coalition_batch_size > 0
    &&& c.cache_capacity > 0
    &&& c.coalition_batch_size <= c.cache_capacity
    &&& c.max_model_rows != Some(0usize)
}

impl Default for EvaluationConfig {
    /// Batches of 64 coalitions, a 4096-entry cache and no row limit.
    fn default() -> (c: Self)
        ensures
            c.coalition_batch_size == 64,
            c.cache_capacity == 4096,
            c.max_model_rows is None,
    {
        Self { coalition_batch_size: 64, cache_capacity: 4096, max_model_rows: None }
    }
}

impl EvaluationConfig {
    /// Returns the configuration unchanged when it is valid; otherwise the
    /// first violated rule, in the order: positive sizes, cache at least one
    /// batch, positive row limit.
    pub fn validate(self) -> (r: Result<Self>)
        ensures
            r is Ok <==> config_valid(self),
            r matches Ok(c) ==> c == self,
            (self.coalition_batch_size == 0 || self.cache_capacity == 0) ==> r is Err
                && is_invalid_configuration(
                r->Err_0,
                "coalition batch size and cache capacity must be positive"@,
            ),
            (self.coalition_batch_size > 0 && self.cache_capacity > 0 && self.coalition_batch_size
                > self.cache_capacity) ==> r is Err && is_invalid_configuration(
                r->Err_0,
                "cache capacity must be at least the coalition batch size"@,
            ),
            (self.coalition_batch_size > 0 && self.cache_capacity > 0 && self.coalition_batch_size
                <= self.cache_capacity && self.max_model_rows == Some(0usize)) ==> r is Err
                && is_invalid_configuration(
                r->Err_0,
                "model row evaluation limit must be positive when configured"@,
            ),
    {
        if self.coalition_batch_size == 0 || self.cache_capacity == 0 {
            return Err(
                invalid_configuration("coalition batch size and cache capacity must be positive"),
            );
        }
        if self.coalition_batch_size > self.cache_capacity {
            return Err(
                invalid_configuration("cache capacity must be at least the coalition batch size"),
            );
        }
        if let Some(limit) = self.max_model_rows {
            if limit == 0 {
                return Err(
                    invalid_configuration(
                        "model row evaluation limit must be positive when configured",
                    ),
                );
            }
        }
        Ok(self)
    }
}

/// `order` with every occurrence of `m` removed.
pub open spec fn without(order: Seq<u64>, m: u64) -> Seq<u64>
    decreases order.len(),
{
    if order.len() == 0 {
        order
    } else {
        let rest = without(order.drop_last(), m);
        if order.last() == m {
            rest
        } else {
            rest.push(order.last())
        }
    }
}

/// `order` with `m` moved to the most-recently-used end.
pub open spec fn touched(order: Seq<u64>, m: u64) -> Seq<u64> {
    without(order, m).push(m)
}

/// The recency order after looking up `masks` in turn: every mask found
/// among the cached keys `cached` moves to the most-recently-used end.
pub open spec fn touch_hits(order: Seq<u64>, cached: Set<u64>, masks: Seq<u64>) -> Seq<u64>
    decreases masks.len(),
{
    if masks.len() == 0 {
        order
    } else {
        let earlier = touch_hits(order, cached, masks.drop_last());
        if cached.contains(masks.last()) {
            touched(earlier, masks.last())
        } else {
            earlier
        }
    }
}

/// The masks not among `cached`, each once, in order of first appearance.
pub open spec fn missing_masks(masks: Seq<u64>, cached: Set<u64>) -> Seq<u64>
    decreases masks.len(),
{
    if masks.len() == 0 {
        seq![]
    } else {
        let earlier = missing_masks(masks.drop_last(), cached);
        let m = masks.last();
        if !cached.contains(m) && !earlier.contains(m) {
            earlier.push(m)
        } else {
            earlier
        }
    }
}

/// The number of least-recently-used entries evicted to make room for
/// `incoming` entries in a cache holding `len` of at most `capacity`.
pub open spec fn eviction_count(len: nat, incoming: nat, capacity: nat) -> nat {
    if len + incoming > capacity {
        (len + incoming - capacity) as nat
    } else {
        0
    }
}

proof fn lemma_without_absent(s: Seq<u64>, m: u64)
    requires
        !s.contains(m),
    ensures
        without(s, m) == s,
    decreases s.len(),
{
    if s.len() > 0 {
        assert(!s.drop_last().contains(m)) by {
            if s.drop_last().contains(m) {
                let i = choose|i: int| 0 <= i < s.drop_last().len() && s.drop_last()[i] == m;
                assert(s[i] == m);
            }
        }
        lemma_without_absent(s.drop_last(), m);
        assert(s.drop_last().push(s.last()) =~= s);
    }
}

proof fn lemma_without_members(s: Seq<u64>, m: u64)
    ensures
        forall|k: u64| #[trigger] without(s, m).contains(k) <==> (s.contains(k) && k != m),
        s.no_duplicates() ==> without(s, m).no_duplicates(),
    decreases s.len(),
{
    if s.len() > 0 {
        let init = s.drop_last();
        lemma_without_members(init, m);
        let rest = without(init, m);
        assert forall|k: u64| #[trigger] without(s, m).contains(k) <==> (s.contains(k) && k != m) by {
            if s.contains(k) && k != m && k != s.last() {
                let i = choose|i: int| 0 <= i < s.len() && s[i] == k;
                assert(init[i] == k);
            }
            if init.contains(k) {
                let i = choose|i: int| 0 <= i < init.len() && init[i] == k;
                assert(s[i] == k);
            }
            if s.last() != m {
                assert(rest.push(s.last())[rest.len() as int] == s.last());
                if rest.push(s.last()).contains(k) && k != s.last() {
                    let i = choose|i: int| 0 <= i < rest.len() + 1 && rest.push(s.last())[i] == k;
                    assert(rest[i] == k);
                }
                if rest.contains(k) {
                    let i = choose|i: int| 0 <= i < rest.len() && rest[i] == k;
                    assert(rest.push(s.last())[i] == k);
                }
            }
        }
        if s.no_duplicates() {
            assert(init.no_duplicates());
            if s.last() != m {
                assert(!init.contains(s.last())) by {
                    if init.contains(s.last()) {
                        let i = choose|i: int| 0 <= i < init.len() && init[i] == s.last();
                        assert(s[i] == s[s.len() - 1]);
                    }
                }
                assert(!rest.contains(s.last()));
                let t = rest.push(s.last());
                assert forall|x: int, y: int| 0 <= x < t.len() && 0 <= y < t.len() && x != y implies t[x] != t[y] by {
                    if x == rest.len() as int {
                        assert(rest.contains(t[y]) || y == x);
                    } else if y == rest.len() as int {
                        assert(rest.contains(t[x]));
                    }
                }
            }
        }
    }
}

/// Removing the only occurrence of `m` at position `p` is `without`.
proof fn lemma_remove_is_without(s: Seq<u64>, p: int, m: u64)
    requires
        s.no_duplicates(),
        0 <= p < s.len(),
        s[p] == m,
    ensures
        s.remove(p) == without(s, m),
    decreases s.len(),
{
    let init = s.drop_last();
    if p == s.len() - 1 {
        assert(!init.contains(m)) by {
            if init.contains(m) {
                let i = choose|i: int| 0 <= i < init.len() && init[i] == m;
                assert(s[i] == s[p]);
            }
        }
        lemma_without_absent(init, m);
        assert(s.remove(p) =~= init);
    } else {
        lemma_remove_is_without(init, p, m);
        assert(s.last() != m);
        assert(s.remove(p) =~= init.remove(p).push(s.last()));
    }
}

/// A cache of per-coalition results with least-recently-used eviction:
/// `values` holds the cached results and `order` their keys from least to
/// most recently used.
pub struct CoalitionCache<V> {
    capacity: usize,
    values: HashMap<u64, V>,
    order: VecDeque<u64>,
}

impl<V> CoalitionCache<V> {
    /// The largest number of cached entries.
    pub closed spec fn spec_capacity(&self) -> nat {
        self.capacity as nat
    }

    /// The cached results by coalition mask.
    pub closed spec fn spec_values(&self) -> Map<u64, V> {
        self.values@
    }

    /// The cached masks from least to most recently used.
    pub closed spec fn spec_order(&self) -> Seq<u64> {
        self.order@
    }

    /// The recency order lists each cached mask once, and the cache holds
    /// between zero and `capacity > 0` entries.
    pub closed spec fn wf(&self) -> bool {
        &&& self.capacity > 0
        &&& self.order@.no_duplicates()
        &&& forall|k: u64| #[trigger] self.values@.contains_key(k) <==> self.order@.contains(k)
        &&& self.values@.len() == self.order@.len()
        &&& self.order@.len() <= self.capacity
        &&& self.values@.dom().finite()
    }

    /// An empty cache holding up to `capacity` results.
    pub fn new(capacity: usize) -> (r: Self)
        requires
            capacity > 0,
        ensures
            r.wf(),
            r.spec_capacity() == capacity,
            r.spec_values() == Map::<u64, V>::empty(),
            r.spec_order() == Seq::<u64>::empty(),
    {
        broadcast use vstd::std_specs::hash::group_hash_axioms;
        let r = Self { capacity, values: HashMap::new(), order: VecDeque::new() };
        assert(r.values@.dom() =~= Set::<u64>::empty());
        r
    }

    /// The number of cached results.
    pub fn len(&self) -> (n: usize)
        requires
            self.wf(),
        ensures
            n == self.spec_order().len(),
            n == self.spec_values().len(),
            n <= self.spec_capacity(),
    {
        self.order.len()
    }

    /// The largest number of cached entries.
    pub fn capacity(&self) -> (n: usize)
        ensures
            n == self.spec_capacity(),
    {
        self.capacity
    }

    /// Whether a result is cached for `mask`.
    pub fn contains(&self, mask: u64) -> (r: bool)
        ensures
            r == self.spec_values().contains_key(mask),
    {
        broadcast use vstd::std_specs::hash::group_hash_axioms;
        self.values.contains_key(&mask)
    }

    /// The cached result for `mask`, without changing its recency.
    pub fn get(&self, mask: u64) -> (r: Option<&V>)
        ensures
            r == if self.spec_values().contains_key(mask) {
                Some(&self.spec_values()[mask])
            } else {
                None::<&V>
            },
    {
        broadcast use vstd::std_specs::hash::group_hash_axioms;
        self.values.get(&mask)
    }

    /// Marks the cached `mask` as most recently used.
    fn touch(&mut self, mask: u64)
        requires
            old(self).wf(),
            old(self).spec_values().contains_key(mask),
        ensures
            final(self).wf(),
            final(self).spec_capacity() == old(self).spec_capacity(),
            final(self).spec_values() == old(self).spec_values(),
            final(self).spec_order() == touched(old(self).spec_order(), mask),
    {
        let ghost o = self.order@;
        let mut p: usize = 0;
        while p < self.order.len() && self.order[p] != mask
            invariant
                self.order@ == o,
                p <= o.len(),
                forall|x: int| 0 <= x < p ==> o[x] != mask,
            decreases o.len() - p,
        {
            p = p + 1;
        }
        proof {
            assert(o.contains(mask));
            if p == o.len() {
                let i = choose|i: int| 0 <= i < o.len() && o[i] == mask;
                assert(false);
            }
        }
        let _ = self.order.remove(p);
        self.order.push_back(mask);
        proof {
            lemma_remove_is_without(o, p as int, mask);
            lemma_without_members(o, mask);
            let w = without(o, mask);
            assert(!w.contains(mask));
            let t = w.push(mask);
            assert(self.order@ == t);
            assert forall|x: int, y: int| 0 <= x < t.len() && 0 <= y < t.len() && x != y implies t[x] != t[y] by {
                if x == w.len() as int {
                    assert(w.contains(t[y]));
                } else if y == w.len() as int {
                    assert(w.contains(t[x]));
                }
            }
            assert forall|k: u64| #[trigger] self.values@.contains_key(k) <==> self.order@.contains(k) by {
                if k == mask {
                    assert(t[w.len() as int] == mask);
                } else {
                    if t.contains(k) {
                        let i = choose|i: int| 0 <= i < t.len() && t[i] == k;
                        assert(w[i] == k);
                    }
                    if w.contains(k) {
                        let i = choose|i: int| 0 <= i < w.len() && w[i] == k;
                        assert(t[i] == k);
                    }
                }
            }
            assert(o.remove(p as int).len() == o.len() - 1);
        }
    }

    /// Looks up `masks` in turn: each cached mask becomes most recently
    /// used; the uncached masks are returned once each, in order of first
    /// appearance, for evaluation.
    pub fn plan(&mut self, masks: &[u64]) -> (missing: Vec<u64>)
        requires
            old(self).wf(),
        ensures
            final(self).wf(),
            final(self).spec_capacity() == old(self).spec_capacity(),
            final(self).spec_values() == old(self).spec_values(),
            final(self).spec_order() == touch_hits(
                old(self).spec_order(),
                old(self).spec_values().dom(),
                masks@,
            ),
            missing@ == missing_masks(masks@, old(self).spec_values().dom()),
    {
        broadcast use vstd::std_specs::hash::group_hash_axioms;
        let ghost o = self.order@;
        let ghost vals = self.values@;
        let ghost cached = self.values@.dom();
        let mut missing: Vec<u64> = Vec::new();
        let mut i: usize = 0;
        assert(masks@.take(0) =~= Seq::<u64>::empty());
        while i < masks.len()
            invariant
                self.wf(),
                self.capacity == old(self).capacity,
                self.values@ == vals,
                cached == vals.dom(),
                i <= masks.len(),
                self.order@ == touch_hits(o, cached, masks@.take(i as int)),
                missing@ == missing_masks(masks@.take(i as int), cached),
            decreases masks.len() - i,
        {
            let mask = masks[i];
            proof {
                assert(masks@.take(i + 1).drop_last() =~= masks@.take(i as int));
                assert(masks@.take(i + 1).last() == mask);
            }
            if self.values.contains_key(&mask) {
                self.touch(mask);
            } else {
                let mut j: usize = 0;
                let mut seen = false;
                while j < missing.len()
                    invariant
                        j <= missing.len(),
                        seen == exists|x: int| 0 <= x < j && missing@[x] == mask,
                    decreases missing.len() - j,
                {
                    if missing[j] == mask {
                        seen = true;
                    }
                    j = j + 1;
                }
                if !seen {
                    missing.push(mask);
                }
            }
            i = i + 1;
        }
        assert(masks@.take(masks.len() as int) =~= masks@);
        missing
    }

    /// Stores freshly evaluated results: first evicts the least recently
    /// used entries until the new ones fit within the capacity, then
    /// appends the new masks, in order, as most recently used.
    pub fn insert_batch(&mut self, entries: Vec<(u64, V)>)
        requires
            old(self).wf(),
            entries.len() <= old(self).spec_capacity(),
            forall|x: int, y: int| 0 <= x < y < entries.len() ==> entries@[x].0 != entries@[y].0,
            forall|x: int| 0 <= x < entries.len() ==> !old(self).spec_values().contains_key(#[trigger] entries@[x].0),
        ensures
            final(self).wf(),
            final(self).spec_capacity() == old(self).spec_capacity(),
            ({
                let evicted = eviction_count(
                    old(self).spec_order().len(),
                    entries.len() as nat,
                    old(self).spec_capacity(),
                );
                let kept = old(self).spec_order().skip(evicted as int);
                &&& final(self).spec_order() == kept + Seq::new(entries.len() as nat, |x: int| entries@[x].0)
                &&& forall|k: u64| #[trigger] final(self).spec_values().contains_key(k) <==> final(self).spec_order().contains(k)
                &&& forall|x: int| 0 <= x < entries.len() ==> final(self).spec_values()[#[trigger] entries@[x].0] == entries@[x].1
                &&& forall|k: u64| kept.contains(k) ==> #[trigger] final(self).spec_values()[k] == old(self).spec_values()[k]
            }),
    {
        broadcast use vstd::std_specs::hash::group_hash_axioms;
        let ghost o = self.order@;
        let ghost vals = self.values@;
        let ghost incoming = entries@.len();
        let ghost evicted = eviction_count(o.len(), incoming as nat, self.capacity as nat);
        let mut dropped: usize = 0;
        while entries.len() > self.capacity - self.order.len()
            invariant
                self.wf(),
                self.capacity == old(self).capacity,
                entries@.len() == incoming,
                incoming <= self.capacity,
                dropped <= o.len(),
                self.order@ == o.skip(dropped as int),
                forall|k: u64| #[trigger] self.values@.contains_key(k) ==> self.values@[k] == vals[k],
                dropped <= evicted,
                evicted == eviction_count(o.len(), incoming as nat, self.capacity as nat),
                o.len() <= self.capacity,
                dropped < evicted <==> entries.len() > self.capacity - self.order@.len(),
                forall|x: int| 0 <= x < entries.len() ==> !vals.contains_key(#[trigger] entries@[x].0),
            decreases self.order@.len(),
        {
            let ghost before = self.order@;
            let ghost vbefore = self.values@;
            match self.order.pop_front() {
                Some(key) => {
                    self.values.remove(&key);
                    proof {
                        assert(self.order@ =~= o.skip(dropped + 1));
                        assert(before[0] == key);
                        assert(!self.order@.contains(key)) by {
                            if self.order@.contains(key) {
                                let i = choose|i: int| 0 <= i < self.order@.len() && self.order@[i] == key;
                                assert(before[i + 1] == before[0]);
                            }
                        }
                        assert forall|k: u64| #[trigger] self.values@.contains_key(k) <==> self.order@.contains(k) by {
                            if self.order@.contains(k) {
                                let i = choose|i: int| 0 <= i < self.order@.len() && self.order@[i] == k;
                                assert(before[i + 1] == k);
                            }
                            if before.contains(k) && k != key {
                                let i = choose|i: int| 0 <= i < before.len() && before[i] == k;
                                assert(i > 0);
                                assert(self.order@[i - 1] == k);
                            }
                        }
                        assert(vbefore.contains_key(key));
                        assert(self.values@.len() == vbefore.len() - 1);
                    }
                    dropped = dropped + 1;
                },
                None => {
                    assert(false);
                },
            }
        }
        let ghost kept = self.order@;
        let ghost kept_values = self.values@;
        let ghost base = self.order@.len();
        let mut entries = entries;
        let ghost es = entries@;
        let mut incoming_keys: Vec<u64> = Vec::new();
        let mut stack: Vec<(u64, V)> = Vec::new();
        while entries.len() > 0
            invariant
                stack@.len() + entries@.len() == es.len(),
                forall|x: int| 0 <= x < entries@.len() ==> entries@[x] == es[x],
                forall|x: int| 0 <= x < stack@.len() ==> stack@[x] == es[es.len() - 1 - x],
            decreases entries@.len(),
        {
            let e = entries.pop().unwrap();
            stack.push(e);
        }
        let mut n: usize = 0;
        while stack.len() > 0
            invariant
                self.wf(),
                self.capacity == old(self).capacity,
                n + stack@.len() == es.len(),
                forall|x: int| 0 <= x < stack@.len() ==> stack@[x] == es[es.len() - 1 - x],
                self.order@ == kept + Seq::new(n as nat, |x: int| es[x].0),
                kept.len() + es.len() <= self.capacity,
                forall|x: int, y: int| 0 <= x < y < es.len() ==> es[x].0 != es[y].0,
                forall|x: int| 0 <= x < es.len() ==> !kept.contains(#[trigger] es[x].0),
                forall|x: int| 0 <= x < n ==> self.values@[#[trigger] es[x].0] == es[x].1,
                forall|k: u64| kept.contains(k) ==> #[trigger] self.values@[k] == kept_values[k],
                forall|k: u64| #[trigger] kept_values.contains_key(k) <==> kept.contains(k),
            decreases stack@.len(),
        {
            let (key, value) = stack.pop().unwrap();
            let ghost vbefore = self.values@;
            let ghost obefore = self.order@;
            assert(key == es[n as int].0);
            assert(!obefore.contains(key)) by {
                if obefore.contains(key) {
                    let i = choose|i: int| 0 <= i < obefore.len() && obefore[i] == key;
                    if i < kept.len() {
                        assert(kept[i] == key);
                    } else {
                        assert(es[i - kept.len()].0 == key);
                    }
                }
            }
            self.values.insert(key, value);
            self.order.push_back(key);
            proof {
                assert(self.order@ =~= kept + Seq::new((n + 1) as nat, |x: int| es[x].0));
                let t = self.order@;
                assert forall|x: int, y: int| 0 <= x < t.len() && 0 <= y < t.len() && x != y implies t[x] != t[y] by {
                    if x == obefore.len() as int {
                        assert(obefore.contains(t[y]));
                    } else if y == obefore.len() as int {
                        assert(obefore.contains(t[x]));
                    } else {
                        assert(t[x] == obefore[x] && t[y] == obefore[y]);
                    }
                }
                assert forall|k: u64| #[trigger] self.values@.contains_key(k) <==> self.order@.contains(k) by {
                    if k == key {
                        assert(t[obefore.len() as int] == key);
                    } else {
                        if t.contains(k) {
                            let i = choose|i: int| 0 <= i < t.len() && t[i] == k;
                            assert(obefore[i] == k);
                        }
                        if obefore.contains(k) {
                            let i = choose|i: int| 0 <= i < obefore.len() && obefore[i] == k;
                            assert(t[i] == k);
                        }
                    }
                }
                assert forall|x: int| 0 <= x < n + 1 implies self.values@[#[trigger] es[x].0] == es[x].1 by {
                    if x < n {
                        assert(es[x].0 != es[n as int].0);
                    }
                }
                assert forall|k: u64| kept.contains(k) implies #[trigger] self.values@[k] == kept_values[k] by {
                    assert(k != key);
                }
            }
            n = n + 1;
        }
        proof {
            assert(Seq::new(n as nat, |x: int| es[x].0) =~= Seq::new(es.len(), |x: int| es[x].0));
            assert(kept =~= o.skip(evicted as int));
            assert forall|k: u64| kept.contains(k) implies #[trigger] self.values@[k] == vals[k] by {
                assert(kept_values.contains_key(k));
            }
        }
    }
}

/// The message for a batch that would pass the model row limit.
pub open spec fn row_limit_message() -> Seq<char> {
    "model row evaluation limit exceeded"@
}

/// Running totals of one explained sample's coalition evaluation: the
/// configured model row limit, the rows evaluated so far, and the output
/// width every prediction must share.
pub struct EvaluationBudget {
    limit: Option<usize>,
    rows_evaluated: usize,
    outputs: Option<usize>,
}

impl EvaluationBudget {
    /// The model row limit.
    pub closed spec fn spec_limit(&self) -> Option<usize> {
        self.limit
    }

    /// The rows evaluated so far.
    pub closed spec fn spec_rows(&self) -> nat {
        self.rows_evaluated as nat
    }

    /// The output width seen so far, if any.
    pub closed spec fn spec_outputs(&self) -> Option<usize> {
        self.outputs
    }

    /// Whether `rows` more rows would pass the limit.
    /// The running total is added with saturation at `usize::MAX`.
    pub open spec fn exceeds(&self, rows: nat) -> bool {
        self.spec_limit() matches Some(l) && (if self.spec_rows() + rows > usize::MAX {
            usize::MAX as int
        } else {
            (self.spec_rows() + rows) as int
        }) > l
    }

    /// A fresh budget under `limit`: nothing evaluated, no width seen.
    pub fn new(limit: Option<usize>) -> (r: Self)
        ensures
            r.spec_limit() == limit,
            r.spec_rows() == 0,
            r.spec_outputs() is None,
    {
        Self { limit, rows_evaluated: 0, outputs: None }
    }

    /// The rows evaluated so far.
    pub fn rows_evaluated(&self) -> (n: usize)
        ensures
            n == self.spec_rows(),
    {
        self.rows_evaluated
    }

    /// The output width seen so far, if any.
    pub fn outputs(&self) -> (r: Option<usize>)
        ensures
            r == self.spec_outputs(),
    {
        self.outputs
    }

    /// Refuses `rows` more rows when they would take the total past the
    /// configured limit.
    pub fn allow_rows(&self, rows: usize) -> (r: Result<()>)
        ensures
            r is Ok <==> !self.exceeds(rows as nat),
            r is Err ==> is_invalid_configuration(r->Err_0, row_limit_message()),
    {
        if let Some(limit) = self.limit {
            if self.rows_evaluated.saturating_add(rows) > limit {
                return Err(invalid_configuration("model row evaluation limit exceeded"));
            }
        }
        Ok(())
    }

    /// Refuses predictions whose width differs from the one seen before.
    pub fn check_outputs(&self, cols: usize) -> (r: Result<()>)
        ensures
            r is Ok <==> !(self.spec_outputs() matches Some(o) && o != cols),
            r is Err ==> r == Err::<(), ShapError>(
                ShapError::OutputDimensionMismatch { expected: self.spec_outputs()->0, found: cols },
            ),
    {
        if let Some(o) = self.outputs {
            if o != cols {
                return Err(ShapError::OutputDimensionMismatch { expected: o, found: cols });
            }
        }
        Ok(())
    }

    /// Counts `rows` evaluated rows of width `cols`. A total past
    /// `usize::MAX` is a configuration error and changes nothing.
    pub fn record(&mut self, rows: usize, cols: usize) -> (r: Result<()>)
        ensures
            final(self).spec_limit() == old(self).spec_limit(),
            r is Ok <==> old(self).spec_rows() + rows <= usize::MAX,
            r is Ok ==> final(self).spec_rows() == old(self).spec_rows() + rows
                && final(self).spec_outputs() == Some(cols),
            r is Err ==> final(self).spec_rows() == old(self).spec_rows() && final(self).spec_outputs()
                == old(self).spec_outputs() && is_invalid_configuration(
                r->Err_0,
                "model row evaluation count overflow"@,
            ),
    {
        match self.rows_evaluated.checked_add(rows) {
            Some(total) => {
                self.rows_evaluated = total;
                self.outputs = Some(cols);
                Ok(())
            },
            None => Err(invalid_configuration("model row evaluation count overflow")),
        }
    }
}

/// Adds a masker's `part` rows to a batch of `total` rows; a sum past
/// `usize::MAX` means the batch is too large.
pub fn add_batch_rows(total: usize, part: usize) -> (r: Result<usize>)
    ensures
        r is Ok <==> total + part <= usize::MAX,
        r matches Ok(n) ==> n == total + part,
        r is Err ==> is_invalid_configuration(r->Err_0, "coalition batch is too large"@),
{
    match total.checked_add(part) {
        Some(n) => Ok(n),
        None => Err(invalid_configuration("coalition batch is too large")),
    }
}

/// The `[start, end)` bounds of consecutive chunks of at most `size` items
/// covering `len` items in order; only the last chunk may be shorter.
pub fn chunk_bounds(len: usize, size: usize) -> (r: Vec<(usize, usize)>)
    requires
        size > 0,
    ensures
        r@.len() == (len + size - 1) / size as int,
        forall|c: int|
            0 <= c < r@.len() ==> (#[trigger] r@[c]).0 == c * size && r@[c].1 == if (c + 1) * size
                <= len {
                (c + 1) * size
            } else {
                len as int
            },
{
    let mut r: Vec<(usize, usize)> = Vec::new();
    let mut start: usize = 0;
    proof {
        if len > 0 {
            assert((len + size - 1) / size as int > 0) by (nonlinear_arith)
                requires
                    len > 0,
                    size > 0,
            ;
        } else {
            assert((len + size - 1) / size as int == 0) by (nonlinear_arith)
                requires
                    len == 0,
                    size > 0,
            ;
        }
    }
    while start < len
        invariant
            size > 0,
            start <= len,
            start < len ==> start == r@.len() * size,
            start < len ==> r@.len() < (len + size - 1) / size as int,
            start >= len ==> r@.len() == (len + size - 1) / size as int,
            forall|c: int|
                0 <= c < r@.len() ==> (#[trigger] r@[c]).0 == c * size && r@[c].1 == if (c + 1)
                    * size <= len {
                    (c + 1) * size
                } else {
                    len as int
                },
        decreases len - start,
    {
        let end = if len - start > size {
            start + size
        } else {
            len
        };
        let ghost k = r@.len();
        r.push((start, end));
        proof {
            assert((k + 1) * size == k * size + size) by (nonlinear_arith);
            if end < len {
                assert((len + size - 1) / size as int > k + 1) by (nonlinear_arith)
                    requires
                        end == k * size + size,
                        end < len,
                        size > 0,
                ;
            } else {
                assert((len + size - 1) / size as int == k + 1) by (nonlinear_arith)
                    requires
                        k * size < len,
                        len <= k * size + size,
                        size > 0,
                ;
            }
        }
        start = end;
    }
    r
}

} // verus!
