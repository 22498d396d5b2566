//! A bounded least-recently-used cache of model predictions, keyed by the
//! exact bit pattern of each input row.
use vstd::prelude::*;
use std::collections::VecDeque;
use crate::error::{invalid_configuration, is_invalid_configuration, Result, ShapError};

verus! {

/// Some entry of `es` has key `k`.
pub open spec fn has_key<V>(es: Seq<(Seq<u64>, V)>, k: Seq<u64>) -> bool {
    exists|p: int| 0 <= p < es.len() && (#[trigger] es[p]).0 == k
}

/// The position of an entry with key `k` (meaningful when there is one).
pub open spec fn key_position<V>(es: Seq<(Seq<u64>, V)>, k: Seq<u64>) -> int {
    choose|p: int| 0 <= p < es.len() && (#[trigger] es[p]).0 == k
}

/// No two entries share a key.
pub open spec fn distinct_keys<V>(es: Seq<(Seq<u64>, V)>) -> bool {
    forall|p: int, q: int| 0 <= p < q < es.len() ==> (#[trigger] es[p]).0 != (#[trigger] es[q]).0
}

/// The entries with the one keyed `k`, if any, moved to the most recently
/// used end.
pub open spec fn touch<V>(es: Seq<(Seq<u64>, V)>, k: Seq<u64>) -> Seq<(Seq<u64>, V)> {
    if has_key(es, k) {
        let p = key_position(es, k);
        es.remove(p).push(es[p])
    } else {
        es
    }
}

/// The entries after looking up `rows` in turn.
pub open spec fn touch_rows<V>(es: Seq<(Seq<u64>, V)>, rows: Seq<Seq<u64>>) -> Seq<(Seq<u64>, V)>
    decreases rows.len(),
{
    if rows.len() == 0 {
        es
    } else {
        touch(touch_rows(es, rows.drop_last()), rows.last())
    }
}

/// The rows without a cached entry, each once, in order of first
/// appearance.
pub open spec fn missing_rows<V>(rows: Seq<Seq<u64>>, es: Seq<(Seq<u64>, V)>) -> Seq<Seq<u64>>
    decreases rows.len(),
{
    if rows.len() == 0 {
        seq![]
    } else {
        let earlier = missing_rows(rows.drop_last(), es);
        let k = rows.last();
        if !has_key(es, k) && !earlier.contains(k) {
            earlier.push(k)
        } else {
            earlier
        }
    }
}

/// The entries left after evicting least recently used ones until fewer
/// than `capacity` remain.
pub open spec fn trimmed<V>(es: Seq<(Seq<u64>, V)>, capacity: nat) -> Seq<(Seq<u64>, V)> {
    if es.len() >= capacity {
        es.skip(es.len() - capacity + 1)
    } else {
        es
    }
}

/// The entries without the one keyed `k`, if any.
pub open spec fn drop_key<V>(es: Seq<(Seq<u64>, V)>, k: Seq<u64>) -> Seq<(Seq<u64>, V)> {
    if has_key(es, k) {
        es.remove(key_position(es, k))
    } else {
        es
    }
}

/// Storing entry `e`: evict to make room, then `e` replaces any entry with
/// its key and becomes the most recently used.
pub open spec fn insert_entry<V>(es: Seq<(Seq<u64>, V)>, e: (Seq<u64>, V), capacity: nat) -> Seq<
    (Seq<u64>, V),
> {
    drop_key(trimmed(es, capacity), e.0).push(e)
}

/// Storing `new` entries one after another.
pub open spec fn insert_entries<V>(
    es: Seq<(Seq<u64>, V)>,
    new: Seq<(Seq<u64>, V)>,
    capacity: nat,
) -> Seq<(Seq<u64>, V)>
    decreases new.len(),
{
    if new.len() == 0 {
        es
    } else {
        insert_entry(insert_entries(es, new.drop_last(), capacity), new.last(), capacity)
    }
}

/// With distinct keys, the entry keyed `k` is the one at `p`.
proof fn lemma_key_position<V>(es: Seq<(Seq<u64>, V)>, p: int)
    requires
        distinct_keys(es),
        0 <= p < es.len(),
    ensures
        has_key(es, es[p].0),
        key_position(es, es[p].0) == p,
{
    assert(es[p].0 == es[p].0);
    let q = key_position(es, es[p].0);
    if q != p {
        if q < p {
            assert(es[q].0 != es[p].0);
        } else {
            assert(es[p].0 != es[q].0);
        }
    }
}

/// Removing an entry keeps the other keys and their distinctness.
proof fn lemma_remove_keys<V>(es: Seq<(Seq<u64>, V)>, p: int)
    requires
        distinct_keys(es),
        0 <= p < es.len(),
    ensures
        distinct_keys(es.remove(p)),
        forall|k: Seq<u64>| has_key(es.remove(p), k) <==> (has_key(es, k) && k != es[p].0),
{
    let r = es.remove(p);
    assert forall|a: int, b: int| 0 <= a < b < r.len() implies (#[trigger] r[a]).0 != (
    #[trigger] r[b]).0 by {
        let a2 = if a < p {
            a
        } else {
            a + 1
        };
        let b2 = if b < p {
            b
        } else {
            b + 1
        };
        assert(r[a] == es[a2] && r[b] == es[b2]);
        assert(es[a2].0 != es[b2].0);
    }
    assert forall|k: Seq<u64>| has_key(r, k) <==> (has_key(es, k) && k != es[p].0) by {
        if has_key(r, k) {
            let a = choose|a: int| 0 <= a < r.len() && (#[trigger] r[a]).0 == k;
            let a2 = if a < p {
                a
            } else {
                a + 1
            };
            assert(r[a] == es[a2]);
            assert(es[a2].0 == k);
            if a2 < p {
                assert(es[a2].0 != es[p].0);
            } else {
                assert(es[p].0 != es[a2].0);
            }
        }
        if has_key(es, k) && k != es[p].0 {
            let a = choose|a: int| 0 <= a < es.len() && (#[trigger] es[a]).0 == k;
            assert(a != p);
            if a < p {
                assert(r[a] == es[a]);
            } else {
                assert(r[a - 1] == es[a]);
            }
        }
    }
}

/// Appending an entry with a fresh key keeps keys distinct.
proof fn lemma_push_keys<V>(es: Seq<(Seq<u64>, V)>, e: (Seq<u64>, V))
    requires
        distinct_keys(es),
        !has_key(es, e.0),
    ensures
        distinct_keys(es.push(e)),
        forall|k: Seq<u64>| has_key(es.push(e), k) <==> (has_key(es, k) || k == e.0),
{
    let t = es.push(e);
    assert forall|a: int, b: int| 0 <= a < b < t.len() implies (#[trigger] t[a]).0 != (
    #[trigger] t[b]).0 by {
        if b == es.len() {
            assert(t[a] == es[a]);
            if es[a].0 == e.0 {
                assert(has_key(es, e.0));
            }
        } else {
            assert(t[a] == es[a] && t[b] == es[b]);
        }
    }
    assert forall|k: Seq<u64>| has_key(t, k) <==> (has_key(es, k) || k == e.0) by {
        if has_key(t, k) {
            let a = choose|a: int| 0 <= a < t.len() && (#[trigger] t[a]).0 == k;
            if a < es.len() {
                assert(t[a] == es[a]);
            }
        }
        if has_key(es, k) {
            let a = choose|a: int| 0 <= a < es.len() && (#[trigger] es[a]).0 == k;
            assert(t[a] == es[a]);
        }
        if k == e.0 {
            assert(t[es.len() as int] == e);
        }
    }
}

/// Looking a key up permutes the entries: the keys stay distinct and the
/// same, and the length is unchanged.
proof fn lemma_touch_keys<V>(es: Seq<(Seq<u64>, V)>, k: Seq<u64>)
    requires
        distinct_keys(es),
    ensures
        distinct_keys(touch(es, k)),
        touch(es, k).len() == es.len(),
        forall|x: Seq<u64>| has_key(touch(es, k), x) <==> has_key(es, x),
{
    if has_key(es, k) {
        let p = key_position(es, k);
        lemma_remove_keys(es, p);
        lemma_push_keys(es.remove(p), es[p]);
        assert forall|x: Seq<u64>| has_key(touch(es, k), x) <==> has_key(es, x) by {
            if x == es[p].0 {
                assert(has_key(es, x));
            }
        }
    }
}

/// Looking rows up permutes the entries.
proof fn lemma_touch_rows_keys<V>(es: Seq<(Seq<u64>, V)>, rows: Seq<Seq<u64>>)
    requires
        distinct_keys(es),
    ensures
        distinct_keys(touch_rows(es, rows)),
        touch_rows(es, rows).len() == es.len(),
        forall|x: Seq<u64>| has_key(touch_rows(es, rows), x) <==> has_key(es, x),
    decreases rows.len(),
{
    if rows.len() > 0 {
        lemma_touch_rows_keys(es, rows.drop_last());
        lemma_touch_keys(touch_rows(es, rows.drop_last()), rows.last());
    }
}

/// Storing an entry keeps the keys distinct and the cache within its
/// capacity.
proof fn lemma_insert_entry_keys<V>(es: Seq<(Seq<u64>, V)>, e: (Seq<u64>, V), capacity: nat)
    requires
        distinct_keys(es),
        capacity > 0,
    ensures
        distinct_keys(insert_entry(es, e, capacity)),
        insert_entry(es, e, capacity).len() <= capacity,
        es.len() <= capacity ==> insert_entry(es, e, capacity).len() <= es.len() + 1,
{
    let t = trimmed(es, capacity);
    assert(distinct_keys(t)) by {
        if es.len() >= capacity {
            let d = es.len() - capacity + 1;
            assert forall|a: int, b: int| 0 <= a < b < t.len() implies (#[trigger] t[a]).0 != (
            #[trigger] t[b]).0 by {
                assert(t[a] == es[a + d] && t[b] == es[b + d]);
            }
        }
    }
    let d = drop_key(t, e.0);
    if has_key(t, e.0) {
        let p = key_position(t, e.0);
        lemma_remove_keys(t, p);
        assert(!has_key(d, e.0));
    }
    lemma_push_keys(d, e);
}

/// The value stored for key `k` in `es` (meaningful when there is one).
pub open spec fn value_of<V>(es: Seq<(Seq<u64>, V)>, k: Seq<u64>) -> V {
    es[key_position(es, k)].1
}

/// Storing an entry and then looking its key up finds exactly the stored
/// value, as the most recently used entry; keys stay distinct and the cache
/// stays within its capacity.
pub proof fn lemma_stored_entry_is_found<V>(es: Seq<(Seq<u64>, V)>, e: (Seq<u64>, V), capacity: nat)
    requires
        distinct_keys(es),
        capacity > 0,
    ensures
        distinct_keys(insert_entry(es, e, capacity)),
        insert_entry(es, e, capacity).len() <= capacity,
        has_key(insert_entry(es, e, capacity), e.0),
        key_position(insert_entry(es, e, capacity), e.0) == insert_entry(es, e, capacity).len() - 1,
        value_of(insert_entry(es, e, capacity), e.0) == e.1,
{
    lemma_insert_entry_keys(es, e, capacity);
    let n = insert_entry(es, e, capacity);
    assert(n.last() == e);
    lemma_key_position(n, n.len() - 1);
}

/// Looking a key up changes only the recency order: every key keeps its
/// value.
proof fn lemma_touch_values<V>(es: Seq<(Seq<u64>, V)>, k: Seq<u64>)
    requires
        distinct_keys(es),
    ensures
        forall|x: Seq<u64>| has_key(es, x) ==> #[trigger] value_of(touch(es, k), x) == value_of(es, x),
{
    lemma_touch_keys(es, k);
    if has_key(es, k) {
        let p = key_position(es, k);
        let t = touch(es, k);
        assert(t == es.remove(p).push(es[p]));
        assert forall|x: Seq<u64>| has_key(es, x) implies #[trigger] value_of(t, x) == value_of(es, x) by {
            let q = key_position(es, x);
            lemma_key_position(es, q);
            if q == p {
                assert(t[t.len() - 1] == es[p]);
                lemma_key_position(t, t.len() - 1);
            } else if q < p {
                assert(t[q] == es[q]);
                lemma_key_position(t, q);
            } else {
                assert(t[q - 1] == es[q]);
                lemma_key_position(t, q - 1);
            }
        }
    }
}

/// Looking rows up only reorders the cache: the same keys stay cached, each
/// with the value it had.
pub proof fn lemma_lookups_keep_values<V>(es: Seq<(Seq<u64>, V)>, rows: Seq<Seq<u64>>)
    requires
        distinct_keys(es),
    ensures
        forall|x: Seq<u64>| has_key(touch_rows(es, rows), x) <==> has_key(es, x),
        forall|x: Seq<u64>| has_key(es, x) ==> #[trigger] value_of(touch_rows(es, rows), x) == value_of(es, x),
    decreases rows.len(),
{
    lemma_touch_rows_keys(es, rows);
    if rows.len() > 0 {
        let before = touch_rows(es, rows.drop_last());
        lemma_lookups_keep_values(es, rows.drop_last());
        lemma_touch_rows_keys(es, rows.drop_last());
        lemma_touch_values(before, rows.last());
        assert forall|x: Seq<u64>| has_key(es, x) implies #[trigger] value_of(touch_rows(es, rows), x)
            == value_of(es, x) by {
            assert(has_key(before, x));
            assert(value_of(touch(before, rows.last()), x) == value_of(before, x));
        }
    }
}

/// Every cached entry holds what `f` gives for its key.
pub open spec fn entries_agree<V>(es: Seq<(Seq<u64>, V)>, f: spec_fn(Seq<u64>) -> V) -> bool {
    forall|p: int| 0 <= p < es.len() ==> #[trigger] es[p].1 == f(es[p].0)
}

/// Entries drawn from entries that agree with `f` agree with it too.
proof fn lemma_agree_within<V>(es: Seq<(Seq<u64>, V)>, t: Seq<(Seq<u64>, V)>, f: spec_fn(Seq<u64>) -> V)
    requires
        entries_agree(es, f),
        forall|p: int| 0 <= p < t.len() ==> es.contains(#[trigger] t[p]),
    ensures
        entries_agree(t, f),
{
    assert forall|p: int| 0 <= p < t.len() implies #[trigger] t[p].1 == f(t[p].0) by {
        assert(es.contains(t[p]));
        let q = choose|q: int| 0 <= q < es.len() && es[q] == t[p];
        assert(es[q].1 == f(es[q].0));
    }
}

/// Looking rows up keeps every entry agreeing with `f`.
proof fn lemma_touch_rows_agree<V>(es: Seq<(Seq<u64>, V)>, rows: Seq<Seq<u64>>, f: spec_fn(Seq<u64>) -> V)
    requires
        entries_agree(es, f),
    ensures
        entries_agree(touch_rows(es, rows), f),
    decreases rows.len(),
{
    if rows.len() > 0 {
        let before = touch_rows(es, rows.drop_last());
        lemma_touch_rows_agree(es, rows.drop_last(), f);
        let k = rows.last();
        if has_key(before, k) {
            let p = key_position(before, k);
            let t = before.remove(p).push(before[p]);
            assert forall|x: int| 0 <= x < t.len() implies before.contains(#[trigger] t[x]) by {
                if x < p {
                    assert(t[x] == before[x]);
                } else if x < t.len() - 1 {
                    assert(t[x] == before[x + 1]);
                } else {
                    assert(t[x] == before[p]);
                }
            }
            lemma_agree_within(before, t, f);
        }
    }
}

/// Storing entries that agree with `f` keeps every entry agreeing with it.
proof fn lemma_insert_entries_agree<V>(
    es: Seq<(Seq<u64>, V)>,
    new: Seq<(Seq<u64>, V)>,
    capacity: nat,
    f: spec_fn(Seq<u64>) -> V,
)
    requires
        entries_agree(es, f),
        entries_agree(new, f),
        capacity > 0,
    ensures
        entries_agree(insert_entries(es, new, capacity), f),
    decreases new.len(),
{
    if new.len() > 0 {
        let init = new.drop_last();
        assert forall|p: int| 0 <= p < init.len() implies #[trigger] init[p].1 == f(init[p].0) by {
            assert(init[p] == new[p]);
        }
        lemma_insert_entries_agree(es, init, capacity, f);
        let before = insert_entries(es, init, capacity);
        let e = new.last();
        assert(e.1 == f(e.0)) by {
            assert(new[new.len() - 1] == e);
        }
        let tr = trimmed(before, capacity);
        assert forall|x: int| 0 <= x < tr.len() implies before.contains(#[trigger] tr[x]) by {
            if before.len() >= capacity {
                assert(tr[x] == before[x + before.len() - capacity + 1]);
            } else {
                assert(tr[x] == before[x]);
            }
        }
        lemma_agree_within(before, tr, f);
        let d = drop_key(tr, e.0);
        if has_key(tr, e.0) {
            let p = key_position(tr, e.0);
            assert forall|x: int| 0 <= x < d.len() implies tr.contains(#[trigger] d[x]) by {
                if x < p {
                    assert(d[x] == tr[x]);
                } else {
                    assert(d[x] == tr[x + 1]);
                }
            }
            lemma_agree_within(tr, d, f);
        }
        let t = d.push(e);
        assert forall|x: int| 0 <= x < t.len() implies #[trigger] t[x].1 == f(t[x].0) by {
            if x < d.len() {
                assert(t[x] == d[x]);
            }
        }
        assert(insert_entries(es, new, capacity) == t);
    }
}

/// Served through the cache, a deterministic model's predictions are the
/// model's own. Let `f` give the model's prediction for each row's bits, and
/// let every cached prediction be `f` of its row. Then after the lookups of
/// a batch `rows`, every row that was cached still finds `f` of itself; and
/// once the batch's missing rows are stored with `f`'s predictions for them,
/// every cached prediction is again `f` of its row.
pub proof fn lemma_cache_serves_model<V>(
    es: Seq<(Seq<u64>, V)>,
    rows: Seq<Seq<u64>>,
    f: spec_fn(Seq<u64>) -> V,
    capacity: nat,
)
    requires
        distinct_keys(es),
        entries_agree(es, f),
        capacity > 0,
    ensures
        forall|i: int|
            0 <= i < rows.len() && has_key(es, rows[i]) ==> #[trigger] value_of(
                touch_rows(es, rows),
                rows[i],
            ) == f(rows[i]),
        entries_agree(
            insert_entries(
                touch_rows(es, rows),
                missing_rows(rows, es).map_values(|k: Seq<u64>| (k, f(k))),
                capacity,
            ),
            f,
        ),
{
    lemma_lookups_keep_values(es, rows);
    assert forall|i: int| 0 <= i < rows.len() && has_key(es, rows[i]) implies #[trigger] value_of(
        touch_rows(es, rows),
        rows[i],
    ) == f(rows[i]) by {
        let p = key_position(es, rows[i]);
        assert(es[p].1 == f(es[p].0));
    }
    lemma_touch_rows_agree(es, rows, f);
    let new = missing_rows(rows, es).map_values(|k: Seq<u64>| (k, f(k)));
    assert forall|p: int| 0 <= p < new.len() implies #[trigger] new[p].1 == f(new[p].0) by {}
    lemma_insert_entries_agree(touch_rows(es, rows), new, capacity, f);
}

/// A bounded least-recently-used cache of predictions keyed by input rows'
/// bit patterns, which also remembers the output width it has seen.
pub struct PredictionCache<V> {
    capacity: usize,
    entries: VecDeque<(Vec<u64>, V)>,
    outputs: Option<usize>,
}

impl<V> PredictionCache<V> {
    /// The cached entries, least recently used first.
    pub closed spec fn spec_entries(&self) -> Seq<(Seq<u64>, V)> {
        self.entries@.map_values(|e: (Vec<u64>, V)| (e.0@, e.1))
    }

    /// The largest number of cached entries.
    pub closed spec fn spec_capacity(&self) -> nat {
        self.capacity as nat
    }

    /// The number of outputs per prediction seen so far, if any.
    pub closed spec fn spec_outputs(&self) -> Option<usize> {
        self.outputs
    }

    /// A positive capacity, distinct keys, and at most `capacity` entries.
    pub open spec fn wf(&self) -> bool {
        &&& self.spec_capacity() > 0
        &&& distinct_keys(self.spec_entries())
        &&& self.spec_entries().len() <= self.spec_capacity()
    }

    /// An empty cache for up to `capacity` rows; a zero capacity is a
    /// configuration error.
    pub fn new(capacity: usize) -> (r: Result<Self>)
        ensures
            r is Ok <==> capacity > 0,
            r matches Ok(c) ==> c.wf() && c.spec_capacity() == capacity && c.spec_entries()
                == Seq::<(Seq<u64>, V)>::empty() && c.spec_outputs() is None,
            r is Err ==> is_invalid_configuration(
                r->Err_0,
                "prediction cache capacity must be positive"@,
            ),
    {
        if capacity == 0 {
            return Err(invalid_configuration("prediction cache capacity must be positive"));
        }
        let c = Self { capacity, entries: VecDeque::new(), outputs: None };
        assert(c.spec_entries() =~= Seq::<(Seq<u64>, V)>::empty());
        Ok(c)
    }

    /// The largest number of cached rows.
    pub fn capacity(&self) -> (n: usize)
        ensures
            n == self.spec_capacity(),
    {
        self.capacity
    }

    /// The number of cached rows.
    pub fn len(&self) -> (n: usize)
        ensures
            n == self.spec_entries().len(),
    {
        self.entries.len()
    }

    /// Forgets every cached row and the output width.
    pub fn clear(&mut self)
        requires
            old(self).wf(),
        ensures
            final(self).wf(),
            final(self).spec_capacity() == old(self).spec_capacity(),
            final(self).spec_entries() == Seq::<(Seq<u64>, V)>::empty(),
            final(self).spec_outputs() is None,
    {
        self.entries.clear();
        self.outputs = None;
        assert(self.spec_entries() =~= Seq::<(Seq<u64>, V)>::empty());
    }

    /// The number of outputs per prediction seen so far, if any.
    pub fn outputs(&self) -> (r: Option<usize>)
        ensures
            r == self.spec_outputs(),
    {
        self.outputs
    }

    /// Records that predictions have `n` outputs; a width different from
    /// the one seen before is an output dimension mismatch and changes
    /// nothing.
    pub fn record_outputs(&mut self, n: usize) -> (r: Result<()>)
        requires
            old(self).wf(),
        ensures
            final(self).wf(),
            final(self).spec_capacity() == old(self).spec_capacity(),
            final(self).spec_entries() == old(self).spec_entries(),
            r is Ok <==> !(old(self).spec_outputs() matches Some(o) && o != n),
            r is Ok ==> final(self).spec_outputs() == Some(n),
            r is Err ==> final(self).spec_outputs() == old(self).spec_outputs() && r
                == Err::<(), ShapError>(
                ShapError::OutputDimensionMismatch { expected: old(self).spec_outputs()->0, found: n },
            ),
    {
        if let Some(o) = self.outputs {
            if o != n {
                return Err(ShapError::OutputDimensionMismatch { expected: o, found: n });
            }
        }
        self.outputs = Some(n);
        Ok(())
    }

    fn same_row(a: &Vec<u64>, b: &Vec<u64>) -> (r: bool)
        ensures
            r == (a@ == b@),
    {
        if a.len() != b.len() {
            return false;
        }
        let mut i: usize = 0;
        while i < a.len()
            invariant
                i <= a.len(),
                a.len() == b.len(),
                forall|j: int| 0 <= j < i ==> a@[j] == b@[j],
            decreases a.len() - i,
        {
            if a[i] != b[i] {
                return false;
            }
            i = i + 1;
        }
        assert(a@ =~= b@);
        true
    }

    fn copy_row(a: &Vec<u64>) -> (r: Vec<u64>)
        ensures
            r@ == a@,
    {
        let mut r: Vec<u64> = Vec::new();
        let mut i: usize = 0;
        while i < a.len()
            invariant
                i <= a.len(),
                r@ == a@.take(i as int),
            decreases a.len() - i,
        {
            r.push(a[i]);
            assert(a@.take(i + 1) =~= a@.take(i as int).push(a@[i as int]));
            i = i + 1;
        }
        assert(a@.take(a.len() as int) =~= a@);
        r
    }

    fn find(&self, key: &Vec<u64>) -> (r: Option<usize>)
        ensures
            r matches Some(p) ==> p < self.spec_entries().len() && self.spec_entries()[p as int].0
                == key@,
            r is None ==> !has_key(self.spec_entries(), key@),
    {
        let mut p: usize = 0;
        while p < self.entries.len()
            invariant
                p <= self.entries@.len(),
                forall|q: int| 0 <= q < p ==> (#[trigger] self.spec_entries()[q]).0 != key@,
            decreases self.entries@.len() - p,
        {
            if Self::same_row(&self.entries[p].0, key) {
                return Some(p);
            }
            p = p + 1;
        }
        None
    }

    /// The cached prediction for `key`, without changing its recency.
    pub fn get(&self, key: &Vec<u64>) -> (r: Option<&V>)
        requires
            self.wf(),
        ensures
            r is Some <==> has_key(self.spec_entries(), key@),
            r matches Some(v) ==> *v == self.spec_entries()[key_position(
                self.spec_entries(),
                key@,
            )].1,
    {
        match self.find(key) {
            Some(p) => {
                proof {
                    lemma_key_position(self.spec_entries(), p as int);
                }
                Some(&self.entries[p].1)
            },
            None => None,
        }
    }

    /// Moves the entry at `p` to the most recently used end.
    fn touch_at(&mut self, p: usize)
        requires
            old(self).wf(),
            p < old(self).spec_entries().len(),
        ensures
            final(self).wf(),
            final(self).spec_capacity() == old(self).spec_capacity(),
            final(self).spec_outputs() == old(self).spec_outputs(),
            final(self).spec_entries() == touch(
                old(self).spec_entries(),
                old(self).spec_entries()[p as int].0,
            ),
    {
        let ghost es = self.spec_entries();
        let ghost raw = self.entries@;
        proof {
            lemma_key_position(es, p as int);
            lemma_touch_keys(es, es[p as int].0);
        }
        match self.entries.remove(p) {
            Some(e) => {
                self.entries.push_back(e);
                assert(self.spec_entries() =~= es.remove(p as int).push(es[p as int]));
            },
            None => {},
        }
    }

    /// Looks up `rows` in turn. Each cached row becomes most recently used;
    /// the rows without an entry are returned once each, in order of first
    /// appearance, and each row is told whether it was cached (`None`) or
    /// which missing row it is (`Some(j)`).
    pub fn plan(&mut self, rows: &Vec<Vec<u64>>) -> (r: (Vec<Option<usize>>, Vec<Vec<u64>>))
        requires
            old(self).wf(),
        ensures
            final(self).wf(),
            final(self).spec_capacity() == old(self).spec_capacity(),
            final(self).spec_outputs() == old(self).spec_outputs(),
            final(self).spec_entries() == touch_rows(old(self).spec_entries(), rows.deep_view()),
            r.1.deep_view() == missing_rows(rows.deep_view(), old(self).spec_entries()),
            r.0@.len() == rows.len(),
            forall|i: int|
                0 <= i < rows.len() ==> (#[trigger] r.0@[i] is None <==> has_key(
                    old(self).spec_entries(),
                    rows@[i]@,
                )),
            forall|i: int|
                0 <= i < rows.len() ==> (#[trigger] r.0@[i] matches Some(j) ==> j < r.1.len()
                    && r.1@[j as int]@ == rows@[i]@),
    {
        let ghost es = self.spec_entries();
        let ghost rv = rows.deep_view();
        let mut sources: Vec<Option<usize>> = Vec::new();
        let mut missing: Vec<Vec<u64>> = Vec::new();
        let mut i: usize = 0;
        while i < rows.len()
            invariant
                self.wf(),
                self.capacity == old(self).capacity,
                self.outputs == old(self).outputs,
                es == old(self).spec_entries(),
                distinct_keys(es),
                rv == rows.deep_view(),
                i <= rows.len(),
                self.spec_entries() == touch_rows(es, rv.take(i as int)),
                missing.deep_view() == missing_rows(rv.take(i as int), es),
                sources@.len() == i,
                forall|k: int|
                    0 <= k < i ==> (#[trigger] sources@[k] is None <==> has_key(es, rows@[k]@)),
                forall|k: int|
                    0 <= k < i ==> (#[trigger] sources@[k] matches Some(j) ==> j < missing.len()
                        && missing@[j as int]@ == rows@[k]@),
            decreases rows.len() - i,
        {
            let row = &rows[i];
            proof {
                assert(rv.take(i + 1).drop_last() =~= rv.take(i as int));
                assert(rv.take(i + 1).last() == row@);
                lemma_touch_rows_keys(es, rv.take(i as int));
            }
            match self.find(row) {
                Some(p) => {
                    self.touch_at(p);
                    sources.push(None);
                    assert(has_key(es, row@));
                },
                None => {
                    assert(!has_key(es, row@));
                    let mut j: usize = 0;
                    let mut found: Option<usize> = None;
                    while j < missing.len()
                        invariant
                            j <= missing.len(),
                            found matches Some(x) ==> x < missing.len() && missing@[x as int]@
                                == row@,
                            found is None ==> forall|x: int| 0 <= x < j ==> missing@[x]@ != row@,
                        decreases missing.len() - j,
                    {
                        if found.is_none() && Self::same_row(&missing[j], row) {
                            found = Some(j);
                        }
                        j = j + 1;
                    }
                    match found {
                        Some(x) => {
                            sources.push(Some(x));
                            assert(missing.deep_view()[x as int] == row@);
                        },
                        None => {
                            assert(!missing.deep_view().contains(row@)) by {
                                if missing.deep_view().contains(row@) {
                                    let x = choose|x: int|
                                        0 <= x < missing.deep_view().len()
                                            && missing.deep_view()[x] == row@;
                                    assert(missing@[x]@ == row@);
                                }
                            }
                            let ghost before = missing.deep_view();
                            let n = missing.len();
                            let copy = Self::copy_row(row);
                            missing.push(copy);
                            sources.push(Some(n));
                            assert(missing.deep_view() =~= before.push(row@));
                        },
                    }
                },
            }
            i = i + 1;
        }
        assert(rv.take(rows.len() as int) =~= rv);
        (sources, missing)
    }

    /// Stores predictions for `keys`, one after another: before each,
    /// least recently used entries are evicted until there is room, then
    /// the new entry replaces any entry with its key and becomes the most
    /// recently used.
    pub fn insert_all(&mut self, keys: Vec<Vec<u64>>, values: Vec<V>)
        requires
            old(self).wf(),
            keys.len() == values.len(),
        ensures
            final(self).wf(),
            final(self).spec_capacity() == old(self).spec_capacity(),
            final(self).spec_outputs() == old(self).spec_outputs(),
            final(self).spec_entries() == insert_entries(
                old(self).spec_entries(),
                Seq::new(keys.len() as nat, |x: int| (keys@[x]@, values@[x])),
                old(self).spec_capacity(),
            ),
    {
        let ghost new = Seq::new(keys.len() as nat, |x: int| (keys@[x]@, values@[x]));
        let ghost es0 = self.spec_entries();
        let mut keys = keys;
        let mut values = values;
        let ghost ks = keys@;
        let ghost vs = values@;
        let mut rk: Vec<Vec<u64>> = Vec::new();
        let mut rv: Vec<V> = Vec::new();
        while keys.len() > 0
            invariant
                ks.len() == vs.len(),
                keys@.len() == values@.len(),
                rk@.len() == rv@.len(),
                rk@.len() + keys@.len() == ks.len(),
                forall|x: int| 0 <= x < keys@.len() ==> #[trigger] keys@[x] == ks[x],
                forall|x: int| 0 <= x < values@.len() ==> #[trigger] values@[x] == vs[x],
                forall|x: int| 0 <= x < rk@.len() ==> #[trigger] rk@[x] == ks[ks.len() - 1 - x],
                forall|x: int| 0 <= x < rv@.len() ==> #[trigger] rv@[x] == vs[vs.len() - 1 - x],
            decreases keys@.len(),
        {
            rk.push(keys.pop().unwrap());
            rv.push(values.pop().unwrap());
        }
        let mut keys = rk;
        let mut values = rv;
        let mut n: usize = 0;
        while keys.len() > 0
            invariant
                self.wf(),
                self.capacity == old(self).capacity,
                self.outputs == old(self).outputs,
                ks.len() == vs.len(),
                new == Seq::new(ks.len() as nat, |x: int| (ks[x]@, vs[x])),
                keys@.len() == values@.len(),
                n + keys@.len() == ks.len(),
                ks.len() <= usize::MAX,
                forall|x: int| 0 <= x < keys@.len() ==> #[trigger] keys@[x] == ks[ks.len() - 1 - x],
                forall|x: int| 0 <= x < values@.len() ==> #[trigger] values@[x] == vs[vs.len() - 1 - x],
                self.spec_entries() == insert_entries(es0, new.take(n as int), self.capacity as nat),
            decreases keys@.len(),
        {
            let key = keys.pop().unwrap();
            let value = values.pop().unwrap();
            let ghost before = self.spec_entries();
            proof {
                assert(key == ks[n as int]);
                assert(value == vs[n as int]);
                assert(new.take(n + 1).drop_last() =~= new.take(n as int));
                assert(new.take(n + 1).last() == (key@, value));
                lemma_insert_entry_keys(before, (key@, value), self.capacity as nat);
            }
            while self.entries.len() >= self.capacity
                invariant
                    self.capacity > 0,
                    self.capacity == old(self).capacity,
                    self.outputs == old(self).outputs,
                    before.len() <= self.capacity,
                    distinct_keys(before),
                    self.spec_entries().len() <= before.len(),
                    self.spec_entries() == before.skip(before.len() - self.spec_entries().len()),
                    self.spec_entries().len() == before.len() || self.spec_entries().len()
                        >= self.capacity - 1,
                    before.len() < self.capacity ==> self.spec_entries().len() == before.len(),
                decreases self.entries@.len(),
            {
                let ghost cur = self.spec_entries();
                let _ = self.entries.pop_front();
                assert(self.spec_entries() =~= cur.skip(1));
                assert(self.spec_entries() =~= before.skip(before.len() - self.spec_entries().len()));
            }
            proof {
                if before.len() >= self.capacity {
                    assert(self.spec_entries().len() == self.capacity - 1);
                    assert(self.spec_entries() == trimmed(before, self.capacity as nat));
                } else {
                    assert(self.spec_entries() =~= before.skip(0));
                    assert(before.skip(0) =~= before);
                    assert(self.spec_entries() == trimmed(before, self.capacity as nat));
                }
            }
            let ghost t = self.spec_entries();
            proof {
                assert(distinct_keys(t)) by {
                    let d = before.len() - t.len();
                    assert forall|a: int, b: int| 0 <= a < b < t.len() implies (#[trigger] t[a]).0
                        != (#[trigger] t[b]).0 by {
                        assert(t[a] == before[a + d] && t[b] == before[b + d]);
                    }
                }
            }
            match self.find(&key) {
                Some(p) => {
                    proof {
                        lemma_key_position(t, p as int);
                    }
                    let _ = self.entries.remove(p);
                    assert(self.spec_entries() =~= t.remove(p as int));
                },
                None => {},
            }
            assert(self.spec_entries() == drop_key(t, key@));
            let ghost d = self.spec_entries();
            self.entries.push_back((key, value));
            assert(self.spec_entries() =~= d.push((key@, value)));
            n = n + 1;
        }
        assert(new.take(ks.len() as int) =~= new);
    }
}

impl<V: Clone> PredictionCache<V> {
    /// The cached predictions of a planned batch: for each row that `plan`
    /// found cached (source `None`), a clone of its cached value; nothing
    /// for the rows still to be predicted.
    pub fn lookup_hits(&self, rows: &Vec<Vec<u64>>, sources: &Vec<Option<usize>>) -> (r: Vec<Option<V>>)
        requires
            self.wf(),
            sources.len() == rows.len(),
        ensures
            r.len() == rows.len(),
            forall|i: int|
                0 <= i < rows.len() ==> (#[trigger] r@[i] is Some <==> sources@[i] is None && has_key(
                    self.spec_entries(),
                    rows@[i]@,
                )),
            forall|i: int|
                0 <= i < rows.len() && r@[i] is Some ==> cloned(
                    value_of(self.spec_entries(), rows@[i]@),
                    #[trigger] r@[i]->0,
                ),
    {
        let mut r: Vec<Option<V>> = Vec::new();
        let mut i: usize = 0;
        while i < rows.len()
            invariant
                self.wf(),
                sources.len() == rows.len(),
                i <= rows.len(),
                r.len() == i,
                forall|x: int|
                    0 <= x < i ==> (#[trigger] r@[x] is Some <==> sources@[x] is None && has_key(
                        self.spec_entries(),
                        rows@[x]@,
                    )),
                forall|x: int|
                    0 <= x < i && r@[x] is Some ==> cloned(
                        value_of(self.spec_entries(), rows@[x]@),
                        #[trigger] r@[x]->0,
                    ),
            decreases rows.len() - i,
        {
            let hit = match sources[i] {
                None => match self.get(&rows[i]) {
                    Some(v) => Some(v.clone()),
                    None => None,
                },
                Some(_) => None,
            };
            r.push(hit);
            i = i + 1;
        }
        r
    }
}

/// The predictions served for a batch, row by row: a row whose source is
/// `Some(j)` gets a clone of the `j`-th fresh prediction; any other row
/// keeps what `cached` holds for it.
pub fn assemble_predictions<V: Clone>(
    cached: Vec<Option<V>>,
    sources: &Vec<Option<usize>>,
    predicted: &Vec<V>,
) -> (r: Vec<Option<V>>)
    requires
        cached.len() == sources.len(),
        forall|i: int| 0 <= i < sources.len() ==> (#[trigger] sources@[i] matches Some(j) ==> j < predicted.len()),
    ensures
        r.len() == sources.len(),
        forall|i: int|
            0 <= i < sources.len() ==> (#[trigger] sources@[i] matches Some(j) ==> r@[i] is Some && cloned(
                predicted@[j as int],
                r@[i]->0,
            )),
        forall|i: int| 0 <= i < sources.len() ==> (#[trigger] sources@[i] is None ==> r@[i] == cached@[i]),
{
    let mut r = cached;
    let ghost original = r@;
    let mut i: usize = 0;
    while i < sources.len()
        invariant
            r.len() == sources.len(),
            original.len() == sources.len(),
            i <= sources.len(),
            forall|x: int| 0 <= x < sources.len() ==> (#[trigger] sources@[x] matches Some(j) ==> j < predicted.len()),
            forall|x: int|
                0 <= x < i ==> (#[trigger] sources@[x] matches Some(j) ==> r@[x] is Some && cloned(
                    predicted@[j as int],
                    r@[x]->0,
                )),
            forall|x: int| 0 <= x < sources.len() && !(0 <= x < i && sources@[x] is Some) ==> #[trigger] r@[x] == original[x],
        decreases sources.len() - i,
    {
        match sources[i] {
            Some(j) => {
                let v = predicted[j].clone();
                r.set(i, Some(v));
            },
            None => {},
        }
        i = i + 1;
    }
    r
}

/// What a batch serves for row `i`: the `j`-th fresh prediction when the
/// row's source is `Some(j)`, its cached value otherwise.
pub open spec fn served<V>(
    es: Seq<(Seq<u64>, V)>,
    rows: Seq<Seq<u64>>,
    sources: Seq<Option<usize>>,
    predicted: Seq<V>,
    i: int,
) -> V {
    match sources[i] {
        Some(j) => predicted[j as int],
        None => value_of(es, rows[i]),
    }
}

/// A batch served through the cache is the model's own prediction for
/// every row. Let `f` give the model's prediction for each row's bits and
/// every cached prediction be `f` of its row. For a batch planned against
/// that cache (cached rows have source `None`, the others point at their
/// missing row) whose missing rows are predicted by `f`, every row is
/// served `f` of itself, reading cached rows after the lookups.
pub proof fn lemma_batch_serves_model<V>(
    es: Seq<(Seq<u64>, V)>,
    rows: Seq<Seq<u64>>,
    sources: Seq<Option<usize>>,
    missing: Seq<Seq<u64>>,
    predicted: Seq<V>,
    f: spec_fn(Seq<u64>) -> V,
)
    requires
        distinct_keys(es),
        entries_agree(es, f),
        sources.len() == rows.len(),
        forall|i: int| 0 <= i < rows.len() ==> (#[trigger] sources[i] is None <==> has_key(es, rows[i])),
        forall|i: int|
            0 <= i < rows.len() ==> (#[trigger] sources[i] matches Some(j) ==> j < missing.len()
                && missing[j as int] == rows[i]),
        predicted.len() == missing.len(),
        forall|j: int| 0 <= j < missing.len() ==> #[trigger] predicted[j] == f(missing[j]),
    ensures
        forall|i: int|
            0 <= i < rows.len() ==> #[trigger] served(touch_rows(es, rows), rows, sources, predicted, i)
                == f(rows[i]),
{
    lemma_cache_serves_model(es, rows, f, 1);
    assert forall|i: int| 0 <= i < rows.len() implies #[trigger] served(
        touch_rows(es, rows),
        rows,
        sources,
        predicted,
        i,
    ) == f(rows[i]) by {
        match sources[i] {
            Some(j) => {
                assert(predicted[j as int] == f(missing[j as int]));
            },
            None => {
                assert(has_key(es, rows[i]));
                assert(value_of(touch_rows(es, rows), rows[i]) == f(rows[i]));
            },
        }
    }
}

} // verus!
