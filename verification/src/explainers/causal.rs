//! Directed acyclic dependency graphs for asymmetric causal Shapley values:
//! validation, acyclicity and the enumeration of topological orders.
use vstd::prelude::*;
use crate::error::{
    decimal, decimal_text, invalid_configuration, is_invalid_configuration, Result, ShapError,
};
use vstd::seq_lib::lemma_no_dup_in_concat;
use vstd::set_lib::lemma_len_subset;
use crate::evaluation::EvaluationConfig;
use crate::link::Link;

verus! {

/// Every parent index names a node of the graph.
pub open spec fn parents_in_range(ps: Seq<Seq<usize>>) -> bool {
    forall|i: int, a: int| 0 <= i < ps.len() && 0 <= a < ps[i].len() ==> #[trigger] ps[i][a] < ps.len()
}

/// Node `i` lists in-range parents, none of them itself, none twice.
pub open spec fn row_valid(ps: Seq<Seq<usize>>, i: int) -> bool {
    &&& forall|a: int| 0 <= a < ps[i].len() ==> #[trigger] ps[i][a] < ps.len() && ps[i][a] != i
    &&& ps[i].no_duplicates()
}

/// Every node's parent list is valid.
pub open spec fn parents_valid(ps: Seq<Seq<usize>>) -> bool {
    forall|i: int| 0 <= i < ps.len() ==> #[trigger] row_valid(ps, i)
}

/// A duplicate-free list of nodes in which every node's parents appear
/// before it.
pub open spec fn valid_prefix(ps: Seq<Seq<usize>>, prefix: Seq<usize>) -> bool {
    &&& prefix.len() <= ps.len()
    &&& prefix.no_duplicates()
    &&& forall|k: int| 0 <= k < prefix.len() ==> #[trigger] prefix[k] < ps.len()
    &&& forall|k: int, a: int|
        0 <= k < prefix.len() && 0 <= a < ps[prefix[k] as int].len() ==> prefix.take(k).contains(
            #[trigger] ps[prefix[k] as int][a],
        )
}

/// An ordering of all nodes in which every parent precedes its children.
pub open spec fn is_topological_order(ps: Seq<Seq<usize>>, order: Seq<usize>) -> bool {
    order.len() == ps.len() && valid_prefix(ps, order)
}

/// The graph admits a topological order, that is, it has no directed cycle.
pub open spec fn is_acyclic_graph(ps: Seq<Seq<usize>>) -> bool {
    exists|order: Seq<usize>| is_topological_order(ps, order)
}

/// A non-empty graph with valid parent lists and no cycle.
pub open spec fn graph_valid(ps: Seq<Seq<usize>>) -> bool {
    ps.len() > 0 && parents_valid(ps) && is_acyclic_graph(ps)
}

/// More than `limit` distinct topological orders exist.
pub open spec fn topological_orders_exceed(ps: Seq<Seq<usize>>, limit: nat) -> bool {
    exists|s: Seq<Seq<usize>>|
        s.len() > limit && s.no_duplicates() && forall|i: int|
            0 <= i < s.len() ==> #[trigger] is_topological_order(ps, s[i])
}

/// Node `j` is not yet placed and all of its parents already are.
pub open spec fn available(ps: Seq<Seq<usize>>, prefix: Seq<usize>, j: int) -> bool {
    &&& 0 <= j < ps.len()
    &&& !prefix.contains(j as usize)
    &&& forall|a: int| 0 <= a < ps[j].len() ==> prefix.contains(#[trigger] ps[j][a])
}

/// The topological orders extending `prefix`, listed in lexicographic order.
spec fn completions(ps: Seq<Seq<usize>>, prefix: Seq<usize>) -> Seq<Seq<usize>>
    decreases ps.len() - prefix.len(), ps.len() + 1,
{
    if prefix.len() >= ps.len() {
        seq![prefix]
    } else {
        completions_from(ps, prefix, 0)
    }
}

/// The completions of `prefix` whose next node is at least `j`.
spec fn completions_from(ps: Seq<Seq<usize>>, prefix: Seq<usize>, j: nat) -> Seq<Seq<usize>>
    decreases ps.len() - prefix.len(), ps.len() - j,
{
    if prefix.len() >= ps.len() || j >= ps.len() {
        seq![]
    } else {
        let rest = completions_from(ps, prefix, j + 1);
        if available(ps, prefix, j as int) {
            completions(ps, prefix.push(j as usize)) + rest
        } else {
            rest
        }
    }
}

proof fn lemma_push_valid(ps: Seq<Seq<usize>>, prefix: Seq<usize>, j: int)
    requires
        ps.len() <= usize::MAX,
        prefix.len() < ps.len(),
        valid_prefix(ps, prefix),
        available(ps, prefix, j),
    ensures
        valid_prefix(ps, prefix.push(j as usize)),
{
    let q = prefix.push(j as usize);
    let len = prefix.len() as int;
    assert((j as usize) as int == j);
    assert(q[len] == j as usize);
    assert(q.take(len) =~= prefix);
    assert forall|k: int| 0 <= k < q.len() implies #[trigger] q[k] < ps.len() by {
        if k < len {
            assert(q[k] == prefix[k]);
        }
    }
    assert forall|k: int, a: int|
        0 <= k < q.len() && 0 <= a < ps[q[k] as int].len() implies q.take(k).contains(
        #[trigger] ps[q[k] as int][a],
    ) by {
        if k < len {
            assert(q.take(k) =~= prefix.take(k));
            assert(q[k] == prefix[k]);
            assert(prefix.take(k).contains(ps[prefix[k] as int][a]));
        } else {
            assert(prefix.contains(ps[j][a]));
        }
    }
    assert forall|x: int, y: int| 0 <= x < q.len() && 0 <= y < q.len() && x != y implies q[x]
        != q[y] by {
        if x == len {
            assert(q[y] == prefix[y]);
            if q[x] == q[y] {
                assert(prefix.contains(j as usize));
            }
        } else if y == len {
            assert(q[x] == prefix[x]);
            if q[x] == q[y] {
                assert(prefix.contains(j as usize));
            }
        } else {
            assert(q[x] == prefix[x] && q[y] == prefix[y]);
        }
    }
}

/// Every completion begins with the prefix and is at least as long.
proof fn lemma_completions_extend(ps: Seq<Seq<usize>>, prefix: Seq<usize>)
    requires
        ps.len() <= usize::MAX,
    ensures
        forall|i: int|
            0 <= i < completions(ps, prefix).len() ==> #[trigger] completions(ps, prefix)[i].len()
                >= prefix.len() && completions(ps, prefix)[i].take(prefix.len() as int) == prefix,
    decreases ps.len() - prefix.len(), ps.len() + 1,
{
    if prefix.len() >= ps.len() {
        assert(prefix.take(prefix.len() as int) =~= prefix);
        assert(completions(ps, prefix) == seq![prefix]);
        assert(seq![prefix][0] == prefix);
    } else {
        lemma_completions_from_extend(ps, prefix, 0);
        assert(completions(ps, prefix) == completions_from(ps, prefix, 0));
    }
}

/// Every element of `completions_from(prefix, j)` extends `prefix` by a
/// node numbered at least `j`.
proof fn lemma_completions_from_extend(ps: Seq<Seq<usize>>, prefix: Seq<usize>, j: nat)
    requires
        ps.len() <= usize::MAX,
    ensures
        forall|i: int|
            0 <= i < completions_from(ps, prefix, j).len() ==> {
                let t = #[trigger] completions_from(ps, prefix, j)[i];
                &&& t.len() > prefix.len()
                &&& t.take(prefix.len() as int) == prefix
                &&& t[prefix.len() as int] >= j
                &&& available(ps, prefix, t[prefix.len() as int] as int)
            },
    decreases ps.len() - prefix.len(), ps.len() - j,
{
    if prefix.len() >= ps.len() || j >= ps.len() {
    } else {
        let rest = completions_from(ps, prefix, j + 1);
        lemma_completions_from_extend(ps, prefix, j + 1);
        if available(ps, prefix, j as int) {
            let q = prefix.push(j as usize);
            let c = completions(ps, q);
            lemma_completions_extend(ps, q);
            let all = c + rest;
            assert(completions_from(ps, prefix, j) == all);
            assert((j as usize) as int == j);
            assert(q[prefix.len() as int] == j as usize);
            assert forall|i: int| 0 <= i < all.len() implies {
                let t = #[trigger] all[i];
                &&& t.len() > prefix.len()
                &&& t.take(prefix.len() as int) == prefix
                &&& t[prefix.len() as int] >= j
                &&& available(ps, prefix, t[prefix.len() as int] as int)
            } by {
                if i < c.len() {
                    let t = c[i];
                    assert(t.take(q.len() as int) == q);
                    assert(t.take(prefix.len() as int) =~= q.take(prefix.len() as int));
                    assert(q.take(prefix.len() as int) =~= prefix);
                    assert(t[prefix.len() as int] == t.take(q.len() as int)[prefix.len() as int]);
                } else {
                    assert(all[i] == rest[i - c.len()]);
                }
            }
        } else {
            assert(completions_from(ps, prefix, j) == rest);
        }
    }
}

/// `a` comes before `b` lexicographically: at the first position where
/// they differ, `a` holds the smaller node.
pub open spec fn lex_before(a: Seq<usize>, b: Seq<usize>) -> bool {
    exists|p: int| 0 <= p < a.len() && p < b.len() && a.take(p) == b.take(p) && a[p] < b[p]
}

/// The completions of a prefix come in lexicographic order.
proof fn lemma_completions_sorted(ps: Seq<Seq<usize>>, prefix: Seq<usize>)
    requires
        ps.len() <= usize::MAX,
    ensures
        forall|i: int, k: int|
            0 <= i < k < completions(ps, prefix).len() ==> lex_before(
                #[trigger] completions(ps, prefix)[i],
                #[trigger] completions(ps, prefix)[k],
            ),
    decreases ps.len() - prefix.len(), ps.len() + 1,
{
    if prefix.len() < ps.len() {
        lemma_completions_from_sorted(ps, prefix, 0);
        assert(completions(ps, prefix) == completions_from(ps, prefix, 0));
    }
}

/// The completions of a prefix whose next node is at least `j` come in
/// lexicographic order.
proof fn lemma_completions_from_sorted(ps: Seq<Seq<usize>>, prefix: Seq<usize>, j: nat)
    requires
        ps.len() <= usize::MAX,
    ensures
        forall|i: int, k: int|
            0 <= i < k < completions_from(ps, prefix, j).len() ==> lex_before(
                #[trigger] completions_from(ps, prefix, j)[i],
                #[trigger] completions_from(ps, prefix, j)[k],
            ),
    decreases ps.len() - prefix.len(), ps.len() - j,
{
    if prefix.len() < ps.len() && j < ps.len() {
        let rest = completions_from(ps, prefix, j + 1);
        lemma_completions_from_sorted(ps, prefix, j + 1);
        lemma_completions_from_extend(ps, prefix, j + 1);
        if available(ps, prefix, j as int) {
            let q = prefix.push(j as usize);
            let c = completions(ps, q);
            lemma_completions_sorted(ps, q);
            lemma_completions_extend(ps, q);
            let all = c + rest;
            assert(completions_from(ps, prefix, j) == all);
            assert forall|i: int, k: int| 0 <= i < k < all.len() implies lex_before(
                #[trigger] all[i],
                #[trigger] all[k],
            ) by {
                if k < c.len() {
                    assert(all[i] == c[i] && all[k] == c[k]);
                } else if i >= c.len() {
                    assert(all[i] == rest[i - c.len()] && all[k] == rest[k - c.len()]);
                } else {
                    let a = c[i];
                    let b = rest[k - c.len()];
                    assert(all[i] == a && all[k] == b);
                    let n = prefix.len() as int;
                    assert(a.take(q.len() as int) == q);
                    assert(a.take(n) =~= q.take(n));
                    assert(q.take(n) =~= prefix);
                    assert(a[n] == a.take(q.len() as int)[n]);
                    assert(q[n] == j as usize);
                    assert(b.take(n) == prefix);
                    assert(b[n] >= j + 1);
                    assert(0 <= n < a.len() && n < b.len() && a.take(n) == b.take(n) && a[n] < b[n]);
                }
            }
        } else {
            assert(completions_from(ps, prefix, j) == rest);
        }
    }
}

/// The completions of a prefix are pairwise distinct.
proof fn lemma_completions_distinct(ps: Seq<Seq<usize>>, prefix: Seq<usize>)
    requires
        ps.len() <= usize::MAX,
    ensures
        completions(ps, prefix).no_duplicates(),
    decreases ps.len() - prefix.len(), ps.len() + 1,
{
    if prefix.len() >= ps.len() {
        assert(completions(ps, prefix) == seq![prefix]);
    } else {
        lemma_completions_from_distinct(ps, prefix, 0);
        assert(completions(ps, prefix) == completions_from(ps, prefix, 0));
    }
}

proof fn lemma_completions_from_distinct(ps: Seq<Seq<usize>>, prefix: Seq<usize>, j: nat)
    requires
        ps.len() <= usize::MAX,
    ensures
        completions_from(ps, prefix, j).no_duplicates(),
    decreases ps.len() - prefix.len(), ps.len() - j,
{
    if prefix.len() >= ps.len() || j >= ps.len() {
    } else {
        let rest = completions_from(ps, prefix, j + 1);
        lemma_completions_from_distinct(ps, prefix, j + 1);
        if available(ps, prefix, j as int) {
            let q = prefix.push(j as usize);
            let c = completions(ps, q);
            lemma_completions_distinct(ps, q);
            lemma_completions_extend(ps, q);
            lemma_completions_from_extend(ps, prefix, j + 1);
            assert((j as usize) as int == j);
            assert(q[prefix.len() as int] == j as usize);
            assert forall|x: int, y: int| 0 <= x < c.len() && 0 <= y < rest.len() implies c[x]
                != rest[y] by {
                let t = c[x];
                assert(t.take(q.len() as int) == q);
                assert(t[prefix.len() as int] == t.take(q.len() as int)[prefix.len() as int]);
                assert(rest[y][prefix.len() as int] >= j + 1);
            }
            lemma_no_dup_in_concat(c, rest);
            assert(completions_from(ps, prefix, j) == c + rest);
        } else {
            assert(completions_from(ps, prefix, j) == rest);
        }
    }
}

/// Every completion of a valid prefix is a topological order.
proof fn lemma_completions_sound(ps: Seq<Seq<usize>>, prefix: Seq<usize>)
    requires
        ps.len() <= usize::MAX,
        valid_prefix(ps, prefix),
    ensures
        forall|i: int|
            0 <= i < completions(ps, prefix).len() ==> is_topological_order(
                ps,
                #[trigger] completions(ps, prefix)[i],
            ),
    decreases ps.len() - prefix.len(), ps.len() + 1,
{
    if prefix.len() >= ps.len() {
        assert(completions(ps, prefix) == seq![prefix]);
        assert(seq![prefix][0] == prefix);
    } else {
        lemma_completions_from_sound(ps, prefix, 0);
        assert(completions(ps, prefix) == completions_from(ps, prefix, 0));
    }
}

proof fn lemma_completions_from_sound(ps: Seq<Seq<usize>>, prefix: Seq<usize>, j: nat)
    requires
        ps.len() <= usize::MAX,
        valid_prefix(ps, prefix),
    ensures
        forall|i: int|
            0 <= i < completions_from(ps, prefix, j).len() ==> is_topological_order(
                ps,
                #[trigger] completions_from(ps, prefix, j)[i],
            ),
    decreases ps.len() - prefix.len(), ps.len() - j,
{
    if prefix.len() >= ps.len() || j >= ps.len() {
    } else {
        let rest = completions_from(ps, prefix, j + 1);
        lemma_completions_from_sound(ps, prefix, j + 1);
        if available(ps, prefix, j as int) {
            let q = prefix.push(j as usize);
            lemma_push_valid(ps, prefix, j as int);
            lemma_completions_sound(ps, q);
            let c = completions(ps, q);
            assert forall|i: int| 0 <= i < (c + rest).len() implies is_topological_order(
                ps,
                #[trigger] (c + rest)[i],
            ) by {
                if i >= c.len() {
                    assert((c + rest)[i] == rest[i - c.len()]);
                }
            }
            assert(completions_from(ps, prefix, j) == c + rest);
        } else {
            assert(completions_from(ps, prefix, j) == rest);
        }
    }
}

/// Every topological order extending a valid prefix is one of its completions.
proof fn lemma_completions_complete(ps: Seq<Seq<usize>>, prefix: Seq<usize>, t: Seq<usize>)
    requires
        ps.len() <= usize::MAX,
        valid_prefix(ps, prefix),
        is_topological_order(ps, t),
        t.take(prefix.len() as int) == prefix,
    ensures
        completions(ps, prefix).contains(t),
    decreases ps.len() - prefix.len(), ps.len() + 1,
{
    if prefix.len() >= ps.len() {
        assert(t =~= prefix);
        assert(completions(ps, prefix) == seq![prefix]);
        assert(completions(ps, prefix)[0] == prefix);
    } else {
        lemma_completions_from_complete(ps, prefix, t, 0);
        assert(completions(ps, prefix) == completions_from(ps, prefix, 0));
    }
}

proof fn lemma_completions_from_complete(
    ps: Seq<Seq<usize>>,
    prefix: Seq<usize>,
    t: Seq<usize>,
    j: nat,
)
    requires
        ps.len() <= usize::MAX,
        valid_prefix(ps, prefix),
        prefix.len() < ps.len(),
        is_topological_order(ps, t),
        t.take(prefix.len() as int) == prefix,
        t[prefix.len() as int] >= j,
    ensures
        completions_from(ps, prefix, j).contains(t),
    decreases ps.len() - prefix.len(), ps.len() - j,
{
    let len = prefix.len() as int;
    let next = t[len];
    if j >= ps.len() {
        assert(t[len] < ps.len());
    } else {
        let rest = completions_from(ps, prefix, j + 1);
        if next == j {
            // `next` is available after `prefix`.
            assert(!prefix.contains(j as usize)) by {
                if prefix.contains(j as usize) {
                    let k = choose|k: int| 0 <= k < prefix.len() && prefix[k] == j as usize;
                    assert(t[k] == prefix[k]);
                }
            }
            assert forall|a: int| 0 <= a < ps[j as int].len() implies prefix.contains(
                #[trigger] ps[j as int][a],
            ) by {
                assert(t.take(len).contains(ps[t[len] as int][a]));
            }
            assert((j as usize) as int == j);
            let q = prefix.push(j as usize);
            lemma_push_valid(ps, prefix, j as int);
            assert(t.take(q.len() as int) =~= q);
            lemma_completions_complete(ps, q, t);
            let c = completions(ps, q);
            let i = choose|i: int| 0 <= i < c.len() && c[i] == t;
            assert((c + rest)[i] == t);
            assert(available(ps, prefix, j as int));
            assert(completions_from(ps, prefix, j) == c + rest);
        } else {
            lemma_completions_from_complete(ps, prefix, t, j + 1);
            let i = choose|i: int| 0 <= i < rest.len() && rest[i] == t;
            if available(ps, prefix, j as int) {
                let c = completions(ps, prefix.push(j as usize));
                assert((c + rest)[c.len() + i] == t);
                assert(completions_from(ps, prefix, j) == c + rest);
            } else {
                assert(completions_from(ps, prefix, j) == rest);
            }
        }
    }
}

/// `completions_from(prefix, j)` is a suffix of `completions_from(prefix, 0)`.
proof fn lemma_completions_from_suffix(ps: Seq<Seq<usize>>, prefix: Seq<usize>, j: nat)
    ensures
        completions_from(ps, prefix, j).len() <= completions_from(ps, prefix, 0).len(),
        completions_from(ps, prefix, 0).skip(
            completions_from(ps, prefix, 0).len() - completions_from(ps, prefix, j).len(),
        ) == completions_from(ps, prefix, j),
    decreases j,
{
    let f0 = completions_from(ps, prefix, 0);
    if j == 0 {
        assert(f0.skip(0) =~= f0);
    } else if prefix.len() >= ps.len() || j > ps.len() {
        lemma_completions_from_suffix(ps, prefix, (j - 1) as nat);
        assert(f0.skip(f0.len() as int) =~= Seq::<Seq<usize>>::empty());
    } else {
        let i = (j - 1) as nat;
        lemma_completions_from_suffix(ps, prefix, i);
        let fi = completions_from(ps, prefix, i);
        let fj = completions_from(ps, prefix, j);
        assert(f0.skip(f0.len() - fj.len()) =~= fi.skip(fi.len() - fj.len()));
        if available(ps, prefix, i as int) {
            let c = completions(ps, prefix.push(i as usize));
            assert(fi == c + fj);
            assert(fi.skip(fi.len() - fj.len()) =~= fj);
        } else {
            assert(fi.skip(0) =~= fj);
        }
    }
}

proof fn lemma_first_missing(t: Seq<usize>, picked: Seq<usize>, k: int) -> (m: int)
    requires
        0 <= k < t.len(),
        !picked.contains(t[k]),
    ensures
        0 <= m <= k,
        !picked.contains(t[m]),
        forall|i: int| 0 <= i < m ==> picked.contains(#[trigger] t[i]),
    decreases k,
{
    if forall|i: int| 0 <= i < k ==> picked.contains(#[trigger] t[i]) {
        k
    } else {
        let i = choose|i: int| 0 <= i < k && !picked.contains(#[trigger] t[i]);
        lemma_first_missing(t, picked, i)
    }
}

/// A valid prefix that is shorter than the graph and has no available node
/// can only arise in a graph with a cycle.
proof fn lemma_stuck_means_cycle(ps: Seq<Seq<usize>>, picked: Seq<usize>)
    requires
        valid_prefix(ps, picked),
        picked.len() < ps.len(),
        forall|j: int| 0 <= j < ps.len() ==> !#[trigger] available(ps, picked, j),
    ensures
        !is_acyclic_graph(ps),
{
    if is_acyclic_graph(ps) {
        let t = choose|t: Seq<usize>| is_topological_order(ps, t);
        assert(exists|k: int| 0 <= k < t.len() && !picked.contains(#[trigger] t[k])) by {
            if forall|k: int| 0 <= k < t.len() ==> picked.contains(#[trigger] t[k]) {
                t.unique_seq_to_set();
                picked.lemma_cardinality_of_set();
                assert(t.to_set().subset_of(picked.to_set()));
                lemma_len_subset(t.to_set(), picked.to_set());
            }
        }
        let k0 = choose|k: int| 0 <= k < t.len() && !picked.contains(#[trigger] t[k]);
        let m = lemma_first_missing(t, picked, k0);
        let j = t[m] as int;
        assert forall|a: int| 0 <= a < ps[j].len() implies picked.contains(#[trigger] ps[j][a]) by {
            assert(t.take(m).contains(ps[t[m] as int][a]));
            let i = choose|i: int| 0 <= i < m && t.take(m)[i] == ps[j][a];
            assert(t[i] == ps[j][a]);
        }
        assert(available(ps, picked, j));
    }
}

/// Decides acyclicity by repeatedly placing the lowest-numbered node whose
/// parents have all been placed.
fn parents_acyclic(parents: &Vec<Vec<usize>>) -> (r: bool)
    requires
        parents_in_range(parents.deep_view()),
    ensures
        r == is_acyclic_graph(parents.deep_view()),
{
    let ghost ps = parents.deep_view();
    let n = parents.len();
    let mut used: Vec<bool> = vec![false; n];
    let ghost mut picked: Seq<usize> = Seq::empty();
    let mut step: usize = 0;
    while step < n
        invariant
            n == parents.len(),
            ps == parents.deep_view(),
            parents_in_range(ps),
            used.len() == n,
            step <= n,
            picked.len() == step,
            valid_prefix(ps, picked),
            ps.len() <= usize::MAX,
            forall|j: int| 0 <= j < n ==> used@[j] == picked.contains(j as usize),
        decreases n - step,
    {
        let mut found: Option<usize> = None;
        let mut j: usize = 0;
        while j < n && found.is_none()
            invariant
                n == parents.len(),
                ps == parents.deep_view(),
                parents_in_range(ps),
                used.len() == n,
                j <= n,
                forall|x: int| 0 <= x < n ==> used@[x] == picked.contains(x as usize),
                found is None ==> forall|x: int| 0 <= x < j ==> !#[trigger] available(ps, picked, x),
                found matches Some(f) ==> available(ps, picked, f as int) && f < n,
                ps.len() <= usize::MAX,
            decreases n - j,
        {
            if !used[j] {
                let row = &parents[j];
                assert(row@ == ps[j as int]);
                let mut ok = true;
                let mut a: usize = 0;
                while a < row.len()
                    invariant
                        row@ == ps[j as int],
                        j < n,
                        n == parents.len(),
                        ps == parents.deep_view(),
                        parents_in_range(ps),
                        used.len() == n,
                        forall|x: int| 0 <= x < n ==> used@[x] == picked.contains(x as usize),
                        a <= row.len(),
                        ok == forall|b: int| 0 <= b < a ==> picked.contains(#[trigger] ps[j as int][b]),
                    decreases row.len() - a,
                {
                    let p = row[a];
                    assert(p == ps[j as int][a as int]);
                    ok = ok && used[p];
                    a = a + 1;
                }
                if ok {
                    found = Some(j);
                }
            }
            j = j + 1;
        }
        match found {
            None => {
                proof {
                    lemma_stuck_means_cycle(ps, picked);
                }
                return false;
            },
            Some(f) => {
                let ghost old_picked = picked;
                proof {
                    lemma_push_valid(ps, picked, f as int);
                    picked = picked.push(f);
                }
                used.set(f, true);
                proof {
                    assert forall|x: int| 0 <= x < n implies used@[x] == picked.contains(
                        x as usize,
                    ) by {
                        if x == f as int {
                            assert(picked[old_picked.len() as int] == f);
                        } else {
                            if old_picked.contains(x as usize) {
                                let k = choose|k: int|
                                    0 <= k < old_picked.len() && old_picked[k] == x as usize;
                                assert(picked[k] == x as usize);
                            }
                            if picked.contains(x as usize) {
                                let k = choose|k: int| 0 <= k < picked.len() && picked[k] == x as usize;
                                assert(k < old_picked.len());
                                assert(old_picked[k] == x as usize);
                            }
                        }
                    }
                }
                step = step + 1;
            },
        }
    }
    assert(is_topological_order(ps, picked));
    true
}

/// Checks a parent list: non-empty, valid rows, no cycle.
fn check_parents(parents: &Vec<Vec<usize>>) -> (r: Result<()>)
    ensures
        r is Ok <==> graph_valid(parents.deep_view()),
        parents.len() == 0 ==> r is Err && is_invalid_configuration(
            r->Err_0,
            "causal graph cannot be empty"@,
        ),
        parents.len() > 0 && !parents_valid(parents.deep_view()) ==> r is Err
            && is_invalid_configuration(r->Err_0, "causal graph has invalid or duplicate parents"@),
        parents.len() > 0 && parents_valid(parents.deep_view()) && !is_acyclic_graph(
            parents.deep_view(),
        ) ==> r is Err && is_invalid_configuration(r->Err_0, "causal graph contains a cycle"@),
{
    let ghost ps = parents.deep_view();
    let n = parents.len();
    if n == 0 {
        return Err(invalid_configuration("causal graph cannot be empty"));
    }
    let mut i: usize = 0;
    while i < n
        invariant
            n == parents.len(),
            ps == parents.deep_view(),
            i <= n,
            forall|x: int| 0 <= x < i ==> #[trigger] row_valid(ps, x),
        decreases n - i,
    {
        let row = &parents[i];
        assert(row@ == ps[i as int]);
        let mut a: usize = 0;
        while a < row.len()
            invariant
                row@ == ps[i as int],
                i < n,
                n == parents.len(),
                ps == parents.deep_view(),
                a <= row.len(),
                forall|b: int| 0 <= b < a ==> #[trigger] ps[i as int][b] < n && ps[i as int][b] != i,
                forall|b: int, c: int| 0 <= b < c < a ==> ps[i as int][b] != ps[i as int][c],
            decreases row.len() - a,
        {
            let p = row[a];
            if p >= n || p == i {
                proof {
                    assert(ps[i as int][a as int] == p);
                    assert(!row_valid(ps, i as int));
                }
                return Err(invalid_configuration("causal graph has invalid or duplicate parents"));
            }
            let mut b: usize = 0;
            while b < a
                invariant
                    n == parents.len(),
                    ps == parents.deep_view(),
                    i < n,
                    row@ == ps[i as int],
                    a < row.len(),
                    p == row@[a as int],
                    b <= a,
                    forall|c: int| 0 <= c < b ==> row@[c] != p,
                decreases a - b,
            {
                if row[b] == p {
                    proof {
                        assert(ps[i as int][b as int] == ps[i as int][a as int]);
                        assert(!ps[i as int].no_duplicates());
                        assert(!row_valid(ps, i as int));
                    }
                    return Err(
                        invalid_configuration("causal graph has invalid or duplicate parents"),
                    );
                }
                b = b + 1;
            }
            a = a + 1;
        }
        assert(row_valid(ps, i as int));
        i = i + 1;
    }
    assert(parents_in_range(ps)) by {
        assert forall|x: int, a: int| 0 <= x < ps.len() && 0 <= a < ps[x].len() implies #[trigger] ps[x][a]
            < ps.len() by {
            assert(row_valid(ps, x));
        }
    }
    if !parents_acyclic(parents) {
        return Err(invalid_configuration("causal graph contains a cycle"));
    }
    Ok(())
}

/// Directed acyclic dependency graph for asymmetric causal Shapley values.
/// Node `i`'s parents are listed in `parents[i]`.
#[derive(Debug, Clone)]
pub struct CausalGraph {
    parents: Vec<Vec<usize>>,
}

impl View for CausalGraph {
    type V = Seq<Seq<usize>>;

    closed spec fn view(&self) -> Seq<Seq<usize>> {
        self.parents.deep_view()
    }
}

impl CausalGraph {
    /// Builds a graph when it is non-empty, every parent list holds distinct
    /// in-range indices other than the node itself, and there is no cycle.
    pub fn new(parents: Vec<Vec<usize>>) -> (r: Result<Self>)
        ensures
            r is Ok <==> graph_valid(parents.deep_view()),
            r matches Ok(g) ==> g@ == parents.deep_view(),
            parents.len() == 0 ==> r is Err && is_invalid_configuration(
                r->Err_0,
                "causal graph cannot be empty"@,
            ),
            parents.len() > 0 && !parents_valid(parents.deep_view()) ==> r is Err
                && is_invalid_configuration(
                r->Err_0,
                "causal graph has invalid or duplicate parents"@,
            ),
            parents.len() > 0 && parents_valid(parents.deep_view()) && !is_acyclic_graph(
                parents.deep_view(),
            ) ==> r is Err && is_invalid_configuration(r->Err_0, "causal graph contains a cycle"@),
    {
        match check_parents(&parents) {
            Ok(()) => Ok(Self { parents }),
            Err(e) => Err(e),
        }
    }

    /// The parent lists, indexed by node.
    pub fn parents(&self) -> (r: &[Vec<usize>])
        ensures
            r@.len() == self@.len(),
            forall|i: int| 0 <= i < r@.len() ==> #[trigger] r@[i]@ == self@[i],
    {
        self.parents.as_slice()
    }

    /// The number of nodes (features).
    pub fn n_features(&self) -> (n: usize)
        ensures
            n == self@.len(),
    {
        self.parents.len()
    }

    /// Re-checks the graph with the rules of [`CausalGraph::new`].
    pub fn validate(&self) -> (r: Result<()>)
        ensures
            r is Ok <==> graph_valid(self@),
            self@.len() == 0 ==> r is Err && is_invalid_configuration(
                r->Err_0,
                "causal graph cannot be empty"@,
            ),
            self@.len() > 0 && !parents_valid(self@) ==> r is Err && is_invalid_configuration(
                r->Err_0,
                "causal graph has invalid or duplicate parents"@,
            ),
            self@.len() > 0 && parents_valid(self@) && !is_acyclic_graph(self@) ==> r is Err
                && is_invalid_configuration(r->Err_0, "causal graph contains a cycle"@),
    {
        check_parents(&self.parents)
    }

    /// Whether the graph has a topological order.
    pub fn is_acyclic(&self) -> (r: bool)
        requires
            parents_in_range(self@),
        ensures
            r == is_acyclic_graph(self@),
    {
        parents_acyclic(&self.parents)
    }

    /// Depth-first enumeration: appends the completions of `order`
    /// (lowest-numbered available node first) until more than `limit`
    /// orders have been collected.
    fn enumerate(
        &self,
        used: &mut Vec<bool>,
        order: &mut Vec<usize>,
        out: &mut Vec<Vec<usize>>,
        limit: usize,
    )
        requires
            parents_in_range(self@),
            old(used).len() == self@.len(),
            old(order).len() <= self@.len(),
            forall|j: int|
                0 <= j < self@.len() ==> old(used)@[j] == old(order)@.contains(j as usize),
        ensures
            final(used)@ == old(used)@,
            final(order)@ == old(order)@,
            final(out).len() >= old(out).len(),
            final(out).deep_view().take(old(out).len() as int) == old(out).deep_view(),
            ({
                let added = final(out).deep_view().skip(old(out).len() as int);
                let all = completions(self@, old(order)@);
                &&& added.len() <= all.len()
                &&& added == all.take(added.len() as int)
                &&& added.len() < all.len() ==> final(out).len() > limit
            }),
            old(out).len() > limit ==> final(out)@ == old(out)@,
        decreases self.parents.len() - old(order).len(),
    {
        let ghost ps = self@;
        let ghost out0 = out.deep_view();
        let ghost prefix = order@;
        let n = self.parents.len();
        if out.len() > limit {
            assert(out.deep_view().skip(out0.len() as int) =~= Seq::<Seq<usize>>::empty());
            assert(out.deep_view().take(out0.len() as int) =~= out0);
            return;
        }
        if order.len() == n {
            let copy = order.clone();
            assert(copy@ =~= prefix);
            assert(copy.deep_view() =~= prefix);
            out.push(copy);
            assert(out.deep_view() =~= out0.push(prefix));
            assert(out.deep_view().skip(out0.len() as int) =~= seq![prefix]);
            assert(out.deep_view().take(out0.len() as int) =~= out0);
            assert(completions(ps, prefix) == seq![prefix]);
            assert(seq![prefix].take(1) =~= seq![prefix]);
            return;
        }
        assert(completions(ps, prefix) == completions_from(ps, prefix, 0));
        let mut j: usize = 0;
        while j < n
            invariant
                n == self@.len(),
                ps == self@,
                parents_in_range(ps),
                prefix.len() < n,
                j <= n,
                used.len() == n,
                used@ == old(used)@,
                order@ == prefix,
                prefix == old(order)@,
                forall|x: int| 0 <= x < n ==> used@[x] == prefix.contains(x as usize),
                out.len() >= out0.len(),
                out.deep_view().take(out0.len() as int) == out0,
                out0.len() <= limit,
                ({
                    let added = out.deep_view().skip(out0.len() as int);
                    let all = completions_from(ps, prefix, 0);
                    &&& added.len() <= all.len()
                    &&& added == all.take(added.len() as int)
                    &&& (out.len() <= limit ==> added.len() == all.len()
                        - completions_from(ps, prefix, j as nat).len())
                }),
            decreases n - j,
        {
            let ghost out_before = out.deep_view();
            proof {
                lemma_completions_from_suffix(ps, prefix, j as nat);
                lemma_completions_from_suffix(ps, prefix, (j + 1) as nat);
            }
            if !used[j] {
                let mut ok = true;
                let mut a: usize = 0;
                let row_len = self.parents[j].len();
                while a < row_len
                    invariant
                        self.parents@[j as int]@ == ps[j as int],
                        row_len == ps[j as int].len(),
                        ps == self@,
                        j < n,
                        n == self@.len(),
                        parents_in_range(ps),
                        used.len() == n,
                        forall|x: int| 0 <= x < n ==> used@[x] == prefix.contains(x as usize),
                        a <= row_len,
                        ok == forall|b: int| 0 <= b < a ==> prefix.contains(#[trigger] ps[j as int][b]),
                    decreases row_len - a,
                {
                    let p = self.parents[j][a];
                    assert(p == ps[j as int][a as int]);
                    ok = ok && used[p];
                    a = a + 1;
                }
                if ok {
                    assert(available(ps, prefix, j as int));
                    used.set(j, true);
                    order.push(j);
                    assert(used@ =~= old(used)@.update(j as int, true));
                    proof {
                        assert forall|x: int| 0 <= x < n implies used@[x] == order@.contains(
                            x as usize,
                        ) by {
                            if x != j as int && order@.contains(x as usize) {
                                let k = choose|k: int|
                                    0 <= k < order@.len() && order@[k] == x as usize;
                                if k < prefix.len() {
                                    assert(prefix[k] == x as usize);
                                }
                            }
                            if x == j as int {
                                assert(order@[prefix.len() as int] == j);
                            } else if prefix.contains(x as usize) {
                                let k = choose|k: int| 0 <= k < prefix.len() && prefix[k] == x as usize;
                                assert(order@[k] == x as usize);
                            }
                        }
                    }
                    let ghost mid = out.deep_view();
                    assert(order.len() == prefix.len() + 1);
                    self.enumerate(used, order, out, limit);
                    let ghost q = prefix.push(j as usize);
                    let ghost c = completions(ps, q);
                    let ghost f0 = completions_from(ps, prefix, 0);
                    let ghost fj = completions_from(ps, prefix, j as nat);
                    let ghost fj1 = completions_from(ps, prefix, (j + 1) as nat);
                    order.pop();
                    used.set(j, false);
                    assert(order@ =~= prefix);
                    assert(used@ =~= old(used)@);
                    proof {
                        let added_r = out.deep_view().skip(mid.len() as int);
                        let added_before = mid.skip(out0.len() as int);
                        let added_now = out.deep_view().skip(out0.len() as int);
                        assert(out.deep_view().take(mid.len() as int) == mid);
                        assert(added_now =~= added_before + added_r) by {
                            assert forall|i: int| 0 <= i < added_now.len() implies added_now[i]
                                == (added_before + added_r)[i] by {
                                if i < added_before.len() {
                                    assert(out.deep_view().take(mid.len() as int)[out0.len() + i]
                                        == mid[out0.len() + i]);
                                }
                            }
                        }
                        assert(out.deep_view().take(out0.len() as int) =~= out0) by {
                            assert(out.deep_view().take(out0.len() as int) =~= out.deep_view().take(
                                mid.len() as int,
                            ).take(out0.len() as int));
                        }
                        assert(fj == c + fj1);
                        if mid.len() > limit {
                            assert(out.deep_view() == mid);
                            assert(added_r.len() == 0);
                            assert(added_now =~= added_before);
                        } else {
                            let m = f0.len() - fj.len();
                            assert(added_before.len() == m);
                            assert(f0.skip(m) == fj);
                            assert(added_now =~= f0.take(added_now.len() as int)) by {
                                assert forall|i: int| 0 <= i < added_now.len() implies added_now[i]
                                    == f0[i] by {
                                    if i >= m {
                                        assert(added_r[i - m] == c[i - m]);
                                        assert(fj[i - m] == c[i - m]);
                                        assert(f0.skip(m)[i - m] == f0[i]);
                                    }
                                }
                            }
                        }
                    }
                } else {
                    proof {
                        assert(!available(ps, prefix, j as int));
                        assert(completions_from(ps, prefix, j as nat) == completions_from(
                            ps,
                            prefix,
                            (j + 1) as nat,
                        ));
                    }
                }
            } else {
                proof {
                    assert(prefix.contains(j));
                    assert(!available(ps, prefix, j as int));
                    assert(completions_from(ps, prefix, j as nat) == completions_from(
                        ps,
                        prefix,
                        (j + 1) as nat,
                    ));
                }
            }
            j = j + 1;
        }
        proof {
            let added = out.deep_view().skip(out0.len() as int);
            let all = completions_from(ps, prefix, 0);
            assert(completions_from(ps, prefix, n as nat) == Seq::<Seq<usize>>::empty());
            if out.len() <= limit {
                assert(added =~= all.take(all.len() as int));
            }
        }
    }

    /// All topological orders of the graph, in lexicographic order, or an
    /// error once more than `limit` of them exist.
    pub fn topological_orders(&self, limit: usize) -> (r: Result<Vec<Vec<usize>>>)
        requires
            parents_in_range(self@),
        ensures
            r is Ok <==> !topological_orders_exceed(self@, limit as nat),
            r matches Ok(orders) ==> orders.deep_view().no_duplicates() && forall|t: Seq<usize>|
                orders.deep_view().contains(t) <==> is_topological_order(self@, t),
            r matches Ok(orders) ==> orders.len() <= limit,
            r matches Ok(orders) ==> forall|i: int, k: int|
                0 <= i < k < orders.len() ==> lex_before(
                    #[trigger] orders.deep_view()[i],
                    #[trigger] orders.deep_view()[k],
                ),
            r is Err ==> is_invalid_configuration(
                r->Err_0,
                "causal graph generates more than "@ + decimal(limit as nat)
                    + " topological orders"@,
            ),
    {
        let ghost ps = self@;
        let n = self.parents.len();
        let mut used: Vec<bool> = vec![false; n];
        let mut order: Vec<usize> = Vec::new();
        let mut out: Vec<Vec<usize>> = Vec::new();
        proof {
            assert forall|j: int| 0 <= j < n implies used@[j] == order@.contains(j as usize) by {
                assert(!order@.contains(j as usize));
            }
        }
        let ghost empty = order@;
        self.enumerate(&mut used, &mut order, &mut out, limit);
        proof {
            let all = completions(ps, empty);
            let found = out.deep_view();
            assert(found.skip(0) =~= found);
            assert(valid_prefix(ps, empty));
            lemma_completions_distinct(ps, empty);
            lemma_completions_sound(ps, empty);
            lemma_completions_sorted(ps, empty);
            assert forall|i: int, k: int| 0 <= i < k < found.len() implies found[i] != found[k] by {
                assert(found[i] == all[i] && found[k] == all[k]);
            }
            assert forall|i: int| 0 <= i < found.len() implies #[trigger] is_topological_order(
                ps,
                found[i],
            ) by {
                assert(found[i] == all[i]);
            }
            if out.len() > limit {
                assert(topological_orders_exceed(ps, limit as nat));
            } else {
                assert(found =~= all);
                assert forall|t: Seq<usize>| found.contains(t) <==> is_topological_order(ps, t) by {
                    if is_topological_order(ps, t) {
                        assert(t.take(0) =~= empty);
                        lemma_completions_complete(ps, empty, t);
                    }
                }
                if topological_orders_exceed(ps, limit as nat) {
                    let s = choose|s: Seq<Seq<usize>>|
                        s.len() > limit && s.no_duplicates() && forall|i: int|
                            0 <= i < s.len() ==> #[trigger] is_topological_order(ps, s[i]);
                    assert(s.to_set().subset_of(found.to_set())) by {
                        assert forall|t: Seq<usize>| s.to_set().contains(t) implies found.to_set().contains(t) by {
                            let i = choose|i: int| 0 <= i < s.len() && s[i] == t;
                            assert(is_topological_order(ps, s[i]));
                        }
                    }
                    s.unique_seq_to_set();
                    found.lemma_cardinality_of_set();
                    lemma_len_subset(s.to_set(), found.to_set());
                }
            }
        }
        if out.len() > limit {
            let mut message = String::from_str("causal graph generates more than ");
            let count = decimal_text(limit);
            message.append(count.as_str());
            message.append(" topological orders");
            return Err(ShapError::InvalidConfiguration(message));
        }
        Ok(out)
    }
}

/// Asymmetric causal Shapley values averaged over the topological orders
/// of a causal graph (at most `max_orders` of them).
pub struct CausalExplainer<M, K> {
    model: M,
    masker: K,
    graph: CausalGraph,
    max_orders: usize,
    evaluation: EvaluationConfig,
    link: Link,
}

impl<M, K> CausalExplainer<M, K> {
    /// The prediction model.
    pub closed spec fn spec_model(&self) -> M {
        self.model
    }

    /// The masker.
    pub closed spec fn spec_masker(&self) -> K {
        self.masker
    }

    /// The causal graph's parent lists.
    pub closed spec fn spec_graph(&self) -> Seq<Seq<usize>> {
        self.graph@
    }

    /// The largest number of topological orders averaged over.
    pub closed spec fn spec_max_orders(&self) -> usize {
        self.max_orders
    }

    /// The coalition evaluation limits.
    pub closed spec fn spec_evaluation(&self) -> EvaluationConfig {
        self.evaluation
    }

    /// The output transform.
    pub closed spec fn spec_link(&self) -> Link {
        self.link
    }

    /// An explainer averaging over at most 65536 orders, evaluating
    /// coalitions in batches of 64 with a `2^20`-entry cache and no row
    /// limit, in the identity link.
    pub fn new(model: M, masker: K, graph: CausalGraph) -> (r: Self)
        ensures
            r.spec_model() == model,
            r.spec_masker() == masker,
            r.spec_graph() == graph@,
            r.spec_max_orders() == 65536,
            r.spec_evaluation() == (EvaluationConfig {
                coalition_batch_size: 64,
                cache_capacity: 1048576,
                max_model_rows: None,
            }),
            r.spec_link() == Link::Identity,
    {
        Self {
            model,
            masker,
            graph,
            max_orders: 65536,
            evaluation: EvaluationConfig {
                coalition_batch_size: 64,
                cache_capacity: 1048576,
                max_model_rows: None,
            },
            link: Link::Identity,
        }
    }

    /// Sets the largest number of topological orders.
    pub fn with_max_orders(self, n: usize) -> (r: Self)
        ensures
            r.spec_model() == self.spec_model(),
            r.spec_masker() == self.spec_masker(),
            r.spec_graph() == self.spec_graph(),
            r.spec_max_orders() == n,
            r.spec_evaluation() == self.spec_evaluation(),
            r.spec_link() == self.spec_link(),
    {
        Self { max_orders: n, ..self }
    }

    /// Sets the coalition evaluation limits.
    pub fn with_evaluation_config(self, c: EvaluationConfig) -> (r: Self)
        ensures
            r.spec_model() == self.spec_model(),
            r.spec_masker() == self.spec_masker(),
            r.spec_graph() == self.spec_graph(),
            r.spec_max_orders() == self.spec_max_orders(),
            r.spec_evaluation() == c,
            r.spec_link() == self.spec_link(),
    {
        Self { evaluation: c, ..self }
    }

    /// Sets the output transform.
    pub fn with_link(self, link: Link) -> (r: Self)
        ensures
            r.spec_model() == self.spec_model(),
            r.spec_masker() == self.spec_masker(),
            r.spec_graph() == self.spec_graph(),
            r.spec_max_orders() == self.spec_max_orders(),
            r.spec_evaluation() == self.spec_evaluation(),
            r.spec_link() == link,
    {
        Self { link, ..self }
    }

    /// The prediction model.
    pub fn model(&self) -> (r: &M)
        ensures
            *r == self.spec_model(),
    {
        &self.model
    }

    /// The masker.
    pub fn masker(&self) -> (r: &K)
        ensures
            *r == self.spec_masker(),
    {
        &self.masker
    }

    /// The causal graph.
    pub fn graph(&self) -> (r: &CausalGraph)
        ensures
            r@ == self.spec_graph(),
    {
        &self.graph
    }

    /// The largest number of topological orders.
    pub fn max_orders(&self) -> (n: usize)
        ensures
            n == self.spec_max_orders(),
    {
        self.max_orders
    }

    /// The coalition evaluation limits.
    pub fn evaluation(&self) -> (c: EvaluationConfig)
        ensures
            c == self.spec_evaluation(),
    {
        self.evaluation
    }

    /// The output transform.
    pub fn link(&self) -> (l: Link)
        ensures
            l == self.spec_link(),
    {
        self.link
    }
}

impl<M, K> CausalExplainer<M, K> {
    /// Checks the graph, then a data matrix of `rows` by `cols` against a
    /// masker of `m` features, in the order: a valid graph, some rows, `m`
    /// columns in the data and `m` nodes in the graph, fewer than 63
    /// features.
    pub fn check_input(&self, m: usize, rows: usize, cols: usize) -> (r: Result<()>)
        ensures
            r is Ok <==> graph_valid(self.spec_graph()) && rows > 0 && cols == m
                && self.spec_graph().len() == m && m < 63,
            graph_valid(self.spec_graph()) && rows == 0 ==> r == Err::<(), ShapError>(
                ShapError::EmptyData,
            ),
            graph_valid(self.spec_graph()) && rows > 0 && (cols != m || self.spec_graph().len() != m)
                ==> r is Err && crate::error::is_dimension_mismatch(
                r->Err_0,
                decimal(m as nat) + " features in data and causal graph"@,
                "data "@ + decimal(cols as nat) + ", graph "@ + decimal(self.spec_graph().len()),
            ),
            graph_valid(self.spec_graph()) && rows > 0 && cols == m && self.spec_graph().len() == m
                && m >= 63 ==> r is Err && is_invalid_configuration(
                r->Err_0,
                "causal explanations support at most 62 features"@,
            ),
    {
        if let Err(e) = self.graph.validate() {
            return Err(e);
        }
        if rows == 0 {
            return Err(ShapError::EmptyData);
        }
        let n = self.graph.n_features();
        if cols != m || n != m {
            let mut expected = decimal_text(m);
            expected.append(" features in data and causal graph");
            let mut found = String::from_str("data ");
            let a = decimal_text(cols);
            found.append(a.as_str());
            found.append(", graph ");
            let b = decimal_text(n);
            found.append(b.as_str());
            return Err(ShapError::DimensionMismatch { expected, found });
        }
        if m >= 63 {
            return Err(invalid_configuration("causal explanations support at most 62 features"));
        }
        Ok(())
    }
}

} // verus!
