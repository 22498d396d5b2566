//! Feature partitions: flat groupings and binary hierarchies, with their
//! validation and the group-respecting feature orderings used by Owen values.
use vstd::prelude::*;
use vstd::multiset::Multiset;
use vstd::seq_lib::lemma_multiset_commutative;
use crate::error::{decimal, decimal_text, invalid_configuration, is_dimension_mismatch, is_invalid_configuration, Result, ShapError};
use crate::evaluation::EvaluationConfig;
use crate::link::Link;
use crate::explainers::permutation::{lemma_prefix_mask_members, order_prefix_mask};
use crate::coalition::{subset_table, subset_unions};

verus! {

/// A node of a binary feature hierarchy.
#[derive(Debug, PartialEq, Eq)]
pub enum PartitionNode {
    Feature(usize),
    Group(Box<PartitionNode>, Box<PartitionNode>),
}

/// The features at the leaves of `node`, left to right.
pub open spec fn leaves(node: PartitionNode) -> Seq<usize>
    decreases node,
{
    match node {
        PartitionNode::Feature(j) => seq![j],
        PartitionNode::Group(a, b) => leaves(*a) + leaves(*b),
    }
}

/// `order` lists each of the features `0..n` exactly once.
pub open spec fn lists_each_feature_once(order: Seq<usize>, n: nat) -> bool {
    &&& order.no_duplicates()
    &&& forall|k: int| 0 <= k < order.len() ==> #[trigger] order[k] < n
    &&& forall|j: usize| j < n ==> order.contains(j)
}

/// A hierarchy over `n > 0` features whose leaves name every feature once.
pub open spec fn tree_valid(root: PartitionNode, n: nat) -> bool {
    n > 0 && lists_each_feature_once(leaves(root), n)
}

/// The number of orderings that keep every group contiguous: each group
/// may place either child first.
pub open spec fn permutation_total(node: PartitionNode) -> nat
    decreases node,
{
    match node {
        PartitionNode::Feature(_) => 1,
        PartitionNode::Group(a, b) => 2 * permutation_total(*a) * permutation_total(*b),
    }
}

/// For one left ordering `l` and right orderings `rs`: `l` then `r`, and
/// `r` then `l`, for each `r` in turn.
pub open spec fn pair_orders(l: Seq<usize>, rs: Seq<Seq<usize>>) -> Seq<Seq<usize>>
    decreases rs.len(),
{
    if rs.len() == 0 {
        seq![]
    } else {
        pair_orders(l, rs.drop_last()) + seq![l + rs.last(), rs.last() + l]
    }
}

/// All pairings of left orderings with right orderings, left-major.
pub open spec fn combine_orders(ls: Seq<Seq<usize>>, rs: Seq<Seq<usize>>) -> Seq<Seq<usize>>
    decreases ls.len(),
{
    if ls.len() == 0 {
        seq![]
    } else {
        combine_orders(ls.drop_last(), rs) + pair_orders(ls.last(), rs)
    }
}

/// The group-respecting orderings of a hierarchy's features.
pub open spec fn hierarchy_orders(node: PartitionNode) -> Seq<Seq<usize>>
    decreases node,
{
    match node {
        PartitionNode::Feature(j) => seq![seq![j]],
        PartitionNode::Group(a, b) => combine_orders(hierarchy_orders(*a), hierarchy_orders(*b)),
    }
}

/// The leaves contain no repeat, are all below `seen.len()`, and none is
/// already marked in `seen`.
pub open spec fn fresh_leaves(ls: Seq<usize>, seen: Seq<bool>) -> bool {
    &&& ls.no_duplicates()
    &&& forall|k: int| 0 <= k < ls.len() ==> #[trigger] ls[k] < seen.len() && !seen[ls[k] as int]
}

/// The message for a hierarchy that misses or repeats a feature.
pub open spec fn tree_message() -> Seq<char> {
    "partition tree must contain each feature exactly once"@
}

fn visit(node: &PartitionNode, seen: &mut Vec<bool>) -> (r: Result<()>)
    ensures
        final(seen).len() == old(seen).len(),
        r is Ok <==> fresh_leaves(leaves(*node), old(seen)@),
        r is Ok ==> forall|j: int|
            0 <= j < old(seen).len() ==> final(seen)@[j] == (old(seen)@[j] || leaves(*node).contains(
                j as usize,
            )),
        r is Err ==> is_invalid_configuration(r->Err_0, tree_message()),
    decreases node,
{
    match node {
        PartitionNode::Feature(j) => {
            let j = *j;
            if j >= seen.len() || seen[j] {
                proof {
                    assert(leaves(*node)[0] == j);
                }
                return Err(
                    invalid_configuration("partition tree must contain each feature exactly once"),
                );
            }
            let ghost s0 = seen@;
            seen.set(j, true);
            proof {
                assert(leaves(*node) =~= seq![j]);
                assert forall|x: int| 0 <= x < s0.len() implies seen@[x] == (s0[x] || leaves(
                    *node,
                ).contains(x as usize)) by {
                    if leaves(*node).contains(x as usize) {
                        assert(leaves(*node)[0] == x as usize);
                    }
                    if x == j as int {
                        assert(leaves(*node)[0] == j);
                    }
                }
            }
            Ok(())
        },
        PartitionNode::Group(a, b) => {
            let ghost s0 = seen@;
            let ghost la = leaves(**a);
            let ghost lb = leaves(**b);
            assert(leaves(*node) == la + lb);
            match visit(a, seen) {
                Err(e) => {
                    proof {
                        if fresh_leaves(la + lb, s0) {
                            assert forall|k: int| 0 <= k < la.len() implies #[trigger] la[k]
                                < s0.len() && !s0[la[k] as int] by {
                                assert((la + lb)[k] == la[k]);
                            }
                            assert forall|x: int, y: int|
                                0 <= x < la.len() && 0 <= y < la.len() && x != y implies la[x]
                                != la[y] by {
                                assert((la + lb)[x] == la[x] && (la + lb)[y] == la[y]);
                            }
                        }
                    }
                    return Err(e);
                },
                Ok(()) => {},
            }
            let ghost s1 = seen@;
            match visit(b, seen) {
                Err(e) => {
                    proof {
                        if fresh_leaves(la + lb, s0) {
                            assert forall|k: int| 0 <= k < lb.len() implies #[trigger] lb[k]
                                < s1.len() && !s1[lb[k] as int] by {
                                assert((la + lb)[la.len() + k] == lb[k]);
                                if la.contains(lb[k]) {
                                    let i = choose|i: int| 0 <= i < la.len() && la[i] == lb[k];
                                    assert((la + lb)[i] == la[i]);
                                }
                            }
                            assert forall|x: int, y: int|
                                0 <= x < lb.len() && 0 <= y < lb.len() && x != y implies lb[x]
                                != lb[y] by {
                                assert((la + lb)[la.len() + x] == lb[x] && (la + lb)[la.len() + y]
                                    == lb[y]);
                            }
                        }
                    }
                    return Err(e);
                },
                Ok(()) => {},
            }
            proof {
                let ls = la + lb;
                assert forall|k: int| 0 <= k < ls.len() implies #[trigger] ls[k] < s0.len()
                    && !s0[ls[k] as int] by {
                    if k < la.len() {
                        assert(ls[k] == la[k]);
                    } else {
                        assert(ls[k] == lb[k - la.len()]);
                        assert(!s1[lb[k - la.len()] as int]);
                    }
                }
                assert forall|x: int, y: int| 0 <= x < ls.len() && 0 <= y < ls.len() && x != y
                    implies ls[x] != ls[y] by {
                    if x < la.len() && y >= la.len() {
                        assert(ls[x] == la[x]);
                        assert(s1[la[x] as int]);
                        assert(!s1[lb[y - la.len()] as int]);
                    } else if y < la.len() && x >= la.len() {
                        assert(ls[y] == la[y]);
                        assert(s1[la[y] as int]);
                        assert(!s1[lb[x - la.len()] as int]);
                    }
                }
                assert forall|j: int| 0 <= j < s0.len() implies seen@[j] == (s0[j] || ls.contains(
                    j as usize,
                )) by {
                    if ls.contains(j as usize) {
                        let k = choose|k: int| 0 <= k < ls.len() && ls[k] == j as usize;
                        if k < la.len() {
                            assert(la[k] == ls[k]);
                            assert(la.contains(j as usize));
                        } else {
                            assert(lb[k - la.len()] == ls[k]);
                            assert(lb.contains(j as usize));
                        }
                    }
                    if la.contains(j as usize) {
                        let k = choose|k: int| 0 <= k < la.len() && la[k] == j as usize;
                        assert(ls[k] == la[k]);
                    }
                    if lb.contains(j as usize) {
                        let k = choose|k: int| 0 <= k < lb.len() && lb[k] == j as usize;
                        assert(ls[la.len() + k] == lb[k]);
                    }
                }
            }
            Ok(())
        },
    }
}

/// Checks a hierarchy against `n_features`.
fn check_tree(root: &PartitionNode, n_features: usize) -> (r: Result<()>)
    ensures
        r is Ok <==> tree_valid(*root, n_features as nat),
        n_features == 0 ==> r is Err && is_invalid_configuration(
            r->Err_0,
            "partition tree must contain features"@,
        ),
        n_features > 0 && !tree_valid(*root, n_features as nat) ==> r is Err
            && is_invalid_configuration(r->Err_0, tree_message()),
{
    if n_features == 0 {
        return Err(invalid_configuration("partition tree must contain features"));
    }
    let mut seen: Vec<bool> = vec![false; n_features];
    let ghost s0 = seen@;
    let ghost ls = leaves(*root);
    match visit(root, &mut seen) {
        Err(e) => {
            proof {
                if tree_valid(*root, n_features as nat) {
                    assert forall|k: int| 0 <= k < ls.len() implies #[trigger] ls[k] < s0.len()
                        && !s0[ls[k] as int] by {}
                }
            }
            return Err(e);
        },
        Ok(()) => {},
    }
    proof {
        assert forall|x: int| 0 <= x < n_features implies seen@[x] == ls.contains(x as usize) by {
            assert(!s0[x]);
        }
    }
    let mut j: usize = 0;
    while j < n_features
        invariant
            ls == leaves(*root),
            n_features > 0,
            fresh_leaves(ls, s0),
            s0.len() == n_features,
            seen.len() == n_features,
            forall|x: int| 0 <= x < n_features ==> seen@[x] == ls.contains(x as usize),
            forall|x: usize| x < j ==> ls.contains(x),
            j <= n_features,
        decreases n_features - j,
    {
        if !seen[j] {
            assert(!ls.contains(j));
            return Err(
                invalid_configuration("partition tree must contain each feature exactly once"),
            );
        }
        j = j + 1;
    }
    Ok(())
}

/// Group-respecting orderings of a node's features.
fn node_orders(node: &PartitionNode) -> (r: Vec<Vec<usize>>)
    ensures
        r.deep_view() == hierarchy_orders(*node),
    decreases node,
{
    match node {
        PartitionNode::Feature(j) => {
            let mut leaf: Vec<usize> = Vec::new();
            leaf.push(*j);
            assert(leaf.deep_view() =~= seq![*j]);
            let mut out: Vec<Vec<usize>> = Vec::new();
            out.push(leaf);
            assert(out.deep_view() =~= seq![seq![*j]]);
            out
        },
        PartitionNode::Group(a, b) => {
            let left = node_orders(a);
            let right = node_orders(b);
            let ghost ls = left.deep_view();
            let ghost rs = right.deep_view();
            let mut out: Vec<Vec<usize>> = Vec::new();
            let mut i: usize = 0;
            assert(ls.take(0) =~= Seq::<Seq<usize>>::empty());
            assert(out.deep_view() =~= combine_orders(ls.take(0), rs));
            while i < left.len()
                invariant
                    ls == left.deep_view(),
                    rs == right.deep_view(),
                    i <= left.len(),
                    out.deep_view() == combine_orders(ls.take(i as int), rs),
                decreases left.len() - i,
            {
                let l = &left[i];
                assert(l@ == ls[i as int]);
                let ghost before = out.deep_view();
                let mut k: usize = 0;
                assert(rs.take(0) =~= Seq::<Seq<usize>>::empty());
                assert(out.deep_view() =~= before + pair_orders(l@, rs.take(0)));
                while k < right.len()
                    invariant
                        ls == left.deep_view(),
                        rs == right.deep_view(),
                        i < left.len(),
                        l@ == ls[i as int],
                        k <= right.len(),
                        out.deep_view() == before + pair_orders(l@, rs.take(k as int)),
                    decreases right.len() - k,
                {
                    let r = &right[k];
                    assert(r@ == rs[k as int]);
                    let lr = joined(l, r);
                    let rl = joined(r, l);
                    let ghost mid = out.deep_view();
                    out.push(lr);
                    out.push(rl);
                    proof {
                        assert(out.deep_view() =~= mid.push(l@ + r@).push(r@ + l@));
                        assert(rs.take(k + 1).drop_last() =~= rs.take(k as int));
                        assert(rs.take(k + 1).last() == r@);
                        assert(pair_orders(l@, rs.take(k + 1)) == pair_orders(l@, rs.take(k as int))
                            + seq![l@ + r@, r@ + l@]);
                        assert(out.deep_view() =~= before + pair_orders(l@, rs.take(k + 1)));
                    }
                    k = k + 1;
                }
                proof {
                    assert(rs.take(right.len() as int) =~= rs);
                    assert(ls.take(i + 1).drop_last() =~= ls.take(i as int));
                    assert(ls.take(i + 1).last() == l@);
                }
                i = i + 1;
            }
            assert(ls.take(left.len() as int) =~= ls);
            out
        },
    }
}

/// `a` followed by `b`.
fn joined(a: &Vec<usize>, b: &Vec<usize>) -> (r: Vec<usize>)
    ensures
        r@ == a@ + b@,
        r.deep_view() == a@ + b@,
{
    let mut r: Vec<usize> = Vec::new();
    let mut i: usize = 0;
    while i < a.len()
        invariant
            i <= a.len(),
            r@ == a@.take(i as int),
        decreases a.len() - i,
    {
        r.push(a[i]);
        assert(a@.take(i + 1) =~= a@.take(i as int).push(a[i as int]));
        i = i + 1;
    }
    let mut k: usize = 0;
    while k < b.len()
        invariant
            k <= b.len(),
            r@ == a@ + b@.take(k as int),
        decreases b.len() - k,
    {
        r.push(b[k]);
        assert(b@.take(k + 1) =~= b@.take(k as int).push(b[k as int]));
        assert(a@ + b@.take(k + 1) =~= (a@ + b@.take(k as int)).push(b[k as int]));
        k = k + 1;
    }
    assert(a@.take(a.len() as int) =~= a@);
    assert(b@.take(b.len() as int) =~= b@);
    assert(r.deep_view() =~= r@);
    r
}

/// The number of group-respecting orderings, or `None` when it exceeds
/// `usize::MAX`.
fn node_permutation_count(node: &PartitionNode) -> (r: Option<usize>)
    ensures
        r == if permutation_total(*node) <= usize::MAX {
            Some(permutation_total(*node) as usize)
        } else {
            None::<usize>
        },
    decreases node,
{
    proof {
        lemma_permutation_total_positive(*node);
    }
    match node {
        PartitionNode::Feature(_) => Some(1),
        PartitionNode::Group(a, b) => {
            proof {
                lemma_permutation_total_positive(**a);
                lemma_permutation_total_positive(**b);
            }
            let ghost ca = permutation_total(**a);
            let ghost cb = permutation_total(**b);
            assert(permutation_total(*node) == 2 * ca * cb);
            let left = match node_permutation_count(a) {
                Some(c) => c,
                None => {
                    assert(2 * ca * cb >= ca) by (nonlinear_arith)
                        requires
                            cb >= 1,
                    ;
                    return None;
                },
            };
            let right = match node_permutation_count(b) {
                Some(c) => c,
                None => {
                    assert(2 * ca * cb >= cb) by (nonlinear_arith)
                        requires
                            ca >= 1,
                    ;
                    return None;
                },
            };
            let product = match left.checked_mul(right) {
                Some(p) => p,
                None => {
                    assert(2 * ca * cb >= ca * cb) by (nonlinear_arith)
                        requires
                            ca >= 1,
                            cb >= 1,
                    ;
                    return None;
                },
            };
            assert(2 * ca * cb == (ca * cb) * 2) by (nonlinear_arith);
            product.checked_mul(2)
        },
    }
}

proof fn lemma_permutation_total_positive(node: PartitionNode)
    ensures
        permutation_total(node) >= 1,
    decreases node,
{
    match node {
        PartitionNode::Feature(_) => {},
        PartitionNode::Group(a, b) => {
            lemma_permutation_total_positive(*a);
            lemma_permutation_total_positive(*b);
            let ca = permutation_total(*a);
            let cb = permutation_total(*b);
            assert(2 * ca * cb >= 1) by (nonlinear_arith)
                requires
                    ca >= 1,
                    cb >= 1,
            ;
        },
    }
}

/// A validated binary hierarchy over `n_features` features.
#[derive(Debug, PartialEq, Eq)]
pub struct PartitionTree {
    root: PartitionNode,
    n_features: usize,
}

impl View for PartitionTree {
    type V = (PartitionNode, nat);

    closed spec fn view(&self) -> (PartitionNode, nat) {
        (self.root, self.n_features as nat)
    }
}

impl PartitionTree {
    /// Builds a hierarchy when `n_features > 0` and the leaves name each of
    /// the features `0..n_features` exactly once.
    pub fn new(root: PartitionNode, n_features: usize) -> (r: Result<Self>)
        ensures
            r is Ok <==> tree_valid(root, n_features as nat),
            r matches Ok(t) ==> t@ == (root, n_features as nat),
            n_features == 0 ==> r is Err && is_invalid_configuration(
                r->Err_0,
                "partition tree must contain features"@,
            ),
            n_features > 0 && !tree_valid(root, n_features as nat) ==> r is Err
                && is_invalid_configuration(r->Err_0, tree_message()),
    {
        match check_tree(&root, n_features) {
            Ok(()) => Ok(Self { root, n_features }),
            Err(e) => Err(e),
        }
    }

    /// The root node.
    pub fn root(&self) -> (r: &PartitionNode)
        ensures
            *r == self@.0,
    {
        &self.root
    }

    /// The number of features the hierarchy covers.
    pub fn n_features(&self) -> (n: usize)
        ensures
            n as nat == self@.1,
    {
        self.n_features
    }

    /// Re-checks the hierarchy with the rules of [`PartitionTree::new`].
    pub fn validate(&self) -> (r: Result<()>)
        ensures
            r is Ok <==> tree_valid(self@.0, self@.1),
            self@.1 == 0 ==> r is Err && is_invalid_configuration(
                r->Err_0,
                "partition tree must contain features"@,
            ),
            self@.1 > 0 && !tree_valid(self@.0, self@.1) ==> r is Err && is_invalid_configuration(
                r->Err_0,
                tree_message(),
            ),
    {
        check_tree(&self.root, self.n_features)
    }

    /// The number of group-respecting orderings, or `None` on overflow.
    pub fn permutation_count(&self) -> (r: Option<usize>)
        ensures
            r == if permutation_total(self@.0) <= usize::MAX {
                Some(permutation_total(self@.0) as usize)
            } else {
                None::<usize>
            },
    {
        node_permutation_count(&self.root)
    }

    /// Every feature ordering that keeps each group of the hierarchy
    /// contiguous; for each group, left-child-first precedes
    /// right-child-first.
    pub fn permutations(&self) -> (r: Vec<Vec<usize>>)
        ensures
            r.deep_view() == hierarchy_orders(self@.0),
            tree_valid(self@.0, self@.1) ==> r.deep_view().no_duplicates(),
            tree_valid(self@.0, self@.1) ==> forall|i: int|
                0 <= i < r.deep_view().len() ==> lists_each_feature_once(#[trigger] r.deep_view()[i], self@.1),
    {
        let r = node_orders(&self.root);
        proof {
            if tree_valid(self@.0, self@.1) {
                lemma_orders_distinct(self@.0);
                lemma_orders_list_each_feature_once(self@.0, self@.1);
            }
        }
        r
    }
}

proof fn lemma_pair_orders_len(l: Seq<usize>, rs: Seq<Seq<usize>>)
    ensures
        pair_orders(l, rs).len() == 2 * rs.len(),
    decreases rs.len(),
{
    if rs.len() > 0 {
        lemma_pair_orders_len(l, rs.drop_last());
    }
}

proof fn lemma_combine_len(ls: Seq<Seq<usize>>, rs: Seq<Seq<usize>>)
    ensures
        combine_orders(ls, rs).len() == 2 * ls.len() * rs.len(),
    decreases ls.len(),
{
    if ls.len() > 0 {
        lemma_combine_len(ls.drop_last(), rs);
        lemma_pair_orders_len(ls.last(), rs);
        let a = ls.len() as int;
        let b = rs.len() as int;
        assert(combine_orders(ls, rs).len() == combine_orders(ls.drop_last(), rs).len()
            + pair_orders(ls.last(), rs).len());
        assert(combine_orders(ls.drop_last(), rs).len() == 2 * (a - 1) * b);
        assert(2 * (a - 1) * b + 2 * b == 2 * a * b) by (nonlinear_arith);
        assert(2 * ls.len() * rs.len() == 2 * a * b);
    } else {
        let b = rs.len() as int;
        assert(2 * 0 * b == 0) by (nonlinear_arith);
        assert(2 * ls.len() * rs.len() == 2 * 0 * b);
    }
}

/// The number of group-respecting orderings is the product formula
/// [`permutation_total`]: a leaf has one ordering and a group twice the
/// product of its children's.
pub proof fn lemma_orders_count(node: PartitionNode)
    ensures
        hierarchy_orders(node).len() == permutation_total(node),
    decreases node,
{
    match node {
        PartitionNode::Feature(_) => {},
        PartitionNode::Group(a, b) => {
            lemma_orders_count(*a);
            lemma_orders_count(*b);
            lemma_combine_len(hierarchy_orders(*a), hierarchy_orders(*b));
        },
    }
}

proof fn lemma_pair_orders_rearrange(l: Seq<usize>, rs: Seq<Seq<usize>>, m: Multiset<usize>, ml: Multiset<usize>)
    requires
        l.to_multiset() == ml,
        forall|i: int| 0 <= i < rs.len() ==> #[trigger] rs[i].to_multiset().add(ml) == m,
    ensures
        forall|i: int|
            0 <= i < pair_orders(l, rs).len() ==> #[trigger] pair_orders(l, rs)[i].to_multiset()
                == m,
    decreases rs.len(),
{
    if rs.len() > 0 {
        let init = rs.drop_last();
        assert forall|i: int| 0 <= i < init.len() implies #[trigger] init[i].to_multiset().add(ml)
            == m by {
            assert(init[i] == rs[i]);
        }
        lemma_pair_orders_rearrange(l, init, m, ml);
        let r = rs.last();
        assert(r.to_multiset().add(ml) == m);
        lemma_multiset_commutative(l, r);
        lemma_multiset_commutative(r, l);
        assert((l + r).to_multiset() =~= m);
        assert((r + l).to_multiset() =~= m);
        let p = pair_orders(l, rs);
        assert(p == pair_orders(l, init) + seq![l + r, r + l]);
        assert forall|i: int| 0 <= i < p.len() implies #[trigger] p[i].to_multiset() == m by {
            if i < pair_orders(l, init).len() {
                assert(p[i] == pair_orders(l, init)[i]);
            } else if i == pair_orders(l, init).len() {
                assert(p[i] == l + r);
            } else {
                assert(p[i] == r + l);
            }
        }
    }
}

proof fn lemma_combine_rearrange(
    ls: Seq<Seq<usize>>,
    rs: Seq<Seq<usize>>,
    ma: Multiset<usize>,
    mb: Multiset<usize>,
)
    requires
        forall|i: int| 0 <= i < ls.len() ==> #[trigger] ls[i].to_multiset() == ma,
        forall|i: int| 0 <= i < rs.len() ==> #[trigger] rs[i].to_multiset() == mb,
    ensures
        forall|i: int|
            0 <= i < combine_orders(ls, rs).len() ==> #[trigger] combine_orders(ls, rs)[i].to_multiset()
                == ma.add(mb),
    decreases ls.len(),
{
    if ls.len() > 0 {
        let init = ls.drop_last();
        assert forall|i: int| 0 <= i < init.len() implies #[trigger] init[i].to_multiset() == ma by {
            assert(init[i] == ls[i]);
        }
        lemma_combine_rearrange(init, rs, ma, mb);
        let l = ls.last();
        assert forall|i: int| 0 <= i < rs.len() implies #[trigger] rs[i].to_multiset().add(ma)
            == ma.add(mb) by {
            assert(rs[i].to_multiset().add(ma) =~= ma.add(mb));
        }
        lemma_pair_orders_rearrange(l, rs, ma.add(mb), ma);
        let c = combine_orders(ls, rs);
        let front = combine_orders(init, rs);
        assert(c == front + pair_orders(l, rs));
        assert forall|i: int| 0 <= i < c.len() implies #[trigger] c[i].to_multiset() == ma.add(mb) by {
            if i < front.len() {
                assert(c[i] == front[i]);
            } else {
                assert(c[i] == pair_orders(l, rs)[i - front.len()]);
            }
        }
    }
}

/// Every group-respecting ordering is a rearrangement of the hierarchy's
/// leaves: each feature occurs in it exactly as often as among the leaves.
pub proof fn lemma_orders_rearrange_leaves(node: PartitionNode)
    ensures
        forall|i: int|
            0 <= i < hierarchy_orders(node).len() ==> #[trigger] hierarchy_orders(node)[i].to_multiset()
                == leaves(node).to_multiset(),
    decreases node,
{
    match node {
        PartitionNode::Feature(j) => {
            assert(hierarchy_orders(node)[0] == leaves(node));
        },
        PartitionNode::Group(a, b) => {
            lemma_orders_rearrange_leaves(*a);
            lemma_orders_rearrange_leaves(*b);
            lemma_combine_rearrange(
                hierarchy_orders(*a),
                hierarchy_orders(*b),
                leaves(*a).to_multiset(),
                leaves(*b).to_multiset(),
            );
            lemma_multiset_commutative(leaves(*a), leaves(*b));
        },
    }
}


/// For one left ordering and right orderings `rs`, the pairings hold `l`
/// followed by each `rs[j]` and each `rs[j]` followed by `l`, and nothing
/// else.
proof fn lemma_pair_orders_members(l: Seq<usize>, rs: Seq<Seq<usize>>)
    ensures
        forall|j: int|
            0 <= j < rs.len() ==> pair_orders(l, rs).contains(l + #[trigger] rs[j]) && pair_orders(
                l,
                rs,
            ).contains(rs[j] + l),
        forall|x: int|
            0 <= x < pair_orders(l, rs).len() ==> exists|j: int|
                0 <= j < rs.len() && (#[trigger] pair_orders(l, rs)[x] == l + rs[j] || pair_orders(l, rs)[x]
                    == rs[j] + l),
    decreases rs.len(),
{
    if rs.len() > 0 {
        let init = rs.drop_last();
        lemma_pair_orders_members(l, init);
        let front = pair_orders(l, init);
        let r = rs.last();
        let p = pair_orders(l, rs);
        assert(p == front + seq![l + r, r + l]);
        lemma_pair_orders_len(l, init);
        assert(p[front.len() as int] == l + r);
        assert(p[front.len() as int + 1] == r + l);
        assert forall|j: int| 0 <= j < rs.len() implies p.contains(l + #[trigger] rs[j]) && p.contains(
            rs[j] + l,
        ) by {
            if j < init.len() {
                assert(init[j] == rs[j]);
                let a = choose|a: int| 0 <= a < front.len() && front[a] == l + init[j];
                let b = choose|b: int| 0 <= b < front.len() && front[b] == init[j] + l;
                assert(p[a] == front[a]);
                assert(p[b] == front[b]);
            }
        }
        assert forall|x: int| 0 <= x < p.len() implies exists|j: int|
            0 <= j < rs.len() && (#[trigger] p[x] == l + rs[j] || p[x] == rs[j] + l) by {
            if x < front.len() {
                assert(p[x] == front[x]);
                let j = choose|j: int| 0 <= j < init.len() && (#[trigger] front[x] == l + init[j] || front[x]
                    == init[j] + l);
                assert(init[j] == rs[j]);
            } else {
                assert(rs[rs.len() - 1] == r);
            }
        }
    }
}

/// The pairings of `l` with `rs` hold `l + rs[j]` and `rs[j] + l`.
proof fn lemma_pair_orders_hold(l: Seq<usize>, rs: Seq<Seq<usize>>, j: int)
    requires
        0 <= j < rs.len(),
    ensures
        pair_orders(l, rs).contains(l + rs[j]),
        pair_orders(l, rs).contains(rs[j] + l),
    decreases rs.len(),
{
    let init = rs.drop_last();
    let front = pair_orders(l, init);
    let p = pair_orders(l, rs);
    assert(p == front + seq![l + rs.last(), rs.last() + l]);
    lemma_pair_orders_len(l, init);
    if j < init.len() {
        lemma_pair_orders_hold(l, init, j);
        assert(init[j] == rs[j]);
        let a = choose|a: int| 0 <= a < front.len() && front[a] == l + init[j];
        let b = choose|b: int| 0 <= b < front.len() && front[b] == init[j] + l;
        assert(p[a] == front[a]);
        assert(p[b] == front[b]);
    } else {
        assert(p[front.len() as int] == l + rs[j]);
        assert(p[front.len() as int + 1] == rs[j] + l);
    }
}

/// The pairings of `ls` with `rs` hold `ls[i] + rs[j]` and `rs[j] + ls[i]`.
proof fn lemma_combine_orders_hold(ls: Seq<Seq<usize>>, rs: Seq<Seq<usize>>, i: int, j: int)
    requires
        0 <= i < ls.len(),
        0 <= j < rs.len(),
    ensures
        combine_orders(ls, rs).contains(ls[i] + rs[j]),
        combine_orders(ls, rs).contains(rs[j] + ls[i]),
    decreases ls.len(),
{
    let init = ls.drop_last();
    let l = ls.last();
    let front = combine_orders(init, rs);
    let back = pair_orders(l, rs);
    let c = combine_orders(ls, rs);
    assert(c == front + back);
    if i < init.len() {
        lemma_combine_orders_hold(init, rs, i, j);
        assert(init[i] == ls[i]);
        let a = choose|a: int| 0 <= a < front.len() && front[a] == init[i] + rs[j];
        let b = choose|b: int| 0 <= b < front.len() && front[b] == rs[j] + init[i];
        assert(c[a] == front[a]);
        assert(c[b] == front[b]);
    } else {
        lemma_pair_orders_hold(l, rs, j);
        assert(ls[i] == l);
        let a = choose|a: int| 0 <= a < back.len() && back[a] == l + rs[j];
        let b = choose|b: int| 0 <= b < back.len() && back[b] == rs[j] + l;
        assert(c[front.len() + a] == back[a]);
        assert(c[front.len() + b] == back[b]);
    }
}

/// All pairings of `ls` with `rs` hold `ls[i] + rs[j]` and `rs[j] + ls[i]`
/// for every `i` and `j`.
proof fn lemma_combine_orders_complete(ls: Seq<Seq<usize>>, rs: Seq<Seq<usize>>)
    ensures
        forall|i: int, j: int|
            0 <= i < ls.len() && 0 <= j < rs.len() ==> combine_orders(ls, rs).contains(
                #[trigger] ls[i] + #[trigger] rs[j],
            ) && combine_orders(ls, rs).contains(rs[j] + ls[i]),
{
    assert forall|i: int, j: int| 0 <= i < ls.len() && 0 <= j < rs.len() implies combine_orders(
        ls,
        rs,
    ).contains(#[trigger] ls[i] + #[trigger] rs[j]) && combine_orders(ls, rs).contains(rs[j] + ls[i]) by {
        lemma_combine_orders_hold(ls, rs, i, j);
    }
}

/// Every pairing of `ls` with `rs` is some `ls[i] + rs[j]` or
/// `rs[j] + ls[i]`.
proof fn lemma_combine_orders_sound(ls: Seq<Seq<usize>>, rs: Seq<Seq<usize>>)
    ensures
        forall|x: int|
            0 <= x < combine_orders(ls, rs).len() ==> exists|i: int, j: int|
                0 <= i < ls.len() && 0 <= j < rs.len() && (#[trigger] combine_orders(ls, rs)[x] == ls[i]
                    + rs[j] || combine_orders(ls, rs)[x] == rs[j] + ls[i]),
    decreases ls.len(),
{
    if ls.len() > 0 {
        let init = ls.drop_last();
        let l = ls.last();
        lemma_combine_orders_sound(init, rs);
        lemma_pair_orders_members(l, rs);
        let front = combine_orders(init, rs);
        let back = pair_orders(l, rs);
        let c = combine_orders(ls, rs);
        assert(c == front + back);
        assert forall|x: int| 0 <= x < c.len() implies exists|i: int, j: int|
            0 <= i < ls.len() && 0 <= j < rs.len() && (#[trigger] c[x] == ls[i] + rs[j] || c[x] == rs[j]
                + ls[i]) by {
            if x < front.len() {
                assert(c[x] == front[x]);
                let (i, j) = choose|i: int, j: int|
                    0 <= i < init.len() && 0 <= j < rs.len() && (#[trigger] front[x] == init[i] + rs[j]
                        || front[x] == rs[j] + init[i]);
                assert(init[i] == ls[i]);
            } else {
                assert(c[x] == back[x - front.len()]);
                let j = choose|j: int| 0 <= j < rs.len() && (#[trigger] back[x - front.len()] == l + rs[j]
                    || back[x - front.len()] == rs[j] + l);
                assert(ls[ls.len() - 1] == l);
            }
        }
    }
}

/// All pairings of `ls` with `rs` hold `ls[i] + rs[j]` and `rs[j] + ls[i]`
/// for every `i` and `j`, and nothing else.
pub proof fn lemma_combine_orders_members(ls: Seq<Seq<usize>>, rs: Seq<Seq<usize>>)
    ensures
        forall|i: int, j: int|
            0 <= i < ls.len() && 0 <= j < rs.len() ==> combine_orders(ls, rs).contains(
                #[trigger] ls[i] + #[trigger] rs[j],
            ) && combine_orders(ls, rs).contains(rs[j] + ls[i]),
        forall|x: int|
            0 <= x < combine_orders(ls, rs).len() ==> exists|i: int, j: int|
                0 <= i < ls.len() && 0 <= j < rs.len() && (#[trigger] combine_orders(ls, rs)[x] == ls[i]
                    + rs[j] || combine_orders(ls, rs)[x] == rs[j] + ls[i]),
{
    lemma_combine_orders_complete(ls, rs);
    lemma_combine_orders_sound(ls, rs);
}

/// A group's orderings are exactly its children's orderings joined in
/// either order: for every ordering `l` of the left child and `r` of the
/// right child both `l + r` and `r + l` are orderings of the group, and
/// every ordering of the group is one of these.
pub proof fn lemma_group_orders_join_children(a: PartitionNode, b: PartitionNode)
    ensures
        forall|i: int, j: int|
            0 <= i < hierarchy_orders(a).len() && 0 <= j < hierarchy_orders(b).len() ==> hierarchy_orders(
                PartitionNode::Group(Box::new(a), Box::new(b)),
            ).contains(#[trigger] hierarchy_orders(a)[i] + #[trigger] hierarchy_orders(b)[j])
                && hierarchy_orders(PartitionNode::Group(Box::new(a), Box::new(b))).contains(
                hierarchy_orders(b)[j] + hierarchy_orders(a)[i],
            ),
        forall|x: int|
            0 <= x < hierarchy_orders(PartitionNode::Group(Box::new(a), Box::new(b))).len() ==> exists|
                i: int,
                j: int,
            |
                0 <= i < hierarchy_orders(a).len() && 0 <= j < hierarchy_orders(b).len() && (
                #[trigger] hierarchy_orders(PartitionNode::Group(Box::new(a), Box::new(b)))[x]
                    == hierarchy_orders(a)[i] + hierarchy_orders(b)[j] || hierarchy_orders(
                    PartitionNode::Group(Box::new(a), Box::new(b)),
                )[x] == hierarchy_orders(b)[j] + hierarchy_orders(a)[i]),
{
    lemma_combine_orders_members(hierarchy_orders(a), hierarchy_orders(b));
}

/// Joined sequences with equally long first parts are equal only when
/// both parts are.
proof fn lemma_join_split(x1: Seq<usize>, y1: Seq<usize>, x2: Seq<usize>, y2: Seq<usize>)
    requires
        x1 + y1 == x2 + y2,
        x1.len() == x2.len(),
    ensures
        x1 == x2,
        y1 == y2,
{
    assert(x1 =~= (x1 + y1).take(x1.len() as int));
    assert(x2 =~= (x2 + y2).take(x2.len() as int));
    assert(y1 =~= (x1 + y1).skip(x1.len() as int));
    assert(y2 =~= (x2 + y2).skip(x2.len() as int));
}

/// Every ordering in `os` has length `n > 0` and draws its features from
/// `from`.
pub open spec fn orderings_over(os: Seq<Seq<usize>>, n: nat, from: Seq<usize>) -> bool {
    &&& n > 0
    &&& forall|i: int| 0 <= i < os.len() ==> (#[trigger] os[i]).len() == n
    &&& forall|i: int, k: int| 0 <= i < os.len() && 0 <= k < n ==> from.contains(#[trigger] os[i][k])
}

/// Two sides share no feature.
pub open spec fn apart(a: Seq<usize>, b: Seq<usize>) -> bool {
    forall|x: usize| a.contains(x) ==> !b.contains(x)
}

/// Joining a left ordering with each of distinct right orderings, both
/// ways, gives distinct orderings.
proof fn lemma_pair_orders_distinct(
    l: Seq<usize>,
    rs: Seq<Seq<usize>>,
    na: nat,
    nb: nat,
    fa: Seq<usize>,
    fb: Seq<usize>,
)
    requires
        orderings_over(seq![l], na, fa),
        orderings_over(rs, nb, fb),
        apart(fa, fb),
        rs.no_duplicates(),
    ensures
        pair_orders(l, rs).no_duplicates(),
    decreases rs.len(),
{
    if rs.len() > 0 {
        let init = rs.drop_last();
        let r = rs.last();
        assert(orderings_over(init, nb, fb)) by {
            assert forall|i: int| 0 <= i < init.len() implies (#[trigger] init[i]).len() == nb by {
                assert(init[i] == rs[i]);
            }
            assert forall|i: int, k: int| 0 <= i < init.len() && 0 <= k < nb implies fb.contains(
                #[trigger] init[i][k],
            ) by {
                assert(init[i] == rs[i]);
            }
        }
        assert(init.no_duplicates()) by {
            assert forall|i: int, j: int| 0 <= i < init.len() && 0 <= j < init.len() && i != j implies init[i]
                != init[j] by {
                assert(init[i] == rs[i] && init[j] == rs[j]);
            }
        }
        lemma_pair_orders_distinct(l, init, na, nb, fa, fb);
        lemma_pair_orders_members(l, init);
        lemma_pair_orders_len(l, init);
        let front = pair_orders(l, init);
        let p = pair_orders(l, rs);
        assert(p == front + seq![l + r, r + l]);
        assert(l == seq![l][0]);
        assert(r == rs[rs.len() - 1]);
        assert(fa.contains(l[0]));
        assert(fb.contains(r[0]));
        assert((l + r)[0] == l[0]);
        assert((r + l)[0] == r[0]);
        assert forall|x: int| 0 <= x < front.len() implies front[x] != l + r && front[x] != r + l by {
            let j = choose|j: int| 0 <= j < init.len() && (#[trigger] front[x] == l + init[j] || front[x]
                == init[j] + l);
            let rj = init[j];
            assert(rj == rs[j]);
            assert(rj != r);
            assert(fb.contains(rj[0]));
            if front[x] == l + rj {
                assert((l + rj)[0] == l[0]);
                if front[x] == l + r {
                    lemma_join_split(l, rj, l, r);
                }
                if front[x] == r + l {
                    assert((r + l)[0] == r[0]);
                }
            } else {
                assert((rj + l)[0] == rj[0]);
                if front[x] == l + r {
                    assert((l + r)[0] == l[0]);
                }
                if front[x] == r + l {
                    lemma_join_split(rj, l, r, l);
                }
            }
        }
        assert(l + r != r + l) by {
            if l + r == r + l {
                assert((l + r)[0] == (r + l)[0]);
            }
        }
        assert forall|x: int, y: int| 0 <= x < p.len() && 0 <= y < p.len() && x != y implies p[x] != p[y] by {
            if x < front.len() && y < front.len() {
                assert(p[x] == front[x] && p[y] == front[y]);
            } else if x < front.len() {
                assert(p[x] == front[x]);
            } else if y < front.len() {
                assert(p[y] == front[y]);
            }
        }
    }
}

/// Distinct left orderings and distinct right orderings over features
/// apart from each other pair into distinct orderings.
proof fn lemma_combine_orders_distinct(
    ls: Seq<Seq<usize>>,
    rs: Seq<Seq<usize>>,
    na: nat,
    nb: nat,
    fa: Seq<usize>,
    fb: Seq<usize>,
)
    requires
        orderings_over(ls, na, fa),
        orderings_over(rs, nb, fb),
        apart(fa, fb),
        ls.no_duplicates(),
        rs.no_duplicates(),
    ensures
        combine_orders(ls, rs).no_duplicates(),
    decreases ls.len(),
{
    if ls.len() > 0 {
        let init = ls.drop_last();
        let l = ls.last();
        assert(orderings_over(init, na, fa)) by {
            assert forall|i: int| 0 <= i < init.len() implies (#[trigger] init[i]).len() == na by {
                assert(init[i] == ls[i]);
            }
            assert forall|i: int, k: int| 0 <= i < init.len() && 0 <= k < na implies fa.contains(
                #[trigger] init[i][k],
            ) by {
                assert(init[i] == ls[i]);
            }
        }
        assert(init.no_duplicates()) by {
            assert forall|i: int, j: int| 0 <= i < init.len() && 0 <= j < init.len() && i != j implies init[i]
                != init[j] by {
                assert(init[i] == ls[i] && init[j] == ls[j]);
            }
        }
        assert(l == ls[ls.len() - 1]);
        assert(orderings_over(seq![l], na, fa)) by {
            assert forall|i: int, k: int| 0 <= i < 1 && 0 <= k < na implies fa.contains(#[trigger] seq![l][i][k]) by {
                assert(seq![l][i] == ls[ls.len() - 1]);
            }
        }
        lemma_combine_orders_distinct(init, rs, na, nb, fa, fb);
        lemma_pair_orders_distinct(l, rs, na, nb, fa, fb);
        lemma_combine_orders_members(init, rs);
        lemma_pair_orders_members(l, rs);
        let front = combine_orders(init, rs);
        let back = pair_orders(l, rs);
        let c = combine_orders(ls, rs);
        assert(c == front + back);
        assert forall|x: int, y: int| 0 <= x < front.len() && 0 <= y < back.len() implies front[x] != back[y] by {
            let (i, j) = choose|i: int, j: int|
                0 <= i < init.len() && 0 <= j < rs.len() && (#[trigger] front[x] == init[i] + rs[j] || front[x]
                    == rs[j] + init[i]);
            let j2 = choose|j2: int| 0 <= j2 < rs.len() && (#[trigger] back[y] == l + rs[j2] || back[y] == rs[j2]
                + l);
            let li = init[i];
            assert(li == ls[i]);
            assert(li != l);
            let r1 = rs[j];
            let r2 = rs[j2];
            assert(fa.contains(li[0]) && fa.contains(l[0]));
            assert(fb.contains(r1[0]) && fb.contains(r2[0]));
            assert((li + r1)[0] == li[0]);
            assert((r1 + li)[0] == r1[0]);
            assert((l + r2)[0] == l[0]);
            assert((r2 + l)[0] == r2[0]);
            if front[x] == back[y] {
                if front[x] == li + r1 && back[y] == l + r2 {
                    lemma_join_split(li, r1, l, r2);
                }
                if front[x] == r1 + li && back[y] == r2 + l {
                    lemma_join_split(r1, li, r2, l);
                }
            }
        }
        assert forall|x: int, y: int| 0 <= x < c.len() && 0 <= y < c.len() && x != y implies c[x] != c[y] by {
            if x < front.len() && y < front.len() {
                assert(c[x] == front[x] && c[y] == front[y]);
            } else if x >= front.len() && y >= front.len() {
                assert(c[x] == back[x - front.len()] && c[y] == back[y - front.len()]);
            } else if x < front.len() {
                assert(c[x] == front[x] && c[y] == back[y - front.len()]);
            } else {
                assert(c[y] == front[y] && c[x] == back[x - front.len()]);
            }
        }
    }
}

/// Every ordering of a hierarchy with distinct leaves is as long as the
/// leaves and draws its features from them.
proof fn lemma_orders_over_leaves(node: PartitionNode)
    ensures
        orderings_over(hierarchy_orders(node), leaves(node).len(), leaves(node)),
    decreases node,
{
    broadcast use vstd::seq_lib::group_to_multiset_ensures;
    lemma_orders_rearrange_leaves(node);
    lemma_leaves_nonempty(node);
    let os = hierarchy_orders(node);
    let lv = leaves(node);
    assert forall|i: int| 0 <= i < os.len() implies (#[trigger] os[i]).len() == lv.len() by {
        assert(os[i].to_multiset().len() == lv.to_multiset().len());
    }
    assert forall|i: int, k: int| 0 <= i < os.len() && 0 <= k < lv.len() implies lv.contains(#[trigger] os[i][k]) by {
        assert(os[i].len() == lv.len());
        assert(os[i].contains(os[i][k]));
        assert(os[i].to_multiset().contains(os[i][k]));
    }
}

/// A hierarchy has at least one leaf.
proof fn lemma_leaves_nonempty(node: PartitionNode)
    ensures
        leaves(node).len() > 0,
    decreases node,
{
    if let PartitionNode::Group(a, b) = node {
        lemma_leaves_nonempty(*a);
    }
}

/// A hierarchy whose leaves are distinct has distinct group-respecting
/// orderings: no ordering is produced twice.
pub proof fn lemma_orders_distinct(node: PartitionNode)
    requires
        leaves(node).no_duplicates(),
    ensures
        hierarchy_orders(node).no_duplicates(),
    decreases node,
{
    match node {
        PartitionNode::Feature(_) => {},
        PartitionNode::Group(a, b) => {
            let la = leaves(*a);
            let lb = leaves(*b);
            let lv = la + lb;
            assert(lv == leaves(node));
            assert(la.no_duplicates()) by {
                assert forall|i: int, j: int| 0 <= i < la.len() && 0 <= j < la.len() && i != j implies la[i]
                    != la[j] by {
                    assert(lv[i] == la[i] && lv[j] == la[j]);
                }
            }
            assert(lb.no_duplicates()) by {
                assert forall|i: int, j: int| 0 <= i < lb.len() && 0 <= j < lb.len() && i != j implies lb[i]
                    != lb[j] by {
                    assert(lv[la.len() + i] == lb[i] && lv[la.len() + j] == lb[j]);
                }
            }
            assert(apart(la, lb)) by {
                assert forall|x: usize| la.contains(x) implies !lb.contains(x) by {
                    let i = choose|i: int| 0 <= i < la.len() && la[i] == x;
                    if lb.contains(x) {
                        let j = choose|j: int| 0 <= j < lb.len() && lb[j] == x;
                        assert(lv[i] == x && lv[la.len() + j] == x);
                    }
                }
            }
            lemma_orders_distinct(*a);
            lemma_orders_distinct(*b);
            lemma_orders_over_leaves(*a);
            lemma_orders_over_leaves(*b);
            lemma_combine_orders_distinct(
                hierarchy_orders(*a),
                hierarchy_orders(*b),
                la.len(),
                lb.len(),
                la,
                lb,
            );
        },
    }
}

/// A rearrangement of a sequence that lists each feature of `0..n` once
/// lists each of them once too.
pub proof fn lemma_rearrangement_lists_each_once(s: Seq<usize>, t: Seq<usize>, n: nat)
    requires
        s.to_multiset() == t.to_multiset(),
        lists_each_feature_once(t, n),
    ensures
        lists_each_feature_once(s, n),
{
    broadcast use vstd::seq_lib::to_multiset_contains;
    t.lemma_multiset_has_no_duplicates();
    assert forall|x: usize| s.to_multiset().contains(x) implies s.to_multiset().count(x) == 1 by {
        assert(t.to_multiset().contains(x));
    }
    s.lemma_multiset_has_no_duplicates_conv();
    assert forall|k: int| 0 <= k < s.len() implies #[trigger] s[k] < n by {
        assert(s.contains(s[k]));
        assert(s.to_multiset().count(s[k]) > 0);
        assert(t.contains(s[k]));
    }
    assert forall|j: usize| j < n implies s.contains(j) by {
        assert(t.contains(j));
        assert(t.to_multiset().count(j) > 0);
    }
}

/// For a valid hierarchy over `n` features, every group-respecting ordering
/// lists each of the features `0..n` exactly once.
pub proof fn lemma_orders_list_each_feature_once(root: PartitionNode, n: nat)
    requires
        tree_valid(root, n),
    ensures
        forall|i: int|
            0 <= i < hierarchy_orders(root).len() ==> lists_each_feature_once(
                #[trigger] hierarchy_orders(root)[i],
                n,
            ),
{
    lemma_orders_rearrange_leaves(root);
    assert forall|i: int| 0 <= i < hierarchy_orders(root).len() implies lists_each_feature_once(
        #[trigger] hierarchy_orders(root)[i],
        n,
    ) by {
        lemma_rearrangement_lists_each_once(hierarchy_orders(root)[i], leaves(root), n);
    }
}

/// The groups' features, concatenated in order.
pub open spec fn joined_groups(gs: Seq<Seq<usize>>) -> Seq<usize>
    decreases gs.len(),
{
    if gs.len() == 0 {
        seq![]
    } else {
        joined_groups(gs.drop_last()) + gs.last()
    }
}

/// Distinct features, all below `n`.
pub open spec fn distinct_below(s: Seq<usize>, n: nat) -> bool {
    s.no_duplicates() && forall|k: int| 0 <= k < s.len() ==> #[trigger] s[k] < n
}

/// The first `g` groups are non-empty and together list distinct features
/// below `n`.
pub open spec fn groups_prefix_ok(gs: Seq<Seq<usize>>, n: nat, g: int) -> bool {
    &&& forall|i: int| 0 <= i < g ==> #[trigger] gs[i].len() > 0
    &&& distinct_below(joined_groups(gs.take(g)), n)
}

/// Some group is empty while every group before it is acceptable.
pub open spec fn empty_group_first(gs: Seq<Seq<usize>>, n: nat) -> bool {
    exists|g: int| 0 <= g < gs.len() && #[trigger] gs[g].len() == 0 && groups_prefix_ok(gs, n, g)
}

/// Non-empty groups that together list each of the features `0..n` once.
pub open spec fn partition_valid(gs: Seq<Seq<usize>>, n: nat) -> bool {
    &&& n > 0
    &&& forall|i: int| 0 <= i < gs.len() ==> #[trigger] gs[i].len() > 0
    &&& lists_each_feature_once(joined_groups(gs), n)
}

/// The message for a partition that misses or repeats a feature.
pub open spec fn partition_message() -> Seq<char> {
    "partition must contain every feature exactly once"@
}

/// Concatenating more groups extends the concatenation of fewer.
pub proof fn lemma_joined_prefix(gs: Seq<Seq<usize>>, g1: int, g2: int)
    requires
        0 <= g1 <= g2 <= gs.len(),
    ensures
        joined_groups(gs.take(g1)).len() <= joined_groups(gs.take(g2)).len(),
        joined_groups(gs.take(g2)).take(joined_groups(gs.take(g1)).len() as int) == joined_groups(
            gs.take(g1),
        ),
    decreases g2 - g1,
{
    if g1 == g2 {
        assert(joined_groups(gs.take(g2)).take(joined_groups(gs.take(g1)).len() as int) =~= joined_groups(gs.take(g1)));
    } else {
        lemma_joined_prefix(gs, g1, g2 - 1);
        assert(gs.take(g2).drop_last() =~= gs.take(g2 - 1));
        let a = joined_groups(gs.take(g1));
        let b = joined_groups(gs.take(g2 - 1));
        let c = joined_groups(gs.take(g2));
        assert(c == b + gs[g2 - 1]);
        assert(c.take(a.len() as int) =~= b.take(a.len() as int));
    }
}

/// A prefix of a sequence of distinct features below `n` is one too.
proof fn lemma_distinct_below_take(s: Seq<usize>, n: nat, k: int)
    requires
        distinct_below(s, n),
        0 <= k <= s.len(),
    ensures
        distinct_below(s.take(k), n),
{
    assert forall|x: int, y: int| 0 <= x < k && 0 <= y < k && x != y implies s.take(k)[x] != s.take(
        k,
    )[y] by {
        assert(s.take(k)[x] == s[x] && s.take(k)[y] == s[y]);
    }
    assert forall|x: int| 0 <= x < k implies #[trigger] s.take(k)[x] < n by {
        assert(s.take(k)[x] == s[x]);
    }
}

/// Once the first `g` groups fail, every longer prefix fails too.
proof fn lemma_prefix_fails_later(gs: Seq<Seq<usize>>, n: nat, g: int)
    requires
        0 <= g <= gs.len(),
        !distinct_below(joined_groups(gs.take(g)), n),
    ensures
        forall|g2: int| g <= g2 <= gs.len() ==> !#[trigger] groups_prefix_ok(gs, n, g2),
{
    assert forall|g2: int| g <= g2 <= gs.len() implies !#[trigger] groups_prefix_ok(gs, n, g2) by {
        lemma_joined_prefix(gs, g, g2);
        if groups_prefix_ok(gs, n, g2) {
            lemma_distinct_below_take(
                joined_groups(gs.take(g2)),
                n,
                joined_groups(gs.take(g)).len() as int,
            );
        }
    }
}

/// Checks a flat partition of `n_features` features.
fn check_partition(groups: &Vec<Vec<usize>>, n_features: usize) -> (r: Result<()>)
    ensures
        r is Ok <==> partition_valid(groups.deep_view(), n_features as nat),
        n_features == 0 ==> r is Err && is_invalid_configuration(
            r->Err_0,
            "partition must contain at least one feature"@,
        ),
        n_features > 0 && empty_group_first(groups.deep_view(), n_features as nat) ==> r is Err
            && is_invalid_configuration(r->Err_0, "partition groups cannot be empty"@),
        n_features > 0 && !empty_group_first(groups.deep_view(), n_features as nat)
            && !partition_valid(groups.deep_view(), n_features as nat) ==> r is Err
            && is_invalid_configuration(r->Err_0, partition_message()),
{
    let ghost gs = groups.deep_view();
    let ghost n = n_features as nat;
    if n_features == 0 {
        return Err(invalid_configuration("partition must contain at least one feature"));
    }
    let mut seen: Vec<bool> = vec![false; n_features];
    proof {
        assert(gs.take(0) =~= Seq::<Seq<usize>>::empty());
        assert forall|x: int| 0 <= x < n_features implies seen@[x] == joined_groups(gs.take(0)).contains(x as usize) by {
            assert(!seen@[x]);
        }
    }
    let mut g: usize = 0;
    while g < groups.len()
        invariant
            gs == groups.deep_view(),
            n == n_features as nat,
            n_features > 0,
            g <= groups.len(),
            seen.len() == n_features,
            groups_prefix_ok(gs, n, g as int),
            forall|x: int| 0 <= x < n_features ==> seen@[x] == joined_groups(gs.take(g as int)).contains(x as usize),
        decreases groups.len() - g,
    {
        let group = &groups[g];
        assert(group@ == gs[g as int]);
        if group.len() == 0 {
            assert(empty_group_first(gs, n));
            return Err(invalid_configuration("partition groups cannot be empty"));
        }
        let ghost before = joined_groups(gs.take(g as int));
        let mut a: usize = 0;
        while a < group.len()
            invariant
                gs == groups.deep_view(),
                n == n_features as nat,
                n_features > 0,
                g < groups.len(),
                group@ == gs[g as int],
                group.len() > 0,
                a <= group.len(),
                seen.len() == n_features,
                groups_prefix_ok(gs, n, g as int),
                before == joined_groups(gs.take(g as int)),
                distinct_below(before + group@.take(a as int), n),
                forall|x: int| 0 <= x < n_features ==> seen@[x] == (before + group@.take(a as int)).contains(x as usize),
            decreases group.len() - a,
        {
            let j = group[a];
            let ghost cur = before + group@.take(a as int);
            let ghost next = before + group@.take(a + 1);
            assert(next =~= cur.push(j));
            assert(gs.take(g + 1).drop_last() =~= gs.take(g as int));
            assert(joined_groups(gs.take(g + 1)) == before + group@);
            if j >= n_features || seen[j] {
                proof {
                    assert(!distinct_below(next, n)) by {
                        if j < n_features {
                            let k = choose|k: int| 0 <= k < cur.len() && cur[k] == j;
                            assert(next[k] == next[cur.len() as int]);
                        } else {
                            assert(next[cur.len() as int] == j);
                        }
                    }
                    assert((before + group@).take(next.len() as int) =~= next);
                    if distinct_below(before + group@, n) {
                        lemma_distinct_below_take(before + group@, n, next.len() as int);
                    }
                    lemma_prefix_fails_later(gs, n, g + 1);
                    assert(!empty_group_first(gs, n)) by {
                        if empty_group_first(gs, n) {
                            let e = choose|e: int|
                                0 <= e < gs.len() && #[trigger] gs[e].len() == 0 && groups_prefix_ok(gs, n, e);
                            if e > g {
                                assert(!groups_prefix_ok(gs, n, e));
                            }
                        }
                    }
                    assert(gs.take(gs.len() as int) =~= gs);
                    assert(!groups_prefix_ok(gs, n, gs.len() as int));
                }
                return Err(
                    invalid_configuration("partition must contain every feature exactly once"),
                );
            }
            let ghost s_old = seen@;
            seen.set(j, true);
            proof {
                assert forall|x: int, y: int| 0 <= x < next.len() && 0 <= y < next.len() && x != y implies next[x] != next[y] by {
                    if x == cur.len() as int && y < cur.len() {
                        assert(cur.contains(next[y]));
                    } else if y == cur.len() as int && x < cur.len() {
                        assert(cur.contains(next[x]));
                    } else if x < cur.len() && y < cur.len() {
                        assert(next[x] == cur[x] && next[y] == cur[y]);
                    }
                }
                assert forall|k: int| 0 <= k < next.len() implies #[trigger] next[k] < n by {
                    if k < cur.len() {
                        assert(next[k] == cur[k]);
                    }
                }
                assert forall|x: int| 0 <= x < n_features implies seen@[x] == next.contains(x as usize) by {
                    if next.contains(x as usize) && x != j as int {
                        let k = choose|k: int| 0 <= k < next.len() && next[k] == x as usize;
                        assert(cur[k] == next[k]);
                    }
                    if cur.contains(x as usize) {
                        let k = choose|k: int| 0 <= k < cur.len() && cur[k] == x as usize;
                        assert(next[k] == cur[k]);
                    }
                    if x == j as int {
                        assert(next[cur.len() as int] == j);
                    }
                }
            }
            a = a + 1;
        }
        proof {
            assert(group@.take(group.len() as int) =~= group@);
            assert(gs.take(g + 1).drop_last() =~= gs.take(g as int));
            assert(joined_groups(gs.take(g + 1)) == before + group@);
            assert forall|i: int| 0 <= i < g + 1 implies #[trigger] gs[i].len() > 0 by {
                if i < g {
                    assert(gs[i].len() > 0);
                }
            }
        }
        g = g + 1;
    }
    let ghost all = joined_groups(gs);
    proof {
        assert(gs.take(gs.len() as int) =~= gs);
        assert(!empty_group_first(gs, n));
    }
    let mut j: usize = 0;
    while j < n_features
        invariant
            gs == groups.deep_view(),
            n == n_features as nat,
            n_features > 0,
            all == joined_groups(gs),
            groups_prefix_ok(gs, n, gs.len() as int),
            gs.take(gs.len() as int) == gs,
            !empty_group_first(gs, n),
            seen.len() == n_features,
            forall|x: int| 0 <= x < n_features ==> seen@[x] == all.contains(x as usize),
            forall|x: usize| x < j ==> all.contains(x),
            j <= n_features,
        decreases n_features - j,
    {
        if !seen[j] {
            assert(!all.contains(j));
            return Err(invalid_configuration("partition must contain every feature exactly once"));
        }
        j = j + 1;
    }
    Ok(())
}

/// A validated, non-overlapping partition of all input features.
#[derive(Debug, Clone, PartialEq, Eq)]
pub struct FeaturePartition {
    groups: Vec<Vec<usize>>,
    n_features: usize,
}

impl View for FeaturePartition {
    type V = (Seq<Seq<usize>>, nat);

    closed spec fn view(&self) -> (Seq<Seq<usize>>, nat) {
        (self.groups.deep_view(), self.n_features as nat)
    }
}

impl FeaturePartition {
    /// Builds a partition when `n_features > 0`, no group is empty, and the
    /// groups together list each feature `0..n_features` exactly once.
    /// Groups are checked in order; the first failure decides the message.
    pub fn new(groups: Vec<Vec<usize>>, n_features: usize) -> (r: Result<Self>)
        ensures
            r is Ok <==> partition_valid(groups.deep_view(), n_features as nat),
            r matches Ok(p) ==> p@ == (groups.deep_view(), n_features as nat),
            n_features == 0 ==> r is Err && is_invalid_configuration(
                r->Err_0,
                "partition must contain at least one feature"@,
            ),
            n_features > 0 && empty_group_first(groups.deep_view(), n_features as nat) ==> r is Err
                && is_invalid_configuration(r->Err_0, "partition groups cannot be empty"@),
            n_features > 0 && !empty_group_first(groups.deep_view(), n_features as nat)
                && !partition_valid(groups.deep_view(), n_features as nat) ==> r is Err
                && is_invalid_configuration(r->Err_0, partition_message()),
    {
        match check_partition(&groups, n_features) {
            Ok(()) => Ok(Self { groups, n_features }),
            Err(e) => Err(e),
        }
    }

    /// Re-checks the partition with the rules of [`FeaturePartition::new`].
    pub fn validate(&self) -> (r: Result<()>)
        ensures
            r is Ok <==> partition_valid(self@.0, self@.1),
            self@.1 == 0 ==> r is Err && is_invalid_configuration(
                r->Err_0,
                "partition must contain at least one feature"@,
            ),
            self@.1 > 0 && empty_group_first(self@.0, self@.1) ==> r is Err
                && is_invalid_configuration(r->Err_0, "partition groups cannot be empty"@),
            self@.1 > 0 && !empty_group_first(self@.0, self@.1) && !partition_valid(self@.0, self@.1)
                ==> r is Err && is_invalid_configuration(r->Err_0, partition_message()),
    {
        check_partition(&self.groups, self.n_features)
    }

    /// The feature groups.
    pub fn groups(&self) -> (r: &[Vec<usize>])
        ensures
            r@.len() == self@.0.len(),
            forall|i: int| 0 <= i < r@.len() ==> #[trigger] r@[i]@ == self@.0[i],
    {
        self.groups.as_slice()
    }

    /// The number of features partitioned.
    pub fn n_features(&self) -> (n: usize)
        ensures
            n as nat == self@.1,
    {
        self.n_features
    }
}

/// Exact Owen values for a flat partition of the features into groups.
pub struct PartitionExplainer<M, K> {
    model: M,
    masker: K,
    partition: FeaturePartition,
    max_features: usize,
    evaluation: EvaluationConfig,
    link: Link,
}

impl<M, K> PartitionExplainer<M, K> {
    /// The prediction model.
    pub closed spec fn spec_model(&self) -> M {
        self.model
    }

    /// The masker.
    pub closed spec fn spec_masker(&self) -> K {
        self.masker
    }

    /// The feature groups.
    pub closed spec fn spec_partition(&self) -> (Seq<Seq<usize>>, nat) {
        self.partition@
    }

    /// The largest number of features explained exactly.
    pub closed spec fn spec_max_features(&self) -> usize {
        self.max_features
    }

    /// The coalition evaluation limits.
    pub closed spec fn spec_evaluation(&self) -> EvaluationConfig {
        self.evaluation
    }

    /// The output transform.
    pub closed spec fn spec_link(&self) -> Link {
        self.link
    }

    /// An explainer for at most 20 features, evaluating coalitions in batches
    /// of 64 with a `2^20`-entry cache and no row limit, in the identity link.
    pub fn from_masker(model: M, masker: K, partition: FeaturePartition) -> (r: Self)
        ensures
            r.spec_model() == model,
            r.spec_masker() == masker,
            r.spec_partition() == partition@,
            r.spec_max_features() == 20,
            r.spec_evaluation() == (EvaluationConfig { coalition_batch_size: 64, cache_capacity: 1048576, max_model_rows: None }),
            r.spec_link() == Link::Identity,
    {
        Self { model, masker, partition, max_features: 20, evaluation: EvaluationConfig { coalition_batch_size: 64, cache_capacity: 1048576, max_model_rows: None }, link: Link::Identity }
    }

    /// Sets the largest number of features.
    pub fn with_max_features(self, value: usize) -> (r: Self)
        ensures
            r.spec_model() == self.spec_model(),
            r.spec_masker() == self.spec_masker(),
            r.spec_partition() == self.spec_partition(),
            r.spec_max_features() == value,
            r.spec_evaluation() == self.spec_evaluation(),
            r.spec_link() == self.spec_link(),
    {
        Self { max_features: value, ..self }
    }

    /// Sets the coalition evaluation limits.
    pub fn with_evaluation_config(self, value: EvaluationConfig) -> (r: Self)
        ensures
            r.spec_model() == self.spec_model(),
            r.spec_masker() == self.spec_masker(),
            r.spec_partition() == self.spec_partition(),
            r.spec_max_features() == self.spec_max_features(),
            r.spec_evaluation() == value,
            r.spec_link() == self.spec_link(),
    {
        Self { evaluation: value, ..self }
    }

    /// Sets the output transform.
    pub fn with_link(self, value: Link) -> (r: Self)
        ensures
            r.spec_model() == self.spec_model(),
            r.spec_masker() == self.spec_masker(),
            r.spec_partition() == self.spec_partition(),
            r.spec_max_features() == self.spec_max_features(),
            r.spec_evaluation() == self.spec_evaluation(),
            r.spec_link() == value,
    {
        Self { link: value, ..self }
    }

    /// The prediction model.
    pub fn model(&self) -> (r: &M)
        ensures
            *r == self.spec_model(),
    {
        &self.model
    }

    /// The masker.
    pub fn masker(&self) -> (r: &K)
        ensures
            *r == self.spec_masker(),
    {
        &self.masker
    }

    /// The feature groups.
    pub fn partition(&self) -> (r: &FeaturePartition)
        ensures
            r@ == self.spec_partition(),
    {
        &self.partition
    }

    /// The largest number of features explained exactly.
    pub fn max_features(&self) -> (r: usize)
        ensures
            r == self.spec_max_features(),
    {
        self.max_features
    }

    /// The coalition evaluation limits.
    pub fn evaluation(&self) -> (r: EvaluationConfig)
        ensures
            r == self.spec_evaluation(),
    {
        self.evaluation
    }

    /// The output transform.
    pub fn link(&self) -> (r: Link)
        ensures
            r == self.spec_link(),
    {
        self.link
    }

}

/// Owen values for a binary feature hierarchy, averaged over the
/// group-respecting feature orderings.
pub struct HierarchicalPartitionExplainer<M, K> {
    model: M,
    masker: K,
    tree: PartitionTree,
    max_permutations: usize,
    evaluation: EvaluationConfig,
    link: Link,
}

impl<M, K> HierarchicalPartitionExplainer<M, K> {
    /// The prediction model.
    pub closed spec fn spec_model(&self) -> M {
        self.model
    }

    /// The masker.
    pub closed spec fn spec_masker(&self) -> K {
        self.masker
    }

    /// The feature hierarchy.
    pub closed spec fn spec_tree(&self) -> (PartitionNode, nat) {
        self.tree@
    }

    /// The largest number of orderings averaged over.
    pub closed spec fn spec_max_permutations(&self) -> usize {
        self.max_permutations
    }

    /// The coalition evaluation limits.
    pub closed spec fn spec_evaluation(&self) -> EvaluationConfig {
        self.evaluation
    }

    /// The output transform.
    pub closed spec fn spec_link(&self) -> Link {
        self.link
    }

    /// An explainer averaging over at most 65536 orderings, evaluating
    /// coalitions in batches of 64 with a `2^20`-entry cache and no row limit,
    /// in the identity link.
    pub fn from_masker(model: M, masker: K, tree: PartitionTree) -> (r: Self)
        ensures
            r.spec_model() == model,
            r.spec_masker() == masker,
            r.spec_tree() == tree@,
            r.spec_max_permutations() == 65536,
            r.spec_evaluation() == (EvaluationConfig { coalition_batch_size: 64, cache_capacity: 1048576, max_model_rows: None }),
            r.spec_link() == Link::Identity,
    {
        Self { model, masker, tree, max_permutations: 65536, evaluation: EvaluationConfig { coalition_batch_size: 64, cache_capacity: 1048576, max_model_rows: None }, link: Link::Identity }
    }

    /// Sets the largest number of orderings.
    pub fn with_max_permutations(self, value: usize) -> (r: Self)
        ensures
            r.spec_model() == self.spec_model(),
            r.spec_masker() == self.spec_masker(),
            r.spec_tree() == self.spec_tree(),
            r.spec_max_permutations() == value,
            r.spec_evaluation() == self.spec_evaluation(),
            r.spec_link() == self.spec_link(),
    {
        Self { max_permutations: value, ..self }
    }

    /// Sets the coalition evaluation limits.
    pub fn with_evaluation_config(self, value: EvaluationConfig) -> (r: Self)
        ensures
            r.spec_model() == self.spec_model(),
            r.spec_masker() == self.spec_masker(),
            r.spec_tree() == self.spec_tree(),
            r.spec_max_permutations() == self.spec_max_permutations(),
            r.spec_evaluation() == value,
            r.spec_link() == self.spec_link(),
    {
        Self { evaluation: value, ..self }
    }

    /// Sets the output transform.
    pub fn with_link(self, value: Link) -> (r: Self)
        ensures
            r.spec_model() == self.spec_model(),
            r.spec_masker() == self.spec_masker(),
            r.spec_tree() == self.spec_tree(),
            r.spec_max_permutations() == self.spec_max_permutations(),
            r.spec_evaluation() == self.spec_evaluation(),
            r.spec_link() == value,
    {
        Self { link: value, ..self }
    }

    /// The prediction model.
    pub fn model(&self) -> (r: &M)
        ensures
            *r == self.spec_model(),
    {
        &self.model
    }

    /// The masker.
    pub fn masker(&self) -> (r: &K)
        ensures
            *r == self.spec_masker(),
    {
        &self.masker
    }

    /// The feature hierarchy.
    pub fn tree(&self) -> (r: &PartitionTree)
        ensures
            r@ == self.spec_tree(),
    {
        &self.tree
    }

    /// The largest number of orderings averaged over.
    pub fn max_permutations(&self) -> (r: usize)
        ensures
            r == self.spec_max_permutations(),
    {
        self.max_permutations
    }

    /// The coalition evaluation limits.
    pub fn evaluation(&self) -> (r: EvaluationConfig)
        ensures
            r == self.spec_evaluation(),
    {
        self.evaluation
    }

    /// The output transform.
    pub fn link(&self) -> (r: Link)
        ensures
            r == self.spec_link(),
    {
        self.link
    }

}

/// Every member of a group occurs in the groups' concatenation.
proof fn lemma_group_member_in_joined(gs: Seq<Seq<usize>>, g: int, k: int)
    requires
        0 <= g < gs.len(),
        0 <= k < gs[g].len(),
    ensures
        joined_groups(gs).contains(gs[g][k]),
    decreases gs.len(),
{
    let init = gs.drop_last();
    let front = joined_groups(init);
    if g == gs.len() - 1 {
        assert(joined_groups(gs)[front.len() + k] == gs[g][k]);
    } else {
        lemma_group_member_in_joined(init, g, k);
        let p = choose|p: int| 0 <= p < front.len() && front[p] == gs[g][k];
        assert(joined_groups(gs)[p] == front[p]);
    }
}

/// The message a failed partition check reports.
pub open spec fn partition_failure(gs: Seq<Seq<usize>>, n: nat) -> Seq<char> {
    if n == 0 {
        "partition must contain at least one feature"@
    } else if empty_group_first(gs, n) {
        "partition groups cannot be empty"@
    } else {
        partition_message()
    }
}

/// The message a failed hierarchy check reports.
pub open spec fn tree_failure(n: nat) -> Seq<char> {
    if n == 0 {
        "partition tree must contain features"@
    } else {
        tree_message()
    }
}

/// The message for exact Owen values over too many features.
pub open spec fn owen_limit_message(max_features: usize) -> Seq<char> {
    "exact Owen values support at most "@ + decimal(max_features as nat) + " features"@
}

/// The message for a hierarchy with more orderings than allowed.
pub open spec fn hierarchy_limit_message(count: nat, max: nat) -> Seq<char> {
    "hierarchy generates "@ + decimal(count) + " permutations, exceeding limit "@ + decimal(max)
}

impl<M, K> PartitionExplainer<M, K> {
    /// Checks the partition, then a data matrix of `rows` by `cols` against
    /// a masker of `m` features, in the order: a valid partition over `m`
    /// features, some rows, `m` columns, `m` within the feature limit and
    /// below 63.
    pub fn check_input(&self, m: usize, rows: usize, cols: usize) -> (r: Result<()>)
        ensures
            r is Ok <==> partition_valid(self.spec_partition().0, self.spec_partition().1)
                && self.spec_partition().1 == m && rows > 0 && cols == m && m
                <= self.spec_max_features() && m < 63,
            !partition_valid(self.spec_partition().0, self.spec_partition().1) ==> r is Err
                && is_invalid_configuration(
                r->Err_0,
                partition_failure(self.spec_partition().0, self.spec_partition().1),
            ),
            partition_valid(self.spec_partition().0, self.spec_partition().1)
                && self.spec_partition().1 != m ==> r is Err && is_dimension_mismatch(
                r->Err_0,
                "partition for "@ + decimal(m as nat) + " features"@,
                "partition for "@ + decimal(self.spec_partition().1) + " features"@,
            ),
            partition_valid(self.spec_partition().0, self.spec_partition().1)
                && self.spec_partition().1 == m && rows == 0 ==> r == Err::<(), ShapError>(
                ShapError::EmptyData,
            ),
            partition_valid(self.spec_partition().0, self.spec_partition().1)
                && self.spec_partition().1 == m && rows > 0 && cols != m ==> r is Err
                && is_dimension_mismatch(
                r->Err_0,
                decimal(m as nat) + " features"@,
                decimal(cols as nat),
            ),
            partition_valid(self.spec_partition().0, self.spec_partition().1)
                && self.spec_partition().1 == m && rows > 0 && cols == m && (m
                > self.spec_max_features() || m >= 63) ==> r is Err && is_invalid_configuration(
                r->Err_0,
                owen_limit_message(self.spec_max_features()),
            ),
    {
        if let Err(e) = self.partition.validate() {
            return Err(e);
        }
        let n = self.partition.n_features();
        if n != m {
            let mut expected = String::from_str("partition for ");
            let a = decimal_text(m);
            expected.append(a.as_str());
            expected.append(" features");
            let mut found = String::from_str("partition for ");
            let b = decimal_text(n);
            found.append(b.as_str());
            found.append(" features");
            return Err(ShapError::DimensionMismatch { expected, found });
        }
        if rows == 0 {
            return Err(ShapError::EmptyData);
        }
        if cols != m {
            return Err(crate::error::count_mismatch(m, " features", cols));
        }
        if m > self.max_features || m >= 63 {
            let mut message = String::from_str("exact Owen values support at most ");
            let count = decimal_text(self.max_features);
            message.append(count.as_str());
            message.append(" features");
            return Err(ShapError::InvalidConfiguration(message));
        }
        Ok(())
    }

    /// The coalition mask of each group: the group's features' bits.
    pub fn group_masks(&self) -> (r: Vec<u64>)
        requires
            partition_valid(self.spec_partition().0, self.spec_partition().1),
            self.spec_partition().1 < 64,
        ensures
            r@.len() == self.spec_partition().0.len(),
            forall|g: int|
                0 <= g < r@.len() ==> #[trigger] r@[g] == order_prefix_mask(
                    self.spec_partition().0[g],
                    self.spec_partition().0[g].len(),
                ),
    {
        let groups = self.partition.groups();
        let ghost gs = self.spec_partition().0;
        let ghost n = self.spec_partition().1;
        proof {
            assert forall|g: int, k: int| 0 <= g < gs.len() && 0 <= k < gs[g].len() implies #[trigger] gs[g][k] < 64 by {
                lemma_group_member_in_joined(gs, g, k);
                let j = joined_groups(gs);
                let p = choose|p: int| 0 <= p < j.len() && j[p] == gs[g][k];
                assert(j[p] < n);
            }
        }
        let mut r: Vec<u64> = Vec::new();
        let mut g: usize = 0;
        while g < groups.len()
            invariant
                g <= groups@.len(),
                groups@.len() == gs.len(),
                forall|x: int| 0 <= x < groups@.len() ==> #[trigger] groups@[x]@ == gs[x],
                forall|x: int, k: int| 0 <= x < gs.len() && 0 <= k < gs[x].len() ==> #[trigger] gs[x][k] < 64,
                r@.len() == g,
                forall|x: int| 0 <= x < g ==> #[trigger] r@[x] == order_prefix_mask(gs[x], gs[x].len()),
            decreases groups@.len() - g,
        {
            let group = &groups[g];
            let mut mask: u64 = 0;
            let mut k: usize = 0;
            while k < group.len()
                invariant
                    k <= group@.len(),
                    group@ == gs[g as int],
                    forall|j: int| 0 <= j < group@.len() ==> #[trigger] group@[j] < 64,
                    mask == order_prefix_mask(group@, k as nat),
                decreases group@.len() - k,
            {
                mask = mask | (1u64 << group[k] as u64);
                k = k + 1;
            }
            r.push(mask);
            g = g + 1;
        }
        r
    }
}

/// The masks of every group but `g`, in group order.
pub open spec fn other_group_masks(gs: Seq<Seq<usize>>, g: int) -> Seq<u64> {
    Seq::new(
        (gs.len() - 1) as nat,
        |p: int|
            {
                let h = if p < g {
                    p
                } else {
                    p + 1
                };
                order_prefix_mask(gs[h], gs[h].len())
            },
    )
}

/// The single-feature masks of the other members of `group`, those before
/// position `k` and then those after it.
pub open spec fn peer_bits(group: Seq<usize>, k: int) -> Seq<u64> {
    group.remove(k).map_values(|j: usize| 1u64 << j as u64)
}

/// Distinct features below `n` number at most `n`.
proof fn lemma_distinct_below_len(s: Seq<usize>, n: nat)
    requires
        distinct_below(s, n),
    ensures
        s.len() <= n,
    decreases n,
{
    if n == 0 {
        if s.len() > 0 {
            assert(s[0] < n);
        }
    } else if exists|i: int| 0 <= i < s.len() && s[i] == n - 1 {
        let i = choose|i: int| 0 <= i < s.len() && s[i] == n - 1;
        let t = s.remove(i);
        assert forall|k: int| 0 <= k < t.len() implies #[trigger] t[k] < n - 1 by {
            if k < i {
                assert(t[k] == s[k]);
            } else {
                assert(t[k] == s[k + 1]);
            }
        }
        assert forall|a: int, b: int| 0 <= a < t.len() && 0 <= b < t.len() && a != b implies t[a] != t[b] by {
            let a2 = if a < i { a } else { a + 1 };
            let b2 = if b < i { b } else { b + 1 };
            assert(t[a] == s[a2] && t[b] == s[b2]);
        }
        lemma_distinct_below_len(t, (n - 1) as nat);
    } else {
        assert forall|k: int| 0 <= k < s.len() implies #[trigger] s[k] < n - 1 by {
            assert(s[k] < n);
        }
        lemma_distinct_below_len(s, (n - 1) as nat);
    }
}

/// With non-empty groups, the concatenation is at least as long as the
/// number of groups.
proof fn lemma_joined_covers_groups(gs: Seq<Seq<usize>>)
    requires
        forall|i: int| 0 <= i < gs.len() ==> #[trigger] gs[i].len() > 0,
    ensures
        joined_groups(gs).len() >= gs.len(),
    decreases gs.len(),
{
    if gs.len() > 0 {
        let init = gs.drop_last();
        assert forall|i: int| 0 <= i < init.len() implies #[trigger] init[i].len() > 0 by {
            assert(init[i] == gs[i]);
        }
        lemma_joined_covers_groups(init);
    }
}

/// With non-empty groups, the concatenation holds group `g` and at least one
/// feature of every other group.
proof fn lemma_joined_len_with(gs: Seq<Seq<usize>>, g: int)
    requires
        forall|i: int| 0 <= i < gs.len() ==> #[trigger] gs[i].len() > 0,
        0 <= g < gs.len(),
    ensures
        joined_groups(gs).len() + 1 >= gs.len() + gs[g].len(),
    decreases gs.len(),
{
    let init = gs.drop_last();
    assert forall|i: int| 0 <= i < init.len() implies #[trigger] init[i].len() > 0 by {
        assert(init[i] == gs[i]);
    }
    if g == gs.len() - 1 {
        lemma_joined_covers_groups(init);
    } else {
        assert(init[g] == gs[g]);
        lemma_joined_len_with(init, g);
        assert(gs.last().len() > 0);
    }
}

impl<M, K> PartitionExplainer<M, K> {
    /// The coalitions behind the exact Owen value of the `k`-th feature of
    /// group `g`. The first table enumerates the unions of the other groups
    /// by subset mask, each with the number of groups taken; the second
    /// enumerates the subsets of the feature's peers in its group, each
    /// with the number of peers taken. The value sums the feature's
    /// marginal contribution to `outer | inner` over every pair of entries,
    /// weighted by those two counts.
    pub fn owen_plan(&self, g: usize, k: usize) -> (r: (Vec<(u64, usize)>, Vec<(u64, usize)>))
        requires
            partition_valid(self.spec_partition().0, self.spec_partition().1),
            self.spec_partition().1 < 63,
            g < self.spec_partition().0.len(),
            k < self.spec_partition().0[g as int].len(),
        ensures
            r.0@ == subset_table(other_group_masks(self.spec_partition().0, g as int)),
            r.1@ == subset_table(peer_bits(self.spec_partition().0[g as int], k as int)),
    {
        let ghost gs = self.spec_partition().0;
        let ghost n = self.spec_partition().1;
        proof {
            lemma_distinct_below_len(joined_groups(gs), n);
            lemma_joined_len_with(gs, g as int);
        }
        let masks = self.group_masks();
        let mut outer_items: Vec<u64> = Vec::new();
        let mut h: usize = 0;
        while h < masks.len()
            invariant
                h <= masks@.len(),
                masks@.len() == gs.len(),
                g < gs.len(),
                forall|x: int| 0 <= x < masks@.len() ==> #[trigger] masks@[x] == order_prefix_mask(gs[x], gs[x].len()),
                outer_items@ =~= other_group_masks(gs, g as int).take(if h <= g { h as int } else { h - 1 }),
            decreases masks@.len() - h,
        {
            if h != g {
                outer_items.push(masks[h]);
            }
            h = h + 1;
        }
        assert(outer_items@ =~= other_group_masks(gs, g as int));
        let group = &self.partition.groups()[g];
        proof {
            assert forall|x: int| 0 <= x < group@.len() implies #[trigger] group@[x] < 63 by {
                lemma_group_member_in_joined(gs, g as int, x);
                let j = joined_groups(gs);
                let p = choose|p: int| 0 <= p < j.len() && j[p] == gs[g as int][x];
                assert(j[p] < n);
            }
        }
        let mut inner_items: Vec<u64> = Vec::new();
        let mut j: usize = 0;
        while j < group.len()
            invariant
                j <= group@.len(),
                group@ == gs[g as int],
                k < group@.len(),
                forall|x: int| 0 <= x < group@.len() ==> #[trigger] group@[x] < 63,
                inner_items@ =~= peer_bits(gs[g as int], k as int).take(if j <= k { j as int } else { j - 1 }),
            decreases group@.len() - j,
        {
            if j != k {
                inner_items.push(1u64 << group[j] as u64);
            }
            j = j + 1;
        }
        assert(inner_items@ =~= peer_bits(gs[g as int], k as int));
        (subset_unions(&outer_items), subset_unions(&inner_items))
    }
}

impl<M, K> HierarchicalPartitionExplainer<M, K> {
    /// Checks the hierarchy, then a data matrix of `rows` by `cols` against
    /// a masker of `m` features, and returns the number of group-respecting
    /// orderings. In order: a valid hierarchy, some rows, `m` columns in the
    /// data and `m` features in the hierarchy, fewer than 63 features, an
    /// ordering count that fits `usize` and stays within the limit.
    pub fn check_input(&self, m: usize, rows: usize, cols: usize) -> (r: Result<usize>)
        ensures
            r is Ok <==> tree_valid(self.spec_tree().0, self.spec_tree().1) && rows > 0 && cols == m
                && self.spec_tree().1 == m && m < 63 && permutation_total(self.spec_tree().0)
                <= self.spec_max_permutations(),
            r matches Ok(count) ==> count == permutation_total(self.spec_tree().0),
            !tree_valid(self.spec_tree().0, self.spec_tree().1) ==> r is Err
                && is_invalid_configuration(r->Err_0, tree_failure(self.spec_tree().1)),
            tree_valid(self.spec_tree().0, self.spec_tree().1) && rows == 0 ==> r
                == Err::<usize, ShapError>(ShapError::EmptyData),
            tree_valid(self.spec_tree().0, self.spec_tree().1) && rows > 0 && (cols != m
                || self.spec_tree().1 != m) ==> r is Err && is_dimension_mismatch(
                r->Err_0,
                decimal(m as nat) + " features in data and hierarchy"@,
                "data "@ + decimal(cols as nat) + ", hierarchy "@ + decimal(self.spec_tree().1),
            ),
            tree_valid(self.spec_tree().0, self.spec_tree().1) && rows > 0 && cols == m
                && self.spec_tree().1 == m && m >= 63 ==> r is Err && is_invalid_configuration(
                r->Err_0,
                "hierarchical Owen values support at most 62 features"@,
            ),
            tree_valid(self.spec_tree().0, self.spec_tree().1) && rows > 0 && cols == m
                && self.spec_tree().1 == m && m < 63 && permutation_total(self.spec_tree().0)
                > usize::MAX ==> r is Err && is_invalid_configuration(
                r->Err_0,
                "hierarchy permutation count overflowed"@,
            ),
            tree_valid(self.spec_tree().0, self.spec_tree().1) && rows > 0 && cols == m
                && self.spec_tree().1 == m && m < 63 && self.spec_max_permutations()
                < permutation_total(self.spec_tree().0) <= usize::MAX ==> r is Err
                && is_invalid_configuration(
                r->Err_0,
                hierarchy_limit_message(
                    permutation_total(self.spec_tree().0),
                    self.spec_max_permutations() as nat,
                ),
            ),
    {
        if let Err(e) = self.tree.validate() {
            return Err(e);
        }
        if rows == 0 {
            return Err(ShapError::EmptyData);
        }
        let n = self.tree.n_features();
        if cols != m || n != m {
            let mut expected = decimal_text(m);
            expected.append(" features in data and hierarchy");
            let mut found = String::from_str("data ");
            let a = decimal_text(cols);
            found.append(a.as_str());
            found.append(", hierarchy ");
            let b = decimal_text(n);
            found.append(b.as_str());
            return Err(ShapError::DimensionMismatch { expected, found });
        }
        if m >= 63 {
            return Err(invalid_configuration("hierarchical Owen values support at most 62 features"));
        }
        let count = match self.tree.permutation_count() {
            Some(c) => c,
            None => {
                return Err(invalid_configuration("hierarchy permutation count overflowed"));
            },
        };
        if count > self.max_permutations {
            let mut message = String::from_str("hierarchy generates ");
            let a = decimal_text(count);
            message.append(a.as_str());
            message.append(" permutations, exceeding limit ");
            let b = decimal_text(self.max_permutations);
            message.append(b.as_str());
            return Err(ShapError::InvalidConfiguration(message));
        }
        Ok(count)
    }
}

} // verus!
