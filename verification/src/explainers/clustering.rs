//! Agglomerative clustering of features into a binary hierarchy. Which two
//! clusters to join is the caller's decision; every join keeps each feature
//! in exactly one cluster, so a single remaining cluster is always a valid
//! hierarchy over all the features.
use vstd::prelude::*;
use vstd::multiset::Multiset;
use crate::error::{Result, ShapError};
use crate::explainers::partition::{
    leaves, lemma_rearrangement_lists_each_once, lists_each_feature_once, tree_valid,
    PartitionNode, PartitionTree,
};

verus! {

/// The features of all clusters, counted with multiplicity.
pub open spec fn forest_features(cs: Seq<PartitionNode>) -> Multiset<usize>
    decreases cs.len(),
{
    if cs.len() == 0 {
        Multiset::empty()
    } else {
        forest_features(cs.drop_last()).add(leaves(cs.last()).to_multiset())
    }
}

/// The features `0..n`, each once.
pub open spec fn feature_range(n: nat) -> Seq<usize> {
    Seq::new(n, |j: int| j as usize)
}

/// One single-feature cluster per feature, in feature order.
pub open spec fn singleton_clusters(n: nat) -> Seq<PartitionNode> {
    Seq::new(n, |j: int| PartitionNode::Feature(j as usize))
}

/// The clusters after joining clusters `i < j`: both leave, and the group
/// with cluster `i` on the left and cluster `j` on the right is appended.
pub open spec fn joined(cs: Seq<PartitionNode>, i: int, j: int) -> Seq<PartitionNode> {
    cs.remove(j).remove(i).push(PartitionNode::Group(Box::new(cs[i]), Box::new(cs[j])))
}

/// Every node has at least one leaf.
proof fn lemma_leaves_nonempty(node: PartitionNode)
    ensures
        leaves(node).len() > 0,
    decreases node,
{
    match node {
        PartitionNode::Feature(_) => {},
        PartitionNode::Group(a, b) => {
            lemma_leaves_nonempty(*a);
        },
    }
}

/// Taking cluster `k` out of the forest takes exactly its features out.
proof fn lemma_forest_remove(cs: Seq<PartitionNode>, k: int)
    requires
        0 <= k < cs.len(),
    ensures
        forest_features(cs.remove(k)).add(leaves(cs[k]).to_multiset()) == forest_features(cs),
    decreases cs.len(),
{
    if k == cs.len() - 1 {
        assert(cs.remove(k) =~= cs.drop_last());
    } else {
        let r = cs.remove(k);
        assert(r.drop_last() =~= cs.drop_last().remove(k));
        assert(r.last() == cs.last());
        lemma_forest_remove(cs.drop_last(), k);
        assert(cs.drop_last()[k] == cs[k]);
        let a = forest_features(cs.drop_last().remove(k));
        let x = leaves(cs.last()).to_multiset();
        let y = leaves(cs[k]).to_multiset();
        assert(a.add(x).add(y) =~= a.add(y).add(x));
    }
}

/// The features `0..n` listed in order name each feature once.
proof fn lemma_feature_range_lists_each_once(n: nat)
    requires
        n <= usize::MAX,
    ensures
        lists_each_feature_once(feature_range(n), n),
{
    let s = feature_range(n);
    assert forall|a: int, b: int| 0 <= a < s.len() && 0 <= b < s.len() && a != b implies s[a] != s[b] by {
        assert(s[a] == a as usize && s[b] == b as usize);
    }
    assert forall|j: usize| j < n implies s.contains(j) by {
        assert(s[j as int] == j);
    }
}

/// A forest of feature clusters: each cluster is a hierarchy node, stored
/// with its leaf features.
pub struct ClusterForest {
    clusters: Vec<PartitionNode>,
    members: Vec<Vec<usize>>,
    n_features: usize,
}

impl ClusterForest {
    /// The clusters, in order.
    pub closed spec fn spec_clusters(&self) -> Seq<PartitionNode> {
        self.clusters@
    }

    /// The number of features clustered.
    pub closed spec fn spec_n_features(&self) -> nat {
        self.n_features as nat
    }

    /// The stored leaf lists match the clusters, and the clusters' features
    /// are the features `0..n`, each once.
    pub closed spec fn wf(&self) -> bool {
        &&& self.members@.len() == self.clusters@.len()
        &&& forall|k: int| 0 <= k < self.clusters@.len() ==> #[trigger] self.members@[k]@ == leaves(self.clusters@[k])
        &&& forest_features(self.clusters@) == feature_range(self.n_features as nat).to_multiset()
    }

    /// One single-feature cluster per feature `0..n_features`, in order.
    pub fn new(n_features: usize) -> (r: Self)
        ensures
            r.wf(),
            r.spec_n_features() == n_features,
            r.spec_clusters() == singleton_clusters(n_features as nat),
    {
        broadcast use vstd::seq_lib::group_to_multiset_ensures, vstd::multiset::group_multiset_axioms;

        let mut clusters: Vec<PartitionNode> = Vec::new();
        let mut members: Vec<Vec<usize>> = Vec::new();
        let mut j: usize = 0;
        proof {
            assert(feature_range(0) =~= Seq::<usize>::empty());
            vstd::multiset::lemma_multiset_empty_len(feature_range(0nat).to_multiset());
            assert(clusters@ =~= singleton_clusters(0));
            assert(forest_features(clusters@) =~= feature_range(0).to_multiset());
        }
        while j < n_features
            invariant
                j <= n_features,
                clusters@ == singleton_clusters(j as nat),
                members@.len() == j,
                forall|k: int| 0 <= k < j ==> #[trigger] members@[k]@ == leaves(clusters@[k]),
                forest_features(clusters@) == feature_range(j as nat).to_multiset(),
            decreases n_features - j,
        {
            let ghost before = clusters@;
            let ghost members_before = members@;
            clusters.push(PartitionNode::Feature(j));
            let mut single: Vec<usize> = Vec::new();
            single.push(j);
            members.push(single);
            proof {
                assert(clusters@ =~= singleton_clusters((j + 1) as nat));
                assert(clusters@.drop_last() =~= before);
                assert(leaves(clusters@.last()) == seq![j]);
                assert(feature_range((j + 1) as nat) =~= feature_range(j as nat).push(j));
                assert(seq![j] =~= Seq::<usize>::empty().push(j));
                vstd::seq_lib::to_multiset_len(Seq::<usize>::empty());
                vstd::multiset::lemma_multiset_empty_len(Seq::<usize>::empty().to_multiset());
                assert(Seq::<usize>::empty().to_multiset() =~= Multiset::<usize>::empty());
                vstd::seq_lib::to_multiset_build(Seq::<usize>::empty(), j);
                assert(seq![j].to_multiset() =~= Multiset::<usize>::empty().insert(j));
                assert(forest_features(clusters@) == forest_features(before).add(
                    leaves(clusters@.last()).to_multiset(),
                ));
                vstd::seq_lib::to_multiset_build(feature_range(j as nat), j);
                let m0 = feature_range(j as nat).to_multiset();
                assert(m0.insert(j) =~= m0.add(Multiset::<usize>::empty().insert(j)));
                assert(forest_features(clusters@) =~= feature_range((j + 1) as nat).to_multiset());
                assert forall|k: int| 0 <= k < j + 1 implies #[trigger] members@[k]@ == leaves(clusters@[k]) by {
                    if k < j {
                        assert(members@[k] == members_before[k]);
                    } else {
                        assert(members@[k]@ =~= seq![j]);
                    }
                }
            }
            j = j + 1;
        }
        ClusterForest { clusters, members, n_features }
    }

    /// The number of clusters.
    pub fn len(&self) -> (n: usize)
        ensures
            n == self.spec_clusters().len(),
    {
        self.clusters.len()
    }

    /// The number of features clustered.
    pub fn n_features(&self) -> (n: usize)
        ensures
            n == self.spec_n_features(),
    {
        self.n_features
    }

    /// The features of cluster `k`, left to right.
    pub fn members(&self, k: usize) -> (r: &[usize])
        requires
            self.wf(),
            k < self.spec_clusters().len(),
        ensures
            r@ == leaves(self.spec_clusters()[k as int]),
    {
        self.members[k].as_slice()
    }

    /// Joins clusters `i < j`: both leave the forest, and the group with
    /// cluster `i` on the left and cluster `j` on the right joins it last.
    pub fn merge(&mut self, i: usize, j: usize)
        requires
            old(self).wf(),
            i < j < old(self).spec_clusters().len(),
        ensures
            final(self).wf(),
            final(self).spec_n_features() == old(self).spec_n_features(),
            final(self).spec_clusters() == joined(old(self).spec_clusters(), i as int, j as int),
    {
        let ghost cs = self.clusters@;
        let ghost ms = self.members@;
        let right = self.clusters.remove(j);
        let left = self.clusters.remove(i);
        let right_members = self.members.remove(j);
        let mut features = self.members.remove(i);
        let ghost left_leaves = features@;
        proof {
            assert(cs.remove(j as int)[i as int] == cs[i as int]);
            assert(ms.remove(j as int)[i as int] == ms[i as int]);
            assert(ms[i as int]@ == leaves(cs[i as int]));
            assert(ms[j as int]@ == leaves(cs[j as int]));
        }
        let mut a: usize = 0;
        while a < right_members.len()
            invariant
                a <= right_members@.len(),
                features@ == left_leaves + right_members@.take(a as int),
            decreases right_members@.len() - a,
        {
            features.push(right_members[a]);
            assert(right_members@.take(a + 1) =~= right_members@.take(a as int).push(right_members@[a as int]));
            assert(features@ =~= left_leaves + right_members@.take(a + 1));
            a = a + 1;
        }
        let ghost kept = self.clusters@;
        let ghost kept_members = self.members@;
        self.clusters.push(PartitionNode::Group(Box::new(left), Box::new(right)));
        self.members.push(features);
        proof {
            let g = PartitionNode::Group(Box::new(cs[i as int]), Box::new(cs[j as int]));
            assert(right_members@.take(right_members@.len() as int) =~= right_members@);
            assert(kept == cs.remove(j as int).remove(i as int));
            assert(self.clusters@ == kept.push(g));
            assert(leaves(g) == leaves(cs[i as int]) + leaves(cs[j as int]));
            assert forall|k: int| 0 <= k < self.clusters@.len() implies #[trigger] self.members@[k]@
                == leaves(self.clusters@[k]) by {
                if k < kept.len() {
                    assert(self.members@[k] == kept_members[k]);
                    assert(self.clusters@[k] == kept[k]);
                    let k1 = if k < i { k } else { k + 1 };
                    assert(kept[k] == cs.remove(j as int)[k1]);
                    assert(kept_members[k] == ms.remove(j as int)[k1]);
                    let k2 = if k1 < j { k1 } else { k1 + 1 };
                    assert(cs.remove(j as int)[k1] == cs[k2]);
                    assert(ms.remove(j as int)[k1] == ms[k2]);
                } else {
                    assert(self.members@[k]@ == leaves(cs[i as int]) + leaves(cs[j as int]));
                }
            }
            lemma_forest_remove(cs, j as int);
            lemma_forest_remove(cs.remove(j as int), i as int);
            assert(self.clusters@.drop_last() =~= kept);
            vstd::seq_lib::lemma_multiset_commutative(leaves(cs[i as int]), leaves(cs[j as int]));
            let f = forest_features(kept);
            let li = leaves(cs[i as int]).to_multiset();
            let lj = leaves(cs[j as int]).to_multiset();
            assert(forest_features(self.clusters@) == f.add(li.add(lj)));
            assert(f.add(li.add(lj)) =~= f.add(li).add(lj));
        }
    }

    /// The hierarchy formed by the last cluster over all the features: with
    /// no cluster, `EmptyBackground`; otherwise exactly when the last
    /// cluster's leaves name every feature once. A single remaining cluster
    /// always does.
    pub fn into_tree(self) -> (r: Result<PartitionTree>)
        requires
            self.wf(),
        ensures
            self.spec_clusters().len() == 0 ==> r == Err::<PartitionTree, ShapError>(ShapError::EmptyBackground),
            self.spec_clusters().len() > 0 ==> (r is Ok <==> tree_valid(self.spec_clusters().last(), self.spec_n_features())),
            r matches Ok(t) ==> t@ == (self.spec_clusters().last(), self.spec_n_features()),
            self.spec_clusters().len() == 1 ==> r is Ok,
    {
        broadcast use vstd::seq_lib::group_to_multiset_ensures, vstd::multiset::group_multiset_axioms;

        let ghost cs = self.clusters@;
        let n = self.n_features;
        let mut clusters = self.clusters;
        match clusters.pop() {
            None => Err(ShapError::EmptyBackground),
            Some(root) => {
                proof {
                    if cs.len() == 1 {
                        assert(cs.drop_last() =~= Seq::<PartitionNode>::empty());
                        assert(root == cs.last());
                        assert(forest_features(cs.drop_last()) == Multiset::<usize>::empty());
                        assert(forest_features(cs) =~= leaves(root).to_multiset());
                        lemma_leaves_nonempty(root);
                        lemma_feature_range_lists_each_once(n as nat);
                        if n == 0 {
                            assert(feature_range(0) =~= Seq::<usize>::empty());
                            assert(leaves(root).to_multiset().len() > 0);
                        }
                        lemma_rearrangement_lists_each_once(leaves(root), feature_range(n as nat), n as nat);
                        assert(tree_valid(root, n as nat));
                    }
                }
                PartitionTree::new(root, n)
            },
        }
    }
}

} // verus!
