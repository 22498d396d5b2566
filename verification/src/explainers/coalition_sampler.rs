//! The complement-paired coalition sample of Kernel SHAP, fed one random
//! draw at a time.
use vstd::prelude::*;
use std::collections::BTreeSet;
use vstd::std_specs::iter::IteratorSpec;
use vstd::std_specs::cmp::OrdSpec;

verus! {

/// `z` is a coalition within `full` that is neither empty nor everything.
pub open spec fn proper_coalition(z: u64, full: u64) -> bool {
    &&& z & full == z
    &&& z != 0
    &&& z != full
}

/// The sample after offering the draw `raw`. While two more coalitions
/// fit, the masked draw and its complement are added together when both
/// are new and the draw is proper; then single proper draws are added
/// until the target is reached; after that draws change nothing.
pub open spec fn offered(chosen: Set<u64>, full: u64, target: nat, raw: u64) -> Set<u64> {
    let z = raw & full;
    let c = full ^ z;
    if chosen.len() + 2 <= target {
        if z != 0 && z != full && !chosen.contains(z) && !chosen.contains(c) {
            chosen.insert(z).insert(c)
        } else {
            chosen
        }
    } else if chosen.len() < target {
        if z != 0 && z != full {
            chosen.insert(z)
        } else {
            chosen
        }
    } else {
        chosen
    }
}

/// `chosen` holds the complement within `full` of each of its coalitions.
pub open spec fn complement_closed(chosen: Set<u64>, full: u64) -> bool {
    forall|z: u64| #[trigger] chosen.contains(z) ==> chosen.contains(full ^ z)
}

/// While two more coalitions fit, coalitions join the sample together with
/// their complements: offering a draw to a sample that holds the complement
/// of each of its coalitions keeps it so.
pub proof fn lemma_offer_keeps_pairs(chosen: Set<u64>, full: u64, target: nat, raw: u64)
    requires
        complement_closed(chosen, full),
        chosen.len() + 2 <= target,
    ensures
        complement_closed(offered(chosen, full, target, raw), full),
{
    let z = raw & full;
    let c = full ^ z;
    assert(full ^ c == z) by (bit_vector)
        requires
            c == full ^ z,
    ;
    let next = offered(chosen, full, target, raw);
    assert forall|w: u64| #[trigger] next.contains(w) implies next.contains(full ^ w) by {
        if chosen.contains(w) {
            assert(chosen.contains(full ^ w));
        }
    }
}

/// The sample after offering `draws` in turn to an empty one.
pub open spec fn fed(full: u64, target: nat, draws: Seq<u64>) -> Set<u64>
    decreases draws.len(),
{
    if draws.len() == 0 {
        Set::empty()
    } else {
        offered(fed(full, target, draws.drop_last()), full, target, draws.last())
    }
}

/// Every coalition of `chosen` but at most one has its complement within
/// `full` in `chosen` too.
pub open spec fn paired_but_one(chosen: Set<u64>, full: u64) -> bool {
    exists|w: u64| #[trigger] paired_except(chosen, full, w)
}

/// Every coalition of `chosen` other than `w` has its complement within
/// `full` in `chosen` too.
pub open spec fn paired_except(chosen: Set<u64>, full: u64, w: u64) -> bool {
    forall|z: u64| #[trigger] chosen.contains(z) && z != w ==> chosen.contains(full ^ z)
}

/// The pairing a sample keeps while it grows: closed under complement, or
/// full with at most one coalition unpaired.
pub open spec fn pairing_kept(chosen: Set<u64>, full: u64, target: nat) -> bool {
    complement_closed(chosen, full) || (chosen.len() == target && paired_but_one(chosen, full))
}

/// Offering a draw keeps the pairing: pairs join while two more fit, and a
/// single coalition joins only to fill the last place.
pub proof fn lemma_offer_keeps_pairing(chosen: Set<u64>, full: u64, target: nat, raw: u64)
    requires
        chosen.finite(),
        chosen.len() <= target,
        pairing_kept(chosen, full, target),
    ensures
        pairing_kept(offered(chosen, full, target, raw), full, target),
{
    let z = raw & full;
    let next = offered(chosen, full, target, raw);
    if chosen.len() + 2 <= target {
        lemma_offer_keeps_pairs(chosen, full, target, raw);
    } else if chosen.len() < target {
        assert(complement_closed(chosen, full));
        if z != 0 && z != full && !chosen.contains(z) {
            assert(next == chosen.insert(z));
            assert(next.len() == target);
            assert forall|y: u64| #[trigger] next.contains(y) && y != z implies next.contains(full ^ y) by {
                assert(chosen.contains(y));
                assert(chosen.contains(full ^ y));
            }
            assert(paired_except(next, full, z));
        } else if z != 0 && z != full {
            assert(next =~= chosen);
        }
    }
}

/// A sample closed under complement has at most one unpaired coalition.
pub(crate) proof fn lemma_closed_paired_but_one(chosen: Set<u64>, full: u64)
    requires
        complement_closed(chosen, full),
    ensures
        paired_but_one(chosen, full),
{
    assert(paired_except(chosen, full, 0));
}

/// The complement of a proper coalition is a different proper coalition.
proof fn lemma_complement(z: u64, full: u64)
    requires
        proper_coalition(z, full),
    ensures
        proper_coalition(full ^ z, full),
        full ^ z != z,
{
    assert(z & full == z ==> (full ^ z) & full == (full ^ z)) by (bit_vector);
    assert(z & full == z && z != full ==> (full ^ z) != 0) by (bit_vector);
    assert(z & full == z && z != 0 ==> (full ^ z) != full) by (bit_vector);
    assert(z & full == z && z != 0 ==> (full ^ z) != z) by (bit_vector);
}

/// A sample of distinct proper coalitions within `full`, growing towards
/// `target` members.
pub struct CoalitionSampler {
    full: u64,
    target: usize,
    chosen: BTreeSet<u64>,
}

impl CoalitionSampler {
    /// The mask of all features.
    pub closed spec fn spec_full(&self) -> u64 {
        self.full
    }

    /// The number of coalitions wanted.
    pub closed spec fn spec_target(&self) -> nat {
        self.target as nat
    }

    /// The coalitions chosen so far.
    pub closed spec fn spec_chosen(&self) -> Set<u64> {
        self.chosen@
    }

    /// Finitely many proper coalitions, never more than the target.
    pub open spec fn wf(&self) -> bool {
        &&& self.spec_chosen().finite()
        &&& self.spec_chosen().len() <= self.spec_target()
        &&& forall|z: u64| #[trigger] self.spec_chosen().contains(z) ==> proper_coalition(z, self.spec_full())
    }

    /// An empty sample aiming at `target` coalitions within `full`.
    pub fn new(full: u64, target: usize) -> (r: Self)
        ensures
            r.wf(),
            r.spec_full() == full,
            r.spec_target() == target,
            r.spec_chosen() == Set::<u64>::empty(),
    {
        Self { full, target, chosen: BTreeSet::new() }
    }

    /// The number of coalitions chosen so far.
    pub fn len(&self) -> (n: usize)
        requires
            self.wf(),
        ensures
            n == self.spec_chosen().len(),
    {
        broadcast use vstd::std_specs::btree::group_btree_axioms;
        self.chosen.len()
    }

    /// Whether the target has been reached.
    pub fn is_done(&self) -> (r: bool)
        requires
            self.wf(),
        ensures
            r == (self.spec_chosen().len() >= self.spec_target()),
    {
        self.len() >= self.target
    }

    /// Offers one random draw to the sample.
    pub fn offer(&mut self, raw: u64)
        requires
            old(self).wf(),
        ensures
            final(self).wf(),
            final(self).spec_full() == old(self).spec_full(),
            final(self).spec_target() == old(self).spec_target(),
            final(self).spec_chosen() == offered(
                old(self).spec_chosen(),
                old(self).spec_full(),
                old(self).spec_target(),
                raw,
            ),
    {
        broadcast use vstd::std_specs::btree::group_btree_axioms;
        let full = self.full;
        let z = raw & full;
        let c = full ^ z;
        let n = self.len();
        assert(z & full == z) by (bit_vector)
            requires
                z == raw & full,
        ;
        if n < self.target && self.target - n >= 2 {
            if z != 0 && z != full && !self.chosen.contains(&z) && !self.chosen.contains(&c) {
                proof {
                    lemma_complement(z, full);
                }
                self.chosen.insert(z);
                self.chosen.insert(c);
            }
        } else if n < self.target {
            if z != 0 && z != full {
                self.chosen.insert(z);
            }
        }
    }

    /// The chosen coalitions in increasing order.
    pub fn coalitions(&self) -> (r: Vec<u64>)
        requires
            self.wf(),
        ensures
            r@.to_set() == self.spec_chosen(),
            r@.len() == self.spec_chosen().len(),
            forall|i: int, j: int| 0 <= i < j < r@.len() ==> r@[i] < r@[j],
    {
        broadcast use vstd::std_specs::btree::group_btree_axioms;
        let mut r: Vec<u64> = Vec::new();
        let ghost s = vstd::std_specs::btree::spec_btree_keys_iter(&self.chosen).remaining();
        for x in it: self.chosen.iter()
            invariant
                it.seq() == s,
                r@.len() == it.index(),
                forall|i: int| 0 <= i < r@.len() ==> r@[i] == *s[i],
        {
            r.push(*x);
        }
        proof {
            assert(r@ =~= s.unref());
            assert(vstd::std_specs::btree::increasing_seq(s));
            assert(vstd::laws_cmp::obeys_cmp::<&u64>());
            assert forall|i: int, j: int| 0 <= i < j < r@.len() implies r@[i] < r@[j] by {
                assert(OrdSpec::cmp_spec(&s[i], &s[j]) is Less);
            }
        }
        r
    }
}

} // verus!
