//! The dimensions maskers expose to explainers, closure-backed maskers, and
//! grouping of source columns into single coalition players.
use vstd::prelude::*;
use crate::error::{
    counted, decimal, decimal_text, invalid_configuration, is_dimension_mismatch,
    is_invalid_configuration, Result, ShapError,
};
use crate::explainers::partition::{joined_groups, lemma_joined_prefix};
use crate::explanation::{first_bad_entry, selection_entry_ok};

verus! {

/// The dimensions through which explainers see a masker: the number of
/// coalition players, and the number of columns of a model input row
/// (these differ for grouped maskers).
pub trait Masker {
    /// The number of coalition features exposed to an explainer.
    fn n_features(&self) -> usize;

    /// The number of columns expected in model input samples; by default
    /// the number of coalition features, as `n_features` returns it.
    fn n_input_features(&self) -> (n: usize)
        default_ensures
            call_ensures(Self::n_features, (self,), n),
    {
        self.n_features()
    }
}

/// Adapts an incremental background source into a masker over
/// `n_features` features; `batch_fn` emits masked batches one at a time.
pub struct FnStreamingMasker<F> {
    n_features: usize,
    batch_fn: F,
}

impl<F> FnStreamingMasker<F> {
    /// The batch-producing closure.
    pub closed spec fn spec_batch_fn(&self) -> F {
        self.batch_fn
    }

    /// Builds the masker; the feature count must be positive.
    pub fn new(n_features: usize, batch_fn: F) -> (r: Result<Self>)
        ensures
            r is Ok <==> n_features > 0,
            r matches Ok(m) ==> m.spec_n_features() == n_features && m.spec_n_input_features()
                == n_features && m.spec_batch_fn() == batch_fn,
            r is Err ==> is_invalid_configuration(
                r->Err_0,
                "streaming masker feature count must be positive"@,
            ),
    {
        if n_features == 0 {
            return Err(invalid_configuration("streaming masker feature count must be positive"));
        }
        Ok(Self { n_features, batch_fn })
    }

    /// The batch-producing closure.
    pub fn batch_fn(&self) -> (r: &F)
        ensures
            *r == self.spec_batch_fn(),
    {
        &self.batch_fn
    }
}

impl<F> FnStreamingMasker<F> {
    /// The number of coalition features.
    pub closed spec fn spec_n_features(&self) -> nat {
        self.n_features as nat
    }

    /// The number of input columns, equal to the feature count.
    pub closed spec fn spec_n_input_features(&self) -> nat {
        self.n_features as nat
    }
}

impl<F> Masker for FnStreamingMasker<F> {
    fn n_features(&self) -> (n: usize)
        ensures
            n == self.spec_n_features(),
    {
        self.n_features
    }

    fn n_input_features(&self) -> (n: usize)
        ensures
            n == self.spec_n_input_features(),
    {
        self.n_features
    }
}

/// Adapts a closure into a masker over `n_features` features.
pub struct FnMasker<F> {
    n_features: usize,
    mask_fn: F,
}

impl<F> FnMasker<F> {
    /// The masking closure.
    pub closed spec fn spec_mask_fn(&self) -> F {
        self.mask_fn
    }

    /// Builds the masker; it must expose at least one feature.
    pub fn new(n_features: usize, mask_fn: F) -> (r: Result<Self>)
        ensures
            r is Ok <==> n_features > 0,
            r matches Ok(m) ==> m.spec_n_features() == n_features && m.spec_n_input_features()
                == n_features && m.spec_mask_fn() == mask_fn,
            r is Err ==> is_invalid_configuration(
                r->Err_0,
                "masker must expose at least one feature"@,
            ),
    {
        if n_features == 0 {
            return Err(invalid_configuration("masker must expose at least one feature"));
        }
        Ok(Self { n_features, mask_fn })
    }

    /// The masking closure.
    pub fn mask_fn(&self) -> (r: &F)
        ensures
            *r == self.spec_mask_fn(),
    {
        &self.mask_fn
    }
}

impl<F> FnMasker<F> {
    /// The number of coalition features.
    pub closed spec fn spec_n_features(&self) -> nat {
        self.n_features as nat
    }

    /// The number of input columns, equal to the feature count.
    pub closed spec fn spec_n_input_features(&self) -> nat {
        self.n_features as nat
    }
}

impl<F> Masker for FnMasker<F> {
    fn n_features(&self) -> (n: usize)
        ensures
            n == self.spec_n_features(),
    {
        self.n_features
    }

    fn n_input_features(&self) -> (n: usize)
        ensures
            n == self.spec_n_input_features(),
    {
        self.n_features
    }
}

/// Non-empty groups whose concatenation lists each source column `0..n`
/// exactly once.
pub open spec fn groups_partition_columns(gs: Seq<Seq<usize>>, n: nat) -> bool {
    &&& gs.len() > 0
    &&& forall|g: int| 0 <= g < gs.len() ==> #[trigger] gs[g].len() > 0
    &&& forall|p: int| 0 <= p < joined_groups(gs).len() ==> #[trigger] selection_entry_ok(joined_groups(gs), n, p)
    &&& forall|c: usize| c < n ==> joined_groups(gs).contains(c)
}

/// The error [`GroupedMasker::new`] reports for an inner masker of `n`
/// features (`n_input` input columns) and groups `gs`, when any.
pub open spec fn grouping_error(gs: Seq<Seq<usize>>, n: nat, n_input: nat, e: ShapError) -> bool {
    let flat = joined_groups(gs);
    if n != n_input {
        is_invalid_configuration(e, "nested grouped maskers are not supported"@)
    } else if gs.len() == 0 || exists|g: int| 0 <= g < gs.len() && #[trigger] gs[g].len() == 0 {
        is_invalid_configuration(e, "feature groups must be non-empty"@)
    } else if exists|p: int| #[trigger] first_bad_entry(flat, n, p) {
        forall|p: int|
            #[trigger] first_bad_entry(flat, n, p) ==> if flat[p] >= n {
                e == ShapError::InvalidFeatureIndex { index: flat[p], n_features: n as usize }
            } else {
                is_invalid_configuration(
                    e,
                    "source column "@ + decimal(flat[p] as nat)
                        + " belongs to more than one feature group"@,
                )
            }
    } else {
        is_invalid_configuration(e, "feature groups must cover every source column exactly once"@)
    }
}


/// Column `a` of group `g` sits at position `joined(gs.take(g)).len() + a`
/// of the concatenation of all groups.
pub proof fn lemma_group_entry_position(gs: Seq<Seq<usize>>, g: int, a: int)
    requires
        0 <= g < gs.len(),
        0 <= a < gs[g].len(),
    ensures
        joined_groups(gs.take(g)).len() + a < joined_groups(gs).len(),
        joined_groups(gs)[joined_groups(gs.take(g)).len() + a] == gs[g][a],
        joined_groups(gs.take(g)).len() + gs[g].len() == joined_groups(gs.take(g + 1)).len(),
{
    assert(gs.take(g + 1).drop_last() =~= gs.take(g));
    assert(joined_groups(gs.take(g + 1)) == joined_groups(gs.take(g)) + gs[g]);
    assert(gs.take(gs.len() as int) =~= gs);
    lemma_joined_prefix(gs, g + 1, gs.len() as int);
    let pre = joined_groups(gs.take(g + 1));
    assert(joined_groups(gs).take(pre.len() as int)[joined_groups(gs.take(g)).len() + a] == pre[joined_groups(gs.take(g)).len() + a]);
}

/// Earlier groups occupy earlier positions of the concatenation.
pub proof fn lemma_group_positions_ordered(gs: Seq<Seq<usize>>, g1: int, g2: int)
    requires
        0 <= g1 < g2 <= gs.len(),
    ensures
        joined_groups(gs.take(g1)).len() + gs[g1].len() <= joined_groups(gs.take(g2)).len(),
{
    assert(gs.take(g1 + 1).drop_last() =~= gs.take(g1));
    assert(joined_groups(gs.take(g1 + 1)) == joined_groups(gs.take(g1)) + gs[g1]);
    lemma_joined_prefix(gs, g1 + 1, g2);
}

/// Distinct (group, column) slots of a partition hold distinct columns.
pub proof fn lemma_group_entries_distinct(gs: Seq<Seq<usize>>, n: nat, g1: int, a1: int, g2: int, a2: int)
    requires
        groups_partition_columns(gs, n),
        0 <= g1 < gs.len(),
        0 <= a1 < gs[g1].len(),
        0 <= g2 < gs.len(),
        0 <= a2 < gs[g2].len(),
        g1 != g2 || a1 != a2,
    ensures
        gs[g1][a1] != gs[g2][a2],
{
    let flat = joined_groups(gs);
    lemma_group_entry_position(gs, g1, a1);
    lemma_group_entry_position(gs, g2, a2);
    let p1 = joined_groups(gs.take(g1)).len() + a1;
    let p2 = joined_groups(gs.take(g2)).len() + a2;
    if g1 < g2 {
        lemma_group_positions_ordered(gs, g1, g2);
    } else if g2 < g1 {
        lemma_group_positions_ordered(gs, g2, g1);
    }
    assert(p1 != p2);
    if p1 < p2 {
        assert(selection_entry_ok(flat, n, p2));
        assert(flat.take(p2)[p1] == flat[p1]);
    } else {
        assert(selection_entry_ok(flat, n, p1));
        assert(flat.take(p1)[p2] == flat[p2]);
    }
}

/// The message of a mask whose lengths do not fit a grouped masker.
pub open spec fn expand_mismatch(n_input: nat, n_groups: nat, sample_len: nat, mask_len: nat, e: ShapError) -> bool {
    is_dimension_mismatch(
        e,
        decimal(n_input) + " input columns and "@ + decimal(n_groups) + " feature groups"@,
        "sample "@ + decimal(sample_len) + ", mask "@ + decimal(mask_len),
    )
}

/// Makes groups of source columns behave as single coalition features: the
/// groups partition the wrapped masker's columns, explanations get one
/// feature per group, and the model still receives every column.
pub struct GroupedMasker<K: Masker> {
    inner: K,
    groups: Vec<Vec<usize>>,
    n_columns: usize,
}

impl<K: Masker> GroupedMasker<K> {
    /// The wrapped masker.
    pub closed spec fn spec_inner(&self) -> K {
        self.inner
    }

    /// The groups of source columns.
    pub closed spec fn spec_groups(&self) -> Seq<Seq<usize>> {
        self.groups.deep_view()
    }

    /// The number of source columns the groups partition: the wrapped
    /// masker's feature and input column count when it was grouped.
    pub closed spec fn spec_n_columns(&self) -> nat {
        self.n_columns as nat
    }

    /// The number of coalition features: one per group.
    pub open spec fn spec_n_features(&self) -> nat {
        self.spec_groups().len()
    }

    /// The number of model input columns: every source column.
    pub open spec fn spec_n_input_features(&self) -> nat {
        self.spec_n_columns()
    }

    #[verifier::type_invariant]
    spec fn well_formed(self) -> bool {
        groups_partition_columns(self.groups.deep_view(), self.n_columns as nat)
    }

    /// Groups the columns of `inner`, asking it for its feature and input
    /// column counts; see [`GroupedMasker::from_dimensions`] for the rules
    /// applied to those counts.
    pub fn new(inner: K, groups: Vec<Vec<usize>>) -> (r: Result<Self>)
        ensures
            r matches Ok(m) ==> m.spec_inner() == inner && m.spec_groups() == groups.deep_view()
                && groups_partition_columns(groups.deep_view(), m.spec_n_columns()),
            r matches Err(e) ==> exists|n: nat, n_input: nat| grouping_error(groups.deep_view(), n, n_input, e),
    {
        let n = inner.n_features();
        let n_input = inner.n_input_features();
        let r = Self::from_dimensions(inner, groups, n, n_input);
        proof {
            if r is Err {
                assert(grouping_error(groups.deep_view(), n as nat, n_input as nat, r->Err_0));
            }
        }
        r
    }

    /// Groups the columns of `inner`, a masker of `n_features` features
    /// reading `n_input_features` columns, which must not itself be grouped
    /// (equal counts). The groups must be non-empty and list each column
    /// exactly once; scanning the groups in order, the first column past the
    /// end and the first repeated column are reported.
    pub fn from_dimensions(
        inner: K,
        groups: Vec<Vec<usize>>,
        n_features: usize,
        n_input_features: usize,
    ) -> (r: Result<Self>)
        ensures
            r is Ok <==> n_features == n_input_features && groups_partition_columns(
                groups.deep_view(),
                n_features as nat,
            ),
            r matches Ok(m) ==> m.spec_inner() == inner && m.spec_groups() == groups.deep_view()
                && m.spec_n_columns() == n_features,
            r matches Err(e) ==> grouping_error(
                groups.deep_view(),
                n_features as nat,
                n_input_features as nat,
                e,
            ),
    {
        let n = n_features;
        let ghost n_input = n_input_features as nat;
        let ghost gs = groups.deep_view();
        let ghost flat = joined_groups(gs);
        if n != n_input_features {
            return Err(invalid_configuration("nested grouped maskers are not supported"));
        }
        if groups.len() == 0 {
            return Err(invalid_configuration("feature groups must be non-empty"));
        }
        let mut g: usize = 0;
        while g < groups.len()
            invariant
                gs == groups.deep_view(),
                n == n_features,
                n == n_input,
                n_input == n_input_features as nat,
                gs.len() > 0,
                g <= groups.len(),
                forall|x: int| 0 <= x < g ==> #[trigger] gs[x].len() > 0,
            decreases groups.len() - g,
        {
            assert(groups@[g as int]@ == gs[g as int]);
            if groups[g].len() == 0 {
                assert(gs[g as int].len() == 0);
                let e = invalid_configuration("feature groups must be non-empty");
                assert(n as nat == n_input);
                assert(exists|x: int| 0 <= x < gs.len() && #[trigger] gs[x].len() == 0);
                assert(is_invalid_configuration(e, "feature groups must be non-empty"@));
                assert(grouping_error(gs, n_features as nat, n_input, e));
                return Err(e);
            }
            g = g + 1;
        }
        assert(!(exists|x: int| 0 <= x < gs.len() && #[trigger] gs[x].len() == 0));
        let mut seen: Vec<bool> = vec![false; n];
        proof {
            assert(gs.take(0) =~= Seq::<Seq<usize>>::empty());
            assert forall|x: int| 0 <= x < n implies seen@[x] == joined_groups(gs.take(0)).contains(x as usize) by {
                assert(!seen@[x]);
            }
            assert(gs.take(gs.len() as int) =~= gs);
        }
        g = 0;
        while g < groups.len()
            invariant
                gs == groups.deep_view(),
                flat == joined_groups(gs),
                gs.take(gs.len() as int) == gs,
                n == n_features,
                n == n_input,
                n_input == n_input_features as nat,
                gs.len() > 0,
                forall|x: int| 0 <= x < gs.len() ==> #[trigger] gs[x].len() > 0,
                g <= groups.len(),
                seen.len() == n,
                forall|p: int| 0 <= p < joined_groups(gs.take(g as int)).len() ==> #[trigger] selection_entry_ok(flat, n as nat, p),
                forall|x: int| 0 <= x < n ==> seen@[x] == joined_groups(gs.take(g as int)).contains(x as usize),
            decreases groups.len() - g,
        {
            let group = &groups[g];
            assert(group@ == gs[g as int]);
            let ghost before = joined_groups(gs.take(g as int));
            proof {
                assert(gs.take(g + 1).drop_last() =~= gs.take(g as int));
                assert(joined_groups(gs.take(g + 1)) == before + group@);
                lemma_joined_prefix(gs, g + 1, gs.len() as int);
            }
            let mut a: usize = 0;
            while a < group.len()
                invariant
                    gs == groups.deep_view(),
                    flat == joined_groups(gs),
                    n == n_features,
                    n == n_input,
                    n_input == n_input_features as nat,
                n_input == n_input_features as nat,
                    gs.len() > 0,
                    forall|x: int| 0 <= x < gs.len() ==> #[trigger] gs[x].len() > 0,
                    g < groups.len(),
                    group@ == gs[g as int],
                    before == joined_groups(gs.take(g as int)),
                    joined_groups(gs.take(g + 1)) == before + group@,
                    flat.take((before + group@).len() as int) == before + group@,
                    (before + group@).len() <= flat.len(),
                    a <= group.len(),
                    seen.len() == n,
                    forall|p: int| 0 <= p < before.len() + a ==> #[trigger] selection_entry_ok(flat, n as nat, p),
                    forall|x: int| 0 <= x < n ==> seen@[x] == (before + group@.take(a as int)).contains(x as usize),
                decreases group.len() - a,
            {
                let column = group[a];
                let ghost pos = before.len() + a;
                let ghost cur = before + group@.take(a as int);
                proof {
                    assert(flat[pos] == (before + group@)[pos]);
                    assert((before + group@)[pos] == column);
                    assert(flat.take(pos) =~= cur);
                }
                if column >= n {
                    proof {
                        assert(first_bad_entry(flat, n as nat, pos));
                        assert forall|q: int| #[trigger] first_bad_entry(flat, n as nat, q) implies q == pos by {
                            if q < pos {
                                assert(selection_entry_ok(flat, n as nat, q));
                            } else if q > pos {
                                assert(selection_entry_ok(flat, n as nat, pos));
                            }
                        }
                    }
                    let e = ShapError::InvalidFeatureIndex { index: column, n_features: n };
                    proof {
                        assert(!(exists|x: int| 0 <= x < gs.len() && #[trigger] gs[x].len() == 0));
                        assert(exists|p: int| #[trigger] first_bad_entry(flat, n as nat, p));
                        assert(grouping_error(gs, n_features as nat, n_input, e));
                    }
                    return Err(e);
                }
                if seen[column] {
                    proof {
                        assert(flat.take(pos).contains(column));
                        assert(first_bad_entry(flat, n as nat, pos));
                        assert forall|q: int| #[trigger] first_bad_entry(flat, n as nat, q) implies q == pos by {
                            if q < pos {
                                assert(selection_entry_ok(flat, n as nat, q));
                            } else if q > pos {
                                assert(selection_entry_ok(flat, n as nat, pos));
                            }
                        }
                    }
                    let mut m = String::from_str("source column ");
                    let digits = decimal_text(column);
                    m.append(digits.as_str());
                    m.append(" belongs to more than one feature group");
                    let e = ShapError::InvalidConfiguration(m);
                    proof {
                        assert(!(exists|x: int| 0 <= x < gs.len() && #[trigger] gs[x].len() == 0));
                        assert(exists|p: int| #[trigger] first_bad_entry(flat, n as nat, p));
                        assert(grouping_error(gs, n_features as nat, n_input, e));
                    }
                    return Err(e);
                }
                let ghost next = before + group@.take(a + 1);
                seen.set(column, true);
                proof {
                    assert(next =~= cur.push(column));
                    assert(selection_entry_ok(flat, n as nat, pos));
                    assert forall|x: int| 0 <= x < n implies seen@[x] == next.contains(x as usize) by {
                        if next.contains(x as usize) && x != column as int {
                            let k = choose|k: int| 0 <= k < next.len() && next[k] == x as usize;
                            assert(cur[k] == next[k]);
                        }
                        if cur.contains(x as usize) {
                            let k = choose|k: int| 0 <= k < cur.len() && cur[k] == x as usize;
                            assert(next[k] == cur[k]);
                        }
                        if x == column as int {
                            assert(next[cur.len() as int] == column);
                        }
                    }
                }
                a = a + 1;
            }
            proof {
                assert(group@.take(group.len() as int) =~= group@);
            }
            g = g + 1;
        }
        proof {
            assert(forall|p: int| 0 <= p < flat.len() ==> #[trigger] selection_entry_ok(flat, n as nat, p));
            assert(!(exists|p: int| #[trigger] first_bad_entry(flat, n as nat, p)));
        }
        let mut c: usize = 0;
        while c < n
            invariant
                flat == joined_groups(gs),
                gs == groups.deep_view(),
                gs.take(gs.len() as int) == gs,
                n == n_features,
                n == n_input,
                n_input == n_input_features as nat,
                gs.len() > 0,
                forall|x: int| 0 <= x < gs.len() ==> #[trigger] gs[x].len() > 0,
                forall|p: int| 0 <= p < flat.len() ==> #[trigger] selection_entry_ok(flat, n as nat, p),
                !(exists|p: int| #[trigger] first_bad_entry(flat, n as nat, p)),
                seen.len() == n,
                forall|x: int| 0 <= x < n ==> seen@[x] == flat.contains(x as usize),
                forall|x: usize| x < c ==> flat.contains(x),
                c <= n,
            decreases n - c,
        {
            if !seen[c] {
                assert(!flat.contains(c));
                let e = invalid_configuration(
                    "feature groups must cover every source column exactly once",
                );
                proof {
                    assert(!(exists|x: int| 0 <= x < gs.len() && #[trigger] gs[x].len() == 0));
                    assert(grouping_error(gs, n_features as nat, n_input, e));
                }
                return Err(e);
            }
            c = c + 1;
        }
        Ok(Self { inner, groups, n_columns: n })
    }

    /// Expands a coalition of groups into flags for the wrapped masker's
    /// columns: each column takes its group's flag. The sample must have one
    /// value per input column and the mask one flag per group.
    pub fn expand_mask(&self, sample_len: usize, present: &[bool]) -> (r: Result<Vec<bool>>)
        ensures
            r is Ok <==> sample_len == self.spec_n_input_features() && present@.len()
                == self.spec_n_features(),
            r matches Err(e) ==> expand_mismatch(
                self.spec_n_input_features(),
                self.spec_n_features(),
                sample_len as nat,
                present@.len(),
                e,
            ),
            r matches Ok(columns) ==> columns.len() == self.spec_n_columns() && forall|
                g: int,
                a: int,
            |
                0 <= g < self.spec_groups().len() && 0 <= a < self.spec_groups()[g].len()
                    ==> columns@[#[trigger] self.spec_groups()[g][a] as int] == present@[g],
    {
        proof {
            use_type_invariant(self);
        }
        let n_input = self.n_columns;
        let n_groups = self.groups.len();
        if sample_len != n_input || present.len() != n_groups {
            let mut expected = counted(n_input, " input columns and ");
            let groups_text = counted(n_groups, " feature groups");
            expected.append(groups_text.as_str());
            let mut found = String::from_str("sample ");
            let sample_text = decimal_text(sample_len);
            found.append(sample_text.as_str());
            found.append(", mask ");
            let mask_text = decimal_text(present.len());
            found.append(mask_text.as_str());
            proof {
                assert(expected@ =~= decimal(n_input as nat) + " input columns and "@ + decimal(
                    n_groups as nat,
                ) + " feature groups"@);
            }
            return Err(ShapError::DimensionMismatch { expected, found });
        }
        let ghost gs = self.groups.deep_view();
        let ghost n = self.n_columns as nat;
        let n_columns = self.n_columns;
        let mut columns: Vec<bool> = vec![false; n_columns];
        let mut g: usize = 0;
        while g < n_groups
            invariant
                gs == self.groups.deep_view(),
                n == self.n_columns,
                n_columns == n,
                groups_partition_columns(gs, n),
                n_groups == gs.len(),
                present@.len() == n_groups,
                g <= n_groups,
                columns.len() == n_columns,
                forall|x: int, b: int| 0 <= x < g && 0 <= b < gs[x].len() ==> columns@[#[trigger] gs[x][b] as int] == present@[x],
            decreases n_groups - g,
        {
            let group = &self.groups[g];
            assert(group@ == gs[g as int]);
            let on = present[g];
            let mut a: usize = 0;
            while a < group.len()
                invariant
                    gs == self.groups.deep_view(),
                    n_columns == n,
                    groups_partition_columns(gs, n),
                    n_groups == gs.len(),
                    present@.len() == n_groups,
                    g < n_groups,
                    group@ == gs[g as int],
                    on == present@[g as int],
                    a <= group.len(),
                    columns.len() == n_columns,
                    forall|x: int, b: int| 0 <= x < g && 0 <= b < gs[x].len() ==> columns@[#[trigger] gs[x][b] as int] == present@[x],
                    forall|b: int| 0 <= b < a ==> columns@[#[trigger] gs[g as int][b] as int] == on,
                decreases group.len() - a,
            {
                let column = group[a];
                proof {
                    lemma_group_entry_position(gs, g as int, a as int);
                    let flat = joined_groups(gs);
                    assert(selection_entry_ok(flat, n, joined_groups(gs.take(g as int)).len() + a));
                }
                let ghost before = columns@;
                columns.set(column, on);
                proof {
                    assert forall|x: int, b: int| 0 <= x < g && 0 <= b < gs[x].len() implies columns@[#[trigger] gs[x][b] as int] == present@[x] by {
                        lemma_group_entries_distinct(gs, n, x, b, g as int, a as int);
                        lemma_group_entry_position(gs, x, b);
                        assert(selection_entry_ok(joined_groups(gs), n, joined_groups(gs.take(x)).len() + b));
                        assert(before[gs[x][b] as int] == present@[x]);
                    }
                    assert forall|b: int| 0 <= b < a + 1 implies columns@[#[trigger] gs[g as int][b] as int] == on by {
                        if b < a {
                            lemma_group_entries_distinct(gs, n, g as int, b, g as int, a as int);
                            lemma_group_entry_position(gs, g as int, b);
                            assert(selection_entry_ok(joined_groups(gs), n, joined_groups(gs.take(g as int)).len() + b));
                            assert(before[gs[g as int][b] as int] == on);
                        }
                    }
                }
                a = a + 1;
            }
            g = g + 1;
        }
        Ok(columns)
    }

    /// The wrapped masker.
    pub fn inner(&self) -> (r: &K)
        ensures
            *r == self.spec_inner(),
    {
        &self.inner
    }

    /// The groups of source columns.
    pub fn groups(&self) -> (r: &[Vec<usize>])
        ensures
            r@.len() == self.spec_groups().len(),
            forall|i: int| 0 <= i < r@.len() ==> #[trigger] r@[i]@ == self.spec_groups()[i],
    {
        self.groups.as_slice()
    }
}

impl<K: Masker> Masker for GroupedMasker<K> {
    fn n_features(&self) -> (n: usize)
        ensures
            n == self.spec_n_features(),
    {
        self.groups.len()
    }

    fn n_input_features(&self) -> (n: usize)
        ensures
            n == self.spec_n_input_features(),
    {
        self.n_columns
    }
}

/// Controls whether tokenizer special pieces participate in coalitions.
#[derive(Debug, Clone, Copy, PartialEq, Eq, Structural)]
pub enum SpecialTokenPolicy {
    /// Always retain special pieces and exclude them from the explanation.
    Preserve,
    /// Treat special pieces like ordinary pieces in their configured group.
    Mask,
}

/// The categorical-feature flags of a conditional tabular masker over
/// `n_features` features that matches `neighbors` neighbours: a positive
/// neighbour count is required (`"conditional tabular neighbors must be
/// positive"`); scanning `categorical` in order, the first index at or past
/// `n_features` is reported as `InvalidFeatureIndex` and the first repeated
/// one as `"categorical feature indices must be unique"`. Flag `j` is set
/// exactly for the listed features.
pub fn categorical_flags(n_features: usize, categorical: &[usize], neighbors: usize) -> (r: Result<
    Vec<bool>,
>)
    ensures
        neighbors == 0 ==> r is Err && is_invalid_configuration(
            r->Err_0,
            "conditional tabular neighbors must be positive"@,
        ),
        r is Ok <==> neighbors > 0 && forall|p: int|
            0 <= p < categorical@.len() ==> #[trigger] selection_entry_ok(
                categorical@,
                n_features as nat,
                p,
            ),
        r matches Ok(flags) ==> flags@ == Seq::new(
            n_features as nat,
            |j: int| categorical@.contains(j as usize),
        ),
        neighbors > 0 ==> forall|p: int|
            #[trigger] first_bad_entry(categorical@, n_features as nat, p) ==> {
                &&& categorical@[p] >= n_features ==> r == Err::<Vec<bool>, ShapError>(
                    ShapError::InvalidFeatureIndex { index: categorical@[p], n_features },
                )
                &&& categorical@[p] < n_features ==> r is Err && is_invalid_configuration(
                    r->Err_0,
                    "categorical feature indices must be unique"@,
                )
            },
{
    if neighbors == 0 {
        return Err(invalid_configuration("conditional tabular neighbors must be positive"));
    }
    let ghost c = categorical@;
    let mut flags: Vec<bool> = Vec::new();
    let mut j: usize = 0;
    while j < n_features
        invariant
            j <= n_features,
            flags@ == Seq::new(j as nat, |x: int| false),
        decreases n_features - j,
    {
        flags.push(false);
        j = j + 1;
        assert(flags@ =~= Seq::new(j as nat, |x: int| false));
    }
    let mut p: usize = 0;
    assert(c.take(0) =~= Seq::<usize>::empty());
    while p < categorical.len()
        invariant
            neighbors > 0,
            c == categorical@,
            p <= c.len(),
            flags@.len() == n_features,
            forall|x: int| 0 <= x < n_features ==> #[trigger] flags@[x] == c.take(p as int).contains(x as usize),
            forall|q: int| 0 <= q < p ==> #[trigger] selection_entry_ok(c, n_features as nat, q),
        decreases c.len() - p,
    {
        let f = categorical[p];
        proof {
            assert forall|q: int| #[trigger] first_bad_entry(c, n_features as nat, q) implies q >= p by {
                if q < p {
                    assert(selection_entry_ok(c, n_features as nat, q));
                }
            }
        }
        if f >= n_features {
            proof {
                assert forall|q: int| #[trigger] first_bad_entry(c, n_features as nat, q) implies q == p by {
                    if q > p {
                        assert(selection_entry_ok(c, n_features as nat, p as int));
                    }
                }
                assert(first_bad_entry(c, n_features as nat, p as int));
            }
            return Err(ShapError::InvalidFeatureIndex { index: f, n_features });
        }
        if flags[f] {
            proof {
                assert(flags@[f as int] == c.take(p as int).contains(f));
                assert(!selection_entry_ok(c, n_features as nat, p as int));
                assert(first_bad_entry(c, n_features as nat, p as int));
                assert forall|q: int| #[trigger] first_bad_entry(c, n_features as nat, q) implies q == p by {
                    if q > p {
                        assert(selection_entry_ok(c, n_features as nat, p as int));
                    }
                }
            }
            return Err(invalid_configuration("categorical feature indices must be unique"));
        }
        let ghost before = flags@;
        flags.set(f, true);
        proof {
            assert(!c.take(p as int).contains(f)) by {
                assert(before[f as int] == c.take(p as int).contains(f));
            }
            assert(selection_entry_ok(c, n_features as nat, p as int));
            assert(c.take(p + 1) =~= c.take(p as int).push(f));
            assert forall|x: int| 0 <= x < n_features implies #[trigger] flags@[x] == c.take(p + 1).contains(
                x as usize,
            ) by {
                assert(before[x] == c.take(p as int).contains(x as usize));
                if x == f {
                    assert(c.take(p + 1)[p as int] == f);
                } else {
                    if c.take(p + 1).contains(x as usize) {
                        let y = choose|y: int| 0 <= y < p + 1 && #[trigger] c.take(p + 1)[y] == x as usize;
                        assert(y != p);
                        assert(c.take(p as int)[y] == x as usize);
                    }
                    if c.take(p as int).contains(x as usize) {
                        let y = choose|y: int| 0 <= y < p && #[trigger] c.take(p as int)[y] == x as usize;
                        assert(c.take(p + 1)[y] == x as usize);
                    }
                }
            }
        }
        p = p + 1;
    }
    proof {
        assert(c.take(c.len() as int) =~= c);
        assert(flags@ =~= Seq::new(n_features as nat, |j: int| c.contains(j as usize)));
    }
    Ok(flags)
}

} // verus!
