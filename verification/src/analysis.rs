//! The discrete side of summarising explanations: which samples a summary
//! reads, how samples split into classes or cohorts, and which feature
//! groups may be summed.
use vstd::prelude::*;
use crate::error::{
    checked_f64_shape, decimal, f64_shape_fits, invalid_configuration, is_dimension_mismatch,
    is_invalid_configuration, overflow_message, Result, ShapError,
};
use crate::explanation::{
    check_count, first_bad_entry, selection_valid, validate_indices, SelectionAxis,
};

verus! {

/// `p` is the first position of `samples` at or past `n_samples`.
pub open spec fn first_outside(samples: Seq<usize>, n_samples: nat, p: int) -> bool {
    &&& 0 <= p < samples.len()
    &&& samples[p] >= n_samples
    &&& forall|q: int| 0 <= q < p ==> #[trigger] samples[q] < n_samples
}

/// Checks the samples a summary reads: there is at least one (`EmptyData`),
/// and the first index at or past `n_samples` is reported as
/// `InvalidSampleIndex`. A repeated sample is allowed and weighs again.
pub fn check_sample_selection(samples: &[usize], n_samples: usize) -> (r: Result<()>)
    ensures
        r is Ok <==> samples@.len() > 0 && forall|p: int|
            0 <= p < samples@.len() ==> #[trigger] samples@[p] < n_samples,
        samples@.len() == 0 ==> r == Err::<(), ShapError>(ShapError::EmptyData),
        forall|p: int|
            #[trigger] first_outside(samples@, n_samples as nat, p) ==> r == Err::<(), ShapError>(
                ShapError::InvalidSampleIndex { index: samples@[p], n_samples },
            ),
{
    if samples.len() == 0 {
        return Err(ShapError::EmptyData);
    }
    let mut p: usize = 0;
    while p < samples.len()
        invariant
            p <= samples@.len(),
            forall|q: int| 0 <= q < p ==> #[trigger] samples@[q] < n_samples,
        decreases samples@.len() - p,
    {
        let index = samples[p];
        if index >= n_samples {
            proof {
                assert forall|x: int| #[trigger] first_outside(samples@, n_samples as nat, x) implies x
                    == p by {
                    if x < p {
                        assert(samples@[x] < n_samples);
                    } else if x > p {
                        assert(samples@[p as int] < n_samples);
                    }
                }
            }
            return Err(ShapError::InvalidSampleIndex { index, n_samples });
        }
        p = p + 1;
    }
    Ok(())
}

/// The member lists of `groups` as sequences.
pub open spec fn group_views(groups: Seq<Vec<usize>>) -> Seq<Seq<usize>> {
    groups.map_values(|g: Vec<usize>| g@)
}

/// The features of `groups`, group after group.
pub open spec fn flattened(groups: Seq<Vec<usize>>) -> Seq<usize> {
    group_views(groups).flatten()
}

/// Some group is empty, or there is no group at all.
pub open spec fn has_empty_group(groups: Seq<Vec<usize>>) -> bool {
    groups.len() == 0 || exists|k: int| 0 <= k < groups.len() && #[trigger] groups[k]@.len() == 0
}

/// The grouped attribution array `(samples, groups, outputs)` fits.
pub open spec fn grouped_shape_fits(n_samples: usize, n_groups: nat, n_outputs: usize) -> bool {
    n_groups <= usize::MAX && f64_shape_fits(seq![n_samples, n_groups as usize, n_outputs])
}

/// The concatenation of the groups, built group after group.
fn flatten_groups(groups: &Vec<Vec<usize>>) -> (flat: Vec<usize>)
    ensures
        flat@ == flattened(groups@),
{
    let mut flat: Vec<usize> = Vec::new();
    let mut k: usize = 0;
    while k < groups.len()
        invariant
            k <= groups@.len(),
            flat@ == group_views(groups@.take(k as int)).flatten(),
        decreases groups@.len() - k,
    {
        let group = &groups[k];
        let ghost before = flat@;
        let mut j: usize = 0;
        while j < group.len()
            invariant
                j <= group@.len(),
                *group == groups@[k as int],
                k < groups@.len(),
                flat@ == before + group@.take(j as int),
            decreases group@.len() - j,
        {
            flat.push(group[j]);
            assert(group@.take(j + 1) =~= group@.take(j as int).push(group@[j as int]));
            assert(flat@ =~= before + group@.take(j + 1));
            j = j + 1;
        }
        proof {
            assert(group@.take(group@.len() as int) =~= group@);
            assert(group_views(groups@.take(k + 1)) =~= group_views(groups@.take(k as int)).push(
                groups@[k as int]@,
            ));
            group_views(groups@.take(k as int)).lemma_flatten_push(groups@[k as int]@);
        }
        k = k + 1;
    }
    assert(groups@.take(groups@.len() as int) =~= groups@);
    flat
}

/// Checks feature groups before their attributions are summed, in this
/// order: there is a group and none is empty (`"feature groups cannot be
/// empty"`); the `(samples, groups, outputs)` result fits; then, scanning
/// the features group after group, the first one at or past `n_features`
/// is reported as `InvalidFeatureIndex` and the first one seen before as
/// `"feature groups must not overlap"`.
pub fn check_feature_groups(
    groups: &Vec<Vec<usize>>,
    n_samples: usize,
    n_features: usize,
    n_outputs: usize,
) -> (r: Result<()>)
    ensures
        r is Ok <==> !has_empty_group(groups@) && grouped_shape_fits(
            n_samples,
            groups@.len(),
            n_outputs,
        ) && selection_valid(flattened(groups@), n_features as nat),
        has_empty_group(groups@) ==> r is Err && is_invalid_configuration(
            r->Err_0,
            "feature groups cannot be empty"@,
        ),
        !has_empty_group(groups@) && !grouped_shape_fits(n_samples, groups@.len(), n_outputs) ==> r is Err
            && is_invalid_configuration(r->Err_0, overflow_message("grouped attributions"@)),
        !has_empty_group(groups@) && grouped_shape_fits(n_samples, groups@.len(), n_outputs) ==> forall|p: int|
            #[trigger] first_bad_entry(flattened(groups@), n_features as nat, p) ==> {
                &&& flattened(groups@)[p] >= n_features ==> r == Err::<(), ShapError>(
                    ShapError::InvalidFeatureIndex { index: flattened(groups@)[p], n_features },
                )
                &&& flattened(groups@)[p] < n_features ==> r is Err && is_invalid_configuration(
                    r->Err_0,
                    "feature groups must not overlap"@,
                )
            },
{
    if groups.len() == 0 {
        return Err(invalid_configuration("feature groups cannot be empty"));
    }
    let mut k: usize = 0;
    while k < groups.len()
        invariant
            k <= groups@.len(),
            forall|q: int| 0 <= q < k ==> #[trigger] groups@[q]@.len() > 0,
        decreases groups@.len() - k,
    {
        if groups[k].len() == 0 {
            return Err(invalid_configuration("feature groups cannot be empty"));
        }
        k = k + 1;
    }
    assert(!has_empty_group(groups@));
    let dims: Vec<usize> = vec![n_samples, groups.len(), n_outputs];
    assert(dims@ == seq![n_samples, groups@.len() as usize, n_outputs]);
    if let Err(e) = checked_f64_shape(dims.as_slice(), "grouped attributions") {
        return Err(e);
    }
    let flat = flatten_groups(groups);
    match validate_indices(flat.as_slice(), n_features, SelectionAxis::Feature) {
        Ok(()) => Ok(()),
        Err(ShapError::InvalidConfiguration(_)) => Err(
            invalid_configuration("feature groups must not overlap"),
        ),
        Err(e) => Err(e),
    }
}

/// The positions of `s` that hold `c`, in increasing order.
pub open spec fn positions_of(s: Seq<usize>, c: usize) -> Seq<usize>
    decreases s.len(),
{
    if s.len() == 0 {
        Seq::empty()
    } else {
        let rest = positions_of(s.drop_last(), c);
        if s.last() == c {
            rest.push((s.len() - 1) as usize)
        } else {
            rest
        }
    }
}

/// The positions listed for `c` are exactly the positions of `s` holding
/// `c`: each position `i` with `s[i] == c` is listed, every listed position
/// is below `s.len()` and holds `c`, and they increase strictly.
pub proof fn lemma_positions_exact(s: Seq<usize>, c: usize)
    requires
        s.len() <= usize::MAX,
    ensures
        forall|i: int| 0 <= i < s.len() ==> (positions_of(s, c).contains(i as usize) <==> s[i] == c),
        forall|k: int|
            0 <= k < positions_of(s, c).len() ==> (#[trigger] positions_of(s, c)[k]) < s.len() && s[positions_of(
                s,
                c,
            )[k] as int] == c,
        forall|a: int, b: int|
            0 <= a < b < positions_of(s, c).len() ==> (#[trigger] positions_of(s, c)[a]) < (
            #[trigger] positions_of(s, c)[b]),
    decreases s.len(),
{
    if s.len() > 0 {
        let init = s.drop_last();
        lemma_positions_exact(init, c);
        let rest = positions_of(init, c);
        let p = positions_of(s, c);
        let last = (s.len() - 1) as usize;
        assert forall|k: int| 0 <= k < p.len() implies (#[trigger] p[k]) < s.len() && s[p[k] as int] == c by {
            if k < rest.len() {
                assert(p[k] == rest[k]);
                assert(s[rest[k] as int] == init[rest[k] as int]);
            }
        }
        assert forall|i: int| 0 <= i < s.len() implies (p.contains(i as usize) <==> s[i] == c) by {
            if i < s.len() - 1 {
                assert(s[i] == init[i]);
                if p.contains(i as usize) {
                    let k = choose|k: int| 0 <= k < p.len() && p[k] == i as usize;
                    if k < rest.len() {
                        assert(p[k] == rest[k]);
                    }
                }
                if rest.contains(i as usize) {
                    let k = choose|k: int| 0 <= k < rest.len() && rest[k] == i as usize;
                    assert(p[k] == rest[k]);
                }
            } else if s[i] == c {
                assert(p[rest.len() as int] == last);
            }
        }
    }
}

/// Every position of `s` is listed for the value it holds, and no more:
/// the lists for the distinct values together have `s.len()` entries.
proof fn lemma_positions_list_holder(s: Seq<usize>, i: int)
    requires
        s.len() <= usize::MAX,
        0 <= i < s.len(),
    ensures
        positions_of(s, s[i]).contains(i as usize),
{
    lemma_positions_exact(s, s[i]);
}

/// The positions of `classes` that hold `class`, in increasing order.
fn positions(classes: &Vec<usize>, class: usize) -> (r: Vec<usize>)
    ensures
        r@ == positions_of(classes@, class),
{
    let mut r: Vec<usize> = Vec::new();
    let mut i: usize = 0;
    while i < classes.len()
        invariant
            i <= classes@.len(),
            r@ == positions_of(classes@.take(i as int), class),
        decreases classes@.len() - i,
    {
        assert(classes@.take(i + 1).drop_last() =~= classes@.take(i as int));
        if classes[i] == class {
            r.push(i);
        }
        i = i + 1;
    }
    assert(classes@.take(classes@.len() as int) =~= classes@);
    r
}

/// `v` lies above the last class taken, if any.
pub open spec fn above(prev: Option<usize>, v: usize) -> bool {
    match prev {
        Some(p) => v > p,
        None => true,
    }
}

/// The smallest class above `prev`, if there is one.
fn next_class(classes: &Vec<usize>, prev: Option<usize>) -> (r: Option<usize>)
    ensures
        r is None ==> forall|i: int| 0 <= i < classes@.len() ==> !above(prev, #[trigger] classes@[i]),
        r matches Some(m) ==> above(prev, m) && (exists|i: int|
            0 <= i < classes@.len() && #[trigger] classes@[i] == m) && forall|i: int|
            0 <= i < classes@.len() && above(prev, #[trigger] classes@[i]) ==> m <= classes@[i],
{
    let mut best: Option<usize> = None;
    let mut i: usize = 0;
    while i < classes.len()
        invariant
            i <= classes@.len(),
            best is None ==> forall|j: int| 0 <= j < i ==> !above(prev, #[trigger] classes@[j]),
            best matches Some(b) ==> above(prev, b) && (exists|j: int|
                0 <= j < i && #[trigger] classes@[j] == b) && forall|j: int|
                0 <= j < i && above(prev, #[trigger] classes@[j]) ==> b <= classes@[j],
        decreases classes@.len() - i,
    {
        let v = classes[i];
        let is_above = match prev {
            Some(p) => v > p,
            None => true,
        };
        if is_above {
            match best {
                Some(b) => {
                    if v < b {
                        best = Some(v);
                    }
                },
                None => {
                    best = Some(v);
                },
            }
        }
        i = i + 1;
    }
    best
}

/// Entry `k` of `r` is a class that occurs in `classes`, with the
/// positions holding it.
pub open spec fn class_entry(classes: Seq<usize>, r: Seq<(usize, Vec<usize>)>, k: int) -> bool {
    classes.contains(r[k].0) && r[k].1@ == positions_of(classes, r[k].0)
}

/// Some entry of `r` is for class `c`.
pub open spec fn has_class(r: Seq<(usize, Vec<usize>)>, c: usize) -> bool {
    exists|k: int| 0 <= k < r.len() && #[trigger] r[k].0 == c
}

/// Some entry of `r` is for the class of sample `i` and lists `i`.
pub open spec fn lists_sample(classes: Seq<usize>, r: Seq<(usize, Vec<usize>)>, i: int) -> bool {
    exists|k: int| 0 <= k < r.len() && r[k].0 == classes[i] && (#[trigger] r[k].1@).contains(i as usize)
}

/// The samples of each class: one entry per distinct class of `classes`,
/// in increasing class order, each with the positions holding that class
/// in increasing order.
pub fn class_members(classes: &Vec<usize>) -> (r: Vec<(usize, Vec<usize>)>)
    ensures
        forall|k: int| 0 <= k < r@.len() ==> #[trigger] class_entry(classes@, r@, k),
        forall|a: int, b: int| 0 <= a < b < r@.len() ==> r@[a].0 < r@[b].0,
        forall|i: int| 0 <= i < classes@.len() ==> has_class(r@, #[trigger] classes@[i]),
        forall|i: int| 0 <= i < classes@.len() ==> #[trigger] lists_sample(classes@, r@, i),
        forall|k: int, j: int|
            0 <= k < r@.len() && 0 <= j < r@[k].1@.len() ==> (#[trigger] r@[k].1@[j]) < classes@.len()
                && classes@[r@[k].1@[j] as int] == r@[k].0,
{
    let r = class_members_in_order(classes);
    let n = classes.len();
    proof {
        assert(classes@.len() == n);
        assert forall|i: int| 0 <= i < classes@.len() implies #[trigger] lists_sample(classes@, r@, i) by {
            assert(has_class(r@, classes@[i]));
            let k = choose|k: int| 0 <= k < r@.len() && #[trigger] r@[k].0 == classes@[i];
            assert(class_entry(classes@, r@, k));
            lemma_positions_list_holder(classes@, i);
            assert(r@[k].1@.contains(i as usize));
        }
        assert forall|k: int, j: int| 0 <= k < r@.len() && 0 <= j < r@[k].1@.len() implies (
        #[trigger] r@[k].1@[j]) < classes@.len() && classes@[r@[k].1@[j] as int] == r@[k].0 by {
            assert(class_entry(classes@, r@, k));
            lemma_positions_exact(classes@, r@[k].0);
            assert(r@[k].1@[j] == positions_of(classes@, r@[k].0)[j]);
        }
    }
    r
}

/// The class entries, built one class at a time in increasing order.
fn class_members_in_order(classes: &Vec<usize>) -> (r: Vec<(usize, Vec<usize>)>)
    ensures
        forall|k: int| 0 <= k < r@.len() ==> #[trigger] class_entry(classes@, r@, k),
        forall|a: int, b: int| 0 <= a < b < r@.len() ==> r@[a].0 < r@[b].0,
        forall|i: int| 0 <= i < classes@.len() ==> has_class(r@, #[trigger] classes@[i]),
{
    let mut r: Vec<(usize, Vec<usize>)> = Vec::new();
    let mut prev: Option<usize> = None;
    loop
        invariant
            forall|k: int| 0 <= k < r@.len() ==> #[trigger] class_entry(classes@, r@, k),
            forall|a: int, b: int| 0 <= a < b < r@.len() ==> r@[a].0 < r@[b].0,
            r@.len() == 0 <==> prev is None,
            prev matches Some(p) ==> forall|k: int| 0 <= k < r@.len() ==> #[trigger] r@[k].0 <= p,
            forall|i: int|
                0 <= i < classes@.len() && !above(prev, #[trigger] classes@[i]) ==> has_class(r@, classes@[i]),
        ensures
            forall|k: int| 0 <= k < r@.len() ==> #[trigger] class_entry(classes@, r@, k),
            forall|a: int, b: int| 0 <= a < b < r@.len() ==> r@[a].0 < r@[b].0,
            forall|i: int| 0 <= i < classes@.len() ==> has_class(r@, #[trigger] classes@[i]),
        decreases (match prev {
            Some(p) => usize::MAX - p,
            None => usize::MAX + 1,
        }),
    {
        match next_class(classes, prev) {
            None => {
                break;
            },
            Some(m) => {
                let members = positions(classes, m);
                let ghost old_r = r@;
                r.push((m, members));
                proof {
                    assert(r@.len() == old_r.len() + 1);
                    assert forall|k: int| 0 <= k < r@.len() implies #[trigger] r@[k].0 <= m by {
                        if k < old_r.len() {
                            assert(r@[k] == old_r[k]);
                        }
                    }
                    assert forall|a: int, b: int| 0 <= a < b < r@.len() implies r@[a].0 < r@[b].0 by {
                        assert(r@[a] == old_r[a]);
                        if b < old_r.len() {
                            assert(r@[b] == old_r[b]);
                        } else {
                            assert(prev is Some);
                            assert(old_r[a].0 <= prev->0);
                        }
                    }
                    assert forall|k: int| 0 <= k < r@.len() implies #[trigger] class_entry(
                        classes@,
                        r@,
                        k,
                    ) by {
                        if k < old_r.len() {
                            assert(class_entry(classes@, old_r, k));
                            assert(r@[k] == old_r[k]);
                        } else {
                            let i = choose|i: int| 0 <= i < classes@.len() && #[trigger] classes@[i] == m;
                            assert(classes@[i] == m);
                        }
                    }
                    assert forall|i: int|
                        0 <= i < classes@.len() && !above(Some(m), #[trigger] classes@[i]) implies has_class(
                        r@,
                        classes@[i],
                    ) by {
                        if above(prev, classes@[i]) {
                            assert(m <= classes@[i]);
                            assert(r@[old_r.len() as int].0 == classes@[i]);
                        } else {
                            assert(has_class(old_r, classes@[i]));
                            let k = choose|k: int| 0 <= k < old_r.len() && #[trigger] old_r[k].0 == classes@[i];
                            assert(r@[k] == old_r[k]);
                        }
                    }
                }
                prev = Some(m);
            },
        }
    }
    r
}

/// Checks cohort labels: one per sample (`"<n> cohort labels"` against
/// `"<found> labels"`), none of them empty (`"cohort labels cannot be
/// empty"`).
pub fn check_cohort_labels(labels: &Vec<String>, n_samples: usize) -> (r: Result<()>)
    ensures
        r is Ok <==> labels@.len() == n_samples && forall|i: int|
            0 <= i < labels@.len() ==> (#[trigger] labels@[i])@.len() > 0,
        labels@.len() != n_samples ==> r is Err && is_dimension_mismatch(
            r->Err_0,
            decimal(n_samples as nat) + " cohort labels"@,
            decimal(labels@.len()) + " labels"@,
        ),
        labels@.len() == n_samples && (exists|i: int|
            0 <= i < labels@.len() && (#[trigger] labels@[i])@.len() == 0) ==> r is Err
            && is_invalid_configuration(r->Err_0, "cohort labels cannot be empty"@),
{
    if let Err(e) = check_count(n_samples, labels.len(), " cohort labels", " labels") {
        return Err(e);
    }
    let mut i: usize = 0;
    while i < labels.len()
        invariant
            i <= labels@.len(),
            labels@.len() == n_samples,
            forall|j: int| 0 <= j < i ==> (#[trigger] labels@[j])@.len() > 0,
        decreases labels@.len() - i,
    {
        if labels[i].as_str().is_empty() {
            return Err(invalid_configuration("cohort labels cannot be empty"));
        }
        i = i + 1;
    }
    Ok(())
}

} // verus!
