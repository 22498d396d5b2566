//! Coalition groups of token and image positions: labels are renumbered by
//! first appearance, so that equal labels share one coalition bit.
use vstd::prelude::*;
use std::collections::HashMap;
use crate::error::{
    checked_product, count_mismatch, decimal, decimal_text, invalid_configuration,
    is_dimension_mismatch, is_invalid_configuration, Result, ShapError,
};
use crate::masker::SpecialTokenPolicy;

verus! {

/// The distinct labels among the `Some` entries of `labels`, in order of
/// first appearance.
pub open spec fn first_seen(labels: Seq<Option<usize>>) -> Seq<usize>
    decreases labels.len(),
{
    if labels.len() == 0 {
        seq![]
    } else {
        let p = first_seen(labels.drop_last());
        match labels.last() {
            Some(l) => if p.contains(l) {
                p
            } else {
                p.push(l)
            },
            None => p,
        }
    }
}

/// Each unlabelled position stays unlabelled, and each labelled position
/// carries the rank of its label among the labels' first appearances.
pub open spec fn ranks_labels(labels: Seq<Option<usize>>, ranks: Seq<Option<usize>>) -> bool {
    &&& ranks.len() == labels.len()
    &&& forall|i: int|
        0 <= i < labels.len() ==> match #[trigger] labels[i] {
            None => ranks[i] is None,
            Some(l) => ranks[i] matches Some(k) && k < first_seen(labels).len() && first_seen(
                labels,
            )[k as int] == l,
        }
}

/// Every label of `labels`, each wrapped in `Some`.
pub open spec fn all_labelled(labels: Seq<usize>) -> Seq<Option<usize>> {
    labels.map_values(|l: usize| Some(l))
}

/// Token positions labelled by their group, except special pieces when
/// they are preserved.
pub open spec fn token_labels(groups: Seq<usize>, special: Seq<bool>, policy: SpecialTokenPolicy) -> Seq<
    Option<usize>,
> {
    Seq::new(
        groups.len(),
        |i: int|
            if special[i] && policy == SpecialTokenPolicy::Preserve {
                None
            } else {
                Some(groups[i])
            },
    )
}

/// The renumbered labels name distinct groups, and a label is among them
/// exactly when some position carries it: the renumbering is a bijection
/// between the labels used and `0..count`.
pub proof fn lemma_first_seen_distinct(labels: Seq<Option<usize>>)
    ensures
        first_seen(labels).no_duplicates(),
        forall|l: usize|
            first_seen(labels).contains(l) <==> exists|i: int|
                0 <= i < labels.len() && #[trigger] labels[i] == Some(l),
        first_seen(labels).len() <= labels.len(),
    decreases labels.len(),
{
    if labels.len() > 0 {
        let q = labels.drop_last();
        lemma_first_seen_distinct(q);
        let p = first_seen(q);
        assert forall|l: usize|
            first_seen(labels).contains(l) <==> exists|i: int|
                0 <= i < labels.len() && #[trigger] labels[i] == Some(l) by {
            if first_seen(labels).contains(l) {
                if p.contains(l) {
                    let i = choose|i: int| 0 <= i < q.len() && #[trigger] q[i] == Some(l);
                    assert(labels[i] == Some(l));
                } else {
                    assert(first_seen(labels) == p.push(labels.last()->0));
                    let k = choose|k: int| 0 <= k < first_seen(labels).len() && first_seen(labels)[k] == l;
                    assert(k == p.len());
                    assert(labels[labels.len() - 1] == Some(l));
                }
            }
            if exists|i: int| 0 <= i < labels.len() && #[trigger] labels[i] == Some(l) {
                let i = choose|i: int| 0 <= i < labels.len() && #[trigger] labels[i] == Some(l);
                if i < labels.len() - 1 {
                    assert(q[i] == Some(l));
                    assert(p.contains(l));
                    if !(first_seen(labels) == p) {
                        assert(first_seen(labels)[p.index_of(l)] == l);
                    }
                } else {
                    if !p.contains(l) {
                        assert(first_seen(labels)[p.len() as int] == l);
                    }
                }
            }
        }
    }
}

/// The labels first seen in a prefix are a prefix of those first seen in
/// a longer one.
proof fn lemma_first_seen_prefix(labels: Seq<Option<usize>>, i: int, j: int)
    requires
        0 <= i <= j <= labels.len(),
    ensures
        first_seen(labels.take(i)).len() <= first_seen(labels.take(j)).len(),
        first_seen(labels.take(j)).take(first_seen(labels.take(i)).len() as int) == first_seen(
            labels.take(i),
        ),
    decreases j - i,
{
    if i < j {
        lemma_first_seen_prefix(labels, i, j - 1);
        assert(labels.take(j).drop_last() =~= labels.take(j - 1));
    } else {
        assert(first_seen(labels.take(j)).take(first_seen(labels.take(j)).len() as int)
            =~= first_seen(labels.take(j)));
    }
}

/// Renumbers the labels by first appearance and counts the distinct ones;
/// unlabelled positions stay unlabelled.
pub fn normalize_labels(labels: &Vec<Option<usize>>) -> (r: (Vec<Option<usize>>, usize))
    ensures
        ranks_labels(labels@, r.0@),
        r.1 == first_seen(labels@).len(),
{
    broadcast use vstd::std_specs::hash::group_hash_axioms;
    let mut index: HashMap<usize, usize> = HashMap::new();
    let mut out: Vec<Option<usize>> = Vec::new();
    let mut count: usize = 0;
    let mut i: usize = 0;
    while i < labels.len()
        invariant
            i <= labels.len(),
            out@.len() == i,
            count == first_seen(labels@.take(i as int)).len(),
            count <= i,
            forall|l: usize| #[trigger]
                index@.contains_key(l) <==> first_seen(labels@.take(i as int)).contains(l),
            forall|l: usize|
                #[trigger] index@.contains_key(l) ==> index@[l] < count && first_seen(
                    labels@.take(i as int),
                )[index@[l] as int] == l,
            forall|j: int|
                0 <= j < i ==> match #[trigger] labels@[j] {
                    None => out@[j] is None,
                    Some(l) => out@[j] matches Some(k) && k < count && first_seen(
                        labels@.take(i as int),
                    )[k as int] == l,
                },
        decreases labels.len() - i,
    {
        let ghost before = first_seen(labels@.take(i as int));
        assert(labels@.take(i + 1).drop_last() =~= labels@.take(i as int));
        assert(labels@.take(i + 1).last() == labels@[i as int]);
        match labels[i] {
            None => {
                out.push(None);
            },
            Some(l) => {
                match index.get(&l) {
                    Some(k) => {
                        out.push(Some(*k));
                    },
                    None => {
                        index.insert(l, count);
                        out.push(Some(count));
                        count = count + 1;
                    },
                }
            },
        }
        proof {
            let after = first_seen(labels@.take(i + 1));
            assert(after.take(before.len() as int) =~= before) by {
                lemma_first_seen_prefix(labels@, i as int, i + 1);
            }
            assert forall|j: int| 0 <= j < i + 1 implies match #[trigger] labels@[j] {
                None => out@[j] is None,
                Some(l) => out@[j] matches Some(k) && k < count && after[k as int] == l,
            } by {
                if j < i {
                    match labels@[j] {
                        None => {},
                        Some(l) => {
                            let k = out@[j]->0;
                            assert(after[k as int] == after.take(before.len() as int)[k as int]);
                        },
                    }
                }
            }
            assert forall|l: usize| #[trigger] index@.contains_key(l) implies index@[l] < count
                && after[index@[l] as int] == l by {
                let k = index@[l];
                if k < before.len() {
                    assert(after[k as int] == after.take(before.len() as int)[k as int]);
                }
            }
        }
        i = i + 1;
    }
    assert(labels@.take(labels@.len() as int) =~= labels@);
    (out, count)
}

/// The coalition groups of a tokenization: equal group labels share a bit,
/// numbered by first appearance, and special pieces are left out when the
/// policy preserves them. Fails when no group remains.
pub fn token_groups(groups: &Vec<usize>, special: &Vec<bool>, policy: SpecialTokenPolicy) -> (r:
    Result<(Vec<Option<usize>>, usize)>)
    requires
        groups.len() == special.len(),
    ensures
        r is Ok <==> first_seen(token_labels(groups@, special@, policy)).len() > 0,
        r matches Ok((ranks, count)) ==> ranks_labels(token_labels(groups@, special@, policy), ranks@)
            && count == first_seen(token_labels(groups@, special@, policy)).len(),
        r matches Err(e) ==> is_invalid_configuration(
            e,
            "tokenized text masker must expose at least one non-preserved token group"@,
        ),
{
    let preserve = match policy {
        SpecialTokenPolicy::Preserve => true,
        SpecialTokenPolicy::Mask => false,
    };
    let mut labels: Vec<Option<usize>> = Vec::new();
    let mut i: usize = 0;
    while i < groups.len()
        invariant
            i <= groups.len(),
            groups.len() == special.len(),
            preserve == (policy == SpecialTokenPolicy::Preserve),
            labels@ =~= token_labels(groups@, special@, policy).take(i as int),
        decreases groups.len() - i,
    {
        if special[i] && preserve {
            labels.push(None);
        } else {
            labels.push(Some(groups[i]));
        }
        i = i + 1;
    }
    assert(labels@ =~= token_labels(groups@, special@, policy));
    let (ranks, count) = normalize_labels(&labels);
    if count == 0 {
        return Err(
            invalid_configuration(
                "tokenized text masker must expose at least one non-preserved token group",
            ),
        );
    }
    Ok((ranks, count))
}

/// The checked product of three dimensions, multiplied left to right.
proof fn lemma_three_dims(w: usize, h: usize, c: usize)
    ensures
        checked_product(seq![w, h, c]) == if w * h > usize::MAX {
            None::<nat>
        } else if w * h * c > usize::MAX {
            None::<nat>
        } else {
            Some((w * h * c) as nat)
        },
{
    let s3 = seq![w, h, c];
    let s2 = seq![w, h];
    let s1 = seq![w];
    assert(s3.drop_last() =~= s2);
    assert(s2.drop_last() =~= s1);
    assert(s1.drop_last() =~= Seq::<usize>::empty());
    assert(checked_product(Seq::<usize>::empty()) == Some(1nat));
    assert(s1.last() == w);
    assert(checked_product(s1) == Some(w as nat)) by {
        reveal_with_fuel(checked_product, 2);
        assert(1 * (w as nat) == w as nat);
    }
    assert(s2.last() == h);
    assert(s3.last() == c);
    if w * h <= usize::MAX {
        assert(checked_product(s2) == Some((w * h) as nat));
    } else {
        assert(checked_product(s2) is None);
    }
}

/// The image's value count `width * height * channels` when it fits, is
/// positive and equals `n_values`. Overflow is reported first, then a
/// count that is zero or differs from `n_values`.
pub fn image_value_count(width: usize, height: usize, channels: usize, n_values: usize) -> (r:
    Result<usize>)
    ensures
        r is Ok <==> checked_product(seq![width, height, channels]) == Some(n_values as nat)
            && n_values > 0,
        r matches Ok(n) ==> n == n_values,
        checked_product(seq![width, height, channels]) is None ==> r is Err
            && is_invalid_configuration(r->Err_0, "image dimensions overflow"@),
        checked_product(seq![width, height, channels]) matches Some(p) ==> ((p == 0 || p
            != n_values) ==> r is Err && is_dimension_mismatch(
            r->Err_0,
            decimal(p) + " image values"@,
            decimal(n_values as nat),
        )),
{
    proof {
        lemma_three_dims(width, height, channels);
    }
    let expected = match width.checked_mul(height) {
        Some(pixels) => match pixels.checked_mul(channels) {
            Some(v) => v,
            None => {
                return Err(invalid_configuration("image dimensions overflow"));
            },
        },
        None => {
            return Err(invalid_configuration("image dimensions overflow"));
        },
    };
    if expected == 0 || n_values != expected {
        return Err(count_mismatch(expected, " image values", n_values));
    }
    Ok(expected)
}

/// Checks a segmented image's dimensions against its per-pixel segment
/// labels and renumbers the labels by first appearance. Returns the
/// renumbered labels, the number of segments and the image's value count.
pub fn image_segments(width: usize, height: usize, channels: usize, segments: &Vec<usize>) -> (r:
    Result<(Vec<usize>, usize, usize)>)
    ensures
        r is Ok <==> (checked_product(seq![width, height, channels]) matches Some(v) && v > 0
            && segments.len() == width * height),
        r matches Ok((ranks, count, values)) ==> {
            &&& count == first_seen(all_labelled(segments@)).len()
            &&& values == width * height * channels
            &&& ranks@.len() == segments.len()
            &&& forall|i: int|
                0 <= i < segments.len() ==> #[trigger] ranks@[i] < count && first_seen(
                    all_labelled(segments@),
                )[ranks@[i] as int] == segments@[i]
        },
        checked_product(seq![width, height, channels]) is None ==> r is Err
            && is_invalid_configuration(r->Err_0, "image dimensions overflow"@),
        checked_product(seq![width, height, channels]) matches Some(v) && (v == 0 || segments.len()
            != width * height) ==> r is Err && is_dimension_mismatch(
            r->Err_0,
            decimal((width * height) as nat) + " segment labels"@,
            decimal(segments.len() as nat),
        ),
{
    proof {
        lemma_three_dims(width, height, channels);
    }
    let pixels = match width.checked_mul(height) {
        Some(p) => p,
        None => {
            return Err(invalid_configuration("image dimensions overflow"));
        },
    };
    let values = match pixels.checked_mul(channels) {
        Some(v) => v,
        None => {
            return Err(invalid_configuration("image dimensions overflow"));
        },
    };
    if values == 0 || segments.len() != pixels {
        return Err(count_mismatch(pixels, " segment labels", segments.len()));
    }
    let mut labels: Vec<Option<usize>> = Vec::new();
    let mut i: usize = 0;
    while i < segments.len()
        invariant
            i <= segments.len(),
            labels@ =~= all_labelled(segments@).take(i as int),
        decreases segments.len() - i,
    {
        labels.push(Some(segments[i]));
        i = i + 1;
    }
    assert(labels@ =~= all_labelled(segments@));
    let (ranks, count) = normalize_labels(&labels);
    let mut out: Vec<usize> = Vec::new();
    let mut j: usize = 0;
    while j < ranks.len()
        invariant
            j <= ranks.len(),
            labels@ == all_labelled(segments@),
            ranks_labels(labels@, ranks@),
            count == first_seen(labels@).len(),
            out@.len() == j,
            forall|k: int|
                0 <= k < j ==> #[trigger] out@[k] < count && first_seen(labels@)[out@[k] as int]
                    == segments@[k],
        decreases ranks.len() - j,
    {
        assert(labels@[j as int] == Some(segments@[j as int]));
        match ranks[j] {
            Some(k) => {
                out.push(k);
            },
            None => {
                out.push(0);
            },
        }
        j = j + 1;
    }
    Ok((out, count, values))
}

/// Which positions show their own piece: unlabelled ones always, labelled
/// ones when their group is present.
pub open spec fn shows(groups: Seq<Option<usize>>, present: Seq<bool>, i: int) -> bool {
    match groups[i] {
        None => true,
        Some(g) => present[g as int],
    }
}

fn shown_positions(groups: &Vec<Option<usize>>, present: &Vec<bool>) -> (r: Vec<bool>)
    requires
        forall|i: int| 0 <= i < groups.len() ==> (#[trigger] groups@[i] matches Some(g) ==> g
            < present.len()),
    ensures
        r@.len() == groups.len(),
        forall|i: int| 0 <= i < groups.len() ==> #[trigger] r@[i] == shows(groups@, present@, i),
{
    let mut r: Vec<bool> = Vec::new();
    let mut i: usize = 0;
    while i < groups.len()
        invariant
            i <= groups.len(),
            forall|k: int| 0 <= k < groups.len() ==> (#[trigger] groups@[k] matches Some(g) ==> g
                < present.len()),
            r@.len() == i,
            forall|k: int| 0 <= k < i ==> #[trigger] r@[k] == shows(groups@, present@, k),
        decreases groups.len() - i,
    {
        let shown = match groups[i] {
            None => true,
            Some(g) => present[g],
        };
        r.push(shown);
        i = i + 1;
    }
    r
}

/// The positions whose tokenizer piece is kept when text is reconstructed
/// for the coalition `present` over `group_count` groups; a mask of another
/// length is a dimension mismatch.
pub fn reconstruction_shown(groups: &Vec<Option<usize>>, group_count: usize, present: &Vec<bool>) -> (r:
    Result<Vec<bool>>)
    requires
        forall|i: int| 0 <= i < groups.len() ==> (#[trigger] groups@[i] matches Some(g) ==> g
            < group_count),
    ensures
        r is Ok <==> present.len() == group_count,
        r matches Ok(shown) ==> shown@.len() == groups.len() && forall|i: int|
            0 <= i < groups.len() ==> #[trigger] shown@[i] == shows(groups@, present@, i),
        r matches Err(e) ==> is_dimension_mismatch(
            e,
            decimal(group_count as nat) + " token groups"@,
            decimal(present.len() as nat),
        ),
{
    if present.len() != group_count {
        return Err(count_mismatch(group_count, " token groups", present.len()));
    }
    Ok(shown_positions(groups, present))
}

/// The expectation reported by a tokenized mask call of the wrong shape.
pub open spec fn token_mask_expected(n_tokens: nat, group_count: nat) -> Seq<char> {
    decimal(n_tokens) + " token IDs and "@ + decimal(group_count) + " token groups"@
}

/// The finding reported by a tokenized mask call of the wrong shape.
pub open spec fn token_mask_found(sample_len: nat, mask_len: nat) -> Seq<char> {
    "sample "@ + decimal(sample_len) + ", mask "@ + decimal(mask_len)
}

/// The positions of a tokenized sample of `sample_len` IDs that keep their
/// own ID under the coalition `present`; the others take the mask token.
/// The sample must have one ID per position and the mask one flag per group.
pub fn token_mask_shown(
    groups: &Vec<Option<usize>>,
    group_count: usize,
    sample_len: usize,
    present: &Vec<bool>,
) -> (r: Result<Vec<bool>>)
    requires
        forall|i: int| 0 <= i < groups.len() ==> (#[trigger] groups@[i] matches Some(g) ==> g
            < group_count),
    ensures
        r is Ok <==> sample_len == groups.len() && present.len() == group_count,
        r matches Ok(shown) ==> shown@.len() == groups.len() && forall|i: int|
            0 <= i < groups.len() ==> #[trigger] shown@[i] == shows(groups@, present@, i),
        r matches Err(e) ==> is_dimension_mismatch(
            e,
            token_mask_expected(groups.len() as nat, group_count as nat),
            token_mask_found(sample_len as nat, present.len() as nat),
        ),
{
    if sample_len != groups.len() || present.len() != group_count {
        let mut expected = decimal_text(groups.len());
        expected.append(" token IDs and ");
        let g = decimal_text(group_count);
        expected.append(g.as_str());
        expected.append(" token groups");
        let mut found = String::from_str("sample ");
        let s = decimal_text(sample_len);
        found.append(s.as_str());
        found.append(", mask ");
        let m = decimal_text(present.len());
        found.append(m.as_str());
        return Err(ShapError::DimensionMismatch { expected, found });
    }
    Ok(shown_positions(groups, present))
}

/// Every position is below `n`.
pub open spec fn positions_below(positions: Seq<usize>, n: nat) -> bool {
    forall|k: int| 0 <= k < positions.len() ==> #[trigger] positions[k] < n
}

/// Position `k` is the first one at or beyond `n`.
pub open spec fn first_out_of_range(positions: Seq<usize>, n: nat, k: int) -> bool {
    &&& 0 <= k < positions.len()
    &&& positions[k] >= n
    &&& positions_below(positions.take(k), n)
}

/// `f` is `flags` with every listed position set.
pub open spec fn flags_marked(flags: Seq<bool>, positions: Seq<usize>, f: Seq<bool>) -> bool {
    &&& f.len() == flags.len()
    &&& forall|j: int| 0 <= j < flags.len() ==> #[trigger] f[j] == (flags[j] || positions.contains(j as usize))
}

/// Marks the token `positions` as immutable on top of `flags`, one flag
/// per token. The first position at or beyond the token count is an
/// invalid feature index.
pub fn immutable_flags(flags: Vec<bool>, positions: &[usize]) -> (r: Result<Vec<bool>>)
    ensures
        r is Ok <==> positions_below(positions@, flags.len() as nat),
        r matches Ok(f) ==> flags_marked(flags@, positions@, f@),
        r matches Err(e) ==> (exists|k: int|
            first_out_of_range(positions@, flags.len() as nat, k) && e == (
            ShapError::InvalidFeatureIndex { index: positions@[k], n_features: flags.len() })),
{
    let n = flags.len();
    let mut i: usize = 0;
    while i < positions.len()
        invariant
            i <= positions.len(),
            n == flags.len(),
            positions_below(positions@.take(i as int), n as nat),
        decreases positions.len() - i,
    {
        if positions[i] >= n {
            assert(first_out_of_range(positions@, n as nat, i as int));
            return Err(ShapError::InvalidFeatureIndex { index: positions[i], n_features: n });
        }
        assert forall|k: int| 0 <= k < i + 1 implies #[trigger] positions@.take(i + 1)[k] < n by {
            if k < i {
                assert(positions@.take(i + 1)[k] == positions@.take(i as int)[k]);
            }
        }
        i = i + 1;
    }
    assert(positions@.take(positions@.len() as int) =~= positions@);
    let ghost initial = flags@;
    let mut marked = flags;
    let mut i: usize = 0;
    while i < positions.len()
        invariant
            i <= positions.len(),
            n == initial.len(),
            marked@.len() == n,
            positions_below(positions@, n as nat),
            forall|j: int|
                0 <= j < n ==> #[trigger] marked@[j] == (initial[j] || positions@.take(
                    i as int,
                ).contains(j as usize)),
        decreases positions.len() - i,
    {
        let p = positions[i];
        marked.set(p, true);
        assert forall|j: int| 0 <= j < n implies #[trigger] marked@[j] == (initial[j]
            || positions@.take(i + 1).contains(j as usize)) by {
            assert(positions@.take(i + 1) =~= positions@.take(i as int).push(p));
            if j == p {
                assert(positions@.take(i + 1)[i as int] == p);
            }
        }
        i = i + 1;
    }
    assert(positions@.take(positions@.len() as int) =~= positions@);
    Ok(marked)
}

} // verus!
