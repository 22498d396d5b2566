//! Kernel SHAP's coalition set: every proper non-empty coalition when the
//! features are few, otherwise a complement-paired sample of distinct ones.
use vstd::prelude::*;
use vstd::arithmetic::power2::{pow2, lemma_pow2_strictly_increases, lemma2_to64};
use vstd::bits::lemma_u64_shl_is_mul;
use std::collections::BTreeSet;
use crate::explainers::coalition_sampler::{
    complement_closed, fed, lemma_closed_paired_but_one, lemma_offer_keeps_pairing, paired_but_one, pairing_kept,
    proper_coalition, CoalitionSampler,
};
use crate::random::{next_u64, seeded_rng};
use crate::error::{
    checked_f64_shape, count_mismatch, decimal, f64_shape_fits, invalid_configuration,
    is_dimension_mismatch, is_invalid_configuration, overflow_message, Result, ShapError,
};

verus! {

/// The mask of all `m` features: `2^m - 1`, saturating at `u64::MAX`.
pub open spec fn full_mask(m: nat) -> int {
    if m < 64 {
        pow2(m) - 1
    } else {
        u64::MAX as int
    }
}

/// How Kernel SHAP obtains its coalitions.
#[derive(Debug, Clone, Copy, PartialEq, Eq, Structural)]
pub enum CoalitionPlan {
    /// Every proper non-empty coalition, `count` of them.
    Exact { count: usize },
    /// `target` distinct coalitions sampled within `full`.
    Sampled { full: u64, target: usize },
}

/// The message for a coalition set too large to allocate.
pub open spec fn coalition_set_overflow() -> Seq<char> {
    overflow_message("Kernel SHAP coalition set"@)
}

/// The sampled coalition count: `nsamples`, capped by the number `2^m - 2`
/// of proper non-empty coalitions when `m < 63`, itself capped at
/// `usize::MAX`.
pub open spec fn sample_target(m: nat, nsamples: nat) -> nat {
    let cap: nat = if m < 63 {
        if pow2(m) - 2 > usize::MAX {
            usize::MAX as nat
        } else {
            (pow2(m) - 2) as nat
        }
    } else {
        usize::MAX as nat
    };
    if nsamples <= cap {
        nsamples
    } else {
        cap
    }
}

/// `u64::MAX >> (64 - m)` is `2^m - 1`.
proof fn lemma_full_mask(m: u64)
    requires
        0 < m < 64,
    ensures
        u64::MAX >> ((64 - m) as u64) == full_mask(m as nat),
        pow2(m as nat) <= u64::MAX,
        pow2(m as nat) >= 2,
{
    lemma2_to64();
    lemma_pow2_strictly_increases(m as nat, 64);
    lemma_pow2_strictly_increases(0, m as nat);
    lemma_u64_shl_is_mul(1, m);
    assert(u64::MAX >> ((64 - m) as u64) == ((1u64 << m) - 1) as u64) by (bit_vector)
        requires
            0 < m < 64,
    ;
}

/// Decides how Kernel SHAP obtains the coalitions of `m > 0` features:
/// exactly when `m < 63` and `m` is within the exact threshold, otherwise
/// by sampling. Sizes that cannot be addressed are refused.
pub fn plan_kernel_coalitions(m: usize, nsamples: usize, exact_threshold: usize) -> (r: Result<
    CoalitionPlan,
>)
    requires
        m > 0,
    ensures
        nsamples == 0 ==> r is Err && is_invalid_configuration(r->Err_0, "nsamples must be positive"@),
        nsamples > 0 && m < 63 && m <= exact_threshold ==> {
            let count = pow2(m as nat) - 2;
            &&& count > usize::MAX ==> r is Err && is_invalid_configuration(
                r->Err_0,
                "exact Kernel SHAP coalition count exceeds usize"@,
            )
            &&& count <= usize::MAX && !f64_shape_fits(seq![count as usize]) ==> r is Err
                && is_invalid_configuration(r->Err_0, coalition_set_overflow())
            &&& count <= usize::MAX && f64_shape_fits(seq![count as usize]) ==> r == Ok::<
                CoalitionPlan,
                crate::error::ShapError,
            >(CoalitionPlan::Exact { count: count as usize })
        },
        nsamples > 0 && !(m < 63 && m <= exact_threshold) ==> {
            let target = sample_target(m as nat, nsamples as nat);
            &&& !f64_shape_fits(seq![target as usize]) ==> r is Err && is_invalid_configuration(
                r->Err_0,
                coalition_set_overflow(),
            )
            &&& f64_shape_fits(seq![target as usize]) ==> r == Ok::<
                CoalitionPlan,
                crate::error::ShapError,
            >(CoalitionPlan::Sampled { full: full_mask(m as nat) as u64, target: target as usize })
        },
{
    if nsamples == 0 {
        return Err(invalid_configuration("nsamples must be positive"));
    }
    if m < 63 && m <= exact_threshold {
        let mm = m as u64;
        proof {
            lemma_full_mask(mm);
        }
        let all: u64 = u64::MAX >> (64 - mm);
        let count64 = all - 1;
        if count64 > usize::MAX as u64 {
            return Err(invalid_configuration("exact Kernel SHAP coalition count exceeds usize"));
        }
        let count = count64 as usize;
        let dims: Vec<usize> = vec![count];
        assert(dims@ == seq![count]);
        if let Err(e) = checked_f64_shape(dims.as_slice(), "Kernel SHAP coalition set") {
            return Err(e);
        }
        return Ok(CoalitionPlan::Exact { count });
    }
    let full: u64 = if m < 64 {
        let mm = m as u64;
        proof {
            lemma_full_mask(mm);
        }
        u64::MAX >> (64 - mm)
    } else {
        u64::MAX
    };
    let cap: usize = if m < 63 {
        let count64 = full - 1;
        if count64 > usize::MAX as u64 {
            usize::MAX
        } else {
            count64 as usize
        }
    } else {
        usize::MAX
    };
    let target = if nsamples <= cap {
        nsamples
    } else {
        cap
    };
    let dims: Vec<usize> = vec![target];
    assert(dims@ == seq![target]);
    if let Err(e) = checked_f64_shape(dims.as_slice(), "Kernel SHAP coalition set") {
        return Err(e);
    }
    Ok(CoalitionPlan::Sampled { full, target })
}

/// Every proper non-empty coalition of the features below `full`'s
/// `count + 1` in increasing order: the masks `1..=count`.
pub fn exact_coalitions(count: usize) -> (r: Vec<u64>)
    ensures
        r@.len() == count,
        forall|i: int| 0 <= i < count ==> #[trigger] r@[i] == i + 1,
{
    let mut r: Vec<u64> = Vec::new();
    let mut i: usize = 0;
    while i < count
        invariant
            i <= count,
            r@.len() == i,
            forall|k: int| 0 <= k < i ==> #[trigger] r@[k] == k + 1,
        decreases count - i,
    {
        proof {
            assert(usize::MAX <= u64::MAX);
        }
        r.push((i as u64) + 1);
        i = i + 1;
    }
    r
}

/// Checks a Kernel SHAP input of `rows` by `cols` against a masker of `m`
/// features reading `n_input` columns, in this order: some rows
/// (`EmptyData`), fewer than 63 features, an acceptable ridge (`ridge_ok`:
/// finite and non-negative), then `n_input` columns
/// (`"<n_input> input features"` against `"<cols>"`).
pub fn check_kernel_input(m: usize, n_input: usize, rows: usize, cols: usize, ridge_ok: bool) -> (r:
    Result<()>)
    ensures
        r is Ok <==> rows > 0 && m < 63 && ridge_ok && cols == n_input,
        rows == 0 ==> r == Err::<(), ShapError>(ShapError::EmptyData),
        rows > 0 && m >= 63 ==> r is Err && is_invalid_configuration(
            r->Err_0,
            "Kernel SHAP currently supports at most 62 features"@,
        ),
        rows > 0 && m < 63 && !ridge_ok ==> r is Err && is_invalid_configuration(
            r->Err_0,
            "ridge must be finite and non-negative"@,
        ),
        rows > 0 && m < 63 && ridge_ok && cols != n_input ==> r is Err && is_dimension_mismatch(
            r->Err_0,
            decimal(n_input as nat) + " input features"@,
            decimal(cols as nat),
        ),
{
    if rows == 0 {
        return Err(ShapError::EmptyData);
    }
    if m >= 63 {
        return Err(invalid_configuration("Kernel SHAP currently supports at most 62 features"));
    }
    if !ridge_ok {
        return Err(invalid_configuration("ridge must be finite and non-negative"));
    }
    if cols != n_input {
        return Err(count_mismatch(n_input, " input features", cols));
    }
    Ok(())
}

/// `v` is a Kernel SHAP sample of `target` coalitions within `full`: in
/// increasing order, each proper, at most one without its complement, and
/// exactly the sample that feeding some sequence of draws produces.
pub open spec fn kernel_sample(v: Seq<u64>, full: u64, target: nat) -> bool {
    &&& v.len() == target
    &&& forall|i: int, j: int| 0 <= i < j < v.len() ==> v[i] < v[j]
    &&& forall|i: int| 0 <= i < v.len() ==> proper_coalition(#[trigger] v[i], full)
    &&& paired_but_one(v.to_set(), full)
    &&& exists|draws: Seq<u64>| #[trigger] fed(full, target, draws) == v.to_set()
}

/// The coalitions Kernel SHAP regresses on for `m > 0` features, besides the
/// empty and full ones. As [`plan_kernel_coalitions`] decides: every proper
/// non-empty coalition in increasing order, or a sample drawn from a
/// generator seeded with `seed`, fed one 64-bit draw at a time to a
/// [`CoalitionSampler`] until it holds its target. Which coalitions are
/// drawn depends on the generator's stream; the draws stop after
/// `u64::MAX` of them, with an error, should the target still not be met.
pub fn kernel_coalitions(m: usize, nsamples: usize, exact_threshold: usize, seed: u64) -> (r: Result<
    Vec<u64>,
>)
    requires
        m > 0,
    ensures
        nsamples == 0 ==> r is Err && is_invalid_configuration(r->Err_0, "nsamples must be positive"@),
        nsamples > 0 && m < 63 && m <= exact_threshold ==> {
            let count = pow2(m as nat) - 2;
            &&& count > usize::MAX ==> r is Err && is_invalid_configuration(
                r->Err_0,
                "exact Kernel SHAP coalition count exceeds usize"@,
            )
            &&& count <= usize::MAX && !f64_shape_fits(seq![count as usize]) ==> r is Err
                && is_invalid_configuration(r->Err_0, coalition_set_overflow())
            &&& count <= usize::MAX && f64_shape_fits(seq![count as usize]) ==> (r matches Ok(v) && v@
                == Seq::new(count as nat, |i: int| (i + 1) as u64))
        },
        nsamples > 0 && !(m < 63 && m <= exact_threshold) ==> {
            let target = sample_target(m as nat, nsamples as nat);
            &&& !f64_shape_fits(seq![target as usize]) ==> r is Err && is_invalid_configuration(
                r->Err_0,
                coalition_set_overflow(),
            )
            &&& f64_shape_fits(seq![target as usize]) && r is Ok ==> kernel_sample(
                r->Ok_0@,
                full_mask(m as nat) as u64,
                target,
            )
            &&& f64_shape_fits(seq![target as usize]) && r is Err ==> is_invalid_configuration(
                r->Err_0,
                "Kernel SHAP coalition sampling exhausted its draws"@,
            )
        },
{
    let plan = match plan_kernel_coalitions(m, nsamples, exact_threshold) {
        Ok(p) => p,
        Err(e) => {
            return Err(e);
        },
    };
    match plan {
        CoalitionPlan::Exact { count } => {
            let v = exact_coalitions(count);
            proof {
                assert(nsamples > 0 && m < 63 && m <= exact_threshold);
                lemma2_to64();
                if m > 1 {
                    lemma_pow2_strictly_increases(1, m as nat);
                }
                assert(pow2(m as nat) >= 2);
                assert(count as int == pow2(m as nat) - 2);
                assert(v@ =~= Seq::new((pow2(m as nat) - 2) as nat, |i: int| (i + 1) as u64));
            }
            Ok(v)
        },
        CoalitionPlan::Sampled { full, target } => {
            let mut sampler = CoalitionSampler::new(full, target);
            let mut rng = seeded_rng(seed);
            let mut draws: u64 = 0;
            let ghost mut drawn: Seq<u64> = Seq::empty();
            proof {
                assert(sampler.spec_chosen() =~= fed(full, target as nat, drawn));
            }
            while !sampler.is_done()
                invariant
                    nsamples > 0,
                    !(m < 63 && m <= exact_threshold),
                    target == sample_target(m as nat, nsamples as nat),
                    full == full_mask(m as nat) as u64,
                    f64_shape_fits(seq![target as usize]),
                    sampler.wf(),
                    sampler.spec_full() == full,
                    sampler.spec_target() == target,
                    sampler.spec_chosen() == fed(full, target as nat, drawn),
                    pairing_kept(sampler.spec_chosen(), full, target as nat),
                decreases u64::MAX - draws,
            {
                if draws == u64::MAX {
                    return Err(invalid_configuration("Kernel SHAP coalition sampling exhausted its draws"));
                }
                let raw = next_u64(&mut rng);
                proof {
                    lemma_offer_keeps_pairing(sampler.spec_chosen(), full, target as nat, raw);
                }
                let ghost before = drawn;
                sampler.offer(raw);
                proof {
                    drawn = drawn.push(raw);
                    assert(drawn.drop_last() =~= before);
                }
                draws = draws + 1;
            }
            let v = sampler.coalitions();
            proof {
                let c = sampler.spec_chosen();
                assert(c.len() == target);
                if complement_closed(c, full) {
                    lemma_closed_paired_but_one(c, full);
                }
                assert(fed(full, target as nat, drawn) == v@.to_set());
                assert forall|i: int| 0 <= i < v@.len() implies proper_coalition(#[trigger] v@[i], full) by {
                    assert(v@.to_set().contains(v@[i]));
                }
            }
            Ok(v)
        },
    }
}

} // verus!
