//! Output-space transforms applied while enforcing local accuracy.
use vstd::prelude::*;

verus! {

/// Output-space transform used while enforcing SHAP local accuracy.
#[derive(Debug, Clone, Copy, PartialEq, Eq, Structural)]
pub enum Link {
    Identity,
    Logit,
}

impl Default for Link {
    /// The identity transform.
    fn default() -> (l: Self)
        ensures
            l == Link::Identity,
    {
        Link::Identity
    }
}

} // verus!
