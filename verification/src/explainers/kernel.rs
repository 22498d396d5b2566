//! Solver choices for Kernel SHAP's constrained weighted least squares.
use vstd::prelude::*;

verus! {

/// Linear solver used by Kernel SHAP's constrained weighted least squares.
#[derive(Debug, Clone, Copy, PartialEq, Eq, Structural)]
pub enum KernelSolver {
    /// Solve of the normal equations.
    NormalEquations,
    /// Householder QR on the weighted design matrix.
    HouseholderQr,
}

impl Default for KernelSolver {
    /// The normal-equations solver.
    fn default() -> (s: Self)
        ensures
            s == KernelSolver::NormalEquations,
    {
        KernelSolver::NormalEquations
    }
}

} // verus!
