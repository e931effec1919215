//! Training settings that carry no arithmetic of their own.

use vstd::prelude::*;

verus! {

/// Which update rule training uses.
#[derive(Clone, Copy, PartialEq, Eq, Debug, Structural)]
pub enum Optimizer {
    /// `w -= lr * g`. No state, no adaptation.
    Sgd,
    /// Per-parameter adaptive step sizes with momentum.
    Adam,
}

} // verus!
