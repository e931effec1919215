//! Search-side judgement that needs no search itself.

use vstd::prelude::*;
use crate::state::{Ctx, Decision};

verus! {

/// The heuristic guide for the search: its prior over moves is
/// the heuristic one, and it never cuts a rollout short.
#[derive(Clone, Copy, Debug)]
pub struct HeuristicEvaluator;

/// Decisions where searching cannot plausibly pay for itself: revealing
/// Moat, and Sentry's and Bureaucrat's choices between at most two cards.
pub open spec fn spec_is_trivial(d: Decision) -> bool {
    match d.ctx {
        Ctx::MoatReveal => true,
        Ctx::SentryDiscard | Ctx::SentryOrder | Ctx::BureaucratReveal => d.options@.len() <= 2,
        _ => false,
    }
}

/// Whether the heuristic answer is forced or overwhelmingly likely right.
pub fn is_trivial(d: &Decision) -> (r: bool)
    ensures
        r == spec_is_trivial(*d),
{
    match d.ctx {
        Ctx::MoatReveal => true,
        Ctx::SentryDiscard | Ctx::SentryOrder | Ctx::BureaucratReveal => d.options.len() <= 2,
        _ => false,
    }
}

} // verus!
