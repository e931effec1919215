//! Something that can answer decisions.

use vstd::prelude::*;
use crate::policy::bounded_decks;
use crate::state::{Decision, GameState, Move};

verus! {

/// Something that can answer decisions. Agents are handed the full game
/// state; the heuristic agents restrict themselves to what their player could
/// legitimately know.
pub trait Agent {
    /// The move to answer `decision` with.
    fn decide(&mut self, state: &GameState, decision: &Decision) -> (m: Move)
        requires
            decision.options@.len() > 0,
            decision.player < state.players@.len(),
            bounded_decks(*state),
    ;

    /// The agent's display name.
    fn name(&self) -> String;

    /// Called once at the start of each game so stateful agents can reset.
    fn reset(&mut self) {
    }
}

} // verus!
