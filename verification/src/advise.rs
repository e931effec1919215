//! Answering "here is the game so far: what should I play?": the position a
//! log reaches, and the search's answer put in order for a reader.

use vstd::prelude::*;
use crate::engine::{valid_setup, Game};
use crate::log::{GameLog, LogError};
use crate::state::{same_pending, Decision, GameState, Move};
use vstd::string::StringExecFns;

verus! {

/// A recommendation, with the search's reasoning attached.
pub struct Advice {
    pub decision: Decision,
    pub best: Move,
    /// Visit counts across the ensemble, highest first. Their spread is the
    /// honest measure of how confident the search is.
    pub visits: Vec<(Move, u32)>,
    /// Whose turn number this is, for display.
    pub turn: u32,
}

/// Entries with `v` visits.
pub open spec fn visited(v: u32) -> spec_fn((Move, u32)) -> bool {
    |x: (Move, u32)| x.1 == v
}

/// Visit counts from highest to lowest.
pub open spec fn most_visited_first(s: Seq<(Move, u32)>) -> bool {
    forall|i: int, j: int| 0 <= i < j < s.len() ==> (#[trigger] s[i]).1 >= (#[trigger] s[j]).1
}

/// `r` is `s` ordered from most to least visited, entries with equal counts
/// in the order they came in.
pub open spec fn ranked(r: Seq<(Move, u32)>, s: Seq<(Move, u32)>) -> bool {
    &&& most_visited_first(r)
    &&& forall|v: u32| #[trigger] r.filter(visited(v)) == s.filter(visited(v))
}

/// Nothing passes a test that no entry passes.
proof fn lemma_filter_none(s: Seq<(Move, u32)>, p: spec_fn((Move, u32)) -> bool)
    requires
        forall|i: int| 0 <= i < s.len() ==> !p(#[trigger] s[i]),
    ensures
        s.filter(p) == Seq::<(Move, u32)>::empty(),
    decreases s.len(),
{
    reveal_with_fuel(Seq::<_>::filter, 1);
    if s.len() > 0 {
        lemma_filter_none(s.drop_last(), p);
    }
    assert(s.filter(p) =~= Seq::<(Move, u32)>::empty());
}

/// Filtering a sequence with one more entry at its end.
proof fn lemma_filter_push(s: Seq<(Move, u32)>, x: (Move, u32), p: spec_fn((Move, u32)) -> bool)
    ensures
        s.push(x).filter(p) == if p(x) {
            s.filter(p).push(x)
        } else {
            s.filter(p)
        },
{
    reveal_with_fuel(Seq::<_>::filter, 1);
    assert(s.push(x).drop_last() =~= s);
}

/// Order visit counts from most to least visited, keeping the order of
/// equal counts.
pub fn rank_visits(visits: &Vec<(Move, u32)>) -> (r: Vec<(Move, u32)>)
    ensures
        ranked(r@, visits@),
{
    let mut out: Vec<(Move, u32)> = Vec::new();
    let mut i: usize = 0;
    assert(visits@.take(0) =~= out@);
    while i < visits.len()
        invariant
            i <= visits@.len(),
            ranked(out@, visits@.take(i as int)),
        decreases visits@.len() - i,
    {
        let x = visits[i];
        let mut k: usize = 0;
        while k < out.len() && out[k].1 >= x.1
            invariant
                k <= out@.len(),
                forall|j: int| 0 <= j < k ==> (#[trigger] out@[j]).1 >= x.1,
            decreases out@.len() - k,
        {
            k = k + 1;
        }
        let ghost before = out@;
        out.insert(k, x);
        proof {
            assert(out@ == before.insert(k as int, x));
            assert forall|j: int| k <= j < before.len() implies (#[trigger] before[j]).1 < x.1 by {
                assert(before[k as int].1 < x.1);
                assert(before[k as int].1 >= before[j].1);
            }
            assert forall|a: int, b: int| 0 <= a < b < out@.len() implies (#[trigger] out@[a]).1 >= (#[trigger] out@[b]).1 by {
                if a < k && b == k {
                } else if a < k && b > k {
                    assert(out@[b] == before[b - 1]);
                } else if a == k {
                    assert(out@[b] == before[b - 1]);
                } else if b < k {
                } else {
                    assert(out@[a] == before[a - 1]);
                    assert(out@[b] == before[b - 1]);
                }
            }
            let head = before.take(k as int);
            let tail = before.skip(k as int);
            assert(before =~= head + tail);
            assert(out@ =~= head + seq![x] + tail);
            assert(visits@.take((i + 1) as int) =~= visits@.take(i as int).push(x));
            assert forall|v: u32| #[trigger] out@.filter(visited(v)) == visits@.take((i + 1) as int).filter(visited(v)) by {
                let p = visited(v);
                Seq::filter_distributes_over_add(head + seq![x], tail, p);
                Seq::filter_distributes_over_add(head, seq![x], p);
                Seq::filter_distributes_over_add(head, tail, p);
                lemma_filter_push(visits@.take(i as int), x, p);
                lemma_filter_push(Seq::empty(), x, p);
                assert(Seq::<(Move, u32)>::empty().push(x) =~= seq![x]);
                assert(Seq::<(Move, u32)>::empty().filter(p) =~= Seq::<(Move, u32)>::empty());
                if x.1 == v {
                    assert forall|j: int| 0 <= j < tail.len() implies !p(#[trigger] tail[j]) by {
                        assert(tail[j] == before[k + j]);
                    }
                    lemma_filter_none(tail, p);
                    assert(out@.filter(p) =~= before.filter(p).push(x));
                } else {
                    assert(out@.filter(p) =~= before.filter(p));
                }
            }
        }
        i = i + 1;
    }
    assert(visits@.take(visits@.len() as int) =~= visits@);
    out
}

/// The advice a search's answer makes at a decision: the decision, the
/// move chosen, every move's visits from most to least, and the turn
/// number of the player deciding.
pub fn advice_from_search(state: &GameState, d: &Decision, best: Move, visits: &Vec<(Move, u32)>) -> (r: Advice)
    requires
        d.player < state.players@.len(),
    ensures
        r.decision.player == d.player && r.decision.ctx == d.ctx && r.decision.options@ == d.options@,
        r.best == best,
        ranked(r.visits@, visits@),
        r.turn == state.players@[d.player as int].turns,
{
    Advice { decision: d.clone(), best, visits: rank_visits(visits), turn: state.players[d.player].turns }
}

/// What asking for advice on a finished game says.
pub open spec fn nothing_to_decide() -> Seq<char> {
    "the game is already over; there is nothing to decide"@
}

/// How many moves of a log of `len` moves the advice replays: all of them,
/// or the first `n` when a ply `n` is given.
pub open spec fn advised_ply(len: nat, ply: Option<usize>) -> int {
    match ply {
        Some(n) => if (n as int) < len { n as int } else { len as int },
        None => len as int,
    }
}

/// The position to advise on: the log replayed (only its first `ply` moves
/// when given), and the decision it is parked on. A finished game has
/// nothing to decide.
pub fn position_to_advise(log: &GameLog, ply: Option<usize>) -> (r: Result<(Game, Decision), LogError>)
    ensures
        (r matches Err(LogError::Engine(e))) <==> !valid_setup(log.kingdom@, log.players as nat),
        r matches Err(LogError::Diverged { at, mv }) ==> at < log.moves@.len() && mv == log.moves@[at as int] && match ply {
            Some(n) => at < n,
            None => true,
        },
        r matches Err(LogError::Diverged { at, mv }) ==> exists|s: GameState| #[trigger] crate::engine::played(log.kingdom@,
            log.players as nat, log.seed, log.moves@.take(at as int), s) && !crate::engine::offered(s, mv),
        r matches Err(LogError::Parse(m)) ==> m@ == nothing_to_decide(),
        r matches Err(LogError::Parse(m)) ==> exists|s: GameState| #[trigger] crate::engine::played(log.kingdom@,
            log.players as nat, log.seed, log.moves@.take(advised_ply(log.moves@.len(), ply)), s) && s.pending is None,
        r matches Ok((g, d)) ==> same_pending(g.state.pending, Some(d)) && crate::census::wf(g.state)
            && g.state.players@.len() == log.players,
        r matches Ok((g, d)) ==> crate::engine::played(log.kingdom@, log.players as nat, log.seed,
            log.moves@.take(advised_ply(log.moves@.len(), ply)), g.state),
{
    let game = match ply {
        Some(n) => log.replay_prefix(n),
        None => log.replay(),
    };
    let game = match game {
        Ok(g) => g,
        Err(e) => {
            return Err(e);
        },
    };
    proof {
        assert(log.moves@.take(log.moves@.len() as int) =~= log.moves@);
    }
    let d = match game.decision() {
        Some(d) => d.clone(),
        None => {
            proof {
                assert(crate::engine::played(log.kingdom@, log.players as nat, log.seed,
                    log.moves@.take(advised_ply(log.moves@.len(), ply)), game.state));
            }
            return Err(LogError::Parse(String::from_str("the game is already over; there is nothing to decide")));
        },
    };
    Ok((game, d))
}

} // verus!
