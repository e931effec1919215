//! A game in the browser: the human's moves by index, undo, the AI's moves
//! with a short narration, and the views the page polls. The search that
//! picks the AI's move runs outside; the session takes its answer.

use vstd::prelude::*;
use crate::card::Card;
use crate::census::{same_table, settled, wf};
use crate::engine::{valid_setup, Game};
use crate::log::{log_text, move_text, move_to_text, GameLog};
use crate::match_runner::{fill_pool, filled};
use crate::rng::{seeded_state, shuffle_result, Rng};
use crate::prior::{find_treasure_play, first_treasure_play};
use crate::state::{same_game, same_pending, Ctx, Decision, GameState, Move};
use crate::text::{chars_to_string, push_str, to_chars};
use crate::web::{escaped, first_picks, kingdom_from_picks};

verus! {

/// Most snapshots kept for undo.
pub const MAX_UNDO: usize = 300;

/// Most lines of the AI's narration kept.
pub const MAX_AI_LOG: usize = 40;

/// What undo goes back to: the position before the human's decision, the
/// narration shown then, and how many moves had been played.
pub struct Snapshot {
    pub state: GameState,
    pub last_ai: Vec<String>,
    pub history_len: usize,
}

/// A two-player game between the human and the AI.
pub struct Session {
    pub game: Game,
    /// Kept beside the game because a log needs it to replay.
    pub kingdom: Vec<Card>,
    pub seed: u64,
    /// The human's seat.
    pub human: usize,
    /// Every move played so far, with the seat that played it.
    pub history: Vec<(usize, Move)>,
    /// What the AI did since the human last looked.
    pub last_ai: Vec<String>,
    /// One snapshot per human decision, newest last.
    pub undo: Vec<Snapshot>,
}

/// A game state the engine can go on from, with two players, parked on a
/// real decision unless the game is over.
pub open spec fn playable(s: GameState) -> bool {
    wf(s) && settled(s) && s.players@.len() == 2
}

impl Session {
    /// What every session keeps: a playable game, the human in one of the
    /// two seats, and snapshots that are playable and no further back in
    /// the history than the moves played.
    pub open spec fn inv(&self) -> bool {
        &&& playable(self.game.state)
        &&& self.human < 2
        &&& forall|i: int| 0 <= i < self.undo@.len() ==> playable((#[trigger] self.undo@[i]).state)
            && self.undo@[i].history_len <= self.history@.len()
        &&& forall|i: int, j: int| 0 <= i < j < self.undo@.len() ==> (#[trigger] self.undo@[i]).history_len
            <= (#[trigger] self.undo@[j]).history_len
    }

    /// The decision the game waits on, if the game goes on.
    pub open spec fn waiting(&self) -> Option<Decision> {
        if self.game.state.over {
            None
        } else {
            self.game.state.pending
        }
    }
}

/// Copies of a playable state are playable.
proof fn lemma_copy_playable(a: GameState, b: GameState)
    requires
        playable(a),
        same_game(b, a),
    ensures
        playable(b),
{
    assert forall|i: int| 0 <= i < b.stack@.len() implies crate::census::frame_ok(#[trigger] b.stack@[i], b.players@.len()) by {
        assert(b.stack@[i] == a.stack@[i]);
    }
    assert forall|i: int| 0 <= i < b.players@.len() implies (#[trigger] b.players@[i]).known_top <= b.players@[i].deck@.len() by {
        assert(crate::state::same_player(b.players@[i], a.players@[i]));
    }
}

/// A snapshot of the session as it is now.
pub open spec fn snapshot_of(s: Session, snap: Snapshot) -> bool {
    &&& same_game(snap.state, s.game.state)
    &&& snap.last_ai@ == s.last_ai@
    &&& snap.history_len == s.history@.len()
}

/// What a successful move by index leaves: the move is recorded, and when
/// the human made it, the position before it is saved for undo (the oldest
/// snapshot is dropped beyond the limit).
pub open spec fn applied(old: Session, index: int, new: Session) -> bool {
    let d = old.waiting().unwrap();
    let mv = d.options@[index];
    &&& new.history@ == old.history@.push((d.player, mv))
    &&& new.last_ai@ == old.last_ai@
    &&& new.human == old.human
    &&& new.kingdom@ == old.kingdom@
    &&& new.seed == old.seed
    &&& if d.player == old.human {
        &&& new.undo@.len() > 0
        &&& snapshot_of(old, new.undo@.last())
        &&& new.undo@.drop_last() == if old.undo@.len() + 1 > MAX_UNDO {
            old.undo@.drop_first()
        } else {
            old.undo@
        }
    } else {
        new.undo@ == old.undo@
    }
}

/// What a successful undo leaves: the newest snapshot's position and
/// narration, the history cut back to its length, and the snapshot gone.
pub open spec fn undone(old: Session, new: Session) -> bool {
    let snap = old.undo@.last();
    &&& same_game(new.game.state, snap.state)
    &&& new.last_ai@ == snap.last_ai@
    &&& new.history@ == old.history@.take(snap.history_len as int)
    &&& new.undo@ == old.undo@.drop_last()
    &&& new.human == old.human
    &&& new.kingdom@ == old.kingdom@
    &&& new.seed == old.seed
}

/// The narration after the AI played `mv`: the move's text, when the AI had
/// a real choice, with the oldest line dropped beyond the limit.
pub open spec fn narrated(old: Seq<String>, had_choice: bool, mv: Move, new: Seq<String>) -> bool {
    if had_choice {
        new.len() == (if old.len() + 1 > MAX_AI_LOG { old.len() } else { old.len() + 1 }) && new.last()@ == move_text(mv)
            && new.drop_last() == if old.len() + 1 > MAX_AI_LOG {
            old.drop_first()
        } else {
            old
        }
    } else {
        new == old
    }
}

/// Every move of the history, without the seats.
pub open spec fn history_moves(h: Seq<(usize, Move)>) -> Seq<Move> {
    h.map_values(|e: (usize, Move)| e.1)
}

/// One history entry as JSON: whether the human played it, and the move.
pub open spec fn history_entry(e: (usize, Move), human: usize) -> Seq<char> {
    "{\"you\":"@ + (if e.0 == human {
        "true"@
    } else {
        "false"@
    }) + ",\"label\":\""@ + escaped(move_text(e.1)) + "\"}"@
}

/// History entries separated by commas.
pub open spec fn history_entries(h: Seq<(usize, Move)>, human: usize) -> Seq<char>
    decreases h.len(),
{
    if h.len() == 0 {
        Seq::empty()
    } else if h.len() == 1 {
        history_entry(h[0], human)
    } else {
        history_entries(h.drop_last(), human) + ","@ + history_entry(h.last(), human)
    }
}

impl Session {
    /// Start a game: the kingdom the picks make, filled at random from the
    /// seed; the human in the first seat or the second. `None` when the
    /// engine refuses the kingdom (picks that are not kingdom cards).
    pub fn start(picks: &[Card], seed: u64, human_first: bool) -> (r: Option<Session>)
        ensures
            ({
                let k = first_picks(picks@);
                let sh = shuffle_result(seeded_state(seed), fill_pool(k));
                match r {
                    Some(s) => {
                        &&& s.inv()
                        &&& settled(s.game.state)
                        &&& s.kingdom@.to_multiset() == filled(k, sh.1).to_multiset()
                        &&& crate::engine::sorted_by_index(s.kingdom@)
                        &&& s.seed == seed
                        &&& s.human == if human_first { 0usize } else { 1usize }
                        &&& s.history@.len() == 0 && s.last_ai@.len() == 0 && s.undo@.len() == 0
                    },
                    None => !(forall|i: int| 0 <= i < picks@.len() ==> crate::card::is_kingdom(#[trigger] picks@[i])),
                }
            }),
    {
        let mut krng = Rng::new(seed);
        let kingdom = kingdom_from_picks(picks, &mut krng);
        let game = match Game::new(kingdom.as_slice(), 2, seed) {
            Ok(g) => g,
            Err(_) => {
                return None;
            },
        };
        Some(Session {
            game,
            kingdom,
            seed,
            human: if human_first { 0 } else { 1 },
            history: Vec::new(),
            last_ai: Vec::new(),
            undo: Vec::new(),
        })
    }

    /// Whether the game has finished.
    pub fn is_over(&self) -> (r: bool)
        ensures
            r == self.game.state.over,
    {
        self.game.is_over()
    }

    /// Whether the human is the one to choose now.
    pub fn human_to_move(&self) -> (r: bool)
        ensures
            r == (self.waiting() matches Some(d) && d.player == self.human),
    {
        if self.game.is_over() {
            return false;
        }
        match self.game.decision() {
            Some(d) => d.player == self.human,
            None => false,
        }
    }

    /// The decision the AI has to make now, if it is the AI's turn.
    pub fn ai_decision(&self) -> (r: Option<Decision>)
        ensures
            match r {
                Some(d) => self.waiting() matches Some(w) && w.player != self.human && same_pending(Some(d), Some(w)),
                None => !(self.waiting() matches Some(w) && w.player != self.human),
            },
    {
        if self.game.is_over() {
            return None;
        }
        match self.game.decision() {
            Some(d) => if d.player != self.human {
                Some(d.clone())
            } else {
                None
            },
            None => None,
        }
    }

    /// How many decisions can still be taken back.
    pub fn undo_depth(&self) -> (r: usize)
        ensures
            r == self.undo@.len(),
    {
        self.undo.len()
    }

    /// Forget the AI's narration, so the page shows only what happened
    /// since the human last acted.
    pub fn clear_log(&mut self)
        requires
            old(self).inv(),
        ensures
            final(self).inv(),
            final(self).last_ai@.len() == 0,
            final(self).game == old(self).game,
            final(self).history@ == old(self).history@,
            final(self).undo@ == old(self).undo@,
            final(self).human == old(self).human,
    {
        self.last_ai = Vec::new();
    }

    /// A snapshot of the session as it is now.
    fn snapshot(&self) -> (r: Snapshot)
        requires
            self.inv(),
        ensures
            snapshot_of(*self, r),
            playable(r.state),
    {
        let state = self.game.state.clone();
        let last_ai = self.last_ai.clone();
        proof {
            lemma_copy_playable(self.game.state, state);
        }
        assert(last_ai@ =~= self.last_ai@);
        Snapshot { state, last_ai, history_len: self.history.len() }
    }

    /// Play the option at `index` of the decision the game waits on. The
    /// index is checked against the engine's own options, since the page
    /// and the engine can drift apart; anything else is refused and changes
    /// nothing. The position before a human decision is saved for undo.
    pub fn apply_index(&mut self, index: usize) -> (r: bool)
        requires
            old(self).inv(),
        ensures
            final(self).inv(),
            r <==> (old(self).waiting() matches Some(d) && index < d.options@.len()),
            r ==> applied(*old(self), index as int, *final(self)),
            !r ==> *final(self) == *old(self),
            r ==> settled(final(self).game.state),
    {
        if self.game.is_over() {
            return false;
        }
        let d = match self.game.decision() {
            Some(d) => d.clone(),
            None => {
                return false;
            },
        };
        if index >= d.options.len() {
            return false;
        }
        let mv = d.options[index];
        let ghost before = *self;
        if d.player == self.human {
            let snap = self.snapshot();
            self.undo.push(snap);
            if self.undo.len() > MAX_UNDO {
                self.undo.remove(0);
            }
        }
        let ghost mid = self.game.state;
        assert(mid.pending.unwrap().options@.contains(mv));
        let res = self.game.apply(mv);
        match res {
            Ok(()) => {},
            Err(_) => {
                return false;
            },
        }
        self.history.push((d.player, mv));
        proof {
            assert(self.undo@.len() > 0 ==> self.undo@.drop_last() =~= self.undo@.subrange(0, self.undo@.len() - 1));
            if d.player == before.human {
                let pushed = before.undo@.push(self.undo@.last());
                if before.undo@.len() + 1 > MAX_UNDO {
                    assert(self.undo@ =~= pushed.drop_first());
                    assert(self.undo@.drop_last() =~= before.undo@.drop_first());
                } else {
                    assert(self.undo@.drop_last() =~= before.undo@);
                }
            }
            assert forall|i: int| 0 <= i < self.undo@.len() implies playable((#[trigger] self.undo@[i]).state)
                && self.undo@[i].history_len <= self.history@.len() by {
                if d.player == before.human {
                    if before.undo@.len() + 1 > MAX_UNDO {
                        if i + 1 < before.undo@.len() {
                            assert(self.undo@[i] == before.undo@[i + 1]);
                        }
                    } else if i < before.undo@.len() {
                        assert(self.undo@[i] == before.undo@[i]);
                    }
                } else {
                    assert(self.undo@[i] == before.undo@[i]);
                }
            }
        }
        true
    }

    /// Take back the last human decision, along with everything played
    /// since: the saved position and narration come back, the history is
    /// cut back to where it was, and the snapshot is used up. The position
    /// includes the shuffle, so playing the same move again draws the same
    /// cards.
    pub fn undo(&mut self) -> (r: bool)
        requires
            old(self).inv(),
        ensures
            final(self).inv(),
            r <==> old(self).undo@.len() > 0,
            r ==> undone(*old(self), *final(self)),
            !r ==> *final(self) == *old(self),
    {
        let ghost before = *self;
        if self.undo.len() == 0 {
            return false;
        }
        match self.undo.pop() {
            None => false,
            Some(snap) => {
                proof {
                    assert(before.undo@.last() == snap);
                    assert(playable(snap.state));
                }
                self.game.state = snap.state;
                self.last_ai = snap.last_ai;
                self.history.truncate(snap.history_len);
                proof {
                    assert(same_game(self.game.state, snap.state)) by {
                        assert(self.game.state == snap.state);
                        assert forall|i: int| 0 <= i < self.game.state.players@.len() implies crate::state::same_player(
                            #[trigger] self.game.state.players@[i],
                            snap.state.players@[i],
                        ) by {}
                    }
                    assert forall|i: int| 0 <= i < self.undo@.len() implies playable((#[trigger] self.undo@[i]).state)
                        && self.undo@[i].history_len <= self.history@.len() by {
                        assert(self.undo@[i] == before.undo@[i]);
                        assert(before.undo@[i].history_len <= before.undo@[before.undo@.len() - 1].history_len);
                    }
                    assert forall|i: int, j: int| 0 <= i < j < self.undo@.len() implies (#[trigger] self.undo@[i]).history_len
                        <= (#[trigger] self.undo@[j]).history_len by {
                        assert(self.undo@[i] == before.undo@[i]);
                        assert(self.undo@[j] == before.undo@[j]);
                    }
                }
                true
            },
        }
    }

    /// Play the move the AI's search chose, if it is the AI's turn and the
    /// move is one of its options; record it, and narrate it when the AI
    /// had a real choice (a forced move reveals nothing at a real table).
    pub fn record_ai_move(&mut self, mv: Move) -> (r: bool)
        requires
            old(self).inv(),
        ensures
            final(self).inv(),
            r <==> (old(self).waiting() matches Some(d) && d.player != old(self).human && d.options@.contains(mv)),
            r ==> ({
                let d = old(self).waiting().unwrap();
                &&& final(self).history@ == old(self).history@.push((d.player, mv))
                &&& narrated(old(self).last_ai@, d.options@.len() > 1, mv, final(self).last_ai@)
                &&& final(self).undo@ == old(self).undo@
                &&& final(self).human == old(self).human
                &&& settled(final(self).game.state)
            }),
            !r ==> *final(self) == *old(self),
    {
        let d = match self.ai_decision() {
            Some(d) => d,
            None => {
                return false;
            },
        };
        if !crate::engine::contains_move(&d.options, mv) {
            return false;
        }
        let ghost before = *self;
        match self.game.apply(mv) {
            Ok(()) => {},
            Err(_) => {
                return false;
            },
        }
        if d.options.len() > 1 {
            self.last_ai.push(move_to_text(mv));
            if self.last_ai.len() > MAX_AI_LOG {
                self.last_ai.remove(0);
            }
            proof {
                let pushed = before.last_ai@.push(self.last_ai@.last());
                if before.last_ai@.len() + 1 > MAX_AI_LOG {
                    assert(self.last_ai@.drop_last() =~= before.last_ai@.drop_first());
                } else {
                    assert(self.last_ai@.drop_last() =~= before.last_ai@);
                }
            }
        }
        self.history.push((d.player, mv));
        proof {
            assert forall|i: int| 0 <= i < self.undo@.len() implies playable((#[trigger] self.undo@[i]).state)
                && self.undo@[i].history_len <= self.history@.len() by {
                assert(self.undo@[i] == before.undo@[i]);
            }
        }
        true
    }

    /// The game so far as a log: the kingdom, the seed and every move, so
    /// any position can be rebuilt and the AI asked about it later.
    pub fn log_text(&self) -> (r: String)
        ensures
            r@ == log_text(self.kingdom@, 2, self.seed as nat, history_moves(self.history@)),
    {
        let mut moves: Vec<Move> = Vec::new();
        let mut i: usize = 0;
        while i < self.history.len()
            invariant
                i <= self.history@.len(),
                moves@ == history_moves(self.history@.take(i as int)),
            decreases self.history@.len() - i,
        {
            moves.push(self.history[i].1);
            assert(history_moves(self.history@.take((i + 1) as int)) =~= history_moves(self.history@.take(i as int)).push(
                self.history@[i as int].1,
            ));
            i = i + 1;
        }
        assert(self.history@.take(self.history@.len() as int) =~= self.history@);
        let mut log = GameLog::new(self.kingdom.clone(), 2, self.seed);
        log.moves = moves;
        log.to_text()
    }

    /// Every move so far, with whether the human made it, as a JSON array
    /// for the on-screen log.
    #[verifier::rlimit(40)]
    pub fn history_json(&self) -> (r: String)
        ensures
            r@ == "["@ + history_entries(self.history@, self.human) + "]"@,
    {
        let mut out: Vec<char> = Vec::new();
        push_str(&mut out, "[");
        let ghost head = out@;
        let mut i: usize = 0;
        while i < self.history.len()
            invariant
                i <= self.history@.len(),
                head == "["@,
                out@ == head + history_entries(self.history@.take(i as int), self.human),
            decreases self.history@.len() - i,
        {
            let ghost before = out@;
            if i > 0 {
                push_str(&mut out, ",");
            }
            let (p, mv) = self.history[i];
            push_str(&mut out, "{\"you\":");
            if p == self.human {
                push_str(&mut out, "true");
            } else {
                push_str(&mut out, "false");
            }
            push_str(&mut out, ",\"label\":\"");
            crate::web::push_escaped_text(&mut out, move_to_text(mv).as_str());
            push_str(&mut out, "\"}");
            proof {
                let t = self.history@.take((i + 1) as int);
                assert(t.drop_last() =~= self.history@.take(i as int));
                assert(t.last() == (p, mv));
                if i == 0 {
                    assert(before =~= head + Seq::<char>::empty());
                }
                assert(out@ =~= head + history_entries(t, self.human));
            }
            i = i + 1;
        }
        assert(self.history@.take(self.history@.len() as int) =~= self.history@);
        push_str(&mut out, "]");
        assert(out@ =~= "["@ + history_entries(self.history@, self.human) + "]"@);
        chars_to_string(&out)
    }
}


/// Whether the human is in the buy phase with a Treasure left to play.
pub open spec fn treasure_turn(s: Session) -> bool {
    s.waiting() matches Some(d) && d.player == s.human && d.ctx == Ctx::BuyPhase && first_treasure_play(d.options@) is Some
}

/// Most Treasures one call plays: one more than the human's hand at the
/// start (playing a Treasure never adds a card to the hand, so this never
/// cuts a batch short).
pub open spec fn treasure_budget(s: Session) -> nat {
    let n = s.game.state.players@[s.human as int].hand@.len() + 1;
    if n > u32::MAX { u32::MAX as nat } else { n }
}

impl Session {
    /// The Treasure play the human would make now, if any.
    fn next_treasure(&self) -> (r: Option<Move>)
        requires
            self.inv(),
        ensures
            r is Some <==> treasure_turn(*self),
            r matches Some(m) ==> self.waiting().unwrap().options@.contains(m) && (m matches Move::Play(c) && c.spec_is_treasure()),
    {
        if self.game.is_over() {
            return None;
        }
        match self.game.decision() {
            Some(d) => {
                if d.player == self.human && d.ctx == Ctx::BuyPhase {
                    proof {
                        crate::prior::lemma_first_treasure_is_option(d.options@);
                    }
                    find_treasure_play(&d.options)
                } else {
                    None
                }
            },
            None => None,
        }
    }

    /// Play every Treasure in the human's hand as one action, with one
    /// snapshot for the whole batch, so undo takes back "played my
    /// Treasures" rather than one Copper of it. Returns how many were played.
    pub fn play_all_treasures(&mut self) -> (r: u32)
        requires
            old(self).inv(),
        ensures
            final(self).inv(),
            r == 0 <==> !treasure_turn(*old(self)),
            r == 0 ==> *final(self) == *old(self),
            r > 0 ==> {
                &&& final(self).undo@.len() == old(self).undo@.len() + 1
                &&& final(self).undo@.drop_last() == old(self).undo@
                &&& snapshot_of(*old(self), final(self).undo@.last())
                &&& final(self).history@.len() == old(self).history@.len() + r
                &&& final(self).history@.take(old(self).history@.len() as int) == old(self).history@
                &&& forall|k: int| old(self).history@.len() <= k < final(self).history@.len() ==> (#[trigger] final(self).history@[k]).0
                    == old(self).human && (final(self).history@[k].1 matches Move::Play(c) && c.spec_is_treasure())
                &&& final(self).last_ai@ == old(self).last_ai@
                &&& final(self).human == old(self).human
            },
            !treasure_turn(*final(self)) || r as nat == treasure_budget(*old(self)),
    {
        let ghost before = *self;
        let hand = self.game.state.players[self.human].hand.len();
        let limit: u32 = if hand >= 0xFFFF_FFFF { 0xFFFF_FFFF } else { (hand + 1) as u32 };
        let mut played: u32 = 0;
        let mut done = false;
        while !done && played < limit
            invariant
                self.inv(),
                before.inv(),
                limit as nat == treasure_budget(before),
                played <= limit,
                self.human == before.human,
                self.last_ai@ == before.last_ai@,
                played == 0 ==> *self == before,
                played > 0 ==> {
                    &&& self.undo@.len() == before.undo@.len() + 1
                    &&& self.undo@.drop_last() == before.undo@
                    &&& snapshot_of(before, self.undo@.last())
                },
                self.history@.len() == before.history@.len() + played,
                self.history@.take(before.history@.len() as int) == before.history@,
                forall|k: int| before.history@.len() <= k < self.history@.len() ==> (#[trigger] self.history@[k]).0 == before.human
                    && (self.history@[k].1 matches Move::Play(c) && c.spec_is_treasure()),
                done ==> !treasure_turn(*self),
                played > 0 ==> treasure_turn(before),
            decreases limit - played + (if done { 0int } else { 1int }),
        {
            match self.next_treasure() {
                None => {
                    done = true;
                },
                Some(mv) => {
                    let ghost pre = *self;
                    if played == 0 {
                        let snap = self.snapshot();
                        self.undo.push(snap);
                        proof {
                            assert(self.undo@.drop_last() =~= before.undo@);
                        }
                    }
                    let ghost mid = *self;
                    let p = self.human;
                    match self.game.apply(mv) {
                        Ok(()) => {},
                        Err(_) => {
                            done = true;
                        },
                    }
                    if !done {
                        let ghost h = self.history@;
                        self.history.push((p, mv));
                        played = played + 1;
                        proof {
                            assert(self.history@.take(before.history@.len() as int) =~= h.take(before.history@.len() as int));
                            assert forall|k: int| before.history@.len() <= k < self.history@.len() implies (#[trigger] self.history@[k]).0
                                == before.human && (self.history@[k].1 matches Move::Play(c) && c.spec_is_treasure()) by {
                                if k < h.len() {
                                    assert(self.history@[k] == h[k]);
                                }
                            }
                            assert forall|i: int| 0 <= i < self.undo@.len() implies playable((#[trigger] self.undo@[i]).state)
                                && self.undo@[i].history_len <= self.history@.len() by {
                                assert(self.undo@[i] == mid.undo@[i]);
                            }
                        }
                    }
                },
            }
        }
        played
    }
}

impl Session {
    /// Everything the page draws, as one JSON object.
    pub fn state_json(&self) -> (r: String)
        requires
            self.inv(),
            forall|i: int| 0 <= i < 2 ==> crate::state::score_fits(#[trigger] self.game.state.players@[i]),
        ensures
            r@ == crate::web::state_json_text(self.game.state, self.human as nat, self.last_ai@, self.history@.len()),
    {
        crate::web::state_json(&self.game.state, self.human, &self.last_ai, self.history.len())
    }
}

// ------------------------------------------------------------ laws

/// Undo takes back exactly what a human move did: the position (shuffle
/// included), the narration and the history are as they were, and the
/// snapshots are as they were unless the oldest had to make room.
pub proof fn lemma_undo_takes_back(s0: Session, index: int, s1: Session, s2: Session)
    requires
        s0.inv(),
        s0.waiting() matches Some(d) && d.player == s0.human && 0 <= index < d.options@.len(),
        applied(s0, index, s1),
        undone(s1, s2),
    ensures
        same_game(s2.game.state, s0.game.state),
        s2.last_ai@ == s0.last_ai@,
        s2.history@ == s0.history@,
        s0.undo@.len() < MAX_UNDO ==> s2.undo@ == s0.undo@,
{
    let snap = s1.undo@.last();
    assert(same_game(s2.game.state, snap.state));
    assert(same_game(snap.state, s0.game.state));
    assert forall|i: int| 0 <= i < s2.game.state.players@.len() implies crate::state::same_player(
        #[trigger] s2.game.state.players@[i],
        s0.game.state.players@[i],
    ) by {
        assert(crate::state::same_player(s2.game.state.players@[i], snap.state.players@[i]));
        assert(crate::state::same_player(snap.state.players@[i], s0.game.state.players@[i]));
    }
    assert(s2.history@ =~= s0.history@);
}

} // verus!
