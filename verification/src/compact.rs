//! The compact self-play file: each game is stored as what rebuilds it (the
//! kingdom, the seed and every move) plus the decisions worth training on,
//! with probabilities in fixed point.
//!
//! ```text
//! per decision:  ply(u16) + n(u8) + n*(move u8, prob u16) + outcome u8 + td u16
//! per game:      kingdom + players + seed + moves + the decisions above
//! ```
//!
//! Integers are little-endian. A file is the magic number followed by games
//! back to back; a half-written game at the end is ignored, so a run that
//! was interrupted still yields every game it finished.

use vstd::prelude::*;
use crate::card::{Card, NUM_CARDS};
use crate::describe::illegal_text;
use crate::engine::{first_outside_kingdom, lemma_played_start, lemma_played_step, move_step, offered, outside_text, played, valid_setup, Game};
use crate::log::move_text;
use crate::state::{same_game, same_pending, Decision, GameState, Move, MOVE_SPACE};
use crate::log::move_to_text;
use crate::text::{chars_to_string, dec, push_decimal, push_str};
use vstd::string::StringExecFns;

verus! {

/// The first four bytes of every compact file.
pub const MAGIC: u32 = 0xD0A1_106C;

/// Most moves, or recorded decisions, one game may hold: a damaged length
/// must not drive a huge allocation.
pub const MAX_ENTRIES: usize = 100000;

/// One decision worth keeping out of a replayed game.
///
/// Probabilities are fixed point: `u16::MAX` stands for 1, and the outcome
/// has 255 for a win.
#[derive(Clone, Debug, PartialEq)]
pub struct RecordedDecision {
    /// Which decision of the game this was, counting from zero.
    pub ply: u16,
    pub policy: Vec<(Move, u16)>,
    pub outcome: u8,
    pub td_target: u16,
}

/// A whole self-play game, compressed to what is needed to rebuild it.
#[derive(Clone, Debug, PartialEq)]
pub struct GameRecord {
    pub kingdom: Vec<Card>,
    pub players: u8,
    pub seed: u64,
    /// Every move applied, in order: enough to replay the game exactly.
    pub moves: Vec<Move>,
    pub decisions: Vec<RecordedDecision>,
}

/// Why a compact file cannot be used.
#[derive(Debug)]
pub enum CompactError {
    NotACompactFile,
    Truncated,
    Malformed(String),
    /// Replay reached a different position than the one recorded: the data
    /// and the engine disagree.
    ReplayDiverged { game: usize, detail: String },
}

/// What a recorded decision holds.
pub struct DecisionView {
    pub ply: u16,
    pub policy: Seq<(Move, u16)>,
    pub outcome: u8,
    pub td_target: u16,
}

/// What a game record holds.
pub struct GameView {
    pub kingdom: Seq<Card>,
    pub players: u8,
    pub seed: u64,
    pub moves: Seq<Move>,
    pub decisions: Seq<DecisionView>,
}

impl View for RecordedDecision {
    type V = DecisionView;

    open spec fn view(&self) -> DecisionView {
        DecisionView { ply: self.ply, policy: self.policy@, outcome: self.outcome, td_target: self.td_target }
    }
}

impl View for GameRecord {
    type V = GameView;

    open spec fn view(&self) -> GameView {
        GameView {
            kingdom: self.kingdom@,
            players: self.players,
            seed: self.seed,
            moves: self.moves@,
            decisions: self.decisions@.map_values(|d: RecordedDecision| d@),
        }
    }
}

// ------------------------------------------------------------ the layout

/// 256 to the power `n`.
pub open spec fn pow256(n: nat) -> nat
    decreases n,
{
    if n == 0 {
        1
    } else {
        256 * pow256((n - 1) as nat)
    }
}

/// The lowest `n` bytes of `v`, least significant first.
pub open spec fn le_bytes(v: nat, n: nat) -> Seq<u8>
    decreases n,
{
    if n == 0 {
        Seq::empty()
    } else {
        seq![(v % 256) as u8] + le_bytes(v / 256, (n - 1) as nat)
    }
}

/// The number that little-endian bytes stand for.
pub open spec fn le_value(s: Seq<u8>) -> nat
    decreases s.len(),
{
    if s.len() == 0 {
        0
    } else {
        s[0] as nat + 256 * le_value(s.drop_first())
    }
}

/// The bytes of each item, one after another.
pub open spec fn joined<A>(s: Seq<A>, f: spec_fn(A) -> Seq<u8>) -> Seq<u8>
    decreases s.len(),
{
    if s.len() == 0 {
        Seq::empty()
    } else {
        f(s[0]) + joined(s.drop_first(), f)
    }
}

/// A kingdom card: its index.
pub open spec fn card_bytes() -> spec_fn(Card) -> Seq<u8> {
    |c: Card| seq![c.spec_idx() as u8]
}

/// A move: its index.
pub open spec fn move_bytes() -> spec_fn(Move) -> Seq<u8> {
    |m: Move| seq![m.spec_index() as u8]
}

/// A policy entry: the move's index, then the probability.
pub open spec fn entry_bytes() -> spec_fn((Move, u16)) -> Seq<u8> {
    |e: (Move, u16)| seq![e.0.spec_index() as u8] + le_bytes(e.1 as nat, 2)
}

/// A decision: ply, number of policy entries, the entries, outcome, target.
pub open spec fn decision_bytes() -> spec_fn(DecisionView) -> Seq<u8> {
    |d: DecisionView|
        le_bytes(d.ply as nat, 2) + seq![d.policy.len() as u8] + joined(d.policy, entry_bytes())
            + seq![d.outcome] + le_bytes(d.td_target as nat, 2)
}

/// A game: kingdom size and cards, players, seed, number of moves and the
/// moves, number of decisions and the decisions.
pub open spec fn game_bytes() -> spec_fn(GameView) -> Seq<u8> {
    |g: GameView|
        seq![g.kingdom.len() as u8] + joined(g.kingdom, card_bytes()) + seq![g.players] + le_bytes(
            g.seed as nat,
            8,
        ) + le_bytes((g.moves.len() as u32) as nat, 4) + joined(g.moves, move_bytes()) + le_bytes(
            (g.decisions.len() as u32) as nat,
            4,
        ) + joined(g.decisions, decision_bytes())
}

/// A decision the reader accepts: a policy no larger than the move space.
pub open spec fn decision_ok() -> spec_fn(DecisionView) -> bool {
    |d: DecisionView| d.policy.len() <= MOVE_SPACE
}

/// A game the reader accepts: at most every card in the kingdom, and a
/// bounded number of moves and decisions, each decision acceptable.
pub open spec fn decodable(g: GameView) -> bool {
    &&& g.kingdom.len() <= NUM_CARDS
    &&& g.moves.len() <= MAX_ENTRIES
    &&& g.decisions.len() <= MAX_ENTRIES
    &&& forall|i: int| 0 <= i < g.decisions.len() ==> (decision_ok())(#[trigger] g.decisions[i])
}

/// Whether `b` holds `s` from position `p` on.
pub open spec fn holds_at(b: Seq<u8>, p: int, s: Seq<u8>) -> bool {
    0 <= p && p + s.len() <= b.len() && b.subrange(p, p + s.len()) == s
}

/// Bytes hold two pieces in a row exactly when they hold the first and
/// then the second right after it.
pub proof fn lemma_holds_concat(b: Seq<u8>, p: int, s: Seq<u8>, t: Seq<u8>)
    ensures
        holds_at(b, p, s + t) <==> holds_at(b, p, s) && holds_at(b, p + s.len(), t),
{
    if holds_at(b, p, s + t) {
        let w = b.subrange(p, p + (s + t).len());
        assert(w == s + t);
        assert forall|i: int| 0 <= i < s.len() implies b.subrange(p, p + s.len())[i] == s[i] by {
            assert(w[i] == (s + t)[i]);
        }
        assert(b.subrange(p, p + s.len()) =~= s);
        assert forall|i: int| 0 <= i < t.len() implies b.subrange(p + s.len(), p + s.len() + t.len())[i] == t[i] by {
            assert(w[s.len() + i] == (s + t)[s.len() + i]);
        }
        assert(b.subrange(p + s.len(), p + s.len() + t.len()) =~= t);
    }
    if holds_at(b, p, s) && holds_at(b, p + s.len(), t) {
        assert forall|i: int| 0 <= i < (s + t).len() implies b.subrange(p, p + (s + t).len())[i] == (s
            + t)[i] by {
            if i < s.len() {
                assert(b.subrange(p, p + s.len())[i] == b[p + i]);
            } else {
                assert(b.subrange(p + s.len(), p + s.len() + t.len())[i - s.len()] == b[p + i]);
            }
        }
        assert(b.subrange(p, p + (s + t).len()) =~= s + t);
    }
}

/// Little-endian bytes read back as the number they were made from.
pub proof fn lemma_le_round_trip(v: nat, n: nat)
    requires
        v < pow256(n),
    ensures
        le_bytes(v, n).len() == n,
        le_value(le_bytes(v, n)) == v,
    decreases n,
{
    if n > 0 {
        lemma_le_round_trip(v / 256, (n - 1) as nat);
        let s = le_bytes(v, n);
        assert(s.drop_first() =~= le_bytes(v / 256, (n - 1) as nat));
    }
}

/// Bytes written back from the number they stand for are the same bytes.
pub proof fn lemma_le_value(s: Seq<u8>)
    ensures
        le_value(s) < pow256(s.len()),
        le_bytes(le_value(s), s.len()) == s,
    decreases s.len(),
{
    if s.len() > 0 {
        let t = s.drop_first();
        lemma_le_value(t);
        let v = le_value(s);
        assert(v % 256 == s[0] as nat);
        assert(v / 256 == le_value(t));
        assert(le_bytes(v, s.len()) =~= seq![s[0]] + le_bytes(le_value(t), t.len()));
        assert(seq![s[0]] + t =~= s);
    }
}

/// The item list encoding grows at its end item by item.
pub proof fn lemma_joined_push<A>(s: Seq<A>, x: A, f: spec_fn(A) -> Seq<u8>)
    ensures
        joined(s.push(x), f) == joined(s, f) + f(x),
    decreases s.len(),
{
    if s.len() == 0 {
        assert(s.push(x).drop_first() =~= Seq::<A>::empty());
        assert(s.push(x)[0] == x);
        assert(joined(s.push(x).drop_first(), f) =~= Seq::<u8>::empty());
        assert(joined(s, f) =~= Seq::<u8>::empty());
        assert(joined(s.push(x), f) =~= f(x));
    } else {
        lemma_joined_push(s.drop_first(), x, f);
        assert(s.push(x).drop_first() =~= s.drop_first().push(x));
        assert(joined(s.push(x), f) =~= joined(s, f) + f(x));
    }
}

/// Encoding the first `i + 1` items adds item `i` to encoding the first `i`.
proof fn lemma_joined_take<A>(s: Seq<A>, i: int, f: spec_fn(A) -> Seq<u8>)
    requires
        0 <= i < s.len(),
    ensures
        joined(s.take(i + 1), f) == joined(s.take(i), f) + f(s[i]),
{
    assert(s.take(i + 1) =~= s.take(i).push(s[i]));
    lemma_joined_push(s.take(i), s[i], f);
}

// ------------------------------------------------------------ writing

/// Append the lowest `n` bytes of `v`, least significant first.
fn push_le(out: &mut Vec<u8>, v: u64, n: usize)
    ensures
        final(out)@ == old(out)@ + le_bytes(v as nat, n as nat),
    decreases n,
{
    if n == 0 {
        assert(old(out)@ + le_bytes(v as nat, 0) =~= old(out)@);
        return;
    }
    out.push((v % 256) as u8);
    push_le(out, v / 256, n - 1);
    assert(out@ =~= old(out)@ + le_bytes(v as nat, n as nat));
}

/// Append one decision.
fn encode_decision(d: &RecordedDecision, out: &mut Vec<u8>)
    ensures
        final(out)@ == old(out)@ + (decision_bytes())(d@),
{
    let ghost start = out@;
    push_le(out, d.ply as u64, 2);
    out.push(d.policy.len() as u8);
    let ghost head = out@;
    let mut i: usize = 0;
    while i < d.policy.len()
        invariant
            i <= d.policy@.len(),
            out@ == head + joined(d.policy@.take(i as int), entry_bytes()),
        decreases d.policy@.len() - i,
    {
        let (mv, pr) = d.policy[i];
        let ghost before = out@;
        out.push(mv.index() as u8);
        push_le(out, pr as u64, 2);
        proof {
            lemma_joined_take(d.policy@, i as int, entry_bytes());
            assert(out@ =~= before + (entry_bytes())(d.policy@[i as int]));
        }
        i = i + 1;
    }
    assert(d.policy@.take(d.policy@.len() as int) =~= d.policy@);
    out.push(d.outcome);
    push_le(out, d.td_target as u64, 2);
    assert(out@ =~= start + (decision_bytes())(d@));
}

/// Append one game in the compact layout.
pub fn encode_game(g: &GameRecord, out: &mut Vec<u8>)
    ensures
        final(out)@ == old(out)@ + (game_bytes())(g@),
{
    let ghost start = out@;
    out.push(g.kingdom.len() as u8);
    let ghost k0 = out@;
    let mut i: usize = 0;
    while i < g.kingdom.len()
        invariant
            i <= g.kingdom@.len(),
            out@ == k0 + joined(g.kingdom@.take(i as int), card_bytes()),
        decreases g.kingdom@.len() - i,
    {
        let ghost before = out@;
        out.push(g.kingdom[i].idx() as u8);
        proof {
            lemma_joined_take(g.kingdom@, i as int, card_bytes());
            assert(out@ =~= before + (card_bytes())(g.kingdom@[i as int]));
        }
        i = i + 1;
    }
    assert(g.kingdom@.take(g.kingdom@.len() as int) =~= g.kingdom@);
    out.push(g.players);
    push_le(out, g.seed, 8);
    push_le(out, (g.moves.len() as u32) as u64, 4);
    let ghost m0 = out@;
    let mut j: usize = 0;
    while j < g.moves.len()
        invariant
            j <= g.moves@.len(),
            out@ == m0 + joined(g.moves@.take(j as int), move_bytes()),
        decreases g.moves@.len() - j,
    {
        let ghost before = out@;
        out.push(g.moves[j].index() as u8);
        proof {
            lemma_joined_take(g.moves@, j as int, move_bytes());
            assert(out@ =~= before + (move_bytes())(g.moves@[j as int]));
        }
        j = j + 1;
    }
    assert(g.moves@.take(g.moves@.len() as int) =~= g.moves@);
    push_le(out, (g.decisions.len() as u32) as u64, 4);
    let ghost d0 = out@;
    let ghost ds = g.decisions@.map_values(|d: RecordedDecision| d@);
    let mut k: usize = 0;
    while k < g.decisions.len()
        invariant
            k <= g.decisions@.len(),
            ds == g.decisions@.map_values(|d: RecordedDecision| d@),
            out@ == d0 + joined(ds.take(k as int), decision_bytes()),
        decreases g.decisions@.len() - k,
    {
        let ghost before = out@;
        encode_decision(&g.decisions[k], out);
        proof {
            lemma_joined_take(ds, k as int, decision_bytes());
            assert(out@ =~= before + (decision_bytes())(ds[k as int]));
        }
        k = k + 1;
    }
    assert(ds.take(ds.len() as int) =~= ds);
    assert(out@ =~= start + (game_bytes())(g@));
}

/// The magic number that opens a compact file.
pub fn magic_bytes() -> (r: Vec<u8>)
    ensures
        r@ == le_bytes(MAGIC as nat, 4),
{
    let mut out: Vec<u8> = Vec::new();
    push_le(&mut out, MAGIC as u64, 4);
    assert(out@ =~= le_bytes(MAGIC as nat, 4));
    out
}

/// Games in the compact layout, one after another: what a run appends to
/// its file (after the magic number, when the file is new).
pub fn encode_games(games: &[GameRecord]) -> (r: Vec<u8>)
    ensures
        r@ == joined(games@.map_values(|g: GameRecord| g@), game_bytes()),
{
    let ghost gs = games@.map_values(|g: GameRecord| g@);
    let mut out: Vec<u8> = Vec::new();
    let mut i: usize = 0;
    while i < games.len()
        invariant
            i <= games@.len(),
            gs == games@.map_values(|g: GameRecord| g@),
            out@ == joined(gs.take(i as int), game_bytes()),
        decreases games@.len() - i,
    {
        let ghost before = out@;
        encode_game(&games[i], &mut out);
        proof {
            lemma_joined_take(gs, i as int, game_bytes());
        }
        i = i + 1;
    }
    assert(gs.take(gs.len() as int) =~= gs);
    out
}

// ------------------------------------------------------------ reading

/// Anything is acceptable.
spec fn any_ok<A>() -> spec_fn(A) -> bool {
    |x: A| true
}

/// Read a kingdom card's index.
spec fn card_parser() -> spec_fn(Seq<u8>, int) -> Option<(Card, int)> {
    |b: Seq<u8>, p: int|
        if 0 <= p < b.len() && b[p] < NUM_CARDS {
            Some((Card::spec_from_idx(b[p] as usize), p + 1))
        } else {
            None
        }
}

/// Read a move's index.
spec fn move_parser() -> spec_fn(Seq<u8>, int) -> Option<(Move, int)> {
    |b: Seq<u8>, p: int|
        if 0 <= p < b.len() && b[p] < MOVE_SPACE {
            Some((Move::spec_from_index(b[p] as usize).unwrap(), p + 1))
        } else {
            None
        }
}

/// Read a policy entry.
spec fn entry_parser() -> spec_fn(Seq<u8>, int) -> Option<((Move, u16), int)> {
    |b: Seq<u8>, p: int|
        if 0 <= p && p + 3 <= b.len() && b[p] < MOVE_SPACE {
            Some(((Move::spec_from_index(b[p] as usize).unwrap(), le_value(b.subrange(p + 1, p + 3)) as u16), p + 3))
        } else {
            None
        }
}

/// Read `n` items one after another.
spec fn parse_list<A>(b: Seq<u8>, p: int, n: nat, f: spec_fn(Seq<u8>, int) -> Option<(A, int)>) -> Option<(Seq<A>, int)>
    decreases n,
{
    if n == 0 {
        Some((Seq::empty(), p))
    } else {
        match f(b, p) {
            Some((x, q)) => match parse_list(b, q, (n - 1) as nat, f) {
                Some((xs, r)) => Some((seq![x] + xs, r)),
                None => None,
            },
            None => None,
        }
    }
}

/// Read a decision.
spec fn decision_parser() -> spec_fn(Seq<u8>, int) -> Option<(DecisionView, int)> {
    |b: Seq<u8>, p: int|
        if 0 <= p && p + 3 <= b.len() && b[p + 2] <= MOVE_SPACE {
            match parse_list(b, p + 3, b[p + 2] as nat, entry_parser()) {
                Some((pol, q)) => if q + 3 <= b.len() {
                    Some((DecisionView {
                        ply: le_value(b.subrange(p, p + 2)) as u16,
                        policy: pol,
                        outcome: b[q],
                        td_target: le_value(b.subrange(q + 1, q + 3)) as u16,
                    }, q + 3))
                } else {
                    None
                },
                None => None,
            }
        } else {
            None
        }
}

/// Read a game.
spec fn parse_game(b: Seq<u8>, p: int) -> Option<(GameView, int)> {
    if !(0 <= p < b.len()) || b[p] > NUM_CARDS {
        None
    } else {
        match parse_list(b, p + 1, b[p] as nat, card_parser()) {
            None => None,
            Some((kingdom, p2)) => if p2 + 13 > b.len() {
                None
            } else if le_value(b.subrange(p2 + 9, p2 + 13)) > MAX_ENTRIES {
                None
            } else {
                match parse_list(b, p2 + 13, le_value(b.subrange(p2 + 9, p2 + 13)), move_parser()) {
                    None => None,
                    Some((moves, p6)) => if p6 + 4 > b.len() {
                        None
                    } else if le_value(b.subrange(p6, p6 + 4)) > MAX_ENTRIES {
                        None
                    } else {
                        match parse_list(b, p6 + 4, le_value(b.subrange(p6, p6 + 4)), decision_parser()) {
                            None => None,
                            Some((ds, p8)) => Some((GameView {
                                kingdom,
                                players: b[p2],
                                seed: le_value(b.subrange(p2 + 1, p2 + 9)) as u64,
                                moves,
                                decisions: ds,
                            }, p8)),
                        }
                    }
                }
            }
        }
    }
}

/// What an item parser promises when it reads: an acceptable item whose
/// bytes are exactly the ones it consumed.
spec fn reads_soundly<A>(b: Seq<u8>, f: spec_fn(Seq<u8>, int) -> Option<(A, int)>, e: spec_fn(A) -> Seq<u8>, ok: spec_fn(A) -> bool) -> bool {
    forall|q: int| (#[trigger] f(b, q)) is Some ==> ok(f(b, q).unwrap().0) && holds_at(b, q, e(f(b, q).unwrap().0))
        && f(b, q).unwrap().1 == q + e(f(b, q).unwrap().0).len()
}

/// What an item parser promises of bytes that encode an acceptable item:
/// it reads exactly that item.
spec fn reads_completely<A>(b: Seq<u8>, f: spec_fn(Seq<u8>, int) -> Option<(A, int)>, e: spec_fn(A) -> Seq<u8>, ok: spec_fn(A) -> bool) -> bool {
    forall|q: int, x: A| #![trigger holds_at(b, q, e(x))] ok(x) && holds_at(b, q, e(x)) ==> f(b, q) == Some((x, q + e(x).len()))
}

proof fn lemma_list_sound<A>(b: Seq<u8>, p: int, n: nat, f: spec_fn(Seq<u8>, int) -> Option<(A, int)>, e: spec_fn(A) -> Seq<u8>, ok: spec_fn(A) -> bool)
    requires
        reads_soundly(b, f, e, ok),
        parse_list(b, p, n, f) is Some,
        0 <= p <= b.len(),
    ensures
        ({
            let (xs, r) = parse_list(b, p, n, f).unwrap();
            &&& xs.len() == n
            &&& forall|i: int| 0 <= i < xs.len() ==> ok(#[trigger] xs[i])
            &&& holds_at(b, p, joined(xs, e))
            &&& r == p + joined(xs, e).len()
        }),
    decreases n,
{
    if n == 0 {
        assert(b.subrange(p, p) =~= Seq::<u8>::empty());
    } else {
        let (x, q) = f(b, p).unwrap();
        lemma_list_sound(b, q, (n - 1) as nat, f, e, ok);
        let (ys, r) = parse_list(b, q, (n - 1) as nat, f).unwrap();
        let xs = seq![x] + ys;
        assert(xs[0] == x);
        assert(xs.drop_first() =~= ys);
        lemma_holds_concat(b, p, e(x), joined(ys, e));
        assert forall|i: int| 0 <= i < xs.len() implies ok(#[trigger] xs[i]) by {
            if i > 0 {
                assert(xs[i] == ys[i - 1]);
            }
        }
    }
}

proof fn lemma_list_complete<A>(b: Seq<u8>, p: int, xs: Seq<A>, f: spec_fn(Seq<u8>, int) -> Option<(A, int)>, e: spec_fn(A) -> Seq<u8>, ok: spec_fn(A) -> bool)
    requires
        reads_completely(b, f, e, ok),
        forall|i: int| 0 <= i < xs.len() ==> ok(#[trigger] xs[i]),
        holds_at(b, p, joined(xs, e)),
    ensures
        parse_list(b, p, xs.len(), f) == Some((xs, p + joined(xs, e).len())),
    decreases xs.len(),
{
    if xs.len() == 0 {
        assert(xs =~= Seq::<A>::empty());
    } else {
        let ys = xs.drop_first();
        lemma_holds_concat(b, p, e(xs[0]), joined(ys, e));
        assert(ok(xs[0]));
        let q = p + e(xs[0]).len();
        assert forall|i: int| 0 <= i < ys.len() implies ok(#[trigger] ys[i]) by {
            assert(ys[i] == xs[i + 1]);
        }
        lemma_list_complete(b, q, ys, f, e, ok);
        assert(seq![xs[0]] + ys =~= xs);
    }
}

proof fn lemma_card_reads(b: Seq<u8>)
    ensures
        reads_soundly(b, card_parser(), card_bytes(), any_ok()),
        reads_completely(b, card_parser(), card_bytes(), any_ok()),
{
    assert forall|q: int| (#[trigger] (card_parser())(b, q)) is Some implies (any_ok())((card_parser())(b, q).unwrap().0)
        && holds_at(b, q, (card_bytes())((card_parser())(b, q).unwrap().0))
        && (card_parser())(b, q).unwrap().1 == q + (card_bytes())((card_parser())(b, q).unwrap().0).len() by {
        crate::card::lemma_idx_roundtrip(Card::Copper, b[q] as usize);
        assert(b.subrange(q, q + 1) =~= seq![b[q]]);
    }
    assert forall|q: int, x: Card| #![trigger holds_at(b, q, (card_bytes())(x))] (any_ok())(x) && holds_at(b, q, (card_bytes())(x))
        implies (card_parser())(b, q) == Some((x, q + (card_bytes())(x).len())) by {
        assert(b.subrange(q, q + 1)[0] == b[q]);
        crate::card::lemma_idx_roundtrip(x, 0);
    }
}

proof fn lemma_move_reads(b: Seq<u8>)
    ensures
        reads_soundly(b, move_parser(), move_bytes(), any_ok()),
        reads_completely(b, move_parser(), move_bytes(), any_ok()),
{
    assert forall|q: int| (#[trigger] (move_parser())(b, q)) is Some implies (any_ok())((move_parser())(b, q).unwrap().0)
        && holds_at(b, q, (move_bytes())((move_parser())(b, q).unwrap().0))
        && (move_parser())(b, q).unwrap().1 == q + (move_bytes())((move_parser())(b, q).unwrap().0).len() by {
        crate::state::lemma_move_index_roundtrip(Move::Done, b[q] as usize);
        assert(b.subrange(q, q + 1) =~= seq![b[q]]);
    }
    assert forall|q: int, x: Move| #![trigger holds_at(b, q, (move_bytes())(x))] (any_ok())(x) && holds_at(b, q, (move_bytes())(x))
        implies (move_parser())(b, q) == Some((x, q + (move_bytes())(x).len())) by {
        assert(b.subrange(q, q + 1)[0] == b[q]);
        crate::state::lemma_move_index_roundtrip(x, 0);
    }
}

proof fn lemma_entry_reads(b: Seq<u8>)
    ensures
        reads_soundly(b, entry_parser(), entry_bytes(), any_ok()),
        reads_completely(b, entry_parser(), entry_bytes(), any_ok()),
{
    assert forall|q: int| (#[trigger] (entry_parser())(b, q)) is Some implies (any_ok())((entry_parser())(b, q).unwrap().0)
        && holds_at(b, q, (entry_bytes())((entry_parser())(b, q).unwrap().0))
        && (entry_parser())(b, q).unwrap().1 == q + (entry_bytes())((entry_parser())(b, q).unwrap().0).len() by {
        crate::state::lemma_move_index_roundtrip(Move::Done, b[q] as usize);
        let w = b.subrange(q + 1, q + 3);
        lemma_le_value(w);
        assert(pow256(2) == 65536) by {
            reveal_with_fuel(pow256, 3);
        }
        let x = (entry_parser())(b, q).unwrap().0;
        assert((x.1 as nat) == le_value(w));
        assert(b.subrange(q, q + 3) =~= seq![b[q]] + w);
    }
    assert forall|q: int, x: (Move, u16)| #![trigger holds_at(b, q, (entry_bytes())(x))] (any_ok())(x) && holds_at(b, q, (entry_bytes())(x))
        implies (entry_parser())(b, q) == Some((x, q + (entry_bytes())(x).len())) by {
        assert(pow256(2) == 65536) by {
            reveal_with_fuel(pow256, 3);
        }
        lemma_le_round_trip(x.1 as nat, 2);
        lemma_holds_concat(b, q, seq![x.0.spec_index() as u8], le_bytes(x.1 as nat, 2));
        assert(b.subrange(q, q + 1)[0] == b[q]);
        crate::state::lemma_move_index_roundtrip(x.0, 0);
    }
}

/// Two bytes hold the number they spell, and spell the number they hold.
proof fn lemma_le2(b: Seq<u8>, q: int, v: u16)
    requires
        0 <= q,
        q + 2 <= b.len(),
    ensures
        le_value(b.subrange(q, q + 2)) < 65536,
        holds_at(b, q, le_bytes((le_value(b.subrange(q, q + 2)) as u16) as nat, 2)),
        le_bytes(v as nat, 2).len() == 2,
        holds_at(b, q, le_bytes(v as nat, 2)) ==> le_value(b.subrange(q, q + 2)) as u16 == v,
{
    assert(pow256(2) == 65536) by {
        reveal_with_fuel(pow256, 3);
    }
    lemma_le_value(b.subrange(q, q + 2));
    lemma_le_round_trip(v as nat, 2);
}

proof fn lemma_decision_reads(b: Seq<u8>)
    ensures
        reads_soundly(b, decision_parser(), decision_bytes(), decision_ok()),
        reads_completely(b, decision_parser(), decision_bytes(), decision_ok()),
{
    lemma_entry_reads(b);
    assert forall|q: int| (#[trigger] (decision_parser())(b, q)) is Some implies (decision_ok())((decision_parser())(b, q).unwrap().0)
        && holds_at(b, q, (decision_bytes())((decision_parser())(b, q).unwrap().0))
        && (decision_parser())(b, q).unwrap().1 == q + (decision_bytes())((decision_parser())(b, q).unwrap().0).len() by {
        let n = b[q + 2] as nat;
        lemma_list_sound(b, q + 3, n, entry_parser(), entry_bytes(), any_ok());
        let (pol, r) = parse_list(b, q + 3, n, entry_parser()).unwrap();
        let d = (decision_parser())(b, q).unwrap().0;
        lemma_le2(b, q, d.ply);
        lemma_le2(b, r + 1, d.td_target);
        let a1 = le_bytes(d.ply as nat, 2);
        let a2 = seq![d.policy.len() as u8];
        let a3 = joined(d.policy, entry_bytes());
        let a4 = seq![d.outcome];
        let a5 = le_bytes(d.td_target as nat, 2);
        assert(b.subrange(q + 2, q + 3) =~= a2);
        assert(b.subrange(r, r + 1) =~= a4);
        lemma_holds_concat(b, q, a1, a2);
        lemma_holds_concat(b, q, a1 + a2, a3);
        lemma_holds_concat(b, q, a1 + a2 + a3, a4);
        lemma_holds_concat(b, q, a1 + a2 + a3 + a4, a5);
    }
    assert forall|q: int, x: DecisionView| #![trigger holds_at(b, q, (decision_bytes())(x))] (decision_ok())(x) && holds_at(
        b,
        q,
        (decision_bytes())(x),
    ) implies (decision_parser())(b, q) == Some((x, q + (decision_bytes())(x).len())) by {
        let a1 = le_bytes(x.ply as nat, 2);
        let a2 = seq![x.policy.len() as u8];
        let a3 = joined(x.policy, entry_bytes());
        let a4 = seq![x.outcome];
        let a5 = le_bytes(x.td_target as nat, 2);
        assert(pow256(2) == 65536) by {
            reveal_with_fuel(pow256, 3);
        }
        lemma_le_round_trip(x.ply as nat, 2);
        lemma_le_round_trip(x.td_target as nat, 2);
        lemma_holds_concat(b, q, a1 + a2 + a3 + a4, a5);
        lemma_holds_concat(b, q, a1 + a2 + a3, a4);
        lemma_holds_concat(b, q, a1 + a2, a3);
        lemma_holds_concat(b, q, a1, a2);
        lemma_le2(b, q, x.ply);
        let r = q + 3 + a3.len();
        lemma_le2(b, r + 1, x.td_target);
        assert(b.subrange(q + 2, q + 3)[0] == b[q + 2]);
        assert(b.subrange(r, r + 1)[0] == b[r]);
        lemma_list_complete(b, q + 3, x.policy, entry_parser(), entry_bytes(), any_ok());
    }
}

/// `n` bytes (four or eight) hold the number they spell, and spell the
/// number they hold.
proof fn lemma_le_at(b: Seq<u8>, q: int, n: nat, v: nat)
    requires
        0 <= q,
        q + n <= b.len(),
        n == 4 || n == 8,
        v < pow256(n),
    ensures
        le_value(b.subrange(q, q + n)) < pow256(n),
        holds_at(b, q, le_bytes(le_value(b.subrange(q, q + n)), n)),
        le_bytes(v, n).len() == n,
        holds_at(b, q, le_bytes(v, n)) ==> le_value(b.subrange(q, q + n)) == v,
        pow256(4) == 0x1_0000_0000,
        pow256(8) == 0x1_0000_0000_0000_0000,
{
    reveal_with_fuel(pow256, 9);
    lemma_le_value(b.subrange(q, q + n));
    lemma_le_round_trip(v, n);
}

/// Whatever the game reader reads is an acceptable game whose bytes are
/// exactly the ones it consumed.
proof fn lemma_game_sound(b: Seq<u8>, p: int)
    requires
        parse_game(b, p) is Some,
    ensures
        ({
            let (g, q) = parse_game(b, p).unwrap();
            &&& decodable(g)
            &&& holds_at(b, p, (game_bytes())(g))
            &&& q == p + (game_bytes())(g).len()
        }),
{
    lemma_card_reads(b);
    lemma_move_reads(b);
    lemma_decision_reads(b);
    reveal_with_fuel(pow256, 9);
    let nk = b[p] as nat;
    lemma_list_sound(b, p + 1, nk, card_parser(), card_bytes(), any_ok());
    let (k, p2) = parse_list(b, p + 1, nk, card_parser()).unwrap();
    lemma_le_at(b, p2 + 1, 8, 0);
    lemma_le_at(b, p2 + 9, 4, 0);
    let nm = le_value(b.subrange(p2 + 9, p2 + 13));
    lemma_list_sound(b, p2 + 13, nm, move_parser(), move_bytes(), any_ok());
    let (moves, p6) = parse_list(b, p2 + 13, nm, move_parser()).unwrap();
    lemma_le_at(b, p6, 4, 0);
    let nd = le_value(b.subrange(p6, p6 + 4));
    lemma_list_sound(b, p6 + 4, nd, decision_parser(), decision_bytes(), decision_ok());
    let (g, q) = parse_game(b, p).unwrap();
    let c1 = seq![g.kingdom.len() as u8];
    let c2 = joined(g.kingdom, card_bytes());
    let c3 = seq![g.players];
    let c4 = le_bytes(g.seed as nat, 8);
    let c5 = le_bytes((g.moves.len() as u32) as nat, 4);
    let c6 = joined(g.moves, move_bytes());
    let c7 = le_bytes((g.decisions.len() as u32) as nat, 4);
    let c8 = joined(g.decisions, decision_bytes());
    assert(b.subrange(p, p + 1) =~= c1);
    assert(b.subrange(p2, p2 + 1) =~= c3);
    assert(g.kingdom == k && g.moves == moves);
    lemma_le_round_trip(g.seed as nat, 8);
    lemma_le_round_trip(g.moves.len(), 4);
    lemma_le_round_trip(g.decisions.len(), 4);
    assert(holds_at(b, p, c1));
    assert(holds_at(b, p + 1, c2));
    assert(holds_at(b, p2, c3));
    assert(holds_at(b, p2 + 1, c4));
    assert(holds_at(b, p2 + 9, c5));
    assert(holds_at(b, p2 + 13, c6));
    assert(holds_at(b, p6, c7));
    assert(holds_at(b, p6 + 4, c8));
    assert(decodable(g));
    lemma_holds_concat(b, p, c1, c2);
    lemma_holds_concat(b, p, c1 + c2, c3);
    lemma_holds_concat(b, p, c1 + c2 + c3, c4);
    lemma_holds_concat(b, p, c1 + c2 + c3 + c4, c5);
    lemma_holds_concat(b, p, c1 + c2 + c3 + c4 + c5, c6);
    lemma_holds_concat(b, p, c1 + c2 + c3 + c4 + c5 + c6, c7);
    lemma_holds_concat(b, p, c1 + c2 + c3 + c4 + c5 + c6 + c7, c8);
    assert((game_bytes())(g) == c1 + c2 + c3 + c4 + c5 + c6 + c7 + c8);
    assert(holds_at(b, p, c1 + c2 + c3 + c4 + c5 + c6 + c7 + c8));
    let (_, p8) = parse_list(b, p6 + 4, nd, decision_parser()).unwrap();
    assert(q == p8);
}

/// Bytes that encode an acceptable game are read back as exactly that game.
proof fn lemma_game_complete(b: Seq<u8>, p: int, g: GameView)
    requires
        decodable(g),
        holds_at(b, p, (game_bytes())(g)),
    ensures
        parse_game(b, p) == Some((g, p + (game_bytes())(g).len())),
{
    lemma_card_reads(b);
    lemma_move_reads(b);
    lemma_decision_reads(b);
    let c1 = seq![g.kingdom.len() as u8];
    let c2 = joined(g.kingdom, card_bytes());
    let c3 = seq![g.players];
    let c4 = le_bytes(g.seed as nat, 8);
    let c5 = le_bytes((g.moves.len() as u32) as nat, 4);
    let c6 = joined(g.moves, move_bytes());
    let c7 = le_bytes((g.decisions.len() as u32) as nat, 4);
    let c8 = joined(g.decisions, decision_bytes());
    reveal_with_fuel(pow256, 9);
    lemma_le_round_trip(g.seed as nat, 8);
    lemma_le_round_trip(g.moves.len(), 4);
    lemma_le_round_trip(g.decisions.len(), 4);
    lemma_holds_concat(b, p, c1 + c2 + c3 + c4 + c5 + c6 + c7, c8);
    lemma_holds_concat(b, p, c1 + c2 + c3 + c4 + c5 + c6, c7);
    lemma_holds_concat(b, p, c1 + c2 + c3 + c4 + c5, c6);
    lemma_holds_concat(b, p, c1 + c2 + c3 + c4, c5);
    lemma_holds_concat(b, p, c1 + c2 + c3, c4);
    lemma_holds_concat(b, p, c1 + c2, c3);
    lemma_holds_concat(b, p, c1, c2);
    assert(b.subrange(p, p + 1)[0] == b[p]);
    lemma_list_complete(b, p + 1, g.kingdom, card_parser(), card_bytes(), any_ok());
    let p2 = p + 1 + c2.len();
    assert(b.subrange(p2, p2 + 1)[0] == b[p2]);
    lemma_le_at(b, p2 + 1, 8, g.seed as nat);
    lemma_le_at(b, p2 + 9, 4, g.moves.len());
    lemma_list_complete(b, p2 + 13, g.moves, move_parser(), move_bytes(), any_ok());
    let p6 = p2 + 13 + c6.len();
    lemma_le_at(b, p6, 4, g.decisions.len());
    lemma_list_complete(b, p6 + 4, g.decisions, decision_parser(), decision_bytes(), decision_ok());
}

/// 256 to a power grows with the power.
proof fn lemma_pow256_mono(i: nat, j: nat)
    requires
        i <= j,
    ensures
        pow256(i) <= pow256(j),
    decreases j - i,
{
    if i < j {
        lemma_pow256_mono(i, (j - 1) as nat);
    }
}

/// A parser's answer with the position widened to an integer.
spec fn at_int<A>(r: Option<(A, usize)>) -> Option<(A, int)> {
    match r {
        Some((x, q)) => Some((x, q as int)),
        None => None,
    }
}

/// The little-endian number in `n` bytes from `p`.
fn read_le(b: &[u8], p: usize, n: usize) -> (r: u64)
    requires
        p + n <= b@.len(),
        n <= 8,
    ensures
        r as nat == le_value(b@.subrange(p as int, (p + n) as int)),
    decreases n,
{
    let ghost w = b@.subrange(p as int, (p + n) as int);
    if n == 0 {
        return 0;
    }
    let len = b.len();
    assert(p + 1 <= len);
    let rest = read_le(b, p + 1, n - 1);
    proof {
        assert(w.drop_first() =~= b@.subrange((p + 1) as int, (p + n) as int));
        lemma_le_value(w.drop_first());
        lemma_pow256_mono((n - 1) as nat, 7);
        reveal_with_fuel(pow256, 8);
    }
    (b[p] as u64) + 256 * rest
}

fn decode_card(b: &[u8], p: usize) -> (r: Option<(Card, usize)>)
    requires
        p <= b@.len(),
    ensures
        at_int(r) == (card_parser())(b@, p as int),
        r matches Some((_, q)) ==> q <= b@.len(),
{
    if p < b.len() && (b[p] as usize) < NUM_CARDS {
        Some((Card::from_idx(b[p] as usize), p + 1))
    } else {
        None
    }
}

fn decode_move(b: &[u8], p: usize) -> (r: Option<(Move, usize)>)
    requires
        p <= b@.len(),
    ensures
        at_int(r) == (move_parser())(b@, p as int),
        r matches Some((_, q)) ==> q <= b@.len(),
{
    if p < b.len() && (b[p] as usize) < MOVE_SPACE {
        match Move::from_index(b[p] as usize) {
            Some(m) => Some((m, p + 1)),
            None => None,
        }
    } else {
        None
    }
}

fn decode_entry(b: &[u8], p: usize) -> (r: Option<((Move, u16), usize)>)
    requires
        p <= b@.len(),
    ensures
        at_int(r) == (entry_parser())(b@, p as int),
        r matches Some((_, q)) ==> q <= b@.len(),
{
    if b.len() - p >= 3 && (b[p] as usize) < MOVE_SPACE {
        let pr = read_le(b, p + 1, 2);
        proof {
            lemma_le2(b@, (p + 1) as int, 0);
        }
        match Move::from_index(b[p] as usize) {
            Some(m) => Some(((m, pr as u16), p + 3)),
            None => None,
        }
    } else {
        None
    }
}

/// Unfolding one item off the front of a list read.
proof fn lemma_list_step<A>(b: Seq<u8>, p: int, m: nat, f: spec_fn(Seq<u8>, int) -> Option<(A, int)>)
    ensures
        parse_list(b, p, m + 1, f) == match f(b, p) {
            Some((x, q)) => match parse_list(b, q, m, f) {
                Some((xs, r)) => Some((seq![x] + xs, r)),
                None => None,
            },
            None => None,
        },
{
}

/// Prepending what was already read to the rest of a list read.
spec fn after<A>(done: Seq<A>, rest: Option<(Seq<A>, int)>) -> Option<(Seq<A>, int)> {
    match rest {
        Some((xs, r)) => Some((done + xs, r)),
        None => None,
    }
}

/// Reading one more item moves it from the rest to what was read.
proof fn lemma_after_step<A>(done: Seq<A>, x: A, b: Seq<u8>, q: int, m: nat, f: spec_fn(Seq<u8>, int) -> Option<(A, int)>)
    ensures
        after(done, match parse_list(b, q, m, f) {
            Some((xs, r)) => Some((seq![x] + xs, r)),
            None => None,
        }) == after(done.push(x), parse_list(b, q, m, f)),
{
    if let Some((xs, r)) = parse_list(b, q, m, f) {
        assert(done + (seq![x] + xs) =~= done.push(x) + xs);
    }
}

fn decode_entries(b: &[u8], p0: usize, n: usize) -> (r: Option<(Vec<(Move, u16)>, usize)>)
    requires
        p0 <= b@.len(),
    ensures
        match r {
            Some((v, q)) => parse_list(b@, p0 as int, n as nat, entry_parser()) == Some((v@, q as int)) && q <= b@.len(),
            None => parse_list(b@, p0 as int, n as nat, entry_parser()) is None,
        },
{
    let mut out: Vec<(Move, u16)> = Vec::new();
    let mut p = p0;
    let mut i: usize = 0;
    assert(out@ + Seq::<(Move, u16)>::empty() =~= Seq::<(Move, u16)>::empty());
    while i < n
        invariant
            i <= n,
            p <= b@.len(),
            parse_list(b@, p0 as int, n as nat, entry_parser()) == after(out@, parse_list(b@, p as int, (n - i) as nat, entry_parser())),
        decreases n - i,
    {
        proof {
            lemma_list_step(b@, p as int, (n - i - 1) as nat, entry_parser());
        }
        match decode_entry(b, p) {
            Some((x, q)) => {
                proof {
                    lemma_after_step(out@, x, b@, q as int, (n - i - 1) as nat, entry_parser());
                }
                out.push(x);
                p = q;
            },
            None => {
                return None;
            },
        }
        i = i + 1;
    }
    assert(out@ + Seq::<(Move, u16)>::empty() =~= out@);
    Some((out, p))
}

fn decode_cards(b: &[u8], p0: usize, n: usize) -> (r: Option<(Vec<Card>, usize)>)
    requires
        p0 <= b@.len(),
    ensures
        match r {
            Some((v, q)) => parse_list(b@, p0 as int, n as nat, card_parser()) == Some((v@, q as int)) && q <= b@.len(),
            None => parse_list(b@, p0 as int, n as nat, card_parser()) is None,
        },
{
    let mut out: Vec<Card> = Vec::new();
    let mut p = p0;
    let mut i: usize = 0;
    assert(out@ + Seq::<Card>::empty() =~= Seq::<Card>::empty());
    while i < n
        invariant
            i <= n,
            p <= b@.len(),
            parse_list(b@, p0 as int, n as nat, card_parser()) == after(out@, parse_list(b@, p as int, (n - i) as nat, card_parser())),
        decreases n - i,
    {
        proof {
            lemma_list_step(b@, p as int, (n - i - 1) as nat, card_parser());
        }
        match decode_card(b, p) {
            Some((x, q)) => {
                proof {
                    lemma_after_step(out@, x, b@, q as int, (n - i - 1) as nat, card_parser());
                }
                out.push(x);
                p = q;
            },
            None => {
                return None;
            },
        }
        i = i + 1;
    }
    assert(out@ + Seq::<Card>::empty() =~= out@);
    Some((out, p))
}

fn decode_moves(b: &[u8], p0: usize, n: usize) -> (r: Option<(Vec<Move>, usize)>)
    requires
        p0 <= b@.len(),
    ensures
        match r {
            Some((v, q)) => parse_list(b@, p0 as int, n as nat, move_parser()) == Some((v@, q as int)) && q <= b@.len(),
            None => parse_list(b@, p0 as int, n as nat, move_parser()) is None,
        },
{
    let mut out: Vec<Move> = Vec::new();
    let mut p = p0;
    let mut i: usize = 0;
    assert(out@ + Seq::<Move>::empty() =~= Seq::<Move>::empty());
    while i < n
        invariant
            i <= n,
            p <= b@.len(),
            parse_list(b@, p0 as int, n as nat, move_parser()) == after(out@, parse_list(b@, p as int, (n - i) as nat, move_parser())),
        decreases n - i,
    {
        proof {
            lemma_list_step(b@, p as int, (n - i - 1) as nat, move_parser());
        }
        match decode_move(b, p) {
            Some((x, q)) => {
                proof {
                    lemma_after_step(out@, x, b@, q as int, (n - i - 1) as nat, move_parser());
                }
                out.push(x);
                p = q;
            },
            None => {
                return None;
            },
        }
        i = i + 1;
    }
    assert(out@ + Seq::<Move>::empty() =~= out@);
    Some((out, p))
}

fn decode_decision(b: &[u8], p: usize) -> (r: Option<(RecordedDecision, usize)>)
    requires
        p <= b@.len(),
    ensures
        match r {
            Some((d, q)) => (decision_parser())(b@, p as int) == Some((d@, q as int)) && q <= b@.len(),
            None => (decision_parser())(b@, p as int) is None,
        },
{
    if b.len() - p < 3 || (b[p + 2] as usize) > MOVE_SPACE {
        return None;
    }
    let ply = read_le(b, p, 2);
    proof {
        lemma_le2(b@, p as int, 0);
    }
    match decode_entries(b, p + 3, b[p + 2] as usize) {
        None => None,
        Some((policy, q)) => {
            if b.len() - q < 3 {
                return None;
            }
            let td = read_le(b, q + 1, 2);
            proof {
                lemma_le2(b@, (q + 1) as int, 0);
            }
            Some((RecordedDecision { ply: ply as u16, policy, outcome: b[q], td_target: td as u16 }, q + 3))
        },
    }
}

/// The recorded decisions' contents.
spec fn views(v: Seq<RecordedDecision>) -> Seq<DecisionView> {
    v.map_values(|d: RecordedDecision| d@)
}

fn decode_decisions(b: &[u8], p0: usize, n: usize) -> (r: Option<(Vec<RecordedDecision>, usize)>)
    requires
        p0 <= b@.len(),
    ensures
        match r {
            Some((v, q)) => parse_list(b@, p0 as int, n as nat, decision_parser()) == Some((views(v@), q as int)) && q <= b@.len(),
            None => parse_list(b@, p0 as int, n as nat, decision_parser()) is None,
        },
{
    let mut out: Vec<RecordedDecision> = Vec::new();
    let mut p = p0;
    let mut i: usize = 0;
    assert(views(out@) + Seq::<DecisionView>::empty() =~= Seq::<DecisionView>::empty());
    while i < n
        invariant
            i <= n,
            p <= b@.len(),
            parse_list(b@, p0 as int, n as nat, decision_parser()) == after(views(out@), parse_list(b@, p as int, (n - i) as nat, decision_parser())),
        decreases n - i,
    {
        proof {
            lemma_list_step(b@, p as int, (n - i - 1) as nat, decision_parser());
        }
        match decode_decision(b, p) {
            Some((x, q)) => {
                proof {
                    lemma_after_step(views(out@), x@, b@, q as int, (n - i - 1) as nat, decision_parser());
                }
                let ghost before = out@;
                out.push(x);
                assert(views(out@) =~= views(before).push(x@));
                p = q;
            },
            None => {
                return None;
            },
        }
        i = i + 1;
    }
    assert(views(out@) + Seq::<DecisionView>::empty() =~= views(out@));
    Some((out, p))
}

/// Read the game written from position `p`.
fn read_game(b: &[u8], p: usize) -> (r: Option<(GameRecord, usize)>)
    requires
        p <= b@.len(),
    ensures
        match r {
            Some((g, q)) => parse_game(b@, p as int) == Some((g@, q as int)),
            None => parse_game(b@, p as int) is None,
        },
{
    if p >= b.len() || (b[p] as usize) > NUM_CARDS {
        return None;
    }
    let (kingdom, p2) = match decode_cards(b, p + 1, b[p] as usize) {
        Some(x) => x,
        None => {
            return None;
        },
    };
    if b.len() - p2 < 13 {
        return None;
    }
    let players = b[p2];
    let seed = read_le(b, p2 + 1, 8);
    let n_moves = read_le(b, p2 + 9, 4);
    if n_moves > MAX_ENTRIES as u64 {
        return None;
    }
    let (moves, p6) = match decode_moves(b, p2 + 13, n_moves as usize) {
        Some(x) => x,
        None => {
            return None;
        },
    };
    if b.len() - p6 < 4 {
        return None;
    }
    let n_dec = read_le(b, p6, 4);
    if n_dec > MAX_ENTRIES as u64 {
        return None;
    }
    let (decisions, p8) = match decode_decisions(b, p6 + 4, n_dec as usize) {
        Some(x) => x,
        None => {
            return None;
        },
    };
    let g = GameRecord { kingdom, players, seed, moves, decisions };
    assert(g@.decisions == views(decisions@));
    Some((g, p8))
}

/// Read the game written at position `p` of `b`: the one acceptable game
/// whose bytes start there, or `None` when no acceptable game does (a
/// damaged or half-written record).
pub fn decode_game(b: &[u8], p: usize) -> (r: Option<(GameRecord, usize)>)
    requires
        p <= b@.len(),
    ensures
        match r {
            Some((g, q)) => {
                &&& decodable(g@)
                &&& holds_at(b@, p as int, (game_bytes())(g@))
                &&& q == p + (game_bytes())(g@).len()
                &&& forall|h: GameView| #![trigger holds_at(b@, p as int, (game_bytes())(h))]
                    decodable(h) && holds_at(b@, p as int, (game_bytes())(h)) ==> h == g@
            },
            None => forall|h: GameView| #![trigger holds_at(b@, p as int, (game_bytes())(h))]
                decodable(h) ==> !holds_at(b@, p as int, (game_bytes())(h)),
        },
{
    let r = read_game(b, p);
    proof {
        if r is Some {
            lemma_game_sound(b@, p as int);
        }
        assert forall|h: GameView| #![trigger holds_at(b@, p as int, (game_bytes())(h))]
            decodable(h) && holds_at(b@, p as int, (game_bytes())(h)) implies parse_game(b@, p as int) == Some((h, p + (game_bytes())(h).len())) by {
            lemma_game_complete(b@, p as int, h);
        }
    }
    r
}

/// The games that can be read one after another from position `p`: an
/// acceptable game's bytes at `p`, then the games after them, until the
/// bytes hold no acceptable game.
pub open spec fn games_from(b: Seq<u8>, p: int) -> Seq<GameView>
    decreases b.len() - p,
{
    if 0 <= p < b.len() && exists|g: GameView| decodable(g) && #[trigger] holds_at(b, p, (game_bytes())(g)) {
        let g = choose|g: GameView| decodable(g) && #[trigger] holds_at(b, p, (game_bytes())(g));
        seq![g] + games_from(b, p + (game_bytes())(g).len())
    } else {
        Seq::empty()
    }
}

/// The games of a compact file: the magic number must open it, and every
/// complete game after it is read; a half-written game at the end stops
/// the read without failing it.
pub fn parse_games(bytes: &[u8]) -> (r: Result<Vec<GameRecord>, CompactError>)
    ensures
        match r {
            Ok(v) => bytes@.len() >= 4 && le_value(bytes@.subrange(0, 4)) == MAGIC
                && v@.map_values(|g: GameRecord| g@) == games_from(bytes@, 4),
            Err(CompactError::Truncated) => bytes@.len() < 4,
            Err(CompactError::NotACompactFile) => bytes@.len() >= 4 && le_value(bytes@.subrange(0, 4)) != MAGIC,
            Err(_) => false,
        },
{
    if bytes.len() < 4 {
        return Err(CompactError::Truncated);
    }
    if read_le(bytes, 0, 4) != MAGIC as u64 {
        return Err(CompactError::NotACompactFile);
    }
    let ghost b = bytes@;
    let mut out: Vec<GameRecord> = Vec::new();
    let mut p: usize = 4;
    let mut stop = false;
    assert(out@.map_values(|g: GameRecord| g@) + games_from(b, 4) =~= games_from(b, 4));
    while p < bytes.len() && !stop
        invariant
            b == bytes@,
            4 <= p <= b.len(),
            out@.map_values(|g: GameRecord| g@) + games_from(b, p as int) == games_from(b, 4),
            stop ==> games_from(b, p as int) == Seq::<GameView>::empty(),
        decreases b.len() - p + (if stop { 0int } else { 1int }),
    {
        match decode_game(bytes, p) {
            Some((g, q)) => {
                proof {
                    let h = choose|h: GameView| decodable(h) && #[trigger] holds_at(b, p as int, (game_bytes())(h));
                    assert(h == g@);
                    assert(games_from(b, p as int) == seq![g@] + games_from(b, q as int));
                }
                let ghost before = out@;
                out.push(g);
                proof {
                    assert(out@.map_values(|g: GameRecord| g@) =~= before.map_values(|g: GameRecord| g@).push(g@));
                    assert(out@.map_values(|g: GameRecord| g@) + games_from(b, q as int) =~= before.map_values(
                        |g: GameRecord| g@,
                    ) + (seq![g@] + games_from(b, q as int)));
                }
                p = q;
            },
            None => {
                stop = true;
            },
        }
    }
    assert(games_from(b, p as int) =~= Seq::<GameView>::empty());
    assert(out@.map_values(|g: GameRecord| g@) + Seq::<GameView>::empty() =~= out@.map_values(|g: GameRecord| g@));
    Ok(out)
}

/// Games written one after another are read back one after another: after
/// any prefix, the acceptable games written there are read back in order,
/// whatever follows them (a damaged tail costs only what it damaged).
#[verifier::spinoff_prover]
#[verifier::rlimit(40)]
pub proof fn lemma_games_read_back(prefix: Seq<u8>, gs: Seq<GameView>, tail: Seq<u8>)
    requires
        forall|i: int| 0 <= i < gs.len() ==> decodable(#[trigger] gs[i]),
    ensures
        games_from(prefix + joined(gs, game_bytes()) + tail, prefix.len() as int) == gs + games_from(
            prefix + joined(gs, game_bytes()) + tail,
            (prefix + joined(gs, game_bytes())).len() as int,
        ),
    decreases gs.len(),
{
    let b = prefix + joined(gs, game_bytes()) + tail;
    if gs.len() == 0 {
        assert(joined(gs, game_bytes()) =~= Seq::<u8>::empty());
        assert(gs + games_from(b, prefix.len() as int) =~= games_from(b, prefix.len() as int));
    } else {
        let g = gs[0];
        let rest = gs.drop_first();
        let e = (game_bytes())(g);
        let p = prefix.len() as int;
        assert(joined(gs, game_bytes()) == e + joined(rest, game_bytes()));
        let prefix2 = prefix + e;
        assert(b =~= prefix2 + joined(rest, game_bytes()) + tail);
        assert(b.subrange(p, p + e.len()) =~= e);
        assert(holds_at(b, p, e));
        assert(decodable(g));
        assert(e.len() > 0);
        let h = choose|h: GameView| decodable(h) && #[trigger] holds_at(b, p, (game_bytes())(h));
        lemma_game_complete(b, p, g);
        lemma_game_complete(b, p, h);
        assert(h == g);
        assert(games_from(b, p) == seq![g] + games_from(b, p + e.len()));
        assert forall|i: int| 0 <= i < rest.len() implies decodable(#[trigger] rest[i]) by {
            assert(rest[i] == gs[i + 1]);
        }
        lemma_games_read_back(prefix2, rest, tail);
        assert((prefix2 + joined(rest, game_bytes())).len() == (prefix + joined(gs, game_bytes())).len());
        assert(gs =~= seq![g] + rest);
        assert(seq![g] + (rest + games_from(b, (prefix + joined(gs, game_bytes())).len() as int)) =~= gs
            + games_from(b, (prefix + joined(gs, game_bytes())).len() as int));
    }
}

/// A file made of the magic number and encoded acceptable games reads back
/// as exactly those games.
pub proof fn lemma_file_round_trip(gs: Seq<GameView>)
    requires
        forall|i: int| 0 <= i < gs.len() ==> decodable(#[trigger] gs[i]),
    ensures
        games_from(le_bytes(MAGIC as nat, 4) + joined(gs, game_bytes()), 4) == gs,
{
    let head = le_bytes(MAGIC as nat, 4);
    reveal_with_fuel(pow256, 5);
    lemma_le_round_trip(MAGIC as nat, 4);
    lemma_games_read_back(head, gs, Seq::empty());
    assert(head + joined(gs, game_bytes()) + Seq::<u8>::empty() =~= head + joined(gs, game_bytes()));
    let b = head + joined(gs, game_bytes());
    assert(games_from(b, b.len() as int) =~= Seq::<GameView>::empty());
    assert(gs + Seq::<GameView>::empty() =~= gs);
}

/// What an error says.
pub open spec fn error_text(e: CompactError) -> Seq<char> {
    match e {
        CompactError::NotACompactFile => "not a compact self-play file"@,
        CompactError::Truncated => "file ends mid-record"@,
        CompactError::Malformed(m) => "malformed record: "@ + m@,
        CompactError::ReplayDiverged { game, detail } => "game "@ + dec(game as nat) + " did not replay as recorded ("@
            + detail@ + ") \u{2014} the engine and this data disagree, refusing to train on it"@,
    }
}

impl CompactError {
    /// The error as a sentence.
    pub fn message(&self) -> (r: String)
        ensures
            r@ == error_text(*self),
    {
        match self {
            CompactError::NotACompactFile => String::from_str("not a compact self-play file"),
            CompactError::Truncated => String::from_str("file ends mid-record"),
            CompactError::Malformed(m) => {
                let mut out: Vec<char> = Vec::new();
                push_str(&mut out, "malformed record: ");
                push_str(&mut out, m.as_str());
                chars_to_string(&out)
            },
            CompactError::ReplayDiverged { game, detail } => {
                let mut out: Vec<char> = Vec::new();
                push_str(&mut out, "game ");
                push_decimal(&mut out, *game as u64);
                push_str(&mut out, " did not replay as recorded (");
                push_str(&mut out, detail.as_str());
                push_str(&mut out, ") \u{2014} the engine and this data disagree, refusing to train on it");
                chars_to_string(&out)
            },
        }
    }
}

// ------------------------------------------------------------ replaying

/// Why a setup is refused, as `Game::new` says it.
pub open spec fn setup_refusal(kingdom: Seq<Card>, players: nat) -> Seq<char> {
    if kingdom.len() != 10 {
        "expected 10 cards, got "@ + dec(kingdom.len())
    } else if !kingdom.no_duplicates() {
        "duplicate cards"@
    } else if first_outside_kingdom(kingdom) is Some {
        outside_text(first_outside_kingdom(kingdom))
    } else {
        "unsupported player count "@ + dec(players)
    }
}

/// No card of `s` is outside the kingdom cards exactly when every card is
/// a kingdom card.
pub(crate) proof fn lemma_first_outside_none(s: Seq<Card>)
    ensures
        first_outside_kingdom(s) is None <==> forall|i: int| 0 <= i < s.len() ==> crate::card::is_kingdom(#[trigger] s[i]),
    decreases s.len(),
{
    if s.len() > 0 {
        let t = s.drop_last();
        lemma_first_outside_none(t);
        if first_outside_kingdom(s) is None {
            assert forall|i: int| 0 <= i < s.len() implies crate::card::is_kingdom(#[trigger] s[i]) by {
                if i < t.len() {
                    assert(s[i] == t[i]);
                }
            }
        } else if first_outside_kingdom(t) is Some {
            let i = choose|i: int| 0 <= i < t.len() && !crate::card::is_kingdom(#[trigger] t[i]);
            assert(s[i] == t[i]);
        }
    }
}

/// The replay ran out of decisions before the moves ran out.
pub open spec fn ended_text(ply: nat, left: nat) -> Seq<char> {
    "game ended at ply "@ + dec(ply) + ", "@ + dec(left) + " moves remained"@
}

/// The engine refused a recorded move.
pub open spec fn rejected_text(mv: Move, ply: nat, why: Seq<char>) -> Seq<char> {
    "move "@ + move_text(mv) + " at ply "@ + dec(ply) + " was rejected: "@ + why
}

/// Some recorded decisions were never reached.
pub open spec fn past_end_text() -> Seq<char> {
    "recorded decisions past the end of the move list"@
}

/// The recorded decisions come at increasing plies, each before the end of
/// the move list: exactly what lets a replay meet every one of them.
pub open spec fn plies_in_order(g: GameView) -> bool {
    &&& forall|i: int, j: int| 0 <= i < j < g.decisions.len() ==> (#[trigger] g.decisions[i]).ply < (#[trigger] g.decisions[j]).ply
    &&& forall|i: int| 0 <= i < g.decisions.len() ==> (#[trigger] g.decisions[i]).ply < g.moves.len()
}

/// `st` is, up to the contents of its vectors, a position the game of `g`
/// reaches at the ply of its `j`-th recorded decision.
pub open spec fn replayed_at(g: GameView, j: int, st: GameState) -> bool {
    exists|s: GameState| #[trigger] played(g.kingdom, g.players as nat, g.seed, g.moves.take(g.decisions[j].ply as int), s)
        && same_game(st, s)
}

/// What a failed replay can report.
pub open spec fn replay_detail(g: GameView, detail: Seq<char>) -> bool {
    ||| !valid_setup(g.kingdom, g.players as nat) && detail == "bad kingdom: "@ + setup_refusal(g.kingdom, g.players as nat)
    ||| valid_setup(g.kingdom, g.players as nat) && exists|ply: nat, left: nat| ply < g.moves.len() && left == g.moves.len() - ply
        && detail == #[trigger] ended_text(ply, left) && exists|s: GameState| #[trigger] played(g.kingdom, g.players as nat,
        g.seed, g.moves.take(ply as int), s) && s.pending is None
    ||| valid_setup(g.kingdom, g.players as nat) && exists|ply: nat, mv: Move, legal: Seq<Move>| ply < g.moves.len()
        && mv == g.moves[ply as int] && !legal.contains(mv) && detail == #[trigger] rejected_text(mv, ply, illegal_text(mv, legal))
        && exists|s: GameState| #[trigger] played(g.kingdom, g.players as nat, g.seed, g.moves.take(ply as int), s)
        && s.pending is Some && s.pending.unwrap().options@ == legal
    ||| valid_setup(g.kingdom, g.players as nat) && !plies_in_order(g) && detail == past_end_text()
}

/// Replay a record and collect the position of every recorded decision,
/// for the features that training rebuilds from them.
///
/// Every recorded ply must land on a real decision. When it does not, the
/// data and the engine disagree, and the replay fails with the reason
/// rather than yield positions that never occurred.
#[verifier::rlimit(50)]
pub fn replay_record(rec: &GameRecord, index: usize) -> (r: Result<Vec<(GameState, Decision)>, CompactError>)
    ensures
        match r {
            Ok(v) => {
                &&& valid_setup(rec@.kingdom, rec@.players as nat)
                &&& plies_in_order(rec@)
                &&& v@.len() == rec@.decisions.len()
                &&& forall|j: int| 0 <= j < v@.len() ==> same_pending((#[trigger] v@[j]).0.pending, Some(v@[j].1))
                &&& forall|j: int| 0 <= j < v@.len() ==> replayed_at(rec@, j, #[trigger] v@[j].0)
            },
            Err(CompactError::ReplayDiverged { game, detail }) => game == index && replay_detail(rec@, detail@),
            Err(_) => false,
        },
        !valid_setup(rec@.kingdom, rec@.players as nat) ==> (r matches Err(CompactError::ReplayDiverged { game, detail })
            && detail@ == "bad kingdom: "@ + setup_refusal(rec@.kingdom, rec@.players as nat)),
        !plies_in_order(rec@) ==> r is Err,
{
    let mut game = match Game::new(&rec.kingdom, rec.players as usize, rec.seed) {
        Ok(g) => g,
        Err(e) => {
            proof {
                lemma_first_outside_none(rec.kingdom@);
            }
            let detail = e.message();
            return Err(CompactError::ReplayDiverged { game: index, detail });
        },
    };
    let ghost g = rec@;
    let ghost ds = g.decisions;
    let ghost np = g.players as nat;
    proof {
        lemma_played_start(g.kingdom, np, g.seed, game.state);
        assert(g.moves.take(0) =~= Seq::<Move>::empty());
    }
    let mut out: Vec<(GameState, Decision)> = Vec::new();
    let mut next: usize = 0;
    let mut ply: usize = 0;
    while ply < rec.moves.len()
        invariant
            g == rec@,
            np == g.players as nat,
            g.moves == rec.moves@,
            played(g.kingdom, np, g.seed, g.moves.take(ply as int), game.state),
            forall|j: int| 0 <= j < out@.len() ==> replayed_at(g, j, #[trigger] out@[j].0),
            ds == g.decisions,
            ds.len() == rec.decisions@.len(),
            valid_setup(g.kingdom, g.players as nat),
            crate::census::wf(game.state),
            ply <= rec.moves@.len(),
            next <= ds.len(),
            out@.len() == next,
            forall|i: int, j: int| 0 <= i < j < next ==> (#[trigger] ds[i]).ply < (#[trigger] ds[j]).ply,
            forall|i: int| 0 <= i < next ==> (#[trigger] ds[i]).ply < ply,
            plies_in_order(g) && next < ds.len() ==> ds[next as int].ply >= ply,
            forall|j: int| 0 <= j < out@.len() ==> same_pending((#[trigger] out@[j]).0.pending, Some(out@[j].1)),
        decreases rec.moves@.len() - ply,
    {
        let d = match game.decision() {
            Some(d) => d.clone(),
            None => {
                let mut out_text: Vec<char> = Vec::new();
                push_str(&mut out_text, "game ended at ply ");
                push_decimal(&mut out_text, ply as u64);
                push_str(&mut out_text, ", ");
                push_decimal(&mut out_text, (rec.moves.len() - ply) as u64);
                push_str(&mut out_text, " moves remained");
                proof {
                    assert(out_text@ =~= ended_text(ply as nat, (g.moves.len() - ply) as nat));
                    assert(played(g.kingdom, np, g.seed, g.moves.take(ply as int), game.state));
                }
                return Err(CompactError::ReplayDiverged { game: index, detail: chars_to_string(&out_text) });
            },
        };
        if next < rec.decisions.len() && rec.decisions[next].ply as usize == ply {
            proof {
                assert(ds[next as int] == rec.decisions@[next as int]@);
            }
            let snapshot = game.state.clone();
            let ghost before = out@;
            out.push((snapshot, d));
            proof {
                assert forall|j: int| 0 <= j < out@.len() implies same_pending((#[trigger] out@[j]).0.pending, Some(out@[j].1)) by {
                    if j < before.len() {
                        assert(out@[j] == before[j]);
                    }
                }
                assert(played(g.kingdom, np, g.seed, g.moves.take(ply as int), game.state));
                assert(same_game(out@[before.len() as int].0, game.state));
                assert(before.len() == next);
                assert(g.decisions[before.len() as int].ply as int == ply as int);
                assert(replayed_at(g, before.len() as int, out@[before.len() as int].0));
                assert forall|j: int| 0 <= j < out@.len() implies replayed_at(g, j, #[trigger] out@[j].0) by {
                    if j < before.len() {
                        assert(out@[j] == before[j]);
                    }
                }
            }
            next = next + 1;
        } else {
            proof {
                if next < ds.len() {
                    assert(ds[next as int] == rec.decisions@[next as int]@);
                }
            }
        }
        let mv = rec.moves[ply];
        let ghost before_move = game.state;
        match game.apply(mv) {
            Ok(()) => {},
            Err(e) => {
                let why = e.message();
                let mut out_text: Vec<char> = Vec::new();
                push_str(&mut out_text, "move ");
                push_str(&mut out_text, move_to_text(mv).as_str());
                push_str(&mut out_text, " at ply ");
                push_decimal(&mut out_text, ply as u64);
                push_str(&mut out_text, " was rejected: ");
                push_str(&mut out_text, why.as_str());
                proof {
                    let legal = d.options@;
                    assert(played(g.kingdom, np, g.seed, g.moves.take(ply as int), game.state));
                    assert(why@ == illegal_text(mv, legal));
                    assert(out_text@ =~= rejected_text(g.moves[ply as int], ply as nat, illegal_text(g.moves[ply as int], legal)));
                }
                return Err(CompactError::ReplayDiverged { game: index, detail: chars_to_string(&out_text) });
            },
        }
        proof {
            assert(move_step(before_move, mv, game.state));
            lemma_played_step(g.kingdom, np, g.seed, g.moves.take(ply as int), before_move, mv, game.state);
            assert(g.moves.take(ply + 1) =~= g.moves.take(ply as int).push(mv));
        }
        ply = ply + 1;
    }
    if next < rec.decisions.len() {
        proof {
            if plies_in_order(g) {
                assert(ds[next as int].ply < g.moves.len());
            }
        }
        return Err(CompactError::ReplayDiverged { game: index, detail: String::from_str("recorded decisions past the end of the move list") });
    }
    Ok(out)
}

} // verus!
