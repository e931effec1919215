//! Card accounting. Every physical card is in exactly one place: a supply
//! pile, the trash, one of a player's zones, or held by an effect in progress
//! (cards that Sentry or Bandit revealed sit in the scratch of their frame,
//! after the first slot that names the effect). The census of a card counts
//! its copies over all of these places.

use vstd::prelude::*;
use vstd::multiset::Multiset;
use crate::card::Card;
use crate::state::{cnt, lemma_cnt_push, Frame, FrameKind, GameState, PlayerState};

verus! {

broadcast use vstd::seq_lib::group_to_multiset_ensures, vstd::multiset::group_multiset_axioms;

/// Copies of `c` in a player's zones.
pub open spec fn pcnt(p: PlayerState, c: Card) -> int {
    (cnt(p.deck@, c) + cnt(p.hand@, c) + cnt(p.discard@, c) + cnt(p.play@, c) + cnt(
        p.set_aside@,
        c,
    )) as int
}

/// The cards an effect in progress holds: its scratch after the first slot.
pub open spec fn held(f: Frame) -> Seq<Card> {
    if f.scratch@.len() > 0 {
        f.scratch@.drop_first()
    } else {
        Seq::empty()
    }
}

/// Copies of `c` over all players.
pub open spec fn players_cnt(ps: Seq<PlayerState>, c: Card) -> int
    decreases ps.len(),
{
    if ps.len() == 0 {
        0
    } else {
        players_cnt(ps.drop_last(), c) + pcnt(ps.last(), c)
    }
}

/// Copies of `c` held by the frames of a stack.
pub open spec fn frames_cnt(fs: Seq<Frame>, c: Card) -> int
    decreases fs.len(),
{
    if fs.len() == 0 {
        0
    } else {
        frames_cnt(fs.drop_last(), c) + cnt(held(fs.last()), c)
    }
}

/// Copies of `c` in the game: supply, trash, player zones and frames.
pub open spec fn census(s: GameState, c: Card) -> int {
    s.supply@[c.spec_idx() as int] as int + cnt(s.trash@, c) as int + players_cnt(s.players@, c) + frames_cnt(
        s.stack@,
        c,
    )
}

/// Two states hold the same number of copies of every card.
pub open spec fn conserved(a: GameState, b: GameState) -> bool {
    forall|c: Card| #[trigger] census(a, c) == census(b, c)
}

/// The table stays as it was set up: the same players, the same piles in the
/// supply and the same turn limit.
pub open spec fn same_table(a: GameState, b: GameState) -> bool {
    &&& b.players@.len() == a.players@.len()
    &&& b.in_supply == a.in_supply
    &&& b.turn_limit == a.turn_limit
}

/// Copies of `c` in a sequence `extra` of cards in transit.
pub open spec fn ext(extra: Seq<Card>, c: Card) -> int {
    cnt(extra, c) as int
}

/// `b` holds every card of `a` except those in `extra`, which are in transit.
pub open spec fn conserved_with(a: GameState, b: GameState, extra: Seq<Card>) -> bool {
    forall|c: Card| #[trigger] census(a, c) == census(b, c) + ext(extra, c)
}

/// A frame the engine can run: it acts on an existing player, and it holds
/// cards only while it is Sentry's or Bandit's routine after the reveal.
pub open spec fn frame_ok(f: Frame, n: nat) -> bool {
    &&& (f.player as nat) < n
    &&& f.kind == FrameKind::Resolve ==> f.scratch@.len() >= 1
    &&& f.scratch@.len() <= 1 || (f.kind == FrameKind::Resolve && f.scratch.slot(0)
        == Card::Sentry && f.step >= 2) || (f.kind == FrameKind::AttackOne && f.scratch.slot(0)
        == Card::Bandit && f.step >= 3)
}

/// The engine's invariant on game states.
pub open spec fn wf(s: GameState) -> bool {
    &&& 2 <= s.players@.len() <= crate::state::MAX_PLAYERS
    &&& s.current < s.players@.len()
    &&& forall|i: int| 0 <= i < s.stack@.len() ==> frame_ok(#[trigger] s.stack@[i], s.players@.len())
    &&& forall|i: int|
        0 <= i < s.players@.len() ==> (#[trigger] s.players@[i]).known_top
            <= s.players@[i].deck@.len()
    &&& s.pending matches Some(d) ==> d.player < s.players@.len() && d.options@.len() >= 1
        && d.options@.no_duplicates()
}

/// The decision rule the engine keeps between calls: either the game is over
/// and nothing is pending, or a decision with at least two options is.
pub open spec fn settled(s: GameState) -> bool {
    &&& s.over ==> s.pending is None
    &&& !s.over ==> (s.pending matches Some(d) && d.options@.len() >= 2)
}

/// Every field except the players is the same.
pub open spec fn same_but_players(a: GameState, b: GameState) -> bool {
    &&& a.supply == b.supply
    &&& a.in_supply == b.in_supply
    &&& a.trash == b.trash
    &&& a.current == b.current
    &&& a.stack == b.stack
    &&& a.pending == b.pending
    &&& a.answer == b.answer
    &&& a.over == b.over
    &&& a.turn_limit == b.turn_limit
}

/// States that agree on supply, trash, players and stack hold the same cards.
pub proof fn lemma_same_cards(a: GameState, b: GameState)
    requires
        a.supply == b.supply,
        a.trash == b.trash,
        a.players == b.players,
        a.stack == b.stack,
    ensures
        conserved(a, b),
{
}

/// Conservation is transitive.
pub proof fn lemma_conserved_trans(a: GameState, b: GameState, c: GameState)
    requires
        conserved(a, b),
        conserved(b, c),
    ensures
        conserved(a, c),
{
    assert forall|x: Card| #[trigger] census(a, x) == census(c, x) by {
        assert(census(a, x) == census(b, x));
        assert(census(b, x) == census(c, x));
    }
}

/// Counting distributes over concatenation.
pub proof fn lemma_cnt_concat(a: Seq<Card>, b: Seq<Card>, c: Card)
    ensures
        cnt(a + b, c) == cnt(a, c) + cnt(b, c),
{
    vstd::seq_lib::lemma_multiset_commutative(a, b);
}

/// A sequence holds at most as many copies of a card as it has cards.
pub proof fn lemma_cnt_le_len(s: Seq<Card>, c: Card)
    ensures
        cnt(s, c) <= s.len(),
{
    vstd::seq_lib::to_multiset_len(s);
    assert(s.to_multiset().count(c) <= s.to_multiset().len());
}

/// Removing position `i` removes one copy of that card.
pub proof fn lemma_cnt_remove(s: Seq<Card>, i: int, c: Card)
    requires
        0 <= i < s.len(),
    ensures
        cnt(s.remove(i), c) == cnt(s, c) - if s[i] == c { 1int } else { 0int },
{
    assert(s.remove(i).to_multiset() =~= s.to_multiset().remove(s[i]));
}

/// The empty sequence holds nothing.
pub proof fn lemma_cnt_empty(c: Card)
    ensures
        cnt(Seq::<Card>::empty(), c) == 0,
{
    assert(Seq::<Card>::empty().to_multiset() =~= Multiset::empty());
}

/// Dropping the last card removes one copy of it.
pub proof fn lemma_cnt_drop_last(s: Seq<Card>, c: Card)
    requires
        s.len() > 0,
    ensures
        cnt(s, c) == cnt(s.drop_last(), c) + if s.last() == c { 1int } else { 0int },
{
    assert(s =~= s.drop_last().push(s.last()));
    lemma_cnt_push(s.drop_last(), s.last(), c);
}

/// Two sequences with the same multiset hold the same number of each card.
pub proof fn lemma_cnt_perm(a: Seq<Card>, b: Seq<Card>, c: Card)
    requires
        a.to_multiset() == b.to_multiset(),
    ensures
        cnt(a, c) == cnt(b, c),
{
}

/// Replacing one player changes the player total by the difference.
pub proof fn lemma_players_cnt_update(ps: Seq<PlayerState>, i: int, x: PlayerState, c: Card)
    requires
        0 <= i < ps.len(),
    ensures
        players_cnt(ps.update(i, x), c) == players_cnt(ps, c) - pcnt(ps[i], c) + pcnt(x, c),
    decreases ps.len(),
{
    let u = ps.update(i, x);
    if i == ps.len() - 1 {
        assert(u.drop_last() =~= ps.drop_last());
    } else {
        assert(u.drop_last() =~= ps.drop_last().update(i, x));
        lemma_players_cnt_update(ps.drop_last(), i, x, c);
    }
}

/// Pushing a frame adds what it holds.
pub proof fn lemma_frames_cnt_push(fs: Seq<Frame>, f: Frame, c: Card)
    ensures
        frames_cnt(fs.push(f), c) == frames_cnt(fs, c) + cnt(held(f), c),
{
    assert(fs.push(f).drop_last() =~= fs);
}

/// Popping a frame removes what it holds.
pub proof fn lemma_frames_cnt_pop(fs: Seq<Frame>, c: Card)
    requires
        fs.len() > 0,
    ensures
        frames_cnt(fs, c) == frames_cnt(fs.drop_last(), c) + cnt(held(fs.last()), c),
{
}

/// A frame whose scratch has at most one card holds nothing.
pub proof fn lemma_held_short(f: Frame, c: Card)
    requires
        f.scratch@.len() <= 1,
    ensures
        cnt(held(f), c) == 0,
{
    assert(held(f) =~= Seq::<Card>::empty());
    lemma_cnt_empty(c);
}

/// Replacing player `p` by `x`, with everything else kept, shifts each census
/// by the difference between the two players' counts.
pub proof fn lemma_census_player(a: GameState, b: GameState, p: int, x: PlayerState)
    requires
        same_but_players(a, b),
        0 <= p < a.players@.len(),
        b.players@ == a.players@.update(p, x),
    ensures
        forall|c: Card|
            #[trigger] census(b, c) == census(a, c) - pcnt(a.players@[p], c) + pcnt(x, c),
{
    assert forall|c: Card| #[trigger]
        census(b, c) == census(a, c) - pcnt(a.players@[p], c) + pcnt(x, c) by {
        lemma_players_cnt_update(a.players@, p, x, c);
    }
}

} // verus!
