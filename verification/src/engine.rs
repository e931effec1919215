//! The rules engine.
//!
//! [`Game::advance`] runs the continuation stack until a player has a real
//! choice, then parks it in [`GameState::pending`]; callers answer with
//! [`Game::apply`]. Decisions with a single legal move are resolved by the
//! engine itself, so callers only see choices that matter.

use vstd::prelude::*;
use crate::card::{Card, NUM_CARDS, spec_all_cards, lemma_filter_all_cards};
use crate::census::{census, conserved, lemma_same_cards, lemma_conserved_trans, conserved_with, ext, frame_ok, held, lemma_census_player, lemma_cnt_remove, lemma_cnt_empty, lemma_cnt_drop_last, lemma_cnt_concat, lemma_cnt_perm, lemma_frames_cnt_push, lemma_frames_cnt_pop, lemma_held_short, pcnt, same_but_players, settled, wf};
use crate::rng::{Rng, seeded_state, shuffle_result};
use crate::text::{chars_to_string, dec, push_decimal, push_str};
use vstd::string::StringExecFns;
use crate::census::{players_cnt, frames_cnt, same_table};
use crate::state::{
    append_all, cnt, lemma_cnt_push, owned_len, should_end, pile_empty, CardBuf, Ctx, Decision, Dest, Frame, FrameKind, GameState,
    Move, PlayerState,
};

verus! {

/// The distinct cards of a sequence, in canonical card order.
pub open spec fn distinct_cards(s: Seq<Card>) -> Seq<Card> {
    spec_all_cards().filter(|c: Card| s.contains(c))
}

/// A card is among the distinct cards of `s` exactly when `s` holds it, and a
/// non-empty sequence has at least one distinct card.
pub proof fn lemma_distinct(s: Seq<Card>)
    ensures
        forall|c: Card| #[trigger] distinct_cards(s).contains(c) <==> s.contains(c),
        s.len() > 0 ==> distinct_cards(s).len() > 0,
{
    assert forall|c: Card| #[trigger] distinct_cards(s).contains(c) <==> s.contains(c) by {
        lemma_filter_all_cards(|c: Card| s.contains(c), c);
    }
    if s.len() > 0 {
        assert(s.contains(s[0]));
        assert(distinct_cards(s).contains(s[0]));
    }
}

/// Distinct cards in a zone, in canonical card order. Selection options are
/// deduplicated: two Coppers in hand offer one `Select(Copper)`.
pub fn distinct(cards: &[Card]) -> (r: Vec<Card>)
    ensures
        r@ == distinct_cards(cards@),
{
    let mut seen: [bool; NUM_CARDS] = [false; NUM_CARDS];
    let mut k: usize = 0;
    while k < cards.len()
        invariant
            k <= cards@.len(),
            forall|i: int|
                0 <= i < NUM_CARDS ==> seen@[i] == cards@.take(k as int).contains(
                    Card::spec_from_idx(i as usize),
                ),
        decreases cards@.len() - k,
    {
        let c = cards[k];
        let ci = c.idx();
        let ghost old_seen = seen@;
        seen[ci] = true;
        assert(seen@ == old_seen.update(ci as int, true));
        proof {
            assert forall|i: int| 0 <= i < NUM_CARDS implies seen@[i] == cards@.take(
                (k + 1) as int,
            ).contains(Card::spec_from_idx(i as usize)) by {
                let d = Card::spec_from_idx(i as usize);
                crate::card::lemma_idx_injective(c, d);
                crate::card::lemma_idx_roundtrip(c, i as usize);
                assert(cards@.take((k + 1) as int) =~= cards@.take(k as int).push(c));
                let ghost pre = cards@.take(k as int);
                let ghost post = cards@.take((k + 1) as int);
                assert(post[k as int] == c);
                if i == ci as int {
                    assert(d == c);
                    assert(post.contains(c));
                } else {
                    assert(d != c);
                    assert(seen@[i] == old_seen[i]);
                }
                if pre.contains(d) {
                    let j = choose|j: int| 0 <= j < pre.len() && #[trigger] pre[j] == d;
                    assert(post[j] == d);
                }
                if post.contains(d) {
                    let j = choose|j: int| 0 <= j < post.len() && #[trigger] post[j] == d;
                    if j < k {
                        assert(pre[j] == d);
                    }
                }
            }
        }
        k = k + 1;
    }
    assert(cards@.take(cards@.len() as int) =~= cards@);
    let ghost all = spec_all_cards();
    let ghost pred = |c: Card| cards@.contains(c);
    let mut out: Vec<Card> = Vec::new();
    let mut i: usize = 0;
    while i < NUM_CARDS
        invariant
            i <= NUM_CARDS,
            all == spec_all_cards(),
            pred == (|c: Card| cards@.contains(c)),
            out@ == all.take(i as int).filter(pred),
            forall|j: int|
                0 <= j < NUM_CARDS ==> seen@[j] == cards@.contains(Card::spec_from_idx(j as usize)),
        decreases NUM_CARDS - i,
    {
        let c = Card::from_idx(i);
        assert(all.take((i + 1) as int).drop_last() =~= all.take(i as int));
        assert(all.take((i + 1) as int).last() == c);
        let ghost prev = all.take(i as int).filter(pred);
        proof {
            reveal_with_fuel(Seq::<_>::filter, 1);
        }
        assert(all.take((i + 1) as int).filter(pred) == if pred(c) {
            prev.push(c)
        } else {
            prev
        });
        if seen[i] {
            out.push(c);
        }
        i = i + 1;
    }
    assert(all.take(NUM_CARDS as int) =~= all);
    out
}

/// Remove the first copy of `card` from `zone`; returns whether there was one.
pub fn remove_one(zone: &mut Vec<Card>, card: Card) -> (r: bool)
    ensures
        r == old(zone)@.contains(card),
        r ==> exists|i: int|
            0 <= i < old(zone)@.len() && old(zone)@[i] == card
                && (forall|j: int| 0 <= j < i ==> old(zone)@[j] != card)
                && final(zone)@ == old(zone)@.remove(i),
        !r ==> final(zone)@ == old(zone)@,
{
    let mut i: usize = 0;
    while i < zone.len()
        invariant
            i <= zone@.len(),
            zone@ == old(zone)@,
            forall|j: int| 0 <= j < i ==> zone@[j] != card,
        decreases zone@.len() - i,
    {
        if zone[i] == card {
            assert(zone@[i as int] == card);
            zone.remove(i);
            return true;
        }
        i = i + 1;
    }
    false
}

/// Whether `zone` holds a copy of `card`.
pub fn contains_card(zone: &Vec<Card>, card: Card) -> (r: bool)
    ensures
        r == zone@.contains(card),
{
    let mut i: usize = 0;
    while i < zone.len()
        invariant
            i <= zone@.len(),
            forall|j: int| 0 <= j < i ==> zone@[j] != card,
        decreases zone@.len() - i,
    {
        if zone[i] == card {
            assert(zone@[i as int] == card);
            return true;
        }
        i = i + 1;
    }
    false
}

/// Removing a copy of `card` from a zone lowers its count by one and keeps
/// the others.
pub proof fn lemma_cnt_removed(s: Seq<Card>, i: int, card: Card, c: Card)
    requires
        0 <= i < s.len(),
        s[i] == card,
    ensures
        cnt(s.remove(i), c) == cnt(s, c) - if card == c { 1int } else { 0int },
{
    lemma_cnt_remove(s, i, c);
}

/// The places in a player's area a card can be moved between.
#[derive(Clone, Copy, PartialEq, Eq, Debug, Structural)]
pub enum Zone {
    Deck,
    Hand,
    Discard,
    Play,
    SetAside,
}

/// The cards of player `p` in zone `z`.
pub open spec fn zone_of(p: PlayerState, z: Zone) -> Seq<Card> {
    match z {
        Zone::Deck => p.deck@,
        Zone::Hand => p.hand@,
        Zone::Discard => p.discard@,
        Zone::Play => p.play@,
        Zone::SetAside => p.set_aside@,
    }
}

/// Two players agree on everything but zones `a` and `b` and the count of
/// cards known to be on top of the deck.
pub open spec fn same_except(x: PlayerState, y: PlayerState, a: Zone, b: Zone) -> bool {
    &&& (a != Zone::Deck && b != Zone::Deck) ==> x.deck@ == y.deck@
    &&& (a != Zone::Hand && b != Zone::Hand) ==> x.hand@ == y.hand@
    &&& (a != Zone::Discard && b != Zone::Discard) ==> x.discard@ == y.discard@
    &&& (a != Zone::Play && b != Zone::Play) ==> x.play@ == y.play@
    &&& (a != Zone::SetAside && b != Zone::SetAside) ==> x.set_aside@ == y.set_aside@
    &&& x.actions == y.actions
    &&& x.buys == y.buys
    &&& x.coins == y.coins
    &&& x.merchants == y.merchants
    &&& x.silver_played == y.silver_played
    &&& x.turns == y.turns
}

/// Player `p` changed and nobody else did.
pub open spec fn only_player(a: GameState, b: GameState, p: int) -> bool {
    &&& b.players@.len() == a.players@.len()
    &&& forall|q: int| 0 <= q < a.players@.len() && q != p ==> b.players@[q] == a.players@[q]
}

/// The known-top count after the owner puts one more card on top of their
/// deck: one more, up to 255.
pub open spec fn bumped_known(known: u8) -> int {
    if known < 255 { known + 1 } else { 255 }
}

/// The known-top count after the owner puts `n` more cards on top of their
/// deck: `n` more, up to 255.
pub open spec fn bumped_by(known: u8, n: int) -> int {
    if known + n < 255 { known + n } else { 255 }
}

/// The discard pile after cleanup discards everything: the old pile, then
/// the cards in play, the hand and the set-aside cards, in that order.
pub open spec fn discarded_all(x: PlayerState) -> Seq<Card> {
    x.discard@ + x.play@ + x.hand@ + x.set_aside@
}

/// Put a card that is in transit into zone `to` of player `p`. A card put on
/// the deck is known to its owner.
pub(crate) fn put(s: &mut GameState, p: usize, to: Zone, c: Card)
    requires
        p < old(s).players@.len(),
        wf(*old(s)),
    ensures
        wf(*final(s)),
        same_but_players(*old(s), *final(s)),
        final(s).rng == old(s).rng,
        only_player(*old(s), *final(s), p as int),
        zone_of(final(s).players@[p as int], to) == zone_of(old(s).players@[p as int], to).push(c),
        same_except(final(s).players@[p as int], old(s).players@[p as int], to, to),
        to != Zone::Deck ==> final(s).players@[p as int].known_top == old(s).players@[p as int].known_top,
        to == Zone::Deck ==> final(s).players@[p as int].known_top as int == bumped_known(
            old(s).players@[p as int].known_top,
        ),
        forall|x: Card| #[trigger] census(*final(s), x) == census(*old(s), x) + if x == c { 1int } else { 0int },
{
    let ghost s0 = *s;
    match to {
        Zone::Deck => {
            s.players[p].deck.push(c);
            if s.players[p].known_top < 255 {
                s.players[p].known_top = s.players[p].known_top + 1;
            }
        },
        Zone::Hand => s.players[p].hand.push(c),
        Zone::Discard => s.players[p].discard.push(c),
        Zone::Play => s.players[p].play.push(c),
        Zone::SetAside => s.players[p].set_aside.push(c),
    }
    proof {
        let x = s.players@[p as int];
        assert(s.players@ =~= s0.players@.update(p as int, x));
        lemma_census_player(s0, *s, p as int, x);
        assert forall|y: Card| #[trigger] census(*s, y) == census(s0, y) + if y == c { 1int } else { 0int } by {
            lemma_cnt_push(zone_of(s0.players@[p as int], to), c, y);
        }
        assert forall|i: int| 0 <= i < s.players@.len() implies (#[trigger] s.players@[i]).known_top
            <= s.players@[i].deck@.len() by {
            if i != p {
                assert(s.players@[i] == s0.players@[i]);
            }
        }
    }
}

/// Move the first copy of `c` from zone `from` to zone `to` of player `p`,
/// if there is one; returns whether a card moved. A card moved onto the deck
/// is known to its owner.
pub(crate) fn move_card(s: &mut GameState, p: usize, from: Zone, to: Zone, c: Card) -> (r: bool)
    requires
        p < old(s).players@.len(),
        wf(*old(s)),
        from == Zone::Hand || from == Zone::Discard,
        from != to,
    ensures
        wf(*final(s)),
        same_but_players(*old(s), *final(s)),
        final(s).rng == old(s).rng,
        only_player(*old(s), *final(s), p as int),
        conserved(*old(s), *final(s)),
        same_table(*old(s), *final(s)),
        r == zone_of(old(s).players@[p as int], from).contains(c),
        !r ==> final(s).players@[p as int] == old(s).players@[p as int],
        r ==> zone_of(final(s).players@[p as int], to) == zone_of(old(s).players@[p as int], to).push(c),
        r ==> zone_of(final(s).players@[p as int], from).len() + 1 == zone_of(old(s).players@[p as int], from).len(),
        r ==> exists|i: int| 0 <= i < zone_of(old(s).players@[p as int], from).len()
            && zone_of(old(s).players@[p as int], from)[i] == c
            && zone_of(final(s).players@[p as int], from) == zone_of(old(s).players@[p as int], from).remove(i),
        same_except(final(s).players@[p as int], old(s).players@[p as int], from, to),
        to != Zone::Deck ==> final(s).players@[p as int].known_top == old(s).players@[p as int].known_top,
        r && to == Zone::Deck ==> final(s).players@[p as int].known_top as int == bumped_known(
            old(s).players@[p as int].known_top,
        ),
{
    let ghost s0 = *s;
    let present = if from == Zone::Hand {
        contains_card(&s.players[p].hand, c)
    } else {
        contains_card(&s.players[p].discard, c)
    };
    if !present {
        return false;
    }
    if from == Zone::Hand {
        remove_one(&mut s.players[p].hand, c);
    } else {
        remove_one(&mut s.players[p].discard, c);
    }
    let ghost s1 = *s;
    proof {
        assert(s1.players@ =~= s0.players@.update(p as int, s1.players@[p as int]));
        let i = choose|i: int| 0 <= i < zone_of(s0.players@[p as int], from).len()
            && zone_of(s0.players@[p as int], from)[i] == c
            && zone_of(s1.players@[p as int], from) == zone_of(s0.players@[p as int], from).remove(i);
        lemma_census_player(s0, s1, p as int, s1.players@[p as int]);
        assert forall|y: Card| #[trigger] census(s1, y) == census(s0, y) - if y == c { 1int } else { 0int } by {
            lemma_cnt_removed(zone_of(s0.players@[p as int], from), i, c, y);
        }
        assert forall|i: int| 0 <= i < s1.players@.len() implies (#[trigger] s1.players@[i]).known_top
            <= s1.players@[i].deck@.len() by {
            if i != p {
                assert(s1.players@[i] == s0.players@[i]);
            }
        }
    }
    put(s, p, to, c);
    true
}

/// The players' zones other than deck and discard, and their counters, agree.
pub open spec fn same_but_piles(x: PlayerState, y: PlayerState) -> bool {
    &&& x.hand@ == y.hand@
    &&& x.play@ == y.play@
    &&& x.set_aside@ == y.set_aside@
    &&& x.actions == y.actions
    &&& x.buys == y.buys
    &&& x.coins == y.coins
    &&& x.merchants == y.merchants
    &&& x.silver_played == y.silver_played
    &&& x.turns == y.turns
}

/// Cards a player can still draw: deck and discard pile together.
pub open spec fn drawable(x: PlayerState) -> nat {
    x.deck@.len() + x.discard@.len()
}

/// What drawing one card from `x` with the generator in state `rs` gives:
/// the top of the deck, or, when the deck is empty, the top of the discard
/// pile shuffled into a new deck; then the deck, the discard pile and the
/// generator's state afterwards.
pub open spec fn next_draw(x: PlayerState, rs: Seq<u64>) -> (Card, Seq<Card>, Seq<Card>, Seq<u64>) {
    next_card(x.deck@, x.discard@, rs)
}

/// What drawing one card from the piles `deck` and `discard` with the
/// generator in state `rs` gives: the card, the deck and the discard pile
/// afterwards, and the generator's state.
pub open spec fn next_card(deck: Seq<Card>, discard: Seq<Card>, rs: Seq<u64>) -> (Card, Seq<Card>, Seq<Card>, Seq<u64>) {
    if deck.len() > 0 {
        (deck.last(), deck.drop_last(), discard, rs)
    } else {
        let sh = shuffle_result(rs, discard);
        (sh.1.last(), sh.1.drop_last(), Seq::empty(), sh.0)
    }
}

/// How many cards on top of the deck the owner still knows after a draw
/// from a deck of `deck_len` cards of which they knew `known`: one fewer
/// from a deck that held cards, none after a reshuffle.
pub open spec fn known_after_draw(deck_len: nat, known: int) -> int {
    if deck_len > 0 && known > 0 { known - 1 } else { 0 }
}

/// Drawing `k` cards one after another from the piles `deck` and `discard`,
/// the deck's known-top count `known` and the generator's state `rs`:
/// the cards drawn in order, then the deck, the discard pile, the known-top
/// count and the generator's state afterwards. Drawing stops early when both
/// piles are empty.
pub open spec fn draws(deck: Seq<Card>, discard: Seq<Card>, known: int, rs: Seq<u64>, k: nat)
    -> (Seq<Card>, Seq<Card>, Seq<Card>, int, Seq<u64>)
    decreases k,
{
    if k == 0 {
        (Seq::empty(), deck, discard, known, rs)
    } else {
        let d = draws(deck, discard, known, rs, (k - 1) as nat);
        if d.1.len() + d.2.len() == 0 {
            d
        } else {
            let c = next_card(d.1, d.2, d.4);
            (d.0.push(c.0), c.1, c.2, known_after_draw(d.1.len(), d.3), c.3)
        }
    }
}

/// `y` is `x` after drawing `k` cards (see [`draws`]) with the generator
/// going from state `rs` to `rs2`: the drawn cards joined the hand in order,
/// the piles and the known-top count are what the draws leave, and the cards
/// in play, the set-aside cards and the counters are as they were.
pub open spec fn drawn_from(x: PlayerState, y: PlayerState, rs: Seq<u64>, rs2: Seq<u64>, k: nat) -> bool {
    let d = draws(x.deck@, x.discard@, x.known_top as int, rs, k);
    &&& y.hand@ == x.hand@ + d.0
    &&& y.deck@ == d.1
    &&& y.discard@ == d.2
    &&& y.known_top as int == d.3
    &&& rs2 == d.4
    &&& y.play@ == x.play@
    &&& y.set_aside@ == x.set_aside@
    &&& y.actions == x.actions
    &&& y.buys == x.buys
    &&& y.coins == x.coins
    &&& y.merchants == x.merchants
    &&& y.silver_played == x.silver_played
    &&& y.turns == x.turns
}

/// Drawing nothing leaves the player as they were.
proof fn lemma_drawn_none(x: PlayerState, rs: Seq<u64>)
    ensures
        drawn_from(x, x, rs, rs, 0),
{
    assert(x.hand@ + Seq::<Card>::empty() =~= x.hand@);
}

/// One more draw after `k` draws: a card comes when any is left, and
/// nothing changes otherwise.
proof fn lemma_drawn_step(x0: PlayerState, a: PlayerState, b: PlayerState, rs0: Seq<u64>, rsa: Seq<u64>, rsb: Seq<u64>, k: nat)
    requires
        drawn_from(x0, a, rs0, rsa, k),
        drawable(a) == 0 ==> b == a && rsb == rsa,
        drawable(a) > 0 ==> {
            let c = next_card(a.deck@, a.discard@, rsa);
            &&& b.hand@ == a.hand@.push(c.0)
            &&& b.deck@ == c.1
            &&& b.discard@ == c.2
            &&& rsb == c.3
            &&& b.known_top as int == known_after_draw(a.deck@.len(), a.known_top as int)
        },
        b.play@ == a.play@,
        b.set_aside@ == a.set_aside@,
        b.actions == a.actions,
        b.buys == a.buys,
        b.coins == a.coins,
        b.merchants == a.merchants,
        b.silver_played == a.silver_played,
        b.turns == a.turns,
    ensures
        drawn_from(x0, b, rs0, rsb, k + 1),
{
    let d = draws(x0.deck@, x0.discard@, x0.known_top as int, rs0, k);
    if drawable(a) > 0 {
        let c = next_card(a.deck@, a.discard@, rsa);
        assert(b.hand@ =~= x0.hand@ + d.0.push(c.0));
    }
}

/// Once nothing is left to draw, further draws change nothing.
proof fn lemma_drawn_stuck(x0: PlayerState, a: PlayerState, rs0: Seq<u64>, rsa: Seq<u64>, k: nat, m: nat)
    requires
        drawn_from(x0, a, rs0, rsa, k),
        drawable(a) == 0,
        k <= m,
    ensures
        drawn_from(x0, a, rs0, rsa, m),
    decreases m - k,
{
    if k < m {
        lemma_drawn_step(x0, a, a, rs0, rsa, rsa, k);
        lemma_drawn_stuck(x0, a, rs0, rsa, k + 1, m);
    }
}

/// The draw a player's piles and the generator agree with `next_draw`.
pub open spec fn drew(old: GameState, new: GameState, p: int, c: Card) -> bool {
    let d = next_draw(old.players@[p], old.rng.state());
    &&& c == d.0
    &&& new.players@[p].deck@ == d.1
    &&& new.players@[p].discard@ == d.2
    &&& new.rng.state() == d.3
}

/// Shuffle the discard pile into a new deck; the deck must be empty.
fn reshuffle(state: &mut GameState, p: usize)
    requires
        p < old(state).players@.len(),
        wf(*old(state)),
        old(state).players@[p as int].deck@.len() == 0,
    ensures
        wf(*final(state)),
        conserved(*old(state), *final(state)),
        same_table(*old(state), *final(state)),
        same_but_players(*old(state), *final(state)),
        only_player(*old(state), *final(state), p as int),
        same_but_piles(final(state).players@[p as int], old(state).players@[p as int]),
        final(state).players@[p as int].deck@.len() == old(state).players@[p as int].discard@.len(),
        final(state).players@[p as int].discard@.len() == 0,
        final(state).players@[p as int].known_top == 0,
        (final(state).rng.state(), final(state).players@[p as int].deck@) == shuffle_result(
            old(state).rng.state(),
            old(state).players@[p as int].discard@,
        ),
{
    let ghost s0 = *state;
    let mut deck: Vec<Card> = Vec::new();
    std::mem::swap(&mut deck, &mut state.players[p].discard);
    state.rng.shuffle(&mut deck);
    state.players[p].deck = deck;
    state.players[p].known_top = 0;
    proof {
        let x = state.players@[p as int];
        assert(state.players@ =~= s0.players@.update(p as int, x));
        lemma_census_player(s0, *state, p as int, x);
        assert forall|y: Card| #[trigger] census(*state, y) == census(s0, y) by {
            lemma_cnt_perm(x.deck@, s0.players@[p as int].discard@, y);
            lemma_cnt_empty(y);
            assert(x.discard@ =~= Seq::<Card>::empty());
            assert(s0.players@[p as int].deck@ =~= Seq::<Card>::empty());
        }
        assert forall|i: int| 0 <= i < state.players@.len() implies (#[trigger] state.players@[i]).known_top
            <= state.players@[i].deck@.len() by {
            if i != p {
                assert(state.players@[i] == s0.players@[i]);
            }
        }
    }
}

/// Take the top card of a non-empty deck.
fn pop_top(state: &mut GameState, p: usize) -> (r: Card)
    requires
        p < old(state).players@.len(),
        wf(*old(state)),
        old(state).players@[p as int].deck@.len() > 0,
    ensures
        wf(*final(state)),
        same_but_players(*old(state), *final(state)),
        only_player(*old(state), *final(state), p as int),
        same_but_piles(final(state).players@[p as int], old(state).players@[p as int]),
        conserved_with(*old(state), *final(state), seq![r]),
        same_table(*old(state), *final(state)),
        final(state).players@[p as int].deck@ == old(state).players@[p as int].deck@.drop_last(),
        r == old(state).players@[p as int].deck@.last(),
        final(state).players@[p as int].discard@ == old(state).players@[p as int].discard@,
        final(state).rng == old(state).rng,
        final(state).players@[p as int].known_top as int == known_after_draw(
            old(state).players@[p as int].deck@.len(),
            old(state).players@[p as int].known_top as int,
        ),
{
    let ghost s1 = *state;
    let top = state.players[p].deck.pop().unwrap();
    if state.players[p].known_top > 0 {
        state.players[p].known_top = state.players[p].known_top - 1;
    }
    proof {
        let x = state.players@[p as int];
        let d1 = s1.players@[p as int].deck@;
        assert(state.players@ =~= s1.players@.update(p as int, x));
        lemma_census_player(s1, *state, p as int, x);
        assert forall|y: Card| #[trigger] census(s1, y) == census(*state, y) + ext(seq![top], y) by {
            lemma_cnt_drop_last(d1, y);
            lemma_cnt_push(Seq::<Card>::empty(), top, y);
            lemma_cnt_empty(y);
            assert(seq![top] =~= Seq::<Card>::empty().push(top));
        }
        assert forall|i: int| 0 <= i < state.players@.len() implies (#[trigger] state.players@[i]).known_top
            <= state.players@[i].deck@.len() by {
            if i != p {
                assert(state.players@[i] == s1.players@[i]);
            }
        }
    }
    top
}

/// Take the top card of `p`'s deck, first shuffling the discard pile into a
/// new deck if the deck is empty. `None` only when both are empty.
fn pop_deck(state: &mut GameState, p: usize) -> (r: Option<Card>)
    requires
        p < old(state).players@.len(),
        wf(*old(state)),
    ensures
        wf(*final(state)),
        same_but_players(*old(state), *final(state)),
        only_player(*old(state), *final(state), p as int),
        same_but_piles(final(state).players@[p as int], old(state).players@[p as int]),
        r is None <==> drawable(old(state).players@[p as int]) == 0,
        r is None ==> *final(state) == *old(state),
        r matches Some(c) ==> conserved_with(*old(state), *final(state), seq![c]),
        same_table(*old(state), *final(state)),
        r is Some ==> drawable(final(state).players@[p as int]) + 1 == drawable(
            old(state).players@[p as int],
        ),
        r is Some && old(state).players@[p as int].deck@.len() > 0 ==> (
            final(state).players@[p as int].deck@ == old(state).players@[p as int].deck@.drop_last()
            && r == Some(old(state).players@[p as int].deck@.last())
            && final(state).players@[p as int].discard@ == old(state).players@[p as int].discard@
            && final(state).rng == old(state).rng),
        r matches Some(c) ==> drew(*old(state), *final(state), p as int, c),
        r is Some ==> final(state).players@[p as int].known_top as int == known_after_draw(
            old(state).players@[p as int].deck@.len(),
            old(state).players@[p as int].known_top as int,
        ),
{
    let ghost s0 = *state;
    if state.players[p].deck.len() == 0 {
        if state.players[p].discard.len() == 0 {
            return None;
        }
        reshuffle(state, p);
    }
    let ghost s1 = *state;
    let c = pop_top(state, p);
    proof {
        if s0.players@[p as int].deck@.len() == 0 {
            assert(state.players@[p as int].discard@ =~= Seq::<Card>::empty());
            assert(state.rng.state() == s1.rng.state());
        }
    }
    Some(c)
}

/// Move the top card of `p`'s deck into hand, reshuffling the discard pile if
/// the deck has run out. `None` only when the player has nothing left to draw.
pub fn draw_one(state: &mut GameState, p: usize) -> (r: Option<Card>)
    requires
        p < old(state).players@.len(),
        wf(*old(state)),
    ensures
        wf(*final(state)),
        conserved(*old(state), *final(state)),
        same_table(*old(state), *final(state)),
        same_but_players(*old(state), *final(state)),
        only_player(*old(state), *final(state), p as int),
        r is None <==> drawable(old(state).players@[p as int]) == 0,
        r is None ==> *final(state) == *old(state),
        r matches Some(c) ==> final(state).players@[p as int].hand@
            == old(state).players@[p as int].hand@.push(c),
        r matches Some(c) ==> drew(*old(state), *final(state), p as int, c),
        r is Some ==> drawable(final(state).players@[p as int]) + 1 == drawable(
            old(state).players@[p as int],
        ),
        final(state).players@[p as int].play@ == old(state).players@[p as int].play@,
        final(state).players@[p as int].set_aside@ == old(state).players@[p as int].set_aside@,
        final(state).players@[p as int].actions == old(state).players@[p as int].actions,
        final(state).players@[p as int].buys == old(state).players@[p as int].buys,
        final(state).players@[p as int].coins == old(state).players@[p as int].coins,
        final(state).players@[p as int].merchants == old(state).players@[p as int].merchants,
        final(state).players@[p as int].silver_played == old(state).players@[p as int].silver_played,
        final(state).players@[p as int].turns == old(state).players@[p as int].turns,
        r is Some ==> final(state).players@[p as int].known_top as int == known_after_draw(
            old(state).players@[p as int].deck@.len(),
            old(state).players@[p as int].known_top as int,
        ),
{
    let card = pop_deck(state, p);
    match card {
        None => None,
        Some(c) => {
            let ghost s1 = *state;
            put(state, p, Zone::Hand, c);
            proof {
                assert forall|y: Card| #[trigger] census(*state, y) == census(s1, y) + ext(seq![c], y) by {
                    lemma_cnt_push(Seq::<Card>::empty(), c, y);
                    lemma_cnt_empty(y);
                    assert(seq![c] =~= Seq::<Card>::empty().push(c));
                }
            }
            Some(c)
        },
    }
}

/// Like [`draw_one`], but the card stays with the caller (Vassal, Sentry,
/// Bandit) instead of going into hand.
pub fn reveal_one(state: &mut GameState, p: usize) -> (r: Option<Card>)
    requires
        p < old(state).players@.len(),
        wf(*old(state)),
    ensures
        wf(*final(state)),
        same_but_players(*old(state), *final(state)),
        only_player(*old(state), *final(state), p as int),
        same_but_piles(final(state).players@[p as int], old(state).players@[p as int]),
        r is None <==> drawable(old(state).players@[p as int]) == 0,
        r is None ==> *final(state) == *old(state),
        r matches Some(c) ==> conserved_with(*old(state), *final(state), seq![c]),
        same_table(*old(state), *final(state)),
        r is Some ==> drawable(final(state).players@[p as int]) + 1 == drawable(
            old(state).players@[p as int],
        ),
        r matches Some(c) ==> drew(*old(state), *final(state), p as int, c),
{
    pop_deck(state, p)
}

/// Every field except the stack is the same.
pub open spec fn same_but_stack(a: GameState, b: GameState) -> bool {
    &&& a.players == b.players
    &&& a.supply == b.supply
    &&& a.in_supply == b.in_supply
    &&& a.trash == b.trash
    &&& a.current == b.current
    &&& a.pending == b.pending
    &&& a.answer == b.answer
    &&& a.rng == b.rng
    &&& a.over == b.over
    &&& a.turn_limit == b.turn_limit
}

/// `f` is a frame of `kind` for `player` at its first step, with counter `n`
/// and scratch cards `scratch`.
pub open spec fn fresh_frame(f: Frame, kind: FrameKind, player: int, n: int, scratch: Seq<Card>) -> bool {
    &&& f.kind == kind
    &&& f.player as int == player
    &&& f.step == 0
    &&& f.n as int == n
    &&& f.scratch@ == scratch
}

/// The stack `b` is `a` with one fresh frame of `kind` pushed on top.
pub open spec fn pushed(a: Seq<Frame>, b: Seq<Frame>, kind: FrameKind, player: int, n: int, scratch: Seq<Card>) -> bool {
    &&& b == a.push(b.last())
    &&& fresh_frame(b.last(), kind, player, n, scratch)
}

/// The counter a gain frame carries for a destination.
pub open spec fn dest_code(d: Dest) -> int {
    match d {
        Dest::Discard => 0,
        Dest::Hand => 1,
        Dest::DeckTop => 2,
    }
}

/// The zone a gain frame's counter sends the gained card to.
pub open spec fn gain_zone(n: u8) -> Zone {
    if n == 1 {
        Zone::Hand
    } else if n == 2 {
        Zone::Deck
    } else {
        Zone::Discard
    }
}

/// `x` is `y` at the start of a turn: one action, one buy, no coins, no
/// Merchants, no Silver played yet, and one more turn taken.
pub open spec fn fresh_turn(x: PlayerState, y: PlayerState) -> bool {
    &&& x.actions == 1
    &&& x.buys == 1
    &&& x.coins == 0
    &&& x.merchants == 0
    &&& !x.silver_played
    &&& x.turns as int == (y.turns as int + 1) % 0x1_0000_0000
}

/// `y` is `x` after drawing `k` cards: the hand grew by `k` cards on top of
/// the old ones, `k` fewer cards are left to draw, and the cards in play, the
/// set-aside cards and the counters are as they were.
pub open spec fn drew_n(x: PlayerState, y: PlayerState, k: int) -> bool {
    &&& y.hand@.len() == x.hand@.len() + k
    &&& y.hand@.take(x.hand@.len() as int) == x.hand@
    &&& drawable(y) + k == drawable(x)
    &&& y.play@ == x.play@
    &&& y.set_aside@ == x.set_aside@
    &&& y.actions == x.actions
    &&& y.buys == x.buys
    &&& y.coins == x.coins
    &&& y.merchants == x.merchants
    &&& y.silver_played == x.silver_played
    &&& y.turns == x.turns
}

/// The smaller of two integers.
pub open spec fn min_of(a: int, b: int) -> int {
    if a < b { a } else { b }
}

/// Every player has taken the game's limit of turns.
pub open spec fn all_at_limit(s: GameState) -> bool {
    forall|i: int| 0 <= i < s.players@.len() ==> (#[trigger] s.players@[i]).turns >= s.turn_limit
}

/// One draw step of a player who has drawn `k` of at most `drawable(x0)`
/// cards: either a card came, or nothing was left.
proof fn lemma_draw_step(x0: PlayerState, a: PlayerState, b: PlayerState, k: int, got: bool)
    requires
        k >= 0,
        drew_n(x0, a, min_of(k, drawable(x0) as int)),
        got ==> b.hand@ == a.hand@.push(b.hand@.last()) && drawable(b) + 1 == drawable(a),
        got <==> drawable(a) > 0,
        !got ==> b == a,
        b.play@ == a.play@,
        b.set_aside@ == a.set_aside@,
        b.actions == a.actions,
        b.buys == a.buys,
        b.coins == a.coins,
        b.merchants == a.merchants,
        b.silver_played == a.silver_played,
        b.turns == a.turns,
    ensures
        drew_n(x0, b, min_of(k + 1, drawable(x0) as int)),
{
    if got {
        assert(b.hand@.take(x0.hand@.len() as int) =~= a.hand@.take(x0.hand@.len() as int));
    }
}

/// The moves of the action phase: play one of the kinds of Action in hand,
/// or end the phase.
pub open spec fn action_options(x: PlayerState) -> Seq<Move> {
    play_moves(of_type(distinct_cards(x.hand@), 0)).push(Move::Done)
}

/// The moves of the buy phase: play one of the kinds of Treasure in hand,
/// buy a card the coins pay for while a buy is left, or end the turn.
pub open spec fn buy_options(s: GameState, x: PlayerState) -> Seq<Move> {
    play_moves(of_type(distinct_cards(x.hand@), 1)) + (if x.buys > 0 {
        buy_moves(crate::state::buyable_cards(s, x.coins))
    } else {
        Seq::empty()
    }) + seq![Move::Done]
}

/// `b` parks a decision for `player` about `ctx` with `options`.
pub open spec fn decided(b: GameState, player: int, ctx: Ctx, options: Seq<Move>) -> bool {
    b.pending matches Some(d) && d.player as int == player && d.ctx == ctx && d.options@ == options
}

/// Player `p` played `card` from hand, if they held one: it left the hand for
/// the cards in play, and the deck and discard pile stayed as they were.
pub open spec fn played_from_hand(x: PlayerState, y: PlayerState, card: Card) -> bool {
    &&& x.hand@.contains(card) ==> y.play@ == x.play@.push(card) && y.hand@.len() + 1 == x.hand@.len()
    &&& !x.hand@.contains(card) ==> y.play@ == x.play@ && y.hand@ == x.hand@
    &&& y.deck@ == x.deck@
    &&& y.discard@ == x.discard@
    &&& y.set_aside@ == x.set_aside@
}

/// The coins after playing Treasure `card`: its value, and the first Silver
/// of the turn adds one coin per Merchant played.
pub open spec fn coins_after_play(x: PlayerState, card: Card) -> int {
    let c1 = (x.coins as int + card.spec_coin_value() as int) % 256;
    if card == Card::Silver && !x.silver_played {
        (c1 + x.merchants as int) % 256
    } else {
        c1
    }
}

/// The start of the current player's turn: fresh counters, one more turn taken, and the action, buy and cleanup phases queued (cleanup lowest).
pub open spec fn start_turn_post(a: GameState, b: GameState) -> bool {
    &&& only_player(a, b, a.current as int)
    &&& same_zones(
        b.players@[a.current as int],
        a.players@[a.current as int],
    )
    &&& fresh_turn(
        b.players@[a.current as int],
        a.players@[a.current as int],
    )
    &&& b.stack@.len() == a.stack@.len() + 3
    &&& b.stack@.take(a.stack@.len() as int) == a.stack@
    &&& fresh_frame(
        b.stack@[a.stack@.len() as int],
        FrameKind::Cleanup,
        a.current as int,
        0,
        Seq::empty(),
    )
    &&& fresh_frame(
        b.stack@[a.stack@.len() + 1int],
        FrameKind::BuyPhase,
        a.current as int,
        0,
        Seq::empty(),
    )
    &&& fresh_frame(
        b.stack@[a.stack@.len() + 2int],
        FrameKind::ActionPhase,
        a.current as int,
        0,
        Seq::empty(),
    )
    &&& b.supply == a.supply
    &&& b.trash == a.trash
    &&& b.current == a.current
    &&& b.pending == a.pending
    &&& b.answer == a.answer
    &&& b.in_supply == a.in_supply
    &&& b.rng == a.rng
    &&& b.over == a.over
}

/// The action phase of player `p` given the answer `ans`.
pub open spec fn action_phase_post(p: int, ans: Option<Move>, a: GameState, b: GameState) -> bool {
    &&& ans == Some(Move::Done) ==> b == a
    &&& ans matches Some(Move::Play(card)) ==> {
        &&& only_player(a, b, p)
        &&& played_from_hand(a.players@[p], b.players@[p], card)
        &&& b.players@[p].actions as int == (a.players@[p].actions
            as int + 255) % 256
        &&& b.players@[p].coins == a.players@[p].coins
        &&& b.players@[p].buys == a.players@[p].buys
        &&& b.stack@.len() == a.stack@.len() + 2
        &&& b.stack@.take(a.stack@.len() as int) == a.stack@
        &&& fresh_frame(b.stack@[a.stack@.len() as int], FrameKind::ActionPhase, p, 0, Seq::empty())
        &&& fresh_frame(b.stack@.last(), FrameKind::Resolve, p, 0, seq![card])
        &&& b.pending == a.pending
    }
    &&& !(ans == Some(Move::Done) || ans matches Some(Move::Play(_))) ==> if a.players@[p].actions
        == 0 || of_type(distinct_cards(a.players@[p].hand@), 0).len() == 0 {
        b == a
    } else {
        &&& b.players == a.players
        &&& pushed(a.stack@, b.stack@, FrameKind::ActionPhase, p, 0, Seq::empty())
        &&& decided(b, p, Ctx::ActionPhase, action_options(a.players@[p]))
    }
}

/// The buy phase of player `p` given the answer `ans`.
pub open spec fn buy_phase_post(p: int, ans: Option<Move>, a: GameState, b: GameState) -> bool {
    &&& ans == Some(Move::Done) ==> b == a
    &&& ans matches Some(Move::Play(card)) ==> {
        &&& only_player(a, b, p)
        &&& played_from_hand(a.players@[p], b.players@[p], card)
        &&& b.players@[p].coins as int == coins_after_play(a.players@[p], card)
        &&& b.players@[p].silver_played == (a.players@[p].silver_played
            || card == Card::Silver)
        &&& b.players@[p].actions == a.players@[p].actions
        &&& b.players@[p].buys == a.players@[p].buys
        &&& pushed(a.stack@, b.stack@, FrameKind::BuyPhase, p, 0, Seq::empty())
        &&& b.pending == a.pending
    }
    &&& ans matches Some(Move::Buy(card)) ==> {
        &&& only_player(a, b, p)
        &&& same_zones(b.players@[p], a.players@[p])
        &&& b.players@[p].buys as int == (a.players@[p].buys as int
            + 255) % 256
        &&& b.players@[p].coins as int == (a.players@[p].coins as int
            + 256 - card.spec_cost() as int) % 256
        &&& b.stack@.len() == a.stack@.len() + 2
        &&& b.stack@.take(a.stack@.len() as int) == a.stack@
        &&& fresh_frame(b.stack@[a.stack@.len() as int], FrameKind::BuyPhase, p, 0, Seq::empty())
        &&& fresh_frame(b.stack@.last(), FrameKind::Gain, p, dest_code(Dest::Discard), seq![card])
        &&& b.pending == a.pending
        &&& b.supply == a.supply
    }
    &&& !(ans == Some(Move::Done) || ans matches Some(Move::Play(_)) || ans matches Some(Move::Buy(_))) ==> {
        &&& b.players == a.players
        &&& b.supply == a.supply
        &&& b.in_supply == a.in_supply
        &&& b.current == a.current
        &&& b.over == a.over
        &&& b.trash == a.trash
        &&& pushed(a.stack@, b.stack@, FrameKind::BuyPhase, p, 0, Seq::empty())
        &&& decided(b, p, Ctx::BuyPhase, buy_options(a, a.players@[p]))
    }
}

/// Cleanup for player `p`: everything is discarded, five cards are drawn, then the game ends or the turn passes.
pub open spec fn cleanup_post(p: int, a: GameState, b: GameState) -> bool {
    &&& only_player(a, b, p)
    &&& b.players@[p].play@.len() == 0
    &&& b.players@[p].set_aside@.len() == 0
    &&& b.players@[p].hand@.len() == min_of(
        5,
        owned_len(a.players@[p]) as int,
    )
    &&& drawable(b.players@[p]) + b.players@[p].hand@.len()
        == owned_len(a.players@[p])
    &&& b.players@[p].actions == a.players@[p].actions
    &&& b.players@[p].buys == a.players@[p].buys
    &&& b.players@[p].coins == a.players@[p].coins
    &&& b.players@[p].turns == a.players@[p].turns
    &&& b.players@[p].merchants == a.players@[p].merchants
    &&& b.players@[p].silver_played == a.players@[p].silver_played
    &&& {
        let x = a.players@[p];
        let d = draws(x.deck@, discarded_all(x), x.known_top as int, a.rng.state(), 5);
        &&& b.players@[p].hand@ == d.0
        &&& b.players@[p].deck@ == d.1
        &&& b.players@[p].discard@ == d.2
        &&& b.players@[p].known_top as int == d.3
        &&& b.rng.state() == d.4
    }
    &&& b.supply == a.supply
    &&& b.trash == a.trash
    &&& b.pending == a.pending
    &&& should_end(a) || all_at_limit(a) ==> {
        &&& b.over
        &&& b.current == a.current
        &&& b.stack == a.stack
    }
    &&& !(should_end(a) || all_at_limit(a)) ==> {
        &&& b.over == a.over
        &&& b.current as int == (a.current as int + 1)
            % (a.players@.len() as int)
        &&& pushed(
            a.stack@,
            b.stack@,
            FrameKind::StartTurn,
            b.current as int,
            0,
            Seq::empty(),
        )
    }
}

/// Player `p` draws up to `n` cards, fewer if they run out.
pub open spec fn draw_n_post(p: int, n: u8, a: GameState, b: GameState) -> bool {
    &&& same_but_players(a, b)
    &&& only_player(a, b, p)
    &&& drawn_from(a.players@[p], b.players@[p], a.rng.state(), b.rng.state(), n as nat)
    &&& drew_n(
        a.players@[p],
        b.players@[p],
        if (n as int) < drawable(a.players@[p]) {
            n as int
        } else {
            drawable(a.players@[p]) as int
        },
    )
}

/// Drawing is determined: two draws of `n` cards by player `p` from the same
/// state leave every player with the same cards, knowledge and counters, and
/// the generator in the same state.
pub proof fn lemma_draw_determined(p: int, n: u8, a: GameState, b1: GameState, b2: GameState)
    requires
        0 <= p < a.players@.len(),
        draw_n_post(p, n, a, b1),
        draw_n_post(p, n, a, b2),
    ensures
        b1.players@.len() == b2.players@.len(),
        forall|q: int| 0 <= q < b1.players@.len() ==> crate::state::same_player(#[trigger] b1.players@[q], b2.players@[q]),
        b1.rng.state() == b2.rng.state(),
{
}

/// Cleanup is determined: two cleanups by player `p` from the same state
/// leave every player with the same cards, knowledge and counters, the
/// generator in the same state, and the supply and trash as they were.
pub proof fn lemma_cleanup_determined(p: int, a: GameState, b1: GameState, b2: GameState)
    requires
        0 <= p < a.players@.len(),
        cleanup_post(p, a, b1),
        cleanup_post(p, a, b2),
    ensures
        b1.players@.len() == b2.players@.len(),
        forall|q: int| 0 <= q < b1.players@.len() ==> crate::state::same_player(#[trigger] b1.players@[q], b2.players@[q]),
        b1.rng.state() == b2.rng.state(),
        b1.supply == b2.supply,
        b1.trash == b2.trash,
{
    assert(b1.players@[p].play@ =~= b2.players@[p].play@);
    assert(b1.players@[p].set_aside@ =~= b2.players@[p].set_aside@);
}

/// A gain frame: the named card, if its pile is not empty, moves from the supply to the destination its counter codes.
pub open spec fn gain_post(f: Frame, a: GameState, b: GameState) -> bool {
    &&& a.supply@[f.scratch.slot(0).spec_idx() as int] == 0 ==> b
        == a
    &&& a.supply@[f.scratch.slot(0).spec_idx() as int] > 0 ==> {
        &&& b.supply@ == a.supply@.update(
            f.scratch.slot(0).spec_idx() as int,
            (a.supply@[f.scratch.slot(0).spec_idx() as int] - 1) as u8,
        )
        &&& zone_of(b.players@[f.player as int], gain_zone(f.n)) == zone_of(
            a.players@[f.player as int],
            gain_zone(f.n),
        ).push(f.scratch.slot(0))
        &&& same_except(
            b.players@[f.player as int],
            a.players@[f.player as int],
            gain_zone(f.n),
            gain_zone(f.n),
        )
        &&& only_player(a, b, f.player as int)
        &&& b.stack == a.stack
        &&& b.trash == a.trash
        &&& gain_zone(f.n) == Zone::Deck ==> b.players@[f.player as int].known_top as int == bumped_known(
            a.players@[f.player as int].known_top,
        )
        &&& gain_zone(f.n) != Zone::Deck ==> b.players@[f.player as int].known_top
            == a.players@[f.player as int].known_top
    }
}

/// An attack frame for all other players: the next victim in turn order is attacked, and the frame comes back for the one after.
pub open spec fn attack_each_post(f: Frame, a: GameState, b: GameState) -> bool {
    &&& f.n as int >= a.players@.len() - 1 ==> b == a
    &&& f.n as int <= a.players@.len() - 2 ==> {
        &&& same_but_stack(a, b)
        &&& b.stack@ == a.stack@.push(
            (Frame { n: (f.n + 1) as u8, ..f }),
        ).push(b.stack@.last())
        &&& fresh_frame(
            b.stack@.last(),
            FrameKind::AttackOne,
            (a.current + 1 + f.n) % (a.players@.len() as int),
            0,
            seq![f.scratch.slot(0)],
        )
    }
}

/// Running frame `f` on state `a` (whose answer has been taken) with the
/// answer `ans` gives `b`: each kind of frame runs its routine.
pub open spec fn run_post(f: Frame, ans: Option<Move>, a: GameState, b: GameState) -> bool {
    let p = f.player as int;
    match f.kind {
        FrameKind::StartTurn => start_turn_post(a, b),
        FrameKind::ActionPhase => action_phase_post(p, ans, a, b),
        FrameKind::BuyPhase => buy_phase_post(p, ans, a, b),
        FrameKind::Cleanup => cleanup_post(p, a, b),
        FrameKind::Draw => draw_n_post(p, f.n, a, b),
        FrameKind::Gain => gain_post(f, a, b),
        FrameKind::AttackEach => attack_each_post(f, a, b),
        FrameKind::AttackOne => crate::effects::attack_post(f, ans, a, b),
        FrameKind::Resolve => exists|g: Frame| #[trigger] crate::effects::resolve_post(f.scratch.slot(0), f, g, ans, a, b),
    }
}

/// The state `a` with a pending decision that has a single option answered
/// by that option; any other state is left as it is.
pub open spec fn with_forced(a: GameState) -> GameState {
    match a.pending {
        Some(d) => if d.options@.len() == 1 {
            GameState { pending: None, answer: Some(d.options@[0]), ..a }
        } else {
            a
        },
        None => a,
    }
}

/// One step of the engine from `a` to `b`: the game is not over and no real
/// decision is pending, so (after a single-option decision is answered) the
/// top frame is popped and run.
pub open spec fn engine_step(a: GameState, b: GameState) -> bool {
    let a1 = with_forced(a);
    &&& !a.over
    &&& (a.pending is None || a.pending.unwrap().options@.len() == 1)
    &&& a1.stack@.len() > 0
    &&& exists|m: GameState| #![trigger run_post(a1.stack@.last(), m.answer, answer_taken(m), b)]
        same_but_stack(a1, m) && m.stack@ == a1.stack@.drop_last()
            && run_post(a1.stack@.last(), m.answer, answer_taken(m), b)
}

/// Where the engine stops from `a`: a finished game drops any pending
/// decision, a real decision (two or more options) stays parked, and when
/// no frame is left the game ends.
pub open spec fn engine_stop(a: GameState, b: GameState) -> bool {
    if a.over {
        b == (GameState { pending: None, ..a })
    } else if a.pending is Some && a.pending.unwrap().options@.len() != 1 {
        b == a
    } else {
        with_forced(a).stack@.len() == 0 && b.stack@.len() == 0
            && b == (GameState { over: true, pending: None, stack: b.stack, ..with_forced(a) })
    }
}

/// `t` is a run of the engine from `a` that ends in `b`: each state steps to
/// the next, and the last one stops at `b`. Only after more than `u64::MAX`
/// steps may the engine instead end the game where it stands.
pub open spec fn advance_trace(t: Seq<GameState>, a: GameState, b: GameState) -> bool {
    &&& t.len() >= 1
    &&& t[0] == a
    &&& forall|i: int| 0 <= i < t.len() - 1 ==> #[trigger] engine_step(t[i], t[i + 1])
    &&& engine_stop(t.last(), b) || (t.len() > u64::MAX && b == (GameState { over: true, pending: None, ..t.last() }))
}

/// The engine runs from `a` to `b`.
pub open spec fn advanced(a: GameState, b: GameState) -> bool {
    exists|t: Seq<GameState>| #[trigger] advance_trace(t, a, b)
}

/// The state `a` with its pending decision answered by `mv`.
pub open spec fn answered(a: GameState, mv: Move) -> GameState {
    GameState { pending: None, answer: Some(mv), ..a }
}

/// Move `mv` is among the options of the decision `s` is parked on.
pub open spec fn offered(s: GameState, mv: Move) -> bool {
    s.pending is Some && s.pending.unwrap().options@.contains(mv)
}

/// Answering `mv` in `a` and running the engine on gives `b`.
pub open spec fn move_step(a: GameState, mv: Move, b: GameState) -> bool {
    offered(a, mv) && advanced(answered(a, mv), b)
}

/// `s` is where a new game (kingdom, players, seed) first waits: the opening
/// hands dealt and the engine run to the first real decision.
pub open spec fn started(kingdom: Seq<Card>, n: nat, seed: u64, s: GameState) -> bool {
    exists|d: GameState| #[trigger] opening_state(kingdom, n, seed, d) && advanced(d, s)
}

/// `t` lists the states of a game (kingdom, players, seed) as the moves `ms`
/// are answered one by one: it starts where the game first waits, each move
/// is offered and played in turn, and every state on the way keeps the
/// engine's invariant and waits as the engine leaves it.
pub open spec fn play_trace(kingdom: Seq<Card>, n: nat, seed: u64, ms: Seq<Move>, t: Seq<GameState>) -> bool {
    &&& t.len() == ms.len() + 1
    &&& started(kingdom, n, seed, t[0])
    &&& forall|i: int| 0 <= i < ms.len() ==> #[trigger] move_step(t[i], ms[i], t[i + 1])
    &&& forall|i: int| 0 <= i < t.len() ==> wf(#[trigger] t[i]) && settled(t[i])
}

/// `s` is a state the game (kingdom, players, seed) reaches when the moves
/// `ms` are answered in turn.
#[verifier::opaque]
pub open spec fn played(kingdom: Seq<Card>, n: nat, seed: u64, ms: Seq<Move>, s: GameState) -> bool {
    exists|t: Seq<GameState>| #[trigger] play_trace(kingdom, n, seed, ms, t) && t.last() == s
}

/// Where a new game first waits is reached by no moves at all.
pub proof fn lemma_played_start(kingdom: Seq<Card>, n: nat, seed: u64, s: GameState)
    requires
        started(kingdom, n, seed, s),
        wf(s),
        settled(s),
    ensures
        played(kingdom, n, seed, Seq::empty(), s),
{
    reveal(played);
    assert(play_trace(kingdom, n, seed, Seq::empty(), seq![s]));
}

/// Playing one more offered move extends a reached state.
pub proof fn lemma_played_step(kingdom: Seq<Card>, n: nat, seed: u64, ms: Seq<Move>, a: GameState, mv: Move, b: GameState)
    requires
        played(kingdom, n, seed, ms, a),
        move_step(a, mv, b),
        wf(b),
        settled(b),
    ensures
        played(kingdom, n, seed, ms.push(mv), b),
{
    reveal(played);
    let t = choose|t: Seq<GameState>| #[trigger] play_trace(kingdom, n, seed, ms, t) && t.last() == a;
    let t1 = t.push(b);
    let ms1 = ms.push(mv);
    assert forall|j: int| 0 <= j < ms1.len() implies #[trigger] move_step(t1[j], ms1[j], t1[j + 1]) by {
        if j < ms.len() {
            assert(t1[j] == t[j] && t1[j + 1] == t[j + 1]);
        }
    }
    assert forall|j: int| 0 <= j < t1.len() implies wf(#[trigger] t1[j]) && settled(t1[j]) by {
        if j < t.len() {
            assert(t1[j] == t[j]);
        }
    }
    assert(play_trace(kingdom, n, seed, ms1, t1));
}

/// Every position a game reaches by answering offered moves waits on a
/// decision exactly while the game is not over; that decision offers at least
/// two moves, none of them twice, to one of the players at the table.
pub proof fn lemma_played_decision_shape(kingdom: Seq<Card>, n: nat, seed: u64, ms: Seq<Move>, s: GameState)
    requires
        played(kingdom, n, seed, ms, s),
    ensures
        (s.pending is Some) == !s.over,
        s.pending matches Some(d) ==> {
            &&& d.options@.len() >= 2
            &&& d.options@.no_duplicates()
            &&& d.player < s.players@.len()
        },
        2 <= s.players@.len() <= crate::state::MAX_PLAYERS,
{
    reveal(played);
    let t = choose|t: Seq<GameState>| #[trigger] play_trace(kingdom, n, seed, ms, t) && t.last() == s;
    assert(wf(t[t.len() - 1]) && settled(t[t.len() - 1]));
}

/// The state `a` with its stored answer taken out.
pub open spec fn answer_taken(a: GameState) -> GameState {
    GameState { answer: None, ..a }
}

/// A player's zones and knowledge of their deck agree.
pub open spec fn same_zones(x: PlayerState, y: PlayerState) -> bool {
    &&& x.deck@ == y.deck@
    &&& x.hand@ == y.hand@
    &&& x.discard@ == y.discard@
    &&& x.play@ == y.play@
    &&& x.set_aside@ == y.set_aside@
    &&& x.known_top == y.known_top
}

/// Changing only the counters of one player keeps every census and the invariant.
pub proof fn lemma_counters(a: GameState, b: GameState, p: int)
    requires
        wf(a),
        same_but_players(a, b),
        only_player(a, b, p),
        0 <= p < a.players@.len(),
        same_zones(b.players@[p], a.players@[p]),
    ensures
        conserved(a, b),
        wf(b),
{
    assert(b.players@ =~= a.players@.update(p, b.players@[p]));
    lemma_census_player(a, b, p, b.players@[p]);
    assert forall|i: int| 0 <= i < b.players@.len() implies (#[trigger] b.players@[i]).known_top
        <= b.players@[i].deck@.len() by {
        if i != p {
            assert(b.players@[i] == a.players@[i]);
        }
    }
}

/// Push a frame onto the continuation stack.
pub fn push_frame(s: &mut GameState, f: Frame)
    requires
        wf(*old(s)),
        frame_ok(f, old(s).players@.len()),
    ensures
        wf(*final(s)),
        same_but_stack(*old(s), *final(s)),
        final(s).stack@ == old(s).stack@.push(f),
        forall|c: Card| #[trigger] census(*final(s), c) == census(*old(s), c) + cnt(held(f), c),
{
    let ghost s0 = *s;
    s.stack.push(f);
    proof {
        assert forall|c: Card| #[trigger] census(*s, c) == census(s0, c) + cnt(held(f), c) by {
            lemma_frames_cnt_push(s0.stack@, f, c);
        }
        assert forall|i: int| 0 <= i < s.stack@.len() implies frame_ok(#[trigger] s.stack@[i], s.players@.len()) by {
            if i < s0.stack@.len() {
                assert(s.stack@[i] == s0.stack@[i]);
            }
        }
    }
}

/// Park a decision for `player` and keep `frame` on the stack to resume with
/// the answer.
pub fn ask(s: &mut GameState, frame: Frame, player: usize, ctx: Ctx, options: Vec<Move>)
    requires
        wf(*old(s)),
        frame_ok(frame, old(s).players@.len()),
        player < old(s).players@.len(),
        options@.len() >= 1,
        options@.no_duplicates(),
    ensures
        wf(*final(s)),
        final(s).stack@ == old(s).stack@.push(frame),
        final(s).pending matches Some(d) && d.player == player && d.ctx == ctx && d.options@ == options@,
        final(s).players == old(s).players,
        final(s).supply == old(s).supply,
        final(s).in_supply == old(s).in_supply,
        final(s).trash == old(s).trash,
        final(s).current == old(s).current,
        final(s).answer == old(s).answer,
        final(s).over == old(s).over,
        final(s).turn_limit == old(s).turn_limit,
        final(s).rng == old(s).rng,
        forall|c: Card| #[trigger] census(*final(s), c) == census(*old(s), c) + cnt(held(frame), c),
{
    push_frame(s, frame);
    let ghost mid = *s;
    s.pending = Some(Decision { player, ctx, options });
    assert forall|c: Card| #[trigger] census(*s, c) == census(mid, c) by {}
}

/// No card appears twice in the list of all cards.
pub proof fn lemma_all_cards_nodup()
    ensures
        spec_all_cards().no_duplicates(),
{
    assert forall|i: int, j: int| 0 <= i < spec_all_cards().len() && 0 <= j < spec_all_cards().len() && i != j
        implies spec_all_cards()[i] != spec_all_cards()[j] by {
        crate::card::lemma_idx_roundtrip(Card::Copper, i as usize);
        crate::card::lemma_idx_roundtrip(Card::Copper, j as usize);
    }
}

/// Keeping some cards of a list without duplicates leaves none.
pub proof fn lemma_filter_nodup(s: Seq<Card>, pred: spec_fn(Card) -> bool)
    requires
        s.no_duplicates(),
    ensures
        s.filter(pred).no_duplicates(),
    decreases s.len(),
{
    broadcast use vstd::seq_lib::group_filter_ensures;
    if s.len() > 0 {
        let s0 = s.drop_last();
        assert(s0.no_duplicates()) by {
            assert forall|i: int, j: int| 0 <= i < s0.len() && 0 <= j < s0.len() && i != j implies s0[i] != s0[j] by {
                assert(s0[i] == s[i] && s0[j] == s[j]);
            }
        }
        lemma_filter_nodup(s0, pred);
        reveal_with_fuel(Seq::<_>::filter, 1);
        assert(s.filter(pred) == if pred(s.last()) { s0.filter(pred).push(s.last()) } else { s0.filter(pred) });
        if pred(s.last()) {
            let f0 = s0.filter(pred);
            assert forall|i: int| 0 <= i < f0.len() implies f0[i] != s.last() by {
                s0.lemma_filter_contains_rev(pred, f0[i]);
                if f0[i] == s.last() {
                    let k = choose|k: int| 0 <= k < s0.len() && s0[k] == f0[i];
                    assert(s[k] == s[s.len() - 1]);
                }
            }
            let f = f0.push(s.last());
            assert forall|i: int, j: int| 0 <= i < f.len() && 0 <= j < f.len() && i != j implies f[i] != f[j] by {
                if i < f0.len() && j < f0.len() {
                    assert(f[i] == f0[i] && f[j] == f0[j]);
                } else if i < f0.len() {
                    assert(f[i] == f0[i]);
                } else {
                    assert(f[j] == f0[j]);
                }
            }
        }
    }
}

/// The distinct cards of a list hold no card twice, and neither does any
/// selection of them by type.
pub proof fn lemma_distinct_nodup(s: Seq<Card>, t: u8)
    ensures
        distinct_cards(s).no_duplicates(),
        of_type(distinct_cards(s), t).no_duplicates(),
{
    lemma_all_cards_nodup();
    lemma_filter_nodup(spec_all_cards(), |c: Card| s.contains(c));
    lemma_filter_nodup(distinct_cards(s), |c: Card| has_type(c, t));
}

/// The cards a budget can gain hold no card twice, and neither does any
/// selection of them by type.
pub proof fn lemma_buyable_nodup(s: GameState, budget: u8, t: u8)
    ensures
        crate::state::buyable_cards(s, budget).no_duplicates(),
        of_type(crate::state::buyable_cards(s, budget), t).no_duplicates(),
{
    lemma_all_cards_nodup();
    lemma_filter_nodup(spec_all_cards(), |c: Card| crate::state::pile_open(s, c) && c.spec_cost() <= budget);
    lemma_filter_nodup(crate::state::buyable_cards(s, budget), |c: Card| has_type(c, t));
}

/// Moves made from a list of cards without duplicates hold no move twice,
/// also with `Done` added at the end.
pub proof fn lemma_moves_nodup(cards: Seq<Card>)
    requires
        cards.no_duplicates(),
    ensures
        select_moves(cards).no_duplicates(),
        play_moves(cards).no_duplicates(),
        buy_moves(cards).no_duplicates(),
        select_moves(cards).push(Move::Done).no_duplicates(),
        play_moves(cards).push(Move::Done).no_duplicates(),
{
    let fs = |c: Card| Move::Select(c);
    let fp = |c: Card| Move::Play(c);
    let fb = |c: Card| Move::Buy(c);
    assert(vstd::relations::injective(fs));
    assert(vstd::relations::injective(fp));
    assert(vstd::relations::injective(fb));
    cards.lemma_no_duplicates_injective(fs);
    cards.lemma_no_duplicates_injective(fp);
    cards.lemma_no_duplicates_injective(fb);
    let a = select_moves(cards);
    let b = play_moves(cards);
    vstd::seq_lib::lemma_no_dup_in_concat(a, seq![Move::Done]);
    vstd::seq_lib::lemma_no_dup_in_concat(b, seq![Move::Done]);
    assert(a + seq![Move::Done] =~= a.push(Move::Done));
    assert(b + seq![Move::Done] =~= b.push(Move::Done));
}

/// The buy phase never offers a move twice.
pub proof fn lemma_buy_options_nodup(s: GameState, x: PlayerState)
    ensures
        buy_options(s, x).no_duplicates(),
{
    let t = of_type(distinct_cards(x.hand@), 1);
    let g = crate::state::buyable_cards(s, x.coins);
    lemma_distinct_nodup(x.hand@, 1);
    lemma_buyable_nodup(s, x.coins, 1);
    lemma_moves_nodup(t);
    lemma_moves_nodup(g);
    let a = play_moves(t);
    let b: Seq<Move> = if x.buys > 0 { buy_moves(g) } else { Seq::empty() };
    vstd::seq_lib::lemma_no_dup_in_concat(a, b);
    vstd::seq_lib::lemma_no_dup_in_concat(a + b, seq![Move::Done]);
}

/// `Play` of each card, in order.
pub open spec fn play_moves(cards: Seq<Card>) -> Seq<Move> {
    cards.map_values(|c: Card| Move::Play(c))
}

/// `Select` of each card, in order.
pub open spec fn select_moves(cards: Seq<Card>) -> Seq<Move> {
    cards.map_values(|c: Card| Move::Select(c))
}

/// `Buy` of each card, in order.
pub open spec fn buy_moves(cards: Seq<Card>) -> Seq<Move> {
    cards.map_values(|c: Card| Move::Buy(c))
}

/// `Play` of each card, in order.
pub fn plays_of(cards: &Vec<Card>) -> (r: Vec<Move>)
    ensures
        r@ == play_moves(cards@),
{
    let mut r: Vec<Move> = Vec::new();
    let mut i: usize = 0;
    while i < cards.len()
        invariant
            i <= cards@.len(),
            r@ == cards@.take(i as int).map_values(|c: Card| Move::Play(c)),
        decreases cards@.len() - i,
    {
        r.push(Move::Play(cards[i]));
        i = i + 1;
        assert(r@ =~= cards@.take(i as int).map_values(|c: Card| Move::Play(c)));
    }
    assert(cards@.take(cards@.len() as int) =~= cards@);
    r
}

/// `Select` of each card, in order.
pub fn selects_of(cards: &Vec<Card>) -> (r: Vec<Move>)
    ensures
        r@ == select_moves(cards@),
{
    let mut r: Vec<Move> = Vec::new();
    let mut i: usize = 0;
    while i < cards.len()
        invariant
            i <= cards@.len(),
            r@ == cards@.take(i as int).map_values(|c: Card| Move::Select(c)),
        decreases cards@.len() - i,
    {
        r.push(Move::Select(cards[i]));
        i = i + 1;
        assert(r@ =~= cards@.take(i as int).map_values(|c: Card| Move::Select(c)));
    }
    assert(cards@.take(cards@.len() as int) =~= cards@);
    r
}

/// Append `Buy` of each card to `moves`.
pub fn push_buys(moves: &mut Vec<Move>, cards: &Vec<Card>)
    ensures
        final(moves)@ == old(moves)@ + buy_moves(cards@),
{
    let ghost m0 = moves@;
    let mut i: usize = 0;
    while i < cards.len()
        invariant
            i <= cards@.len(),
            moves@ == m0 + cards@.take(i as int).map_values(|c: Card| Move::Buy(c)),
        decreases cards@.len() - i,
    {
        moves.push(Move::Buy(cards[i]));
        i = i + 1;
        assert(moves@ =~= m0 + cards@.take(i as int).map_values(|c: Card| Move::Buy(c)));
    }
    assert(cards@.take(cards@.len() as int) =~= cards@);
}

/// The cards of `cards` that satisfy a type test, in order.
pub open spec fn of_type(cards: Seq<Card>, t: u8) -> Seq<Card> {
    cards.filter(|c: Card| has_type(c, t))
}

/// Whether a card has the type coded by `t`: 0 Action, 1 Treasure, 2 Victory.
pub open spec fn has_type(c: Card, t: u8) -> bool {
    if t == 0 {
        c.spec_is_action()
    } else if t == 1 {
        c.spec_is_treasure()
    } else {
        c.spec_is_victory()
    }
}

/// Keep the cards with the type coded by `t` (0 Action, 1 Treasure, 2 Victory).
pub fn keep_type(cards: &Vec<Card>, t: u8) -> (r: Vec<Card>)
    ensures
        r@ == of_type(cards@, t),
        forall|c: Card| r@.contains(c) <==> cards@.contains(c) && has_type(c, t),
{
    let ghost pred = |c: Card| has_type(c, t);
    let mut r: Vec<Card> = Vec::new();
    let mut i: usize = 0;
    while i < cards.len()
        invariant
            i <= cards@.len(),
            pred == (|c: Card| has_type(c, t)),
            r@ == cards@.take(i as int).filter(pred),
        decreases cards@.len() - i,
    {
        let c = cards[i];
        assert(cards@.take((i + 1) as int).drop_last() =~= cards@.take(i as int));
        proof {
            reveal_with_fuel(Seq::<_>::filter, 1);
        }
        let keep = if t == 0 {
            c.is_action()
        } else if t == 1 {
            c.is_treasure()
        } else {
            c.is_victory()
        };
        if keep {
            r.push(c);
        }
        i = i + 1;
    }
    assert(cards@.take(cards@.len() as int) =~= cards@);
    proof {
        broadcast use vstd::seq_lib::group_filter_ensures;
        assert forall|c: Card| r@.contains(c) <==> cards@.contains(c) && has_type(c, t) by {
            if cards@.contains(c) && has_type(c, t) {
                let j = choose|j: int| 0 <= j < cards@.len() && cards@[j] == c;
                cards@.lemma_filter_contains(pred, j);
            }
            if r@.contains(c) {
                cards@.lemma_filter_contains_rev(pred, c);
                let j = choose|j: int| 0 <= j < r@.len() && r@[j] == c;
                cards@.lemma_filter_pred(pred, j);
            }
        }
    }
    r
}

/// Why the engine refused a request.
#[derive(Clone, PartialEq, Eq, Debug)]
pub enum EngineError {
    /// `apply` was called while no decision was pending.
    NoPendingDecision,
    /// The move is not among the pending decision's options.
    IllegalMove { got: Move, legal: Vec<Move> },
    /// `Game::new` was given an invalid kingdom or player count.
    BadKingdom(String),
}

/// A game in progress.
pub struct Game {
    pub state: GameState,
}

/// The size of each Victory pile for a player count.
pub open spec fn victory_pile(num_players: nat) -> int {
    if num_players == 2 { 8 } else { 12 }
}

/// Whether a card is one of the seven basic supply cards.
pub open spec fn is_basic(c: Card) -> bool {
    c.spec_idx() < 7
}

/// A legal kingdom: ten distinct kingdom cards.
pub open spec fn valid_kingdom(kingdom: Seq<Card>) -> bool {
    &&& kingdom.len() == 10
    &&& kingdom.no_duplicates()
    &&& forall|i: int| 0 <= i < kingdom.len() ==> crate::card::is_kingdom(#[trigger] kingdom[i])
}

/// What `Game::new` accepts: a legal kingdom and 2 to 4 players.
pub open spec fn valid_setup(kingdom: Seq<Card>, num_players: nat) -> bool {
    &&& valid_kingdom(kingdom)
    &&& 2 <= num_players <= crate::state::MAX_PLAYERS
}

/// Cards in non-decreasing canonical order.
pub open spec fn sorted_by_index(s: Seq<Card>) -> bool {
    forall|i: int, j: int| 0 <= i < j < s.len() ==> (#[trigger] s[i]).spec_idx() <= (#[trigger] s[j]).spec_idx()
}

/// Sort cards into canonical order.
pub fn sort_cards(v: &mut Vec<Card>)
    ensures
        final(v)@.to_multiset() == old(v)@.to_multiset(),
        sorted_by_index(final(v)@),
{
    broadcast use vstd::seq_lib::to_multiset_insert, vstd::seq_lib::group_to_multiset_ensures, vstd::multiset::group_multiset_axioms;
    let mut out: Vec<Card> = Vec::new();
    let mut i: usize = 0;
    while i < v.len()
        invariant
            i <= v@.len(),
            out@.to_multiset() == v@.take(i as int).to_multiset(),
            sorted_by_index(out@),
        decreases v@.len() - i,
    {
        let x = v[i];
        let mut k: usize = 0;
        while k < out.len() && out[k].idx() <= x.idx()
            invariant
                k <= out@.len(),
                forall|j: int| 0 <= j < k ==> (#[trigger] out@[j]).spec_idx() <= x.spec_idx(),
            decreases out@.len() - k,
        {
            k = k + 1;
        }
        let ghost before = out@;
        out.insert(k, x);
        proof {
            assert(v@.take((i + 1) as int) =~= v@.take(i as int).push(x));
            vstd::seq_lib::to_multiset_build(v@.take(i as int), x);
            vstd::seq_lib::to_multiset_insert(before, k as int, x);
            assert(out@ == before.insert(k as int, x));
            assert forall|a: int, b: int| 0 <= a < b < out@.len() implies (#[trigger] out@[a]).spec_idx()
                <= (#[trigger] out@[b]).spec_idx() by {
                if k < before.len() {
                    assert(before[k as int].spec_idx() > x.spec_idx());
                }
                if a < k && b > k {
                    assert(out@[a] == before[a]);
                    assert(out@[b] == before[b - 1]);
                    if (k as int) < before.len() {
                        assert(before[a].spec_idx() <= before[k as int].spec_idx());
                    }
                } else if a < k && b == k {
                } else if a == k {
                    assert(out@[b] == before[b - 1]);
                    assert(before[k as int].spec_idx() <= before[b - 1].spec_idx());
                } else if b < k {
                } else {
                    assert(out@[a] == before[a - 1]);
                    assert(out@[b] == before[b - 1]);
                }
            }
        }
        i = i + 1;
    }
    assert(v@.take(v@.len() as int) =~= v@);
    *v = out;
}

/// The starting supply pile of `c` for a kingdom and player count.
pub open spec fn initial_supply(kingdom: Seq<Card>, n: nat, c: Card) -> int {
    if kingdom.contains(c) {
        if c.spec_is_victory() { victory_pile(n) } else { 10 }
    } else if c == Card::Copper {
        60 - 7 * n
    } else if c == Card::Silver {
        40
    } else if c == Card::Gold {
        30
    } else if c == Card::Estate || c == Card::Duchy || c == Card::Province {
        victory_pile(n)
    } else if c == Card::Curse {
        10 * (n - 1)
    } else {
        0
    }
}

/// Copies of `c` among the ten cards each player starts with.
pub open spec fn starting_count(c: Card) -> int {
    if c == Card::Copper { 7 } else if c == Card::Estate { 3 } else { 0 }
}

/// Copies of `c` in a new game: the supply pile plus the players' starting cards.
pub open spec fn initial_census(kingdom: Seq<Card>, n: nat, c: Card) -> int {
    initial_supply(kingdom, n, c) + n * starting_count(c)
}

/// Every player starts with ten cards: seven Coppers and three Estates.
pub proof fn lemma_starting_deck(c: Card)
    ensures
        crate::state::starting_cards().len() == 10,
        cnt(crate::state::starting_cards(), Card::Copper) == 7,
        cnt(crate::state::starting_cards(), Card::Estate) == 3,
        c != Card::Copper && c != Card::Estate ==> cnt(crate::state::starting_cards(), c) == 0,
{
    lemma_starting_counts(Card::Copper);
    lemma_starting_counts(Card::Estate);
    lemma_starting_counts(c);
}

/// The starting deck holds seven Coppers and three Estates.
pub proof fn lemma_starting_counts(c: Card)
    ensures
        cnt(crate::state::starting_cards(), c) == starting_count(c),
{
    let s = crate::state::starting_cards();
    let e = Seq::<Card>::empty();
    let s1 = e.push(Card::Copper);
    let s2 = s1.push(Card::Copper);
    let s3 = s2.push(Card::Copper);
    let s4 = s3.push(Card::Copper);
    let s5 = s4.push(Card::Copper);
    let s6 = s5.push(Card::Copper);
    let s7 = s6.push(Card::Copper);
    let s8 = s7.push(Card::Estate);
    let s9 = s8.push(Card::Estate);
    let s10 = s9.push(Card::Estate);
    assert(s =~= s10);
    lemma_cnt_empty(c);
    lemma_cnt_push(e, Card::Copper, c);
    lemma_cnt_push(s1, Card::Copper, c);
    lemma_cnt_push(s2, Card::Copper, c);
    lemma_cnt_push(s3, Card::Copper, c);
    lemma_cnt_push(s4, Card::Copper, c);
    lemma_cnt_push(s5, Card::Copper, c);
    lemma_cnt_push(s6, Card::Copper, c);
    lemma_cnt_push(s7, Card::Estate, c);
    lemma_cnt_push(s8, Card::Estate, c);
    lemma_cnt_push(s9, Card::Estate, c);
}

/// Whether `cards` holds some card twice.
pub fn has_duplicates(cards: &[Card]) -> (r: bool)
    ensures
        r == !cards@.no_duplicates(),
{
    let mut seen: [bool; NUM_CARDS] = [false; NUM_CARDS];
    let mut k: usize = 0;
    while k < cards.len()
        invariant
            k <= cards@.len(),
            cards@.take(k as int).no_duplicates(),
            forall|i: int|
                0 <= i < NUM_CARDS ==> seen@[i] == cards@.take(k as int).contains(
                    Card::spec_from_idx(i as usize),
                ),
        decreases cards@.len() - k,
    {
        let c = cards[k];
        let ci = c.idx();
        let ghost pre = cards@.take(k as int);
        let ghost post = cards@.take((k + 1) as int);
        assert(post =~= pre.push(c));
        proof {
            crate::card::lemma_idx_roundtrip(c, ci);
        }
        if seen[ci] {
            proof {
                let j = choose|j: int| 0 <= j < pre.len() && #[trigger] pre[j] == c;
                assert(cards@[j] == cards@[k as int]);
            }
            return true;
        }
        let ghost old_seen = seen@;
        seen[ci] = true;
        proof {
            assert(!pre.contains(c));
            assert forall|a: int, b: int| 0 <= a < post.len() && 0 <= b < post.len() && a != b
                implies post[a] != post[b] by {
                if a < k && b < k {
                    assert(pre[a] != pre[b]);
                } else if a == k {
                    assert(post[b] == pre[b]);
                } else {
                    assert(post[a] == pre[a]);
                }
            }
            assert forall|i: int| 0 <= i < NUM_CARDS implies seen@[i] == post.contains(
                Card::spec_from_idx(i as usize),
            ) by {
                let d = Card::spec_from_idx(i as usize);
                crate::card::lemma_idx_injective(c, d);
                crate::card::lemma_idx_roundtrip(c, i as usize);
                assert(post[k as int] == c);
                if i != ci as int {
                    assert(seen@[i] == old_seen[i]);
                }
                if pre.contains(d) {
                    let j = choose|j: int| 0 <= j < pre.len() && #[trigger] pre[j] == d;
                    assert(post[j] == d);
                }
                if post.contains(d) {
                    let j = choose|j: int| 0 <= j < post.len() && #[trigger] post[j] == d;
                    if j < k {
                        assert(pre[j] == d);
                    }
                }
            }
        }
        k = k + 1;
    }
    assert(cards@.take(cards@.len() as int) =~= cards@);
    false
}

/// The first card of `s` that is not a kingdom card, if any.
pub open spec fn first_outside_kingdom(s: Seq<Card>) -> Option<Card>
    decreases s.len(),
{
    if s.len() == 0 {
        None
    } else {
        match first_outside_kingdom(s.drop_last()) {
            Some(c) => Some(c),
            None => if crate::card::is_kingdom(s.last()) { None } else { Some(s.last()) },
        }
    }
}

/// The text of a refused setup.
pub open spec fn refusal_text<T>(r: Result<T, EngineError>) -> Option<Seq<char>> {
    match r {
        Err(EngineError::BadKingdom(m)) => Some(m@),
        _ => None,
    }
}

/// The message naming a card that is not a kingdom card.
pub open spec fn outside_text(bad: Option<Card>) -> Seq<char> {
    match bad {
        Some(c) => c.name_chars() + " is not a kingdom card"@,
        None => Seq::empty(),
    }
}

/// The first card of `cards` that is not a kingdom card, if any.
fn first_non_kingdom(cards: &[Card]) -> (r: Option<Card>)
    ensures
        r == first_outside_kingdom(cards@),
        r is None <==> forall|i: int| 0 <= i < cards@.len() ==> crate::card::is_kingdom(#[trigger] cards@[i]),
{
    let mut i: usize = 0;
    while i < cards.len()
        invariant
            i <= cards@.len(),
            forall|j: int| 0 <= j < i ==> crate::card::is_kingdom(#[trigger] cards@[j]),
            first_outside_kingdom(cards@.take(i as int)) is None,
        decreases cards@.len() - i,
    {
        assert(cards@.take((i + 1) as int).drop_last() =~= cards@.take(i as int));
        if !crate::card::is_kingdom_card(cards[i]) {
            proof {
                lemma_first_outside_prefix(cards@, (i + 1) as int);
            }
            return Some(cards[i]);
        }
        i = i + 1;
    }
    assert(cards@.take(cards@.len() as int) =~= cards@);
    None
}

/// Once a prefix holds a card outside the kingdom, the first of all is its.
proof fn lemma_first_outside_prefix(s: Seq<Card>, k: int)
    requires
        0 <= k <= s.len(),
        first_outside_kingdom(s.take(k)) is Some,
    ensures
        first_outside_kingdom(s) == first_outside_kingdom(s.take(k)),
    decreases s.len() - k,
{
    if k < s.len() {
        assert(s.take(k + 1).drop_last() =~= s.take(k));
        lemma_first_outside_prefix(s, k + 1);
    } else {
        assert(s.take(k) =~= s);
    }
}

/// The error message for a kingdom of the wrong size.
fn size_message(n: usize) -> (r: String)
    ensures
        r@ == "expected 10 cards, got "@ + dec(n as nat),
{
    let mut out: Vec<char> = Vec::new();
    push_str(&mut out, "expected 10 cards, got ");
    push_decimal(&mut out, n as u64);
    chars_to_string(&out)
}

/// The error message for a card that is not a kingdom card.
fn not_kingdom_message(name: &str) -> (r: String)
    ensures
        r@ == name@ + " is not a kingdom card"@,
{
    let mut out: Vec<char> = Vec::new();
    push_str(&mut out, name);
    push_str(&mut out, " is not a kingdom card");
    chars_to_string(&out)
}

/// The error message for an unsupported player count.
fn player_count_message(n: usize) -> (r: String)
    ensures
        r@ == "unsupported player count "@ + dec(n as nat),
{
    let mut out: Vec<char> = Vec::new();
    push_str(&mut out, "unsupported player count ");
    push_decimal(&mut out, n as u64);
    chars_to_string(&out)
}

/// The error message for a kingdom that names a card twice.
fn duplicate_message() -> (r: String)
    ensures
        r@ == "duplicate cards"@,
{
    String::from_str("duplicate cards")
}

/// Push a frame that holds no cards.
pub fn push_plain(s: &mut GameState, f: Frame)
    requires
        wf(*old(s)),
        frame_ok(f, old(s).players@.len()),
        f.scratch@.len() <= 1,
    ensures
        wf(*final(s)),
        same_but_stack(*old(s), *final(s)),
        final(s).stack@ == old(s).stack@.push(f),
        conserved(*old(s), *final(s)),
        same_table(*old(s), *final(s)),
{
    push_frame(s, f);
    proof {
        assert forall|c: Card| #[trigger] census(*s, c) == census(*old(s), c) by {
            lemma_held_short(f, c);
        }
    }
}

/// Move played, hand and set-aside cards to the discard pile, in that order.
fn discard_all(s: &mut GameState, p: usize)
    requires
        wf(*old(s)),
        p < old(s).players@.len(),
    ensures
        wf(*final(s)),
        conserved(*old(s), *final(s)),
        same_table(*old(s), *final(s)),
        same_but_players(*old(s), *final(s)),
        only_player(*old(s), *final(s), p as int),
        final(s).rng == old(s).rng,
        final(s).players@[p as int].hand@.len() == 0,
        final(s).players@[p as int].play@.len() == 0,
        final(s).players@[p as int].set_aside@.len() == 0,
        drawable(final(s).players@[p as int]) == owned_len(old(s).players@[p as int]),
        final(s).players@[p as int].deck@ == old(s).players@[p as int].deck@,
        final(s).players@[p as int].discard@ == discarded_all(old(s).players@[p as int]),
        final(s).players@[p as int].known_top == old(s).players@[p as int].known_top,
        final(s).players@[p as int].actions == old(s).players@[p as int].actions,
        final(s).players@[p as int].buys == old(s).players@[p as int].buys,
        final(s).players@[p as int].coins == old(s).players@[p as int].coins,
        final(s).players@[p as int].merchants == old(s).players@[p as int].merchants,
        final(s).players@[p as int].silver_played == old(s).players@[p as int].silver_played,
        final(s).players@[p as int].turns == old(s).players@[p as int].turns,
{
    let ghost s0 = *s;
    let mut played: Vec<Card> = Vec::new();
    std::mem::swap(&mut played, &mut s.players[p].play);
    let mut hand: Vec<Card> = Vec::new();
    std::mem::swap(&mut hand, &mut s.players[p].hand);
    let mut aside: Vec<Card> = Vec::new();
    std::mem::swap(&mut aside, &mut s.players[p].set_aside);
    append_all(&mut s.players[p].discard, &played);
    append_all(&mut s.players[p].discard, &hand);
    append_all(&mut s.players[p].discard, &aside);
    proof {
        let x0 = s0.players@[p as int];
        let x = s.players@[p as int];
        assert(s.players@ =~= s0.players@.update(p as int, x));
        lemma_census_player(s0, *s, p as int, x);
        assert forall|c: Card| #[trigger] census(*s, c) == census(s0, c) by {
            lemma_cnt_concat(x0.discard@, x0.play@, c);
            lemma_cnt_concat(x0.discard@ + x0.play@, x0.hand@, c);
            lemma_cnt_concat(x0.discard@ + x0.play@ + x0.hand@, x0.set_aside@, c);
            lemma_cnt_empty(c);
            assert(x.play@ =~= Seq::<Card>::empty());
            assert(x.hand@ =~= Seq::<Card>::empty());
            assert(x.set_aside@ =~= Seq::<Card>::empty());
        }
        assert forall|i: int| 0 <= i < s.players@.len() implies (#[trigger] s.players@[i]).known_top
            <= s.players@[i].deck@.len() by {
            if i != p {
                assert(s.players@[i] == s0.players@[i]);
            }
        }
    }
}

/// Move the set-aside cards to the discard pile.
pub(crate) fn discard_set_aside(s: &mut GameState, p: usize)
    requires
        wf(*old(s)),
        p < old(s).players@.len(),
    ensures
        wf(*final(s)),
        conserved(*old(s), *final(s)),
        same_table(*old(s), *final(s)),
        same_but_players(*old(s), *final(s)),
        final(s).rng == old(s).rng,
        only_player(*old(s), *final(s), p as int),
        final(s).players@[p as int].discard@ == old(s).players@[p as int].discard@
            + old(s).players@[p as int].set_aside@,
        final(s).players@[p as int].set_aside@.len() == 0,
        same_except(final(s).players@[p as int], old(s).players@[p as int], Zone::Discard, Zone::SetAside),
        final(s).players@[p as int].known_top == old(s).players@[p as int].known_top,
{
    let ghost s0 = *s;
    let mut aside: Vec<Card> = Vec::new();
    std::mem::swap(&mut aside, &mut s.players[p].set_aside);
    append_all(&mut s.players[p].discard, &aside);
    proof {
        let x0 = s0.players@[p as int];
        let x = s.players@[p as int];
        assert(s.players@ =~= s0.players@.update(p as int, x));
        lemma_census_player(s0, *s, p as int, x);
        assert forall|c: Card| #[trigger] census(*s, c) == census(s0, c) by {
            lemma_cnt_concat(x0.discard@, x0.set_aside@, c);
            lemma_cnt_empty(c);
            assert(x.set_aside@ =~= Seq::<Card>::empty());
        }
        assert forall|i: int| 0 <= i < s.players@.len() implies (#[trigger] s.players@[i]).known_top
            <= s.players@[i].deck@.len() by {
            if i != p {
                assert(s.players@[i] == s0.players@[i]);
            }
        }
    }
}

/// A turn starts with one Action, one Buy and no coins (and no Merchant or
/// Silver bonus pending), counts one more turn taken, and queues the Action
/// phase, then the Buy phase, then Cleanup.
pub proof fn lemma_turn_start_rule(a: GameState, b: GameState)
    requires
        start_turn_post(a, b),
        (a.current as int) < a.players@.len(),
    ensures
        ({
            let x = a.players@[a.current as int];
            let y = b.players@[a.current as int];
            &&& y.actions == 1 && y.buys == 1 && y.coins == 0 && y.merchants == 0 && !y.silver_played
            &&& y.turns as int == (x.turns as int + 1) % 0x1_0000_0000
            &&& y.hand@ == x.hand@ && y.deck@ == x.deck@ && y.discard@ == x.discard@
            &&& b.stack@.len() == a.stack@.len() + 3
            &&& b.stack@.last().kind == FrameKind::ActionPhase
            &&& b.stack@[a.stack@.len() + 1int].kind == FrameKind::BuyPhase
            &&& b.stack@[a.stack@.len() as int].kind == FrameKind::Cleanup
        }),
{
    assert(b.stack@.last() == b.stack@[a.stack@.len() + 2int]);
}

/// Playing a card in a phase: an Action costs one Action and is resolved
/// next; a Treasure pays Copper $1, Silver $2 (plus $1 per Merchant played
/// this turn, for the first Silver), Gold $3. Buying a card costs one Buy and
/// its price, and gains it to the discard pile.
pub proof fn lemma_phase_rules(p: int, mv: Move, a: GameState, b: GameState)
    requires
        0 <= p < a.players@.len(),
    ensures
        action_phase_post(p, Some(mv), a, b) ==> (mv matches Move::Play(card) ==> {
            &&& b.players@[p].actions as int == (a.players@[p].actions as int + 255) % 256
            &&& b.players@[p].coins == a.players@[p].coins
            &&& b.stack@.last().kind == FrameKind::Resolve
            &&& b.stack@.last().scratch@ == seq![card]
        }),
        buy_phase_post(p, Some(mv), a, b) && mv == Move::Play(Card::Copper) ==> b.players@[p].coins as int == (
        a.players@[p].coins as int + 1) % 256,
        buy_phase_post(p, Some(mv), a, b) && mv == Move::Play(Card::Gold) ==> b.players@[p].coins as int == (
        a.players@[p].coins as int + 3) % 256,
        buy_phase_post(p, Some(mv), a, b) && mv == Move::Play(Card::Silver) && a.players@[p].silver_played
            ==> b.players@[p].coins as int == (a.players@[p].coins as int + 2) % 256,
        buy_phase_post(p, Some(mv), a, b) && mv == Move::Play(Card::Silver) && !a.players@[p].silver_played
            ==> b.players@[p].coins as int == ((a.players@[p].coins as int + 2) % 256 + a.players@[p].merchants as int)
            % 256 && b.players@[p].silver_played,
        buy_phase_post(p, Some(mv), a, b) ==> (mv matches Move::Buy(card) ==> {
            &&& b.players@[p].buys as int == (a.players@[p].buys as int + 255) % 256
            &&& b.players@[p].coins as int == (a.players@[p].coins as int + 256 - card.spec_cost() as int) % 256
            &&& b.stack@.last().kind == FrameKind::Gain
            &&& b.stack@.last().scratch@ == seq![card]
            &&& b.stack@.last().n == dest_code(Dest::Discard)
        }),
{
}

/// Cleanup: the cards in play and in hand are discarded and a new hand of
/// five is drawn (fewer if the player owns fewer); then the game ends when
/// the Province pile is empty, three supply piles are empty, or every player
/// has taken the turn limit's number of turns, and otherwise the next player
/// in seat order starts their turn.
pub proof fn lemma_cleanup_rule(p: int, a: GameState, b: GameState)
    requires
        0 <= p < a.players@.len(),
        cleanup_post(p, a, b),
    ensures
        b.players@[p].hand@.len() == if owned_len(a.players@[p]) >= 5 { 5 } else { owned_len(a.players@[p]) as int },
        b.players@[p].play@.len() == 0,
        a.supply@[Card::Province.spec_idx() as int] == 0 || three_piles_out(a) || (forall|i: int|
            0 <= i < a.players@.len() ==> (#[trigger] a.players@[i]).turns >= a.turn_limit) ==> b.over,
        !(a.supply@[Card::Province.spec_idx() as int] == 0 || three_piles_out(a) || (forall|i: int|
            0 <= i < a.players@.len() ==> (#[trigger] a.players@[i]).turns >= a.turn_limit)) ==> {
            &&& b.over == a.over
            &&& b.current as int == (a.current as int + 1) % (a.players@.len() as int)
            &&& b.stack@.last().kind == FrameKind::StartTurn
        },
{
    lemma_game_end_rule(a);
}

/// Three different cards of the supply have run out.
pub open spec fn three_piles_out(s: GameState) -> bool {
    exists|c1: Card, c2: Card, c3: Card| {
        &&& c1 != c2 && c1 != c3 && c2 != c3
        &&& #[trigger] s.in_supply@[c1.spec_idx() as int] && s.supply@[c1.spec_idx() as int] == 0
        &&& #[trigger] s.in_supply@[c2.spec_idx() as int] && s.supply@[c2.spec_idx() as int] == 0
        &&& #[trigger] s.in_supply@[c3.spec_idx() as int] && s.supply@[c3.spec_idx() as int] == 0
    }
}

/// The game-end rule: after a turn the game ends exactly when the Province
/// pile is empty or three supply piles (any three) are empty.
pub proof fn lemma_game_end_rule(s: GameState)
    ensures
        should_end(s) <==> (s.supply@[Card::Province.spec_idx() as int] == 0 || three_piles_out(s)),
{
    let all = spec_all_cards();
    let pred = |c: Card| pile_empty(s, c);
    let f = all.filter(pred);
    assert(crate::state::empty_pile_count(s) == f.len());
    lemma_all_cards_nodup();
    lemma_filter_nodup(all, pred);
    if three_piles_out(s) {
        let (c1, c2, c3) = choose|c1: Card, c2: Card, c3: Card| {
            &&& c1 != c2 && c1 != c3 && c2 != c3
            &&& #[trigger] s.in_supply@[c1.spec_idx() as int] && s.supply@[c1.spec_idx() as int] == 0
            &&& #[trigger] s.in_supply@[c2.spec_idx() as int] && s.supply@[c2.spec_idx() as int] == 0
            &&& #[trigger] s.in_supply@[c3.spec_idx() as int] && s.supply@[c3.spec_idx() as int] == 0
        };
        lemma_filter_all_cards(pred, c1);
        lemma_filter_all_cards(pred, c2);
        lemma_filter_all_cards(pred, c3);
        f.unique_seq_to_set();
        let t = Set::<Card>::empty().insert(c1).insert(c2).insert(c3);
        assert(t.len() == 3);
        assert(t.subset_of(f.to_set()));
        broadcast use vstd::seq_lib::seq_to_set_is_finite;
        vstd::set_lib::lemma_len_subset(t, f.to_set());
    }
    if f.len() >= 3 {
        broadcast use vstd::seq_lib::group_filter_ensures;
        assert(pred(f[0]) && pred(f[1]) && pred(f[2]));
        assert(f[0] != f[1] && f[0] != f[2] && f[1] != f[2]);
        assert(s.in_supply@[f[0].spec_idx() as int] && s.supply@[f[0].spec_idx() as int] == 0);
        assert(s.in_supply@[f[1].spec_idx() as int] && s.supply@[f[1].spec_idx() as int] == 0);
        assert(s.in_supply@[f[2].spec_idx() as int] && s.supply@[f[2].spec_idx() as int] == 0);
        assert(three_piles_out(s));
    }
}

/// The game-end rule reads only the supply.
proof fn lemma_should_end_same(a: GameState, b: GameState)
    requires
        a.supply == b.supply,
        a.in_supply == b.in_supply,
    ensures
        should_end(a) == should_end(b),
{
    assert((|c: Card| pile_empty(a, c)) =~= (|c: Card| pile_empty(b, c)));
}

/// Whether every player has reached the turn limit.
fn all_reached_limit(s: &GameState) -> (r: bool)
    ensures
        r == forall|i: int| 0 <= i < s.players@.len() ==> (#[trigger] s.players@[i]).turns >= s.turn_limit,
{
    let mut i: usize = 0;
    while i < s.players.len()
        invariant
            i <= s.players@.len(),
            forall|j: int| 0 <= j < i ==> (#[trigger] s.players@[j]).turns >= s.turn_limit,
        decreases s.players@.len() - i,
    {
        if s.players[i].turns < s.turn_limit {
            return false;
        }
        i = i + 1;
    }
    true
}

/// The starting pile of `c` when it is not one of the kingdom cards.
pub open spec fn basic_supply(n: nat, c: Card) -> int {
    if c == Card::Copper {
        60 - 7 * n
    } else if c == Card::Silver {
        40
    } else if c == Card::Gold {
        30
    } else if c == Card::Estate || c == Card::Duchy || c == Card::Province {
        victory_pile(n)
    } else if c == Card::Curse {
        10 * (n - 1)
    } else {
        0
    }
}

/// The starting pile of a kingdom card.
pub open spec fn kingdom_supply(n: nat, c: Card) -> int {
    if c.spec_is_victory() { victory_pile(n) } else { 10 }
}

/// A new game's supply, for `n` players, as the rules set it up: 60 Coppers
/// less the 7 each player starts with, 40 Silvers, 30 Golds, 8 of each
/// Victory card with two players and 12 with more, 10 Curses for each player
/// after the first, and 10 of each kingdom card except Gardens, which is a
/// Victory card. Cards outside the kingdom other than the basic seven are
/// not in the supply. Starting the first turn leaves the supply alone.
pub proof fn lemma_new_game_piles(kingdom: Seq<Card>, n: nat, seed: u64, d: GameState, g: GameState, c: Card)
    requires
        valid_setup(kingdom, n),
        opening_state(kingdom, n, seed, d),
        first_decision(d, g),
    ensures
        g.supply == d.supply,
        g.in_supply == d.in_supply,
        g.supply@[Card::Curse.spec_idx() as int] == 10 * (n - 1),
        g.supply@[Card::Copper.spec_idx() as int] == 60 - 7 * n,
        g.supply@[Card::Silver.spec_idx() as int] == 40,
        g.supply@[Card::Gold.spec_idx() as int] == 30,
        n == 2 ==> g.supply@[Card::Estate.spec_idx() as int] == 8 && g.supply@[Card::Duchy.spec_idx() as int] == 8
            && g.supply@[Card::Province.spec_idx() as int] == 8,
        n > 2 ==> g.supply@[Card::Estate.spec_idx() as int] == 12 && g.supply@[Card::Duchy.spec_idx() as int] == 12
            && g.supply@[Card::Province.spec_idx() as int] == 12,
        c.spec_idx() < 7 ==> g.in_supply@[c.spec_idx() as int],
        kingdom.contains(c) ==> g.in_supply@[c.spec_idx() as int] && g.supply@[c.spec_idx() as int] == if c
            == Card::Gardens {
            if n == 2 { 8int } else { 12int }
        } else {
            10int
        },
        c.spec_idx() >= 7 && !kingdom.contains(c) ==> !g.in_supply@[c.spec_idx() as int] && g.supply@[c.spec_idx() as int] == 0,
{
    assert(forall|i: int| 0 <= i < kingdom.len() ==> crate::card::is_kingdom(#[trigger] kingdom[i]));
    let basics = seq![Card::Copper, Card::Silver, Card::Gold, Card::Estate, Card::Duchy, Card::Province, Card::Curse];
    assert forall|k: int| 0 <= k < 7 implies !kingdom.contains(#[trigger] basics[k]) by {
        if kingdom.contains(basics[k]) {
            let i = choose|i: int| 0 <= i < kingdom.len() && kingdom[i] == basics[k];
            assert(crate::card::is_kingdom(kingdom[i]));
        }
    }
    assert(!kingdom.contains(basics[0]) && !kingdom.contains(basics[1]) && !kingdom.contains(basics[2]));
    assert(!kingdom.contains(basics[3]) && !kingdom.contains(basics[4]) && !kingdom.contains(basics[5]));
    assert(!kingdom.contains(basics[6]));
    assert(d.supply@[Card::Curse.spec_idx() as int] as int == initial_supply(kingdom, n, Card::Curse));
    assert(d.supply@[Card::Copper.spec_idx() as int] as int == initial_supply(kingdom, n, Card::Copper));
    assert(d.supply@[Card::Silver.spec_idx() as int] as int == initial_supply(kingdom, n, Card::Silver));
    assert(d.supply@[Card::Gold.spec_idx() as int] as int == initial_supply(kingdom, n, Card::Gold));
    assert(d.supply@[Card::Estate.spec_idx() as int] as int == initial_supply(kingdom, n, Card::Estate));
    assert(d.supply@[Card::Duchy.spec_idx() as int] as int == initial_supply(kingdom, n, Card::Duchy));
    assert(d.supply@[Card::Province.spec_idx() as int] as int == initial_supply(kingdom, n, Card::Province));
    assert(d.supply@[c.spec_idx() as int] as int == initial_supply(kingdom, n, c));
    assert(d.in_supply@[c.spec_idx() as int] == (is_basic(c) || kingdom.contains(c)));
}

/// The supply piles and their presence for a valid kingdom and player count.
fn initial_piles(kingdom: &[Card], num_players: usize) -> (r: ([u8; NUM_CARDS], [bool; NUM_CARDS]))
    requires
        valid_setup(kingdom@, num_players as nat),
    ensures
        forall|c: Card| #[trigger] r.0@[c.spec_idx() as int] as int == initial_supply(kingdom@, num_players as nat, c),
        forall|c: Card| #[trigger] r.1@[c.spec_idx() as int] == (is_basic(c) || kingdom@.contains(c)),
{
    let vp: u8 = if num_players == 2 { 8 } else { 12 };
    let mut supply: [u8; NUM_CARDS] = [0u8; NUM_CARDS];
    let mut in_supply: [bool; NUM_CARDS] = [false; NUM_CARDS];
    let n8 = num_players as u8;
    supply[Card::Copper.idx()] = 60 - 7 * n8;
    supply[Card::Silver.idx()] = 40;
    supply[Card::Gold.idx()] = 30;
    supply[Card::Estate.idx()] = vp;
    supply[Card::Duchy.idx()] = vp;
    supply[Card::Province.idx()] = vp;
    supply[Card::Curse.idx()] = 10 * (n8 - 1);
    let mut b: usize = 0;
    while b < 7
        invariant
            b <= 7,
            forall|i: int| 0 <= i < b ==> in_supply@[i],
            forall|i: int| b <= i < NUM_CARDS ==> !in_supply@[i],
            supply@[0] == 60 - 7 * n8,
            supply@[1] == 40,
            supply@[2] == 30,
            supply@[3] == vp,
            supply@[4] == vp,
            supply@[5] == vp,
            supply@[6] == 10 * (n8 - 1),
            forall|i: int| 7 <= i < NUM_CARDS ==> supply@[i] == 0,
        decreases 7 - b,
    {
        in_supply[b] = true;
        b = b + 1;
    }
    let mut i: usize = 0;
    while i < kingdom.len()
        invariant
            valid_setup(kingdom@, num_players as nat),
            i <= kingdom@.len(),
            vp as int == victory_pile(num_players as nat),
            n8 as int == num_players as int,
            forall|c: Card| #[trigger] supply@[c.spec_idx() as int] as int == if kingdom@.take(i as int).contains(c) {
                kingdom_supply(num_players as nat, c)
            } else {
                basic_supply(num_players as nat, c)
            },
            forall|c: Card| #[trigger] in_supply@[c.spec_idx() as int] == (is_basic(c) || kingdom@.take(i as int).contains(c)),
        decreases kingdom@.len() - i,
    {
        let k = kingdom[i];
        let ki = k.idx();
        let ghost old_supply = supply@;
        let ghost old_in = in_supply@;
        supply[ki] = if k.is_victory() { vp } else { 10 };
        in_supply[ki] = true;
        proof {
            let pre = kingdom@.take(i as int);
            let post = kingdom@.take((i + 1) as int);
            assert(post =~= pre.push(k));
            assert forall|c: Card| #[trigger] supply@[c.spec_idx() as int] as int == if post.contains(c) {
                kingdom_supply(num_players as nat, c)
            } else {
                basic_supply(num_players as nat, c)
            } && in_supply@[c.spec_idx() as int] == (is_basic(c) || post.contains(c)) by {
                crate::card::lemma_idx_injective(c, k);
                assert(post[i as int] == k);
                if c != k {
                    assert(supply@[c.spec_idx() as int] == old_supply[c.spec_idx() as int]);
                    if pre.contains(c) {
                        let j = choose|j: int| 0 <= j < pre.len() && #[trigger] pre[j] == c;
                        assert(post[j] == c);
                    }
                    if post.contains(c) {
                        let j = choose|j: int| 0 <= j < post.len() && #[trigger] post[j] == c;
                        assert(pre[j] == c);
                    }
                }
            }
        }
        i = i + 1;
    }
    proof {
        assert(kingdom@.take(kingdom@.len() as int) =~= kingdom@);
        assert forall|c: Card| #[trigger] supply@[c.spec_idx() as int] as int == initial_supply(kingdom@, num_players as nat, c)
            && in_supply@[c.spec_idx() as int] == (is_basic(c) || kingdom@.contains(c)) by {
            if kingdom@.contains(c) {
                let j = choose|j: int| 0 <= j < kingdom@.len() && #[trigger] kingdom@[j] == c;
                assert(crate::card::is_kingdom(kingdom@[j]));
            }
            crate::card::lemma_idx_roundtrip(c, 0);
        }
    }
    (supply, in_supply)
}

/// A player fresh from `PlayerState::starting` holds exactly the starting cards.
proof fn lemma_pcnt_starting(pl: PlayerState, c: Card)
    requires
        pl.deck@.to_multiset() == crate::state::starting_cards().to_multiset(),
        pl.hand@.len() == 0,
        pl.discard@.len() == 0,
        pl.play@.len() == 0,
        pl.set_aside@.len() == 0,
    ensures
        pcnt(pl, c) == starting_count(c),
{
    lemma_starting_counts(c);
    lemma_cnt_perm(pl.deck@, crate::state::starting_cards(), c);
    lemma_cnt_empty(c);
    assert(pl.hand@ =~= Seq::<Card>::empty());
    assert(pl.discard@ =~= Seq::<Card>::empty());
    assert(pl.play@ =~= Seq::<Card>::empty());
    assert(pl.set_aside@ =~= Seq::<Card>::empty());
}

/// The generator's state after the starting decks of `n` players were
/// shuffled, starting from `rs`.
pub open spec fn deal_states(rs: Seq<u64>, n: nat) -> Seq<u64>
    decreases n,
{
    if n == 0 {
        rs
    } else {
        shuffle_result(deal_states(rs, (n - 1) as nat), crate::state::starting_cards()).0
    }
}

/// The starting deck of player `i`: the starting cards shuffled by the
/// generator after the decks of the players before it.
pub open spec fn starting_deck(rs: Seq<u64>, i: nat) -> Seq<Card> {
    shuffle_result(deal_states(rs, i), crate::state::starting_cards()).1
}

/// The top `k` cards of deck `d` in the order they are drawn (the top card,
/// the last one, first).
pub open spec fn top_drawn(d: Seq<Card>, k: int) -> Seq<Card> {
    Seq::new(k as nat, |j: int| d[d.len() - 1 - j])
}

/// A player before the first turn: starting deck `sd` (ten cards, seven
/// Coppers and three Estates) of which the top five are in hand, nothing
/// else anywhere, and every counter at zero.
pub open spec fn opening_player(x: PlayerState, sd: Seq<Card>) -> bool {
    &&& sd.len() == 10
    &&& sd.to_multiset() == crate::state::starting_cards().to_multiset()
    &&& x.deck@ == sd.take(5)
    &&& x.hand@ == top_drawn(sd, 5)
    &&& x.discard@.len() == 0
    &&& x.play@.len() == 0
    &&& x.set_aside@.len() == 0
    &&& x.actions == 0
    &&& x.buys == 0
    &&& x.coins == 0
    &&& x.merchants == 0
    &&& !x.silver_played
    &&& x.turns == 0
}

/// The state of a new game once the opening hands are dealt: each player's
/// deck comes from the seeded shuffle, the supply piles are the starting
/// ones, and the first turn waits on the stack.
pub open spec fn opening_state(kingdom: Seq<Card>, n: nat, seed: u64, d: GameState) -> bool {
    let rs = seeded_state(seed);
    &&& d.players@.len() == n
    &&& forall|i: int| 0 <= i < n ==> opening_player(#[trigger] d.players@[i], starting_deck(rs, i as nat))
    &&& forall|c: Card| #[trigger] d.supply@[c.spec_idx() as int] as int == initial_supply(kingdom, n, c)
    &&& forall|c: Card| #[trigger] d.in_supply@[c.spec_idx() as int] == (is_basic(c) || kingdom.contains(c))
    &&& d.trash@.len() == 0
    &&& d.current == 0
    &&& d.stack@.len() == 1
    &&& fresh_frame(d.stack@[0], FrameKind::StartTurn, 0, 0, Seq::empty())
    &&& d.pending is None
    &&& d.answer is None
    &&& !d.over
    &&& d.turn_limit == 250
    &&& d.rng.state() == deal_states(rs, n)
}

/// A player with starting deck `sd` before anything is drawn.
pub open spec fn fresh_player(x: PlayerState, sd: Seq<Card>) -> bool {
    &&& sd.len() == 10
    &&& sd.to_multiset() == crate::state::starting_cards().to_multiset()
    &&& x.deck@ == sd
    &&& x.hand@.len() == 0
    &&& x.discard@.len() == 0
    &&& x.play@.len() == 0
    &&& x.set_aside@.len() == 0
    &&& x.actions == 0
    &&& x.buys == 0
    &&& x.coins == 0
    &&& x.merchants == 0
    &&& !x.silver_played
    &&& x.turns == 0
}

/// `y` is `x` after drawing the top `k` cards of a deck that held at least
/// that many: they left the deck and joined the hand in the order drawn, and
/// the discard pile stayed.
pub open spec fn drew_top(x: PlayerState, y: PlayerState, k: int) -> bool {
    &&& y.deck@ == x.deck@.take(x.deck@.len() - k)
    &&& y.hand@ == x.hand@ + top_drawn(x.deck@, k)
    &&& y.discard@ == x.discard@
}

/// Drawing once more from a deck that still holds cards takes its top card.
proof fn lemma_drew_top_step(x0: PlayerState, a: PlayerState, b: PlayerState, k: int)
    requires
        0 <= k < 5,
        x0.deck@.len() >= 5,
        drew_top(x0, a, k),
        b.hand@ == a.hand@.push(a.deck@.last()),
        b.deck@ == a.deck@.drop_last(),
        b.discard@ == a.discard@,
    ensures
        drew_top(x0, b, k + 1),
{
    assert(a.deck@.last() == x0.deck@[x0.deck@.len() - 1 - k]);
    assert(b.deck@ =~= x0.deck@.take(x0.deck@.len() - (k + 1)));
    assert(b.hand@ =~= x0.hand@ + top_drawn(x0.deck@, k + 1));
}

/// Every card of a starting deck is a Copper or an Estate, and its top five
/// cards hold a Copper.
proof fn lemma_opening_hand(sd: Seq<Card>)
    requires
        sd.len() == 10,
        sd.to_multiset() == crate::state::starting_cards().to_multiset(),
    ensures
        forall|j: int| 0 <= j < 10 ==> sd[j] == Card::Copper || sd[j] == Card::Estate,
        top_drawn(sd, 5).contains(Card::Copper),
{
    broadcast use vstd::seq_lib::group_to_multiset_ensures;
    assert forall|j: int| 0 <= j < 10 implies sd[j] == Card::Copper || sd[j] == Card::Estate by {
        let x = sd[j];
        assert(sd.contains(x));
        lemma_starting_counts(x);
        assert(sd.to_multiset().count(x) > 0);
    }
    let h = top_drawn(sd, 5);
    if !h.contains(Card::Copper) {
        let tail = sd.subrange(5, 10);
        assert forall|i: int| 0 <= i < 5 implies tail[i] == Card::Estate by {
            assert(tail[i] == h[4 - i]);
        }
        let e = Seq::<Card>::empty();
        let e1 = e.push(Card::Estate);
        let e2 = e1.push(Card::Estate);
        let e3 = e2.push(Card::Estate);
        let e4 = e3.push(Card::Estate);
        let e5 = e4.push(Card::Estate);
        assert(tail =~= e5);
        crate::census::lemma_cnt_empty(Card::Estate);
        lemma_cnt_push(e, Card::Estate, Card::Estate);
        lemma_cnt_push(e1, Card::Estate, Card::Estate);
        lemma_cnt_push(e2, Card::Estate, Card::Estate);
        lemma_cnt_push(e3, Card::Estate, Card::Estate);
        lemma_cnt_push(e4, Card::Estate, Card::Estate);
        assert(sd =~= sd.take(5) + tail);
        lemma_cnt_concat(sd.take(5), tail, Card::Estate);
        lemma_starting_counts(Card::Estate);
        assert(false);
    }
}

/// Player 0 has started their first turn from the dealt state `d`: fresh
/// turn counters and the opening zones, nobody else changed, and the supply
/// and trash are as dealt.
pub open spec fn begun(d: GameState, s: GameState) -> bool {
    &&& s.players@.len() == d.players@.len()
    &&& same_zones(s.players@[0], d.players@[0])
    &&& fresh_turn(s.players@[0], d.players@[0])
    &&& forall|i: int| 1 <= i < d.players@.len() ==> #[trigger] s.players@[i] == d.players@[i]
    &&& s.current == 0
    &&& !s.over
    &&& s.supply == d.supply
    &&& s.in_supply == d.in_supply
    &&& s.trash == d.trash
}

/// Where a new game first waits: player 0 has started their turn (one
/// action, one buy, no coins, first turn) with the opening hand untouched,
/// no other player has changed, and player 0 is asked for their buy phase.
pub open spec fn first_decision(d: GameState, g: GameState) -> bool {
    &&& begun(d, g)
    &&& decided(g, 0, Ctx::BuyPhase, buy_options(g, g.players@[0]))
}

/// The first step from the dealt state runs the first turn's start.
#[verifier::rlimit(50)]
proof fn lemma_first_step(d: GameState, t1: GameState)
    requires
        d.players@.len() >= 1,
        d.stack@.len() == 1,
        fresh_frame(d.stack@[0], FrameKind::StartTurn, 0, 0, Seq::empty()),
        d.pending is None,
        d.answer is None,
        !d.over,
        d.current == 0,
        engine_step(d, t1),
    ensures
        begun(d, t1),
        t1.stack@.len() == 3,
        fresh_frame(t1.stack@[1], FrameKind::BuyPhase, 0, 0, Seq::empty()),
        fresh_frame(t1.stack@[2], FrameKind::ActionPhase, 0, 0, Seq::empty()),
        t1.pending is None,
        t1.answer is None,
{
    assert(with_forced(d) == d);
    let m1 = choose|m: GameState| #![trigger run_post(d.stack@.last(), m.answer, answer_taken(m), t1)]
        same_but_stack(d, m) && m.stack@ == d.stack@.drop_last() && run_post(d.stack@.last(), m.answer, answer_taken(m), t1);
    assert(d.stack@.last() == d.stack@[0]);
    let a1 = answer_taken(m1);
    assert(start_turn_post(a1, t1));
    assert forall|i: int| 1 <= i < d.players@.len() implies #[trigger] t1.players@[i] == d.players@[i] by {
        assert(t1.players@[i] == a1.players@[i]);
    }
}

/// The second step: the action phase of a hand with no Action passes.
#[verifier::rlimit(50)]
proof fn lemma_second_step(d: GameState, t1: GameState, t2: GameState)
    requires
        begun(d, t1),
        t1.stack@.len() == 3,
        fresh_frame(t1.stack@[1], FrameKind::BuyPhase, 0, 0, Seq::empty()),
        fresh_frame(t1.stack@[2], FrameKind::ActionPhase, 0, 0, Seq::empty()),
        t1.pending is None,
        t1.answer is None,
        of_type(distinct_cards(d.players@[0].hand@), 0).len() == 0,
        engine_step(t1, t2),
    ensures
        begun(d, t2),
        t2.stack@.len() == 2,
        fresh_frame(t2.stack@[1], FrameKind::BuyPhase, 0, 0, Seq::empty()),
        t2.pending is None,
        t2.answer is None,
{
    assert(with_forced(t1) == t1);
    let m2 = choose|m: GameState| #![trigger run_post(t1.stack@.last(), m.answer, answer_taken(m), t2)]
        same_but_stack(t1, m) && m.stack@ == t1.stack@.drop_last() && run_post(t1.stack@.last(), m.answer, answer_taken(m), t2);
    let a2 = answer_taken(m2);
    assert(t1.stack@.last() == t1.stack@[2]);
    assert(action_phase_post(0, None, a2, t2));
    assert(a2.players@[0].hand@ == d.players@[0].hand@);
    assert(t2 == a2);
    assert(t2.stack@[1] == t1.stack@[1]);
}

/// The third step: the buy phase asks player 0, offering at least a Treasure
/// play and `Done`.
#[verifier::rlimit(50)]
proof fn lemma_third_step(d: GameState, t2: GameState, t3: GameState)
    requires
        begun(d, t2),
        t2.stack@.len() == 2,
        fresh_frame(t2.stack@[1], FrameKind::BuyPhase, 0, 0, Seq::empty()),
        t2.pending is None,
        t2.answer is None,
        of_type(distinct_cards(d.players@[0].hand@), 1).contains(Card::Copper),
        engine_step(t2, t3),
    ensures
        first_decision(d, t3),
        t3.pending.unwrap().options@.len() >= 2,
{
    assert(with_forced(t2) == t2);
    let m3 = choose|m: GameState| #![trigger run_post(t2.stack@.last(), m.answer, answer_taken(m), t3)]
        same_but_stack(t2, m) && m.stack@ == t2.stack@.drop_last() && run_post(t2.stack@.last(), m.answer, answer_taken(m), t3);
    let a3 = answer_taken(m3);
    assert(t2.stack@.last() == t2.stack@[1]);
    assert(buy_phase_post(0, None, a3, t3));
    let z = a3.players@[0];
    assert(z.hand@ == d.players@[0].hand@);
    let tr = of_type(distinct_cards(z.hand@), 1);
    assert(tr.len() >= 1);
    assert(play_moves(tr).len() == tr.len());
    crate::effects::lemma_buyable_same(a3, t3, z.coins);
    assert(t3.players == a3.players);
}

/// Each state of a run of the engine steps to the next.
proof fn lemma_trace_step(t: Seq<GameState>, a: GameState, b: GameState, i: int)
    requires
        advance_trace(t, a, b),
        0 <= i < t.len() - 1,
    ensures
        engine_step(t[i], t[i + 1]),
{
}

/// An opening hand holds no Action and holds a Copper.
proof fn lemma_opening_hand_kinds(x0: PlayerState, sd: Seq<Card>)
    requires
        opening_player(x0, sd),
    ensures
        of_type(distinct_cards(x0.hand@), 0).len() == 0,
        of_type(distinct_cards(x0.hand@), 1).contains(Card::Copper),
{
    lemma_opening_hand(sd);
    lemma_distinct(x0.hand@);
    let dc = distinct_cards(x0.hand@);
    assert forall|j: int| 0 <= j < dc.len() implies !has_type(#[trigger] dc[j], 0) by {
        assert(dc.contains(dc[j]));
        assert(x0.hand@.contains(dc[j]));
        let k = choose|k: int| 0 <= k < x0.hand@.len() && x0.hand@[k] == dc[j];
        assert(x0.hand@[k] == sd[9 - k]);
    }
    dc.lemma_all_neg_filter_empty(|c: Card| has_type(c, 0));
    assert(dc.contains(Card::Copper));
    let j = choose|j: int| 0 <= j < dc.len() && dc[j] == Card::Copper;
    dc.lemma_filter_contains(|c: Card| has_type(c, 1), j);
}

/// Running the engine from the dealt opening state stops at player 0's buy
/// phase: no Action is in hand, and a Copper always is.
#[verifier::rlimit(100)]
proof fn lemma_first_decision(d: GameState, g: GameState)
    requires
        d.players@.len() >= 1,
        d.stack@.len() == 1,
        fresh_frame(d.stack@[0], FrameKind::StartTurn, 0, 0, Seq::empty()),
        d.pending is None,
        d.answer is None,
        !d.over,
        d.current == 0,
        of_type(distinct_cards(d.players@[0].hand@), 0).len() == 0,
        of_type(distinct_cards(d.players@[0].hand@), 1).contains(Card::Copper),
        advanced(d, g),
    ensures
        first_decision(d, g),
{
    let t = choose|t: Seq<GameState>| #[trigger] advance_trace(t, d, g);
    assert(with_forced(d) == d);
    if t.len() == 1 {
        assert(!engine_stop(d, g));
        assert(false);
    }
    lemma_trace_step(t, d, g, 0);
    lemma_first_step(d, t[1]);
    assert(with_forced(t[1]) == t[1]);
    if t.len() == 2 {
        assert(!engine_stop(t[1], g));
        assert(false);
    }
    lemma_trace_step(t, d, g, 1);
    lemma_second_step(d, t[1], t[2]);
    assert(with_forced(t[2]) == t[2]);
    if t.len() == 3 {
        assert(!engine_stop(t[2], g));
        assert(false);
    }
    lemma_trace_step(t, d, g, 2);
    lemma_third_step(d, t[2], t[3]);
    if t.len() > 4 {
        lemma_trace_step(t, d, g, 3);
        assert(false);
    }
    assert(t.last() == t[3]);
    assert(engine_stop(t[3], g));
}

/// `n` players, each with the starting cards shuffled into the deck.
fn starting_players(n: usize, rng: &mut Rng) -> (r: Vec<PlayerState>)
    ensures
        r@.len() == n,
        forall|c: Card| #[trigger] players_cnt(r@, c) == n * starting_count(c),
        forall|j: int| 0 <= j < r@.len() ==> (#[trigger] r@[j]).known_top == 0,
        final(rng).state() == deal_states(old(rng).state(), n as nat),
        forall|j: int| 0 <= j < n ==> fresh_player(#[trigger] r@[j], starting_deck(old(rng).state(), j as nat)),
{
    let ghost rs = rng.state();
    let mut players: Vec<PlayerState> = Vec::new();
    let mut i: usize = 0;
    while i < n
        invariant
            i <= n,
            players@.len() == i,
            forall|c: Card| #[trigger] players_cnt(players@, c) == i * starting_count(c),
            forall|j: int| 0 <= j < players@.len() ==> (#[trigger] players@[j]).known_top == 0,
            rs == old(rng).state(),
            rng.state() == deal_states(rs, i as nat),
            forall|j: int| 0 <= j < i ==> fresh_player(#[trigger] players@[j], starting_deck(rs, j as nat)),
        decreases n - i,
    {
        let pl = PlayerState::starting(rng);
        let ghost before = players@;
        players.push(pl);
        proof {
            assert(players@.drop_last() =~= before);
            assert(players@.last() == pl);
            assert forall|c: Card| #[trigger] players_cnt(players@, c) == (i + 1) * starting_count(c) by {
                lemma_pcnt_starting(pl, c);
                assert(players_cnt(players@, c) == players_cnt(before, c) + pcnt(pl, c));
                assert((i + 1) * starting_count(c) == i * starting_count(c) + starting_count(c)) by (nonlinear_arith);
            }
        }
        i = i + 1;
    }
    players
}

/// Every player draws five cards.
fn deal_opening_hands(state: &mut GameState)
    requires
        wf(*old(state)),
    ensures
        wf(*final(state)),
        conserved(*old(state), *final(state)),
        same_table(*old(state), *final(state)),
        final(state).players@.len() == old(state).players@.len(),
        final(state).turn_limit == old(state).turn_limit,
        same_but_players(*old(state), *final(state)),
        forall|i: int| 0 <= i < old(state).players@.len() ==> drew_n(
            #[trigger] old(state).players@[i],
            final(state).players@[i],
            min_of(5, drawable(old(state).players@[i]) as int),
        ),
        forall|i: int| 0 <= i < old(state).players@.len() && old(state).players@[i].deck@.len() >= 5 ==> drew_top(
            #[trigger] old(state).players@[i],
            final(state).players@[i],
            5,
        ),
        (forall|i: int| 0 <= i < old(state).players@.len() ==> (#[trigger] old(state).players@[i]).deck@.len() >= 5)
            ==> final(state).rng.state() == old(state).rng.state(),
{
    let ghost s0 = *state;
    let n = state.players.len();
    let mut p: usize = 0;
    while p < n
        invariant
            wf(*state),
            conserved(s0, *state),
            same_table(s0, *state),
            same_but_players(s0, *state),
            state.players@.len() == n,
            n == s0.players@.len(),
            p <= n,
            state.turn_limit == s0.turn_limit,
            forall|i: int| 0 <= i < p ==> drew_n(
                #[trigger] s0.players@[i],
                state.players@[i],
                min_of(5, drawable(s0.players@[i]) as int),
            ),
            forall|i: int| p <= i < n ==> #[trigger] state.players@[i] == s0.players@[i],
            forall|i: int| 0 <= i < p && s0.players@[i].deck@.len() >= 5 ==> drew_top(#[trigger] s0.players@[i], state.players@[i], 5),
            (forall|i: int| 0 <= i < p ==> (#[trigger] s0.players@[i]).deck@.len() >= 5) ==> state.rng.state() == s0.rng.state(),
        decreases n - p,
    {
        let ghost x0 = s0.players@[p as int];
        proof {
            assert(x0.hand@.take(x0.hand@.len() as int) =~= x0.hand@);
            assert(x0.deck@.take(x0.deck@.len() as int) =~= x0.deck@);
            assert(x0.hand@ + top_drawn(x0.deck@, 0) =~= x0.hand@);
        }
        let mut k: usize = 0;
        while k < 5
            invariant
                wf(*state),
                conserved(s0, *state),
                same_table(s0, *state),
                same_but_players(s0, *state),
                p < n,
                k <= 5,
                n == s0.players@.len(),
                x0 == s0.players@[p as int],
                state.players@.len() == n,
                state.turn_limit == s0.turn_limit,
                drew_n(x0, state.players@[p as int], min_of(k as int, drawable(x0) as int)),
                forall|i: int| 0 <= i < p ==> drew_n(
                    #[trigger] s0.players@[i],
                    state.players@[i],
                    min_of(5, drawable(s0.players@[i]) as int),
                ),
                forall|i: int| p < i < n ==> #[trigger] state.players@[i] == s0.players@[i],
                forall|i: int| 0 <= i < p && s0.players@[i].deck@.len() >= 5 ==> drew_top(#[trigger] s0.players@[i], state.players@[i], 5),
                x0.deck@.len() >= 5 ==> drew_top(x0, state.players@[p as int], k as int),
                (forall|i: int| 0 <= i <= p ==> (#[trigger] s0.players@[i]).deck@.len() >= 5) ==> state.rng.state() == s0.rng.state(),
            decreases 5 - k,
        {
            let ghost before = *state;
            let got = draw_one(state, p);
            proof {
                lemma_conserved_trans(s0, before, *state);
                lemma_draw_step(x0, before.players@[p as int], state.players@[p as int], k as int, got is Some);
                if x0.deck@.len() >= 5 {
                    assert(before.players@[p as int].deck@.len() > 0);
                    assert(got is Some);
                    lemma_drew_top_step(x0, before.players@[p as int], state.players@[p as int], k as int);
                }
                assert forall|i: int| 0 <= i < n && i != p implies #[trigger] state.players@[i] == before.players@[i] by {}
            }
            k = k + 1;
        }
        p = p + 1;
    }
}

/// The census of a freshly built game: supply piles plus starting decks.
proof fn lemma_start_census(state: GameState, kingdom: Seq<Card>, n: nat)
    requires
        forall|c: Card| #[trigger] players_cnt(state.players@, c) == n * starting_count(c),
        forall|c: Card| #[trigger] state.supply@[c.spec_idx() as int] as int == initial_supply(kingdom, n, c),
        state.trash@.len() == 0,
        state.stack@.len() == 1,
        state.stack@[0].scratch@.len() == 0,
    ensures
        forall|c: Card| #[trigger] census(state, c) == initial_census(kingdom, n, c),
{
    assert(state.stack@.drop_last() =~= Seq::<Frame>::empty());
    assert(state.trash@ =~= Seq::<Card>::empty());
    assert forall|c: Card| #[trigger] census(state, c) == initial_census(kingdom, n, c) by {
        lemma_cnt_empty(c);
        lemma_held_short(state.stack@[0], c);
        assert(frames_cnt(state.stack@.drop_last(), c) == 0);
        assert(frames_cnt(state.stack@, c) == 0);
        assert(players_cnt(state.players@, c) == n * starting_count(c));
        assert(state.supply@[c.spec_idx() as int] as int == initial_supply(kingdom, n, c));
    }
}

/// Ten cards drawn from a shuffle of the kingdom cards and sorted form a
/// legal kingdom.
proof fn lemma_random_kingdom(all: Seq<Card>, shuffled: Seq<Card>, chosen: Seq<Card>, r: Seq<Card>)
    requires
        all == crate::card::spec_kingdom_cards(),
        shuffled.to_multiset() == all.to_multiset(),
        shuffled.len() == all.len(),
        chosen == shuffled.take(10),
        r.to_multiset() == chosen.to_multiset(),
        sorted_by_index(r),
    ensures
        valid_kingdom(r),
{
    broadcast use vstd::seq_lib::group_to_multiset_ensures, vstd::multiset::group_multiset_axioms;
    assert(all.no_duplicates()) by {
        assert forall|i: int, j: int| 0 <= i < all.len() && 0 <= j < all.len() && i != j implies all[i] != all[j] by {
            crate::card::lemma_idx_roundtrip(all[i], (i + 7) as usize);
            crate::card::lemma_idx_roundtrip(all[j], (j + 7) as usize);
        }
    }
    all.lemma_multiset_has_no_duplicates();
    assert(shuffled =~= chosen + shuffled.skip(10));
    vstd::seq_lib::lemma_multiset_commutative(chosen, shuffled.skip(10));
    assert forall|x: Card| r.to_multiset().contains(x) implies r.to_multiset().count(x) == 1 by {
        assert(chosen.to_multiset().count(x) <= shuffled.to_multiset().count(x));
    }
    r.lemma_multiset_has_no_duplicates_conv();
    assert(r.len() == 10) by {
        vstd::seq_lib::to_multiset_len(r);
        vstd::seq_lib::to_multiset_len(chosen);
        assert(chosen.len() == 10);
    }
    assert forall|i: int| 0 <= i < r.len() implies crate::card::is_kingdom(#[trigger] r[i]) by {
        assert(r.to_multiset().contains(r[i]));
        assert(shuffled.to_multiset().count(r[i]) >= chosen.to_multiset().count(r[i]));
        assert(all.contains(r[i]));
        crate::card::lemma_kingdom_contains(r[i]);
    }
}

/// The state of a new game before anyone draws: shuffled starting decks, the
/// supply piles, and the first turn waiting on the stack.
fn initial_state(kingdom: &[Card], num_players: usize, seed: u64) -> (state: GameState)
    requires
        valid_setup(kingdom@, num_players as nat),
    ensures
        wf(state),
        state.players@.len() == num_players,
        state.turn_limit == 250,
        forall|c: Card| #[trigger] census(state, c) == initial_census(kingdom@, num_players as nat, c),
        forall|i: int| 0 <= i < num_players ==> fresh_player(#[trigger] state.players@[i], starting_deck(seeded_state(seed), i as nat)),
        forall|c: Card| #[trigger] state.supply@[c.spec_idx() as int] as int == initial_supply(kingdom@, num_players as nat, c),
        forall|c: Card| #[trigger] state.in_supply@[c.spec_idx() as int] == (is_basic(c) || kingdom@.contains(c)),
        state.trash@.len() == 0,
        state.current == 0,
        state.stack@.len() == 1,
        fresh_frame(state.stack@[0], FrameKind::StartTurn, 0, 0, Seq::empty()),
        state.pending is None,
        state.answer is None,
        !state.over,
        state.rng.state() == deal_states(seeded_state(seed), num_players as nat),
{
        let ghost n = num_players as nat;
        let mut rng = Rng::new(seed);
        let players = starting_players(num_players, &mut rng);
        let (supply, in_supply) = initial_piles(kingdom, num_players);
        let mut stack: Vec<Frame> = Vec::new();
        stack.push(Frame::new(FrameKind::StartTurn, 0));
        let state = GameState {
            players,
            supply,
            in_supply,
            trash: Vec::new(),
            current: 0,
            stack,
            pending: None,
            answer: None,
            rng,
            over: false,
            turn_limit: 250,
        };
        proof {
            lemma_start_census(state, kingdom@, n);
        }
    state
}

impl Game {
    /// A random legal kingdom: the kingdom cards shuffled, the first ten
    /// kept, in canonical order.
    pub fn random_kingdom(rng: &mut Rng) -> (r: Vec<Card>)
        ensures
            final(rng).state() == shuffle_result(old(rng).state(), crate::card::spec_kingdom_cards()).0,
            r@.to_multiset() == shuffle_result(old(rng).state(), crate::card::spec_kingdom_cards()).1.take(10).to_multiset(),
            sorted_by_index(r@),
            valid_kingdom(r@),
    {
        let mut pool = crate::card::kingdom_cards();
        let ghost all = pool@;
        rng.shuffle(&mut pool);
        let ghost shuffled = pool@;
        pool.truncate(10);
        let ghost chosen = pool@;
        sort_cards(&mut pool);
        proof {
            lemma_random_kingdom(all, shuffled, chosen, pool@);
        }
        pool
    }

    /// Start a game: `kingdom` must list exactly 10 distinct kingdom cards,
    /// and 2 to 4 players take part. Each player draws five cards and play
    /// runs to the first real decision.
    pub fn new(kingdom: &[Card], num_players: usize, seed: u64) -> (r: Result<Game, EngineError>)
        ensures
            r is Ok <==> valid_setup(kingdom@, num_players as nat),
            r matches Err(e) ==> e is BadKingdom,
            kingdom@.len() != 10 ==> refusal_text(r) == Some("expected 10 cards, got "@ + dec(kingdom@.len())),
            kingdom@.len() == 10 && !kingdom@.no_duplicates() ==> refusal_text(r) == Some("duplicate cards"@),
            kingdom@.len() == 10 && kingdom@.no_duplicates() && first_outside_kingdom(kingdom@) is Some
                ==> refusal_text(r) == Some(outside_text(first_outside_kingdom(kingdom@))),
            valid_kingdom(kingdom@) && !(2 <= num_players <= crate::state::MAX_PLAYERS) ==> refusal_text(r)
                == Some("unsupported player count "@ + dec(num_players as nat)),
            r matches Ok(g) ==> {
                &&& wf(g.state)
                &&& settled(g.state)
                &&& g.state.players@.len() == num_players
                &&& g.state.turn_limit == 250
                &&& forall|c: Card| #[trigger] census(g.state, c) == initial_census(kingdom@, num_players as nat, c)
                &&& exists|d: GameState| #[trigger] opening_state(kingdom@, num_players as nat, seed, d) && advanced(d, g.state)
                &&& started(kingdom@, num_players as nat, seed, g.state)
                &&& exists|d: GameState| #[trigger] opening_state(kingdom@, num_players as nat, seed, d) && first_decision(d, g.state)
            },
    {
        if kingdom.len() != 10 {
            return Err(EngineError::BadKingdom(size_message(kingdom.len())));
        }
        if has_duplicates(kingdom) {
            return Err(EngineError::BadKingdom(duplicate_message()));
        }
        if let Some(bad) = first_non_kingdom(kingdom) {
            return Err(EngineError::BadKingdom(not_kingdom_message(bad.name())));
        }
        if num_players < 2 || num_players > crate::state::MAX_PLAYERS {
            return Err(EngineError::BadKingdom(player_count_message(num_players)));
        }
        let mut state = initial_state(kingdom, num_players, seed);
        let ghost s0 = state;
        deal_opening_hands(&mut state);
        proof {
            let rs = seeded_state(seed);
            assert forall|i: int| 0 <= i < num_players implies opening_player(#[trigger] state.players@[i], starting_deck(rs, i as nat)) by {
                let x0 = s0.players@[i];
                assert(fresh_player(x0, starting_deck(rs, i as nat)));
                assert(drew_top(x0, state.players@[i], 5));
                assert(drew_n(x0, state.players@[i], min_of(5, drawable(x0) as int)));
                assert(state.players@[i].hand@ =~= top_drawn(starting_deck(rs, i as nat), 5));
            }
            assert(opening_state(kingdom@, num_players as nat, seed, state));
        }
        let mut game = Game { state };
        let ghost before = game.state;
        game.advance();
        proof {
            lemma_opening_hand_kinds(before.players@[0], starting_deck(seeded_state(seed), 0));
            lemma_first_decision(before, game.state);
            lemma_conserved_trans(s0, before, game.state);
            assert forall|c: Card| #[trigger] census(game.state, c) == initial_census(kingdom@, num_players as nat, c) by {
                assert(census(s0, c) == census(game.state, c));
            }
        }
        Ok(game)
    }

    /// The decision the game is parked on, if any.
    pub fn decision(&self) -> (r: Option<&Decision>)
        ensures
            r == match self.state.pending {
                Some(d) => Some(&d),
                None => None::<&Decision>,
            },
    {
        match &self.state.pending {
            Some(d) => Some(d),
            None => None,
        }
    }

    /// Whether the game has finished.
    pub fn is_over(&self) -> (r: bool)
        ensures
            r == self.state.over,
    {
        self.state.over
    }

    /// Answer the pending decision and run forward to the next one. With no
    /// decision pending, or a move that is not among its options, the game is
    /// left untouched and the error says why.
    pub fn apply(&mut self, mv: Move) -> (r: Result<(), EngineError>)
        requires
            wf(old(self).state),
        ensures
            old(self).state.pending is None ==> r == Err::<(), EngineError>(
                EngineError::NoPendingDecision,
            ) && final(self).state == old(self).state,
            old(self).state.pending is Some && !old(self).state.pending.unwrap().options@.contains(mv)
                ==> (r matches Err(EngineError::IllegalMove { got, legal }) && got == mv && legal@
                == old(self).state.pending.unwrap().options@ && final(self).state == old(self).state),
            old(self).state.pending is Some && old(self).state.pending.unwrap().options@.contains(mv)
                ==> r is Ok,
            r is Ok ==> old(self).state.pending is Some,
            wf(final(self).state),
            conserved(old(self).state, final(self).state),
            same_table(old(self).state, final(self).state),
            r is Ok ==> settled(final(self).state),
            r is Ok ==> advanced(answered(old(self).state, mv), final(self).state),
    {
        let d = match self.state.pending.take() {
            None => {
                return Err(EngineError::NoPendingDecision);
            },
            Some(d) => d,
        };
        if !contains_move(&d.options, mv) {
            let legal = d.options.clone();
            assert(legal@ =~= d.options@);
            self.state.pending = Some(d);
            return Err(EngineError::IllegalMove { got: mv, legal });
        }
        let ghost s1 = self.state;
        self.state.answer = Some(mv);
        proof {
            lemma_same_cards(old(self).state, s1);
            lemma_same_cards(s1, self.state);
            lemma_conserved_trans(old(self).state, s1, self.state);
        }
        let ghost s2 = self.state;
        assert(s2 == answered(old(self).state, mv));
        self.advance();
        proof {
            lemma_conserved_trans(old(self).state, s2, self.state);
        }
        Ok(())
    }

    /// Run frames until a decision with more than one option is pending or the
    /// game ends. Decisions with a single option are answered here.
    pub fn advance(&mut self)
        requires
            wf(old(self).state),
        ensures
            wf(final(self).state),
            conserved(old(self).state, final(self).state),
            same_table(old(self).state, final(self).state),
            settled(final(self).state),
            advanced(old(self).state, final(self).state),
    {
        let ghost s0 = self.state;
        let ghost mut t: Seq<GameState> = seq![s0];
        // The budget only bounds the loop for termination; a game ends long
        // before it runs out (every player is limited to `turn_limit` turns).
        let mut budget: u64 = u64::MAX;
        loop
            invariant
                wf(self.state),
                s0 == old(self).state,
                conserved(s0, self.state),
                same_table(s0, self.state),
                t.len() >= 1,
                t[0] == s0,
                t.last() == self.state,
                t.len() == u64::MAX - budget + 1,
                forall|i: int| 0 <= i < t.len() - 1 ==> #[trigger] engine_step(t[i], t[i + 1]),
            decreases budget,
        {
            let ghost a = self.state;
            if self.state.over {
                let ghost before = self.state;
                self.state.pending = None;
                proof {
                    lemma_same_cards(before, self.state);
                    lemma_conserved_trans(s0, before, self.state);
                    assert(advance_trace(t, s0, self.state));
                }
                return;
            }
            let forced = match &self.state.pending {
                Some(d) => {
                    if d.options.len() == 1 {
                        Some(d.options[0])
                    } else {
                        proof {
                            assert(advance_trace(t, s0, self.state));
                        }
                        return;
                    }
                },
                None => None,
            };
            if let Some(mv) = forced {
                let ghost before = self.state;
                self.state.pending = None;
                self.state.answer = Some(mv);
                proof {
                    lemma_same_cards(before, self.state);
                    lemma_conserved_trans(s0, before, self.state);
                }
            }
            let ghost s1 = self.state;
            assert(s1 == with_forced(a));
            let frame = match self.state.stack.pop() {
                Some(f) => f,
                None => {
                    let ghost before = self.state;
                    self.state.over = true;
                    self.state.pending = None;
                    proof {
                        lemma_same_cards(before, self.state);
                        lemma_conserved_trans(s0, before, self.state);
                        assert(!a.over);
                        assert(a.pending is None || a.pending.unwrap().options@.len() == 1);
                        assert(with_forced(a).stack@.len() == 0);
                        assert(engine_stop(a, self.state));
                        assert(advance_trace(t, s0, self.state));
                    }
                    return;
                },
            };
            proof {
                assert(s1.stack@.len() > 0);
                assert(frame == s1.stack@.last());
                assert(frame_ok(s1.stack@[s1.stack@.len() - 1], s1.players@.len()));
                assert forall|c: Card| #[trigger] census(s1, c) == census(self.state, c) + cnt(held(frame), c) by {
                    lemma_frames_cnt_pop(s1.stack@, c);
                    assert(self.state.stack@ == s1.stack@.drop_last());
                }
                assert forall|i: int| 0 <= i < self.state.stack@.len() implies frame_ok(#[trigger] self.state.stack@[i], self.state.players@.len()) by {
                    assert(self.state.stack@[i] == s1.stack@[i]);
                }
            }
            let ghost s2 = self.state;
            self.run(frame);
            proof {
                assert forall|c: Card| #[trigger] census(s0, c) == census(self.state, c) by {
                    assert(census(s0, c) == census(s1, c));
                    assert(census(s1, c) == census(s2, c) + cnt(held(frame), c));
                }
                assert(run_post(s1.stack@.last(), s2.answer, answer_taken(s2), self.state));
                assert(engine_step(a, self.state));
                let t0 = t;
                t = t.push(self.state);
                assert forall|i: int| 0 <= i < t.len() - 1 implies #[trigger] engine_step(t[i], t[i + 1]) by {
                    if i < t0.len() - 1 {
                        assert(t[i] == t0[i] && t[i + 1] == t0[i + 1]);
                    } else {
                        assert(t[i] == a);
                    }
                }
            }
            if budget == 0 {
                let ghost before = self.state;
                self.state.over = true;
                self.state.pending = None;
                proof {
                    lemma_same_cards(before, self.state);
                    lemma_conserved_trans(s0, before, self.state);
                    assert(advance_trace(t, s0, self.state));
                }
                return;
            }
            budget = budget - 1;
        }
    }

    /// Run one frame popped from the stack.
    fn run(&mut self, f: Frame)
        requires
            wf(old(self).state),
            frame_ok(f, old(self).state.players@.len()),
        ensures
            wf(final(self).state),
            forall|c: Card| #[trigger] census(final(self).state, c) == census(old(self).state, c) + cnt(held(f), c),
            same_table(old(self).state, final(self).state),
            run_post(f, old(self).state.answer, answer_taken(old(self).state), final(self).state),
    {
        let ghost s0 = self.state;
        let ans = self.state.answer.take();
        assert(self.state == answer_taken(s0));
        assert(conserved(s0, self.state));
        let p = f.player as usize;
        proof {
            if f.kind != FrameKind::Resolve && f.kind != FrameKind::AttackOne {
                assert forall|c: Card| cnt(held(f), c) == 0 by {
                    lemma_held_short(f, c);
                }
            }
        }
        match f.kind {
            FrameKind::StartTurn => self.start_turn(),
            FrameKind::ActionPhase => self.action_phase(p, ans),
            FrameKind::BuyPhase => self.buy_phase(p, ans),
            FrameKind::Cleanup => self.cleanup(p),
            FrameKind::Draw => self.draw_n(p, f.n),
            FrameKind::Gain => self.gain(f),
            FrameKind::AttackEach => self.attack_each(f),
            FrameKind::AttackOne => self.run_attack(f, ans),
            FrameKind::Resolve => {
                let card = f.scratch.get(0);
                let mut g = f;
                self.resolve(card, &mut g, ans);
                assert(crate::effects::resolve_post(f.scratch.slot(0), f, g, ans, answer_taken(s0), self.state));
            },
        }
    }

    /// Start the current player's turn: reset the turn counters and queue the
    /// action, buy and cleanup phases.
    fn start_turn(&mut self)
        requires
            wf(old(self).state),
        ensures
            wf(final(self).state),
            conserved(old(self).state, final(self).state),
            same_table(old(self).state, final(self).state),
            start_turn_post(old(self).state, final(self).state),
    {
        let ghost s0 = self.state;
        let cur = self.state.current as usize;
        self.state.players[cur].actions = 1;
        self.state.players[cur].buys = 1;
        self.state.players[cur].coins = 0;
        self.state.players[cur].merchants = 0;
        self.state.players[cur].silver_played = false;
        self.state.players[cur].turns = self.state.players[cur].turns.wrapping_add(1);
        proof {
            lemma_counters(s0, self.state, cur as int);
        }
        push_plain(&mut self.state, Frame::new(FrameKind::Cleanup, cur));
        push_plain(&mut self.state, Frame::new(FrameKind::BuyPhase, cur));
        push_plain(&mut self.state, Frame::new(FrameKind::ActionPhase, cur));
        assert(self.state.stack@.take(s0.stack@.len() as int) =~= s0.stack@);
    }

    /// The action phase: play an Action (and come back afterwards), or end it.
    fn action_phase(&mut self, p: usize, ans: Option<Move>)
        requires
            wf(old(self).state),
            p < old(self).state.players@.len(),
        ensures
            wf(final(self).state),
            conserved(old(self).state, final(self).state),
            same_table(old(self).state, final(self).state),
            action_phase_post(p as int, ans, old(self).state, final(self).state),
    {
        match ans {
            Some(Move::Done) => {
                return;
            },
            Some(Move::Play(card)) => {
                move_card(&mut self.state, p, Zone::Hand, Zone::Play, card);
                let ghost s1 = self.state;
                self.state.players[p].actions = self.state.players[p].actions.wrapping_sub(1);
                proof {
                    lemma_counters(s1, self.state, p as int);
                }
                // Continue the phase after the card resolves.
                push_plain(&mut self.state, Frame::new(FrameKind::ActionPhase, p));
                self.push_resolve(card, p);
                proof {
                    assert(self.state.stack@.take(old(self).state.stack@.len() as int) =~= old(self).state.stack@);
                    assert forall|q: int| 0 <= q < old(self).state.players@.len() && q != p implies self.state.players@[q]
                        == old(self).state.players@[q] by {
                        assert(self.state.players@[q] == s1.players@[q]);
                    }
                }
                return;
            },
            _ => {},
        }
        if self.state.players[p].actions == 0 {
            return;
        }
        let kinds = distinct(self.state.players[p].hand.as_slice());
        let playable = keep_type(&kinds, 0);
        if playable.len() == 0 {
            return;
        }
        let mut opts = plays_of(&playable);
        opts.push(Move::Done);
        let fr = Frame::new(FrameKind::ActionPhase, p);
        proof {
            lemma_distinct_nodup(self.state.players@[p as int].hand@, 0);
            lemma_moves_nodup(playable@);
        }
        ask(&mut self.state, fr, p, Ctx::ActionPhase, opts);
        proof {
            assert forall|c: Card| #[trigger] census(self.state, c) == census(old(self).state, c) by {
                lemma_held_short(fr, c);
            }
        }
    }

    /// The buy phase: play Treasures, buy cards while buys and coins last, or
    /// end the turn.
    fn buy_phase(&mut self, p: usize, ans: Option<Move>)
        requires
            wf(old(self).state),
            p < old(self).state.players@.len(),
        ensures
            wf(final(self).state),
            conserved(old(self).state, final(self).state),
            same_table(old(self).state, final(self).state),
            buy_phase_post(p as int, ans, old(self).state, final(self).state),
    {
        match ans {
            Some(Move::Done) => {
                return;
            },
            Some(Move::Play(card)) => {
                move_card(&mut self.state, p, Zone::Hand, Zone::Play, card);
                let ghost s1 = self.state;
                let value = card.coin_value();
                self.state.players[p].coins = self.state.players[p].coins.wrapping_add(value);
                if card == Card::Silver && !self.state.players[p].silver_played {
                    self.state.players[p].silver_played = true;
                    let bonus = self.state.players[p].merchants;
                    self.state.players[p].coins = self.state.players[p].coins.wrapping_add(bonus);
                }
                proof {
                    lemma_counters(s1, self.state, p as int);
                }
                push_plain(&mut self.state, Frame::new(FrameKind::BuyPhase, p));
                proof {
                    assert(self.state.stack@.take(old(self).state.stack@.len() as int) =~= old(self).state.stack@);
                    assert forall|q: int| 0 <= q < old(self).state.players@.len() && q != p implies self.state.players@[q]
                        == old(self).state.players@[q] by {
                        assert(self.state.players@[q] == s1.players@[q]);
                    }
                }
                return;
            },
            Some(Move::Buy(card)) => {
                let ghost s1 = self.state;
                self.state.players[p].buys = self.state.players[p].buys.wrapping_sub(1);
                let cost = card.cost();
                self.state.players[p].coins = self.state.players[p].coins.wrapping_sub(cost);
                proof {
                    lemma_counters(s1, self.state, p as int);
                }
                push_plain(&mut self.state, Frame::new(FrameKind::BuyPhase, p));
                self.push_gain(card, p, Dest::Discard);
                proof {
                    assert(self.state.stack@.take(old(self).state.stack@.len() as int) =~= old(self).state.stack@);
                    assert forall|q: int| 0 <= q < old(self).state.players@.len() && q != p implies self.state.players@[q]
                        == old(self).state.players@[q] by {
                        assert(self.state.players@[q] == s1.players@[q]);
                    }
                }
                return;
            },
            _ => {},
        }
        let kinds = distinct(self.state.players[p].hand.as_slice());
        let treasures = keep_type(&kinds, 1);
        let mut opts = plays_of(&treasures);
        if self.state.players[p].buys > 0 {
            let budget = self.state.players[p].coins;
            let gains = self.state.buyable(budget);
            push_buys(&mut opts, &gains);
        }
        opts.push(Move::Done);
        assert(opts@ =~= buy_options(self.state, self.state.players@[p as int]));
        let fr = Frame::new(FrameKind::BuyPhase, p);
        proof {
            lemma_buy_options_nodup(self.state, self.state.players@[p as int]);
        }
        ask(&mut self.state, fr, p, Ctx::BuyPhase, opts);
        proof {
            assert forall|c: Card| #[trigger] census(self.state, c) == census(old(self).state, c) by {
                lemma_held_short(fr, c);
            }
        }
    }

    /// Cleanup: discard everything, draw five, then end the game or pass the
    /// turn.
    fn cleanup(&mut self, p: usize)
        requires
            wf(old(self).state),
            p < old(self).state.players@.len(),
        ensures
            wf(final(self).state),
            conserved(old(self).state, final(self).state),
            same_table(old(self).state, final(self).state),
            cleanup_post(p as int, old(self).state, final(self).state),
    {
        let ghost s0 = self.state;
        discard_all(&mut self.state, p);
        let ghost s1 = self.state;
        let ghost x1 = s1.players@[p as int];
        proof {
            assert(x1.hand@.take(0) =~= x1.hand@);
            lemma_drawn_none(x1, s1.rng.state());
        }
        let mut k: usize = 0;
        while k < 5
            invariant
                wf(self.state),
                conserved(s0, self.state),
                same_table(s0, self.state),
                p < self.state.players@.len(),
                k <= 5,
                x1 == s1.players@[p as int],
                same_but_players(s1, self.state),
                only_player(s0, self.state, p as int),
                drew_n(x1, self.state.players@[p as int], min_of(k as int, drawable(x1) as int)),
                drawn_from(x1, self.state.players@[p as int], s1.rng.state(), self.state.rng.state(), k as nat),
            decreases 5 - k,
        {
            let ghost before = self.state;
            let got = draw_one(&mut self.state, p);
            proof {
                lemma_draw_step(x1, before.players@[p as int], self.state.players@[p as int], k as int, got is Some);
                lemma_drawn_step(x1, before.players@[p as int], self.state.players@[p as int], s1.rng.state(),
                    before.rng.state(), self.state.rng.state(), k as nat);
                assert forall|q: int| 0 <= q < s0.players@.len() && q != p implies self.state.players@[q]
                    == s0.players@[q] by {
                    assert(self.state.players@[q] == before.players@[q]);
                }
            }
            k = k + 1;
        }
        proof {
            assert(x1.hand@ + draws(x1.deck@, x1.discard@, x1.known_top as int, s1.rng.state(), 5).0
                =~= draws(x1.deck@, x1.discard@, x1.known_top as int, s1.rng.state(), 5).0);
            lemma_should_end_same(s0, self.state);
            let x = self.state.players@[p as int];
            assert(x.turns == s0.players@[p as int].turns);
            assert(all_at_limit(self.state) == all_at_limit(s0)) by {
                if all_at_limit(s0) {
                    assert forall|i: int| 0 <= i < self.state.players@.len() implies (#[trigger] self.state.players@[i]).turns
                        >= self.state.turn_limit by {
                        assert(s0.players@[i].turns >= s0.turn_limit);
                    }
                }
                if all_at_limit(self.state) {
                    assert forall|i: int| 0 <= i < s0.players@.len() implies (#[trigger] s0.players@[i]).turns
                        >= s0.turn_limit by {
                        assert(self.state.players@[i].turns >= self.state.turn_limit);
                    }
                }
            }
        }
        let over_by_piles = self.state.game_should_end();
        let over_by_limit = all_reached_limit(&self.state);
        if over_by_piles || over_by_limit {
            self.state.over = true;
            assert(conserved(s0, self.state));
            return;
        }
        let n = self.state.players.len();
        let next = (self.state.current as usize + 1) % n;
        self.state.current = next as u8;
        assert(conserved(s0, self.state));
        push_plain(&mut self.state, Frame::new(FrameKind::StartTurn, next));
    }

    /// Draw up to `n` cards for `p`, stopping early when nothing is left.
    fn draw_n(&mut self, p: usize, n: u8)
        requires
            wf(old(self).state),
            p < old(self).state.players@.len(),
        ensures
            wf(final(self).state),
            conserved(old(self).state, final(self).state),
            same_table(old(self).state, final(self).state),
            draw_n_post(p as int, n, old(self).state, final(self).state),
    {
        let ghost s0 = self.state;
        let ghost x0 = s0.players@[p as int];
        let mut k: u8 = 0;
        let mut exhausted = false;
        proof {
            assert(x0.hand@.take(x0.hand@.len() as int) =~= x0.hand@);
            lemma_drawn_none(x0, s0.rng.state());
        }
        while k < n && !exhausted
            invariant
                wf(self.state),
                conserved(s0, self.state),
                same_table(s0, self.state),
                same_but_players(s0, self.state),
                only_player(s0, self.state, p as int),
                p < self.state.players@.len(),
                x0 == s0.players@[p as int],
                k <= n,
                drew_n(x0, self.state.players@[p as int], k as int),
                drawn_from(x0, self.state.players@[p as int], s0.rng.state(), self.state.rng.state(), k as nat),
                exhausted ==> drawable(self.state.players@[p as int]) == 0,
            decreases n - k, (if exhausted { 0int } else { 1int }),
        {
            let ghost before = self.state;
            let got = draw_one(&mut self.state, p);
            proof {
                lemma_drawn_step(x0, before.players@[p as int], self.state.players@[p as int], s0.rng.state(),
                    before.rng.state(), self.state.rng.state(), k as nat);
            }
            if got.is_none() {
                exhausted = true;
            } else {
                proof {
                    let h = before.players@[p as int].hand@;
                    let h2 = self.state.players@[p as int].hand@;
                    assert(h2.take(x0.hand@.len() as int) =~= h.take(x0.hand@.len() as int));
                    assert forall|q: int| 0 <= q < s0.players@.len() && q != p implies self.state.players@[q]
                        == s0.players@[q] by {
                        assert(self.state.players@[q] == before.players@[q]);
                    }
                }
                k = k + 1;
            }
        }
        proof {
            if k < n {
                lemma_drawn_stuck(x0, self.state.players@[p as int], s0.rng.state(), self.state.rng.state(), k as nat,
                    n as nat);
            }
        }
    }

    /// Gain the frame's card from the supply, if any is left, to the
    /// destination the frame's counter codes.
    fn gain(&mut self, f: Frame)
        requires
            wf(old(self).state),
            frame_ok(f, old(self).state.players@.len()),
        ensures
            wf(final(self).state),
            conserved(old(self).state, final(self).state),
            same_table(old(self).state, final(self).state),
            gain_post(f, old(self).state, final(self).state),
    {
        let ghost s0 = self.state;
        let p = f.player as usize;
        let card = f.scratch.get(0);
        let i = card.idx();
        if self.state.supply[i] == 0 {
            return;
        }
        self.state.supply[i] = self.state.supply[i] - 1;
        let ghost s1 = self.state;
        proof {
            assert forall|c: Card| #[trigger] census(s1, c) == census(s0, c) - if c == card { 1int } else { 0int } by {
                crate::card::lemma_idx_injective(c, card);
            }
        }
        let zone = match f.n {
            1 => Zone::Hand,
            2 => Zone::Deck,
            _ => Zone::Discard,
        };
        put(&mut self.state, p, zone, card);
    }

    /// Run an attack against the next victim in turn order, then come back
    /// for the one after.
    fn attack_each(&mut self, f: Frame)
        requires
            wf(old(self).state),
            frame_ok(f, old(self).state.players@.len()),
            f.kind == FrameKind::AttackEach,
        ensures
            wf(final(self).state),
            conserved(old(self).state, final(self).state),
            same_table(old(self).state, final(self).state),
            attack_each_post(f, old(self).state, final(self).state),
    {
        let attack = f.scratch.get(0);
        let n = self.state.players.len();
        if (f.n as usize) >= n - 1 {
            return;
        }
        let victim = (self.state.current as usize + 1 + f.n as usize) % n;
        let next = Frame { n: f.n + 1, ..f };
        push_plain(&mut self.state, next);
        push_plain(
            &mut self.state,
            Frame::new(FrameKind::AttackOne, victim).with_scratch(CardBuf::single(attack)),
        );
    }

    /// Queue the effect of `card` for `player`.
    pub(crate) fn push_resolve(&mut self, card: Card, player: usize)
        requires
            wf(old(self).state),
            player < old(self).state.players@.len(),
        ensures
            wf(final(self).state),
            conserved(old(self).state, final(self).state),
            same_table(old(self).state, final(self).state),
            same_but_stack(old(self).state, final(self).state),
            pushed(old(self).state.stack@, final(self).state.stack@, FrameKind::Resolve, player as int, 0, seq![card]),
    {
        push_plain(
            &mut self.state,
            Frame::new(FrameKind::Resolve, player).with_scratch(CardBuf::single(card)),
        );
    }

    /// Queue gaining `card` for `player` to `dest`.
    pub(crate) fn push_gain(&mut self, card: Card, player: usize, dest: Dest)
        requires
            wf(old(self).state),
            player < old(self).state.players@.len(),
        ensures
            wf(final(self).state),
            conserved(old(self).state, final(self).state),
            same_table(old(self).state, final(self).state),
            same_but_stack(old(self).state, final(self).state),
            pushed(old(self).state.stack@, final(self).state.stack@, FrameKind::Gain, player as int, dest_code(dest), seq![card]),
    {
        let n: u8 = match dest {
            Dest::Discard => 0,
            Dest::Hand => 1,
            Dest::DeckTop => 2,
        };
        push_plain(
            &mut self.state,
            Frame::new(FrameKind::Gain, player).with_n(n).with_scratch(CardBuf::single(card)),
        );
    }

    /// Queue drawing `n` cards for `player`.
    pub(crate) fn push_draw(&mut self, n: u8, player: usize)
        requires
            wf(old(self).state),
            player < old(self).state.players@.len(),
        ensures
            wf(final(self).state),
            conserved(old(self).state, final(self).state),
            same_table(old(self).state, final(self).state),
            same_but_stack(old(self).state, final(self).state),
            pushed(old(self).state.stack@, final(self).state.stack@, FrameKind::Draw, player as int, n as int, Seq::empty()),
    {
        push_plain(&mut self.state, Frame::new(FrameKind::Draw, player).with_n(n));
    }

    /// Queue the attack `card` against every other player.
    pub(crate) fn push_attack(&mut self, card: Card, attacker: usize)
        requires
            wf(old(self).state),
            attacker < old(self).state.players@.len(),
        ensures
            wf(final(self).state),
            conserved(old(self).state, final(self).state),
            same_table(old(self).state, final(self).state),
            same_but_stack(old(self).state, final(self).state),
            pushed(old(self).state.stack@, final(self).state.stack@, FrameKind::AttackEach, attacker as int, 0, seq![card]),
    {
        push_plain(
            &mut self.state,
            Frame::new(FrameKind::AttackEach, attacker).with_scratch(CardBuf::single(card)),
        );
    }
}

/// The cards a frame holds after its first scratch slot, in order.
pub fn held_cards(f: &Frame) -> (r: Vec<Card>)
    ensures
        r@ == held(*f),
{
    let all = f.scratch.iter();
    let mut r: Vec<Card> = Vec::new();
    let mut i: usize = 1;
    while i < all.len()
        invariant
            1 <= i,
            all@ == f.scratch@,
            i <= all@.len() || all@.len() == 0,
            all@.len() > 0 ==> r@ == all@.subrange(1, i as int),
            all@.len() == 0 ==> r@ == Seq::<Card>::empty(),
        decreases all@.len() - i,
    {
        r.push(all[i]);
        i = i + 1;
        assert(r@ =~= all@.subrange(1, i as int));
    }
    if all.len() > 0 {
        assert(all@.subrange(1, all@.len() as int) =~= all@.drop_first());
    } else {
        assert(r@ =~= Seq::<Card>::empty());
    }
    r
}

/// Put each card of `cards`, which are in transit, into zone `to` of player `p`.
pub fn deposit(s: &mut GameState, p: usize, cards: &Vec<Card>, to: Zone)
    requires
        wf(*old(s)),
        p < old(s).players@.len(),
    ensures
        wf(*final(s)),
        same_but_players(*old(s), *final(s)),
        final(s).rng == old(s).rng,
        only_player(*old(s), *final(s), p as int),
        zone_of(final(s).players@[p as int], to) == zone_of(old(s).players@[p as int], to) + cards@,
        same_except(final(s).players@[p as int], old(s).players@[p as int], to, to),
        forall|x: Card| #[trigger] census(*final(s), x) == census(*old(s), x) + cnt(cards@, x),
        to != Zone::Deck ==> final(s).players@[p as int].known_top == old(s).players@[p as int].known_top,
        to == Zone::Deck ==> final(s).players@[p as int].known_top as int == bumped_by(
            old(s).players@[p as int].known_top,
            cards@.len() as int,
        ),
{
    let ghost s0 = *s;
    let mut i: usize = 0;
    proof {
        assert(cards@.take(0) =~= Seq::<Card>::empty());
        assert forall|x: Card| #[trigger] census(*s, x) == census(s0, x) + cnt(cards@.take(0), x) by {
            lemma_cnt_empty(x);
        }
    }
    while i < cards.len()
        invariant
            wf(*s),
            p < s.players@.len(),
            i <= cards@.len(),
            same_but_players(s0, *s),
            s.rng == s0.rng,
            only_player(s0, *s, p as int),
            zone_of(s.players@[p as int], to) == zone_of(s0.players@[p as int], to) + cards@.take(i as int),
            same_except(s.players@[p as int], s0.players@[p as int], to, to),
            forall|x: Card| #[trigger] census(*s, x) == census(s0, x) + cnt(cards@.take(i as int), x),
            to != Zone::Deck ==> s.players@[p as int].known_top == s0.players@[p as int].known_top,
            to == Zone::Deck ==> s.players@[p as int].known_top as int == bumped_by(s0.players@[p as int].known_top, i as int),
        decreases cards@.len() - i,
    {
        let ghost s1 = *s;
        put(s, p, to, cards[i]);
        proof {
            assert(cards@.take((i + 1) as int) =~= cards@.take(i as int).push(cards@[i as int]));
            assert forall|x: Card| #[trigger] census(*s, x) == census(s0, x) + cnt(cards@.take(i + 1), x) by {
                lemma_cnt_push(cards@.take(i as int), cards@[i as int], x);
            }
            assert(zone_of(s.players@[p as int], to) =~= zone_of(s0.players@[p as int], to) + cards@.take(i + 1));
            assert forall|q: int| 0 <= q < s0.players@.len() && q != p implies s.players@[q] == s0.players@[q] by {
                assert(s.players@[q] == s1.players@[q]);
            }
        }
        i = i + 1;
    }
    assert(cards@.take(cards@.len() as int) =~= cards@);
}

/// Add to player `p`'s turn counters, wrapping at 256 as `u8` arithmetic does.
pub fn add_counters(s: &mut GameState, p: usize, actions: u8, buys: u8, coins: u8, merchants: u8)
    requires
        wf(*old(s)),
        p < old(s).players@.len(),
    ensures
        wf(*final(s)),
        conserved(*old(s), *final(s)),
        same_table(*old(s), *final(s)),
        same_but_players(*old(s), *final(s)),
        final(s).rng == old(s).rng,
        only_player(*old(s), *final(s), p as int),
        same_zones(final(s).players@[p as int], old(s).players@[p as int]),
        final(s).players@[p as int].actions as int == (old(s).players@[p as int].actions as int
            + actions as int) % 256,
        final(s).players@[p as int].buys as int == (old(s).players@[p as int].buys as int
            + buys as int) % 256,
        final(s).players@[p as int].coins as int == (old(s).players@[p as int].coins as int
            + coins as int) % 256,
        final(s).players@[p as int].merchants as int == (old(s).players@[p as int].merchants as int
            + merchants as int) % 256,
        final(s).players@[p as int].silver_played == old(s).players@[p as int].silver_played,
        final(s).players@[p as int].turns == old(s).players@[p as int].turns,
{
    let ghost s0 = *s;
    s.players[p].actions = s.players[p].actions.wrapping_add(actions);
    s.players[p].buys = s.players[p].buys.wrapping_add(buys);
    s.players[p].coins = s.players[p].coins.wrapping_add(coins);
    s.players[p].merchants = s.players[p].merchants.wrapping_add(merchants);
    proof {
        lemma_counters(s0, *s, p as int);
    }
}

/// Trash the first copy of `c` in player `p`'s hand, if there is one; returns
/// whether a card was trashed.
pub fn trash_from_hand(s: &mut GameState, p: usize, c: Card) -> (r: bool)
    requires
        wf(*old(s)),
        p < old(s).players@.len(),
    ensures
        wf(*final(s)),
        conserved(*old(s), *final(s)),
        same_table(*old(s), *final(s)),
        r == old(s).players@[p as int].hand@.contains(c),
        !r ==> *final(s) == *old(s),
        r ==> final(s).trash@ == old(s).trash@.push(c),
        final(s).stack == old(s).stack,
        final(s).current == old(s).current,
        final(s).pending == old(s).pending,
        final(s).rng == old(s).rng,
        final(s).supply == old(s).supply,
        final(s).in_supply == old(s).in_supply,
        only_player(*old(s), *final(s), p as int),
        r ==> final(s).players@[p as int].hand@.len() + 1 == old(s).players@[p as int].hand@.len(),
        same_except(final(s).players@[p as int], old(s).players@[p as int], Zone::Hand, Zone::Hand),
        final(s).players@[p as int].known_top == old(s).players@[p as int].known_top,
{
    let ghost s0 = *s;
    if !contains_card(&s.players[p].hand, c) {
        return false;
    }
    remove_one(&mut s.players[p].hand, c);
    let ghost s1 = *s;
    proof {
        let i = choose|i: int| 0 <= i < s0.players@[p as int].hand@.len()
            && s0.players@[p as int].hand@[i] == c
            && s1.players@[p as int].hand@ == s0.players@[p as int].hand@.remove(i);
        assert(s1.players@ =~= s0.players@.update(p as int, s1.players@[p as int]));
        lemma_census_player(s0, s1, p as int, s1.players@[p as int]);
        assert forall|y: Card| #[trigger] census(s1, y) == census(s0, y) - if y == c { 1int } else { 0int } by {
            lemma_cnt_removed(s0.players@[p as int].hand@, i, c, y);
        }
        assert forall|i: int| 0 <= i < s1.players@.len() implies (#[trigger] s1.players@[i]).known_top
            <= s1.players@[i].deck@.len() by {
            if i != p {
                assert(s1.players@[i] == s0.players@[i]);
            }
        }
    }
    s.trash.push(c);
    proof {
        assert forall|y: Card| #[trigger] census(*s, y) == census(s0, y) by {
            lemma_cnt_push(s1.trash@, c, y);
            assert(census(s1, y) == census(s0, y) - if y == c { 1int } else { 0int });
            assert(s.trash@ == s1.trash@.push(c));
        }
    }
    true
}

/// Whether `moves` holds `mv`.
pub fn contains_move(moves: &Vec<Move>, mv: Move) -> (r: bool)
    ensures
        r == moves@.contains(mv),
{
    let mut i: usize = 0;
    while i < moves.len()
        invariant
            i <= moves@.len(),
            forall|j: int| 0 <= j < i ==> moves@[j] != mv,
        decreases moves@.len() - i,
    {
        if moves[i] == mv {
            assert(moves@[i as int] == mv);
            return true;
        }
        i = i + 1;
    }
    false
}

} // verus!
