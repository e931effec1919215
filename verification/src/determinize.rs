//! Turning the true game state into one consistent with what a player can
//! actually see.
//!
//! Every card a player owns is public knowledge; what is hidden is only order:
//! which of the observer's own cards sit where in the deck, and which of an
//! opponent's unseen cards are in hand rather than in the deck. A
//! determinization keeps every public zone, keeps what the observer put on
//! top of their own deck, and redeals the rest.

use vstd::prelude::*;
use crate::card::{Card, NUM_CARDS};
use crate::census::{census, conserved, lemma_cnt_concat, pcnt, players_cnt, wf};
use crate::rng::{Rng, seeded_state, shuffle_result, xoshiro_out, xoshiro_step};
use crate::state::{cnt, count_in, same_pending, GameState, PlayerState};

verus! {

broadcast use vstd::seq_lib::group_to_multiset_ensures, vstd::multiset::group_multiset_axioms;

/// The smaller of two integers.
pub open spec fn min_int(a: int, b: int) -> int {
    if a <= b { a } else { b }
}

/// How many cards at the bottom of the observer's deck are redealt: all but
/// the ones they knowingly put on top.
pub open spec fn unknown_depth(pl: PlayerState) -> int {
    pl.deck@.len() - min_int(pl.known_top as int, pl.deck@.len() as int)
}

/// One player's hidden cards after redealing from generator state `s`: the
/// generator state afterwards, the new deck and the new hand. The observer's
/// deck below the known top is shuffled; an opponent's deck and hand are
/// pooled, shuffled and dealt back with the hand taken from the top.
pub open spec fn redeal(pl: PlayerState, own: bool, s: Seq<u64>) -> (Seq<u64>, Seq<Card>, Seq<Card>) {
    if own {
        let split = unknown_depth(pl);
        let sh = shuffle_result(s, pl.deck@.take(split));
        (sh.0, sh.1 + pl.deck@.skip(split), pl.hand@)
    } else {
        let sh = shuffle_result(s, pl.deck@ + pl.hand@);
        let cut = pl.deck@.len() as int;
        (sh.0, sh.1.take(cut), sh.1.skip(cut))
    }
}

/// The generator state once the first `k` players have been redealt.
pub open spec fn rng_after(ps: Seq<PlayerState>, observer: int, s: Seq<u64>, k: nat) -> Seq<u64>
    decreases k,
{
    if k == 0 {
        s
    } else {
        redeal(ps[k - 1], k - 1 == observer, rng_after(ps, observer, s, (k - 1) as nat)).0
    }
}

/// `r` is player `pl` redealt from generator state `s`: new deck and hand,
/// every other zone and counter kept, and the known top forgotten unless it
/// is the observer's own.
pub open spec fn redealt(r: PlayerState, pl: PlayerState, own: bool, s: Seq<u64>) -> bool {
    let d = redeal(pl, own, s);
    &&& r.deck@ == d.1
    &&& r.hand@ == d.2
    &&& r.discard@ == pl.discard@
    &&& r.play@ == pl.play@
    &&& r.set_aside@ == pl.set_aside@
    &&& r.actions == pl.actions
    &&& r.buys == pl.buys
    &&& r.coins == pl.coins
    &&& r.merchants == pl.merchants
    &&& r.silver_played == pl.silver_played
    &&& r.turns == pl.turns
    &&& r.known_top == if own { pl.known_top } else { 0 }
}

/// `r` is `s` determinized for `observer`, starting from generator state
/// `g`: each player redealt in turn, every other field kept, and a fresh
/// generator seeded from the next draw.
pub open spec fn determinized(r: GameState, s: GameState, observer: int, g: Seq<u64>) -> bool {
    &&& r.players@.len() == s.players@.len()
    &&& forall|p: int|
        0 <= p < s.players@.len() ==> redealt(
            #[trigger] r.players@[p],
            s.players@[p],
            p == observer,
            rng_after(s.players@, observer, g, p as nat),
        )
    &&& r.supply == s.supply
    &&& r.in_supply == s.in_supply
    &&& r.trash@ == s.trash@
    &&& r.current == s.current
    &&& r.stack@ == s.stack@
    &&& same_pending(r.pending, s.pending)
    &&& r.answer == s.answer
    &&& r.over == s.over
    &&& r.turn_limit == s.turn_limit
    &&& r.rng.state() == seeded_state(
        xoshiro_out(rng_after(s.players@, observer, g, s.players@.len())),
    )
}

/// Two sequences hold the same cards, in any order.
pub open spec fn same_cards(a: Seq<Card>, b: Seq<Card>) -> bool {
    a.to_multiset() == b.to_multiset()
}

/// What anyone can see of a player agrees: the same cards in play and in the
/// discard pile, and the same cards over deck and hand together.
pub open spec fn player_consistent(a: PlayerState, b: PlayerState) -> bool {
    &&& same_cards(a.play@, b.play@)
    &&& same_cards(a.discard@, b.discard@)
    &&& same_cards(a.deck@ + a.hand@, b.deck@ + b.hand@)
}

/// The public part of two states agrees: supply, whose turn it is, the trash,
/// and every pair of players (as far as both lists reach).
pub open spec fn publicly_consistent(a: GameState, b: GameState) -> bool {
    &&& a.supply@ == b.supply@
    &&& a.current == b.current
    &&& same_cards(a.trash@, b.trash@)
    &&& forall|i: int|
        0 <= i < a.players@.len() && i < b.players@.len() ==> player_consistent(
            #[trigger] a.players@[i],
            b.players@[i],
        )
}

/// `candidate` could be the true state behind what `observer` sees of
/// `reference`: the public part agrees and the observer's hand holds the same
/// cards.
pub open spec fn consistent_view(candidate: GameState, reference: GameState, observer: int) -> bool {
    &&& publicly_consistent(candidate, reference)
    &&& same_cards(candidate.players@[observer].hand@, reference.players@[observer].hand@)
}

/// Player totals agree when every player's count agrees.
proof fn lemma_players_cnt_pointwise(a: Seq<PlayerState>, b: Seq<PlayerState>, c: Card)
    requires
        a.len() == b.len(),
        forall|i: int| 0 <= i < a.len() ==> pcnt(#[trigger] a[i], c) == pcnt(b[i], c),
    ensures
        players_cnt(a, c) == players_cnt(b, c),
    decreases a.len(),
{
    if a.len() > 0 {
        lemma_players_cnt_pointwise(a.drop_last(), b.drop_last(), c);
        assert(pcnt(a[a.len() - 1], c) == pcnt(b[b.len() - 1], c));
    }
}

/// Redealing player `pl` from generator state `g`; returns the new player.
fn redeal_player(pl: &PlayerState, own: bool, rng: &mut Rng) -> (r: PlayerState)
    ensures
        redealt(r, *pl, own, old(rng).state()),
        final(rng).state() == redeal(*pl, own, old(rng).state()).0,
        (r.deck@ + r.hand@).to_multiset() == (pl.deck@ + pl.hand@).to_multiset(),
        r.deck@.len() == pl.deck@.len(),
        own ==> r.hand@ == pl.hand@,
{
    let ghost g = rng.state();
    let mut deck = pl.deck.clone();
    let mut hand = pl.hand.clone();
    assert(deck@ =~= pl.deck@);
    assert(hand@ =~= pl.hand@);
    let known_top: u8;
    if own {
        let keep = if (pl.known_top as usize) < deck.len() {
            pl.known_top as usize
        } else {
            deck.len()
        };
        let split = deck.len() - keep;
        assert(split == unknown_depth(*pl));
        let mut top = deck.split_off(split);
        rng.shuffle(&mut deck);
        let ghost bottom = deck@;
        deck.append(&mut top);
        known_top = pl.known_top;
        proof {
            let sh = shuffle_result(g, pl.deck@.take(split as int));
            assert(pl.deck@.subrange(0, split as int) =~= pl.deck@.take(split as int));
            assert(pl.deck@.subrange(split as int, pl.deck@.len() as int) =~= pl.deck@.skip(
                split as int,
            ));
            assert(bottom == sh.1);
            assert(bottom.to_multiset() == pl.deck@.take(split as int).to_multiset());
            assert(deck@.to_multiset() == pl.deck@.to_multiset()) by {
                assert(pl.deck@ =~= pl.deck@.take(split as int) + pl.deck@.skip(split as int));
                vstd::seq_lib::lemma_multiset_commutative(bottom, pl.deck@.skip(split as int));
                vstd::seq_lib::lemma_multiset_commutative(
                    pl.deck@.take(split as int),
                    pl.deck@.skip(split as int),
                );
            }
            vstd::seq_lib::lemma_multiset_commutative(deck@, hand@);
            vstd::seq_lib::lemma_multiset_commutative(pl.deck@, pl.hand@);
        }
    } else {
        let hand_size = hand.len();
        let mut pool = deck;
        pool.append(&mut hand);
        let ghost joined = pool@;
        assert(joined =~= pl.deck@ + pl.hand@);
        rng.shuffle(&mut pool);
        let ghost shuffled = pool@;
        let cut = pool.len() - hand_size;
        let new_hand = pool.split_off(cut);
        deck = pool;
        hand = new_hand;
        known_top = 0;
        proof {
            assert(cut == pl.deck@.len());
            assert(shuffled.subrange(0, cut as int) =~= shuffled.take(cut as int));
            assert(shuffled.subrange(cut as int, shuffled.len() as int) =~= shuffled.skip(
                cut as int,
            ));
            assert(deck@ + hand@ =~= shuffled);
        }
    }
    PlayerState {
        deck,
        hand,
        discard: pl.discard.clone(),
        play: pl.play.clone(),
        set_aside: pl.set_aside.clone(),
        actions: pl.actions,
        buys: pl.buys,
        coins: pl.coins,
        merchants: pl.merchants,
        silver_played: pl.silver_played,
        turns: pl.turns,
        known_top,
    }
}

/// A state consistent with everything `observer` knows, with the hidden
/// information resampled. The observer's deck is reshuffled below the cards
/// they put on top knowingly; each opponent's hand and deck are pooled and
/// redealt; everything else is kept. The copy gets a fresh generator seeded
/// from the next draw of `rng`, so that two determinizations of one position
/// diverge.
pub fn determinize(state: &GameState, observer: usize, rng: &mut Rng) -> (r: GameState)
    ensures
        determinized(r, *state, observer as int, old(rng).state()),
        final(rng).state() == xoshiro_step(
            rng_after(state.players@, observer as int, old(rng).state(), state.players@.len()),
        ),
        forall|c: Card| #[trigger] census(r, c) == census(*state, c),
        wf(*state) ==> wf(r),
        observer < state.players@.len() ==> consistent_view(r, *state, observer as int),
{
    let ghost g = rng.state();
    let ghost ps = state.players@;
    let mut players: Vec<PlayerState> = Vec::new();
    let mut p: usize = 0;
    while p < state.players.len()
        invariant
            p <= ps.len(),
            ps == state.players@,
            players@.len() == p,
            rng.state() == rng_after(ps, observer as int, g, p as nat),
            forall|q: int|
                0 <= q < p ==> redealt(
                    #[trigger] players@[q],
                    ps[q],
                    q == observer,
                    rng_after(ps, observer as int, g, q as nat),
                ),
            forall|q: int|
                0 <= q < p ==> (#[trigger] players@[q].deck@ + players@[q].hand@).to_multiset() == (
                ps[q].deck@ + ps[q].hand@).to_multiset(),
            forall|q: int| 0 <= q < p ==> (#[trigger] players@[q]).deck@.len() == ps[q].deck@.len(),
            forall|q: int| 0 <= q < p && q == observer ==> (#[trigger] players@[q]).hand@ == ps[q].hand@,
        decreases ps.len() - p,
    {
        let np = redeal_player(&state.players[p], p == observer, rng);
        players.push(np);
        p = p + 1;
    }
    let seed = rng.next_u64();
    let pending = match &state.pending {
        Some(d) => Some(d.clone()),
        None => None,
    };
    let trash = state.trash.clone();
    let stack = state.stack.clone();
    assert(trash@ =~= state.trash@);
    assert(stack@ =~= state.stack@);
    let r = GameState {
        players,
        supply: state.supply,
        in_supply: state.in_supply,
        trash,
        current: state.current,
        stack,
        pending,
        answer: state.answer,
        rng: Rng::new(seed),
        over: state.over,
        turn_limit: state.turn_limit,
    };
    proof {
        assert forall|c: Card| #[trigger] census(r, c) == census(*state, c) by {
            assert forall|i: int| 0 <= i < ps.len() implies pcnt(#[trigger] r.players@[i], c) == pcnt(ps[i], c) by {
                let a = r.players@[i];
                let b = ps[i];
                lemma_cnt_concat(a.deck@, a.hand@, c);
                lemma_cnt_concat(b.deck@, b.hand@, c);
                assert(cnt(a.deck@ + a.hand@, c) == cnt(b.deck@ + b.hand@, c));
            }
            lemma_players_cnt_pointwise(r.players@, ps, c);
        }
        assert forall|i: int| 0 <= i < ps.len() implies player_consistent(#[trigger] r.players@[i], ps[i]) by {
        }
        if observer < ps.len() {
            assert(r.players@[observer as int].hand@ == ps[observer as int].hand@);
        }
        assert(r.supply@ == state.supply@);
        if wf(*state) {
            assert forall|i: int| 0 <= i < r.players@.len() implies (#[trigger] r.players@[i]).known_top
                <= r.players@[i].deck@.len() by {
                assert(redealt(r.players@[i], ps[i], i == observer, rng_after(ps, observer as int, g, i as nat)));
            }
            assert forall|i: int| 0 <= i < r.stack@.len() implies crate::census::frame_ok(#[trigger] r.stack@[i], r.players@.len()) by {
                assert(r.stack@[i] == state.stack@[i]);
            }
        }
    }
    r
}

/// Whether `a` and `b` hold the same cards over `a1 + a2` and `b1 + b2`.
fn same_card_counts(a1: &Vec<Card>, a2: &Vec<Card>, b1: &Vec<Card>, b2: &Vec<Card>) -> (r: bool)
    ensures
        r == same_cards(a1@ + a2@, b1@ + b2@),
{
    let mut i: usize = 0;
    while i < NUM_CARDS
        invariant
            i <= NUM_CARDS,
            forall|j: usize|
                j < i ==> cnt(a1@ + a2@, #[trigger] Card::spec_from_idx(j)) == cnt(
                    b1@ + b2@,
                    Card::spec_from_idx(j),
                ),
        decreases NUM_CARDS - i,
    {
        let c = Card::from_idx(i);
        let na = count_in(a1, c) as u128 + count_in(a2, c) as u128;
        let nb = count_in(b1, c) as u128 + count_in(b2, c) as u128;
        proof {
            lemma_cnt_concat(a1@, a2@, c);
            lemma_cnt_concat(b1@, b2@, c);
        }
        if na != nb {
            return false;
        }
        i = i + 1;
    }
    proof {
        assert((a1@ + a2@).to_multiset() =~= (b1@ + b2@).to_multiset()) by {
            assert forall|c: Card| (a1@ + a2@).to_multiset().count(c) == (b1@
                + b2@).to_multiset().count(c) by {
                crate::card::lemma_idx_roundtrip(c, 0);
                assert(cnt(a1@ + a2@, Card::spec_from_idx(c.spec_idx())) == cnt(
                    b1@ + b2@,
                    Card::spec_from_idx(c.spec_idx()),
                ));
            }
        }
    }
    true
}

/// Whether two card lists hold the same cards, in any order.
fn same_card_lists(a: &Vec<Card>, b: &Vec<Card>) -> (r: bool)
    ensures
        r == same_cards(a@, b@),
{
    let none: Vec<Card> = Vec::new();
    assert(a@ + none@ =~= a@);
    assert(b@ + none@ =~= b@);
    same_card_counts(a, &none, b, &none)
}

/// Whether `candidate` could be the true state behind `observer`'s view of
/// `reference`: the same supply, turn and trash, the same public zones for
/// every player, the same cards over each player's deck and hand, and the
/// observer's own hand untouched.
pub fn is_consistent_with(candidate: &GameState, reference: &GameState, observer: usize) -> (r: bool)
    requires
        publicly_consistent(*candidate, *reference) ==> observer < candidate.players@.len()
            && observer < reference.players@.len(),
    ensures
        r == consistent_view(*candidate, *reference, observer as int),
{
    let mut k: usize = 0;
    while k < NUM_CARDS
        invariant
            k <= NUM_CARDS,
            forall|j: int| 0 <= j < k ==> candidate.supply@[j] == reference.supply@[j],
        decreases NUM_CARDS - k,
    {
        if candidate.supply[k] != reference.supply[k] {
            return false;
        }
        k = k + 1;
    }
    assert(candidate.supply@ =~= reference.supply@);
    if candidate.current != reference.current {
        return false;
    }
    if !same_card_lists(&candidate.trash, &reference.trash) {
        return false;
    }
    let n = if candidate.players.len() < reference.players.len() {
        candidate.players.len()
    } else {
        reference.players.len()
    };
    let mut i: usize = 0;
    while i < n
        invariant
            i <= n,
            n <= candidate.players@.len(),
            n <= reference.players@.len(),
            n == candidate.players@.len() || n == reference.players@.len(),
            forall|j: int| 0 <= j < i ==> player_consistent(#[trigger] candidate.players@[j], reference.players@[j]),
        decreases n - i,
    {
        let a = &candidate.players[i];
        let b = &reference.players[i];
        if !same_card_lists(&a.play, &b.play) || !same_card_lists(&a.discard, &b.discard)
            || !same_card_counts(&a.deck, &a.hand, &b.deck, &b.hand) {
            return false;
        }
        i = i + 1;
    }
    same_card_lists(&candidate.players[observer].hand, &reference.players[observer].hand)
}

/// A redealt observer keeps their hand and the top of their deck.
proof fn lemma_own_redeal_keeps(rp: PlayerState, pl: PlayerState, st: Seq<u64>)
    requires
        redealt(rp, pl, true, st),
    ensures
        rp.hand@ == pl.hand@,
        rp.deck@.len() == pl.deck@.len(),
        rp.known_top == pl.known_top,
        rp.deck@.skip(unknown_depth(pl)) == pl.deck@.skip(unknown_depth(pl)),
{
    let split = unknown_depth(pl);
    let sh = shuffle_result(st, pl.deck@.take(split));
    vstd::std_specs::vec::axiom_spec_len(&pl.deck);
    crate::rng::lemma_shuffle_result_len(st, pl.deck@.take(split));
    assert(rp.deck@ == sh.1 + pl.deck@.skip(split));
    assert((sh.1 + pl.deck@.skip(split)).skip(split) =~= pl.deck@.skip(split));
}

/// What the observer knows survives a determinization: their hand is
/// untouched, and the cards they put on top of their deck knowingly stay
/// there, in order, over a deck of the same size.
pub proof fn lemma_observer_knowledge_kept(r: GameState, s: GameState, observer: int, g: Seq<u64>)
    requires
        determinized(r, s, observer, g),
        0 <= observer < s.players@.len(),
    ensures
        r.players@[observer].hand@ == s.players@[observer].hand@,
        r.players@[observer].deck@.len() == s.players@[observer].deck@.len(),
        r.players@[observer].known_top == s.players@[observer].known_top,
        r.players@[observer].deck@.skip(unknown_depth(s.players@[observer])) == s.players@[observer].deck@.skip(
            unknown_depth(s.players@[observer]),
        ),
{
    let st = rng_after(s.players@, observer, g, observer as nat);
    assert(redealt(r.players@[observer], s.players@[observer], observer == observer, st));
    lemma_own_redeal_keeps(r.players@[observer], s.players@[observer], st);
}

} // verus!
