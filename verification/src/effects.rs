//! Card effects and attacks, each a resumable routine over its frame.

use vstd::prelude::*;
use crate::card::Card;
use crate::census::{census, conserved, frame_ok, held, wf, lemma_held_short, lemma_conserved_trans, same_table};
use crate::engine::{
    add_counters, ask, deposit, dest_code, distinct, draw_one, held_cards, keep_type, lemma_distinct,
    move_card, plays_of, push_plain, put, reveal_one, selects_of, trash_from_hand, Game, Zone,
    distinct_cards, decided, zone_of, drawable, fresh_frame, min_of, next_draw, of_type, only_player,
    play_moves, played_from_hand, pushed, same_but_stack, same_zones, select_moves,
};
use crate::state::{
    buyable_cards, cnt, empty_pile_count, lemma_cnt_push, pile_open, CardBuf, Ctx,
    Dest, Frame, FrameKind, GameState, Move, PlayerState,
};

verus! {

/// Requirements shared by the card routines other than Sentry's: a runnable
/// resolve frame that holds no cards.
pub open spec fn plain_resolve(g: Game, f: Frame) -> bool {
    &&& wf(g.state)
    &&& frame_ok(f, g.state.players@.len())
    &&& f.kind == FrameKind::Resolve
    &&& f.scratch@.len() <= 1
}

/// `b` is `a` with a decision for `player` about `ctx` with `options`
/// parked, and `frame` pushed to resume it; the players, supply and trash are
/// untouched.
pub open spec fn parked(a: GameState, b: GameState, frame: Frame, player: int, ctx: Ctx, options: Seq<Move>) -> bool {
    &&& b.stack@ == a.stack@.push(frame)
    &&& decided(b, player, ctx, options)
    &&& b.players == a.players
    &&& b.supply == a.supply
    &&& b.trash == a.trash
    &&& b.current == a.current
    &&& b.rng == a.rng
}

/// A copy of `c` moved from zone `from` onto the deck is known to its owner:
/// the known-top count grows by one (up to 255) when the zone held one.
pub open spec fn topdecked(x: PlayerState, y: PlayerState, c: Card, from: Zone) -> bool {
    &&& zone_of(x, from).contains(c) ==> y.known_top as int == crate::engine::bumped_known(x.known_top)
    &&& !zone_of(x, from).contains(c) ==> y.known_top == x.known_top
}

/// `y` is `x` with a copy of `c`, if zone `from` holds one, moved from `from`
/// to the end of zone `to`; the player's other zones are as they were.
pub open spec fn moved_card(x: PlayerState, y: PlayerState, c: Card, from: Zone, to: Zone) -> bool {
    &&& zone_of(x, from).contains(c) ==> zone_of(y, to) == zone_of(x, to).push(c)
        && zone_of(y, from).len() + 1 == zone_of(x, from).len()
    &&& !zone_of(x, from).contains(c) ==> zone_of(y, to) == zone_of(x, to) && zone_of(y, from) == zone_of(x, from)
    &&& (from != Zone::Deck && to != Zone::Deck) ==> y.deck@ == x.deck@
    &&& (from != Zone::Hand && to != Zone::Hand) ==> y.hand@ == x.hand@
    &&& (from != Zone::Discard && to != Zone::Discard) ==> y.discard@ == x.discard@
    &&& (from != Zone::Play && to != Zone::Play) ==> y.play@ == x.play@
    &&& (from != Zone::SetAside && to != Zone::SetAside) ==> y.set_aside@ == x.set_aside@
}

/// The cards that can be gained for at most `budget` coins depend only on the supply.
pub proof fn lemma_buyable_same(a: GameState, b: GameState, budget: u8)
    requires
        a.supply == b.supply,
        a.in_supply == b.in_supply,
    ensures
        buyable_cards(a, budget) == buyable_cards(b, budget),
{
    assert((|c: Card| pile_open(a, c) && c.spec_cost() <= budget) =~= (|c: Card| pile_open(b, c)
        && c.spec_cost() <= budget));
}

/// The cards Bandit lets its victim trash among the revealed ones: each kind
/// of Treasure other than Copper.
pub open spec fn bandit_targets(shown: Seq<Card>) -> Seq<Card> {
    of_type(distinct_cards(shown), 1).filter(|c: Card| c != Card::Copper)
}

/// Council Room: +1 Buy and four cards first, then one card for each other player.
/// `f0` and `f1` are the frame before and after, `a` and `b` the state.
pub open spec fn council_room_post(f0: Frame, f1: Frame, ans: Option<Move>, a: GameState, b: GameState) -> bool {
    &&& f0.step == 0 ==> {
        &&& only_player(a, b, f0.player as int)
        &&& same_zones(b.players@[f0.player as int], a.players@[f0.player as int])
        &&& b.players@[f0.player as int].buys as int == (a.players@[f0.player as int].buys as int + 1) % 256
        &&& b.players@[f0.player as int].actions == a.players@[f0.player as int].actions
        &&& b.players@[f0.player as int].coins == a.players@[f0.player as int].coins
        &&& b.players@[f0.player as int].merchants == a.players@[f0.player as int].merchants
        &&& b.supply == a.supply
        &&& b.trash == a.trash
        &&& f1 == (Frame { step: 1, ..f0 })
        &&& b.stack@ == a.stack@.push(f1).push(b.stack@.last())
        &&& fresh_frame(b.stack@.last(), FrameKind::Draw, f0.player as int, 4, Seq::empty())
        &&& b.pending == a.pending
    }
    &&& f0.step != 0 ==> {
        &&& same_but_stack(a, b)
        &&& b.stack@.len() == a.stack@.len() + a.players@.len() - 1
        &&& b.stack@.take(a.stack@.len() as int) == a.stack@
        &&& forall|j: int| 0 <= j < a.players@.len() - 1 ==> fresh_frame(
            #[trigger] b.stack@[a.stack@.len() + j],
            FrameKind::Draw,
            if j < f0.player { j } else { j + 1 },
            1,
            Seq::empty(),
        )
    }
}

/// Cellar: +1 Action; each chosen card goes from hand to the discard pile, and when the player stops (or the hand is empty) they draw as many cards as they discarded.
/// `f0` and `f1` are the frame before and after, `a` and `b` the state.
pub open spec fn cellar_post(f0: Frame, f1: Frame, ans: Option<Move>, a: GameState, b: GameState) -> bool {
    &&& only_player(a, b, f0.player as int)
    &&& b.players@[f0.player as int].actions as int == if f0.step == 0 {
        (a.players@[f0.player as int].actions as int + 1) % 256
    } else {
        a.players@[f0.player as int].actions as int
    }
    &&& f1.step == if f0.step == 0 { 1 } else { f0.step }
    &&& f1.player == f0.player
    &&& ans matches Some(Move::Select(c)) ==> {
        &&& f1.n as int == (f0.n as int + 1) % 256
        &&& moved_card(a.players@[f0.player as int], b.players@[f0.player as int], c, Zone::Hand, Zone::Discard)
    }
    &&& !(ans matches Some(Move::Select(_))) ==> {
        &&& f1.n == f0.n
        &&& same_zones(b.players@[f0.player as int], a.players@[f0.player as int])
    }
    &&& ans == Some(Move::Done) || b.players@[f0.player as int].hand@.len() == 0 ==> {
        &&& pushed(a.stack@, b.stack@, FrameKind::Draw, f0.player as int, f1.n as int, Seq::empty())
        &&& b.pending == a.pending
    }
    &&& ans != Some(Move::Done) && b.players@[f0.player as int].hand@.len() > 0 ==> {
        &&& b.stack@ == a.stack@.push(f1)
        &&& decided(b, f0.player as int, Ctx::CellarDiscard,
            select_moves(distinct_cards(b.players@[f0.player as int].hand@)).push(Move::Done))
    }
}

/// Chapel: each chosen card is trashed from hand, up to four; the player is asked again while they may go on.
/// `f0` and `f1` are the frame before and after, `a` and `b` the state.
pub open spec fn chapel_post(f0: Frame, f1: Frame, ans: Option<Move>, a: GameState, b: GameState) -> bool {
    &&& only_player(a, b, f0.player as int)
    &&& f1.step == f0.step
    &&& f1.player == f0.player
    &&& ans == Some(Move::Done) ==> b == a
    &&& ans matches Some(Move::Select(c)) ==> {
        &&& f1.n as int == (f0.n as int + 1) % 256
        &&& a.players@[f0.player as int].hand@.contains(c) ==> b.trash@ == a.trash@.push(c)
            && b.players@[f0.player as int].hand@.len() + 1 == a.players@[f0.player as int].hand@.len()
        &&& !a.players@[f0.player as int].hand@.contains(c) ==> b.trash == a.trash
            && b.players@[f0.player as int] == a.players@[f0.player as int]
    }
    &&& !(ans matches Some(Move::Select(_))) ==> {
        &&& f1.n == f0.n
        &&& b.players@[f0.player as int] == a.players@[f0.player as int]
        &&& b.trash == a.trash
    }
    &&& ans != Some(Move::Done) && (f1.n >= 4 || b.players@[f0.player as int].hand@.len() == 0) ==> {
        &&& b.stack == a.stack
        &&& b.pending == a.pending
    }
    &&& ans != Some(Move::Done) && f1.n < 4 && b.players@[f0.player as int].hand@.len() > 0 ==> {
        &&& b.stack@ == a.stack@.push(f1)
        &&& decided(b, f0.player as int, Ctx::ChapelTrash,
            select_moves(distinct_cards(b.players@[f0.player as int].hand@)).push(Move::Done))
    }
}

/// Harbinger: +1 Card +1 Action first; then a card chosen from the discard pile goes on top of the deck.
/// `f0` and `f1` are the frame before and after, `a` and `b` the state.
pub open spec fn harbinger_post(f0: Frame, f1: Frame, ans: Option<Move>, a: GameState, b: GameState) -> bool {
    &&& f0.step == 0 ==> {
        &&& only_player(a, b, f0.player as int)
        &&& same_zones(b.players@[f0.player as int], a.players@[f0.player as int])
        &&& b.players@[f0.player as int].actions as int == (a.players@[f0.player as int].actions as int + 1) % 256
        &&& b.players@[f0.player as int].buys == a.players@[f0.player as int].buys
        &&& b.players@[f0.player as int].coins == a.players@[f0.player as int].coins
        &&& b.players@[f0.player as int].merchants == a.players@[f0.player as int].merchants
        &&& b.supply == a.supply
        &&& b.trash == a.trash
        &&& f1 == (Frame { step: 1, ..f0 })
        &&& b.stack@ == a.stack@.push(f1).push(b.stack@.last())
        &&& fresh_frame(b.stack@.last(), FrameKind::Draw, f0.player as int, 1, Seq::empty())
        &&& b.pending == a.pending
    }
    &&& f0.step != 0 ==> f1 == f0
    &&& f0.step != 0 ==> (ans matches Some(Move::Select(c)) ==> {
        &&& only_player(a, b, f0.player as int)
        &&& moved_card(a.players@[f0.player as int], b.players@[f0.player as int], c, Zone::Discard, Zone::Deck)
        &&& topdecked(a.players@[f0.player as int], b.players@[f0.player as int], c, Zone::Discard)
        &&& b.stack == a.stack
        &&& b.pending == a.pending
    })
    &&& f0.step != 0 && ans == Some(Move::Done) ==> b == a
    &&& f0.step != 0 && !(ans matches Some(Move::Select(_))) && ans != Some(Move::Done) ==> {
        &&& a.players@[f0.player as int].discard@.len() == 0 ==> b == a
        &&& a.players@[f0.player as int].discard@.len() > 0 ==> parked(a, b, f0,
            f0.player as int, Ctx::HarbingerTopdeck,
            select_moves(distinct_cards(a.players@[f0.player as int].discard@)).push(Move::Done))
    }
}

/// Vassal: +$2 and the top card of the deck is discarded; an Action discarded so may be played.
/// `f0` and `f1` are the frame before and after, `a` and `b` the state.
pub open spec fn vassal_post(f0: Frame, f1: Frame, ans: Option<Move>, a: GameState, b: GameState) -> bool {
    &&& f0.step == 0 ==> {
        &&& only_player(a, b, f0.player as int)
        &&& b.players@[f0.player as int].coins as int == (a.players@[f0.player as int].coins as int + 2) % 256
        &&& b.players@[f0.player as int].hand@ == a.players@[f0.player as int].hand@
        &&& b.players@[f0.player as int].play@ == a.players@[f0.player as int].play@
        &&& drawable(a.players@[f0.player as int]) == 0 ==> {
            &&& same_zones(b.players@[f0.player as int], a.players@[f0.player as int])
            &&& b.stack == a.stack
            &&& b.pending == a.pending
        }
        &&& drawable(a.players@[f0.player as int]) > 0 ==> {
            let d = next_draw(a.players@[f0.player as int], a.rng.state());
            &&& b.players@[f0.player as int].deck@ == d.1
            &&& b.players@[f0.player as int].discard@ == d.2.push(d.0)
            &&& b.rng.state() == d.3
            &&& d.0.spec_is_action() ==> {
                &&& f1.step == 1
                &&& b.stack@ == a.stack@.push(f1)
                &&& decided(b, f0.player as int, Ctx::VassalPlay, seq![Move::Play(d.0), Move::Done])
            }
            &&& !d.0.spec_is_action() ==> b.stack == a.stack
                && b.pending == a.pending
        }
    }
    &&& f0.step != 0 ==> (ans matches Some(Move::Play(c)) ==> {
        &&& only_player(a, b, f0.player as int)
        &&& moved_card(a.players@[f0.player as int], b.players@[f0.player as int], c, Zone::Discard, Zone::Play)
        &&& pushed(a.stack@, b.stack@, FrameKind::Resolve, f0.player as int, 0, seq![c])
        &&& b.pending == a.pending
    })
    &&& f0.step != 0 && !(ans matches Some(Move::Play(_))) ==> b == a
}

/// Workshop: the player picks a card costing up to $4, which is then gained to the discard pile.
/// `f0` and `f1` are the frame before and after, `a` and `b` the state.
pub open spec fn workshop_post(f0: Frame, f1: Frame, ans: Option<Move>, a: GameState, b: GameState) -> bool {
    &&& f0.step == 0 && buyable_cards(a, 4).len() == 0 ==> b == a
    &&& f0.step == 0 && buyable_cards(a, 4).len() > 0 ==> {
        &&& f1 == (Frame { step: 1, ..f0 })
        &&& parked(a, b, f1, f0.player as int, Ctx::WorkshopGain,
            select_moves(buyable_cards(a, 4)))
    }
    &&& f0.step != 0 ==> (ans matches Some(Move::Select(c)) ==> {
        &&& same_but_stack(a, b)
        &&& pushed(a.stack@, b.stack@, FrameKind::Gain, f0.player as int, 0, seq![c])
    })
    &&& f0.step != 0 && !(ans matches Some(Move::Select(_))) ==> b == a
}

/// Moneylender: a Copper may be trashed from hand for +$3.
/// `f0` and `f1` are the frame before and after, `a` and `b` the state.
pub open spec fn moneylender_post(f0: Frame, f1: Frame, ans: Option<Move>, a: GameState, b: GameState) -> bool {
    &&& f0.step == 0 && !a.players@[f0.player as int].hand@.contains(Card::Copper) ==> b == a
    &&& f0.step == 0 && a.players@[f0.player as int].hand@.contains(Card::Copper) ==> {
        &&& f1 == (Frame { step: 1, ..f0 })
        &&& parked(a, b, f1, f0.player as int, Ctx::MoneylenderTrash,
            seq![Move::Select(Card::Copper), Move::Done])
    }
    &&& f0.step != 0 && ans == Some(Move::Select(Card::Copper)) ==> {
        &&& only_player(a, b, f0.player as int)
        &&& a.players@[f0.player as int].hand@.contains(Card::Copper) ==> b.trash@
            == a.trash@.push(Card::Copper) && b.players@[f0.player as int].hand@.len() + 1
            == a.players@[f0.player as int].hand@.len()
        &&& b.players@[f0.player as int].coins as int == (a.players@[f0.player as int].coins as int + 3) % 256
        &&& b.stack == a.stack
        &&& b.pending == a.pending
    }
    &&& f0.step != 0 && ans != Some(Move::Select(Card::Copper)) ==> b == a
}

/// Poacher: +1 Card +1 Action +$1 first; then one card is discarded from hand per empty supply pile.
/// `f0` and `f1` are the frame before and after, `a` and `b` the state.
pub open spec fn poacher_post(f0: Frame, f1: Frame, ans: Option<Move>, a: GameState, b: GameState) -> bool {
    &&& f0.step == 0 ==> {
        &&& only_player(a, b, f0.player as int)
        &&& same_zones(b.players@[f0.player as int], a.players@[f0.player as int])
        &&& b.players@[f0.player as int].actions as int == (a.players@[f0.player as int].actions as int + 1) % 256
        &&& b.players@[f0.player as int].coins as int == (a.players@[f0.player as int].coins as int + 1) % 256
        &&& b.players@[f0.player as int].buys == a.players@[f0.player as int].buys
        &&& b.players@[f0.player as int].merchants == a.players@[f0.player as int].merchants
        &&& b.supply == a.supply
        &&& b.trash == a.trash
        &&& f1 == (Frame { step: 1, ..f0 })
        &&& b.stack@ == a.stack@.push(f1).push(b.stack@.last())
        &&& fresh_frame(b.stack@.last(), FrameKind::Draw, f0.player as int, 1, Seq::empty())
        &&& b.pending == a.pending
    }
    &&& f0.step != 0 ==> {
        let n1 = if f0.step == 1 { empty_pile_count(a) as int } else { f0.n as int };
        &&& only_player(a, b, f0.player as int)
        &&& f1.step == if f0.step == 1 { 2 } else { f0.step }
        &&& ans matches Some(Move::Select(c)) ==> f1.n as int == (n1 + 255) % 256
            && moved_card(a.players@[f0.player as int], b.players@[f0.player as int], c, Zone::Hand, Zone::Discard)
        &&& !(ans matches Some(Move::Select(_))) ==> f1.n as int == n1 && b.players@[f0.player as int] == a.players@[f0.player as int]
        &&& f1.n == 0 || b.players@[f0.player as int].hand@.len() == 0 ==> b.stack == a.stack && b.pending == a.pending
        &&& f1.n != 0 && b.players@[f0.player as int].hand@.len() > 0 ==> b.stack@ == a.stack@.push(f1)
            && decided(b, f0.player as int, Ctx::PoacherDiscard, select_moves(distinct_cards(b.players@[f0.player as int].hand@)))
    }
}

/// Remodel: a card is trashed from hand, then one costing up to $2 more is gained to the discard pile.
/// `f0` and `f1` are the frame before and after, `a` and `b` the state.
pub open spec fn remodel_post(f0: Frame, f1: Frame, ans: Option<Move>, a: GameState, b: GameState) -> bool {
    &&& f0.step == 0 && a.players@[f0.player as int].hand@.len() == 0 ==> b == a
    &&& f0.step == 0 && a.players@[f0.player as int].hand@.len() > 0 ==> {
        &&& f1 == (Frame { step: 1, ..f0 })
        &&& parked(a, b, f1, f0.player as int, Ctx::RemodelTrash, select_moves(distinct_cards(a.players@[f0.player as int].hand@)))
    }
    &&& f0.step == 1 ==> (ans matches Some(Move::Select(c)) ==> {
        let g = buyable_cards(a, (c.spec_cost() + 2) as u8);
        &&& only_player(a, b, f0.player as int)
        &&& a.players@[f0.player as int].hand@.contains(c) ==> b.trash@ == a.trash@.push(c) && b.players@[f0.player as int].hand@.len() + 1 == a.players@[f0.player as int].hand@.len()
        &&& !a.players@[f0.player as int].hand@.contains(c) ==> b.trash == a.trash && b.players@[f0.player as int] == a.players@[f0.player as int]
        &&& g.len() == 0 ==> b.stack == a.stack && b.pending == a.pending
        &&& g.len() > 0 ==> f1 == (Frame { step: 2, ..f0 }) && b.stack@ == a.stack@.push(f1)
            && decided(b, f0.player as int, Ctx::RemodelGain, select_moves(g))
    })
    &&& f0.step == 1 && !(ans matches Some(Move::Select(_))) ==> b == a
    &&& f0.step >= 2 ==> (ans matches Some(Move::Select(c)) ==> {
        &&& same_but_stack(a, b)
        &&& pushed(a.stack@, b.stack@, FrameKind::Gain, f0.player as int, 0, seq![c])
    })
    &&& f0.step >= 2 && !(ans matches Some(Move::Select(_))) ==> b == a
}

/// Mine: a Treasure may be trashed from hand, then a Treasure costing up to $3 more is gained to the hand.
/// `f0` and `f1` are the frame before and after, `a` and `b` the state.
pub open spec fn mine_post(f0: Frame, f1: Frame, ans: Option<Move>, a: GameState, b: GameState) -> bool {
    &&& f0.step == 0 && of_type(distinct_cards(a.players@[f0.player as int].hand@), 1).len() == 0 ==> b == a
    &&& f0.step == 0 && of_type(distinct_cards(a.players@[f0.player as int].hand@), 1).len() > 0 ==> {
        &&& f1 == (Frame { step: 1, ..f0 })
        &&& parked(a, b, f1, f0.player as int, Ctx::MineTrash, select_moves(of_type(distinct_cards(a.players@[f0.player as int].hand@), 1)).push(Move::Done))
    }
    &&& f0.step == 1 ==> (ans matches Some(Move::Select(c)) ==> {
        let g = of_type(buyable_cards(a, (c.spec_cost() + 3) as u8), 1);
        &&& only_player(a, b, f0.player as int)
        &&& a.players@[f0.player as int].hand@.contains(c) ==> b.trash@ == a.trash@.push(c) && b.players@[f0.player as int].hand@.len() + 1 == a.players@[f0.player as int].hand@.len()
        &&& !a.players@[f0.player as int].hand@.contains(c) ==> b.trash == a.trash && b.players@[f0.player as int] == a.players@[f0.player as int]
        &&& g.len() == 0 ==> b.stack == a.stack && b.pending == a.pending
        &&& g.len() > 0 ==> f1 == (Frame { step: 2, ..f0 }) && b.stack@ == a.stack@.push(f1)
            && decided(b, f0.player as int, Ctx::MineGain, select_moves(g))
    })
    &&& f0.step == 1 && !(ans matches Some(Move::Select(_))) ==> b == a
    &&& f0.step >= 2 ==> (ans matches Some(Move::Select(c)) ==> {
        &&& same_but_stack(a, b)
        &&& pushed(a.stack@, b.stack@, FrameKind::Gain, f0.player as int, 1, seq![c])
    })
    &&& f0.step >= 2 && !(ans matches Some(Move::Select(_))) ==> b == a
}

/// Throne Room: an Action chosen from hand is played and its effect queued twice.
/// `f0` and `f1` are the frame before and after, `a` and `b` the state.
pub open spec fn throne_room_post(f0: Frame, f1: Frame, ans: Option<Move>, a: GameState, b: GameState) -> bool {
    &&& f0.step == 0 && of_type(distinct_cards(a.players@[f0.player as int].hand@), 0).len() == 0 ==> b == a
    &&& f0.step == 0 && of_type(distinct_cards(a.players@[f0.player as int].hand@), 0).len() > 0 ==> {
        &&& f1 == (Frame { step: 1, ..f0 })
        &&& parked(a, b, f1, f0.player as int, Ctx::ThroneRoomPlay, play_moves(of_type(distinct_cards(a.players@[f0.player as int].hand@), 0)).push(Move::Done))
    }
    &&& f0.step != 0 ==> (ans matches Some(Move::Play(c)) ==> {
        &&& only_player(a, b, f0.player as int)
        &&& moved_card(a.players@[f0.player as int], b.players@[f0.player as int], c, Zone::Hand, Zone::Play)
        &&& b.players@[f0.player as int].actions == a.players@[f0.player as int].actions
        &&& b.stack@.len() == a.stack@.len() + 2
        &&& b.stack@.take(a.stack@.len() as int) == a.stack@
        &&& fresh_frame(b.stack@[a.stack@.len() as int], FrameKind::Resolve, f0.player as int, 0, seq![c])
        &&& fresh_frame(b.stack@.last(), FrameKind::Resolve, f0.player as int, 0, seq![c])
        &&& b.pending == a.pending
    })
    &&& f0.step != 0 && !(ans matches Some(Move::Play(_))) ==> b == a
}

/// Library: cards are drawn until the hand holds seven; each Action drawn may be set aside, and the set-aside cards are discarded at the end.
/// `f0` and `f1` are the frame before and after, `a` and `b` the state.
pub open spec fn library_post(f0: Frame, f1: Frame, ans: Option<Move>, a: GameState, b: GameState) -> bool {
    &&& only_player(a, b, f0.player as int)
    &&& f1.step == if f0.step == 0 { 1 } else { f0.step }
    &&& b.players@[f0.player as int].play@ == a.players@[f0.player as int].play@
    &&& b.players@[f0.player as int].actions == a.players@[f0.player as int].actions
    &&& b.players@[f0.player as int].buys == a.players@[f0.player as int].buys
    &&& b.players@[f0.player as int].coins == a.players@[f0.player as int].coins
    &&& ({
        ||| {
            &&& b.stack == a.stack
            &&& b.pending == a.pending
            &&& b.players@[f0.player as int].set_aside@.len() == 0
            &&& b.players@[f0.player as int].hand@.len() >= 7 || b.players@[f0.player as int].deck@.len() == 0
        }
        ||| {
            &&& b.stack@ == a.stack@.push(f1)
            &&& b.players@[f0.player as int].hand@.len() > 0
            &&& b.players@[f0.player as int].hand@.last().spec_is_action()
            &&& decided(b, f0.player as int, Ctx::LibrarySetAside, seq![Move::Select(b.players@[f0.player as int].hand@.last()), Move::Done])
        }
    })
}

/// Artisan: a card costing up to $5 is gained to the hand, then a card from hand goes on top of the deck.
/// `f0` and `f1` are the frame before and after, `a` and `b` the state.
pub open spec fn artisan_post(f0: Frame, f1: Frame, ans: Option<Move>, a: GameState, b: GameState) -> bool {
    &&& f0.step == 0 && buyable_cards(a, 5).len() == 0 ==> {
        &&& f1 == (Frame { step: 2, ..f0 })
        &&& same_but_stack(a, b)
        &&& b.stack@ == a.stack@.push(f1)
    }
    &&& f0.step == 0 && buyable_cards(a, 5).len() > 0 ==> {
        &&& f1 == (Frame { step: 1, ..f0 })
        &&& parked(a, b, f1, f0.player as int, Ctx::ArtisanGain, select_moves(buyable_cards(a, 5)))
    }
    &&& f0.step == 1 ==> (ans matches Some(Move::Select(c)) ==> {
        &&& f1 == (Frame { step: 2, ..f0 })
        &&& same_but_stack(a, b)
        &&& b.stack@ == a.stack@.push(f1).push(b.stack@.last())
        &&& fresh_frame(b.stack@.last(), FrameKind::Gain, f0.player as int, 1, seq![c])
    })
    &&& f0.step == 1 && !(ans matches Some(Move::Select(_))) ==> b == a
    &&& f0.step == 2 && a.players@[f0.player as int].hand@.len() == 0 ==> b == a
    &&& f0.step == 2 && a.players@[f0.player as int].hand@.len() > 0 ==> {
        &&& f1 == (Frame { step: 3, ..f0 })
        &&& parked(a, b, f1, f0.player as int, Ctx::ArtisanTopdeck, select_moves(distinct_cards(a.players@[f0.player as int].hand@)))
    }
    &&& f0.step > 2 ==> (ans matches Some(Move::Select(c)) ==> {
        &&& only_player(a, b, f0.player as int)
        &&& moved_card(a.players@[f0.player as int], b.players@[f0.player as int], c, Zone::Hand, Zone::Deck)
        &&& topdecked(a.players@[f0.player as int], b.players@[f0.player as int], c, Zone::Hand)
        &&& b.stack == a.stack
        &&& b.pending == a.pending
    })
    &&& f0.step > 2 && !(ans matches Some(Move::Select(_))) ==> b == a
}

/// Bandit's reveal: the victim's top two cards (fewer if they run out) are
/// taken; without a non-Copper Treasure among them they go to the discard
/// pile, otherwise the victim is asked which of those Treasures to trash.
pub open spec fn bandit_reveal_post(f: Frame, a: GameState, b: GameState) -> bool {
    &&& only_player(a, b, f.player as int)
    &&& crate::engine::same_but_piles(b.players@[f.player as int], a.players@[f.player as int])
    &&& exists|shown: Seq<Card>| #![trigger bandit_targets(shown)] {
        &&& shown.len() == min_of(2, drawable(a.players@[f.player as int]) as int)
        &&& bandit_targets(shown).len() == 0 ==> {
            let d = b.players@[f.player as int].discard@;
            &&& b.stack == a.stack
            &&& b.pending == a.pending
            &&& d.len() >= shown.len()
            &&& d.subrange(d.len() - shown.len(), d.len() as int) == shown
            &&& drawable(b.players@[f.player as int]) == drawable(a.players@[f.player as int])
        }
        &&& bandit_targets(shown).len() > 0 ==> {
            let top = b.stack@.last();
            &&& b.stack@ == a.stack@.push(top)
            &&& top.kind == f.kind && top.player == f.player && top.n == f.n && top.step == 3
            &&& top.scratch@ == seq![Card::Bandit] + shown
            &&& decided(b, f.player as int, Ctx::BanditTrash, select_moves(bandit_targets(shown)))
            &&& drawable(b.players@[f.player as int]) + shown.len() == drawable(
                a.players@[f.player as int])
        }
    }
}

/// Bandit, after the victim chose: the chosen Treasure, if it is among the
/// held cards, is trashed, and the rest of the held cards go to the victim's
/// discard pile.
pub open spec fn bandit_finish_post(f: Frame, ans: Option<Move>, a: GameState, b: GameState) -> bool {
    let v = f.player as int;
    let h = held(f);
    &&& only_player(a, b, v)
    &&& b.stack == a.stack
    &&& b.pending == a.pending
    &&& crate::engine::same_except(b.players@[v], a.players@[v], Zone::Discard, Zone::Discard)
    &&& ans matches Some(Move::Select(c)) ==> (h.contains(c) ==> {
        &&& b.trash@ == a.trash@.push(c)
        &&& exists|i: int| #![trigger h.remove(i)] 0 <= i < h.len() && h[i] == c
            && b.players@[v].discard@ == a.players@[v].discard@ + h.remove(i)
    })
    &&& !chose_held(ans, h) ==> {
        &&& b.trash == a.trash
        &&& b.players@[v].discard@ == a.players@[v].discard@ + h
    }
}

/// The answer selects one of the cards `h`.
pub open spec fn chose_held(ans: Option<Move>, h: Seq<Card>) -> bool {
    match ans {
        Some(Move::Select(c)) => h.contains(c),
        _ => false,
    }
}

/// Militia against its victim: a chosen card is discarded from hand, and while
/// the hand holds more than three cards the victim is asked again.
pub open spec fn militia_post(f: Frame, ans: Option<Move>, a: GameState, b: GameState) -> bool {
    let v = f.player as int;
    &&& only_player(a, b, v)
    &&& f.step == 2 ==> (ans matches Some(Move::Select(c)) ==> moved_card(a.players@[v], b.players@[v], c, Zone::Hand, Zone::Discard))
    &&& !(f.step == 2 && ans matches Some(Move::Select(_))) ==> b.players@[v] == a.players@[v]
    &&& b.players@[v].hand@.len() <= 3 ==> b.stack == a.stack && b.pending == a.pending
    &&& b.players@[v].hand@.len() > 3 ==> b.stack@ == a.stack@.push((Frame { step: 2, ..f }))
        && decided(b, v, Ctx::MilitiaDiscard, select_moves(distinct_cards(b.players@[v].hand@)))
}

/// Bureaucrat against its victim: a victim holding Victory cards is asked
/// which one to put on top of the deck; the chosen one goes there.
pub open spec fn bureaucrat_post(f: Frame, ans: Option<Move>, a: GameState, b: GameState) -> bool {
    let v = f.player as int;
    let vics = of_type(distinct_cards(a.players@[v].hand@), 2);
    &&& f.step == 2 && vics.len() == 0 ==> b == a
    &&& f.step == 2 && vics.len() > 0 ==> parked(a, b, (Frame { step: 3, ..f }), v, Ctx::BureaucratReveal, select_moves(vics))
    &&& f.step != 2 ==> (ans matches Some(Move::Select(c)) ==> {
        &&& only_player(a, b, v)
        &&& moved_card(a.players@[v], b.players@[v], c, Zone::Hand, Zone::Deck)
        &&& topdecked(a.players@[v], b.players@[v], c, Zone::Hand)
        &&& b.stack == a.stack
        &&& b.pending == a.pending
    })
    &&& f.step != 2 && !(ans matches Some(Move::Select(_))) ==> b == a
}

/// An attack frame against its victim: a victim with Moat in hand is first
/// asked whether to reveal it, and revealing it blocks the attack; otherwise
/// Witch queues a Curse for the victim, and Militia, Bureaucrat and Bandit run
/// their own routines. Other cards do nothing.
pub open spec fn attack_post(f: Frame, ans: Option<Move>, a: GameState, b: GameState) -> bool {
    let v = f.player as int;
    let atk = f.scratch.slot(0);
    let fe = Frame { step: if f.step <= 1 { 2u8 } else { f.step }, ..f };
    if f.step == 0 && a.players@[v].hand@.contains(Card::Moat) {
        parked(a, b, (Frame { step: 1, ..f }), v, Ctx::MoatReveal, seq![Move::Select(Card::Moat), Move::Done])
    } else if f.step == 1 && ans == Some(Move::Select(Card::Moat)) {
        b == a
    } else if atk == Card::Witch {
        same_but_stack(a, b) && pushed(a.stack@, b.stack@, FrameKind::Gain, v, 0, seq![Card::Curse])
    } else if atk == Card::Militia {
        militia_post(fe, ans, a, b)
    } else if atk == Card::Bureaucrat {
        bureaucrat_post(fe, ans, a, b)
    } else if atk == Card::Bandit {
        if fe.step == 2 {
            bandit_reveal_post(fe, a, b)
        } else {
            bandit_finish_post(fe, ans, a, b)
        }
    } else {
        b == a
    }
}

/// A card is among the held cards exactly when the scratch holds it after
/// its first slot.
proof fn lemma_held_contains(f: Frame, c: Card)
    ensures
        held(f).contains(c) <==> exists|i: int| 1 <= i < f.scratch@.len() && f.scratch@[i] == c,
{
    if held(f).contains(c) {
        let j = choose|j: int| 0 <= j < held(f).len() && held(f)[j] == c;
        assert(f.scratch@[j + 1] == c);
    }
    if exists|i: int| 1 <= i < f.scratch@.len() && f.scratch@[i] == c {
        let i = choose|i: int| 1 <= i < f.scratch@.len() && f.scratch@[i] == c;
        assert(held(f)[i - 1] == c);
    }
}

/// Sentry asks about the cards it still holds: with none left nothing
/// happens, otherwise the player is asked about `ctx` on the frame at `step`.
pub open spec fn sentry_ask_post(f: Frame, step: u8, ctx: Ctx, a: GameState, b: GameState) -> bool {
    &&& held(f).len() == 0 ==> b == a
    &&& held(f).len() > 0 ==> parked(a, b, (Frame { step: step, ..f }), f.player as int, ctx,
        select_moves(distinct_cards(held(f))).push(Move::Done))
}

/// Sentry puts the cards it still holds back on the deck: the chosen one on
/// top, and the player is asked which one only when there is a real choice.
pub open spec fn sentry_order_post(f: Frame, ans: Option<Move>, a: GameState, b: GameState) -> bool {
    let p = f.player as int;
    let h = held(f);
    let x = a.players@[p];
    let y = b.players@[p];
    &&& only_player(a, b, p)
    &&& crate::engine::same_except(y, x, Zone::Deck, Zone::Deck)
    &&& ans matches Some(Move::Select(top)) ==> {
        &&& y.known_top as int == crate::engine::bumped_by(x.known_top, h.len() as int)
        &&& b.stack == a.stack
        &&& b.pending == a.pending
        &&& h.contains(top) ==> exists|i: int| #![trigger h.remove(i)] 0 <= i < h.len() && h[i] == top
            && y.deck@ == x.deck@ + h.remove(i) + seq![top]
        &&& !h.contains(top) ==> y.deck@ == x.deck@ + h
    }
    &&& !(ans matches Some(Move::Select(_))) ==> {
        &&& h.len() == 0 ==> b == a
        &&& h.len() == 1 ==> y.deck@ == x.deck@.push(h[0]) && b.stack == a.stack && b.pending == a.pending
            && y.known_top as int == crate::engine::bumped_known(x.known_top)
        &&& h.len() > 1 && distinct_cards(h).len() == 1 ==> y.deck@ == x.deck@ + h && b.stack == a.stack
            && b.pending == a.pending && y.known_top as int == crate::engine::bumped_by(x.known_top, h.len() as int)
        &&& h.len() > 1 && distinct_cards(h).len() > 1 ==> parked(a, b, (Frame { step: 4, ..f }), p,
            Ctx::SentryOrder, select_moves(distinct_cards(h)))
    }
}

/// Sentry: +1 Card +1 Action first; then the top two cards of the deck are
/// looked at, each may be trashed, then each remaining one discarded, and the
/// rest go back on the deck in the order the player picks.
pub open spec fn sentry_post(f: Frame, ans: Option<Move>, a: GameState, b: GameState) -> bool {
    let p = f.player as int;
    let h = held(f);
    let x = a.players@[p];
    let y = b.players@[p];
    &&& f.step == 0 ==> {
        &&& only_player(a, b, p)
        &&& same_zones(y, x)
        &&& y.actions as int == (x.actions as int + 1) % 256
        &&& y.buys == x.buys && y.coins == x.coins
        &&& b.stack@ == a.stack@.push((Frame { step: 1, ..f })).push(b.stack@.last())
        &&& fresh_frame(b.stack@.last(), FrameKind::Draw, p, 1, Seq::empty())
        &&& b.pending == a.pending
    }
    &&& f.step == 1 ==> {
        &&& only_player(a, b, p)
        &&& exists|shown: Seq<Card>| #![trigger distinct_cards(shown)] {
            &&& shown.len() == min_of(2, drawable(x) as int)
            &&& drawable(y) + shown.len() == drawable(x)
            &&& shown.len() == 0 ==> b.stack == a.stack && b.pending == a.pending
            &&& shown.len() > 0 ==> {
                &&& b.stack@ == a.stack@.push(b.stack@.last())
                &&& b.stack@.last().kind == FrameKind::Resolve
                &&& b.stack@.last().player == f.player
                &&& b.stack@.last().step == 2
                &&& b.stack@.last().scratch@ == seq![Card::Sentry] + shown
                &&& decided(b, p, Ctx::SentryTrash, select_moves(distinct_cards(shown)).push(Move::Done))
            }
        }
    }
    &&& f.step == 2 ==> (ans matches Some(Move::Select(c)) ==> {
        &&& b.players == a.players
        &&& h.contains(c) ==> b.trash@ == a.trash@.push(c)
        &&& !h.contains(c) ==> b.trash == a.trash
    })
    &&& f.step == 2 && !(ans matches Some(Move::Select(_))) ==> sentry_ask_post((Frame { step: 3, ..f }), 3,
        Ctx::SentryDiscard, a, b)
    &&& f.step == 3 ==> (ans matches Some(Move::Select(c)) ==> {
        &&& only_player(a, b, p)
        &&& b.trash == a.trash
        &&& h.contains(c) ==> y.discard@ == x.discard@.push(c)
        &&& !h.contains(c) ==> y.discard@ == x.discard@
    })
    &&& f.step == 3 && !(ans matches Some(Move::Select(_))) ==> sentry_order_post((Frame { step: 4, ..f }), None, a, b)
    &&& f.step >= 4 ==> sentry_order_post(f, ans, a, b)
}

/// Player `p` receives the given numbers of actions, buys, coins and
/// Merchants on top of theirs (each counter wraps at 256); their zones and
/// everyone else stay, and nothing outside the players changes but the stack.
pub open spec fn bonus(a: GameState, b: GameState, p: int, actions: int, buys: int, coins: int, merchants: int) -> bool {
    let x = a.players@[p];
    let y = b.players@[p];
    &&& only_player(a, b, p)
    &&& same_zones(y, x)
    &&& y.actions as int == (x.actions + actions) % 256
    &&& y.buys as int == (x.buys + buys) % 256
    &&& y.coins as int == (x.coins + coins) % 256
    &&& y.merchants as int == (x.merchants + merchants) % 256
    &&& y.silver_played == x.silver_played
    &&& y.turns == x.turns
    &&& b.supply == a.supply
    &&& b.in_supply == a.in_supply
    &&& b.trash == a.trash
    &&& b.current == a.current
    &&& b.pending == a.pending
    &&& b.rng == a.rng
    &&& b.over == a.over
}

/// The stack `b` is `a` with two fresh frames pushed, the second on top.
pub open spec fn pushed_two(
    a: Seq<Frame>,
    b: Seq<Frame>,
    k1: FrameKind,
    p1: int,
    n1: int,
    s1: Seq<Card>,
    k2: FrameKind,
    p2: int,
    n2: int,
    s2: Seq<Card>,
) -> bool {
    &&& b.len() == a.len() + 2
    &&& b.take(a.len() as int) == a
    &&& fresh_frame(b[a.len() as int], k1, p1, n1, s1)
    &&& fresh_frame(b.last(), k2, p2, n2, s2)
}

/// Playing `card` from frame `f0` (which becomes `f1`) with the answer `ans`
/// takes state `a` to `b`: the card's effect as the rules give it. Treasures,
/// Victory cards and Curses do nothing when resolved.
pub open spec fn resolve_post(card: Card, f0: Frame, f1: Frame, ans: Option<Move>, a: GameState, b: GameState) -> bool {
    let p = f0.player as int;
    match card {
        Card::Village => bonus(a, b, p, 2, 0, 0, 0) && pushed(a.stack@, b.stack@, FrameKind::Draw, p, 1, Seq::empty()),
        Card::Smithy => bonus(a, b, p, 0, 0, 0, 0) && pushed(a.stack@, b.stack@, FrameKind::Draw, p, 3, Seq::empty()),
        Card::Moat => bonus(a, b, p, 0, 0, 0, 0) && pushed(a.stack@, b.stack@, FrameKind::Draw, p, 2, Seq::empty()),
        Card::Festival => bonus(a, b, p, 2, 1, 2, 0) && b.stack == a.stack,
        Card::Laboratory => bonus(a, b, p, 1, 0, 0, 0) && pushed(a.stack@, b.stack@, FrameKind::Draw, p, 2, Seq::empty()),
        Card::Market => bonus(a, b, p, 1, 1, 1, 0) && pushed(a.stack@, b.stack@, FrameKind::Draw, p, 1, Seq::empty()),
        Card::Merchant => bonus(a, b, p, 1, 0, 0, 1) && pushed(a.stack@, b.stack@, FrameKind::Draw, p, 1, Seq::empty()),
        Card::Witch => bonus(a, b, p, 0, 0, 0, 0) && pushed_two(a.stack@, b.stack@, FrameKind::AttackEach, p, 0,
            seq![Card::Witch], FrameKind::Draw, p, 2, Seq::empty()),
        Card::Militia => bonus(a, b, p, 0, 0, 2, 0) && pushed(a.stack@, b.stack@, FrameKind::AttackEach, p, 0, seq![Card::Militia]),
        Card::Bureaucrat => bonus(a, b, p, 0, 0, 0, 0) && pushed_two(a.stack@, b.stack@, FrameKind::AttackEach, p, 0,
            seq![Card::Bureaucrat], FrameKind::Gain, p, 2, seq![Card::Silver]),
        Card::Bandit => bonus(a, b, p, 0, 0, 0, 0) && pushed_two(a.stack@, b.stack@, FrameKind::AttackEach, p, 0,
            seq![Card::Bandit], FrameKind::Gain, p, 0, seq![Card::Gold]),
        Card::CouncilRoom => council_room_post(f0, f1, None, a, b),
        Card::Cellar => cellar_post(f0, f1, ans, a, b),
        Card::Chapel => chapel_post(f0, f1, ans, a, b),
        Card::Harbinger => harbinger_post(f0, f1, ans, a, b),
        Card::Vassal => vassal_post(f0, f1, ans, a, b),
        Card::Workshop => workshop_post(f0, f1, ans, a, b),
        Card::Moneylender => moneylender_post(f0, f1, ans, a, b),
        Card::Poacher => poacher_post(f0, f1, ans, a, b),
        Card::Remodel => remodel_post(f0, f1, ans, a, b),
        Card::Mine => mine_post(f0, f1, ans, a, b),
        Card::ThroneRoom => throne_room_post(f0, f1, ans, a, b),
        Card::Library => library_post(f0, f1, ans, a, b),
        Card::Artisan => artisan_post(f0, f1, ans, a, b),
        Card::Sentry => sentry_post(f0, ans, a, b),
        _ => b == a,
    }
}

/// Player `p`'s counters went up by `actions`, `buys`, `coins` and
/// `merchants` (each a byte that wraps), and nothing else of theirs changed.
pub open spec fn raised_by(a: GameState, b: GameState, p: int, actions: int, buys: int, coins: int, merchants: int) -> bool {
    let x = a.players@[p];
    let y = b.players@[p];
    &&& same_zones(y, x)
    &&& y.actions as int == (x.actions as int + actions) % 256
    &&& y.buys as int == (x.buys as int + buys) % 256
    &&& y.coins as int == (x.coins as int + coins) % 256
    &&& y.merchants as int == (x.merchants as int + merchants) % 256
    &&& b.supply == a.supply
    &&& b.trash == a.trash
}

/// The stack `b` is `a` with one more frame on top: a fresh `kind` frame for
/// player `p` with counter `n`.
pub open spec fn one_more_frame(a: GameState, b: GameState, kind: FrameKind, p: int, n: int) -> bool {
    &&& b.stack@.len() == a.stack@.len() + 1
    &&& b.stack@.take(a.stack@.len() as int) == a.stack@
    &&& b.stack@.last().kind == kind
    &&& b.stack@.last().player as int == p
    &&& b.stack@.last().n as int == n
    &&& b.stack@.last().step == 0
}

/// The stack `b` is `a` with an attack of `card` by player `p` and, on top of
/// it, a fresh `kind` frame for `p` with counter `n` and scratch `scratch`.
pub open spec fn attack_then(a: GameState, b: GameState, card: Card, p: int, kind: FrameKind, n: int, scratch: Seq<Card>) -> bool {
    &&& b.stack@.len() == a.stack@.len() + 2
    &&& b.stack@.take(a.stack@.len() as int) == a.stack@
    &&& b.stack@[a.stack@.len() as int].kind == FrameKind::AttackEach
    &&& b.stack@[a.stack@.len() as int].player as int == p
    &&& b.stack@[a.stack@.len() as int].scratch@ == seq![card]
    &&& b.stack@.last().kind == kind
    &&& b.stack@.last().player as int == p
    &&& b.stack@.last().n as int == n
    &&& b.stack@.last().scratch@ == scratch
}

/// The printed effects of the cards that act at once, as the card texts give
/// them: Village +1 Card +2 Actions; Smithy +3 Cards; Moat +2 Cards; Festival
/// +2 Actions +1 Buy +$2; Laboratory +2 Cards +1 Action; Market +1 Card
/// +1 Action +1 Buy +$1; Merchant +1 Card +1 Action (and its Silver bonus
/// counted); Witch +2 Cards and an attack; Militia +$2 and an attack;
/// Bureaucrat an attack and a Silver onto the deck; Bandit an attack and a
/// Gold; Council Room +4 Cards +1 Buy, then each other player draws a card.
pub proof fn lemma_card_texts(card: Card, f0: Frame, f1: Frame, ans: Option<Move>, a: GameState, b: GameState)
    requires
        resolve_post(card, f0, f1, ans, a, b),
        (f0.player as int) < a.players@.len(),
    ensures
        card == Card::Village ==> raised_by(a, b, f0.player as int, 2, 0, 0, 0) && one_more_frame(a, b, FrameKind::Draw, f0.player as int, 1),
        card == Card::Smithy ==> raised_by(a, b, f0.player as int, 0, 0, 0, 0) && one_more_frame(a, b, FrameKind::Draw, f0.player as int, 3),
        card == Card::Moat ==> raised_by(a, b, f0.player as int, 0, 0, 0, 0) && one_more_frame(a, b, FrameKind::Draw, f0.player as int, 2),
        card == Card::Festival ==> raised_by(a, b, f0.player as int, 2, 1, 2, 0) && b.stack@ == a.stack@,
        card == Card::Laboratory ==> raised_by(a, b, f0.player as int, 1, 0, 0, 0) && one_more_frame(a, b, FrameKind::Draw, f0.player as int, 2),
        card == Card::Market ==> raised_by(a, b, f0.player as int, 1, 1, 1, 0) && one_more_frame(a, b, FrameKind::Draw, f0.player as int, 1),
        card == Card::Merchant ==> raised_by(a, b, f0.player as int, 1, 0, 0, 1) && one_more_frame(a, b, FrameKind::Draw, f0.player as int, 1),
        card == Card::Witch ==> raised_by(a, b, f0.player as int, 0, 0, 0, 0)
                && attack_then(a, b, Card::Witch, f0.player as int, FrameKind::Draw, 2, Seq::empty()),
        card == Card::Militia ==> raised_by(a, b, f0.player as int, 0, 0, 2, 0) && b.stack@.len() == a.stack@.len() + 1
                && b.stack@.last().kind == FrameKind::AttackEach && b.stack@.last().scratch@ == seq![Card::Militia],
        card == Card::Bureaucrat ==> raised_by(a, b, f0.player as int, 0, 0, 0, 0)
                && attack_then(a, b, Card::Bureaucrat, f0.player as int, FrameKind::Gain, dest_code(Dest::DeckTop), seq![Card::Silver]),
        card == Card::Bandit ==> raised_by(a, b, f0.player as int, 0, 0, 0, 0)
                && attack_then(a, b, Card::Bandit, f0.player as int, FrameKind::Gain, dest_code(Dest::Discard), seq![Card::Gold]),
        card == Card::CouncilRoom && f0.step == 0 ==> raised_by(a, b, f0.player as int, 0, 1, 0, 0)
                && b.stack@.len() == a.stack@.len() + 2 && b.stack@.last().kind == FrameKind::Draw
                && b.stack@.last().player as int == f0.player as int && b.stack@.last().n == 4,
        card == Card::CouncilRoom && f0.step != 0 ==> b.players == a.players
                && b.stack@.len() == a.stack@.len() + a.players@.len() - 1
                && (forall|j: int| a.stack@.len() <= j < b.stack@.len() ==> {
                    &&& (#[trigger] b.stack@[j]).kind == FrameKind::Draw
                    &&& b.stack@[j].n == 1
                    &&& b.stack@[j].player as int != f0.player as int
                    &&& (b.stack@[j].player as int) < a.players@.len()
                })
                && forall|i: int, j: int| a.stack@.len() <= i < j < b.stack@.len()
                    ==> (#[trigger] b.stack@[i]).player != (#[trigger] b.stack@[j]).player,
{
    let p = f0.player as int;
    if b.stack@.len() == a.stack@.len() + 1 && b.stack@ == a.stack@.push(b.stack@.last()) {
        assert(b.stack@.take(a.stack@.len() as int) =~= a.stack@);
    }
    if card == Card::CouncilRoom && f0.step != 0 {
        let base = a.stack@.len() as int;
        assert forall|j: int| base <= j < b.stack@.len() implies {
            &&& (#[trigger] b.stack@[j]).kind == FrameKind::Draw
            &&& b.stack@[j].n == 1
            &&& b.stack@[j].player as int != p
            &&& (b.stack@[j].player as int) < a.players@.len()
        } by {
            let k = j - base;
            assert(b.stack@[base + k] == b.stack@[j]);
        }
        assert forall|i: int, j: int| base <= i < j < b.stack@.len()
            implies (#[trigger] b.stack@[i]).player != (#[trigger] b.stack@[j]).player by {
            let ki = i - base;
            let kj = j - base;
            assert(b.stack@[base + ki] == b.stack@[i]);
            assert(b.stack@[base + kj] == b.stack@[j]);
        }
    }
}

/// A gain offer: the options are `Select` of exactly the cards whose supply
/// pile is open and that cost at most `most` (and are Treasures, when
/// `treasure_only`).
pub open spec fn gain_offer(a: GameState, options: Seq<Move>, most: int, treasure_only: bool) -> bool {
    forall|x: Card| #[trigger] options.contains(Move::Select(x)) <==> {
        &&& a.in_supply@[x.spec_idx() as int]
        &&& a.supply@[x.spec_idx() as int] > 0
        &&& x.spec_cost() as int <= most
        &&& treasure_only ==> (x == Card::Copper || x == Card::Silver || x == Card::Gold)
    }
}

/// The `Select` options built from the gainable cards are the gain offer.
proof fn lemma_gain_offer(a: GameState, budget: u8, treasure_only: bool)
    ensures
        gain_offer(
            a,
            select_moves(if treasure_only { of_type(buyable_cards(a, budget), 1) } else { buyable_cards(a, budget) }),
            budget as int,
            treasure_only,
        ),
{
    broadcast use vstd::seq_lib::group_filter_ensures;
    let g = buyable_cards(a, budget);
    let h = if treasure_only { of_type(g, 1) } else { g };
    let pred = |c: Card| crate::state::pile_open(a, c) && c.spec_cost() <= budget;
    let tp = |c: Card| crate::engine::has_type(c, 1);
    let opts = select_moves(h);
    assert forall|x: Card| #[trigger] opts.contains(Move::Select(x)) <==> {
        &&& a.in_supply@[x.spec_idx() as int]
        &&& a.supply@[x.spec_idx() as int] > 0
        &&& x.spec_cost() as int <= budget as int
        &&& treasure_only ==> (x == Card::Copper || x == Card::Silver || x == Card::Gold)
    } by {
        crate::card::lemma_filter_all_cards(pred, x);
        if opts.contains(Move::Select(x)) {
            let i = choose|i: int| 0 <= i < opts.len() && opts[i] == Move::Select(x);
            assert(h[i] == x);
            if treasure_only {
                assert(tp(h[i]));
                g.lemma_filter_contains_rev(tp, x);
            } else {
                assert(g.contains(x));
            }
        }
        if a.in_supply@[x.spec_idx() as int] && a.supply@[x.spec_idx() as int] > 0 && x.spec_cost() as int
            <= budget as int && (treasure_only ==> (x == Card::Copper || x == Card::Silver || x == Card::Gold)) {
            assert(g.contains(x));
            let j = choose|j: int| 0 <= j < g.len() && g[j] == x;
            let i: int = if treasure_only {
                g.lemma_filter_contains(tp, j);
                choose|i: int| 0 <= i < h.len() && h[i] == x
            } else {
                j
            };
            assert(opts[i] == Move::Select(x));
        }
    }
}

/// The printed effects of the cards that involve a choice: Cellar +1
/// Action; Harbinger +1 Card +1 Action; Vassal +$2; Moneylender +$3 for the
/// trashed Copper; Poacher +1 Card +1 Action +$1; Chapel trashes at most four
/// cards; Throne Room plays the chosen Action twice; Workshop gains a card
/// costing up to $4 and Artisan one costing up to $5 (to hand); Remodel gains
/// a card costing up to $2 more than the trashed card; Mine gains a Treasure
/// costing up to $3 more than the trashed one, to hand; Library draws until
/// the hand holds seven cards; Sentry gives +1 Card +1 Action, then looks at
/// the top two cards of the deck (fewer if there are fewer).
pub proof fn lemma_choice_card_texts(card: Card, f0: Frame, f1: Frame, ans: Option<Move>, a: GameState, b: GameState)
    requires
        resolve_post(card, f0, f1, ans, a, b),
        (f0.player as int) < a.players@.len(),
    ensures
        card == Card::Cellar && f0.step == 0 ==> b.players@[f0.player as int].actions as int
            == (a.players@[f0.player as int].actions as int + 1) % 256,
        card == Card::Harbinger && f0.step == 0 ==> raised_by(a, b, f0.player as int, 1, 0, 0, 0)
            && b.stack@.last().kind == FrameKind::Draw && b.stack@.last().n == 1,
        card == Card::Vassal && f0.step == 0 ==> b.players@[f0.player as int].coins as int
            == (a.players@[f0.player as int].coins as int + 2) % 256,
        card == Card::Moneylender && f0.step != 0 && ans == Some(Move::Select(Card::Copper))
            ==> b.players@[f0.player as int].coins as int == (a.players@[f0.player as int].coins as int + 3) % 256,
        card == Card::Poacher && f0.step == 0 ==> raised_by(a, b, f0.player as int, 1, 0, 1, 0)
            && b.stack@.last().kind == FrameKind::Draw && b.stack@.last().n == 1,
        card == Card::Chapel && b.stack@.len() > a.stack@.len() ==> f1.n < 4,
        card == Card::Chapel && (ans matches Some(Move::Select(_))) && f1.n >= 4 ==> b.stack == a.stack,
        card == Card::ThroneRoom && f0.step != 0 ==> (ans matches Some(Move::Play(c)) ==> {
            &&& b.stack@.len() == a.stack@.len() + 2
            &&& b.stack@[a.stack@.len() as int].kind == FrameKind::Resolve
            &&& b.stack@.last().kind == FrameKind::Resolve
            &&& b.stack@[a.stack@.len() as int].scratch@ == seq![c]
            &&& b.stack@.last().scratch@ == seq![c]
        }),
        card == Card::Workshop && f0.step == 0 && b.pending is Some && b.pending != a.pending
            ==> gain_offer(a, b.pending->0.options@, 4, false),
        card == Card::Artisan && f0.step == 0 && b.pending is Some && b.pending != a.pending
            ==> gain_offer(a, b.pending->0.options@, 5, false),
        card == Card::Remodel && f0.step == 1 && b.pending is Some && b.pending != a.pending ==> (ans matches Some(
            Move::Select(c),
        ) ==> gain_offer(a, b.pending->0.options@, c.spec_cost() + 2, false)),
        card == Card::Mine && f0.step == 1 && b.pending is Some && b.pending != a.pending ==> (ans matches Some(
            Move::Select(c),
        ) ==> gain_offer(a, b.pending->0.options@, c.spec_cost() + 3, true)),
        card == Card::Mine && f0.step >= 2 && (ans matches Some(Move::Select(c))) ==> b.stack@.last().n == dest_code(Dest::Hand),
        card == Card::Artisan && f0.step == 1 && (ans matches Some(Move::Select(c))) ==> b.stack@.last().n == dest_code(Dest::Hand),
        card == Card::Library && b.stack == a.stack ==> b.players@[f0.player as int].hand@.len() >= 7
            || b.players@[f0.player as int].deck@.len() == 0,
        card == Card::Sentry && f0.step == 0 ==> {
            &&& b.players@[f0.player as int].actions as int == (a.players@[f0.player as int].actions as int + 1) % 256
            &&& b.players@[f0.player as int].buys == a.players@[f0.player as int].buys
            &&& b.players@[f0.player as int].coins == a.players@[f0.player as int].coins
            &&& b.stack@.last().kind == FrameKind::Draw
            &&& b.stack@.last().n == 1
        },
        card == Card::Sentry && f0.step == 1 ==> drawable(a.players@[f0.player as int]) - drawable(
            b.players@[f0.player as int],
        ) == if drawable(a.players@[f0.player as int]) >= 2 {
            2
        } else {
            drawable(a.players@[f0.player as int]) as int
        },
{
    if card == Card::Workshop && f0.step == 0 {
        lemma_gain_offer(a, 4, false);
    }
    if card == Card::Artisan && f0.step == 0 {
        lemma_gain_offer(a, 5, false);
    }
    if let Some(Move::Select(c)) = ans {
        if card == Card::Remodel && f0.step == 1 {
            lemma_gain_offer(a, (c.spec_cost() + 2) as u8, false);
        }
        if card == Card::Mine && f0.step == 1 {
            lemma_gain_offer(a, (c.spec_cost() + 3) as u8, true);
        }
    }
    if card == Card::Library && b.stack == a.stack {
        if b.stack@ == a.stack@.push(f1) {
            assert(b.stack@.len() == a.stack@.len() + 1);
        }
    }
}

/// What the attacks do to their victim `v` (the frame's player): a victim
/// holding a Moat is first asked whether to reveal it, and revealing it
/// stops the attack; otherwise Witch gives the victim a Curse, and Militia
/// has the victim discard until three cards are left in hand.
pub proof fn lemma_attack_texts(f: Frame, ans: Option<Move>, a: GameState, b: GameState)
    requires
        attack_post(f, ans, a, b),
        (f.player as int) < a.players@.len(),
        f.scratch@.len() >= 1,
    ensures
        f.step == 0 && a.players@[f.player as int].hand@.contains(Card::Moat) ==> decided(
            b,
            f.player as int,
            Ctx::MoatReveal,
            seq![Move::Select(Card::Moat), Move::Done],
        ) && b.players == a.players,
        f.step == 1 && ans == Some(Move::Select(Card::Moat)) ==> b == a,
        !(f.step == 0 && a.players@[f.player as int].hand@.contains(Card::Moat)) && !(f.step == 1 && ans == Some(
            Move::Select(Card::Moat),
        )) && f.scratch@[0] == Card::Witch ==> {
            &&& b.players == a.players
            &&& b.stack@.len() == a.stack@.len() + 1
            &&& b.stack@.last().kind == FrameKind::Gain
            &&& b.stack@.last().player == f.player
            &&& b.stack@.last().scratch@ == seq![Card::Curse]
            &&& b.stack@.last().n == dest_code(Dest::Discard)
        },
        !(f.step == 0 && a.players@[f.player as int].hand@.contains(Card::Moat)) && !(f.step == 1 && ans == Some(
            Move::Select(Card::Moat),
        )) && f.scratch@[0] == Card::Militia ==> {
            &&& b.stack == a.stack ==> b.players@[f.player as int].hand@.len() <= 3
            &&& b.stack@.len() > a.stack@.len() ==> b.players@[f.player as int].hand@.len() > 3 && b.pending is Some
                && b.pending->0.ctx == Ctx::MilitiaDiscard
        },
{
    f.scratch.lemma_slot_view(0);
    let v = f.player as int;
    if !(f.step == 0 && a.players@[v].hand@.contains(Card::Moat)) && !(f.step == 1 && ans == Some(Move::Select(Card::Moat)))
        && f.scratch@[0] == Card::Militia {
        let fe = Frame { step: if f.step <= 1 { 2u8 } else { f.step }, ..f };
        assert(militia_post(fe, ans, a, b));
        if b.stack == a.stack && b.players@[v].hand@.len() > 3 {
            assert(b.stack@.len() == a.stack@.len() + 1);
        }
    }
}

impl Game {
    /// Apply an attack to the frame's victim, after giving them the chance to
    /// reveal Moat.
    pub(crate) fn run_attack(&mut self, f: Frame, ans: Option<Move>)
        requires
            wf(old(self).state),
            frame_ok(f, old(self).state.players@.len()),
            f.kind == FrameKind::AttackOne,
        ensures
            wf(final(self).state),
            forall|c: Card| #[trigger] census(final(self).state, c) == census(old(self).state, c) + cnt(held(f), c),
            same_table(old(self).state, final(self).state),
            attack_post(f, ans, old(self).state, final(self).state),
    {
        proof {
            if f.scratch@.len() <= 1 {
                assert forall|c: Card| cnt(held(f), c) == 0 by {
                    lemma_held_short(f, c);
                }
            }
        }
        let ghost f_in = f;
        let mut f = f;
        let victim = f.player as usize;
        let attack = f.scratch.get(0);
        if f.step == 0 {
            // Moat is the only Reaction in the Base set.
            if crate::engine::contains_card(&self.state.players[victim].hand, Card::Moat) {
                f.step = 1;
                let mut opts: Vec<Move> = Vec::new();
                opts.push(Move::Select(Card::Moat));
                opts.push(Move::Done);
                assert(opts@ =~= seq![Move::Select(Card::Moat), Move::Done]);
                proof {
                    assert forall|c: Card| cnt(held(f), c) == 0 by {
                        lemma_held_short(f, c);
                    }
                }
                ask(&mut self.state, f, victim, Ctx::MoatReveal, opts);
                return;
            }
            f.step = 2;
        } else if f.step == 1 {
            if ans == Some(Move::Select(Card::Moat)) {
                // Blocked.
                proof {
                    assert forall|c: Card| cnt(held(f), c) == 0 by {
                        lemma_held_short(f, c);
                    }
                }
                return;
            }
            f.step = 2;
        }
        match attack {
            Card::Witch => {
                proof {
                    assert forall|c: Card| cnt(held(f), c) == 0 by {
                        lemma_held_short(f, c);
                    }
                }
                self.push_gain(Card::Curse, victim, Dest::Discard);
            },
            Card::Militia => {
                proof {
                    assert forall|c: Card| cnt(held(f), c) == 0 by {
                        lemma_held_short(f, c);
                    }
                }
                if f.step == 2 {
                    if let Some(Move::Select(c)) = ans {
                        move_card(&mut self.state, victim, Zone::Hand, Zone::Discard, c);
                    }
                }
                if self.state.players[victim].hand.len() <= 3 {
                    return;
                }
                let kinds = distinct(self.state.players[victim].hand.as_slice());
                proof {
                    lemma_distinct(self.state.players@[victim as int].hand@);
                }
                let opts = selects_of(&kinds);
                f.step = 2;
                let ghost s1 = self.state;
                proof { crate::engine::lemma_distinct_nodup(self.state.players@[victim as int].hand@, 0); crate::engine::lemma_moves_nodup(kinds@); }
                ask(&mut self.state, f, victim, Ctx::MilitiaDiscard, opts);
            },
            Card::Bureaucrat => {
                proof {
                    assert forall|c: Card| cnt(held(f), c) == 0 by {
                        lemma_held_short(f, c);
                    }
                }
                if f.step == 2 {
                    let kinds = distinct(self.state.players[victim].hand.as_slice());
                    let vics = keep_type(&kinds, 2);
                    if vics.len() == 0 {
                        // The victim reveals a hand with no Victory cards.
                        return;
                    }
                    f.step = 3;
                    let opts = selects_of(&vics);
                    proof { crate::engine::lemma_distinct_nodup(self.state.players@[victim as int].hand@, 2); crate::engine::lemma_moves_nodup(vics@); }
                    ask(&mut self.state, f, victim, Ctx::BureaucratReveal, opts);
                } else if let Some(Move::Select(c)) = ans {
                    move_card(&mut self.state, victim, Zone::Hand, Zone::Deck, c);
                }
            },
            Card::Bandit => {
                if f.step == 2 {
                    proof {
                        assert forall|c: Card| cnt(held(f), c) == 0 by {
                            lemma_held_short(f, c);
                        }
                    }
                    self.bandit_reveal(f);
                } else {
                    self.bandit_finish(f, ans);
                }
            },
            _ => {
                proof {
                    assert forall|c: Card| cnt(held(f), c) == 0 by {
                        lemma_held_short(f, c);
                    }
                }
            },
        }
    }

    /// Bandit: reveal the victim's top two cards; offer the non-Copper
    /// Treasures among them for trashing, or discard them all.
    fn bandit_reveal(&mut self, f: Frame)
        requires
            wf(old(self).state),
            frame_ok(f, old(self).state.players@.len()),
            f.kind == FrameKind::AttackOne,
        ensures
            wf(final(self).state),
            conserved(old(self).state, final(self).state),
            same_table(old(self).state, final(self).state),
            bandit_reveal_post(f, old(self).state, final(self).state),
    {
        let mut f = f;
        let victim = f.player as usize;
        let ghost s0 = self.state;
        let mut revealed = CardBuf::single(Card::Bandit);
        let ghost mut shown: Seq<Card> = Seq::empty();
        let mut k: usize = 0;
        proof {
            assert forall|c: Card| #[trigger] census(s0, c) == census(self.state, c) + cnt(shown, c) by {
                crate::census::lemma_cnt_empty(c);
            }
            assert(revealed@ =~= seq![Card::Bandit] + shown);
        }
        while k < 2
            invariant
                wf(self.state),
                victim < self.state.players@.len(),
                same_table(s0, self.state),
                revealed@ == seq![Card::Bandit] + shown,
                revealed.slot(0) == Card::Bandit,
                shown.len() <= k,
                k <= 2,
                forall|c: Card| #[trigger] census(s0, c) == census(self.state, c) + cnt(shown, c),
                victim == f.player,
                s0 == old(self).state,
                only_player(s0, self.state, victim as int),
                crate::engine::same_but_piles(self.state.players@[victim as int], s0.players@[victim as int]),
                self.state.stack == s0.stack,
                self.state.pending == s0.pending,
                shown.len() == min_of(k as int, drawable(s0.players@[victim as int]) as int),
                drawable(self.state.players@[victim as int]) + shown.len() == drawable(s0.players@[victim as int]),
            decreases 2 - k,
        {
            let ghost before = self.state;
            match reveal_one(&mut self.state, victim) {
                Some(c) => {
                    proof {
                        revealed.lemma_len_bound();
                        assert forall|q: int| 0 <= q < s0.players@.len() && q != victim implies self.state.players@[q]
                            == s0.players@[q] by {
                            assert(self.state.players@[q] == before.players@[q]);
                        }
                    }
                    revealed.push(c);
                    proof {
                        assert forall|x: Card| #[trigger] census(s0, x) == census(self.state, x) + cnt(shown.push(c), x) by {
                            lemma_cnt_push(shown, c, x);
                            crate::state::lemma_cnt_push(Seq::<Card>::empty(), c, x);
                            crate::census::lemma_cnt_empty(x);
                            assert(seq![c] =~= Seq::<Card>::empty().push(c));
                        }
                        shown = shown.push(c);
                        assert(revealed@ =~= seq![Card::Bandit] + shown);
                    }
                },
                None => {},
            }
            k = k + 1;
        }
        f.scratch = revealed;
        assert(held(f) =~= shown);
        let looked = held_cards(&f);
        let kinds = distinct(looked.as_slice());
        let treasures = keep_type(&kinds, 1);
        let ghost pred = |c: Card| c != Card::Copper;
        let mut candidates: Vec<Card> = Vec::new();
        let mut i: usize = 0;
        while i < treasures.len()
            invariant
                i <= treasures@.len(),
                candidates@.len() <= i,
                pred == (|c: Card| c != Card::Copper),
                candidates@ == treasures@.take(i as int).filter(pred),
            decreases treasures@.len() - i,
        {
            assert(treasures@.take((i + 1) as int).drop_last() =~= treasures@.take(i as int));
            proof {
                reveal_with_fuel(Seq::<_>::filter, 1);
            }
            if treasures[i] != Card::Copper {
                candidates.push(treasures[i]);
            }
            i = i + 1;
        }
        assert(treasures@.take(treasures@.len() as int) =~= treasures@);
        assert(candidates@ == bandit_targets(shown));
        if candidates.len() == 0 {
            let ghost mid = self.state;
            deposit(&mut self.state, victim, &looked, Zone::Discard);
            proof {
                let d = self.state.players@[victim as int].discard@;
                assert(d.subrange(d.len() - shown.len(), d.len() as int) =~= shown);
                assert(bandit_targets(shown).len() == 0);
            }
            return;
        }
        f.step = 3;
        let opts = selects_of(&candidates);
        proof { crate::engine::lemma_distinct_nodup(shown, 1); crate::engine::lemma_filter_nodup(of_type(distinct_cards(shown), 1), |c: Card| c != Card::Copper); crate::engine::lemma_moves_nodup(candidates@); }
        ask(&mut self.state, f, victim, Ctx::BanditTrash, opts);
        assert(bandit_targets(shown).len() > 0);
    }

    /// Bandit, after the victim chose: trash the chosen Treasure and discard
    /// the rest of the revealed cards.
    fn bandit_finish(&mut self, f: Frame, ans: Option<Move>)
        requires
            wf(old(self).state),
            frame_ok(f, old(self).state.players@.len()),
        ensures
            wf(final(self).state),
            forall|c: Card| #[trigger] census(final(self).state, c) == census(old(self).state, c) + cnt(held(f), c),
            same_table(old(self).state, final(self).state),
            bandit_finish_post(f, ans, old(self).state, final(self).state),
    {
        let mut f = f;
        let victim = f.player as usize;
        let ghost s0 = self.state;
        let ghost h0 = held(f);
        if let Some(Move::Select(c)) = ans {
            let ghost f0 = f;
            if f.scratch.remove_held(c) {
                self.state.trash.push(c);
                proof {
                    let i = choose|i: int| 1 <= i < f0.scratch@.len() && f0.scratch@[i] == c
                        && f.scratch@ == f0.scratch@.remove(i);
                    assert(held(f) =~= h0.remove(i - 1));
                    assert forall|x: Card| #[trigger] census(self.state, x) + cnt(held(f), x) == census(s0, x) + cnt(h0, x) by {
                        lemma_cnt_push(s0.trash@, c, x);
                        crate::census::lemma_cnt_remove(h0, i - 1, x);
                    }
                }
            }
        }
        let rest = held_cards(&f);
        let ghost s1 = self.state;
        deposit(&mut self.state, victim, &rest, Zone::Discard);
        proof {
            assert forall|x: Card| #[trigger] census(self.state, x) == census(s0, x) + cnt(h0, x) by {
                assert(census(self.state, x) == census(s1, x) + cnt(rest@, x));
            }
        }
    }

    /// Resolve the effect of `card`, the card the frame names.
    pub(crate) fn resolve(&mut self, card: Card, f: &mut Frame, ans: Option<Move>)
        requires
            wf(old(self).state),
            frame_ok(*old(f), old(self).state.players@.len()),
            old(f).kind == FrameKind::Resolve,
            card == old(f).scratch.slot(0),
        ensures
            wf(final(self).state),
            forall|c: Card| #[trigger] census(final(self).state, c) == census(old(self).state, c) + cnt(held(*old(f)), c),
            same_table(old(self).state, final(self).state),
            resolve_post(card, *old(f), *final(f), ans, old(self).state, final(self).state),
    {
        let ghost s0 = self.state;
        if card == Card::Sentry {
            let g = *f;
            self.sentry(g, ans);
            return;
        }
        proof {
            assert forall|c: Card| cnt(held(*f), c) == 0 by {
                lemma_held_short(*f, c);
            }
        }
        let p = f.player as usize;
        match card {
            Card::Village => {
                add_counters(&mut self.state, p, 2, 0, 0, 0);
                self.push_draw(1, p);
            },
            Card::Smithy => self.push_draw(3, p),
            Card::Moat => self.push_draw(2, p),
            Card::Festival => add_counters(&mut self.state, p, 2, 1, 2, 0),
            Card::Laboratory => {
                add_counters(&mut self.state, p, 1, 0, 0, 0);
                self.push_draw(2, p);
            },
            Card::Market => {
                add_counters(&mut self.state, p, 1, 1, 1, 0);
                self.push_draw(1, p);
            },
            Card::Merchant => {
                add_counters(&mut self.state, p, 1, 0, 0, 1);
                self.push_draw(1, p);
            },
            Card::Witch => {
                self.push_attack(Card::Witch, p);
                self.push_draw(2, p);
                assert(self.state.stack@.take(s0.stack@.len() as int) =~= s0.stack@);
            },
            Card::Militia => {
                add_counters(&mut self.state, p, 0, 0, 2, 0);
                self.push_attack(Card::Militia, p);
            },
            Card::Bureaucrat => {
                self.push_attack(Card::Bureaucrat, p);
                self.push_gain(Card::Silver, p, Dest::DeckTop);
                assert(self.state.stack@.take(s0.stack@.len() as int) =~= s0.stack@);
            },
            Card::Bandit => {
                self.push_attack(Card::Bandit, p);
                self.push_gain(Card::Gold, p, Dest::Discard);
                assert(self.state.stack@.take(s0.stack@.len() as int) =~= s0.stack@);
            },
            Card::CouncilRoom => self.council_room(f),
            Card::Cellar => self.cellar(f, ans),
            Card::Chapel => self.chapel(f, ans),
            Card::Harbinger => self.harbinger(f, ans),
            Card::Vassal => self.vassal(f, ans),
            Card::Workshop => self.workshop(f, ans),
            Card::Moneylender => self.moneylender(f, ans),
            Card::Poacher => self.poacher(f, ans),
            Card::Remodel => self.remodel(f, ans),
            Card::Mine => self.mine(f, ans),
            Card::ThroneRoom => self.throne_room(f, ans),
            Card::Library => self.library(f, ans),
            Card::Artisan => self.artisan(f, ans),
            // Treasures, Victory cards and Curses have no on-play effect;
            // Gardens is never played.
            _ => {},
        }
    }

    /// Council Room: +4 Cards, +1 Buy, then each other player draws a card.
    fn council_room(&mut self, f: &mut Frame)
        requires
            plain_resolve(*old(self), *old(f)),
        ensures
            wf(final(self).state),
            conserved(old(self).state, final(self).state),
            same_table(old(self).state, final(self).state),
            council_room_post(*old(f), *final(f), None, old(self).state, final(self).state),
    {
        let p = f.player as usize;
        if f.step == 0 {
            add_counters(&mut self.state, p, 0, 1, 0, 0);
            f.step = 1;
            push_plain(&mut self.state, *f);
            self.push_draw(4, p);
        } else {
            let ghost s0 = self.state;
            let ghost len0 = s0.stack@.len() as int;
            let n = self.state.players.len();
            let mut other: usize = 0;
            proof {
                assert(self.state.stack@.take(len0) =~= s0.stack@);
            }
            while other < n
                invariant
                    wf(self.state),
                    n == self.state.players@.len(),
                    conserved(s0, self.state),
                    same_table(s0, self.state),
                    same_but_stack(s0, self.state),
                    p < n,
                    other <= n,
                    len0 == s0.stack@.len(),
                    self.state.stack@.len() == len0 + if other <= p { other as int } else { other - 1 },
                    self.state.stack@.take(len0) == s0.stack@,
                    forall|j: int| 0 <= j < (if other <= p { other as int } else { other - 1 }) ==> fresh_frame(
                        #[trigger] self.state.stack@[len0 + j],
                        FrameKind::Draw,
                        if j < p { j } else { j + 1 },
                        1,
                        Seq::empty(),
                    ),
                decreases n - other,
            {
                if other != p {
                    let ghost before = self.state;
                    self.push_draw(1, other);
                    proof {
                        lemma_conserved_trans(s0, before, self.state);
                        assert(self.state.stack@.take(len0) =~= before.stack@.take(len0));
                        assert forall|j: int| 0 <= j < (if other + 1 <= p { other + 1 } else { other as int }) implies fresh_frame(
                            #[trigger] self.state.stack@[len0 + j],
                            FrameKind::Draw,
                            if j < p { j } else { j + 1 },
                            1,
                            Seq::empty(),
                        ) by {
                            if len0 + j < before.stack@.len() {
                                assert(self.state.stack@[len0 + j] == before.stack@[len0 + j]);
                            }
                        }
                    }
                }
                other = other + 1;
            }
        }
    }

    /// Cellar: +1 Action; discard any number of cards, then draw that many.
    fn cellar(&mut self, f: &mut Frame, ans: Option<Move>)
        requires
            plain_resolve(*old(self), *old(f)),
        ensures
            wf(final(self).state),
            conserved(old(self).state, final(self).state),
            same_table(old(self).state, final(self).state),
            cellar_post(*old(f), *final(f), ans, old(self).state, final(self).state),
    {
        let p = f.player as usize;
        if f.step == 0 {
            add_counters(&mut self.state, p, 1, 0, 0, 0);
            f.step = 1;
        }
        match ans {
            Some(Move::Select(c)) => {
                move_card(&mut self.state, p, Zone::Hand, Zone::Discard, c);
                f.n = f.n.wrapping_add(1);
            },
            Some(Move::Done) => {
                self.push_draw(f.n, p);
                return;
            },
            _ => {},
        }
        if self.state.players[p].hand.len() == 0 {
            self.push_draw(f.n, p);
            return;
        }
        let kinds = distinct(self.state.players[p].hand.as_slice());
        let mut opts = selects_of(&kinds);
        opts.push(Move::Done);
        proof { crate::engine::lemma_distinct_nodup(self.state.players@[p as int].hand@, 0); crate::engine::lemma_moves_nodup(kinds@); }
        self.ask_plain(*f, p, Ctx::CellarDiscard, opts);
    }

    /// Chapel: trash up to four cards from hand.
    fn chapel(&mut self, f: &mut Frame, ans: Option<Move>)
        requires
            plain_resolve(*old(self), *old(f)),
        ensures
            wf(final(self).state),
            conserved(old(self).state, final(self).state),
            same_table(old(self).state, final(self).state),
            chapel_post(*old(f), *final(f), ans, old(self).state, final(self).state),
    {
        let p = f.player as usize;
        match ans {
            Some(Move::Select(c)) => {
                trash_from_hand(&mut self.state, p, c);
                f.n = f.n.wrapping_add(1);
            },
            Some(Move::Done) => {
                return;
            },
            _ => {},
        }
        if f.n >= 4 || self.state.players[p].hand.len() == 0 {
            return;
        }
        let kinds = distinct(self.state.players[p].hand.as_slice());
        let mut opts = selects_of(&kinds);
        opts.push(Move::Done);
        proof { crate::engine::lemma_distinct_nodup(self.state.players@[p as int].hand@, 0); crate::engine::lemma_moves_nodup(kinds@); }
        self.ask_plain(*f, p, Ctx::ChapelTrash, opts);
    }

    /// Harbinger: +1 Card, +1 Action; you may put a card from your discard
    /// pile onto your deck.
    fn harbinger(&mut self, f: &mut Frame, ans: Option<Move>)
        requires
            plain_resolve(*old(self), *old(f)),
        ensures
            wf(final(self).state),
            conserved(old(self).state, final(self).state),
            same_table(old(self).state, final(self).state),
            harbinger_post(*old(f), *final(f), ans, old(self).state, final(self).state),
    {
        let p = f.player as usize;
        if f.step == 0 {
            add_counters(&mut self.state, p, 1, 0, 0, 0);
            f.step = 1;
            push_plain(&mut self.state, *f);
            self.push_draw(1, p);
            return;
        }
        if let Some(Move::Select(c)) = ans {
            move_card(&mut self.state, p, Zone::Discard, Zone::Deck, c);
            return;
        }
        if ans == Some(Move::Done) {
            return;
        }
        if self.state.players[p].discard.len() == 0 {
            return;
        }
        let kinds = distinct(self.state.players[p].discard.as_slice());
        let mut opts = selects_of(&kinds);
        opts.push(Move::Done);
        proof { crate::engine::lemma_distinct_nodup(self.state.players@[p as int].discard@, 0); crate::engine::lemma_moves_nodup(kinds@); }
        self.ask_plain(*f, p, Ctx::HarbingerTopdeck, opts);
    }

    /// Vassal: +$2; discard the top card of your deck, and if it is an Action
    /// you may play it.
    fn vassal(&mut self, f: &mut Frame, ans: Option<Move>)
        requires
            plain_resolve(*old(self), *old(f)),
        ensures
            wf(final(self).state),
            conserved(old(self).state, final(self).state),
            same_table(old(self).state, final(self).state),
            vassal_post(*old(f), *final(f), ans, old(self).state, final(self).state),
    {
        let p = f.player as usize;
        let ghost s0 = self.state;
        if f.step == 0 {
            add_counters(&mut self.state, p, 0, 0, 2, 0);
            let ghost s1 = self.state;
            proof {
                assert(next_draw(s1.players@[p as int], s1.rng.state()) == next_draw(s0.players@[p as int], s0.rng.state()));
                assert(drawable(s1.players@[p as int]) == drawable(s0.players@[p as int]));
            }
            let top = match reveal_one(&mut self.state, p) {
                Some(c) => c,
                None => {
                    return;
                },
            };
            let ghost s2 = self.state;
            put(&mut self.state, p, Zone::Discard, top);
            proof {
                assert forall|q: int| 0 <= q < s0.players@.len() && q != p implies self.state.players@[q]
                    == s0.players@[q] by {
                    assert(self.state.players@[q] == s2.players@[q]);
                    assert(s2.players@[q] == s1.players@[q]);
                }
                assert forall|x: Card| #[trigger] census(self.state, x) == census(s1, x) by {
                    assert(census(s1, x) == census(s2, x) + crate::census::ext(seq![top], x));
                    lemma_cnt_push(Seq::<Card>::empty(), top, x);
                    crate::census::lemma_cnt_empty(x);
                    assert(seq![top] =~= Seq::<Card>::empty().push(top));
                }
                lemma_conserved_trans(old(self).state, s1, self.state);
            }
            if !top.is_action() {
                return;
            }
            f.step = 1;
            let mut opts: Vec<Move> = Vec::new();
            opts.push(Move::Play(top));
            opts.push(Move::Done);
            assert(opts@ =~= seq![Move::Play(top), Move::Done]);
            self.ask_plain(*f, p, Ctx::VassalPlay, opts);
        } else if let Some(Move::Play(c)) = ans {
            move_card(&mut self.state, p, Zone::Discard, Zone::Play, c);
            self.push_resolve(c, p);
        }
    }

    /// Workshop: gain a card costing up to $4.
    fn workshop(&mut self, f: &mut Frame, ans: Option<Move>)
        requires
            plain_resolve(*old(self), *old(f)),
        ensures
            wf(final(self).state),
            conserved(old(self).state, final(self).state),
            same_table(old(self).state, final(self).state),
            workshop_post(*old(f), *final(f), ans, old(self).state, final(self).state),
    {
        let p = f.player as usize;
        if f.step == 0 {
            let gains = self.state.buyable(4);
            let opts = selects_of(&gains);
            if opts.len() == 0 {
                return;
            }
            f.step = 1;
            proof { crate::engine::lemma_buyable_nodup(self.state, 4, 1); crate::engine::lemma_moves_nodup(gains@); }
            self.ask_plain(*f, p, Ctx::WorkshopGain, opts);
        } else if let Some(Move::Select(c)) = ans {
            self.push_gain(c, p, Dest::Discard);
        }
    }

    /// Moneylender: you may trash a Copper from your hand for +$3.
    fn moneylender(&mut self, f: &mut Frame, ans: Option<Move>)
        requires
            plain_resolve(*old(self), *old(f)),
        ensures
            wf(final(self).state),
            conserved(old(self).state, final(self).state),
            same_table(old(self).state, final(self).state),
            moneylender_post(*old(f), *final(f), ans, old(self).state, final(self).state),
    {
        let p = f.player as usize;
        if f.step == 0 {
            if !crate::engine::contains_card(&self.state.players[p].hand, Card::Copper) {
                return;
            }
            f.step = 1;
            let mut opts: Vec<Move> = Vec::new();
            opts.push(Move::Select(Card::Copper));
            opts.push(Move::Done);
            assert(opts@ =~= seq![Move::Select(Card::Copper), Move::Done]);
            self.ask_plain(*f, p, Ctx::MoneylenderTrash, opts);
        } else if ans == Some(Move::Select(Card::Copper)) {
            let ghost s0 = self.state;
            trash_from_hand(&mut self.state, p, Card::Copper);
            let ghost s1 = self.state;
            add_counters(&mut self.state, p, 0, 0, 3, 0);
            proof {
                assert forall|q: int| 0 <= q < s0.players@.len() && q != p implies self.state.players@[q]
                    == s0.players@[q] by {
                    assert(self.state.players@[q] == s1.players@[q]);
                }
                assert(s1.players@[p as int].coins == s0.players@[p as int].coins) by {
                    if !s0.players@[p as int].hand@.contains(Card::Copper) {
                        assert(s1 == s0);
                    }
                }
            }
        }
    }

    /// Poacher: +1 Card, +1 Action, +$1; discard a card per empty supply pile.
    fn poacher(&mut self, f: &mut Frame, ans: Option<Move>)
        requires
            plain_resolve(*old(self), *old(f)),
        ensures
            wf(final(self).state),
            conserved(old(self).state, final(self).state),
            same_table(old(self).state, final(self).state),
            poacher_post(*old(f), *final(f), ans, old(self).state, final(self).state),
    {
        let p = f.player as usize;
        if f.step == 0 {
            add_counters(&mut self.state, p, 1, 0, 1, 0);
            f.step = 1;
            push_plain(&mut self.state, *f);
            self.push_draw(1, p);
            return;
        }
        if f.step == 1 {
            let empty = self.state.empty_piles();
            proof {
                crate::card::lemma_filter_len_all(|c: Card| crate::state::pile_empty(self.state, c));
            }
            f.n = empty as u8;
            f.step = 2;
        }
        if let Some(Move::Select(c)) = ans {
            move_card(&mut self.state, p, Zone::Hand, Zone::Discard, c);
            f.n = f.n.wrapping_sub(1);
        }
        if f.n == 0 || self.state.players[p].hand.len() == 0 {
            return;
        }
        let kinds = distinct(self.state.players[p].hand.as_slice());
        proof {
            lemma_distinct(self.state.players@[p as int].hand@);
        }
        let opts = selects_of(&kinds);
        proof { crate::engine::lemma_distinct_nodup(self.state.players@[p as int].hand@, 0); crate::engine::lemma_moves_nodup(kinds@); }
        self.ask_plain(*f, p, Ctx::PoacherDiscard, opts);
    }

    /// Remodel: trash a card from your hand and gain one costing up to $2 more.
    fn remodel(&mut self, f: &mut Frame, ans: Option<Move>)
        requires
            plain_resolve(*old(self), *old(f)),
        ensures
            wf(final(self).state),
            conserved(old(self).state, final(self).state),
            same_table(old(self).state, final(self).state),
            remodel_post(*old(f), *final(f), ans, old(self).state, final(self).state),
    {
        let p = f.player as usize;
        if f.step == 0 {
            if self.state.players[p].hand.len() == 0 {
                return;
            }
            f.step = 1;
            let kinds = distinct(self.state.players[p].hand.as_slice());
            proof {
                lemma_distinct(self.state.players@[p as int].hand@);
            }
            let opts = selects_of(&kinds);
            proof { crate::engine::lemma_distinct_nodup(self.state.players@[p as int].hand@, 0); crate::engine::lemma_moves_nodup(kinds@); }
            self.ask_plain(*f, p, Ctx::RemodelTrash, opts);
        } else if f.step == 1 {
            let c = match ans {
                Some(Move::Select(c)) => c,
                _ => {
                    return;
                },
            };
            let ghost s0 = self.state;
            trash_from_hand(&mut self.state, p, c);
            proof {
                lemma_buyable_same(self.state, s0, (c.spec_cost() + 2) as u8);
            }
            let gains = self.state.buyable(c.cost() + 2);
            let opts = selects_of(&gains);
            if opts.len() == 0 {
                return;
            }
            f.step = 2;
            proof { crate::engine::lemma_buyable_nodup(self.state, (c.spec_cost() + 2) as u8, 1); crate::engine::lemma_moves_nodup(gains@); }
            self.ask_plain(*f, p, Ctx::RemodelGain, opts);
        } else if let Some(Move::Select(c)) = ans {
            self.push_gain(c, p, Dest::Discard);
        }
    }

    /// Mine: you may trash a Treasure from your hand and gain a Treasure to
    /// your hand costing up to $3 more.
    fn mine(&mut self, f: &mut Frame, ans: Option<Move>)
        requires
            plain_resolve(*old(self), *old(f)),
        ensures
            wf(final(self).state),
            conserved(old(self).state, final(self).state),
            same_table(old(self).state, final(self).state),
            mine_post(*old(f), *final(f), ans, old(self).state, final(self).state),
    {
        let p = f.player as usize;
        if f.step == 0 {
            let kinds = distinct(self.state.players[p].hand.as_slice());
            let treasures = keep_type(&kinds, 1);
            if treasures.len() == 0 {
                return;
            }
            f.step = 1;
            let mut opts = selects_of(&treasures);
            opts.push(Move::Done);
            proof { crate::engine::lemma_distinct_nodup(self.state.players@[p as int].hand@, 1); crate::engine::lemma_moves_nodup(treasures@); }
            self.ask_plain(*f, p, Ctx::MineTrash, opts);
        } else if f.step == 1 {
            let c = match ans {
                Some(Move::Select(c)) => c,
                _ => {
                    return;
                },
            };
            let ghost s0 = self.state;
            trash_from_hand(&mut self.state, p, c);
            proof {
                lemma_buyable_same(self.state, s0, (c.spec_cost() + 3) as u8);
            }
            let gains = self.state.buyable(c.cost() + 3);
            let treasures = keep_type(&gains, 1);
            let opts = selects_of(&treasures);
            if opts.len() == 0 {
                return;
            }
            f.step = 2;
            proof { crate::engine::lemma_buyable_nodup(self.state, (c.spec_cost() + 3) as u8, 1); crate::engine::lemma_moves_nodup(treasures@); }
            self.ask_plain(*f, p, Ctx::MineGain, opts);
        } else if let Some(Move::Select(c)) = ans {
            self.push_gain(c, p, Dest::Hand);
        }
    }

    /// Throne Room: you may play an Action card from your hand twice.
    fn throne_room(&mut self, f: &mut Frame, ans: Option<Move>)
        requires
            plain_resolve(*old(self), *old(f)),
        ensures
            wf(final(self).state),
            conserved(old(self).state, final(self).state),
            same_table(old(self).state, final(self).state),
            throne_room_post(*old(f), *final(f), ans, old(self).state, final(self).state),
    {
        let p = f.player as usize;
        if f.step == 0 {
            let kinds = distinct(self.state.players[p].hand.as_slice());
            let actions = keep_type(&kinds, 0);
            if actions.len() == 0 {
                return;
            }
            f.step = 1;
            let mut opts = plays_of(&actions);
            opts.push(Move::Done);
            proof { crate::engine::lemma_distinct_nodup(self.state.players@[p as int].hand@, 0); crate::engine::lemma_moves_nodup(actions@); }
            self.ask_plain(*f, p, Ctx::ThroneRoomPlay, opts);
        } else if let Some(Move::Play(c)) = ans {
            let ghost s0 = self.state;
            move_card(&mut self.state, p, Zone::Hand, Zone::Play, c);
            let ghost s1 = self.state;
            self.push_resolve(c, p);
            let ghost s2 = self.state;
            self.push_resolve(c, p);
            proof {
                assert(self.state.stack@.take(s0.stack@.len() as int) =~= s0.stack@);
                assert(self.state.stack@[s0.stack@.len() as int] == s2.stack@.last());
            }
        }
    }

    /// Library: draw until you have 7 cards in hand, skipping any Action cards
    /// you choose to set aside; discard the set-aside cards afterwards.
    fn library(&mut self, f: &mut Frame, ans: Option<Move>)
        requires
            plain_resolve(*old(self), *old(f)),
        ensures
            wf(final(self).state),
            conserved(old(self).state, final(self).state),
            same_table(old(self).state, final(self).state),
            library_post(*old(f), *final(f), ans, old(self).state, final(self).state),
    {
        let p = f.player as usize;
        let ghost s0 = self.state;
        let ghost x0 = s0.players@[p as int];
        if f.step == 0 {
            f.step = 1;
        } else if let Some(Move::Select(c)) = ans {
            // Set the just-drawn Action aside instead of keeping it.
            move_card(&mut self.state, p, Zone::Hand, Zone::SetAside, c);
        }
        let ghost f1 = *f;
        let mut done = false;
        while !done
            invariant
                wf(self.state),
                s0 == old(self).state,
                x0 == s0.players@[p as int],
                p == f.player,
                *f == f1,
                f1.step == (if old(f).step == 0 { 1u8 } else { old(f).step }),
                f1.player == old(f).player,
                p < self.state.players@.len(),
                conserved(s0, self.state),
                same_table(s0, self.state),
                frame_ok(*f, self.state.players@.len()),
                f.scratch@.len() <= 1,
                only_player(s0, self.state, p as int),
                self.state.stack == s0.stack,
                self.state.pending == s0.pending,
                self.state.players@[p as int].play@ == x0.play@,
                self.state.players@[p as int].actions == x0.actions,
                self.state.players@[p as int].buys == x0.buys,
                self.state.players@[p as int].coins == x0.coins,
                done ==> self.state.players@[p as int].hand@.len() >= 7
                    || drawable(self.state.players@[p as int]) == 0,
            decreases (if done { 0int } else { 1int }) + crate::engine::drawable(self.state.players@[p as int]),
        {
            if self.state.players[p].hand.len() >= 7 {
                done = true;
            } else {
                let ghost before = self.state;
                match draw_one(&mut self.state, p) {
                    None => {
                        done = true;
                    },
                    Some(drawn) => {
                        proof {
                            lemma_conserved_trans(s0, before, self.state);
                            assert forall|q: int| 0 <= q < s0.players@.len() && q != p implies self.state.players@[q]
                                == s0.players@[q] by {
                                assert(self.state.players@[q] == before.players@[q]);
                            }
                        }
                        if drawn.is_action() {
                            let mut opts: Vec<Move> = Vec::new();
                            opts.push(Move::Select(drawn));
                            opts.push(Move::Done);
                            assert(opts@ =~= seq![Move::Select(drawn), Move::Done]);
                            let ghost before_ask = self.state;
                            self.ask_plain(*f, p, Ctx::LibrarySetAside, opts);
                            proof {
                                lemma_conserved_trans(s0, before_ask, self.state);
                            }
                            return;
                        }
                    },
                }
            }
        }
        let ghost before = self.state;
        crate::engine::discard_set_aside(&mut self.state, p);
        proof {
            lemma_conserved_trans(s0, before, self.state);
            assert forall|q: int| 0 <= q < s0.players@.len() && q != p implies self.state.players@[q]
                == s0.players@[q] by {
                assert(self.state.players@[q] == before.players@[q]);
            }
        }
    }

    /// Artisan: gain a card to your hand costing up to $5, then put a card
    /// from your hand onto your deck.
    fn artisan(&mut self, f: &mut Frame, ans: Option<Move>)
        requires
            plain_resolve(*old(self), *old(f)),
        ensures
            wf(final(self).state),
            conserved(old(self).state, final(self).state),
            same_table(old(self).state, final(self).state),
            artisan_post(*old(f), *final(f), ans, old(self).state, final(self).state),
    {
        let p = f.player as usize;
        if f.step == 0 {
            let gains = self.state.buyable(5);
            let opts = selects_of(&gains);
            if opts.len() == 0 {
                f.step = 2;
                push_plain(&mut self.state, *f);
                return;
            }
            f.step = 1;
            proof { crate::engine::lemma_buyable_nodup(self.state, 5, 1); crate::engine::lemma_moves_nodup(gains@); }
            self.ask_plain(*f, p, Ctx::ArtisanGain, opts);
        } else if f.step == 1 {
            if let Some(Move::Select(c)) = ans {
                f.step = 2;
                push_plain(&mut self.state, *f);
                self.push_gain(c, p, Dest::Hand);
            }
        } else if f.step == 2 {
            if self.state.players[p].hand.len() == 0 {
                return;
            }
            f.step = 3;
            let kinds = distinct(self.state.players[p].hand.as_slice());
            proof {
                lemma_distinct(self.state.players@[p as int].hand@);
            }
            let opts = selects_of(&kinds);
            proof { crate::engine::lemma_distinct_nodup(self.state.players@[p as int].hand@, 0); crate::engine::lemma_moves_nodup(kinds@); }
            self.ask_plain(*f, p, Ctx::ArtisanTopdeck, opts);
        } else if let Some(Move::Select(c)) = ans {
            move_card(&mut self.state, p, Zone::Hand, Zone::Deck, c);
        }
    }

    /// Park a decision on a frame that holds no cards.
    fn ask_plain(&mut self, frame: Frame, player: usize, ctx: Ctx, options: Vec<Move>)
        requires
            wf(old(self).state),
            frame_ok(frame, old(self).state.players@.len()),
            frame.scratch@.len() <= 1,
            player < old(self).state.players@.len(),
            options@.len() >= 1,
            options@.no_duplicates(),
        ensures
            wf(final(self).state),
            conserved(old(self).state, final(self).state),
            same_table(old(self).state, final(self).state),
            parked(old(self).state, final(self).state, frame, player as int, ctx, options@),
    {
        ask(&mut self.state, frame, player, ctx, options);
        proof {
            assert forall|c: Card| #[trigger] census(self.state, c) == census(old(self).state, c) by {
                lemma_held_short(frame, c);
            }
        }
    }

    /// Sentry: +1 Card, +1 Action; look at the top two cards of your deck,
    /// trash and/or discard any of them, and put the rest back in any order.
    fn sentry(&mut self, f: Frame, ans: Option<Move>)
        requires
            wf(old(self).state),
            frame_ok(f, old(self).state.players@.len()),
            f.kind == FrameKind::Resolve,
            f.scratch.slot(0) == Card::Sentry,
        ensures
            wf(final(self).state),
            forall|c: Card| #[trigger] census(final(self).state, c) == census(old(self).state, c) + cnt(held(f), c),
            same_table(old(self).state, final(self).state),
            sentry_post(f, ans, old(self).state, final(self).state),
    {
        let mut f = f;
        let p = f.player as usize;
        let ghost s0 = self.state;
        let ghost h0 = held(f);
        if f.step == 0 {
            proof {
                assert forall|c: Card| cnt(held(f), c) == 0 by {
                    lemma_held_short(f, c);
                }
            }
            add_counters(&mut self.state, p, 1, 0, 0, 0);
            f.step = 1;
            push_plain(&mut self.state, f);
            self.push_draw(1, p);
        } else if f.step == 1 {
            proof {
                assert forall|c: Card| cnt(held(f), c) == 0 by {
                    lemma_held_short(f, c);
                }
            }
            // Look at the top two cards; they live in the scratch after its
            // first slot.
            let ghost mut shown: Seq<Card> = Seq::empty();
            let ghost first = f.scratch@;
            let mut k: usize = 0;
            proof {
                assert forall|c: Card| #[trigger] census(s0, c) == census(self.state, c) + cnt(shown, c) by {
                    crate::census::lemma_cnt_empty(c);
                }
                assert(f.scratch@ =~= first + shown);
            }
            while k < 2
                invariant
                    wf(self.state),
                    same_table(s0, self.state),
                    p < self.state.players@.len(),
                    f.player == p,
                    f.kind == FrameKind::Resolve,
                    f.scratch@ == first + shown,
                    first.len() == 1,
                    f.scratch.slot(0) == Card::Sentry,
                    shown.len() <= k,
                    k <= 2,
                    forall|c: Card| #[trigger] census(s0, c) == census(self.state, c) + cnt(shown, c),
                    s0 == old(self).state,
                    only_player(s0, self.state, p as int),
                    self.state.stack == s0.stack,
                    self.state.pending == s0.pending,
                    self.state.trash == s0.trash,
                    shown.len() == min_of(k as int, drawable(s0.players@[p as int]) as int),
                    drawable(self.state.players@[p as int]) + shown.len() == drawable(s0.players@[p as int]),
                    f.step == 1,
                decreases 2 - k,
            {
                let ghost before_state = self.state;
                match reveal_one(&mut self.state, p) {
                    Some(c) => {
                        proof {
                            assert forall|q: int| 0 <= q < s0.players@.len() && q != p implies self.state.players@[q]
                                == s0.players@[q] by {
                                assert(self.state.players@[q] == before_state.players@[q]);
                            }
                        }
                        let ghost before = f.scratch;
                        f.scratch.push(c);
                        proof {
                            if before@.len() > 0 {
                                assert(f.scratch.slot(0) == before.slot(0));
                            } else {
                                f.scratch.lemma_slot_view(0);
                                assert(f.scratch@ =~= seq![c]);
                            }
                            assert forall|x: Card| #[trigger] census(s0, x) == census(self.state, x) + cnt(shown.push(c), x) by {
                                lemma_cnt_push(shown, c, x);
                                lemma_cnt_push(Seq::<Card>::empty(), c, x);
                                crate::census::lemma_cnt_empty(x);
                                assert(seq![c] =~= Seq::<Card>::empty().push(c));
                            }
                            shown = shown.push(c);
                            assert(f.scratch@ =~= first + shown);
                        }
                    },
                    None => {},
                }
                k = k + 1;
            }
            proof {
                assert(first.len() == 1);
                assert(held(f) =~= shown);
            }
            proof {
                f.scratch.lemma_slot_view(0);
                assert(first =~= seq![Card::Sentry]);
            }
            f.step = 2;
            let ghost mid = self.state;
            self.sentry_trash(f);
            proof {
                if shown.len() > 0 {
                    assert(held(f).len() > 0);
                    assert(self.state.stack@.last() == f);
                    assert(self.state.stack@.last().scratch@ == seq![Card::Sentry] + shown);
                }
                assert(distinct_cards(shown) == distinct_cards(shown));
            }
        } else if f.step == 2 {
            match ans {
                Some(Move::Select(c)) => {
                    let ghost f0 = f;
                    proof {
                        lemma_held_contains(f0, c);
                    }
                    if f.scratch.remove_held(c) {
                        self.state.trash.push(c);
                        proof {
                            let i = choose|i: int| 1 <= i < f0.scratch@.len() && f0.scratch@[i] == c
                                && f.scratch@ == f0.scratch@.remove(i);
                            assert(held(f) =~= h0.remove(i - 1));
                            assert forall|x: Card| #[trigger] census(self.state, x) + cnt(held(f), x) == census(s0, x) + cnt(h0, x) by {
                                lemma_cnt_push(s0.trash@, c, x);
                                crate::census::lemma_cnt_remove(h0, i - 1, x);
                            }
                        }
                    }
                    self.sentry_trash(f);
                },
                _ => {
                    f.step = 3;
                    self.sentry_discard(f);
                },
            }
        } else if f.step == 3 {
            match ans {
                Some(Move::Select(c)) => {
                    let ghost f0 = f;
                    proof {
                        lemma_held_contains(f0, c);
                    }
                    if f.scratch.remove_held(c) {
                        put(&mut self.state, p, Zone::Discard, c);
                        proof {
                            let i = choose|i: int| 1 <= i < f0.scratch@.len() && f0.scratch@[i] == c
                                && f.scratch@ == f0.scratch@.remove(i);
                            assert(held(f) =~= h0.remove(i - 1));
                            assert forall|x: Card| #[trigger] census(self.state, x) + cnt(held(f), x) == census(s0, x) + cnt(h0, x) by {
                                crate::census::lemma_cnt_remove(h0, i - 1, x);
                            }
                        }
                    }
                    self.sentry_discard(f);
                },
                _ => {
                    f.step = 4;
                    self.sentry_order(f, None);
                },
            }
        } else {
            self.sentry_order(f, ans);
        }
    }

    /// Sentry: offer to trash any of the cards still held.
    fn sentry_trash(&mut self, f: Frame)
        requires
            wf(old(self).state),
            (f.player as nat) < old(self).state.players@.len(),
            f.kind == FrameKind::Resolve,
            f.scratch.slot(0) == Card::Sentry,
        ensures
            wf(final(self).state),
            forall|c: Card| #[trigger] census(final(self).state, c) == census(old(self).state, c) + cnt(held(f), c),
            same_table(old(self).state, final(self).state),
            sentry_ask_post(f, 2, Ctx::SentryTrash, old(self).state, final(self).state),
    {
        let mut f = f;
        let p = f.player as usize;
        let looked = held_cards(&f);
        if looked.len() == 0 {
            proof {
                assert forall|c: Card| cnt(held(f), c) == 0 by {
                    assert(held(f) =~= Seq::<Card>::empty());
                    crate::census::lemma_cnt_empty(c);
                }
            }
            return;
        }
        let kinds = distinct(looked.as_slice());
        let mut opts = selects_of(&kinds);
        opts.push(Move::Done);
        let ghost h = held(f);
        f.step = 2;
        assert(held(f) == h);
        proof { crate::engine::lemma_distinct_nodup(looked@, 0); crate::engine::lemma_moves_nodup(kinds@); }
        ask(&mut self.state, f, p, Ctx::SentryTrash, opts);
    }

    /// Sentry: offer to discard any of the cards still held.
    fn sentry_discard(&mut self, f: Frame)
        requires
            wf(old(self).state),
            (f.player as nat) < old(self).state.players@.len(),
            f.kind == FrameKind::Resolve,
            f.scratch.slot(0) == Card::Sentry,
        ensures
            wf(final(self).state),
            forall|c: Card| #[trigger] census(final(self).state, c) == census(old(self).state, c) + cnt(held(f), c),
            same_table(old(self).state, final(self).state),
            sentry_ask_post(f, 3, Ctx::SentryDiscard, old(self).state, final(self).state),
    {
        let mut f = f;
        let p = f.player as usize;
        let looked = held_cards(&f);
        if looked.len() == 0 {
            proof {
                assert forall|c: Card| cnt(held(f), c) == 0 by {
                    assert(held(f) =~= Seq::<Card>::empty());
                    crate::census::lemma_cnt_empty(c);
                }
            }
            return;
        }
        let kinds = distinct(looked.as_slice());
        let mut opts = selects_of(&kinds);
        opts.push(Move::Done);
        let ghost h = held(f);
        f.step = 3;
        assert(held(f) == h);
        proof { crate::engine::lemma_distinct_nodup(looked@, 0); crate::engine::lemma_moves_nodup(kinds@); }
        ask(&mut self.state, f, p, Ctx::SentryDiscard, opts);
    }

    /// Sentry: put the cards still held back on the deck, asking which goes on
    /// top when there is a real choice.
    fn sentry_order(&mut self, f: Frame, ans: Option<Move>)
        requires
            wf(old(self).state),
            (f.player as nat) < old(self).state.players@.len(),
            f.kind == FrameKind::Resolve,
            f.scratch.slot(0) == Card::Sentry,
        ensures
            wf(final(self).state),
            forall|c: Card| #[trigger] census(final(self).state, c) == census(old(self).state, c) + cnt(held(f), c),
            same_table(old(self).state, final(self).state),
            sentry_order_post(f, ans, old(self).state, final(self).state),
    {
        let mut f = f;
        let p = f.player as usize;
        let ghost s0 = self.state;
        let looked = held_cards(&f);
        if let Some(Move::Select(top)) = ans {
            let mut rest = looked.clone();
            assert(rest@ =~= looked@);
            let ghost r0 = rest@;
            if crate::engine::remove_one(&mut rest, top) {
                deposit(&mut self.state, p, &rest, Zone::Deck);
                let ghost s1 = self.state;
                put(&mut self.state, p, Zone::Deck, top);
                proof {
                    let i = choose|i: int| 0 <= i < r0.len() && r0[i] == top && rest@ == r0.remove(i);
                    assert forall|x: Card| #[trigger] census(self.state, x) == census(s0, x) + cnt(held(f), x) by {
                        crate::census::lemma_cnt_remove(r0, i, x);
                    }
                    assert(self.state.players@[p as int].deck@ =~= s0.players@[p as int].deck@ + r0.remove(i) + seq![top]);
                    assert(held(f).remove(i) == r0.remove(i));
                    assert forall|q: int| 0 <= q < s0.players@.len() && q != p implies self.state.players@[q]
                        == s0.players@[q] by {
                        assert(self.state.players@[q] == s1.players@[q]);
                    }
                }
            } else {
                deposit(&mut self.state, p, &rest, Zone::Deck);
            }
            return;
        }
        if looked.len() == 0 {
            proof {
                assert forall|c: Card| cnt(held(f), c) == 0 by {
                    assert(held(f) =~= Seq::<Card>::empty());
                    crate::census::lemma_cnt_empty(c);
                }
            }
            return;
        }
        if looked.len() == 1 {
            put(&mut self.state, p, Zone::Deck, looked[0]);
            proof {
                assert forall|x: Card| #[trigger] census(self.state, x) == census(s0, x) + cnt(held(f), x) by {
                    assert(looked@ =~= Seq::<Card>::empty().push(looked@[0]));
                    lemma_cnt_push(Seq::<Card>::empty(), looked@[0], x);
                    crate::census::lemma_cnt_empty(x);
                }
            }
            return;
        }
        let kinds = distinct(looked.as_slice());
        if kinds.len() == 1 {
            deposit(&mut self.state, p, &looked, Zone::Deck);
        } else {
            proof {
                lemma_distinct(looked@);
            }
            let ghost h = held(f);
            f.step = 4;
            assert(held(f) == h);
            let opts = selects_of(&kinds);
            proof { crate::engine::lemma_distinct_nodup(looked@, 0); crate::engine::lemma_moves_nodup(kinds@); }
            ask(&mut self.state, f, p, Ctx::SentryOrder, opts);
        }
    }

}

} // verus!
