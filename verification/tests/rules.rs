//! Targeted rule tests.
//!
//! The fuzzer catches crashes and stuck games; these catch silently wrong
//! rules, which would otherwise teach the AI a game that isn't Dominion.

use dominion::card::{kingdom_cards, Card, NUM_CARDS};
use dominion::engine::Game;
use dominion::state::{Ctx, Frame, FrameKind, GameState, Move};

/// A 10-card kingdom containing `wanted`, padded deterministically.
fn king(wanted: &[Card]) -> Vec<Card> {
    let mut k: Vec<Card> = wanted.to_vec();
    for &c in kingdom_cards().iter() {
        if k.len() == 10 {
            break;
        }
        if !k.contains(&c) {
            k.push(c);
        }
    }
    k.sort_unstable();
    k
}

/// Build a game, overwrite the state with a hand-crafted scenario, and run the
/// current player's action and buy phases over it.
fn scenario(wanted: &[Card], setup: impl FnOnce(&mut GameState)) -> Game {
    let mut g = Game::new(&king(wanted), 2, 1).unwrap();
    g.state.pending = None;
    g.state.answer = None;
    g.state.stack.clear();
    for p in &mut g.state.players {
        p.hand.clear();
        p.deck.clear();
        p.discard.clear();
        p.play.clear();
    }
    let cur = g.state.current as usize;
    {
        let pl = &mut g.state.players[cur];
        pl.actions = 1;
        pl.buys = 1;
        pl.coins = 0;
    }
    setup(&mut g.state);
    g.state.stack.push(Frame::new(FrameKind::BuyPhase, cur));
    g.state.stack.push(Frame::new(FrameKind::ActionPhase, cur));
    g.advance();
    g
}

fn play(g: &mut Game, mv: Move) {
    let d = g.decision().unwrap_or_else(|| panic!("no decision pending, wanted {mv:?}"));
    assert!(
        d.options.contains(&mv),
        "{mv:?} not offered in {:?}; options: {:?}",
        d.ctx,
        d.options
    );
    g.apply(mv).unwrap();
}

fn expect_ctx(g: &Game, ctx: Ctx) {
    let d = g.decision().unwrap_or_else(|| panic!("no decision pending, wanted {ctx:?}"));
    assert_eq!(d.ctx, ctx, "options were {:?}", d.options);
}

fn hand_of(g: &Game, p: usize) -> Vec<Card> {
    let mut h = g.state.players[p].hand.clone();
    h.sort_unstable();
    h
}

fn count(zone: &[Card], c: Card) -> usize {
    zone.iter().filter(|&&x| x == c).count()
}

// ------------------------------------------------------------ card data

/// Costs are the foundation every buy decision rests on, and a wrong one is
/// invisible at runtime — it just quietly makes the bots play a different game.
#[test]
fn every_card_costs_what_it_says_on_the_box() {
    let expected: &[(Card, u8)] = &[
        (Card::Copper, 0),
        (Card::Curse, 0),
        (Card::Estate, 2),
        (Card::Silver, 3),
        (Card::Duchy, 5),
        (Card::Gold, 6),
        (Card::Province, 8),
        (Card::Cellar, 2),
        (Card::Chapel, 2),
        (Card::Moat, 2),
        (Card::Harbinger, 3),
        (Card::Merchant, 3),
        (Card::Vassal, 3),
        (Card::Village, 3),
        (Card::Workshop, 3),
        (Card::Bureaucrat, 4),
        (Card::Gardens, 4),
        (Card::Militia, 4),
        (Card::Moneylender, 4),
        (Card::Poacher, 4),
        (Card::Remodel, 4),
        (Card::Smithy, 4),
        (Card::ThroneRoom, 4),
        (Card::Bandit, 5),
        (Card::CouncilRoom, 5),
        (Card::Festival, 5),
        (Card::Laboratory, 5),
        (Card::Library, 5),
        (Card::Market, 5),
        (Card::Mine, 5),
        (Card::Sentry, 5),
        (Card::Witch, 5),
        (Card::Artisan, 6),
    ];
    assert_eq!(expected.len(), NUM_CARDS, "a card is missing");
    for &(card, cost) in expected {
        assert_eq!(card.cost(), cost, "{card:?} should cost ${cost}");
    }
}

#[test]
fn card_types_are_right() {
    assert!(Card::Moat.is_action() && Card::Moat.is_reaction());
    assert!(Card::Gardens.is_victory() && !Card::Gardens.is_action());
    for c in [Card::Militia, Card::Witch, Card::Bandit, Card::Bureaucrat] {
        assert!(c.is_attack() && c.is_action(), "{c:?} is an Attack");
    }
    assert_eq!(Card::Copper.coin_value(), 1);
    assert_eq!(Card::Silver.coin_value(), 2);
    assert_eq!(Card::Gold.coin_value(), 3);
}

// ---------------------------------------------------------------- vanilla

#[test]
fn village_draws_one_and_gives_two_actions() {
    let mut g = scenario(&[Card::Village], |s| {
        s.players[0].hand = vec![Card::Village, Card::Village, Card::Estate];
        s.players[0].deck = vec![Card::Copper; 5];
    });
    play(&mut g, Move::Play(Card::Village));
    // +1 Card, +2 Actions: one action was spent playing it, so 2 remain.
    assert_eq!(g.state.players[0].actions, 2);
    assert_eq!(g.state.players[0].hand.len(), 3);
}

/// Merchant's bonus is per Merchant played, and only on the *first* Silver.
#[test]
fn merchant_bonus_stacks_and_fires_once() {
    let mut g = scenario(&[Card::Merchant], |s| {
        s.players[0].hand = vec![Card::Merchant, Card::Merchant, Card::Silver, Card::Silver];
        s.players[0].deck = vec![Card::Copper; 5];
    });
    play(&mut g, Move::Play(Card::Merchant));
    play(&mut g, Move::Play(Card::Merchant));
    // No Actions left in hand, so the action phase ends by itself.
    expect_ctx(&g, Ctx::BuyPhase);
    play(&mut g, Move::Play(Card::Silver));
    assert_eq!(g.state.players[0].coins, 4, "$2 from Silver + $1 per Merchant");
    play(&mut g, Move::Play(Card::Silver));
    assert_eq!(g.state.players[0].coins, 6, "second Silver gets no bonus");
}

#[test]
fn throne_room_resolves_the_card_twice() {
    let mut g = scenario(&[Card::ThroneRoom, Card::Smithy], |s| {
        s.players[0].hand = vec![Card::ThroneRoom, Card::Smithy];
        s.players[0].deck = vec![Card::Copper; 10];
    });
    play(&mut g, Move::Play(Card::ThroneRoom));
    expect_ctx(&g, Ctx::ThroneRoomPlay);
    play(&mut g, Move::Play(Card::Smithy));
    assert_eq!(g.state.players[0].hand.len(), 6, "3 cards, twice");
}

// ---------------------------------------------------------------- attacks

#[test]
fn moat_blocks_militia() {
    let mut g = scenario(&[Card::Militia, Card::Moat], |s| {
        s.players[0].hand = vec![Card::Militia];
        s.players[0].deck = vec![Card::Copper; 5];
        s.players[1].hand = vec![Card::Moat, Card::Copper, Card::Copper, Card::Copper, Card::Estate];
    });
    play(&mut g, Move::Play(Card::Militia));
    expect_ctx(&g, Ctx::MoatReveal);
    play(&mut g, Move::Select(Card::Moat));
    assert_eq!(g.state.players[1].hand.len(), 5, "attack was blocked");
    assert_eq!(g.state.players[0].coins, 2, "Militia still gives +$2");
}

#[test]
fn militia_forces_a_discard_to_three() {
    let mut g = scenario(&[Card::Militia], |s| {
        s.players[0].hand = vec![Card::Militia];
        s.players[0].deck = vec![Card::Copper; 5];
        s.players[1].hand = vec![Card::Copper, Card::Copper, Card::Estate, Card::Estate, Card::Gold];
    });
    play(&mut g, Move::Play(Card::Militia));
    expect_ctx(&g, Ctx::MilitiaDiscard);
    play(&mut g, Move::Select(Card::Estate));
    expect_ctx(&g, Ctx::MilitiaDiscard);
    play(&mut g, Move::Select(Card::Estate));
    assert_eq!(hand_of(&g, 1), vec![Card::Copper, Card::Copper, Card::Gold]);
    assert_eq!(count(&g.state.players[1].discard, Card::Estate), 2);
}

#[test]
fn witch_hands_out_a_curse() {
    let mut g = scenario(&[Card::Witch], |s| {
        s.players[0].hand = vec![Card::Witch];
        s.players[0].deck = vec![Card::Copper; 5];
    });
    let curses_before = g.state.supply_of(Card::Curse);
    play(&mut g, Move::Play(Card::Witch));
    assert_eq!(count(&g.state.players[1].discard, Card::Curse), 1);
    assert_eq!(g.state.supply_of(Card::Curse), curses_before - 1);
    assert_eq!(g.state.players[0].hand.len(), 2, "+2 Cards");
}

#[test]
fn bureaucrat_topdecks_a_victory_card() {
    let mut g = scenario(&[Card::Bureaucrat], |s| {
        s.players[0].hand = vec![Card::Bureaucrat];
        s.players[0].deck = vec![Card::Copper; 5];
        s.players[1].hand = vec![Card::Copper, Card::Duchy, Card::Estate];
        s.players[1].deck = vec![Card::Copper; 3];
    });
    play(&mut g, Move::Play(Card::Bureaucrat));
    assert_eq!(
        *g.state.players[0].deck.last().unwrap(),
        Card::Silver,
        "attacker gains a Silver onto their deck"
    );
    expect_ctx(&g, Ctx::BureaucratReveal);
    play(&mut g, Move::Select(Card::Estate));
    assert_eq!(*g.state.players[1].deck.last().unwrap(), Card::Estate);
    assert_eq!(hand_of(&g, 1), vec![Card::Copper, Card::Duchy]);
}

#[test]
fn bandit_trashes_a_non_copper_treasure() {
    let mut g = scenario(&[Card::Bandit], |s| {
        s.players[0].hand = vec![Card::Bandit];
        s.players[0].deck = vec![Card::Copper; 5];
        // Top of deck is the last element: Gold, then Copper.
        s.players[1].deck = vec![Card::Estate, Card::Copper, Card::Gold];
    });
    play(&mut g, Move::Play(Card::Bandit));
    // Gold and Copper revealed; only Gold is a legal trash target, so the
    // engine resolves it without asking.
    assert_eq!(count(&g.state.trash, Card::Gold), 1);
    assert_eq!(count(&g.state.players[1].discard, Card::Copper), 1);
    assert_eq!(count(&g.state.players[0].discard, Card::Gold), 1, "attacker gains a Gold");
}

#[test]
fn bandit_lets_the_victim_choose_between_treasures() {
    let mut g = scenario(&[Card::Bandit], |s| {
        s.players[0].hand = vec![Card::Bandit];
        s.players[0].deck = vec![Card::Copper; 5];
        s.players[1].deck = vec![Card::Silver, Card::Gold];
    });
    play(&mut g, Move::Play(Card::Bandit));
    expect_ctx(&g, Ctx::BanditTrash);
    assert_eq!(g.decision().unwrap().player, 1, "the victim chooses");
    play(&mut g, Move::Select(Card::Silver));
    assert_eq!(count(&g.state.trash, Card::Silver), 1);
    assert_eq!(count(&g.state.players[1].discard, Card::Gold), 1);
}

// ------------------------------------------------------------- selection

#[test]
fn cellar_discards_then_draws_the_same_number() {
    let mut g = scenario(&[Card::Cellar], |s| {
        s.players[0].hand = vec![Card::Cellar, Card::Estate, Card::Estate, Card::Copper];
        s.players[0].deck = vec![Card::Gold; 5];
    });
    play(&mut g, Move::Play(Card::Cellar));
    expect_ctx(&g, Ctx::CellarDiscard);
    play(&mut g, Move::Select(Card::Estate));
    play(&mut g, Move::Select(Card::Estate));
    play(&mut g, Move::Done);
    assert_eq!(hand_of(&g, 0), vec![Card::Copper, Card::Gold, Card::Gold]);
    assert_eq!(g.state.players[0].actions, 1, "+1 Action");
}

#[test]
fn chapel_trashes_at_most_four() {
    let mut g = scenario(&[Card::Chapel], |s| {
        s.players[0].hand = vec![Card::Chapel, Card::Copper, Card::Copper, Card::Copper, Card::Copper, Card::Copper];
        s.players[0].deck = vec![Card::Gold; 5];
    });
    play(&mut g, Move::Play(Card::Chapel));
    for _ in 0..4 {
        expect_ctx(&g, Ctx::ChapelTrash);
        play(&mut g, Move::Select(Card::Copper));
    }
    assert_eq!(count(&g.state.trash, Card::Copper), 4);
    assert_eq!(hand_of(&g, 0), vec![Card::Copper], "the fifth Copper survives");
}

#[test]
fn vassal_may_play_the_discarded_action() {
    let mut g = scenario(&[Card::Vassal, Card::Smithy], |s| {
        s.players[0].hand = vec![Card::Vassal];
        s.players[0].deck = vec![Card::Copper, Card::Copper, Card::Copper, Card::Copper, Card::Smithy];
    });
    play(&mut g, Move::Play(Card::Vassal));
    expect_ctx(&g, Ctx::VassalPlay);
    play(&mut g, Move::Play(Card::Smithy));
    assert_eq!(g.state.players[0].coins, 2, "+$2");
    assert_eq!(g.state.players[0].hand.len(), 3, "Smithy drew 3");
    assert!(g.state.players[0].play.contains(&Card::Smithy));
    assert_eq!(g.state.players[0].actions, 0, "Vassal's play is free but the Vassal cost one");
}

#[test]
fn harbinger_pulls_a_card_out_of_the_discard_pile() {
    let mut g = scenario(&[Card::Harbinger], |s| {
        s.players[0].hand = vec![Card::Harbinger];
        s.players[0].deck = vec![Card::Copper; 5];
        s.players[0].discard = vec![Card::Estate, Card::Gold];
    });
    play(&mut g, Move::Play(Card::Harbinger));
    expect_ctx(&g, Ctx::HarbingerTopdeck);
    play(&mut g, Move::Select(Card::Gold));
    assert_eq!(*g.state.players[0].deck.last().unwrap(), Card::Gold);
    assert_eq!(g.state.players[0].discard, vec![Card::Estate]);
}

#[test]
fn a_card_put_back_on_the_deck_is_remembered() {
    let mut g = scenario(&[Card::Harbinger], |s| {
        s.players[0].hand = vec![Card::Harbinger];
        s.players[0].deck = vec![Card::Copper; 5];
        s.players[0].discard = vec![Card::Estate, Card::Gold];
        s.players[0].known_top = 0;
    });
    play(&mut g, Move::Play(Card::Harbinger));
    expect_ctx(&g, Ctx::HarbingerTopdeck);
    play(&mut g, Move::Select(Card::Gold));
    assert_eq!(g.state.players[0].deck.last(), Some(&Card::Gold));
    assert_eq!(g.state.players[0].discard, vec![Card::Estate]);
    assert_eq!(g.state.players[0].known_top, 1);
    for p in &g.state.players {
        assert!(p.known_top as usize <= p.deck.len());
    }
}

#[test]
fn mine_upgrades_a_treasure_into_hand() {
    let mut g = scenario(&[Card::Mine], |s| {
        s.players[0].hand = vec![Card::Mine, Card::Copper];
        s.players[0].deck = vec![Card::Estate; 5];
    });
    play(&mut g, Move::Play(Card::Mine));
    expect_ctx(&g, Ctx::MineTrash);
    play(&mut g, Move::Select(Card::Copper));
    expect_ctx(&g, Ctx::MineGain);
    let opts = &g.decision().unwrap().options;
    assert!(opts.contains(&Move::Select(Card::Silver)));
    assert!(!opts.contains(&Move::Select(Card::Gold)), "Gold costs $5, budget is $3");
    play(&mut g, Move::Select(Card::Silver));
    assert_eq!(hand_of(&g, 0), vec![Card::Silver], "gained to hand, not discard");
    assert_eq!(count(&g.state.trash, Card::Copper), 1);
}

#[test]
fn remodel_gains_two_more_than_the_trashed_card() {
    let mut g = scenario(&[Card::Remodel], |s| {
        s.players[0].hand = vec![Card::Remodel, Card::Estate];
        s.players[0].deck = vec![Card::Copper; 5];
    });
    play(&mut g, Move::Play(Card::Remodel));
    // Estate is the only card in hand, so the trash choice is forced.
    expect_ctx(&g, Ctx::RemodelGain);
    let opts = &g.decision().unwrap().options;
    assert!(opts.contains(&Move::Select(Card::Silver)), "$2 + 2 = $4");
    assert!(!opts.contains(&Move::Select(Card::Gold)));
    play(&mut g, Move::Select(Card::Silver));
    assert_eq!(count(&g.state.players[0].discard, Card::Silver), 1);
}

#[test]
fn library_skips_chosen_actions_and_stops_at_seven() {
    let mut g = scenario(&[Card::Library, Card::Village], |s| {
        s.players[0].hand = vec![Card::Library];
        let mut deck = vec![Card::Copper; 7];
        deck.push(Card::Village); // top of deck
        s.players[0].deck = deck;
    });
    play(&mut g, Move::Play(Card::Library));
    expect_ctx(&g, Ctx::LibrarySetAside);
    play(&mut g, Move::Select(Card::Village));
    assert_eq!(g.state.players[0].hand.len(), 7);
    assert!(g.state.players[0].hand.iter().all(|&c| c == Card::Copper));
    assert_eq!(
        count(&g.state.players[0].discard, Card::Village),
        1,
        "set-aside cards are discarded afterwards"
    );
    assert!(g.state.players[0].set_aside.is_empty());
}

#[test]
fn library_keeps_an_action_when_asked_to() {
    let mut g = scenario(&[Card::Library, Card::Village], |s| {
        s.players[0].hand = vec![Card::Library];
        let mut deck = vec![Card::Copper; 7];
        deck.push(Card::Village);
        s.players[0].deck = deck;
    });
    play(&mut g, Move::Play(Card::Library));
    play(&mut g, Move::Done); // keep the Village
    assert_eq!(g.state.players[0].hand.len(), 7);
    assert_eq!(count(&g.state.players[0].hand, Card::Village), 1);
}

#[test]
fn sentry_can_trash_one_card_and_discard_another() {
    let mut g = scenario(&[Card::Sentry], |s| {
        s.players[0].hand = vec![Card::Sentry];
        // Top of deck last: Copper is drawn by +1 Card, then Curse and Estate
        // are looked at.
        s.players[0].deck = vec![Card::Gold, Card::Estate, Card::Curse, Card::Copper];
    });
    play(&mut g, Move::Play(Card::Sentry));
    assert_eq!(hand_of(&g, 0), vec![Card::Copper], "+1 Card");
    expect_ctx(&g, Ctx::SentryTrash);
    play(&mut g, Move::Select(Card::Curse));
    expect_ctx(&g, Ctx::SentryTrash);
    play(&mut g, Move::Done);
    expect_ctx(&g, Ctx::SentryDiscard);
    play(&mut g, Move::Select(Card::Estate));
    assert_eq!(count(&g.state.trash, Card::Curse), 1);
    assert_eq!(count(&g.state.players[0].discard, Card::Estate), 1);
    assert_eq!(g.state.players[0].deck, vec![Card::Gold], "the rest stays on the deck");
}

#[test]
fn sentry_puts_kept_cards_back_in_the_chosen_order() {
    let mut g = scenario(&[Card::Sentry], |s| {
        s.players[0].hand = vec![Card::Sentry];
        s.players[0].deck = vec![Card::Estate, Card::Gold, Card::Copper];
    });
    play(&mut g, Move::Play(Card::Sentry));
    play(&mut g, Move::Done); // trash nothing
    play(&mut g, Move::Done); // discard nothing
    expect_ctx(&g, Ctx::SentryOrder);
    play(&mut g, Move::Select(Card::Estate)); // Estate on top
    assert_eq!(g.state.players[0].deck, vec![Card::Gold, Card::Estate]);
}

#[test]
fn artisan_gains_to_hand_then_topdecks() {
    let mut g = scenario(&[Card::Artisan, Card::Market], |s| {
        s.players[0].hand = vec![Card::Artisan, Card::Copper];
        s.players[0].deck = vec![Card::Estate; 3];
    });
    play(&mut g, Move::Play(Card::Artisan));
    expect_ctx(&g, Ctx::ArtisanGain);
    let opts = &g.decision().unwrap().options;
    assert!(opts.contains(&Move::Select(Card::Market)), "$5 budget reaches Market");
    assert!(!opts.contains(&Move::Select(Card::Gold)), "Gold costs $6");
    play(&mut g, Move::Select(Card::Market));
    expect_ctx(&g, Ctx::ArtisanTopdeck);
    play(&mut g, Move::Select(Card::Market));
    assert_eq!(*g.state.players[0].deck.last().unwrap(), Card::Market);
    assert_eq!(hand_of(&g, 0), vec![Card::Copper]);
}

#[test]
fn poacher_discards_one_card_per_empty_pile() {
    let mut g = scenario(&[Card::Poacher], |s| {
        s.players[0].hand = vec![Card::Poacher, Card::Copper, Card::Estate, Card::Estate];
        s.players[0].deck = vec![Card::Gold; 3];
        s.supply[Card::Cellar.idx()] = 0;
        s.supply[Card::Chapel.idx()] = 0;
    });
    play(&mut g, Move::Play(Card::Poacher));
    assert_eq!(g.state.players[0].coins, 1);
    expect_ctx(&g, Ctx::PoacherDiscard);
    play(&mut g, Move::Select(Card::Estate));
    expect_ctx(&g, Ctx::PoacherDiscard);
    play(&mut g, Move::Select(Card::Estate));
    assert_eq!(hand_of(&g, 0), vec![Card::Copper, Card::Gold]);
}

#[test]
fn moneylender_trashes_a_copper_for_three() {
    let mut g = scenario(&[Card::Moneylender], |s| {
        s.players[0].hand = vec![Card::Moneylender, Card::Copper, Card::Estate];
        s.players[0].deck = vec![Card::Gold; 3];
    });
    play(&mut g, Move::Play(Card::Moneylender));
    expect_ctx(&g, Ctx::MoneylenderTrash);
    play(&mut g, Move::Select(Card::Copper));
    assert_eq!(g.state.players[0].coins, 3);
    assert_eq!(count(&g.state.trash, Card::Copper), 1);
}

#[test]
fn council_room_draws_for_everyone_and_adds_a_buy() {
    let mut g = scenario(&[Card::CouncilRoom], |s| {
        s.players[0].hand = vec![Card::CouncilRoom];
        s.players[0].deck = vec![Card::Copper; 8];
        s.players[1].deck = vec![Card::Estate; 3];
    });
    play(&mut g, Move::Play(Card::CouncilRoom));
    assert_eq!(g.state.players[0].hand.len(), 4);
    assert_eq!(g.state.players[0].buys, 2);
    assert_eq!(g.state.players[1].hand.len(), 1, "each other player draws one");
}

#[test]
fn workshop_gains_up_to_four() {
    let mut g = scenario(&[Card::Workshop], |s| {
        s.players[0].hand = vec![Card::Workshop];
        s.players[0].deck = vec![Card::Copper; 3];
    });
    play(&mut g, Move::Play(Card::Workshop));
    expect_ctx(&g, Ctx::WorkshopGain);
    let opts = &g.decision().unwrap().options;
    assert!(opts.contains(&Move::Select(Card::Silver)));
    assert!(!opts.contains(&Move::Select(Card::Gold)));
    play(&mut g, Move::Select(Card::Silver));
    assert_eq!(count(&g.state.players[0].discard, Card::Silver), 1);
}

// -------------------------------------------------------------- scoring

#[test]
fn gardens_scores_one_per_ten_cards() {
    let mut g = Game::new(&king(&[Card::Gardens]), 2, 3).unwrap();
    let p = &mut g.state.players[0];
    p.deck.clear();
    p.hand.clear();
    p.discard.clear();
    p.play.clear();
    p.set_aside.clear();
    // 24 cards, two of them Gardens: 24/10 = 2 VP each.
    p.deck = vec![Card::Copper; 22];
    p.deck.push(Card::Gardens);
    p.deck.push(Card::Gardens);
    assert_eq!(p.total_cards(), 24);
    assert_eq!(p.score(), 4);

    g.state.players[0].deck.push(Card::Copper); // 25 cards, still 2 each
    assert_eq!(g.state.players[0].score(), 4);
    for _ in 0..5 {
        g.state.players[0].deck.push(Card::Copper); // 30 cards -> 3 each
    }
    assert_eq!(g.state.players[0].score(), 6);
}

#[test]
fn curses_and_provinces_score_correctly() {
    let mut g = Game::new(&king(&[Card::Cellar]), 2, 3).unwrap();
    let p = &mut g.state.players[0];
    p.deck.clear();
    p.hand.clear();
    p.discard.clear();
    p.play.clear();
    p.deck = vec![Card::Province, Card::Province, Card::Duchy, Card::Estate, Card::Curse, Card::Curse];
    assert_eq!(p.score(), 6 + 6 + 3 + 1 - 1 - 1);
}
