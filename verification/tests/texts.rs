//! What the front ends show: prompts, labels, piles counted, JSON fragments,
//! the kingdom a player's picks make, and advice put in order.

use dominion::advise::{advice_from_search, position_to_advise, rank_visits};
use dominion::card::{is_kingdom_card, kingdom_cards, Card};
use dominion::engine::Game;
use dominion::log::{GameLog, LogError, RecordedGame};
use dominion::play::{option_line, position_text_of, prompt_for, read_choice, retry_prompt, tally, verdict, Choice};
use dominion::rng::Rng;
use dominion::state::{Ctx, Move};
use dominion::web::{cards_json, ctx_label, esc, kingdom_from_picks, move_json, pin_card, state_json};

use dominion::card::Card::{Bureaucrat, Chapel, Copper, Curse, Estate, Festival, Gold, Laboratory, Market, Province, Silver, Smithy, ThroneRoom, Witch};

#[test]
fn a_pile_is_tallied_cheapest_first() {
    let mut deck = vec![Copper; 7];
    deck.extend([Estate, Estate, Estate]);
    assert_eq!(tally(&deck), "Copper x7, Estate x3");
    assert_eq!(tally(&[Gold, Curse, Copper, Copper, Province, Estate]), "Copper x2, Curse, Estate, Gold, Province");
    assert_eq!(tally(&[]), "");
    assert_eq!(tally(&[Smithy]), "Smithy");
}

#[test]
fn equal_costs_are_ordered_by_name() {
    assert_eq!(tally(&[Witch, Market, Festival, Laboratory]), "Festival, Laboratory, Market, Witch");
    assert_eq!(tally(&[ThroneRoom, Smithy, Bureaucrat]), "Bureaucrat, Smithy, Throne Room");
}

#[test]
fn a_pile_as_json_is_grouped_and_counted() {
    assert_eq!(
        cards_json(&[Gold, Copper, Estate, Copper, Curse]),
        "[{\"card\":\"Copper\",\"n\":2},{\"card\":\"Curse\",\"n\":1},{\"card\":\"Estate\",\"n\":1},{\"card\":\"Gold\",\"n\":1}]"
    );
    assert_eq!(cards_json(&[]), "[]");
}

#[test]
fn json_strings_are_escaped() {
    assert_eq!(esc("a\"b\\c"), "a\\\"b\\\\c");
    assert_eq!(esc("plain"), "plain");
    assert_eq!(esc(""), "");
}

#[test]
fn moves_become_json_objects() {
    assert_eq!(move_json(&Move::Done), "{\"kind\":\"done\",\"card\":null,\"cost\":0,\"label\":\"Done\"}");
    assert_eq!(
        move_json(&Move::Buy(Silver)),
        "{\"kind\":\"buy\",\"card\":\"Silver\",\"cost\":3,\"label\":\"buy Silver\"}"
    );
    assert_eq!(
        move_json(&Move::Select(ThroneRoom)),
        "{\"kind\":\"pick\",\"card\":\"Throne Room\",\"cost\":4,\"label\":\"pick Throne Room\"}"
    );
    assert_eq!(
        move_json(&Move::Play(Copper)),
        "{\"kind\":\"play\",\"card\":\"Copper\",\"cost\":0,\"label\":\"play Copper\"}"
    );
}

#[test]
fn decisions_have_labels_and_prompts() {
    assert_eq!(ctx_label(Ctx::BuyPhase), "Play a Treasure, buy a card, or end your turn");
    assert_eq!(ctx_label(Ctx::MilitiaDiscard), "Militia: discard down to 3 cards");
    assert_eq!(prompt_for(Ctx::ChapelTrash), "\n>> Chapel: trash up to 4 cards");
    assert_eq!(prompt_for(Ctx::ActionPhase), "\n>> play an Action, or end the phase");
}

fn is_canonical_kingdom(k: &[Card]) -> bool {
    k.len() == 10
        && k.iter().all(|c| is_kingdom_card(*c))
        && k.windows(2).all(|w| w[0].idx() < w[1].idx())
}

#[test]
fn pinned_cards_are_kept_and_the_rest_is_random() {
    let k = kingdom_from_picks(&[Witch, Chapel, Witch], &mut Rng::new(5));
    assert!(is_canonical_kingdom(&k), "{k:?}");
    assert!(k.contains(&Witch) && k.contains(&Chapel));

    // The fill is the same shuffle as a match's kingdom built around the
    // same cards.
    let again = kingdom_from_picks(&[Chapel, Witch], &mut Rng::new(5));
    assert_eq!(k, again);
}

#[test]
fn only_the_first_ten_distinct_picks_count() {
    let pool = kingdom_cards();
    let mut picks: Vec<Card> = pool[..12].to_vec();
    picks.insert(3, pool[0]);
    let k = kingdom_from_picks(&picks, &mut Rng::new(9));
    let mut want: Vec<Card> = pool[..10].to_vec();
    want.sort_by_key(|c| c.idx());
    assert_eq!(k, want);
}

#[test]
fn no_picks_gives_a_random_kingdom() {
    for seed in 0..20 {
        let k = kingdom_from_picks(&[], &mut Rng::new(seed));
        assert!(is_canonical_kingdom(&k), "{k:?}");
    }
}

#[test]
fn visits_are_ranked_highest_first_keeping_ties_in_order() {
    let v = vec![(Move::Done, 3), (Move::Buy(Silver), 5), (Move::Buy(Gold), 3), (Move::Play(Copper), 7)];
    assert_eq!(
        rank_visits(&v),
        vec![(Move::Play(Copper), 7), (Move::Buy(Silver), 5), (Move::Done, 3), (Move::Buy(Gold), 3)]
    );
    assert_eq!(rank_visits(&vec![]), vec![]);
}

#[test]
fn advice_is_given_at_the_position_a_log_reaches() {
    let kingdom = Game::random_kingdom(&mut Rng::new(3));
    let mut rec = RecordedGame::new(&kingdom, 2, 11).unwrap();
    for _ in 0..6 {
        let d = rec.game.decision().unwrap().clone();
        rec.apply(d.options[0]).unwrap();
    }
    let (game, d) = position_to_advise(&rec.log, Some(3)).unwrap();
    assert_eq!(game.decision().unwrap().options, d.options);
    let (game6, d6) = position_to_advise(&rec.log, None).unwrap();
    assert_eq!(rec.game.decision().unwrap().options, d6.options);

    let advice = advice_from_search(&game6.state, &d6, d6.options[0], &vec![(d6.options[0], 2), (Move::Done, 9)]);
    assert_eq!(advice.best, d6.options[0]);
    assert_eq!(advice.visits[0], (Move::Done, 9));
    assert_eq!(advice.turn, game6.state.players[d6.player].turns);
    assert_eq!(advice.decision.ctx, d6.ctx);
    let _ = game;
}

#[test]
fn a_finished_game_has_nothing_to_decide() {
    let kingdom = Game::random_kingdom(&mut Rng::new(2));
    let mut rec = RecordedGame::new(&kingdom, 2, 5).unwrap();
    while !rec.game.is_over() {
        let d = rec.game.decision().unwrap().clone();
        let mv = *d
            .options
            .iter()
            .find(|m| matches!(m, Move::Play(c) if c.is_treasure()))
            .or_else(|| d.options.iter().find(|m| **m == Move::Buy(Province)))
            .or_else(|| d.options.iter().find(|m| **m == Move::Buy(Gold)))
            .or_else(|| d.options.iter().find(|m| **m == Move::Buy(Silver)))
            .unwrap_or(&Move::Done);
        rec.apply(mv).unwrap();
    }
    match position_to_advise(&rec.log, None) {
        Err(LogError::Parse(m)) => assert_eq!(m, "the game is already over; there is nothing to decide"),
        _ => panic!("a finished game must be refused"),
    }
    let bad = GameLog::new(vec![Copper], 2, 1);
    assert!(matches!(position_to_advise(&bad, None), Err(LogError::Engine(_))));
}

#[test]
fn the_terminal_shows_the_position() {
    let kingdom = Game::random_kingdom(&mut Rng::new(1));
    let g = Game::new(&kingdom, 2, 1).unwrap();
    let d = g.decision().unwrap().clone();
    let text = position_text_of(&g.state, 0, d.ctx);
    let rule = "-".repeat(66);
    assert!(text.starts_with(&format!("\n{rule}\nsupply: Copper($0) 46  Silver($3) 40  Gold($6) 30  Estate($2) 8")), "{text}");
    assert!(text.contains("\nyou:  10 cards, 3 VP   |   AI: 10 cards, 3 VP\n"), "{text}");
    assert!(text.contains("all your cards: Copper x7, Estate x3\nall AI cards:   Copper x7, Estate x3\nyour hand: "), "{text}");
    assert!(!text.contains("pile(s) empty"));
    assert!(!text.contains("in play:"));
    assert!(text.ends_with(&format!("{}\n", prompt_for(d.ctx))), "{text}");
}

#[test]
fn typed_choices_are_read_forgivingly() {
    assert_eq!(read_choice(" 2 \n", 3), Choice::Pick(2));
    assert_eq!(read_choice("+1", 3), Choice::Pick(1));
    assert_eq!(read_choice("3", 3), Choice::Retry);
    assert_eq!(read_choice("abc", 3), Choice::Retry);
    assert_eq!(read_choice("", 3), Choice::Retry);
    assert_eq!(read_choice("q", 3), Choice::Resign);
    assert_eq!(read_choice("  resign\n", 3), Choice::Resign);
    assert_eq!(read_choice("quit", 3), Choice::Resign);
    assert_eq!(read_choice("?", 3), Choice::Reprint);
    assert_eq!(retry_prompt(3), "  \u{2014} type a number from 0 to 2, or ? / q");
    assert_eq!(option_line(4, Move::Buy(Gold)), "  4) buy Gold  ($6)");
    assert_eq!(option_line(0, Move::Done), "  0) done");
    assert_eq!(option_line(12, Move::Play(Smithy)), "  12) play Smithy");
}

#[test]
fn the_verdict_follows_the_winners() {
    let kingdom = Game::random_kingdom(&mut Rng::new(1));
    let mut g = Game::new(&kingdom, 2, 3).unwrap();
    for p in g.state.players.iter_mut() {
        p.deck = vec![Province];
        p.hand.clear();
        p.discard.clear();
        p.play.clear();
        p.turns = 10;
    }
    assert_eq!(verdict(&g.state, 0), "a tie.");
    g.state.players[1].turns = 9;
    assert_eq!(verdict(&g.state, 0), "the AI wins.");
    assert_eq!(verdict(&g.state, 1), "you win.");
}

#[test]
fn the_browser_gets_the_whole_state_as_json() {
    let kingdom = Game::random_kingdom(&mut Rng::new(1));
    let mut g = Game::new(&kingdom, 2, 1).unwrap();
    let d = g.decision().unwrap().clone();
    let log = vec!["AI: buy \"Silver\"".to_string(), "AI: done".to_string()];
    let json = state_json(&g.state, 1, &log, 3);
    assert!(json.starts_with(&format!("{{\"over\":false,\"human\":1,\"toMove\":{},\"prompt\":\"{}\",\"options\":[", d.player, ctx_label(d.ctx))), "{json}");
    assert!(json.contains("\"supply\":[{\"card\":\"Copper\",\"cost\":0,\"left\":46},{\"card\":\"Silver\",\"cost\":3,\"left\":40}"), "{json}");
    assert!(json.contains("\"emptyPiles\":0,\"you\":{\"hand\":"), "{json}");
    assert!(json.contains("\"all\":[{\"card\":\"Copper\",\"n\":7},{\"card\":\"Estate\",\"n\":3}]"), "{json}");
    assert!(json.contains("\"vp\":3,\"cards\":10},\"ai\":{\"all\":"), "{json}");
    assert!(json.ends_with("\"scores\":{\"you\":3,\"ai\":3},\"aiLog\":[\"AI: buy \\\"Silver\\\"\",\"AI: done\"],\"turns\":3}"), "{json}");

    g.state.over = true;
    let over = state_json(&g.state, 0, &vec![], 0);
    assert!(over.starts_with("{\"over\":true,\"human\":0,\"toMove\":-1,\"prompt\":\"\",\"options\":[],\"supply\":["), "{over}");
    assert!(over.ends_with("\"aiLog\":[],\"turns\":0}"), "{over}");
}

#[test]
fn pinning_takes_kingdom_cards_once_and_at_most_ten() {
    let mut picks = Vec::new();
    assert!(pin_card(&mut picks, Witch.idx() as u32));
    assert_eq!(picks, vec![Witch]);
    assert!(pin_card(&mut picks, Witch.idx() as u32));
    assert_eq!(picks, vec![Witch], "pinned once");
    assert!(!pin_card(&mut picks, Gold.idx() as u32), "not a kingdom card");
    assert!(!pin_card(&mut picks, 99), "not a card");
    assert_eq!(picks, vec![Witch]);
    for c in kingdom_cards() {
        pin_card(&mut picks, c.idx() as u32);
    }
    assert_eq!(picks.len(), 10);
    assert_eq!(picks[0], Witch);
}
