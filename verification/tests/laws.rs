//! The library's promises on concrete values: logs read back what was
//! written, names parse forgivingly, winners break ties by turns, kingdoms
//! are legal, and setups are refused with the reason.

use dominion::card::{is_kingdom_card, kingdom_cards, Card, CardCounts};
use dominion::engine::{EngineError, Game};
use dominion::log::{GameLog, LogError};
use dominion::match_runner::Kingdoms;
use dominion::rng::Rng;
use dominion::selfplay::seed_from_tag;
use dominion::state::Move;

use dominion::card::Card::{Cellar, Chapel, Copper, CouncilRoom, Estate, Gold, Militia, Province, Smithy, ThroneRoom, Witch};

fn king(wanted: &[Card]) -> Vec<Card> {
    let mut k: Vec<Card> = wanted.to_vec();
    for &c in kingdom_cards().iter() {
        if k.len() == 10 {
            break;
        }
        if !k.contains(&c) {
            k.push(c);
        }
    }
    k
}

#[test]
fn a_log_reads_back_what_was_written() {
    let log = GameLog {
        kingdom: king(&[ThroneRoom, CouncilRoom]),
        players: 3,
        seed: 123456789,
        moves: vec![Move::Play(Copper), Move::Buy(ThroneRoom), Move::Select(Estate), Move::Done],
    };
    let text = log.to_text();
    let back = GameLog::from_text(&text).unwrap();
    assert_eq!(back.kingdom, log.kingdom);
    assert_eq!(back.players, 3);
    assert_eq!(back.seed, 123456789);
    assert_eq!(back.moves, log.moves);
}

#[test]
fn card_names_parse_whatever_their_case_and_spacing() {
    assert_eq!(Card::parse("Throne Room"), Some(ThroneRoom));
    assert_eq!(Card::parse("THRONE ROOM"), Some(ThroneRoom));
    assert_eq!(Card::parse("throneroom"), Some(ThroneRoom));
    assert_eq!(Card::parse("council-room"), Some(CouncilRoom));
    assert_eq!(Card::parse("copper"), Some(Copper));
    assert_eq!(Card::parse("Platinum"), None);
    assert_eq!(Card::parse(""), None);
    for c in dominion::card::all_cards() {
        assert_eq!(Card::parse(c.name()), Some(c));
    }
}

#[test]
fn ties_are_broken_by_fewer_turns_in_the_winners() {
    let mut g = Game::new(&king(&[Cellar]), 2, 3).unwrap();
    for p in g.state.players.iter_mut() {
        p.deck.clear();
        p.hand.clear();
        p.discard.clear();
        p.play.clear();
        p.deck = vec![Province];
    }
    g.state.players[0].turns = 10;
    g.state.players[1].turns = 9;
    assert_eq!(g.state.winners(), vec![1]);
    g.state.players[1].turns = 10;
    assert_eq!(g.state.winners(), vec![0, 1], "equal turns is a real tie");
    g.state.players[0].deck.push(Estate);
    assert_eq!(g.state.winners(), vec![0], "points come before turns");
}

#[test]
fn random_kingdoms_are_legal() {
    for seed in 0..50 {
        let k = Game::random_kingdom(&mut Rng::new(seed));
        assert_eq!(k.len(), 10);
        assert!(k.iter().all(|c| is_kingdom_card(*c)));
        assert!(k.windows(2).all(|w| w[0].idx() < w[1].idx()));
        assert!(Game::new(&k, 2, seed).is_ok());
    }
}

#[test]
fn required_cards_are_always_in_the_kingdom() {
    let ways = Kingdoms::RandomWith(vec![Witch, Chapel, Witch, Militia]);
    for seed in 0..30 {
        let k = ways.pick(&mut Rng::new(seed));
        assert_eq!(k.len(), 10);
        assert!(k.contains(&Witch) && k.contains(&Chapel) && k.contains(&Militia));
        assert!(Game::new(&k, 2, 1).is_ok());
    }
    let fixed = king(&[Smithy]);
    assert_eq!(Kingdoms::Fixed(fixed.clone()).pick(&mut Rng::new(1)), fixed);
}

#[test]
fn refused_setups_say_why() {
    let msg = |r: Result<Game, EngineError>| match r {
        Err(EngineError::BadKingdom(m)) => m,
        _ => panic!("setup should be refused"),
    };
    assert_eq!(msg(Game::new(&king(&[Smithy])[..9], 2, 1)), "expected 10 cards, got 9");
    let mut dup = king(&[Smithy]);
    dup[9] = dup[0];
    assert_eq!(msg(Game::new(&dup, 2, 1)), "duplicate cards");
    let mut basic = king(&[Smithy]);
    basic[9] = Gold;
    assert_eq!(msg(Game::new(&basic, 2, 1)), "Gold is not a kingdom card");
    assert_eq!(msg(Game::new(&king(&[Smithy]), 5, 1)), "unsupported player count 5");
    assert_eq!(msg(Game::new(&king(&[Smithy]), 1, 1)), "unsupported player count 1");
    assert!(Game::new(&king(&[Smithy]), 4, 1).is_ok());
}

#[test]
fn a_log_with_an_illegal_move_is_reported_where_it_diverges() {
    let mut log = GameLog::new(king(&[Smithy]), 2, 7);
    log.moves = vec![Move::Buy(Province)];
    match log.replay() {
        Err(LogError::Diverged { at, mv }) => {
            assert_eq!(at, 0);
            assert_eq!(mv, Move::Buy(Province));
        }
        _ => panic!("the move cannot be legal on the first decision"),
    }
}

#[test]
fn card_counts_add_up() {
    let mut c = CardCounts::from_slice(&[Copper, Copper, Estate]);
    assert_eq!(c.get(Copper), 2);
    assert_eq!(c.get(Estate), 1);
    assert_eq!(c.get(Gold), 0);
    c.add(Gold, 3);
    assert_eq!(c.get(Gold), 3);
    assert_eq!(c.total(), 6);
    assert_eq!(CardCounts::new().total(), 0);
}

#[test]
fn tags_hash_with_fnv1a() {
    assert_eq!(seed_from_tag(""), 0xcbf2_9ce4_8422_2325);
    assert_eq!(seed_from_tag("a"), 0xaf63_dc4c_8601_ec8c);
}

#[test]
fn move_indices_round_trip() {
    for i in 0..100 {
        let m = Move::from_index(i).unwrap();
        assert_eq!(m.index(), i);
    }
    assert_eq!(Move::from_index(100), None);
    assert_eq!(Move::Done.index(), 99);
    assert_eq!(Move::Buy(Copper).index(), 33);
}

#[test]
fn log_errors_read_as_sentences() {
    assert_eq!(LogError::Parse("no kingdom line".to_string()).message(), "parse error: no kingdom line");
    assert_eq!(
        LogError::Diverged { at: 3, mv: Move::Buy(Gold) }.message(),
        "move 3 (buy Gold) is not legal at that point"
    );
    assert_eq!(LogError::Engine(EngineError::NoPendingDecision).message(), "no decision is pending");
}

#[test]
fn an_empty_deck_summary_counts_nothing() {
    let st = dominion::policy::DeckStats::default();
    assert_eq!(st.total, 0);
    assert!(st.owned.iter().all(|n| *n == 0));
    assert_eq!((st.terminals, st.villages, st.coin_value, st.under_attack), (0, 0, 0, false));
}

/// The heuristic always picks one of the offered moves or declines, and a
/// decision never offers the same move twice.
#[test]
fn the_heuristic_picks_an_offered_move() {
    let mut rng = Rng::new(17);
    for round in 0..6u64 {
        let kingdom = Game::random_kingdom(&mut rng);
        let mut g = Game::new(&kingdom, 2, round).unwrap();
        let mut steps = 0;
        while !g.is_over() && steps < 3000 {
            let d = g.decision().unwrap().clone();
            for i in 0..d.options.len() {
                for j in (i + 1)..d.options.len() {
                    assert_ne!(d.options[i], d.options[j]);
                }
            }
            let mv = dominion::policy::default_move(&g.state, &d);
            assert!(mv == Move::Done || d.options.contains(&mv));
            if g.apply(mv).is_err() {
                g.apply(d.options[0]).unwrap();
            }
            steps += 1;
        }
    }
}

/// A new game deals each player five cards from ten starting cards, and the
/// first decision is the first player's buy phase.
#[test]
fn a_new_game_waits_on_the_first_buy_phase() {
    let g = Game::new(&king(&[Smithy]), 3, 9).unwrap();
    for p in 0..3 {
        assert_eq!(g.state.players[p].total_cards(), 10);
        assert_eq!(g.state.players[p].hand.len(), 5);
        assert_eq!(g.state.players[p].count_owned(Copper), 7);
        assert_eq!(g.state.players[p].count_owned(Estate), 3);
    }
    assert_eq!(g.state.supply_of(Copper), 60 - 21);
    assert_eq!(g.state.supply_of(Province), 12);
    let d = g.decision().unwrap();
    assert_eq!(d.player, 0);
    assert_eq!(d.ctx, dominion::state::Ctx::BuyPhase);
    assert_eq!(g.state.players[0].turns, 1);
}

/// The default move is the heuristic with gains ranked by the default
/// preference, and every position reached waits exactly while the game is
/// not over on a decision of two or more distinct moves for a seated player.
#[test]
fn the_default_move_ranks_gains_by_the_default_preference() {
    let kingdom = Game::random_kingdom(&mut Rng::new(3));
    let mut g = Game::new(&kingdom, 3, 11).unwrap();
    let mut steps = 0;
    while !g.is_over() && steps < 400 {
        let d = g.decision().unwrap().clone();
        assert!(d.options.len() >= 2);
        assert!(d.player < g.state.players.len());
        let a = dominion::policy::default_move(&g.state, &d);
        let b = dominion::policy::default_move_with(&g.state, &d, &dominion::policy::GainPreference);
        assert_eq!(a, b);
        let mv = if d.options.contains(&a) { a } else { d.options[0] };
        g.apply(mv).unwrap();
        steps += 1;
    }
    assert_eq!(g.decision().is_some(), !g.is_over());
}

/// One seed always gives one generator, and different seeds different ones.
#[test]
fn seeds_and_generators_correspond_one_to_one() {
    for seed in [0u64, 1, 2, 42, u64::MAX] {
        let mut a = Rng::new(seed);
        let mut b = Rng::new(seed);
        for _ in 0..8 {
            assert_eq!(a.next_u64(), b.next_u64());
        }
    }
    let firsts: Vec<u64> = (0..64u64).map(|s| Rng::new(s).next_u64()).collect();
    for i in 0..firsts.len() {
        for j in (i + 1)..firsts.len() {
            assert_ne!(firsts[i], firsts[j]);
        }
    }
}
