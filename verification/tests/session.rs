//! A browser game: moves by index, undo, the AI's moves and the views the
//! page polls.

use dominion::card::Card::{Chapel, Gold, Witch};
use dominion::log::GameLog;
use dominion::session::Session;
use dominion::state::{Ctx, Move};

fn new_session() -> Session {
    Session::start(&[Witch, Chapel], 7, true).expect("kingdom cards only")
}

#[test]
fn a_session_starts_with_the_pinned_cards() {
    let s = new_session();
    assert_eq!(s.human, 0);
    assert!(s.kingdom.contains(&Witch) && s.kingdom.contains(&Chapel));
    assert_eq!(s.kingdom.len(), 10);
    assert!(s.history.is_empty() && s.undo.is_empty() && s.last_ai.is_empty());
    assert!(!s.is_over());
    assert!(Session::start(&[Gold], 7, true).is_none(), "Gold is not a kingdom card");
    assert_eq!(Session::start(&[], 7, false).unwrap().human, 1);
}

#[test]
fn a_stale_index_changes_nothing() {
    let mut s = new_session();
    let n = s.game.decision().unwrap().options.len();
    assert!(!s.apply_index(n));
    assert!(s.history.is_empty());
    assert_eq!(s.undo_depth(), 0);
}

#[test]
fn undo_takes_back_a_move_and_the_shuffle_with_it() {
    let mut s = new_session();
    assert!(s.human_to_move());
    let before = s.game.state.clone();
    assert!(s.apply_index(0));
    assert_eq!(s.history.len(), 1);
    assert_eq!(s.undo_depth(), 1);
    assert!(s.undo());
    assert_eq!(s.undo_depth(), 0);
    assert!(s.history.is_empty());
    assert_eq!(s.game.state.players[0].hand, before.players[0].hand);
    assert_eq!(s.game.state.players[0].deck, before.players[0].deck);
    assert_eq!(s.game.state.pending, before.pending);
    assert_eq!(s.game.state.rng, before.rng);
    assert!(!s.undo(), "nothing left to take back");
}

#[test]
fn treasures_are_played_as_one_undoable_batch() {
    let mut s = new_session();
    let d = s.game.decision().unwrap().clone();
    assert_eq!(d.ctx, Ctx::BuyPhase);
    let treasures = s.game.state.players[0].hand.iter().filter(|c| c.is_treasure()).count();
    let played = s.play_all_treasures();
    assert_eq!(played as usize, treasures);
    assert_eq!(s.history.len(), treasures);
    assert!(s.history.iter().all(|(p, m)| *p == 0 && matches!(m, Move::Play(c) if c.is_treasure())));
    assert_eq!(s.undo_depth(), 1);
    assert_eq!(s.play_all_treasures(), 0, "nothing left to play");
    assert!(s.undo());
    assert!(s.history.is_empty());
    assert_eq!(s.game.state.players[0].hand, d_hand(&new_session()));
}

fn d_hand(s: &Session) -> Vec<dominion::card::Card> {
    s.game.state.players[0].hand.clone()
}

#[test]
fn the_ai_moves_only_on_its_turn_and_is_narrated() {
    let mut s = new_session();
    assert!(s.ai_decision().is_none());
    assert!(!s.record_ai_move(Move::Done));
    s.play_all_treasures();
    // End the human's turn.
    let d = s.game.decision().unwrap().clone();
    let done = d.options.iter().position(|m| *m == Move::Done).unwrap();
    assert!(s.apply_index(done));
    let d = s.ai_decision().expect("the AI is to move");
    assert_ne!(d.player, s.human);
    assert!(!s.human_to_move());
    let mv = d.options[0];
    assert!(s.record_ai_move(mv));
    assert_eq!(s.history.last(), Some(&(1, mv)));
    if d.options.len() > 1 {
        assert_eq!(s.last_ai, vec![dominion::log::move_to_text(mv)]);
    }
    s.clear_log();
    assert!(s.last_ai.is_empty());
}

#[test]
fn the_history_and_the_log_describe_the_game() {
    let mut s = new_session();
    s.play_all_treasures();
    let json = s.history_json();
    assert!(json.starts_with("[{\"you\":true,\"label\":\"play Copper\"}"), "{json}");
    assert!(json.ends_with("}]"));
    assert_eq!(Session::start(&[], 1, true).unwrap().history_json(), "[]");

    let log = GameLog::from_text(&s.log_text()).unwrap();
    assert_eq!(log.kingdom, s.kingdom);
    assert_eq!(log.seed, 7);
    assert_eq!(log.players, 2);
    let moves: Vec<Move> = s.history.iter().map(|(_, m)| *m).collect();
    assert_eq!(log.moves, moves);
    let replayed = log.replay().unwrap();
    assert_eq!(replayed.state.players[0].hand, s.game.state.players[0].hand);

    let state = s.state_json();
    assert!(state.starts_with("{\"over\":false,\"human\":0,\"toMove\":0,"), "{state}");
}
