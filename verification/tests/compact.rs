//! The compact self-play file: exact layout, round trips, damaged files and
//! records that no longer replay.

use dominion::card::Card;
use dominion::compact::{
    decode_game, encode_game, encode_games, magic_bytes, parse_games, replay_record, CompactError,
    GameRecord, RecordedDecision,
};
use dominion::engine::{EngineError, Game};
use dominion::rng::Rng;
use dominion::state::Move;

/// A money game played to the end, with a decision recorded every fifth ply.
fn money_record(kingdom_seed: u64, seed: u64) -> GameRecord {
    let kingdom = Game::random_kingdom(&mut Rng::new(kingdom_seed));
    let mut g = Game::new(&kingdom, 2, seed).unwrap();
    let mut moves = Vec::new();
    let mut decisions = Vec::new();
    let mut ply: u16 = 0;
    while !g.is_over() {
        let d = g.decision().unwrap().clone();
        let pick = |c: Card| d.options.iter().position(|m| *m == Move::Buy(c));
        let mv = if let Some(i) = d
            .options
            .iter()
            .position(|m| matches!(m, Move::Play(c) if c.is_treasure()))
        {
            d.options[i]
        } else if let Some(i) = pick(Card::Province)
            .or_else(|| pick(Card::Gold))
            .or_else(|| pick(Card::Silver))
        {
            d.options[i]
        } else {
            Move::Done
        };
        if ply % 5 == 0 {
            decisions.push(RecordedDecision {
                ply,
                policy: vec![(mv, 60000), (Move::Done, 5535)],
                outcome: 255,
                td_target: 40000,
            });
        }
        g.apply(mv).unwrap();
        moves.push(mv);
        ply += 1;
    }
    GameRecord { kingdom, players: 2, seed, moves, decisions }
}

fn file_of(games: &[GameRecord]) -> Vec<u8> {
    let mut bytes = magic_bytes();
    bytes.extend(encode_games(games));
    bytes
}

#[test]
fn garbage_is_rejected() {
    assert!(matches!(parse_games(&[1u8, 2, 3, 4, 5, 6]), Err(CompactError::NotACompactFile)));
}

#[test]
fn a_file_shorter_than_the_magic_is_truncated() {
    assert!(matches!(parse_games(&[0x6Cu8, 0x10]), Err(CompactError::Truncated)));
    assert!(matches!(parse_games(&[]), Err(CompactError::Truncated)));
}

#[test]
fn the_magic_number_is_little_endian() {
    assert_eq!(magic_bytes(), vec![0x6C, 0x10, 0xA1, 0xD0]);
    assert_eq!(parse_games(&magic_bytes()).unwrap(), Vec::<GameRecord>::new());
}

#[test]
fn the_layout_is_exactly_as_documented() {
    let rec = GameRecord {
        kingdom: vec![Card::Cellar],
        players: 2,
        seed: 0x0102_0304_0506_0708,
        moves: vec![Move::Done],
        decisions: vec![RecordedDecision {
            ply: 1,
            policy: vec![(Move::Done, 0x1234)],
            outcome: 255,
            td_target: 0xABCD,
        }],
    };
    let mut out = vec![9u8];
    encode_game(&rec, &mut out);
    assert_eq!(
        out,
        vec![
            9, // what was there before
            1, 7, // one kingdom card: Cellar
            2, // players
            8, 7, 6, 5, 4, 3, 2, 1, // seed
            1, 0, 0, 0, 99, // one move: Done
            1, 0, 0, 0, // one decision
            1, 0, 1, 99, 0x34, 0x12, 255, 0xCD, 0xAB,
        ]
    );
    let (back, end) = decode_game(&out, 1).unwrap();
    assert_eq!(back, rec);
    assert_eq!(end, out.len());
}

#[test]
fn records_round_trip_through_bytes() {
    let games: Vec<GameRecord> = (0..3).map(|i| money_record(1, i)).collect();
    let back = parse_games(&file_of(&games)).unwrap();
    assert_eq!(back, games);
}

#[test]
fn appending_in_two_batches_reads_as_one_file() {
    let games: Vec<GameRecord> = (0..3).map(|i| money_record(4, i)).collect();
    let mut bytes = magic_bytes();
    bytes.extend(encode_games(&games[..2]));
    bytes.extend(encode_games(&games[2..]));
    assert_eq!(bytes, file_of(&games));
    assert_eq!(parse_games(&bytes).unwrap().len(), 3);
}

#[test]
fn a_truncated_file_keeps_its_complete_games() {
    let games: Vec<GameRecord> = (0..3).map(|i| money_record(5, i)).collect();
    let full = file_of(&games);
    let back = parse_games(&full[..full.len() - 50]).unwrap();
    assert_eq!(back.len(), 2, "should keep the two complete games");
    assert_eq!(back[..], games[..2]);
}

#[test]
fn an_impossible_length_stops_the_read() {
    let mut bytes = magic_bytes();
    // A kingdom of 200 cards cannot exist.
    bytes.extend([200u8, 0, 0, 0]);
    assert_eq!(parse_games(&bytes).unwrap(), Vec::<GameRecord>::new());
    assert!(decode_game(&bytes, 4).is_none());
}

#[test]
fn a_record_replays_to_its_decisions() {
    let rec = money_record(8, 12);
    let positions = replay_record(&rec, 0).unwrap();
    assert_eq!(positions.len(), rec.decisions.len());
    for (state, d) in &positions {
        let pending = state.pending.as_ref().unwrap();
        assert_eq!(pending.player, d.player);
        assert_eq!(pending.ctx, d.ctx);
        assert_eq!(pending.options, d.options);
    }
}

#[test]
fn a_record_that_cannot_replay_is_rejected() {
    let mut rec = money_record(8, 12);
    rec.moves[4] = Move::Buy(Card::Province);
    match replay_record(&rec, 3) {
        Err(CompactError::ReplayDiverged { game, detail }) => {
            assert_eq!(game, 3);
            assert!(
                detail.starts_with("move buy Province at ply 4 was rejected: illegal move buy Province; legal: ["),
                "{detail}"
            );
        }
        other => panic!("expected a divergence, got {other:?}"),
    }

    let mut rec2 = money_record(8, 13);
    rec2.decisions.push(RecordedDecision { ply: 60000, policy: vec![(Move::Done, 65535)], outcome: 255, td_target: 65535 });
    match replay_record(&rec2, 0) {
        Err(CompactError::ReplayDiverged { detail, .. }) => {
            assert_eq!(detail, "recorded decisions past the end of the move list");
        }
        other => panic!("expected a divergence, got {other:?}"),
    }
}

#[test]
fn moves_past_the_end_of_the_game_are_rejected() {
    let mut rec = money_record(8, 14);
    let n = rec.moves.len();
    rec.moves.push(Move::Done);
    rec.moves.push(Move::Done);
    match replay_record(&rec, 0) {
        Err(CompactError::ReplayDiverged { detail, .. }) => {
            assert_eq!(detail, format!("game ended at ply {n}, 2 moves remained"));
        }
        other => panic!("expected a divergence, got {other:?}"),
    }
}

#[test]
fn a_bad_kingdom_cannot_replay() {
    let mut rec = money_record(8, 15);
    rec.kingdom.pop();
    match replay_record(&rec, 7) {
        Err(CompactError::ReplayDiverged { game, detail }) => {
            assert_eq!(game, 7);
            assert_eq!(detail, "bad kingdom: expected 10 cards, got 9");
        }
        other => panic!("expected a divergence, got {other:?}"),
    }
}

#[test]
fn out_of_order_plies_are_rejected() {
    let mut rec = money_record(8, 16);
    rec.decisions.swap(0, 1);
    assert!(replay_record(&rec, 0).is_err());
}

#[test]
fn compact_errors_read_as_sentences() {
    assert_eq!(CompactError::NotACompactFile.message(), "not a compact self-play file");
    assert_eq!(CompactError::Truncated.message(), "file ends mid-record");
    assert_eq!(CompactError::Malformed("no such file".to_string()).message(), "malformed record: no such file");
    assert_eq!(
        CompactError::ReplayDiverged { game: 12, detail: "x".to_string() }.message(),
        "game 12 did not replay as recorded (x) \u{2014} the engine and this data disagree, refusing to train on it"
    );
}

#[test]
fn engine_errors_read_as_sentences() {
    assert_eq!(EngineError::NoPendingDecision.message(), "no decision is pending");
    assert_eq!(
        EngineError::IllegalMove { got: Move::Buy(Card::Province), legal: vec![Move::Play(Card::ThroneRoom), Move::Done] }
            .message(),
        "illegal move buy Province; legal: [Play(ThroneRoom), Done]"
    );
    assert_eq!(
        EngineError::IllegalMove { got: Move::Done, legal: vec![] }.message(),
        "illegal move done; legal: []"
    );
    assert_eq!(EngineError::BadKingdom("duplicate cards".to_string()).message(), "bad kingdom: duplicate cards");
}
