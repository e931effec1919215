//! The move restriction applied before search: it keeps only moves the
//! decision offered, collapses Treasure plays to one, and never hands the
//! search a Curse buy.

use dominion::card::Card;
use dominion::engine::Game;
use dominion::prior;
use dominion::rng::Rng;
use dominion::state::{Ctx, Move};

/// Playing a Treasure is never a mistake in the Base set, and the order cannot
/// matter, so the buy phase should collapse to a single forced move until the
/// treasures are gone. This is what frees the search budget for real choices.
#[test]
fn treasure_plays_are_collapsed_to_one_option() {
    let kingdom = Game::random_kingdom(&mut Rng::new(2));
    let mut g = Game::new(&kingdom, 2, 4).unwrap();
    let mut saw_collapse = false;
    let mut steps = 0;
    while !g.is_over() && steps < 400 {
        let d = g.decision().unwrap().clone();
        if d.ctx == Ctx::BuyPhase {
            let opts = prior::restrict(&g.state, &d);
            let has_treasure = d
                .options
                .iter()
                .any(|m| matches!(m, Move::Play(c) if c.is_treasure()));
            if has_treasure {
                assert_eq!(opts.len(), 1, "treasure plays should collapse");
                assert!(matches!(opts[0], Move::Play(c) if c.is_treasure()));
                saw_collapse = true;
            }
        }
        let mv = prior::restrict(&g.state, &d)[0];
        g.apply(mv).unwrap();
        steps += 1;
    }
    assert!(saw_collapse, "never reached a buy phase holding a Treasure");
}

/// Curses are never worth buying in the Base set, so they should not reach the
/// search at all.
#[test]
fn buying_a_curse_is_never_offered_to_the_search() {
    let mut rng = Rng::new(5);
    let kingdom = Game::random_kingdom(&mut rng);
    let mut g = Game::new(&kingdom, 2, 9).unwrap();
    while !g.is_over() {
        let d = g.decision().unwrap().clone();
        let opts = prior::restrict(&g.state, &d);
        assert!(!opts.contains(&Move::Buy(Card::Curse)));
        let mv = opts[rng.below(opts.len() as u64) as usize];
        g.apply(mv).unwrap();
    }
}

/// The restriction never leaves the search without a move, and never offers
/// one the decision did not.
#[test]
fn restriction_never_empties_the_move_set() {
    let mut rng = Rng::new(88);
    for round in 0..15u64 {
        let kingdom = Game::random_kingdom(&mut rng);
        let mut g = Game::new(&kingdom, 2, round).unwrap();
        while !g.is_over() {
            let d = g.decision().unwrap().clone();
            let opts = prior::restrict(&g.state, &d);
            assert!(!opts.is_empty(), "restriction removed every option");
            for m in &opts {
                assert!(d.options.contains(m), "restriction invented move {:?}", m);
            }
            let mv = opts[rng.below(opts.len() as u64) as usize];
            g.apply(mv).unwrap();
        }
    }
}
