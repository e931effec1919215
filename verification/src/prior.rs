//! Domain-safe move restriction before search.
//!
//! Playing a Treasure during the buy phase is never a mistake in the Base
//! set: no Treasure has a downside, no card cares how much money is unspent,
//! and the order Treasures are played in cannot matter. So when a Treasure can
//! be played, playing one is at least as good as anything else.

use vstd::prelude::*;
use crate::card::Card;
use crate::state::{Ctx, Decision, GameState, Move};

verus! {

/// The first option that plays a Treasure.
pub open spec fn first_treasure_play(opts: Seq<Move>) -> Option<Move>
    decreases opts.len(),
{
    if opts.len() == 0 {
        None
    } else {
        match first_treasure_play(opts.drop_last()) {
            Some(m) => Some(m),
            None => match opts.last() {
                Move::Play(c) => if c.spec_is_treasure() { Some(opts.last()) } else { None },
                _ => None,
            },
        }
    }
}

/// Whether an option survives restriction: never buy a Curse, and buy
/// Copper only when Gardens is in the game.
pub open spec fn kept(s: GameState, m: Move) -> bool {
    match m {
        Move::Buy(Card::Curse) => false,
        Move::Buy(Card::Copper) => s.in_supply@[Card::Gardens.spec_idx() as int],
        _ => true,
    }
}

/// The options worth searching: in the buy phase with a Treasure to play,
/// just the first such play; otherwise the options without Curse buys (and
/// Copper buys unless Gardens is in the game), or all options if that would
/// leave none.
pub open spec fn restricted(s: GameState, d: Decision) -> Seq<Move> {
    let opts = d.options@;
    if d.ctx == Ctx::BuyPhase && first_treasure_play(opts) is Some {
        seq![first_treasure_play(opts)->0]
    } else {
        let f = opts.filter(|m: Move| kept(s, m));
        if f.len() == 0 { opts } else { f }
    }
}

/// Once a prefix holds a Treasure play, the first of all is its.
proof fn lemma_first_treasure_prefix(s: Seq<Move>, k: int)
    requires
        0 <= k <= s.len(),
        first_treasure_play(s.take(k)) is Some,
    ensures
        first_treasure_play(s) == first_treasure_play(s.take(k)),
    decreases s.len() - k,
{
    if k < s.len() {
        assert(s.take(k + 1).drop_last() =~= s.take(k));
        lemma_first_treasure_prefix(s, k + 1);
    } else {
        assert(s.take(k) =~= s);
    }
}

/// The first Treasure play among the options, if any.
pub(crate) fn find_treasure_play(opts: &Vec<Move>) -> (r: Option<Move>)
    ensures
        r == first_treasure_play(opts@),
{
    let mut i: usize = 0;
    while i < opts.len()
        invariant
            i <= opts@.len(),
            first_treasure_play(opts@.take(i as int)) is None,
        decreases opts@.len() - i,
    {
        assert(opts@.take((i + 1) as int).drop_last() =~= opts@.take(i as int));
        if let Move::Play(c) = opts[i] {
            if c.is_treasure() {
                proof {
                    lemma_first_treasure_prefix(opts@, (i + 1) as int);
                }
                return Some(opts[i]);
            }
        }
        i = i + 1;
    }
    assert(opts@.take(opts@.len() as int) =~= opts@);
    None
}

/// A first Treasure play is one of the options and plays a Treasure.
pub(crate) proof fn lemma_first_treasure_is_option(s: Seq<Move>)
    ensures
        first_treasure_play(s) matches Some(m) ==> s.contains(m) && (m matches Move::Play(c) && c.spec_is_treasure()),
    decreases s.len(),
{
    if s.len() > 0 {
        lemma_first_treasure_is_option(s.drop_last());
        if let Some(m) = first_treasure_play(s.drop_last()) {
            let i = choose|i: int| 0 <= i < s.drop_last().len() && s.drop_last()[i] == m;
            assert(s[i] == m);
        } else if first_treasure_play(s) is Some {
            assert(s[s.len() - 1] == s.last());
        }
    }
}

/// Some option plays a Treasure.
pub open spec fn offers_treasure_play(opts: Seq<Move>) -> bool {
    exists|i: int| 0 <= i < opts.len() && (#[trigger] opts[i] matches Move::Play(c) && c.spec_is_treasure())
}

/// A Treasure play among the options is found.
proof fn lemma_treasure_play_found(s: Seq<Move>, i: int)
    requires
        0 <= i < s.len(),
        s[i] matches Move::Play(c) && c.spec_is_treasure(),
    ensures
        first_treasure_play(s) is Some,
    decreases s.len(),
{
    if i < s.len() - 1 {
        assert(s.drop_last()[i] == s[i]);
        lemma_treasure_play_found(s.drop_last(), i);
    } else {
        assert(s.last() == s[i]);
    }
}

/// What restriction keeps. Nothing new is added. In the buy phase, when a
/// Treasure can be played, exactly one Treasure play is kept. Otherwise every
/// option is kept except Curse buys, and Copper buys unless Gardens is in the
/// supply; those are cut whenever any other option remains, and when nothing
/// else remains all options are kept.
pub proof fn lemma_restrict_rules(s: GameState, d: Decision, m: Move)
    ensures
        restricted(s, d).contains(m) ==> d.options@.contains(m),
        d.ctx == Ctx::BuyPhase && offers_treasure_play(d.options@) ==> restricted(s, d).len() == 1
            && (restricted(s, d)[0] matches Move::Play(c) && c.spec_is_treasure()),
        !(d.ctx == Ctx::BuyPhase && offers_treasure_play(d.options@)) && d.options@.contains(m) && m
            != Move::Buy(Card::Curse) && m != Move::Buy(Card::Copper) ==> restricted(s, d).contains(m),
        !(d.ctx == Ctx::BuyPhase && offers_treasure_play(d.options@)) && d.options@.contains(Move::Buy(Card::Copper))
            && s.in_supply@[Card::Gardens.spec_idx() as int] ==> restricted(s, d).contains(Move::Buy(Card::Copper)),
        !(d.ctx == Ctx::BuyPhase && offers_treasure_play(d.options@)) && d.options@.contains(m) && m
            != Move::Buy(Card::Curse) && m != Move::Buy(Card::Copper) ==> {
            &&& !restricted(s, d).contains(Move::Buy(Card::Curse))
            &&& !s.in_supply@[Card::Gardens.spec_idx() as int] ==> !restricted(s, d).contains(Move::Buy(Card::Copper))
        },
        !(d.ctx == Ctx::BuyPhase && offers_treasure_play(d.options@)) && (forall|i: int| 0 <= i < d.options@.len()
            ==> #[trigger] d.options@[i] == Move::Buy(Card::Curse) || (d.options@[i] == Move::Buy(Card::Copper)
            && !s.in_supply@[Card::Gardens.spec_idx() as int])) ==> restricted(s, d) == d.options@,
{
    broadcast use vstd::seq_lib::group_filter_ensures;
    let opts = d.options@;
    let pred = |x: Move| kept(s, x);
    let f = opts.filter(pred);
    lemma_first_treasure_is_option(opts);
    if d.ctx == Ctx::BuyPhase && offers_treasure_play(opts) {
        let i = choose|i: int| 0 <= i < opts.len() && (#[trigger] opts[i] matches Move::Play(c) && c.spec_is_treasure());
        lemma_treasure_play_found(opts, i);
    } else {
        if d.ctx == Ctx::BuyPhase && first_treasure_play(opts) is Some {
            let t = first_treasure_play(opts)->0;
            let i = choose|i: int| 0 <= i < opts.len() && opts[i] == t;
            assert(opts[i] matches Move::Play(c) && c.spec_is_treasure());
        }
        assert(restricted(s, d) == (if f.len() == 0 { opts } else { f }));
        if restricted(s, d).contains(m) && f.len() > 0 {
            opts.lemma_filter_contains_rev(pred, m);
        }
        if opts.contains(m) && m != Move::Buy(Card::Curse) && m != Move::Buy(Card::Copper) {
            let i = choose|i: int| 0 <= i < opts.len() && opts[i] == m;
            assert(pred(opts[i]));
            opts.lemma_filter_contains(pred, i);
            assert(f.len() > 0);
            if f.contains(Move::Buy(Card::Curse)) {
                let j = choose|j: int| 0 <= j < f.len() && f[j] == Move::Buy(Card::Curse);
                assert(pred(f[j]));
            }
            if !s.in_supply@[Card::Gardens.spec_idx() as int] && f.contains(Move::Buy(Card::Copper)) {
                let j = choose|j: int| 0 <= j < f.len() && f[j] == Move::Buy(Card::Copper);
                assert(pred(f[j]));
            }
        }
        if opts.contains(Move::Buy(Card::Copper)) && s.in_supply@[Card::Gardens.spec_idx() as int] {
            let i = choose|i: int| 0 <= i < opts.len() && opts[i] == Move::Buy(Card::Copper);
            assert(pred(opts[i]));
            opts.lemma_filter_contains(pred, i);
        }
        if forall|i: int| 0 <= i < opts.len() ==> #[trigger] opts[i] == Move::Buy(Card::Curse) || (opts[i]
            == Move::Buy(Card::Copper) && !s.in_supply@[Card::Gardens.spec_idx() as int]) {
            if f.len() > 0 {
                assert(pred(f[0]));
                opts.lemma_filter_contains_rev(pred, f[0]);
                let i = choose|i: int| 0 <= i < opts.len() && opts[i] == f[0];
                assert(opts[i] == Move::Buy(Card::Curse) || (opts[i] == Move::Buy(Card::Copper)
                    && !s.in_supply@[Card::Gardens.spec_idx() as int]));
            }
        }
    }
}

/// Cut moves that are provably or near-provably wrong before search sees
/// them.
pub fn restrict(state: &GameState, d: &Decision) -> (r: Vec<Move>)
    ensures
        r@ == restricted(*state, *d),
        d.options@.len() > 0 ==> r@.len() > 0,
        forall|i: int| 0 <= i < r@.len() ==> d.options@.contains(#[trigger] r@[i]),
        d.ctx == Ctx::BuyPhase && first_treasure_play(d.options@) is Some ==> r@.len() == 1 && (r@[0] matches Move::Play(c) && c.spec_is_treasure()),
        (exists|i: int| 0 <= i < d.options@.len() && kept(*state, #[trigger] d.options@[i])) ==> !r@.contains(Move::Buy(Card::Curse)),
{
    proof {
        lemma_first_treasure_is_option(d.options@);
    }
    if d.ctx == Ctx::BuyPhase {
        if let Some(first) = find_treasure_play(&d.options) {
            let mut r: Vec<Move> = Vec::new();
            r.push(first);
            assert(r@ =~= seq![first]);
            return r;
        }
    }
    let ghost opts = d.options@;
    let ghost pred = |m: Move| kept(*state, m);
    let gardens = state.in_supply[Card::Gardens.idx()];
    let mut filtered: Vec<Move> = Vec::new();
    let mut i: usize = 0;
    while i < d.options.len()
        invariant
            opts == d.options@,
            pred == (|m: Move| kept(*state, m)),
            gardens == state.in_supply@[Card::Gardens.spec_idx() as int],
            i <= opts.len(),
            filtered@ == opts.take(i as int).filter(pred),
        decreases opts.len() - i,
    {
        let m = d.options[i];
        assert(opts.take((i + 1) as int).drop_last() =~= opts.take(i as int));
        assert(opts.take((i + 1) as int).last() == m);
        let ghost prev = opts.take(i as int).filter(pred);
        proof {
            reveal_with_fuel(Seq::<_>::filter, 1);
        }
        assert(opts.take((i + 1) as int).filter(pred) == if pred(m) { prev.push(m) } else { prev });
        let keep = match m {
            Move::Buy(Card::Curse) => false,
            Move::Buy(Card::Copper) => gardens,
            _ => true,
        };
        if keep {
            filtered.push(m);
        }
        i = i + 1;
    }
    assert(opts.take(opts.len() as int) =~= opts);
    proof {
        broadcast use vstd::seq_lib::group_filter_ensures;
        if exists|j: int| 0 <= j < opts.len() && kept(*state, #[trigger] opts[j]) {
            let j = choose|j: int| 0 <= j < opts.len() && kept(*state, #[trigger] opts[j]);
            opts.lemma_filter_contains(pred, j);
        }
    }
    if filtered.len() == 0 {
        let r = d.options.clone();
        assert(r@ =~= d.options@);
        r
    } else {
        proof {
            assert forall|i: int| 0 <= i < filtered@.len() implies d.options@.contains(#[trigger] filtered@[i]) by {
                assert(opts.filter(pred).contains(filtered@[i]));
                opts.lemma_filter_contains_rev(pred, filtered@[i]);
            }
        }
        filtered
    }
}

} // verus!
