//! Shared heuristic policy: a defensible default answer to every decision that
//! isn't "what do I buy".
//!
//! Nothing here is optimal: it is a strategy-neutral baseline that every bot
//! inherits, so that two strategies differ only in how they rank gains, and
//! so that search rollouts land in plausible positions.

use vstd::prelude::*;
use crate::card::{Card, NUM_CARDS};
use crate::rng::Rng;
use crate::agent::Agent;
use vstd::string::StringExecFns;
use crate::state::{
    cnt, count_in, owned, owned_len, Ctx, Decision, GameState, Move, PlayerState,
};

verus! {

broadcast use vstd::seq_lib::group_to_multiset_ensures, vstd::multiset::group_multiset_axioms;

/// The most cards a deck summary can count: its coin total (three coins a
/// card at most) stays in a `u32`, and the room for terminals (two per
/// Village, plus one) in an `i32`.
pub open spec fn count_bound() -> nat {
    0x3FFF_FFFF
}

/// Every player owns at most `count_bound()` cards, so the policy's counters
/// and sums cannot overflow.
pub open spec fn bounded_decks(s: GameState) -> bool {
    forall|i: int| 0 <= i < s.players@.len() ==> owned_len(#[trigger] s.players@[i]) <= count_bound()
}

// ------------------------------------------------------------ card rankings

/// Play order of an Action given the rest of the hand. The hand is used for
/// Cellar (worth it only with junk to dump), Throne Room (worth it only with
/// another Action to double) and Moneylender (worth it only with a Copper).
pub open spec fn spec_action_priority(card: Card, hand: Seq<Card>) -> i32 {
    match card {
        Card::Village => 100,
        Card::Festival => 95,
        Card::Laboratory => 92,
        Card::Market => 90,
        Card::Merchant => 88,
        Card::Poacher => 87,
        Card::Sentry => 94,
        Card::Harbinger => 86,
        Card::Cellar => if exists|i: int|
            0 <= i < hand.len() && ((#[trigger] hand[i]).spec_is_victory() || hand[i].spec_is_curse()) {
            85
        } else {
            5
        },
        Card::ThroneRoom => if exists|i: int|
            0 <= i < hand.len() && (#[trigger] hand[i]).spec_is_action() && hand[i] != card {
            80
        } else {
            1
        },
        Card::Chapel => 75,
        Card::Witch => 70,
        Card::CouncilRoom => 65,
        Card::Library => 62,
        Card::Smithy => 60,
        Card::Militia => 58,
        Card::Moneylender => if hand.contains(Card::Copper) {
            57
        } else {
            2
        },
        Card::Vassal => 56,
        Card::Bandit => 55,
        Card::Workshop => 52,
        Card::Mine => 50,
        Card::Remodel => 48,
        Card::Bureaucrat => 45,
        _ => 0,
    }
}

/// Higher plays first: cards that replace the Action they cost come before
/// cards that don't.
pub fn action_priority(card: Card, hand: &[Card], _state: &GameState) -> (r: i32)
    ensures
        r == spec_action_priority(card, hand@),
{
    match card {
        Card::Cellar => {
            let mut i: usize = 0;
            while i < hand.len()
                invariant
                    card == Card::Cellar,
                    i <= hand@.len(),
                    forall|j: int| 0 <= j < i ==> !((#[trigger] hand@[j]).spec_is_victory() || hand@[j].spec_is_curse()),
                decreases hand@.len() - i,
            {
                if hand[i].is_victory() || hand[i].is_curse() {
                    assert(hand@[i as int].spec_is_victory() || hand@[i as int].spec_is_curse());
                    return 85;
                }
                i = i + 1;
            }
            5
        },
        Card::ThroneRoom => {
            let mut i: usize = 0;
            while i < hand.len()
                invariant
                    card == Card::ThroneRoom,
                    i <= hand@.len(),
                    forall|j: int| 0 <= j < i ==> !((#[trigger] hand@[j]).spec_is_action() && hand@[j] != card),
                decreases hand@.len() - i,
            {
                if hand[i].is_action() && hand[i] != card {
                    assert(hand@[i as int].spec_is_action() && hand@[i as int] != card);
                    return 80;
                }
                i = i + 1;
            }
            1
        },
        Card::Moneylender => {
            let mut i: usize = 0;
            while i < hand.len()
                invariant
                    card == Card::Moneylender,
                    i <= hand@.len(),
                    forall|j: int| 0 <= j < i ==> hand@[j] != Card::Copper,
                decreases hand@.len() - i,
            {
                if hand[i] == Card::Copper {
                    assert(hand@[i as int] == Card::Copper);
                    assert(hand@.contains(Card::Copper));
                    return 57;
                }
                i = i + 1;
            }
            2
        },
        Card::Village => 100,
        Card::Festival => 95,
        Card::Laboratory => 92,
        Card::Market => 90,
        Card::Merchant => 88,
        Card::Poacher => 87,
        Card::Sentry => 94,
        Card::Harbinger => 86,
        Card::Chapel => 75,
        Card::Witch => 70,
        Card::CouncilRoom => 65,
        Card::Library => 62,
        Card::Smithy => 60,
        Card::Militia => 58,
        Card::Vassal => 56,
        Card::Bandit => 55,
        Card::Workshop => 52,
        Card::Mine => 50,
        Card::Remodel => 48,
        Card::Bureaucrat => 45,
        _ => 0,
    }
}

/// Discard order: junk goes first, economy stays.
pub open spec fn spec_discard_rank(card: Card) -> i32 {
    match card {
        Card::Curse => 0,
        Card::Estate | Card::Gardens => 1,
        Card::Duchy => 2,
        Card::Province => 3,
        Card::Copper => 4,
        Card::Silver => 8,
        Card::Gold => 9,
        c => if c.spec_is_action() { 5 } else { 6 },
    }
}

/// Discarding keeps the economy: a Curse goes first, then Estate and
/// Gardens (alike), Duchy, Province, Copper, then any Action, then the other
/// cards, then Silver, and Gold is kept longest of all.
pub proof fn lemma_discard_order(c: Card)
    ensures
        spec_discard_rank(Card::Curse) < spec_discard_rank(Card::Estate),
        spec_discard_rank(Card::Estate) == spec_discard_rank(Card::Gardens),
        spec_discard_rank(Card::Estate) < spec_discard_rank(Card::Duchy),
        spec_discard_rank(Card::Duchy) < spec_discard_rank(Card::Province),
        spec_discard_rank(Card::Province) < spec_discard_rank(Card::Copper),
        c.spec_is_action() ==> spec_discard_rank(Card::Copper) < spec_discard_rank(c)
            && spec_discard_rank(c) < spec_discard_rank(Card::Silver),
        c.spec_is_action() ==> forall|d: Card| d.spec_is_action() ==> spec_discard_rank(c) == spec_discard_rank(d),
        c != Card::Gold ==> spec_discard_rank(c) < spec_discard_rank(Card::Gold),
        c != Card::Gold && c != Card::Silver ==> spec_discard_rank(c) < spec_discard_rank(Card::Silver),
        c != Card::Curse ==> spec_discard_rank(Card::Curse) < spec_discard_rank(c),
        (c.spec_is_victory() || c == Card::Curse) ==> spec_discard_rank(c) < spec_discard_rank(Card::Copper),
{
}

/// Trashing goes Curse first, then Estate, then Copper; every other card is
/// alike and comes after all three.
pub proof fn lemma_trash_order(c: Card, d: Card)
    ensures
        spec_trash_rank(Card::Curse) < spec_trash_rank(Card::Estate),
        spec_trash_rank(Card::Estate) < spec_trash_rank(Card::Copper),
        c != Card::Curse && c != Card::Estate && c != Card::Copper ==> spec_trash_rank(Card::Copper) < spec_trash_rank(c),
        c != Card::Curse && c != Card::Estate && c != Card::Copper && d != Card::Curse && d != Card::Estate && d
            != Card::Copper ==> spec_trash_rank(c) == spec_trash_rank(d),
{
}

/// Lower is discarded first.
#[verifier::when_used_as_spec(spec_discard_rank)]
pub fn discard_rank(card: Card) -> (r: i32)
    ensures
        r == spec_discard_rank(card),
{
    match card {
        Card::Curse => 0,
        Card::Estate | Card::Gardens => 1,
        Card::Duchy => 2,
        Card::Province => 3,
        Card::Copper => 4,
        Card::Silver => 8,
        Card::Gold => 9,
        c => if c.is_action() { 5 } else { 6 },
    }
}

/// Trash order: Curses, then Estates, then Coppers; nothing else.
pub open spec fn spec_trash_rank(card: Card) -> i32 {
    match card {
        Card::Curse => 0,
        Card::Estate => 1,
        Card::Copper => 2,
        _ => 100,
    }
}

/// Lower is trashed first. Cards not worth trashing score high.
#[verifier::when_used_as_spec(spec_trash_rank)]
pub fn trash_rank(card: Card) -> (r: i32)
    ensures
        r == spec_trash_rank(card),
{
    match card {
        Card::Curse => 0,
        Card::Estate => 1,
        Card::Copper => 2,
        _ => 100,
    }
}

/// How much a card gains from being played twice.
pub open spec fn spec_throne_value(card: Card) -> i32 {
    match card {
        Card::Vassal => 4,
        Card::Witch | Card::CouncilRoom | Card::Smithy | Card::Laboratory | Card::Market
        | Card::Bandit => 3,
        Card::Militia | Card::Festival | Card::Village | Card::Poacher | Card::Merchant => 2,
        _ => 1,
    }
}

/// How much a card gains from being played twice.
#[verifier::when_used_as_spec(spec_throne_value)]
fn throne_value(card: Card) -> (r: i32)
    ensures
        r == spec_throne_value(card),
{
    match card {
        Card::Vassal => 4,
        Card::Witch | Card::CouncilRoom | Card::Smithy | Card::Laboratory | Card::Market
        | Card::Bandit => 3,
        Card::Militia | Card::Festival | Card::Village | Card::Poacher | Card::Merchant => 2,
        _ => 1,
    }
}

// ------------------------------------------------------------ deck statistics

/// Total coin value of a sequence of cards.
pub open spec fn coin_sum(s: Seq<Card>) -> int
    decreases s.len(),
{
    if s.len() == 0 {
        0
    } else {
        coin_sum(s.drop_last()) + s.last().spec_coin_value()
    }
}

/// How many cards of a sequence satisfy `pred`.
pub open spec fn count_where(s: Seq<Card>, pred: spec_fn(Card) -> bool) -> int
    decreases s.len(),
{
    if s.len() == 0 {
        0
    } else {
        count_where(s.drop_last(), pred) + if pred(s.last()) { 1int } else { 0int }
    }
}

/// Actions granting +2 Actions.
pub open spec fn is_village(c: Card) -> bool {
    c == Card::Village || c == Card::Festival
}

/// Actions that replace the Action they cost.
pub open spec fn is_cantrip(c: Card) -> bool {
    c == Card::Market || c == Card::Laboratory || c == Card::Merchant || c == Card::Poacher
        || c == Card::Harbinger || c == Card::Cellar || c == Card::Sentry
}

/// Actions that use up the turn's Action and give none back.
pub open spec fn is_terminal(c: Card) -> bool {
    c.spec_is_action() && !is_village(c) && !is_cantrip(c)
}

/// Whether some player other than `p` owns an Attack.
pub open spec fn facing_attack(s: GameState, p: int) -> bool {
    exists|i: int|
        0 <= i < s.players@.len() && i != p && count_where(owned(#[trigger] s.players@[i]), |c: Card| c.spec_is_attack()) > 0
}

/// Copies of `c` owned by player `p`, saturated at 255.
pub open spec fn owned_count(s: GameState, p: int, c: Card) -> u8 {
    let n = cnt(owned(s.players@[p]), c);
    if n > 255 { 255 } else { n as u8 }
}

/// A summary of what a player's deck is made of.
#[derive(Clone, Copy, Debug)]
pub struct DeckStats {
    pub total: u32,
    /// Copies of each card the player owns (saturating), indexed by `Card::idx`.
    pub owned: [u8; NUM_CARDS],
    /// Actions that consume the turn's only Action and give none back.
    pub terminals: u32,
    /// Actions granting +2 Actions.
    pub villages: u32,
    pub coin_value: u32,
    /// Whether any opponent owns an Attack.
    pub under_attack: bool,
}

/// `st` summarises the deck of player `p` in `s`.
pub open spec fn stats_of(st: DeckStats, s: GameState, p: int) -> bool {
    let o = owned(s.players@[p]);
    &&& st.total == o.len()
    &&& forall|c: Card| #[trigger] st.owned@[c.spec_idx() as int] == owned_count(s, p, c)
    &&& st.terminals == count_where(o, |c: Card| is_terminal(c))
    &&& st.villages == count_where(o, |c: Card| is_village(c))
    &&& st.coin_value == coin_sum(o)
    &&& st.under_attack == facing_attack(s, p)
}

/// Counting cards that pass a test never exceeds their number.
proof fn lemma_count_where_le(s: Seq<Card>, pred: spec_fn(Card) -> bool)
    ensures
        0 <= count_where(s, pred) <= s.len(),
    decreases s.len(),
{
    if s.len() > 0 {
        lemma_count_where_le(s.drop_last(), pred);
    }
}

/// Coin values are at most 3 per card.
proof fn lemma_coin_sum_le(s: Seq<Card>)
    ensures
        0 <= coin_sum(s) <= 3 * s.len(),
    decreases s.len(),
{
    if s.len() > 0 {
        lemma_coin_sum_le(s.drop_last());
    }
}

/// The summary of player `p`'s deck in `s`.
pub open spec fn deck_stats(s: GameState, p: int) -> DeckStats {
    choose|st: DeckStats| stats_of(st, s, p)
}

/// Two summaries of the same deck are the same.
pub proof fn lemma_stats_unique(a: DeckStats, b: DeckStats, s: GameState, p: int)
    requires
        stats_of(a, s, p),
        stats_of(b, s, p),
    ensures
        a == b,
{
    broadcast use vstd::array::group_array_axioms;
    assert forall|i: int| 0 <= i < NUM_CARDS implies a.owned[i] == b.owned[i] by {
        let c = Card::spec_from_idx(i as usize);
        crate::card::lemma_idx_roundtrip(c, i as usize);
        assert(a.owned@[c.spec_idx() as int] == b.owned@[c.spec_idx() as int]);
    }
    assert(a.owned =~= b.owned);
}

/// Whether some card of `cards` is an Attack.
fn has_attack(cards: &Vec<Card>) -> (r: bool)
    ensures
        r == (count_where(cards@, |c: Card| c.spec_is_attack()) > 0),
{
    let mut i: usize = 0;
    while i < cards.len()
        invariant
            i <= cards@.len(),
            count_where(cards@.take(i as int), |c: Card| c.spec_is_attack()) == 0,
        decreases cards@.len() - i,
    {
        assert(cards@.take((i + 1) as int).drop_last() =~= cards@.take(i as int));
        if cards[i].is_attack() {
            proof {
                lemma_count_where_prefix(cards@, |c: Card| c.spec_is_attack(), (i + 1) as int);
            }
            return true;
        }
        i = i + 1;
    }
    assert(cards@.take(cards@.len() as int) =~= cards@);
    false
}

/// Counting over a longer prefix counts at least as many.
proof fn lemma_count_where_prefix(s: Seq<Card>, pred: spec_fn(Card) -> bool, k: int)
    requires
        0 <= k <= s.len(),
    ensures
        count_where(s.take(k), pred) <= count_where(s, pred),
    decreases s.len() - k,
{
    if k < s.len() {
        lemma_count_where_prefix(s, pred, k + 1);
        assert(s.take(k + 1).drop_last() =~= s.take(k));
    } else {
        assert(s.take(k) =~= s);
    }
}

impl Default for DeckStats {
    /// The summary of an empty deck.
    fn default() -> (r: DeckStats)
        ensures
            r.total == 0,
            forall|i: int| 0 <= i < NUM_CARDS ==> r.owned@[i] == 0,
            r.terminals == 0,
            r.villages == 0,
            r.coin_value == 0,
            !r.under_attack,
    {
        DeckStats { total: 0, owned: [0u8; NUM_CARDS], terminals: 0, villages: 0, coin_value: 0, under_attack: false }
    }
}

impl DeckStats {
    /// Summarise the deck of `player`.
    pub fn of(state: &GameState, player: usize) -> (r: DeckStats)
        requires
            player < state.players@.len(),
            owned_len(state.players@[player as int]) <= count_bound(),
        ensures
            stats_of(r, *state, player as int),
    {
        let all = state.players[player].all_cards();
        let ghost o = all@;
        let mut total: u32 = 0;
        let mut counts: [u8; NUM_CARDS] = [0u8; NUM_CARDS];
        let mut terminals: u32 = 0;
        let mut villages: u32 = 0;
        let mut coin_value: u32 = 0;
        let mut i: usize = 0;
        while i < all.len()
            invariant
                o == all@,
                o.len() <= count_bound(),
                i <= o.len(),
                total == i,
                forall|c: Card| #[trigger] counts@[c.spec_idx() as int] == {
                    let n = cnt(o.take(i as int), c);
                    if n > 255 { 255u8 } else { n as u8 }
                },
                terminals == count_where(o.take(i as int), |c: Card| is_terminal(c)),
                villages == count_where(o.take(i as int), |c: Card| is_village(c)),
                coin_value == coin_sum(o.take(i as int)),
            decreases o.len() - i,
        {
            let c = all[i];
            proof {
                assert(o.take((i + 1) as int).drop_last() =~= o.take(i as int));
                assert(o.take((i + 1) as int) =~= o.take(i as int).push(c));
                lemma_count_where_le(o.take(i as int), |c: Card| is_terminal(c));
                lemma_count_where_le(o.take(i as int), |c: Card| is_village(c));
                lemma_coin_sum_le(o.take(i as int));
            }
            total = total + 1;
            let k = c.idx();
            let ghost before = counts@;
            counts[k] = counts[k].saturating_add(1);
            proof {
                assert forall|x: Card| #[trigger] counts@[x.spec_idx() as int] == {
                    let n = cnt(o.take((i + 1) as int), x);
                    if n > 255 { 255u8 } else { n as u8 }
                } by {
                    crate::state::lemma_cnt_push(o.take(i as int), c, x);
                    crate::card::lemma_idx_injective(x, c);
                    if x != c {
                        assert(counts@[x.spec_idx() as int] == before[x.spec_idx() as int]);
                    }
                }
            }
            coin_value = coin_value + c.coin_value() as u32;
            if c == Card::Village || c == Card::Festival {
                villages = villages + 1;
            } else if c == Card::Market || c == Card::Laboratory || c == Card::Merchant
                || c == Card::Poacher || c == Card::Harbinger || c == Card::Cellar
                || c == Card::Sentry {
            } else if c.is_action() {
                terminals = terminals + 1;
            }
            i = i + 1;
        }
        let mut under_attack = false;
        let mut q: usize = 0;
        while q < state.players.len()
            invariant
                q <= state.players@.len(),
                under_attack == exists|j: int|
                    0 <= j < q && j != player && count_where(owned(#[trigger] state.players@[j]), |c: Card| c.spec_is_attack()) > 0,
            decreases state.players@.len() - q,
        {
            if q != player {
                let cards = state.players[q].all_cards();
                if has_attack(&cards) {
                    under_attack = true;
                }
            }
            q = q + 1;
        }
        assert(o.take(o.len() as int) =~= o);
        DeckStats { total, owned: counts, terminals, villages, coin_value, under_attack }
    }

    /// Copies of `card` owned (saturated at 255).
    pub open spec fn spec_count(&self, card: Card) -> i32 {
        self.owned@[card.spec_idx() as int] as i32
    }

    /// Copies of `card` owned (saturated at 255).
    #[verifier::when_used_as_spec(spec_count)]
    pub fn count(&self, card: Card) -> (r: i32)
        ensures
            r == self.spec_count(card),
    {
        self.owned[card.idx()] as i32
    }

    /// Coppers owned (saturated at 255).
    pub fn coppers(&self) -> (r: u32)
        ensures
            r == self.owned@[Card::Copper.spec_idx() as int],
    {
        self.owned[Card::Copper.idx()] as u32
    }

    /// How many more terminals the deck can absorb before they start colliding:
    /// one Action per turn, plus two per Village.
    pub open spec fn spec_terminal_room(&self) -> int {
        1 + 2 * self.villages - self.terminals
    }

    /// How many more terminals the deck can absorb before they start colliding:
    /// one Action per turn, plus two per Village.
    pub fn terminal_room(&self) -> (r: i32)
        requires
            self.villages <= count_bound(),
            self.terminals <= count_bound(),
        ensures
            r == self.spec_terminal_room(),
    {
        1 + 2 * self.villages as i32 - self.terminals as i32
    }
}

/// Summaries of bounded decks have bounded counters.
pub proof fn lemma_stats_bounded(st: DeckStats, s: GameState, p: int)
    requires
        stats_of(st, s, p),
        0 <= p < s.players@.len(),
        owned_len(s.players@[p]) <= count_bound(),
    ensures
        st.villages <= count_bound(),
        st.terminals <= count_bound(),
        st.coin_value <= 3 * count_bound(),
{
    lemma_count_where_le(owned(s.players@[p]), |c: Card| is_terminal(c));
    lemma_count_where_le(owned(s.players@[p]), |c: Card| is_village(c));
    lemma_coin_sum_le(owned(s.players@[p]));
}

// ------------------------------------------------------------ gain ranking

/// Copies of the Province pile left: the endgame clock.
pub open spec fn provinces_left(s: GameState) -> u8 {
    s.supply@[Card::Province.spec_idx() as int]
}

/// The ranking used for every gain. Province on top and Curse at the bottom;
/// Duchy and Estate only late; Witch (up to two) over Gold; one terminal draw
/// or Militia while the deck has room for it and is not saving its terminal
/// slot for Witches; a few Markets; then Silver; Villages only once
/// terminals collide; a Moat only against Attacks; green and Copper are
/// unwanted; other Actions rank by cost just under Silver.
pub open spec fn spec_gain_preference(card: Card, s: GameState, st: DeckStats) -> int {
    let pl = provinces_left(s);
    let room = st.spec_terminal_room();
    let saving_for_witch = s.in_supply@[Card::Witch.spec_idx() as int] && s.supply@[Card::Witch.spec_idx() as int]
        > 0 && st.spec_count(Card::Witch) < 2 && room >= 0;
    if card == Card::Province {
        1000
    } else if card == Card::Curse {
        -1000
    } else if card == Card::Duchy && pl <= 4 {
        880
    } else if card == Card::Estate && pl <= 2 {
        700
    } else if card == Card::Witch && st.spec_count(Card::Witch) < 2 && room >= 0 {
        960
    } else if card == Card::Gold {
        900
    } else if card == Card::Laboratory && room >= 0 {
        890
    } else if card == Card::Smithy && room > 0 && !saving_for_witch && st.spec_count(Card::Smithy) < 1 {
        860
    } else if card == Card::Militia && room > 0 && !saving_for_witch && st.spec_count(Card::Militia) < 1 {
        835
    } else if card == Card::CouncilRoom && room > 0 && !saving_for_witch && st.spec_count(Card::CouncilRoom)
        < 1 && st.spec_count(Card::Smithy) == 0 {
        830
    } else if card == Card::Market && st.spec_count(Card::Market) < 3 {
        760
    } else if card == Card::Silver {
        700
    } else if card == Card::Village && room < 0 {
        690
    } else if card == Card::Festival && room < 0 {
        680
    } else if card == Card::Moat && room > 0 && st.spec_count(Card::Moat) < 1 && st.under_attack {
        670
    } else if card == Card::Estate || card == Card::Duchy || card == Card::Gardens {
        -100
    } else if card == Card::Copper {
        -50
    } else if card.spec_is_action() {
        300 + card.spec_cost() as int
    } else {
        100
    }
}

/// The gain ranking's fixed points: a Province is always the best gain and a
/// Curse always the worst; Gold beats Silver, Silver beats Copper; Copper,
/// Curse and Gardens are never worth gaining (rank not above 0), nor is a
/// Duchy while more than four Provinces are left, nor an Estate while more
/// than two are; near the end a Duchy beats Silver.
pub proof fn lemma_gain_preference_order(card: Card, s: GameState, st: DeckStats)
    ensures
        card != Card::Province ==> spec_gain_preference(card, s, st) < spec_gain_preference(Card::Province, s, st),
        card != Card::Curse ==> spec_gain_preference(Card::Curse, s, st) < spec_gain_preference(card, s, st),
        spec_gain_preference(Card::Silver, s, st) < spec_gain_preference(Card::Gold, s, st),
        spec_gain_preference(Card::Copper, s, st) < spec_gain_preference(Card::Silver, s, st),
        spec_gain_preference(Card::Copper, s, st) <= 0,
        spec_gain_preference(Card::Curse, s, st) <= 0,
        spec_gain_preference(Card::Gardens, s, st) <= 0,
        provinces_left(s) > 4 ==> spec_gain_preference(Card::Duchy, s, st) <= 0,
        provinces_left(s) > 2 ==> spec_gain_preference(Card::Estate, s, st) <= 0,
        provinces_left(s) <= 4 ==> spec_gain_preference(Card::Silver, s, st) < spec_gain_preference(Card::Duchy, s, st),
        spec_gain_preference(Card::Gold, s, st) > 0 && spec_gain_preference(Card::Silver, s, st) > 0,
{
}

/// The order actions are played in: Village first of all; no card that is
/// not an Action is ever played as one (priority 0); Festival, Laboratory,
/// Market, Merchant, Sentry, Poacher and Harbinger (the cards that give an
/// Action back) come before every terminal Action.
pub proof fn lemma_action_priority_order(card: Card, other: Card, hand: Seq<Card>)
    ensures
        card != Card::Village ==> spec_action_priority(card, hand) < spec_action_priority(Card::Village, hand),
        !card.spec_is_action() ==> spec_action_priority(card, hand) == 0,
        (card == Card::Festival || card == Card::Laboratory || card == Card::Market || card == Card::Merchant || card
            == Card::Sentry || card == Card::Poacher || card == Card::Harbinger) && other.spec_is_action() && !(other
            == Card::Village || other == Card::Festival || other == Card::Laboratory || other == Card::Market || other
            == Card::Merchant || other == Card::Sentry || other == Card::Poacher || other == Card::Harbinger || other
            == Card::Cellar || other == Card::ThroneRoom) ==> spec_action_priority(other, hand) < spec_action_priority(
            card,
            hand,
        ),
{
}

/// Ranking used for every gain: buying, and Workshop, Remodel, Artisan and Mine.
pub fn gain_preference(card: Card, state: &GameState, _player: usize, st: &DeckStats) -> (r: i32)
    requires
        st.villages <= count_bound(),
        st.terminals <= count_bound(),
    ensures
        r == spec_gain_preference(card, *state, *st),
{
    let pl = state.supply_of(Card::Province);
    let room = st.terminal_room();
    let saving_for_witch = state.in_supply[Card::Witch.idx()] && state.supply_of(Card::Witch) > 0
        && st.count(Card::Witch) < 2 && room >= 0;
    if card == Card::Province {
        1000
    } else if card == Card::Curse {
        -1000
    } else if card == Card::Duchy && pl <= 4 {
        880
    } else if card == Card::Estate && pl <= 2 {
        700
    } else if card == Card::Witch && st.count(Card::Witch) < 2 && room >= 0 {
        960
    } else if card == Card::Gold {
        900
    } else if card == Card::Laboratory && room >= 0 {
        890
    } else if card == Card::Smithy && room > 0 && !saving_for_witch && st.count(Card::Smithy) < 1 {
        860
    } else if card == Card::Militia && room > 0 && !saving_for_witch && st.count(Card::Militia) < 1 {
        835
    } else if card == Card::CouncilRoom && room > 0 && !saving_for_witch && st.count(Card::CouncilRoom)
        < 1 && st.count(Card::Smithy) == 0 {
        830
    } else if card == Card::Market && st.count(Card::Market) < 3 {
        760
    } else if card == Card::Silver {
        700
    } else if card == Card::Village && room < 0 {
        690
    } else if card == Card::Festival && room < 0 {
        680
    } else if card == Card::Moat && room > 0 && st.count(Card::Moat) < 1 && st.under_attack {
        670
    } else if card == Card::Estate || card == Card::Duchy || card == Card::Gardens {
        -100
    } else if card == Card::Copper {
        -50
    } else if card.is_action() {
        300 + card.cost() as i32
    } else {
        100
    }
}

/// A way to rank the cards a player could gain; higher is better. A rank
/// depends on the card, the state, the player and the player's deck summary.
pub trait GainRank {
    /// The rank of `card` for `player`.
    spec fn spec_rank(&self, card: Card, state: GameState, player: int, stats: DeckStats) -> int;

    /// The rank of `card` for `player`, whose deck `stats` summarises.
    fn rank(&self, card: Card, state: &GameState, player: usize, stats: &DeckStats) -> (r: i32)
        requires
            player < state.players@.len(),
            bounded_decks(*state),
            stats_of(*stats, *state, player as int),
        ensures
            r == self.spec_rank(card, *state, player as int, *stats),
    ;
}

/// The shared money-first ranking, [`gain_preference`], as a [`GainRank`].
#[derive(Clone, Copy, Debug)]
pub struct GainPreference;

impl GainRank for GainPreference {
    open spec fn spec_rank(&self, card: Card, state: GameState, player: int, stats: DeckStats) -> int {
        spec_gain_preference(card, state, stats)
    }

    fn rank(&self, card: Card, state: &GameState, player: usize, stats: &DeckStats) -> (r: i32) {
        proof {
            lemma_stats_bounded(*stats, *state, player as int);
        }
        gain_preference(card, state, player, stats)
    }
}

// ------------------------------------------------------------ decisions

/// The card of an option, when the option is of the given kind: 0 for a
/// play, 1 for a buy, 2 for a selection.
pub open spec fn option_card(m: Move, kind: int) -> Option<Card> {
    match m {
        Move::Play(c) => if kind == 0 { Some(c) } else { None },
        Move::Buy(c) => if kind == 1 { Some(c) } else { None },
        Move::Select(c) => if kind == 2 { Some(c) } else { None },
        Move::Done => None,
    }
}

/// The cards of the options of one kind, in option order.
pub open spec fn option_cards(opts: Seq<Move>, kind: int) -> Seq<Card>
    decreases opts.len(),
{
    if opts.len() == 0 {
        Seq::empty()
    } else {
        let rest = option_cards(opts.drop_last(), kind);
        match option_card(opts.last(), kind) {
            Some(c) => rest.push(c),
            None => rest,
        }
    }
}

/// Among the cards of `s` that pass `pred`, the best by `key`: with
/// `latest` the last of those with the greatest key (how `max_by_key`
/// breaks ties), otherwise the first of those with the least key (how
/// `min_by_key` does).
pub open spec fn best_where(s: Seq<Card>, pred: spec_fn(Card) -> bool, key: spec_fn(Card) -> int, latest: bool) -> Option<Card>
    decreases s.len(),
{
    if s.len() == 0 {
        None
    } else {
        let prev = best_where(s.drop_last(), pred, key, latest);
        let c = s.last();
        if !pred(c) {
            prev
        } else {
            match prev {
                None => Some(c),
                Some(m) => if (latest && key(c) >= key(m)) || (!latest && key(c) < key(m)) {
                    Some(c)
                } else {
                    Some(m)
                },
            }
        }
    }
}

/// The first card of `s` that passes `pred`.
pub open spec fn first_where(s: Seq<Card>, pred: spec_fn(Card) -> bool) -> Option<Card>
    decreases s.len(),
{
    if s.len() == 0 {
        None
    } else {
        match first_where(s.drop_last(), pred) {
            Some(m) => Some(m),
            None => if pred(s.last()) { Some(s.last()) } else { None },
        }
    }
}

/// The first option that plays a card.
pub open spec fn first_play(opts: Seq<Move>) -> Option<Move>
    decreases opts.len(),
{
    if opts.len() == 0 {
        None
    } else {
        match first_play(opts.drop_last()) {
            Some(m) => Some(m),
            None => if opts.last() is Play { Some(opts.last()) } else { None },
        }
    }
}

/// Select the card if there is one, else decline.
pub open spec fn select_or_done(c: Option<Card>) -> Move {
    match c {
        Some(x) => Move::Select(x),
        None => Move::Done,
    }
}

/// Is this card worth trashing now? Curses always; Estates while more than
/// four Provinces are left; Coppers while the deck's coins exceed 3.
pub open spec fn spec_worth_trashing(card: Card, s: GameState, p: int) -> bool {
    if card == Card::Curse {
        true
    } else if card == Card::Estate {
        provinces_left(s) > 4
    } else if card == Card::Copper {
        coin_sum(owned(s.players@[p])) > 3
    } else {
        false
    }
}

/// Junk: Victory cards and Curses.
pub open spec fn is_junk(c: Card) -> bool {
    c.spec_is_victory() || c.spec_is_curse()
}

/// Ordering key for doubling with Throne Room: by how much a card gains from
/// being played twice, then by play priority (which lies in 0..=100).
pub open spec fn throne_key(c: Card, hand: Seq<Card>) -> int {
    spec_throne_value(c) * 1000 + spec_action_priority(c, hand)
}

/// The shared policy's answer to decision `d`, ranking gains with `ranker`
/// and the deck summary `st`.
pub open spec fn default_choice<R: GainRank>(s: GameState, d: Decision, ranker: R, st: DeckStats) -> Move {
    let p = d.player as int;
    let hand = s.players@[p].hand@;
    let opts = d.options@;
    let selects = option_cards(opts, 2);
    let plays = option_cards(opts, 0);
    let rank = |c: Card| ranker.spec_rank(c, s, p, st);
    let prio = |c: Card| spec_action_priority(c, hand) as int;
    let playable = |c: Card| spec_action_priority(c, hand) > 3;
    let any = |c: Card| true;
    let worth = |c: Card| spec_worth_trashing(c, s, p);
    let junk = |c: Card| is_junk(c);
    let discard = |c: Card| spec_discard_rank(c) as int;
    let trash = |c: Card| spec_trash_rank(c) as int;
    let cost = |c: Card| c.spec_cost() as int;
    match d.ctx {
        Ctx::ActionPhase => match best_where(plays, playable, prio, true) {
            Some(c) => Move::Play(c),
            None => Move::Done,
        },
        Ctx::BuyPhase => match first_play(opts) {
            Some(m) => m,
            None => match best_where(option_cards(opts, 1), any, rank, true) {
                Some(c) => if rank(c) > 0 { Move::Buy(c) } else { Move::Done },
                None => Move::Done,
            },
        },
        Ctx::MoatReveal => Move::Select(Card::Moat),
        Ctx::CellarDiscard | Ctx::SentryDiscard => select_or_done(best_where(selects, junk, discard, false)),
        Ctx::ChapelTrash | Ctx::SentryTrash => select_or_done(best_where(selects, worth, trash, false)),
        Ctx::MoneylenderTrash => if spec_worth_trashing(Card::Copper, s, p) {
            Move::Select(Card::Copper)
        } else {
            Move::Done
        },
        Ctx::MilitiaDiscard | Ctx::PoacherDiscard => select_or_done(best_where(selects, any, discard, false)),
        Ctx::HarbingerTopdeck => select_or_done(best_where(selects, |c: Card| !is_junk(c), rank, true)),
        Ctx::VassalPlay => match first_where(plays, playable) {
            Some(c) => Move::Play(c),
            None => Move::Done,
        },
        Ctx::WorkshopGain | Ctx::RemodelGain | Ctx::MineGain | Ctx::ArtisanGain | Ctx::SentryOrder
        | Ctx::ArtisanTopdeck => select_or_done(best_where(selects, any, rank, true)),
        Ctx::RemodelTrash => match best_where(selects, worth, trash, false) {
            Some(c) => Move::Select(c),
            None => select_or_done(best_where(selects, any, cost, false)),
        },
        Ctx::MineTrash => if selects.contains(Card::Silver) && s.supply@[Card::Gold.spec_idx() as int] > 0 {
            Move::Select(Card::Silver)
        } else if selects.contains(Card::Copper) && s.supply@[Card::Silver.spec_idx() as int] > 0 {
            Move::Select(Card::Copper)
        } else {
            Move::Done
        },
        Ctx::ThroneRoomPlay => match best_where(plays, playable, |c: Card| throne_key(c, hand), true) {
            Some(c) => Move::Play(c),
            None => Move::Done,
        },
        Ctx::LibrarySetAside => if selects.len() > 0 {
            if s.players@[p].actions > 0 && spec_action_priority(selects[0], hand) > 3 {
                Move::Done
            } else {
                Move::Select(selects[0])
            }
        } else {
            Move::Done
        },
        Ctx::BureaucratReveal | Ctx::BanditTrash => select_or_done(best_where(selects, any, cost, false)),
    }
}

/// The move of kind `kind` (0 play, 1 buy, 2 select) of a card.
pub open spec fn kind_move(kind: int, c: Card) -> Move {
    if kind == 0 {
        Move::Play(c)
    } else if kind == 1 {
        Move::Buy(c)
    } else {
        Move::Select(c)
    }
}

/// Each card of the options of one kind comes from an option of that kind.
proof fn lemma_option_cards_offered(opts: Seq<Move>, kind: int, c: Card)
    requires
        0 <= kind <= 2,
        option_cards(opts, kind).contains(c),
    ensures
        opts.contains(kind_move(kind, c)),
    decreases opts.len(),
{
    let rest = option_cards(opts.drop_last(), kind);
    if rest.contains(c) {
        lemma_option_cards_offered(opts.drop_last(), kind, c);
        let i = choose|i: int| 0 <= i < opts.drop_last().len() && opts.drop_last()[i] == kind_move(kind, c);
        assert(opts[i] == kind_move(kind, c));
    } else {
        let m = opts.last();
        assert(option_cards(opts, kind) == rest.push(c) && option_card(m, kind) == Some(c)) by {
            match option_card(m, kind) {
                Some(x) => {
                    assert(option_cards(opts, kind) == rest.push(x));
                    let j = choose|j: int| 0 <= j < rest.push(x).len() && rest.push(x)[j] == c;
                    if j < rest.len() {
                        assert(rest[j] == c);
                    }
                },
                None => {},
            }
        }
        assert(opts[opts.len() - 1] == m);
    }
}

/// The best card among those passing a test is one of the cards.
proof fn lemma_best_where_in(s: Seq<Card>, pred: spec_fn(Card) -> bool, key: spec_fn(Card) -> int, latest: bool)
    ensures
        best_where(s, pred, key, latest) matches Some(c) ==> s.contains(c),
    decreases s.len(),
{
    if s.len() > 0 {
        lemma_best_where_in(s.drop_last(), pred, key, latest);
        if let Some(c) = best_where(s.drop_last(), pred, key, latest) {
            let i = choose|i: int| 0 <= i < s.drop_last().len() && s.drop_last()[i] == c;
            assert(s[i] == c);
        }
        assert(s[s.len() - 1] == s.last());
    }
}

/// The best card passes the test and no card that passes beats it; there is
/// a best card exactly when some card passes.
proof fn lemma_best_where_best(s: Seq<Card>, pred: spec_fn(Card) -> bool, key: spec_fn(Card) -> int, latest: bool)
    ensures
        best_where(s, pred, key, latest) is Some <==> exists|i: int| 0 <= i < s.len() && pred(#[trigger] s[i]),
        best_where(s, pred, key, latest) matches Some(c) ==> pred(c) && forall|i: int| 0 <= i < s.len()
            && pred(#[trigger] s[i]) ==> if latest { key(s[i]) <= key(c) } else { key(c) <= key(s[i]) },
    decreases s.len(),
{
    if s.len() > 0 {
        let t = s.drop_last();
        lemma_best_where_best(t, pred, key, latest);
        assert forall|i: int| 0 <= i < t.len() implies #[trigger] t[i] == s[i] by {}
        if exists|i: int| 0 <= i < s.len() && pred(#[trigger] s[i]) {
            let i = choose|i: int| 0 <= i < s.len() && pred(#[trigger] s[i]);
            if i < t.len() {
                assert(pred(t[i]));
            }
        }
        if best_where(t, pred, key, latest) is Some {
            let j = choose|j: int| 0 <= j < t.len() && pred(#[trigger] t[j]);
            assert(pred(s[j]));
        }
        if let Some(c) = best_where(s, pred, key, latest) {
            let last = s.last();
            assert(s[s.len() - 1] == last);
            assert forall|i: int| 0 <= i < s.len() && pred(#[trigger] s[i]) implies if latest {
                key(s[i]) <= key(c)
            } else {
                key(c) <= key(s[i])
            } by {
                if i < t.len() {
                    assert(pred(t[i]));
                    let m = best_where(t, pred, key, latest)->0;
                    assert(if latest { key(t[i]) <= key(m) } else { key(m) <= key(t[i]) });
                }
            }
        }
    }
}

/// Every card of an option of one kind is among that kind's option cards.
proof fn lemma_option_cards_complete(opts: Seq<Move>, kind: int, c: Card)
    requires
        0 <= kind <= 2,
        opts.contains(kind_move(kind, c)),
    ensures
        option_cards(opts, kind).contains(c),
    decreases opts.len(),
{
    let t = opts.drop_last();
    if t.contains(kind_move(kind, c)) {
        lemma_option_cards_complete(t, kind, c);
    } else {
        let i = choose|i: int| 0 <= i < opts.len() && opts[i] == kind_move(kind, c);
        if i < t.len() {
            assert(t[i] == opts[i]);
        }
        assert(opts.last() == kind_move(kind, c));
        assert(option_cards(opts, kind).last() == c);
    }
    let r = option_cards(opts, kind);
    let rt = option_cards(t, kind);
    if rt.contains(c) {
        let k = choose|k: int| 0 <= k < rt.len() && rt[k] == c;
        if r.len() > rt.len() {
            assert(r[k] == rt[k]);
        }
    }
}

/// Without a play among the options there is no first play.
proof fn lemma_no_first_play(opts: Seq<Move>)
    requires
        forall|i: int| 0 <= i < opts.len() ==> !(#[trigger] opts[i] is Play),
    ensures
        first_play(opts) is None,
    decreases opts.len(),
{
    if opts.len() > 0 {
        assert forall|i: int| 0 <= i < opts.drop_last().len() implies !(#[trigger] opts.drop_last()[i] is Play) by {
            assert(opts.drop_last()[i] == opts[i]);
        }
        lemma_no_first_play(opts.drop_last());
        assert(opts[opts.len() - 1] == opts.last());
    }
}

/// In the buy phase, once no Treasure is left to play, the heuristic buys
/// an offered card it ranks highest among the offered buys, and only if that
/// rank is positive; when no offered buy ranks above zero it stops.
pub proof fn lemma_buys_best<R: GainRank>(s: GameState, d: Decision, ranker: R, st: DeckStats, x: Card)
    requires
        d.ctx == Ctx::BuyPhase,
        forall|i: int| 0 <= i < d.options@.len() ==> !(#[trigger] d.options@[i] is Play),
    ensures
        d.options@.contains(Move::Buy(x)) && ranker.spec_rank(x, s, d.player as int, st) > 0 ==> (default_choice(
            s,
            d,
            ranker,
            st,
        ) matches Move::Buy(c) && d.options@.contains(Move::Buy(c)) && ranker.spec_rank(c, s, d.player as int, st)
            >= ranker.spec_rank(x, s, d.player as int, st)),
        default_choice(s, d, ranker, st) matches Move::Buy(c) ==> d.options@.contains(Move::Buy(c))
            && ranker.spec_rank(c, s, d.player as int, st) > 0 && (d.options@.contains(Move::Buy(x))
            ==> ranker.spec_rank(x, s, d.player as int, st) <= ranker.spec_rank(c, s, d.player as int, st)),
        default_choice(s, d, ranker, st) is Buy || default_choice(s, d, ranker, st) == Move::Done,
{
    let opts = d.options@;
    let p = d.player as int;
    let buys = option_cards(opts, 1);
    let any = |c: Card| true;
    let rank = |c: Card| ranker.spec_rank(c, s, p, st);
    lemma_no_first_play(opts);
    lemma_best_where_best(buys, any, rank, true);
    lemma_best_where_in(buys, any, rank, true);
    if let Some(c) = best_where(buys, any, rank, true) {
        lemma_option_cards_offered(opts, 1, c);
    }
    if opts.contains(Move::Buy(x)) {
        assert(kind_move(1, x) == Move::Buy(x));
        lemma_option_cards_complete(opts, 1, x);
        let k = choose|k: int| 0 <= k < buys.len() && buys[k] == x;
        assert(any(buys[k]));
    }
}

/// In the action phase the heuristic plays an offered Action of the highest
/// priority among those worth playing (priority above 3), and ends the phase
/// when none is worth playing.
pub proof fn lemma_plays_best<R: GainRank>(s: GameState, d: Decision, ranker: R, st: DeckStats, x: Card)
    requires
        d.ctx == Ctx::ActionPhase,
    ensures
        d.options@.contains(Move::Play(x)) && spec_action_priority(x, s.players@[d.player as int].hand@) > 3 ==> (
        default_choice(s, d, ranker, st) matches Move::Play(c) && d.options@.contains(Move::Play(c))
            && spec_action_priority(c, s.players@[d.player as int].hand@) >= spec_action_priority(
            x,
            s.players@[d.player as int].hand@,
        )),
        default_choice(s, d, ranker, st) matches Move::Play(c) ==> d.options@.contains(Move::Play(c))
            && spec_action_priority(c, s.players@[d.player as int].hand@) > 3,
        default_choice(s, d, ranker, st) is Play || default_choice(s, d, ranker, st) == Move::Done,
{
    let opts = d.options@;
    let hand = s.players@[d.player as int].hand@;
    let plays = option_cards(opts, 0);
    let playable = |c: Card| spec_action_priority(c, hand) > 3;
    let prio = |c: Card| spec_action_priority(c, hand) as int;
    lemma_best_where_best(plays, playable, prio, true);
    lemma_best_where_in(plays, playable, prio, true);
    if let Some(c) = best_where(plays, playable, prio, true) {
        lemma_option_cards_offered(opts, 0, c);
    }
    if opts.contains(Move::Play(x)) {
        assert(kind_move(0, x) == Move::Play(x));
        lemma_option_cards_complete(opts, 0, x);
        let k = choose|k: int| 0 <= k < plays.len() && plays[k] == x;
        assert(prio(plays[k]) == spec_action_priority(x, hand) as int);
    }
}

/// Asked to discard (for Militia or Poacher), the heuristic discards a card
/// whenever it may, and never one that ranks above another card it could
/// discard instead.
pub proof fn lemma_discards_lowest<R: GainRank>(s: GameState, d: Decision, ranker: R, st: DeckStats, x: Card)
    requires
        d.ctx == Ctx::MilitiaDiscard || d.ctx == Ctx::PoacherDiscard,
        d.options@.contains(Move::Select(x)),
    ensures
        default_choice(s, d, ranker, st) matches Move::Select(c) && d.options@.contains(Move::Select(c))
            && spec_discard_rank(c) <= spec_discard_rank(x),
{
    let opts = d.options@;
    let selects = option_cards(opts, 2);
    let any = |c: Card| true;
    let discard = |c: Card| spec_discard_rank(c) as int;
    assert(kind_move(2, x) == Move::Select(x));
    lemma_option_cards_complete(opts, 2, x);
    let k = choose|k: int| 0 <= k < selects.len() && selects[k] == x;
    assert(any(selects[k]));
    lemma_best_where_best(selects, any, discard, false);
    lemma_best_where_in(selects, any, discard, false);
    let c = best_where(selects, any, discard, false)->0;
    lemma_option_cards_offered(opts, 2, c);
    assert(default_choice(s, d, ranker, st) == Move::Select(c));
}

/// The first card passing a test is one of the cards.
proof fn lemma_first_where_in(s: Seq<Card>, pred: spec_fn(Card) -> bool)
    ensures
        first_where(s, pred) matches Some(c) ==> s.contains(c),
    decreases s.len(),
{
    if s.len() > 0 {
        lemma_first_where_in(s.drop_last(), pred);
        if let Some(c) = first_where(s.drop_last(), pred) {
            let i = choose|i: int| 0 <= i < s.drop_last().len() && s.drop_last()[i] == c;
            assert(s[i] == c);
        }
        assert(s[s.len() - 1] == s.last());
    }
}

/// The first option that plays a card is an option.
proof fn lemma_first_play_in(opts: Seq<Move>)
    ensures
        first_play(opts) matches Some(m) ==> opts.contains(m),
    decreases opts.len(),
{
    if opts.len() > 0 {
        lemma_first_play_in(opts.drop_last());
        if let Some(m) = first_play(opts.drop_last()) {
            let i = choose|i: int| 0 <= i < opts.drop_last().len() && opts.drop_last()[i] == m;
            assert(opts[i] == m);
        }
        assert(opts[opts.len() - 1] == opts.last());
    }
}

/// The heuristic's choice is one of the decision's options or declines with
/// `Done`; the only exceptions are revealing Moat and Moneylender's Copper,
/// which it names without looking at the options.
pub proof fn lemma_default_choice_offered<R: GainRank>(s: GameState, d: Decision, ranker: R, st: DeckStats)
    ensures
        ({
            let r = default_choice(s, d, ranker, st);
            ||| r == Move::Done
            ||| d.options@.contains(r)
            ||| d.ctx == Ctx::MoatReveal && r == Move::Select(Card::Moat)
            ||| d.ctx == Ctx::MoneylenderTrash && r == Move::Select(Card::Copper)
        }),
{
    let p = d.player as int;
    let hand = s.players@[p].hand@;
    let opts = d.options@;
    let selects = option_cards(opts, 2);
    let plays = option_cards(opts, 0);
    let buys = option_cards(opts, 1);
    let r = default_choice(s, d, ranker, st);
    lemma_first_play_in(opts);
    assert forall|pred: spec_fn(Card) -> bool, key: spec_fn(Card) -> int, latest: bool|
        #![trigger best_where(selects, pred, key, latest)]
        best_where(selects, pred, key, latest) matches Some(c) ==> selects.contains(c) by {
        lemma_best_where_in(selects, pred, key, latest);
    }
    assert forall|pred: spec_fn(Card) -> bool, key: spec_fn(Card) -> int, latest: bool|
        #![trigger best_where(plays, pred, key, latest)]
        best_where(plays, pred, key, latest) matches Some(c) ==> plays.contains(c) by {
        lemma_best_where_in(plays, pred, key, latest);
    }
    assert forall|pred: spec_fn(Card) -> bool, key: spec_fn(Card) -> int, latest: bool|
        #![trigger best_where(buys, pred, key, latest)]
        best_where(buys, pred, key, latest) matches Some(c) ==> buys.contains(c) by {
        lemma_best_where_in(buys, pred, key, latest);
    }
    assert forall|pred: spec_fn(Card) -> bool| #![trigger first_where(plays, pred)]
        first_where(plays, pred) matches Some(c) ==> plays.contains(c) by {
        lemma_first_where_in(plays, pred);
    }
    if selects.len() > 0 {
        assert(selects.contains(selects[0]));
    }
    match r {
        Move::Select(c) => {
            if selects.contains(c) {
                lemma_option_cards_offered(opts, 2, c);
            }
        },
        Move::Play(c) => {
            if plays.contains(c) {
                lemma_option_cards_offered(opts, 0, c);
            }
        },
        Move::Buy(c) => {
            if buys.contains(c) {
                lemma_option_cards_offered(opts, 1, c);
            }
        },
        Move::Done => {},
    }
}

/// The cards of the options of one kind, in option order.
fn cards_in(opts: &Vec<Move>, kind: u8) -> (r: Vec<Card>)
    ensures
        r@ == option_cards(opts@, kind as int),
{
    let mut r: Vec<Card> = Vec::new();
    let mut i: usize = 0;
    while i < opts.len()
        invariant
            i <= opts@.len(),
            r@ == option_cards(opts@.take(i as int), kind as int),
        decreases opts@.len() - i,
    {
        assert(opts@.take((i + 1) as int).drop_last() =~= opts@.take(i as int));
        match opts[i] {
            Move::Play(c) => if kind == 0 {
                r.push(c);
            },
            Move::Buy(c) => if kind == 1 {
                r.push(c);
            },
            Move::Select(c) => if kind == 2 {
                r.push(c);
            },
            Move::Done => {},
        }
        i = i + 1;
    }
    assert(opts@.take(opts@.len() as int) =~= opts@);
    r
}

/// The best card by a test and a key, computed with exec closures that
/// agree with the spec ones.
fn pick_best<P: Fn(Card) -> bool, K: Fn(Card) -> i32>(
    cards: &Vec<Card>,
    pred: P,
    key: K,
    latest: bool,
    Ghost(sp): Ghost<spec_fn(Card) -> bool>,
    Ghost(sk): Ghost<spec_fn(Card) -> int>,
) -> (r: Option<Card>)
    requires
        forall|c: Card| call_requires(pred, (c,)),
        forall|c: Card| call_requires(key, (c,)),
        forall|c: Card, b: bool| call_ensures(pred, (c,), b) ==> b == sp(c),
        forall|c: Card, k: i32| call_ensures(key, (c,), k) ==> k == sk(c),
    ensures
        r == best_where(cards@, sp, sk, latest),
{
    let mut best: Option<Card> = None;
    let mut best_key: i32 = 0;
    let mut i: usize = 0;
    while i < cards.len()
        invariant
            i <= cards@.len(),
            forall|c: Card| call_requires(pred, (c,)),
            forall|c: Card| call_requires(key, (c,)),
            forall|c: Card, b: bool| call_ensures(pred, (c,), b) ==> b == sp(c),
            forall|c: Card, k: i32| call_ensures(key, (c,), k) ==> k == sk(c),
            best == best_where(cards@.take(i as int), sp, sk, latest),
            best matches Some(m) ==> best_key == sk(m),
        decreases cards@.len() - i,
    {
        assert(cards@.take((i + 1) as int).drop_last() =~= cards@.take(i as int));
        let c = cards[i];
        if pred(c) {
            let k = key(c);
            match best {
                None => {
                    best = Some(c);
                    best_key = k;
                },
                Some(_) => {
                    if (latest && k >= best_key) || (!latest && k < best_key) {
                        best = Some(c);
                        best_key = k;
                    }
                },
            }
        }
        i = i + 1;
    }
    assert(cards@.take(cards@.len() as int) =~= cards@);
    best
}

/// The first card that passes a test.
fn pick_first<P: Fn(Card) -> bool>(cards: &Vec<Card>, pred: P, Ghost(sp): Ghost<spec_fn(Card) -> bool>) -> (r: Option<Card>)
    requires
        forall|c: Card| call_requires(pred, (c,)),
        forall|c: Card, b: bool| call_ensures(pred, (c,), b) ==> b == sp(c),
    ensures
        r == first_where(cards@, sp),
{
    let mut i: usize = 0;
    while i < cards.len()
        invariant
            i <= cards@.len(),
            forall|c: Card| call_requires(pred, (c,)),
            forall|c: Card, b: bool| call_ensures(pred, (c,), b) ==> b == sp(c),
            first_where(cards@.take(i as int), sp) is None,
        decreases cards@.len() - i,
    {
        assert(cards@.take((i + 1) as int).drop_last() =~= cards@.take(i as int));
        if pred(cards[i]) {
            proof {
                lemma_first_where_prefix(cards@, sp, (i + 1) as int);
            }
            return Some(cards[i]);
        }
        i = i + 1;
    }
    assert(cards@.take(cards@.len() as int) =~= cards@);
    None
}

/// Once a prefix has a first match, so does the whole sequence.
proof fn lemma_first_where_prefix(s: Seq<Card>, pred: spec_fn(Card) -> bool, k: int)
    requires
        0 <= k <= s.len(),
        first_where(s.take(k), pred) is Some,
    ensures
        first_where(s, pred) == first_where(s.take(k), pred),
    decreases s.len() - k,
{
    if k < s.len() {
        assert(s.take(k + 1).drop_last() =~= s.take(k));
        lemma_first_where_prefix(s, pred, k + 1);
    } else {
        assert(s.take(k) =~= s);
    }
}

/// The first option that plays a card.
fn find_play(opts: &Vec<Move>) -> (r: Option<Move>)
    ensures
        r == first_play(opts@),
{
    let mut i: usize = 0;
    while i < opts.len()
        invariant
            i <= opts@.len(),
            first_play(opts@.take(i as int)) is None,
        decreases opts@.len() - i,
    {
        assert(opts@.take((i + 1) as int).drop_last() =~= opts@.take(i as int));
        if let Move::Play(_) = opts[i] {
            proof {
                lemma_first_play_prefix(opts@, (i + 1) as int);
            }
            return Some(opts[i]);
        }
        i = i + 1;
    }
    assert(opts@.take(opts@.len() as int) =~= opts@);
    None
}

/// Once a prefix has a play option, the first play of the whole sequence is its.
proof fn lemma_first_play_prefix(s: Seq<Move>, k: int)
    requires
        0 <= k <= s.len(),
        first_play(s.take(k)) is Some,
    ensures
        first_play(s) == first_play(s.take(k)),
    decreases s.len() - k,
{
    if k < s.len() {
        assert(s.take(k + 1).drop_last() =~= s.take(k));
        lemma_first_play_prefix(s, k + 1);
    } else {
        assert(s.take(k) =~= s);
    }
}

/// Whether a card is in a list.
fn has_card(cards: &Vec<Card>, c: Card) -> (r: bool)
    ensures
        r == cards@.contains(c),
{
    let mut i: usize = 0;
    while i < cards.len()
        invariant
            i <= cards@.len(),
            forall|j: int| 0 <= j < i ==> cards@[j] != c,
        decreases cards@.len() - i,
    {
        if cards[i] == c {
            assert(cards@[i as int] == c);
            return true;
        }
        i = i + 1;
    }
    false
}

/// Total coins the player's deck can produce.
fn deck_coin_value(p: &PlayerState) -> (r: u32)
    requires
        owned_len(*p) <= count_bound(),
    ensures
        r == coin_sum(owned(*p)),
{
    let all = p.all_cards();
    let mut sum: u32 = 0;
    let mut i: usize = 0;
    while i < all.len()
        invariant
            all@ == owned(*p),
            all@.len() <= count_bound(),
            i <= all@.len(),
            sum == coin_sum(all@.take(i as int)),
        decreases all@.len() - i,
    {
        proof {
            assert(all@.take((i + 1) as int).drop_last() =~= all@.take(i as int));
            lemma_coin_sum_le(all@.take(i as int));
        }
        sum = sum + all[i].coin_value() as u32;
        i = i + 1;
    }
    assert(all@.take(all@.len() as int) =~= all@);
    sum
}

/// Is this card worth trashing right now?
fn worth_trashing(card: Card, state: &GameState, p: usize) -> (r: bool)
    requires
        p < state.players@.len(),
        bounded_decks(*state),
    ensures
        r == spec_worth_trashing(card, *state, p as int),
{
    if card == Card::Curse {
        true
    } else if card == Card::Estate {
        state.supply_of(Card::Province) > 4
    } else if card == Card::Copper {
        deck_coin_value(&state.players[p]) > 3
    } else {
        false
    }
}

/// Player `p` exists and every deck is bounded.
pub open spec fn player_ready(state: &GameState, p: usize) -> bool {
    p < state.players@.len() && bounded_decks(*state)
}

/// `ranker` can rank gains for player `p`, whose deck `stats` summarises.
pub open spec fn rank_ready<R: GainRank>(ranker: &R, state: &GameState, p: usize, stats: &DeckStats) -> bool {
    &&& player_ready(state, p)
    &&& stats_of(*stats, *state, p as int)
}

/// Pick the best option for any decision, ranking gains with `ranker`.
pub fn default_move_with<R: GainRank>(state: &GameState, d: &Decision, ranker: &R) -> (r: Move)
    requires
        d.player < state.players@.len(),
        bounded_decks(*state),
    ensures
        forall|st: DeckStats| stats_of(st, *state, d.player as int) ==> r == default_choice(*state, *d, *ranker, st),
        r == default_choice(*state, *d, *ranker, deck_stats(*state, d.player as int)),
{
    let stats = DeckStats::of(state, d.player);
    proof {
        let st0 = deck_stats(*state, d.player as int);
        assert(stats_of(st0, *state, d.player as int));
        lemma_stats_unique(stats, st0, *state, d.player as int);
        assert forall|st: DeckStats| stats_of(st, *state, d.player as int) implies st == stats by {
            lemma_stats_unique(st, stats, *state, d.player as int);
        }
    }
    default_move_given(state, d, ranker, stats)
}

/// The best option for a decision, for a player whose deck `stats` summarises.
fn default_move_given<R: GainRank>(state: &GameState, d: &Decision, ranker: &R, stats: DeckStats) -> (r: Move)
    requires
        d.player < state.players@.len(),
        bounded_decks(*state),
        stats_of(stats, *state, d.player as int),
    ensures
        r == default_choice(*state, *d, *ranker, stats),
{
    let p = d.player;
    let hand = &state.players[p].hand;
    let ghost s = *state;
    let ghost hs = hand@;
    let ghost rank = |c: Card| ranker.spec_rank(c, s, p as int, stats);
    let ghost prio = |c: Card| spec_action_priority(c, hs) as int;
    let ghost playable = |c: Card| spec_action_priority(c, hs) > 3;
    let ghost any = |c: Card| true;
    let ghost worth = |c: Card| spec_worth_trashing(c, s, p as int);
    let ghost junk = |c: Card| is_junk(c);
    let ghost discard = |c: Card| spec_discard_rank(c) as int;
    let ghost trash = |c: Card| spec_trash_rank(c) as int;
    let ghost cost = |c: Card| c.spec_cost() as int;
    let rank_f = |c: Card| -> (k: i32)
        requires
            rank_ready(ranker, state, p, &stats),
        ensures
            k == ranker.spec_rank(c, *state, p as int, stats),
        { ranker.rank(c, state, p, &stats) };
    let prio_f = |c: Card| -> (k: i32)
        ensures
            k == spec_action_priority(c, hand@),
        { action_priority(c, hand.as_slice(), state) };
    let playable_f = |c: Card| -> (b: bool)
        ensures
            b == (spec_action_priority(c, hand@) > 3),
        { action_priority(c, hand.as_slice(), state) > 3 };
    let any_f = |c: Card| -> (b: bool)
        ensures
            b == true,
        { true };
    let worth_f = |c: Card| -> (b: bool)
        requires
            player_ready(state, p),
        ensures
            b == spec_worth_trashing(c, *state, p as int),
        { worth_trashing(c, state, p) };
    let junk_f = |c: Card| -> (b: bool)
        ensures
            b == is_junk(c),
        { c.is_victory() || c.is_curse() };
    let discard_f = |c: Card| -> (k: i32)
        ensures
            k == spec_discard_rank(c),
        { discard_rank(c) };
    let trash_f = |c: Card| -> (k: i32)
        ensures
            k == spec_trash_rank(c),
        { trash_rank(c) };
    let cost_f = |c: Card| -> (k: i32)
        ensures
            k == c.spec_cost() as int,
        { c.cost() as i32 };
    let r = match d.ctx {
        Ctx::ActionPhase => {
            let plays = cards_in(&d.options, 0);
            match pick_best(&plays, playable_f, prio_f, true, Ghost(playable), Ghost(prio)) {
                Some(c) => Move::Play(c),
                None => Move::Done,
            }
        },
        Ctx::BuyPhase => {
            match find_play(&d.options) {
                Some(m) => m,
                None => {
                    let buys = cards_in(&d.options, 1);
                    match pick_best(&buys, any_f, rank_f, true, Ghost(any), Ghost(rank)) {
                        Some(c) => if ranker.rank(c, state, p, &stats) > 0 {
                            Move::Buy(c)
                        } else {
                            Move::Done
                        },
                        None => Move::Done,
                    }
                },
            }
        },
        Ctx::MoatReveal => Move::Select(Card::Moat),
        Ctx::CellarDiscard | Ctx::SentryDiscard => {
            let sel = cards_in(&d.options, 2);
            match pick_best(&sel, junk_f, discard_f, false, Ghost(junk), Ghost(discard)) {
                Some(c) => Move::Select(c),
                None => Move::Done,
            }
        },
        Ctx::ChapelTrash | Ctx::SentryTrash => {
            let sel = cards_in(&d.options, 2);
            match pick_best(&sel, worth_f, trash_f, false, Ghost(worth), Ghost(trash)) {
                Some(c) => Move::Select(c),
                None => Move::Done,
            }
        },
        Ctx::MoneylenderTrash => if worth_trashing(Card::Copper, state, p) {
            Move::Select(Card::Copper)
        } else {
            Move::Done
        },
        Ctx::MilitiaDiscard | Ctx::PoacherDiscard => {
            let sel = cards_in(&d.options, 2);
            match pick_best(&sel, any_f, discard_f, false, Ghost(any), Ghost(discard)) {
                Some(c) => Move::Select(c),
                None => Move::Done,
            }
        },
        Ctx::HarbingerTopdeck => {
            let sel = cards_in(&d.options, 2);
            let keep_f = |c: Card| -> (b: bool)
                ensures
                    b == !is_junk(c),
                { !(c.is_victory() || c.is_curse()) };
            match pick_best(&sel, keep_f, rank_f, true, Ghost(|c: Card| !is_junk(c)), Ghost(rank)) {
                Some(c) => Move::Select(c),
                None => Move::Done,
            }
        },
        Ctx::VassalPlay => {
            let plays = cards_in(&d.options, 0);
            match pick_first(&plays, playable_f, Ghost(playable)) {
                Some(c) => Move::Play(c),
                None => Move::Done,
            }
        },
        Ctx::WorkshopGain | Ctx::RemodelGain | Ctx::MineGain | Ctx::ArtisanGain | Ctx::SentryOrder
        | Ctx::ArtisanTopdeck => {
            let sel = cards_in(&d.options, 2);
            match pick_best(&sel, any_f, rank_f, true, Ghost(any), Ghost(rank)) {
                Some(c) => Move::Select(c),
                None => Move::Done,
            }
        },
        Ctx::RemodelTrash => {
            let sel = cards_in(&d.options, 2);
            match pick_best(&sel, worth_f, trash_f, false, Ghost(worth), Ghost(trash)) {
                Some(c) => Move::Select(c),
                None => match pick_best(&sel, any_f, cost_f, false, Ghost(any), Ghost(cost)) {
                    Some(c) => Move::Select(c),
                    None => Move::Done,
                },
            }
        },
        Ctx::MineTrash => {
            let sel = cards_in(&d.options, 2);
            if has_card(&sel, Card::Silver) && state.supply_of(Card::Gold) > 0 {
                Move::Select(Card::Silver)
            } else if has_card(&sel, Card::Copper) && state.supply_of(Card::Silver) > 0 {
                Move::Select(Card::Copper)
            } else {
                Move::Done
            }
        },
        Ctx::ThroneRoomPlay => {
            let plays = cards_in(&d.options, 0);
            let throne_f = |c: Card| -> (k: i32)
                ensures
                    k == throne_key(c, hand@),
                { throne_value(c) * 1000 + action_priority(c, hand.as_slice(), state) };
            match pick_best(&plays, playable_f, throne_f, true, Ghost(playable), Ghost(|c: Card| throne_key(c, hs))) {
                Some(c) => Move::Play(c),
                None => Move::Done,
            }
        },
        Ctx::LibrarySetAside => {
            let sel = cards_in(&d.options, 2);
            if sel.len() > 0 {
                let c = sel[0];
                if state.players[p].actions > 0 && action_priority(c, hand.as_slice(), state) > 3 {
                    Move::Done
                } else {
                    Move::Select(c)
                }
            } else {
                Move::Done
            }
        },
        Ctx::BureaucratReveal | Ctx::BanditTrash => {
            let sel = cards_in(&d.options, 2);
            match pick_best(&sel, any_f, cost_f, false, Ghost(any), Ghost(cost)) {
                Some(c) => Move::Select(c),
                None => Move::Done,
            }
        },
    };
    proof {
        assert forall|st: DeckStats| stats_of(st, *state, d.player as int) implies r == default_choice(*state, *d, *ranker, st) by {
            lemma_stats_unique(st, stats, *state, d.player as int);
        }
    }
    r
}

/// The shared heuristic with the default money-first gain ranking.
pub fn default_move(state: &GameState, d: &Decision) -> (r: Move)
    requires
        d.player < state.players@.len(),
        bounded_decks(*state),
    ensures
        forall|st: DeckStats| stats_of(st, *state, d.player as int) ==> r == default_choice(*state, *d, GainPreference, st),
        r == default_choice(*state, *d, GainPreference, deck_stats(*state, d.player as int)),
{
    default_move_with(state, d, &GainPreference)
}

/// Uniformly random legal moves: a sanity opponent.
pub struct RandomAgent {
    rng: Rng,
}

impl RandomAgent {
    /// The state of the agent's generator.
    pub closed spec fn rng_state(&self) -> Seq<u64> {
        self.rng.state()
    }

    /// A random agent drawing from a generator seeded with `seed`.
    pub fn new(seed: u64) -> (r: RandomAgent)
        ensures
            r.rng_state() == crate::rng::seeded_state(seed),
    {
        RandomAgent { rng: Rng::new(seed) }
    }
}

impl Agent for RandomAgent {
    /// The option at a uniformly drawn index.
    fn decide(&mut self, state: &GameState, d: &Decision) -> (m: Move)
        ensures
            m == d.options@[crate::rng::below_value(old(self).rng_state(), d.options@.len() as u64) as int],
            final(self).rng_state() == crate::rng::below_state(old(self).rng_state(), d.options@.len() as u64),
    {
        let i = self.rng.below(d.options.len() as u64);
        d.options[i as usize]
    }

    fn name(&self) -> (r: String)
        ensures
            r@ == "Random"@,
    {
        String::from_str("Random")
    }
}

/// The shared heuristic as a bot in its own right, with no buy menu on top.
#[derive(Clone, Copy, Debug)]
pub struct HeuristicBot;

impl Agent for HeuristicBot {
    /// The shared policy's answer with the default gain ranking.
    fn decide(&mut self, state: &GameState, d: &Decision) -> (m: Move)
        ensures
            forall|st: DeckStats| stats_of(st, *state, d.player as int) ==> m == default_choice(*state, *d, GainPreference, st),
    {
        default_move(state, d)
    }

    fn name(&self) -> (r: String)
        ensures
            r@ == "Heuristic"@,
    {
        String::from_str("Heuristic")
    }
}

} // verus!
