//! Declarative buy menus.
//!
//! A menu is an ordered list of rules; the first rule that matches a card
//! wins. This is expressive enough for every classic Base-set strategy, which
//! makes it the right shape for a benchmark ladder.

use vstd::prelude::*;
use vstd::string::StringExecFns;
use crate::agent::Agent;
use crate::card::Card;
use crate::policy::{
    bounded_decks, default_choice, default_move_with, provinces_left, spec_gain_preference,
    gain_preference, stats_of, DeckStats, GainRank,
};
use crate::state::{cnt, owned, Decision, GameState, Move};

verus! {

/// One line of a buy menu.
#[derive(Clone, Copy, Debug)]
pub struct BuyRule {
    pub card: Card,
    /// Stop buying once the player owns this many copies.
    pub max_owned: u32,
    /// Only while at least this many Provinces remain.
    pub min_provinces_left: u8,
    /// Only once the Province pile is down to this many.
    pub max_provinces_left: u8,
}

/// Rule `r` fires for `card` and player `p`: the card is the rule's, the
/// Province pile lies in the rule's window, and the player owns fewer copies
/// than the rule's cap.
pub open spec fn rule_matches(r: BuyRule, card: Card, s: GameState, p: int) -> bool {
    &&& card == r.card
    &&& r.min_provinces_left <= provinces_left(s) <= r.max_provinces_left
    &&& cnt(owned(s.players@[p]), card) < r.max_owned
}

/// The index of the first rule that fires.
pub open spec fn first_rule(rules: Seq<BuyRule>, card: Card, s: GameState, p: int) -> Option<int>
    decreases rules.len(),
{
    if rules.len() == 0 {
        None
    } else {
        match first_rule(rules.drop_last(), card, s, p) {
            Some(i) => Some(i),
            None => if rule_matches(rules.last(), card, s, p) {
                Some(rules.len() - 1)
            } else {
                None
            },
        }
    }
}

/// The rank a menu gives a card: rules in order from 100,000 down in steps of
/// 100 (wrapping in `i32` as a release build does, for menus of more than
/// twenty million rules), and for a card no rule wants, the shared
/// preference shifted far below zero.
pub open spec fn menu_rank(rules: Seq<BuyRule>, card: Card, s: GameState, p: int, st: DeckStats) -> int {
    match first_rule(rules, card, s, p) {
        Some(i) => (100_000i32).wrapping_sub((i as usize as i32).wrapping_mul(100)) as int,
        None => spec_gain_preference(card, s, st) - 100_000,
    }
}

impl BuyRule {
    /// A rule that always buys `card`.
    pub fn new(card: Card) -> (r: BuyRule)
        ensures
            r.card == card,
            r.max_owned == u32::MAX,
            r.min_provinces_left == 0,
            r.max_provinces_left == u8::MAX,
    {
        BuyRule { card, max_owned: u32::MAX, min_provinces_left: 0, max_provinces_left: u8::MAX }
    }

    /// Stop once `n` copies are owned.
    pub fn at_most(self, n: u32) -> (r: BuyRule)
        ensures
            r == (BuyRule { max_owned: n, ..self }),
    {
        let mut r = self;
        r.max_owned = n;
        r
    }

    /// Only fire while more than `n` Provinces are left.
    pub fn while_provinces_above(self, n: u8) -> (r: BuyRule)
        requires
            n < u8::MAX,
        ensures
            r == (BuyRule { min_provinces_left: (n + 1) as u8, ..self }),
    {
        let mut r = self;
        r.min_provinces_left = n + 1;
        r
    }

    /// Only fire once `n` or fewer Provinces are left.
    pub fn when_provinces_at_most(self, n: u8) -> (r: BuyRule)
        ensures
            r == (BuyRule { max_provinces_left: n, ..self }),
    {
        let mut r = self;
        r.max_provinces_left = n;
        r
    }

    /// Whether the rule fires for `card` and `player`.
    fn matches(&self, card: Card, state: &GameState, player: usize) -> (r: bool)
        requires
            player < state.players@.len(),
            bounded_decks(*state),
        ensures
            r == rule_matches(*self, card, *state, player as int),
    {
        if card != self.card {
            return false;
        }
        let left = state.supply_of(Card::Province);
        if left < self.min_provinces_left || left > self.max_provinces_left {
            return false;
        }
        let n = state.players[player].count_owned(card);
        proof {
            crate::census::lemma_cnt_le_len(owned(state.players@[player as int]), card);
        }
        (n as u32) < self.max_owned
    }
}

/// A named, ordered list of buy rules.
#[derive(Clone, Debug)]
pub struct BuyMenu {
    pub name: String,
    pub rules: Vec<BuyRule>,
}

impl BuyMenu {
    /// A menu with a name and rules.
    pub fn new(name: &str, rules: Vec<BuyRule>) -> (r: BuyMenu)
        ensures
            r.name@ == name@,
            r.rules@ == rules@,
    {
        BuyMenu { name: String::from_str(name), rules }
    }

    /// The index of the first rule that fires.
    fn first_match(&self, card: Card, state: &GameState, player: usize) -> (r: Option<usize>)
        requires
            player < state.players@.len(),
            bounded_decks(*state),
        ensures
            match r {
                Some(i) => first_rule(self.rules@, card, *state, player as int) == Some(i as int),
                None => first_rule(self.rules@, card, *state, player as int) is None,
            },
    {
        let mut i: usize = 0;
        while i < self.rules.len()
            invariant
                player < state.players@.len(),
                bounded_decks(*state),
                i <= self.rules@.len(),
                first_rule(self.rules@.take(i as int), card, *state, player as int) is None,
            decreases self.rules@.len() - i,
        {
            assert(self.rules@.take((i + 1) as int).drop_last() =~= self.rules@.take(i as int));
            if self.rules[i].matches(card, state, player) {
                proof {
                    lemma_first_rule_prefix(self.rules@, card, *state, player as int, (i + 1) as int);
                }
                return Some(i);
            }
            i = i + 1;
        }
        assert(self.rules@.take(self.rules@.len() as int) =~= self.rules@);
        None
    }

    /// Score a card as a gain target. Cards the menu does not want score
    /// negative, so the buy phase declines them, but a forced gain still
    /// picks the least bad option.
    pub fn rank(&self, card: Card, state: &GameState, player: usize) -> (r: i32)
        requires
            player < state.players@.len(),
            bounded_decks(*state),
        ensures
            forall|st: DeckStats| stats_of(st, *state, player as int) ==> r == menu_rank(self.rules@, card, *state, player as int, st),
    {
        let stats = DeckStats::of(state, player);
        let r = self.rank_with(card, state, player, &stats);
        proof {
            assert forall|st: DeckStats| stats_of(st, *state, player as int) implies r == menu_rank(self.rules@, card, *state, player as int, st) by {
                crate::policy::lemma_stats_unique(st, stats, *state, player as int);
            }
        }
        r
    }

    /// The rank of `card`, with the player's deck summary already at hand.
    fn rank_with(&self, card: Card, state: &GameState, player: usize, stats: &DeckStats) -> (r: i32)
        requires
            player < state.players@.len(),
            bounded_decks(*state),
            stats_of(*stats, *state, player as int),
        ensures
            r == menu_rank(self.rules@, card, *state, player as int, *stats),
    {
        match self.first_match(card, state, player) {
            Some(i) => 100_000i32.wrapping_sub((i as i32).wrapping_mul(100)),
            None => {
                proof {
                    crate::policy::lemma_stats_bounded(*stats, *state, player as int);
                }
                gain_preference(card, state, player, stats) - 100_000
            },
        }
    }
}

/// The rank of a card under the menu's rule `i` (of fewer than a thousand).
proof fn lemma_rule_rank(i: int)
    requires
        0 <= i < 1000,
    ensures
        (100_000i32).wrapping_sub((i as usize as i32).wrapping_mul(100)) as int == 100_000 - 100 * i,
{
    let k = i as usize as i32;
    assert(k as int == i);
    assert(0 <= k * 100 <= 99_900) by (nonlinear_arith)
        requires
            0 <= k < 1000,
    ;
    assert((k * 100) % 0x1_0000_0000int == k * 100);
    assert(k.wrapping_mul(100) as int == k * 100);
}

/// The shared preference never ranks a card above 1000 nor below -1000.
proof fn lemma_preference_range(card: Card, s: GameState, st: DeckStats)
    ensures
        -1000 <= spec_gain_preference(card, s, st) <= 1000,
{
}

/// A menu ranks cards by its rules in order: a card whose first firing rule
/// comes earlier ranks higher, and any card some rule wants ranks above every
/// card no rule wants (for menus of fewer than a thousand rules).
pub proof fn lemma_menu_order(rules: Seq<BuyRule>, c1: Card, c2: Card, s: GameState, p: int, st: DeckStats)
    requires
        rules.len() < 1000,
    ensures
        first_rule(rules, c1, s, p) matches Some(i) ==> menu_rank(rules, c1, s, p, st) == 100_000 - 100 * i,
        first_rule(rules, c1, s, p) matches Some(i) && first_rule(rules, c2, s, p) matches Some(j) && i < j
            ==> menu_rank(rules, c2, s, p, st) < menu_rank(rules, c1, s, p, st),
        first_rule(rules, c1, s, p) is Some && first_rule(rules, c2, s, p) is None ==> menu_rank(rules, c2, s, p, st)
            < 0 < menu_rank(rules, c1, s, p, st),
{
    lemma_first_rule_bounds(rules, c1, s, p);
    lemma_first_rule_bounds(rules, c2, s, p);
    if let Some(i) = first_rule(rules, c1, s, p) {
        lemma_rule_rank(i);
    }
    if let Some(j) = first_rule(rules, c2, s, p) {
        lemma_rule_rank(j);
    }
    lemma_preference_range(c2, s, st);
}

/// The first firing rule is one of the menu's rules, and it fires.
proof fn lemma_first_rule_bounds(rules: Seq<BuyRule>, card: Card, s: GameState, p: int)
    ensures
        first_rule(rules, card, s, p) matches Some(i) ==> 0 <= i < rules.len() && rule_matches(rules[i], card, s, p),
    decreases rules.len(),
{
    if rules.len() > 0 {
        lemma_first_rule_bounds(rules.drop_last(), card, s, p);
        if let Some(i) = first_rule(rules.drop_last(), card, s, p) {
            assert(rules.drop_last()[i] == rules[i]);
        }
    }
}

/// Once a prefix has a matching rule, so does the whole menu.
proof fn lemma_first_rule_prefix(rules: Seq<BuyRule>, card: Card, s: GameState, p: int, k: int)
    requires
        0 <= k <= rules.len(),
        first_rule(rules.take(k), card, s, p) is Some,
    ensures
        first_rule(rules, card, s, p) == first_rule(rules.take(k), card, s, p),
    decreases rules.len() - k,
{
    if k < rules.len() {
        assert(rules.take(k + 1).drop_last() =~= rules.take(k));
        lemma_first_rule_prefix(rules, card, s, p, k + 1);
    } else {
        assert(rules.take(k) =~= rules);
    }
}

impl GainRank for BuyMenu {
    open spec fn spec_rank(&self, card: Card, state: GameState, player: int, stats: DeckStats) -> int {
        menu_rank(self.rules@, card, state, player, stats)
    }

    fn rank(&self, card: Card, state: &GameState, player: usize, stats: &DeckStats) -> (r: i32) {
        self.rank_with(card, state, player, stats)
    }
}

/// An agent that buys by menu and defers every other decision to the shared
/// heuristic policy.
pub struct MenuBot {
    pub menu: BuyMenu,
}

impl MenuBot {
    /// A bot playing `menu`.
    pub fn new(menu: BuyMenu) -> (r: MenuBot)
        ensures
            r.menu.name@ == menu.name@,
            r.menu.rules@ == menu.rules@,
    {
        MenuBot { menu }
    }
}

impl Agent for MenuBot {
    /// The shared policy's answer, ranking gains by the menu.
    fn decide(&mut self, state: &GameState, d: &Decision) -> (m: Move)
        ensures
            forall|st: DeckStats| stats_of(st, *state, d.player as int) ==> m == default_choice(*state, *d, old(self).menu, st),
    {
        default_move_with(state, d, &self.menu)
    }

    fn name(&self) -> (r: String)
        ensures
            r@ == self.menu.name@,
    {
        self.menu.name.clone()
    }
}

// ------------------------------------------------------------ strategies

/// A rule for `card` with the given cap and Province window.
pub open spec fn rule(card: Card, max_owned: u32, min_left: u8, max_left: u8) -> BuyRule {
    BuyRule { card, max_owned, min_provinces_left: min_left, max_provinces_left: max_left }
}

/// The canonical benchmark: Province / Gold / Silver with a late green switch.
pub fn big_money() -> (r: BuyMenu)
    ensures
        r.name@ == "BigMoney"@,
        r.rules@ == seq![
                rule(Card::Province, u32::MAX, 0, u8::MAX),
                rule(Card::Gold, u32::MAX, 0, u8::MAX),
                rule(Card::Duchy, u32::MAX, 0, 4),
                rule(Card::Estate, u32::MAX, 0, 2),
                rule(Card::Silver, u32::MAX, 0, u8::MAX),
            ],
{
    let rules = vec![
            BuyRule::new(Card::Province),
            BuyRule::new(Card::Gold),
            BuyRule::new(Card::Duchy).when_provinces_at_most(4),
            BuyRule::new(Card::Estate).when_provinces_at_most(2),
            BuyRule::new(Card::Silver),
        ];
    BuyMenu::new("BigMoney", rules)
}

/// Big Money plus a single Smithy.
pub fn big_money_smithy() -> (r: BuyMenu)
    ensures
        r.name@ == "BM+Smithy"@,
        r.rules@ == seq![
                rule(Card::Province, u32::MAX, 0, u8::MAX),
                rule(Card::Gold, u32::MAX, 0, u8::MAX),
                rule(Card::Duchy, u32::MAX, 0, 4),
                rule(Card::Estate, u32::MAX, 0, 2),
                rule(Card::Smithy, 1, 0, u8::MAX),
                rule(Card::Silver, u32::MAX, 0, u8::MAX),
            ],
{
    let rules = vec![
            BuyRule::new(Card::Province),
            BuyRule::new(Card::Gold),
            BuyRule::new(Card::Duchy).when_provinces_at_most(4),
            BuyRule::new(Card::Estate).when_provinces_at_most(2),
            BuyRule::new(Card::Smithy).at_most(1),
            BuyRule::new(Card::Silver),
        ];
    BuyMenu::new("BM+Smithy", rules)
}

/// Two Witches on top of money.
pub fn double_witch() -> (r: BuyMenu)
    ensures
        r.name@ == "DoubleWitch"@,
        r.rules@ == seq![
                rule(Card::Province, u32::MAX, 0, u8::MAX),
                rule(Card::Gold, u32::MAX, 0, u8::MAX),
                rule(Card::Witch, 2, 0, u8::MAX),
                rule(Card::Duchy, u32::MAX, 0, 4),
                rule(Card::Estate, u32::MAX, 0, 2),
                rule(Card::Silver, u32::MAX, 0, u8::MAX),
            ],
{
    let rules = vec![
            BuyRule::new(Card::Province),
            BuyRule::new(Card::Gold),
            BuyRule::new(Card::Witch).at_most(2),
            BuyRule::new(Card::Duchy).when_provinces_at_most(4),
            BuyRule::new(Card::Estate).when_provinces_at_most(2),
            BuyRule::new(Card::Silver),
        ];
    BuyMenu::new("DoubleWitch", rules)
}

/// Money with a Militia to slow the opponent down.
pub fn militia_money() -> (r: BuyMenu)
    ensures
        r.name@ == "MilitiaMoney"@,
        r.rules@ == seq![
                rule(Card::Province, u32::MAX, 0, u8::MAX),
                rule(Card::Gold, u32::MAX, 0, u8::MAX),
                rule(Card::Duchy, u32::MAX, 0, 4),
                rule(Card::Estate, u32::MAX, 0, 2),
                rule(Card::Militia, 1, 0, u8::MAX),
                rule(Card::Silver, u32::MAX, 0, u8::MAX),
            ],
{
    let rules = vec![
            BuyRule::new(Card::Province),
            BuyRule::new(Card::Gold),
            BuyRule::new(Card::Duchy).when_provinces_at_most(4),
            BuyRule::new(Card::Estate).when_provinces_at_most(2),
            BuyRule::new(Card::Militia).at_most(1),
            BuyRule::new(Card::Silver),
        ];
    BuyMenu::new("MilitiaMoney", rules)
}

/// Chapel thins the deck early, then plays money.
pub fn chapel_money() -> (r: BuyMenu)
    ensures
        r.name@ == "ChapelMoney"@,
        r.rules@ == seq![
                rule(Card::Province, u32::MAX, 0, u8::MAX),
                rule(Card::Gold, u32::MAX, 0, u8::MAX),
                rule(Card::Chapel, 1, 6, u8::MAX),
                rule(Card::Duchy, u32::MAX, 0, 4),
                rule(Card::Estate, u32::MAX, 0, 2),
                rule(Card::Silver, u32::MAX, 0, u8::MAX),
            ],
{
    let rules = vec![
            BuyRule::new(Card::Province),
            BuyRule::new(Card::Gold),
            BuyRule::new(Card::Chapel).at_most(1).while_provinces_above(5),
            BuyRule::new(Card::Duchy).when_provinces_at_most(4),
            BuyRule::new(Card::Estate).when_provinces_at_most(2),
            BuyRule::new(Card::Silver),
        ];
    BuyMenu::new("ChapelMoney", rules)
}

/// A cheap draw engine: Villages and Smithies.
pub fn village_smithy() -> (r: BuyMenu)
    ensures
        r.name@ == "VillageSmithy"@,
        r.rules@ == seq![
                rule(Card::Province, u32::MAX, 0, u8::MAX),
                rule(Card::Gold, u32::MAX, 0, u8::MAX),
                rule(Card::Duchy, u32::MAX, 0, 3),
                rule(Card::Estate, u32::MAX, 0, 2),
                rule(Card::Smithy, 3, 0, u8::MAX),
                rule(Card::Village, 5, 0, u8::MAX),
                rule(Card::Silver, u32::MAX, 0, u8::MAX),
            ],
{
    let rules = vec![
            BuyRule::new(Card::Province),
            BuyRule::new(Card::Gold),
            BuyRule::new(Card::Duchy).when_provinces_at_most(3),
            BuyRule::new(Card::Estate).when_provinces_at_most(2),
            BuyRule::new(Card::Smithy).at_most(3),
            BuyRule::new(Card::Village).at_most(5),
            BuyRule::new(Card::Silver),
        ];
    BuyMenu::new("VillageSmithy", rules)
}

/// Every named strategy, for round-robin benchmarking.
pub fn ladder() -> (r: Vec<BuyMenu>)
    ensures
        r@.len() == 6,
        r@[0].name@ == "BigMoney"@,
        r@[1].name@ == "BM+Smithy"@,
        r@[2].name@ == "DoubleWitch"@,
        r@[3].name@ == "MilitiaMoney"@,
        r@[4].name@ == "ChapelMoney"@,
        r@[5].name@ == "VillageSmithy"@,
{
    let mut r: Vec<BuyMenu> = Vec::new();
    r.push(big_money());
    r.push(big_money_smithy());
    r.push(double_witch());
    r.push(militia_money());
    r.push(chapel_money());
    r.push(village_smithy());
    r
}

/// The kingdom cards the rules of a menu name, in rule order.
pub open spec fn kingdom_cards_named(rules: Seq<BuyRule>) -> Seq<Card>
    decreases rules.len(),
{
    if rules.len() == 0 {
        Seq::empty()
    } else {
        let rest = kingdom_cards_named(rules.drop_last());
        if crate::card::is_kingdom(rules.last().card) {
            rest.push(rules.last().card)
        } else {
            rest
        }
    }
}

/// The kingdom cards a menu needs in the supply to make sense.
pub fn required_kingdom(menu: &BuyMenu) -> (r: Vec<Card>)
    ensures
        r@ == kingdom_cards_named(menu.rules@),
{
    let mut r: Vec<Card> = Vec::new();
    let mut i: usize = 0;
    while i < menu.rules.len()
        invariant
            i <= menu.rules@.len(),
            r@ == kingdom_cards_named(menu.rules@.take(i as int)),
        decreases menu.rules@.len() - i,
    {
        assert(menu.rules@.take((i + 1) as int).drop_last() =~= menu.rules@.take(i as int));
        let c = menu.rules[i].card;
        if crate::card::is_kingdom_card(c) {
            r.push(c);
        }
        i = i + 1;
    }
    assert(menu.rules@.take(menu.rules@.len() as int) =~= menu.rules@);
    r
}

} // verus!
