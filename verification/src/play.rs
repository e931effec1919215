//! Texts for a human player: what each decision asks, and piles of cards
//! grouped and counted.

use vstd::prelude::*;
use crate::card::{Card, NUM_CARDS};
use crate::log::{move_text, move_to_text};
use crate::state::{cnt, count_in, empty_pile_count, is_winner, owned, owned_len, player_score, score_fits, Ctx, GameState, Move, PlayerState};
use crate::text::{chars_to_string, dec, parse_decimal, parse_uint, push_decimal, push_signed, push_str, sdec, to_chars, trim, trim_chars};

verus! {

/// What a decision asks the player to do.
pub open spec fn prompt_text(ctx: Ctx) -> &'static str {
    match ctx {
        Ctx::ActionPhase => "play an Action, or end the phase",
        Ctx::BuyPhase => "play a Treasure, buy a card, or end your turn",
        Ctx::MoatReveal => "reveal Moat to block the attack?",
        Ctx::CellarDiscard => "Cellar: discard a card (then draw that many)",
        Ctx::ChapelTrash => "Chapel: trash up to 4 cards",
        Ctx::HarbingerTopdeck => "Harbinger: put a card from your discard on top",
        Ctx::VassalPlay => "Vassal: play the discarded Action?",
        Ctx::WorkshopGain => "Workshop: gain a card costing up to $4",
        Ctx::BureaucratReveal => "Bureaucrat: reveal a Victory card to topdeck",
        Ctx::MilitiaDiscard => "Militia: discard down to 3 cards",
        Ctx::MoneylenderTrash => "Moneylender: trash a Copper for +$3?",
        Ctx::PoacherDiscard => "Poacher: discard (one per empty pile)",
        Ctx::RemodelTrash => "Remodel: trash a card",
        Ctx::RemodelGain => "Remodel: gain a card costing up to $2 more",
        Ctx::ThroneRoomPlay => "Throne Room: choose an Action to play twice",
        Ctx::BanditTrash => "Bandit: choose which revealed Treasure is trashed",
        Ctx::LibrarySetAside => "Library: set this Action aside instead of keeping it?",
        Ctx::MineTrash => "Mine: trash a Treasure",
        Ctx::MineGain => "Mine: gain a Treasure costing up to $3 more",
        Ctx::SentryTrash => "Sentry: trash any of the revealed cards",
        Ctx::SentryDiscard => "Sentry: discard any of the rest",
        Ctx::SentryOrder => "Sentry: choose which card goes on top",
        Ctx::ArtisanGain => "Artisan: gain a card costing up to $5",
        Ctx::ArtisanTopdeck => "Artisan: put a card from hand on your deck",
    }
}

/// The prompt shown for a decision: a blank line, `>> ` and what it asks.
pub fn prompt_for(ctx: Ctx) -> (r: String)
    ensures
        r@ == "\n>> "@ + prompt_text(ctx)@,
{
    let what = match ctx {
        Ctx::ActionPhase => "play an Action, or end the phase",
        Ctx::BuyPhase => "play a Treasure, buy a card, or end your turn",
        Ctx::MoatReveal => "reveal Moat to block the attack?",
        Ctx::CellarDiscard => "Cellar: discard a card (then draw that many)",
        Ctx::ChapelTrash => "Chapel: trash up to 4 cards",
        Ctx::HarbingerTopdeck => "Harbinger: put a card from your discard on top",
        Ctx::VassalPlay => "Vassal: play the discarded Action?",
        Ctx::WorkshopGain => "Workshop: gain a card costing up to $4",
        Ctx::BureaucratReveal => "Bureaucrat: reveal a Victory card to topdeck",
        Ctx::MilitiaDiscard => "Militia: discard down to 3 cards",
        Ctx::MoneylenderTrash => "Moneylender: trash a Copper for +$3?",
        Ctx::PoacherDiscard => "Poacher: discard (one per empty pile)",
        Ctx::RemodelTrash => "Remodel: trash a card",
        Ctx::RemodelGain => "Remodel: gain a card costing up to $2 more",
        Ctx::ThroneRoomPlay => "Throne Room: choose an Action to play twice",
        Ctx::BanditTrash => "Bandit: choose which revealed Treasure is trashed",
        Ctx::LibrarySetAside => "Library: set this Action aside instead of keeping it?",
        Ctx::MineTrash => "Mine: trash a Treasure",
        Ctx::MineGain => "Mine: gain a Treasure costing up to $3 more",
        Ctx::SentryTrash => "Sentry: trash any of the revealed cards",
        Ctx::SentryDiscard => "Sentry: discard any of the rest",
        Ctx::SentryOrder => "Sentry: choose which card goes on top",
        Ctx::ArtisanGain => "Artisan: gain a card costing up to $5",
        Ctx::ArtisanTopdeck => "Artisan: put a card from hand on your deck",
    };
    let mut out: Vec<char> = Vec::new();
    push_str(&mut out, "\n>> ");
    push_str(&mut out, what);
    chars_to_string(&out)
}

// ------------------------------------------------------------ grouping

/// Whether `a` sorts before `b` as text: at the first difference the smaller
/// character, or `a` a proper prefix of `b`.
pub open spec fn text_lt(a: Seq<char>, b: Seq<char>) -> bool
    decreases a.len(),
{
    if a.len() == 0 {
        b.len() > 0
    } else if b.len() == 0 {
        false
    } else if a[0] != b[0] {
        a[0] < b[0]
    } else {
        text_lt(a.drop_first(), b.drop_first())
    }
}

/// Display order of cards: cheaper first, then by name.
pub open spec fn shows_before(a: Card, b: Card) -> bool {
    a.spec_cost() < b.spec_cost() || (a.spec_cost() == b.spec_cost() && text_lt(a.name_chars(), b.name_chars()))
}

/// Text order is irreflexive and transitive.
proof fn lemma_text_lt(a: Seq<char>, b: Seq<char>, c: Seq<char>)
    ensures
        !text_lt(a, a),
        text_lt(a, b) && text_lt(b, c) ==> text_lt(a, c),
        text_lt(a, b) ==> !text_lt(b, a),
    decreases a.len(),
{
    if a.len() > 0 && b.len() > 0 && c.len() > 0 {
        lemma_text_lt(a.drop_first(), b.drop_first(), c.drop_first());
    }
    if a.len() > 0 {
        lemma_text_lt(a.drop_first(), a.drop_first(), a.drop_first());
    }
    if a.len() > 0 && b.len() > 0 {
        lemma_text_lt(a.drop_first(), b.drop_first(), b.drop_first());
    }
}

/// Display order is irreflexive, asymmetric and transitive.
proof fn lemma_shows_before(a: Card, b: Card, c: Card)
    ensures
        !shows_before(a, a),
        shows_before(a, b) ==> !shows_before(b, a),
        shows_before(a, b) && shows_before(b, c) ==> shows_before(a, c),
{
    lemma_text_lt(a.name_chars(), b.name_chars(), c.name_chars());
}

/// Two different texts are ordered one way or the other.
proof fn lemma_text_total(a: Seq<char>, b: Seq<char>)
    ensures
        a != b ==> text_lt(a, b) || text_lt(b, a),
    decreases a.len(),
{
    if a.len() > 0 && b.len() > 0 && a[0] == b[0] {
        lemma_text_total(a.drop_first(), b.drop_first());
        if a.drop_first() == b.drop_first() && a.len() == b.len() {
            assert forall|i: int| 0 <= i < a.len() implies a[i] == b[i] by {
                if i > 0 {
                    assert(a[i] == a.drop_first()[i - 1]);
                    assert(b[i] == b.drop_first()[i - 1]);
                }
            }
            assert(a =~= b);
        }
    }
    if a.len() > 0 && b.len() > 0 && a[0] != b[0] {
    }
    if a.len() == 0 && b.len() == 0 {
        assert(a =~= b);
    }
}

/// Two different cards are displayed one before the other.
proof fn lemma_shows_total(a: Card, b: Card)
    ensures
        a != b ==> shows_before(a, b) || shows_before(b, a),
{
    lemma_text_total(a.name_chars(), b.name_chars());
    crate::card::lemma_parse_name(a);
    crate::card::lemma_parse_name(b);
}

/// Cards listed strictly in display order.
pub open spec fn in_display_order(s: Seq<Card>) -> bool {
    forall|i: int, j: int| 0 <= i < j < s.len() ==> shows_before(#[trigger] s[i], #[trigger] s[j])
}

/// Two lists in display order with the same cards are the same list.
proof fn lemma_display_order_unique(s1: Seq<Card>, s2: Seq<Card>)
    requires
        in_display_order(s1),
        in_display_order(s2),
        forall|c: Card| s1.contains(c) <==> s2.contains(c),
    ensures
        s1 == s2,
    decreases s1.len(),
{
    if s1.len() == 0 {
        if s2.len() > 0 {
            assert(s2.contains(s2[0]));
        }
        assert(s1 =~= s2);
    } else {
        assert(s1.contains(s1[0]));
        assert(s2.contains(s2[0]));
        let j = choose|j: int| 0 <= j < s2.len() && s2[j] == s1[0];
        let i = choose|i: int| 0 <= i < s1.len() && s1[i] == s2[0];
        if i > 0 && j > 0 {
            lemma_shows_before(s1[0], s2[0], s1[0]);
        }
        assert(s1[0] == s2[0]);
        let t1 = s1.drop_first();
        let t2 = s2.drop_first();
        assert forall|c: Card| t1.contains(c) <==> t2.contains(c) by {
            if t1.contains(c) {
                let a = choose|a: int| 0 <= a < t1.len() && t1[a] == c;
                assert(s1[a + 1] == c);
                lemma_shows_before(s1[0], c, c);
                assert(s2.contains(c));
                let b = choose|b: int| 0 <= b < s2.len() && s2[b] == c;
                assert(b > 0);
                assert(t2[b - 1] == c);
            }
            if t2.contains(c) {
                let a = choose|a: int| 0 <= a < t2.len() && t2[a] == c;
                assert(s2[a + 1] == c);
                lemma_shows_before(s2[0], c, c);
                assert(s1.contains(c));
                let b = choose|b: int| 0 <= b < s1.len() && s1[b] == c;
                assert(b > 0);
                assert(t1[b - 1] == c);
            }
        }
        lemma_display_order_unique(t1, t2);
        assert(s1.len() == s2.len());
        assert forall|k: int| 0 <= k < s1.len() implies s1[k] == s2[k] by {
            if k > 0 {
                assert(s1[k] == t1[k - 1]);
                assert(s2[k] == t2[k - 1]);
            }
        }
        assert(s1 =~= s2);
    }
}

/// Whether `a`'s name sorts before `b`'s.
fn name_before(a: &Vec<char>, b: &Vec<char>) -> (r: bool)
    ensures
        r == text_lt(a@, b@),
{
    let mut i: usize = 0;
    assert(a@.skip(0) =~= a@);
    assert(b@.skip(0) =~= b@);
    while i < a.len() && i < b.len() && a[i] == b[i]
        invariant
            i <= a@.len(),
            i <= b@.len(),
            text_lt(a@, b@) == text_lt(a@.skip(i as int), b@.skip(i as int)),
        decreases a@.len() - i,
    {
        assert(a@.skip(i as int).drop_first() =~= a@.skip((i + 1) as int));
        assert(b@.skip(i as int).drop_first() =~= b@.skip((i + 1) as int));
        i = i + 1;
    }
    if i == a.len() {
        i < b.len()
    } else if i == b.len() {
        false
    } else {
        assert(a@.skip(i as int)[0] == a@[i as int]);
        assert(b@.skip(i as int)[0] == b@[i as int]);
        a[i] < b[i]
    }
}

/// Whether card `a` is displayed before card `b`.
fn card_before(a: Card, b: Card) -> (r: bool)
    ensures
        r == shows_before(a, b),
{
    if a.cost() != b.cost() {
        return a.cost() < b.cost();
    }
    name_before(&to_chars(a.name()), &to_chars(b.name()))
}

/// The distinct cards of a pile in display order, each with its number of
/// copies: no card is displayed after one it sorts before, every card of the
/// pile is listed once, and nothing else.
pub open spec fn grouped(r: Seq<(Card, usize)>, cards: Seq<Card>) -> bool {
    &&& forall|i: int, j: int| 0 <= i < j < r.len() ==> !shows_before(#[trigger] r[j].0, #[trigger] r[i].0)
    &&& forall|i: int, j: int| 0 <= i < j < r.len() ==> r[i].0 != r[j].0
    &&& forall|i: int| 0 <= i < r.len() ==> (#[trigger] r[i]).1 == cnt(cards, r[i].0) && r[i].1 > 0
    &&& forall|c: Card| cnt(cards, c) > 0 ==> exists|i: int| 0 <= i < r.len() && (#[trigger] r[i]).0 == c
}

/// The grouping of a pile: its distinct cards in display order, each with
/// its number of copies (there is exactly one, see `lemma_grouped_unique`).
pub open spec fn display_groups(cards: Seq<Card>) -> Seq<(Card, usize)> {
    choose|g: Seq<(Card, usize)>| grouped(g, cards)
}

/// Group a pile of cards and count them, in display order.
pub(crate) fn group_cards(cards: &[Card]) -> (r: Vec<(Card, usize)>)
    ensures
        grouped(r@, cards@),
        r@ == display_groups(cards@),
{
    let mut pile: Vec<Card> = Vec::new();
    let mut j: usize = 0;
    while j < cards.len()
        invariant
            j <= cards@.len(),
            pile@ == cards@.take(j as int),
        decreases cards@.len() - j,
    {
        pile.push(cards[j]);
        proof {
            assert(cards@.take((j + 1) as int) =~= cards@.take(j as int).push(cards@[j as int]));
        }
        j = j + 1;
    }
    assert(cards@.take(cards@.len() as int) =~= cards@);
    assert(pile@ == cards@);
    let mut r: Vec<(Card, usize)> = Vec::new();
    let mut i: usize = 0;
    while i < NUM_CARDS
        invariant
            i <= NUM_CARDS,
            pile@ == cards@,
            forall|a: int, b: int| 0 <= a < b < r@.len() ==> !shows_before(#[trigger] r@[b].0, #[trigger] r@[a].0),
            forall|a: int, b: int| 0 <= a < b < r@.len() ==> r@[a].0 != r@[b].0,
            forall|a: int| 0 <= a < r@.len() ==> (#[trigger] r@[a]).1 == cnt(cards@, r@[a].0) && r@[a].1 > 0
                && r@[a].0.spec_idx() < i,
            forall|c: Card| c.spec_idx() < i && cnt(cards@, c) > 0 ==> exists|a: int| 0 <= a < r@.len() && (#[trigger] r@[a]).0 == c,
        decreases NUM_CARDS - i,
    {
        let c = Card::from_idx(i);
        let n = count_in(&pile, c);
        if n > 0 {
            let mut k: usize = 0;
            while k < r.len() && !card_before(c, r[k].0)
                invariant
                    k <= r@.len(),
                    forall|j: int| 0 <= j < k ==> !shows_before(c, #[trigger] r@[j].0),
                decreases r@.len() - k,
            {
                k = k + 1;
            }
            let ghost before = r@;
            r.insert(k, (c, n));
            proof {
                assert(r@ == before.insert(k as int, (c, n)));
                assert forall|a: int, b: int| 0 <= a < b < r@.len() implies !shows_before(#[trigger] r@[b].0, #[trigger] r@[a].0) by {
                    if k < before.len() {
                        assert(shows_before(c, before[k as int].0));
                    }
                    if a < k && b == k {
                    } else if a == k {
                        lemma_shows_before(before[b - 1].0, c, before[k as int].0);
                        if b - 1 > k {
                            assert(!shows_before(before[b - 1].0, before[k as int].0));
                        }
                    } else if a < k && b > k {
                        assert(r@[a] == before[a]);
                        assert(r@[b] == before[b - 1]);
                    } else if b < k {
                    } else {
                        assert(r@[a] == before[a - 1]);
                        assert(r@[b] == before[b - 1]);
                    }
                }
                assert forall|a: int, b: int| 0 <= a < b < r@.len() implies r@[a].0 != r@[b].0 by {
                    crate::card::lemma_idx_injective(r@[a].0, c);
                    crate::card::lemma_idx_injective(r@[b].0, c);
                }
                assert forall|x: Card| x.spec_idx() < i + 1 && cnt(cards@, x) > 0 implies exists|a: int| 0 <= a < r@.len() && (#[trigger] r@[a]).0 == x by {
                    crate::card::lemma_idx_injective(x, c);
                    if x == c {
                        assert(r@[k as int].0 == x);
                    } else {
                        let a = choose|a: int| 0 <= a < before.len() && (#[trigger] before[a]).0 == x;
                        if a < k {
                            assert(r@[a].0 == x);
                        } else {
                            assert(r@[a + 1].0 == x);
                        }
                    }
                }
            }
        } else {
            proof {
                assert forall|x: Card| x.spec_idx() < i + 1 && cnt(cards@, x) > 0 implies exists|a: int| 0 <= a < r@.len() && (#[trigger] r@[a]).0 == x by {
                    crate::card::lemma_idx_injective(x, c);
                }
            }
        }
        i = i + 1;
    }
    proof {
        assert forall|x: Card| cnt(cards@, x) > 0 implies exists|a: int| 0 <= a < r@.len() && (#[trigger] r@[a]).0 == x by {
            crate::card::lemma_idx_roundtrip(x, 0);
        }
        assert(grouped(r@, cards@));
        lemma_grouped_unique(r@, display_groups(cards@), cards@);
    }
    r
}

/// A pile has exactly one grouping: the tally of a pile is determined by
/// the pile.
pub proof fn lemma_grouped_unique(g1: Seq<(Card, usize)>, g2: Seq<(Card, usize)>, cards: Seq<Card>)
    requires
        grouped(g1, cards),
        grouped(g2, cards),
    ensures
        g1 == g2,
{
    let s1 = g1.map_values(|p: (Card, usize)| p.0);
    let s2 = g2.map_values(|p: (Card, usize)| p.0);
    assert forall|i: int, j: int| 0 <= i < j < s1.len() implies shows_before(#[trigger] s1[i], #[trigger] s1[j]) by {
        lemma_shows_total(g1[i].0, g1[j].0);
    }
    assert forall|i: int, j: int| 0 <= i < j < s2.len() implies shows_before(#[trigger] s2[i], #[trigger] s2[j]) by {
        lemma_shows_total(g2[i].0, g2[j].0);
    }
    assert forall|c: Card| s1.contains(c) <==> s2.contains(c) by {
        if s1.contains(c) {
            let a = choose|a: int| 0 <= a < s1.len() && s1[a] == c;
            assert(g1[a].1 > 0);
            let b = choose|b: int| 0 <= b < g2.len() && (#[trigger] g2[b]).0 == c;
            assert(s2[b] == c);
        }
        if s2.contains(c) {
            let a = choose|a: int| 0 <= a < s2.len() && s2[a] == c;
            assert(g2[a].1 > 0);
            let b = choose|b: int| 0 <= b < g1.len() && (#[trigger] g1[b]).0 == c;
            assert(s1[b] == c);
        }
    }
    lemma_display_order_unique(s1, s2);
    assert forall|i: int| 0 <= i < g1.len() implies g1[i] == g2[i] by {
        assert(s1[i] == s2[i]);
    }
    assert(g1 =~= g2);
}

/// One entry of a tally: the name, and ` xN` when there are several.
pub open spec fn tally_item(c: Card, n: usize) -> Seq<char> {
    if n == 1 {
        c.name_chars()
    } else {
        c.name_chars() + seq![' ', 'x'] + dec(n as nat)
    }
}

/// Tally entries separated by `, `.
pub open spec fn tally_text(g: Seq<(Card, usize)>) -> Seq<char>
    decreases g.len(),
{
    if g.len() == 0 {
        Seq::empty()
    } else if g.len() == 1 {
        tally_item(g[0].0, g[0].1)
    } else {
        tally_text(g.drop_last()) + seq![',', ' '] + tally_item(g.last().0, g.last().1)
    }
}

/// Cards in a pile, grouped and counted, so a 40-card deck does not print as
/// 40 words: cheaper cards first, then by name; `Name` for a single copy and
/// `Name xN` for several, separated by `, `.
pub fn tally(cards: &[Card]) -> (r: String)
    ensures
        r@ == tally_text(display_groups(cards@)),
{
    let g = group_cards(cards);
    let mut out: Vec<char> = Vec::new();
    let mut i: usize = 0;
    while i < g.len()
        invariant
            i <= g@.len(),
            out@ == tally_text(g@.take(i as int)),
        decreases g@.len() - i,
    {
        let ghost o = out@;
        let (c, n) = g[i];
        if i > 0 {
            out.push(',');
            out.push(' ');
        }
        push_str(&mut out, c.name());
        if n != 1 {
            out.push(' ');
            out.push('x');
            push_decimal(&mut out, n as u64);
        }
        proof {
            let post = g@.take((i + 1) as int);
            assert(post.drop_last() =~= g@.take(i as int));
            assert(post.last() == (c, n));
            if i == 0 {
                assert(o =~= Seq::<char>::empty());
            }
            assert(out@ =~= tally_text(post));
        }
        i = i + 1;
    }
    assert(g@.take(g@.len() as int) =~= g@);
    chars_to_string(&out)
}

// ------------------------------------------------------------ the position

/// A line of 66 dashes.
pub open spec fn rule_line() -> Seq<char> {
    Seq::new(66, |i: int| '-')
}

/// One supply pile as the terminal shows it: `Name($cost) left`.
pub open spec fn pile_text(c: Card, n: u8) -> Seq<char> {
    c.name_chars() + "($"@ + dec(c.spec_cost() as nat) + ") "@ + dec(n as nat)
}

/// The piles in the game among the first `k` cards, two spaces apart.
pub open spec fn supply_text(s: GameState, k: nat) -> Seq<char>
    decreases k,
{
    if k == 0 {
        Seq::empty()
    } else {
        let prev = supply_text(s, (k - 1) as nat);
        let i = k - 1;
        if !s.in_supply@[i as int] {
            prev
        } else if prev.len() == 0 {
            pile_text(Card::spec_from_idx(i as usize), s.supply@[i as int])
        } else {
            prev + "  "@ + pile_text(Card::spec_from_idx(i as usize), s.supply@[i as int])
        }
    }
}

/// The warning line when piles are empty, or nothing.
pub open spec fn empty_text(s: GameState) -> Seq<char> {
    if empty_pile_count(s) > 0 {
        "        "@ + dec(empty_pile_count(s)) + " pile(s) empty \u{2014} 3 ends the game\n"@
    } else {
        Seq::empty()
    }
}

/// The tally of a pile.
pub open spec fn tally_of(cards: Seq<Card>) -> Seq<char> {
    tally_text(display_groups(cards))
}

/// The rule, the supply and the empty piles.
pub open spec fn header_text(s: GameState) -> Seq<char> {
    "\n"@ + rule_line() + "\nsupply: "@ + supply_text(s, NUM_CARDS as nat) + "\n"@ + empty_text(s)
}

/// Both players' card counts and points.
pub open spec fn standing_text(me: PlayerState, them: PlayerState) -> Seq<char> {
    "\nyou:  "@ + dec(owned_len(me)) + " cards, "@ + sdec(player_score(me)) + " VP   |   AI: "@ + dec(owned_len(them))
        + " cards, "@ + sdec(player_score(them)) + " VP\n"@
}

/// Every card each player owns, and the human's cards in play when any.
pub open spec fn holdings_text(me: PlayerState, them: PlayerState) -> Seq<char> {
    "all your cards: "@ + tally_of(owned(me)) + "\nall AI cards:   "@ + tally_of(owned(them)) + "\n"@ + (if me.play@.len()
        > 0 {
        "in play:   "@ + tally_of(me.play@) + "\n"@
    } else {
        Seq::empty()
    })
}

/// The human's hand and counters, and the prompt.
pub open spec fn hand_text(me: PlayerState, ctx: Ctx) -> Seq<char> {
    "your hand: "@ + tally_of(me.hand@) + "\nactions "@ + dec(me.actions as nat) + "  buys "@ + dec(me.buys as nat)
        + "  coins $"@ + dec(me.coins as nat) + "\n"@ + "\n>> "@ + prompt_text(ctx)@ + "\n"@
}

/// What the terminal shows before the human decides: a rule, the supply
/// (and how many piles are empty), both players' card counts and points,
/// every card each owns, the human's cards in play (when any), hand and
/// counters, and the prompt.
pub open spec fn position_text(s: GameState, human: int, ctx: Ctx) -> Seq<char> {
    let me = s.players@[human];
    let them = s.players@[1 - human];
    header_text(s) + standing_text(me, them) + holdings_text(me, them) + hand_text(me, ctx)
}

/// Append the supply piles, two spaces apart.
fn push_supply_text(out: &mut Vec<char>, s: &GameState)
    ensures
        final(out)@ == old(out)@ + supply_text(*s, NUM_CARDS as nat),
{
    let ghost o = out@;
    let mut i: usize = 0;
    let mut any = false;
    while i < NUM_CARDS
        invariant
            i <= NUM_CARDS,
            out@ == o + supply_text(*s, i as nat),
            any <==> supply_text(*s, i as nat).len() > 0,
        decreases NUM_CARDS - i,
    {
        if s.in_supply[i] {
            if any {
                push_str(out, "  ");
            }
            let ghost mid = out@;
            let card = Card::from_idx(i);
            push_str(out, card.name());
            push_str(out, "($");
            push_decimal(out, card.cost() as u64);
            push_str(out, ") ");
            push_decimal(out, s.supply[i] as u64);
            proof {
                crate::card::lemma_name_chars(card);
                let e = pile_text(card, s.supply@[i as int]);
                assert(out@ =~= mid + e);
                if any {
                    assert(out@ =~= o + (supply_text(*s, i as nat) + "  "@ + e));
                } else {
                    assert(out@ =~= o + e);
                }
            }
            any = true;
        }
        i = i + 1;
    }
}

/// Append the header: the rule, the supply and the empty piles.
fn push_header(out: &mut Vec<char>, s: &GameState)
    ensures
        final(out)@ == old(out)@ + header_text(*s),
{
    let ghost o = out@;
    push_str(out, "\n");
    let mut k: usize = 0;
    while k < 66
        invariant
            k <= 66,
            out@ == o + "\n"@ + Seq::new(k as nat, |i: int| '-'),
        decreases 66 - k,
    {
        out.push('-');
        assert(out@ =~= o + "\n"@ + Seq::new((k + 1) as nat, |i: int| '-'));
        k = k + 1;
    }
    push_str(out, "\nsupply: ");
    push_supply_text(out, s);
    push_str(out, "\n");
    let empty = s.empty_piles();
    if empty > 0 {
        push_str(out, "        ");
        push_decimal(out, empty as u64);
        push_str(out, " pile(s) empty \u{2014} 3 ends the game\n");
    }
    assert(out@ =~= o + header_text(*s));
}

fn push_standing(out: &mut Vec<char>, me: &PlayerState, them: &PlayerState)
    requires
        score_fits(*me),
        score_fits(*them),
    ensures
        final(out)@ == old(out)@ + standing_text(*me, *them),
{
    let ghost o = out@;
    push_str(out, "\nyou:  ");
    push_decimal(out, me.total_cards() as u64);
    push_str(out, " cards, ");
    push_signed(out, me.score());
    push_str(out, " VP   |   AI: ");
    push_decimal(out, them.total_cards() as u64);
    push_str(out, " cards, ");
    push_signed(out, them.score());
    push_str(out, " VP\n");
    assert(out@ =~= o + standing_text(*me, *them));
}

fn push_holdings(out: &mut Vec<char>, me: &PlayerState, them: &PlayerState)
    ensures
        final(out)@ == old(out)@ + holdings_text(*me, *them),
{
    let ghost o = out@;
    push_str(out, "all your cards: ");
    push_str(out, tally(me.all_cards().as_slice()).as_str());
    push_str(out, "\nall AI cards:   ");
    push_str(out, tally(them.all_cards().as_slice()).as_str());
    push_str(out, "\n");
    if me.play.len() > 0 {
        push_str(out, "in play:   ");
        push_str(out, tally(me.play.as_slice()).as_str());
        push_str(out, "\n");
    }
    assert(out@ =~= o + holdings_text(*me, *them));
}

fn push_hand(out: &mut Vec<char>, me: &PlayerState, ctx: Ctx)
    ensures
        final(out)@ == old(out)@ + hand_text(*me, ctx),
{
    let ghost o = out@;
    push_str(out, "your hand: ");
    push_str(out, tally(me.hand.as_slice()).as_str());
    push_str(out, "\nactions ");
    push_decimal(out, me.actions as u64);
    push_str(out, "  buys ");
    push_decimal(out, me.buys as u64);
    push_str(out, "  coins $");
    push_decimal(out, me.coins as u64);
    push_str(out, "\n");
    push_str(out, prompt_for(ctx).as_str());
    push_str(out, "\n");
    assert(out@ =~= o + hand_text(*me, ctx));
}

/// The position the human decides in, as the terminal shows it.
pub fn position_text_of(s: &GameState, human: usize, ctx: Ctx) -> (r: String)
    requires
        s.players@.len() == 2,
        human < 2,
        forall|i: int| 0 <= i < 2 ==> score_fits(#[trigger] s.players@[i]),
    ensures
        r@ == position_text(*s, human as int, ctx),
{
    let me = &s.players[human];
    let them = &s.players[1 - human];
    let mut out: Vec<char> = Vec::new();
    push_header(&mut out, s);
    push_standing(&mut out, me, them);
    push_holdings(&mut out, me, them);
    push_hand(&mut out, me, ctx);
    assert(out@ =~= position_text(*s, human as int, ctx));
    chars_to_string(&out)
}

// ------------------------------------------------------------ the human's input

/// What the human typed at a prompt.
#[derive(Clone, Copy, PartialEq, Eq, Debug, Structural)]
pub enum Choice {
    /// `q`, `quit` or `resign`.
    Resign,
    /// `?`: show the position again.
    Reprint,
    /// The number of one of the offered moves.
    Pick(usize),
    /// Anything else: ask again.
    Retry,
}

/// How a line typed at the prompt is read: surrounding whitespace is
/// ignored; a resignation word, `?`, or the number of an offered move.
pub open spec fn choice_of(line: Seq<char>, n_options: nat) -> Choice {
    let t = trim(line);
    if t == "q"@ || t == "quit"@ || t == "resign"@ {
        Choice::Resign
    } else if t == "?"@ {
        Choice::Reprint
    } else {
        match parse_uint(t, usize::MAX as nat) {
            Some(i) => if i < n_options {
                Choice::Pick(i as usize)
            } else {
                Choice::Retry
            },
            None => Choice::Retry,
        }
    }
}

/// Whether characters spell a text.
fn spells(v: &Vec<char>, s: &str) -> (r: bool)
    ensures
        r == (v@ == s@),
{
    let w = to_chars(s);
    if v.len() != w.len() {
        return false;
    }
    let mut i: usize = 0;
    while i < v.len()
        invariant
            v@.len() == w@.len(),
            w@ == s@,
            i <= v@.len(),
            forall|j: int| 0 <= j < i ==> v@[j] == w@[j],
        decreases v@.len() - i,
    {
        if v[i] != w[i] {
            return false;
        }
        i = i + 1;
    }
    assert(v@ =~= w@);
    true
}

/// Read a line typed at the prompt.
pub fn read_choice(line: &str, n_options: usize) -> (r: Choice)
    ensures
        r == choice_of(line@, n_options as nat),
{
    let t = trim_chars(&to_chars(line));
    if spells(&t, "q") || spells(&t, "quit") || spells(&t, "resign") {
        return Choice::Resign;
    }
    if spells(&t, "?") {
        return Choice::Reprint;
    }
    match parse_decimal(&t, usize::MAX as u64) {
        Some(i) => {
            if i < n_options as u64 {
                Choice::Pick(i as usize)
            } else {
                Choice::Retry
            }
        },
        None => Choice::Retry,
    }
}

/// What is said after a line that is not a choice.
pub open spec fn retry_text(n_options: nat) -> Seq<char> {
    "  \u{2014} type a number from 0 to "@ + dec((n_options - 1) as nat) + ", or ? / q"@
}

/// Ask again after a line that is not a choice.
pub fn retry_prompt(n_options: usize) -> (r: String)
    requires
        n_options > 0,
    ensures
        r@ == retry_text(n_options as nat),
{
    let mut out: Vec<char> = Vec::new();
    push_str(&mut out, "  \u{2014} type a number from 0 to ");
    push_decimal(&mut out, (n_options - 1) as u64);
    push_str(&mut out, ", or ? / q");
    chars_to_string(&out)
}

/// One offered move as the terminal lists it: its number, the move, and
/// for a buy the price.
pub open spec fn option_text(i: nat, mv: Move) -> Seq<char> {
    "  "@ + dec(i) + ") "@ + move_text(mv) + match mv {
        Move::Buy(c) => "  ($"@ + dec(c.spec_cost() as nat) + ")"@,
        _ => Seq::empty(),
    }
}

/// List one offered move.
pub fn option_line(i: usize, mv: Move) -> (r: String)
    ensures
        r@ == option_text(i as nat, mv),
{
    let mut out: Vec<char> = Vec::new();
    push_str(&mut out, "  ");
    push_decimal(&mut out, i as u64);
    push_str(&mut out, ") ");
    push_str(&mut out, move_to_text(mv).as_str());
    if let Move::Buy(c) = mv {
        push_str(&mut out, "  ($");
        push_decimal(&mut out, c.cost() as u64);
        push_str(&mut out, ")");
    }
    assert(out@ =~= option_text(i as nat, mv));
    chars_to_string(&out)
}

/// How the game ended for the human: a win alone, a loss, or a shared win.
pub open spec fn verdict_text(s: GameState, human: int) -> &'static str {
    if !is_winner(s, human) {
        "the AI wins."
    } else if forall|j: int| 0 <= j < s.players@.len() && j != human ==> !is_winner(s, j) {
        "you win."
    } else {
        "a tie."
    }
}

/// The last line of a finished game.
pub fn verdict(s: &GameState, human: usize) -> (r: &'static str)
    requires
        human < s.players@.len(),
        forall|i: int| 0 <= i < s.players@.len() ==> score_fits(#[trigger] s.players@[i]),
    ensures
        r == verdict_text(*s, human as int),
{
    let w = s.winners();
    let n = s.players.len();
    let mut mine = false;
    let mut others = false;
    let mut k: usize = 0;
    while k < w.len()
        invariant
            k <= w@.len(),
            forall|a: int| 0 <= a < w@.len() ==> is_winner(*s, #[trigger] w@[a] as int),
            forall|i: int| 0 <= i < s.players@.len() && is_winner(*s, i) ==> w@.contains(i as usize),
            mine <==> exists|a: int| 0 <= a < k && w@[a] == human,
            others <==> exists|a: int| 0 <= a < k && w@[a] != human,
        decreases w@.len() - k,
    {
        if w[k] == human {
            mine = true;
        } else {
            others = true;
        }
        k = k + 1;
    }
    proof {
        if is_winner(*s, human as int) {
            assert(w@.contains(human));
        }
        if !others {
            assert forall|j: int| 0 <= j < s.players@.len() && j != human implies !is_winner(*s, j) by {
                if is_winner(*s, j) {
                    assert(w@.contains(j as usize));
                    let a = choose|a: int| 0 <= a < w@.len() && w@[a] == j as usize;
                    assert(k == w@.len());
                    if w@[a] != human {
                        assert(exists|b: int| 0 <= b < k && w@[b] != human);
                    }
                    assert(w@[a] == human);
                    assert(j as usize == human);
                    assert(j < n);
                    assert(j == human as int);
                }
            }
        } else {
            let a = choose|a: int| 0 <= a < k && w@[a] != human;
            assert(is_winner(*s, w@[a] as int));
        }
    }
    if !mine {
        "the AI wins."
    } else if !others {
        "you win."
    } else {
        "a tie."
    }
}

} // verus!
