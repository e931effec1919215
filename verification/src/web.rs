//! Texts and choices behind the browser front end: labels, JSON fragments
//! and the kingdom a player's picks make.

use vstd::prelude::*;
use crate::card::Card;
use crate::engine::sorted_by_index;
use crate::match_runner::{fill_pool, filled, Kingdoms};
use crate::play::{display_groups, group_cards};
use crate::rng::{Rng, shuffle_result};
use crate::card::NUM_CARDS;
use crate::state::{empty_pile_count, owned, owned_len, player_score, score_fits, Ctx, GameState, Move, PlayerState};
use crate::text::{chars_to_string, dec, push_decimal, push_signed, push_str, sdec, to_chars};
use vstd::string::StringExecFns;

verus! {

/// The label a decision shows.
pub open spec fn label_text(ctx: Ctx) -> &'static str {
    match ctx {
        Ctx::ActionPhase => "Play an Action, or end the phase",
        Ctx::BuyPhase => "Play a Treasure, buy a card, or end your turn",
        Ctx::MoatReveal => "Reveal Moat to block the attack?",
        Ctx::CellarDiscard => "Cellar: discard a card, then draw that many",
        Ctx::ChapelTrash => "Chapel: trash up to 4 cards",
        Ctx::HarbingerTopdeck => "Harbinger: put a card from your discard on top",
        Ctx::VassalPlay => "Vassal: play the discarded Action?",
        Ctx::WorkshopGain => "Workshop: gain a card costing up to $4",
        Ctx::BureaucratReveal => "Bureaucrat: reveal a Victory card to topdeck",
        Ctx::MilitiaDiscard => "Militia: discard down to 3 cards",
        Ctx::MoneylenderTrash => "Moneylender: trash a Copper for +$3?",
        Ctx::PoacherDiscard => "Poacher: discard one card per empty pile",
        Ctx::RemodelTrash => "Remodel: trash a card",
        Ctx::RemodelGain => "Remodel: gain a card costing up to $2 more",
        Ctx::ThroneRoomPlay => "Throne Room: choose an Action to play twice",
        Ctx::BanditTrash => "Bandit: choose which revealed Treasure is trashed",
        Ctx::LibrarySetAside => "Library: set this Action aside instead of keeping it?",
        Ctx::MineTrash => "Mine: trash a Treasure",
        Ctx::MineGain => "Mine: gain a Treasure costing up to $3 more",
        Ctx::SentryTrash => "Sentry: trash any of the revealed cards",
        Ctx::SentryDiscard => "Sentry: discard any of the rest",
        Ctx::SentryOrder => "Sentry: choose which card goes on top",
        Ctx::ArtisanGain => "Artisan: gain a card costing up to $5",
        Ctx::ArtisanTopdeck => "Artisan: put a card from hand on your deck",
    }
}

/// The label a decision shows.
pub fn ctx_label(ctx: Ctx) -> (r: &'static str)
    ensures
        r == label_text(ctx),
{
    match ctx {
        Ctx::ActionPhase => "Play an Action, or end the phase",
        Ctx::BuyPhase => "Play a Treasure, buy a card, or end your turn",
        Ctx::MoatReveal => "Reveal Moat to block the attack?",
        Ctx::CellarDiscard => "Cellar: discard a card, then draw that many",
        Ctx::ChapelTrash => "Chapel: trash up to 4 cards",
        Ctx::HarbingerTopdeck => "Harbinger: put a card from your discard on top",
        Ctx::VassalPlay => "Vassal: play the discarded Action?",
        Ctx::WorkshopGain => "Workshop: gain a card costing up to $4",
        Ctx::BureaucratReveal => "Bureaucrat: reveal a Victory card to topdeck",
        Ctx::MilitiaDiscard => "Militia: discard down to 3 cards",
        Ctx::MoneylenderTrash => "Moneylender: trash a Copper for +$3?",
        Ctx::PoacherDiscard => "Poacher: discard one card per empty pile",
        Ctx::RemodelTrash => "Remodel: trash a card",
        Ctx::RemodelGain => "Remodel: gain a card costing up to $2 more",
        Ctx::ThroneRoomPlay => "Throne Room: choose an Action to play twice",
        Ctx::BanditTrash => "Bandit: choose which revealed Treasure is trashed",
        Ctx::LibrarySetAside => "Library: set this Action aside instead of keeping it?",
        Ctx::MineTrash => "Mine: trash a Treasure",
        Ctx::MineGain => "Mine: gain a Treasure costing up to $3 more",
        Ctx::SentryTrash => "Sentry: trash any of the revealed cards",
        Ctx::SentryDiscard => "Sentry: discard any of the rest",
        Ctx::SentryOrder => "Sentry: choose which card goes on top",
        Ctx::ArtisanGain => "Artisan: gain a card costing up to $5",
        Ctx::ArtisanTopdeck => "Artisan: put a card from hand on your deck",
    }
}

/// One character escaped for a JSON string: backslash and double quote get a
/// backslash in front.
pub open spec fn escape_char(c: char) -> Seq<char> {
    if c == '\\' {
        seq!['\\', '\\']
    } else if c == '"' {
        seq!['\\', '"']
    } else {
        seq![c]
    }
}

/// A text escaped for a JSON string.
pub open spec fn escaped(s: Seq<char>) -> Seq<char>
    decreases s.len(),
{
    if s.len() == 0 {
        Seq::empty()
    } else {
        escaped(s.drop_last()) + escape_char(s.last())
    }
}

/// Append `v` escaped for a JSON string.
fn push_escaped(out: &mut Vec<char>, v: &Vec<char>)
    ensures
        final(out)@ == old(out)@ + escaped(v@),
{
    let ghost o = out@;
    let mut i: usize = 0;
    while i < v.len()
        invariant
            i <= v@.len(),
            out@ == o + escaped(v@.take(i as int)),
        decreases v@.len() - i,
    {
        let c = v[i];
        assert(v@.take((i + 1) as int).drop_last() =~= v@.take(i as int));
        if c == '\\' {
            out.push('\\');
            out.push('\\');
        } else if c == '"' {
            out.push('\\');
            out.push('"');
        } else {
            out.push(c);
        }
        assert(out@ =~= o + escaped(v@.take((i + 1) as int)));
        i = i + 1;
    }
    assert(v@.take(v@.len() as int) =~= v@);
}

/// Append a text escaped for a JSON string.
pub(crate) fn push_escaped_text(out: &mut Vec<char>, s: &str)
    ensures
        final(out)@ == old(out)@ + escaped(s@),
{
    push_escaped(out, &to_chars(s));
}

/// Escape backslashes and double quotes for a JSON string.
pub fn esc(s: &str) -> (r: String)
    ensures
        r@ == escaped(s@),
{
    let mut out: Vec<char> = Vec::new();
    push_escaped(&mut out, &to_chars(s));
    assert(out@ =~= escaped(s@));
    chars_to_string(&out)
}

/// The kind a move reports: `play`, `buy`, `pick` or `done`.
pub open spec fn move_kind(mv: Move) -> Seq<char> {
    match mv {
        Move::Play(_) => seq!['p', 'l', 'a', 'y'],
        Move::Buy(_) => seq!['b', 'u', 'y'],
        Move::Select(_) => seq!['p', 'i', 'c', 'k'],
        Move::Done => seq!['d', 'o', 'n', 'e'],
    }
}

/// A move as a JSON object: its kind, its card, the card's cost and the
/// move's text as a label; `done` has no card.
pub open spec fn move_json_text(mv: Move) -> Seq<char> {
    match mv {
        Move::Play(c) | Move::Buy(c) | Move::Select(c) => "{\"kind\":\""@ + move_kind(mv) + "\",\"card\":\""@
            + escaped(c.name_chars()) + "\",\"cost\":"@ + dec(c.spec_cost() as nat) + ",\"label\":\""@
            + escaped(crate::log::move_text(mv)) + "\"}"@,
        Move::Done => "{\"kind\":\"done\",\"card\":null,\"cost\":0,\"label\":\"Done\"}"@,
    }
}

/// A move as a JSON object for the front end.
pub fn move_json(mv: &Move) -> (r: String)
    ensures
        r@ == move_json_text(*mv),
{
    let card = match *mv {
        Move::Play(c) | Move::Buy(c) | Move::Select(c) => c,
        Move::Done => {
            return String::from_str("{\"kind\":\"done\",\"card\":null,\"cost\":0,\"label\":\"Done\"}");
        },
    };
    let mut out: Vec<char> = Vec::new();
    push_str(&mut out, "{\"kind\":\"");
    match *mv {
        Move::Play(_) => {
            out.push('p');
            out.push('l');
            out.push('a');
            out.push('y');
        },
        Move::Buy(_) => {
            out.push('b');
            out.push('u');
            out.push('y');
        },
        _ => {
            out.push('p');
            out.push('i');
            out.push('c');
            out.push('k');
        },
    }
    push_str(&mut out, "\",\"card\":\"");
    push_escaped(&mut out, &to_chars(card.name()));
    push_str(&mut out, "\",\"cost\":");
    push_decimal(&mut out, card.cost() as u64);
    push_str(&mut out, ",\"label\":\"");
    push_escaped(&mut out, &to_chars(crate::log::move_to_text(*mv).as_str()));
    push_str(&mut out, "\"}");
    assert(out@ =~= move_json_text(*mv));
    chars_to_string(&out)
}

/// One entry of a pile as JSON: the card's name and how many copies.
pub open spec fn card_entry(c: Card, n: usize) -> Seq<char> {
    "{\"card\":\""@ + escaped(c.name_chars()) + "\",\"n\":"@ + dec(n as nat) + "}"@
}

/// Pile entries separated by commas.
pub open spec fn card_entries(g: Seq<(Card, usize)>) -> Seq<char>
    decreases g.len(),
{
    if g.len() == 0 {
        Seq::empty()
    } else if g.len() == 1 {
        card_entry(g[0].0, g[0].1)
    } else {
        card_entries(g.drop_last()) + seq![','] + card_entry(g.last().0, g.last().1)
    }
}

/// A pile as a JSON array of its display groups.
pub open spec fn pile_json(cards: Seq<Card>) -> Seq<char> {
    seq!['['] + card_entries(display_groups(cards)) + seq![']']
}

/// A pile of cards as a JSON array, grouped and counted in display order
/// (cheaper first, then by name), so a deck is a handful of entries rather
/// than one string per card.
pub fn cards_json(cards: &[Card]) -> (r: String)
    ensures
        r@ == pile_json(cards@),
{
    let g = group_cards(cards);
    let mut out: Vec<char> = Vec::new();
    let mut i: usize = 0;
    while i < g.len()
        invariant
            i <= g@.len(),
            out@ == card_entries(g@.take(i as int)),
        decreases g@.len() - i,
    {
        let ghost o = out@;
        let (c, n) = g[i];
        if i > 0 {
            out.push(',');
        }
        push_str(&mut out, "{\"card\":\"");
        push_escaped(&mut out, &to_chars(c.name()));
        push_str(&mut out, "\",\"n\":");
        push_decimal(&mut out, n as u64);
        out.push('}');
        proof {
            let post = g@.take((i + 1) as int);
            assert(post.drop_last() =~= g@.take(i as int));
            assert(post.last() == (c, n));
            reveal_strlit("}");
            if i == 0 {
                assert(o =~= Seq::<char>::empty());
            }
            assert(out@ =~= card_entries(post));
        }
        i = i + 1;
    }
    assert(g@.take(g@.len() as int) =~= g@);
    let mut res: Vec<char> = Vec::new();
    res.push('[');
    res.append(&mut out);
    res.push(']');
    assert(res@ =~= seq!['['] + card_entries(g@) + seq![']']);
    chars_to_string(&res)
}

/// The kingdom cards a player pinned that are kept: each card the first
/// time it is picked, until ten are kept.
pub open spec fn first_picks(picked: Seq<Card>) -> Seq<Card>
    decreases picked.len(),
{
    if picked.len() == 0 {
        Seq::empty()
    } else {
        let k = first_picks(picked.drop_last());
        if k.len() < 10 && !k.contains(picked.last()) {
            k.push(picked.last())
        } else {
            k
        }
    }
}

/// Keep the pinned cards: each the first time, at most ten.
fn keep_first_picks(picked: &[Card]) -> (r: Vec<Card>)
    ensures
        r@ == first_picks(picked@),
        r@.len() <= 10,
{
    let mut k: Vec<Card> = Vec::new();
    let mut i: usize = 0;
    while i < picked.len()
        invariant
            i <= picked@.len(),
            k@ == first_picks(picked@.take(i as int)),
            k@.len() <= 10,
        decreases picked@.len() - i,
    {
        let c = picked[i];
        assert(picked@.take((i + 1) as int).drop_last() =~= picked@.take(i as int));
        assert(picked@.take((i + 1) as int).last() == c);
        if k.len() < 10 && !crate::engine::contains_card(&k, c) {
            k.push(c);
        }
        i = i + 1;
    }
    assert(picked@.take(picked@.len() as int) =~= picked@);
    k
}

/// Every card kept from the picks is a card that was picked.
proof fn lemma_first_picks_from(picked: Seq<Card>)
    ensures
        forall|i: int| 0 <= i < first_picks(picked).len() ==> picked.contains(#[trigger] first_picks(picked)[i]),
    decreases picked.len(),
{
    if picked.len() > 0 {
        let rest = picked.drop_last();
        lemma_first_picks_from(rest);
        let k = first_picks(picked);
        assert forall|i: int| 0 <= i < k.len() implies picked.contains(#[trigger] k[i]) by {
            if i < first_picks(rest).len() {
                assert(rest.contains(first_picks(rest)[i]));
                let j = choose|j: int| 0 <= j < rest.len() && rest[j] == first_picks(rest)[i];
                assert(picked[j] == rest[j]);
            } else {
                assert(picked[picked.len() - 1] == picked.last());
            }
        }
    }
}

/// The kingdom for a new game: every pinned card (the first ten distinct),
/// then random kingdom cards up to ten, in canonical order. The fill is the
/// other kingdom cards shuffled, taken from the front.
pub fn kingdom_from_picks(picked: &[Card], rng: &mut Rng) -> (r: Vec<Card>)
    ensures
        ({
            let k = first_picks(picked@);
            let sh = shuffle_result(old(rng).state(), fill_pool(k));
            &&& final(rng).state() == sh.0
            &&& r@.to_multiset() == filled(k, sh.1).to_multiset()
            &&& sorted_by_index(r@)
            &&& (forall|i: int| 0 <= i < picked@.len() ==> crate::card::is_kingdom(#[trigger] picked@[i]))
                ==> crate::engine::valid_kingdom(r@) && forall|i: int| 0 <= i < k.len() ==> r@.contains(#[trigger] k[i])
        }),
{
    let k = keep_first_picks(picked);
    proof {
        crate::match_runner::lemma_distinct_sorted_len(k@);
        lemma_first_picks_from(picked@);
        if forall|i: int| 0 <= i < picked@.len() ==> crate::card::is_kingdom(#[trigger] picked@[i]) {
            assert forall|i: int| 0 <= i < k@.len() implies crate::card::is_kingdom(#[trigger] k@[i]) by {
                assert(picked@.contains(k@[i]));
            }
        }
    }
    let ways = Kingdoms::RandomWith(k);
    ways.pick(rng)
}

/// Pin one kingdom card, by its index, into the next game's supply: a card
/// already pinned, or one past ten, is not added again. Anything that is not
/// a kingdom card is refused (`false`) and changes nothing.
pub fn pin_card(picks: &mut Vec<Card>, card_index: u32) -> (r: bool)
    ensures
        r <==> (card_index < NUM_CARDS && crate::card::is_kingdom(Card::spec_from_idx(card_index as usize))),
        r && old(picks)@.len() < 10 && !old(picks)@.contains(Card::spec_from_idx(card_index as usize)) ==> final(picks)@
            == old(picks)@.push(Card::spec_from_idx(card_index as usize)),
        !(r && old(picks)@.len() < 10 && !old(picks)@.contains(Card::spec_from_idx(card_index as usize))) ==> final(picks)@
            == old(picks)@,
{
    if card_index as usize >= NUM_CARDS {
        return false;
    }
    let card = Card::from_idx(card_index as usize);
    if !crate::card::is_kingdom_card(card) {
        return false;
    }
    if picks.len() < 10 && !crate::engine::contains_card(picks, card) {
        picks.push(card);
    }
    true
}

// ------------------------------------------------------------ the whole state

/// One supply pile as JSON: the card, its cost and the copies left.
pub open spec fn supply_entry(c: Card, n: u8) -> Seq<char> {
    "{\"card\":\""@ + escaped(c.name_chars()) + "\",\"cost\":"@ + dec(c.spec_cost() as nat) + ",\"left\":"@ + dec(n as nat)
        + "}"@
}

/// The piles in the game among the first `k` cards, separated by commas.
pub open spec fn supply_entries(s: GameState, k: nat) -> Seq<char>
    decreases k,
{
    if k == 0 {
        Seq::empty()
    } else {
        let prev = supply_entries(s, (k - 1) as nat);
        let i = k - 1;
        if !s.in_supply@[i as int] {
            prev
        } else if prev.len() == 0 {
            supply_entry(Card::spec_from_idx(i as usize), s.supply@[i as int])
        } else {
            prev + ","@ + supply_entry(Card::spec_from_idx(i as usize), s.supply@[i as int])
        }
    }
}

/// Moves as JSON objects separated by commas.
pub open spec fn moves_json(ms: Seq<Move>) -> Seq<char>
    decreases ms.len(),
{
    if ms.len() == 0 {
        Seq::empty()
    } else if ms.len() == 1 {
        move_json_text(ms[0])
    } else {
        moves_json(ms.drop_last()) + ","@ + move_json_text(ms.last())
    }
}

/// Lines as JSON strings separated by commas.
pub open spec fn lines_json(ls: Seq<String>) -> Seq<char>
    decreases ls.len(),
{
    if ls.len() == 0 {
        Seq::empty()
    } else if ls.len() == 1 {
        "\""@ + escaped(ls[0]@) + "\""@
    } else {
        lines_json(ls.drop_last()) + ","@ + "\""@ + escaped(ls.last()@) + "\""@
    }
}

/// Whether the game is over, whose move it is, what they are asked and
/// which moves they have.
pub open spec fn turn_json(s: GameState, human: nat) -> Seq<char> {
    if s.over {
        "{\"over\":true,\"human\":"@ + dec(human) + ",\"toMove\":-1,\"prompt\":\"\",\"options\":[]"@
    } else {
        let d = s.pending.unwrap();
        "{\"over\":false,\"human\":"@ + dec(human) + ",\"toMove\":"@ + dec(d.player as nat) + ",\"prompt\":\""@ + escaped(
            label_text(d.ctx)@,
        ) + "\",\"options\":["@ + moves_json(d.options@) + "]"@
    }
}

/// The human's cards: hand, every card owned, cards in play.
pub open spec fn you_cards_json(me: PlayerState) -> Seq<char> {
    ",\"you\":{\"hand\":"@ + pile_json(me.hand@) + ",\"all\":"@ + pile_json(owned(me)) + ",\"inPlay\":"@ + pile_json(
        me.play@,
    )
}

/// The human's counters, points and card count.
pub open spec fn you_counts_json(me: PlayerState) -> Seq<char> {
    ",\"actions\":"@ + dec(me.actions as nat) + ",\"buys\":"@ + dec(me.buys as nat) + ",\"coins\":"@ + dec(me.coins as nat)
        + ",\"vp\":"@ + sdec(player_score(me)) + ",\"cards\":"@ + dec(owned_len(me)) + "}"@
}

/// The human's side: hand, every card owned, cards in play, counters,
/// points and card count.
pub open spec fn you_json(me: PlayerState) -> Seq<char> {
    you_cards_json(me) + you_counts_json(me)
}

/// The AI's side: every card owned, points and card count.
pub open spec fn ai_json(them: PlayerState) -> Seq<char> {
    ",\"ai\":{\"all\":"@ + pile_json(owned(them)) + ",\"vp\":"@ + sdec(player_score(them)) + ",\"cards\":"@ + dec(
        owned_len(them),
    ) + "}"@
}

/// Everything the browser draws, as one JSON object.
pub open spec fn state_json_text(s: GameState, human: nat, last_ai: Seq<String>, turns: nat) -> Seq<char> {
    let me = s.players@[human as int];
    let them = s.players@[1 - human];
    turn_json(s, human) + ",\"supply\":["@ + supply_entries(s, NUM_CARDS as nat) + "],\"emptyPiles\":"@ + dec(
        empty_pile_count(s),
    ) + you_json(me) + ai_json(them) + ",\"scores\":{\"you\":"@ + sdec(player_score(me)) + ",\"ai\":"@ + sdec(
        player_score(them),
    ) + "},\"aiLog\":["@ + lines_json(last_ai) + "],\"turns\":"@ + dec(turns) + "}"@
}

/// Append the whole-game header: over, seats, prompt and options.
fn push_turn(out: &mut Vec<char>, s: &GameState, human: usize)
    requires
        !s.over ==> s.pending is Some,
    ensures
        final(out)@ == old(out)@ + turn_json(*s, human as nat),
{
    let ghost o = out@;
    if s.over {
        push_str(out, "{\"over\":true,\"human\":");
        push_decimal(out, human as u64);
        push_str(out, ",\"toMove\":-1,\"prompt\":\"\",\"options\":[]");
    } else {
        let d = match &s.pending {
            Some(d) => d,
            None => {
                return;
            },
        };
        push_str(out, "{\"over\":false,\"human\":");
        push_decimal(out, human as u64);
        push_str(out, ",\"toMove\":");
        push_decimal(out, d.player as u64);
        push_str(out, ",\"prompt\":\"");
        push_escaped(out, &to_chars(ctx_label(d.ctx)));
        push_str(out, "\",\"options\":[");
        let ghost head = out@;
        let mut i: usize = 0;
        while i < d.options.len()
            invariant
                i <= d.options@.len(),
                out@ == head + moves_json(d.options@.take(i as int)),
            decreases d.options@.len() - i,
        {
            let ghost before = out@;
            if i > 0 {
                out.push(',');
            }
            let m = move_json(&d.options[i]);
            push_str(out, m.as_str());
            proof {
                let t = d.options@.take((i + 1) as int);
                assert(t.drop_last() =~= d.options@.take(i as int));
                assert(t.last() == d.options@[i as int]);
                reveal_strlit(",");
                if i == 0 {
                    assert(before =~= head + Seq::<char>::empty());
                }
                assert(out@ =~= head + moves_json(t));
            }
            i = i + 1;
        }
        assert(d.options@.take(d.options@.len() as int) =~= d.options@);
        push_str(out, "]");
    }
    assert(out@ =~= o + turn_json(*s, human as nat));
}

/// Append one supply pile.
fn push_supply_entry(out: &mut Vec<char>, card: Card, n: u8)
    ensures
        final(out)@ == old(out)@ + supply_entry(card, n),
{
    let ghost o = out@;
    push_str(out, "{\"card\":\"");
    push_escaped(out, &to_chars(card.name()));
    push_str(out, "\",\"cost\":");
    push_decimal(out, card.cost() as u64);
    push_str(out, ",\"left\":");
    push_decimal(out, n as u64);
    push_str(out, "}");
    assert(out@ =~= o + supply_entry(card, n));
}

/// Append the supply piles in the game, separated by commas.
fn push_supply(out: &mut Vec<char>, s: &GameState)
    ensures
        final(out)@ == old(out)@ + supply_entries(*s, NUM_CARDS as nat),
{
    let ghost o = out@;
    let mut i: usize = 0;
    let mut any = false;
    while i < NUM_CARDS
        invariant
            i <= NUM_CARDS,
            out@ == o + supply_entries(*s, i as nat),
            any <==> supply_entries(*s, i as nat).len() > 0,
        decreases NUM_CARDS - i,
    {
        let ghost before = out@;
        if s.in_supply[i] {
            if any {
                out.push(',');
            }
            let ghost mid = out@;
            push_supply_entry(out, Card::from_idx(i), s.supply[i]);
            proof {
                reveal_strlit(",");
                let e = supply_entry(Card::spec_from_idx(i), s.supply@[i as int]);
                if any {
                    assert(mid =~= o + supply_entries(*s, i as nat) + ","@);
                    assert(out@ =~= o + (supply_entries(*s, i as nat) + ","@ + e));
                } else {
                    assert(out@ =~= o + e);
                }
            }
            any = true;
        }
        i = i + 1;
    }
}

/// Append the lines of the AI's log as JSON strings.
fn push_lines(out: &mut Vec<char>, ls: &Vec<String>)
    ensures
        final(out)@ == old(out)@ + lines_json(ls@),
{
    let ghost o = out@;
    let mut i: usize = 0;
    while i < ls.len()
        invariant
            i <= ls@.len(),
            out@ == o + lines_json(ls@.take(i as int)),
        decreases ls@.len() - i,
    {
        let ghost before = out@;
        if i > 0 {
            out.push(',');
        }
        out.push('"');
        push_escaped(out, &to_chars(ls[i].as_str()));
        out.push('"');
        proof {
            let t = ls@.take((i + 1) as int);
            assert(t.drop_last() =~= ls@.take(i as int));
            assert(t.last() == ls@[i as int]);
            reveal_strlit(",");
            reveal_strlit("\"");
            if i == 0 {
                assert(before =~= o + Seq::<char>::empty());
            }
            assert(out@ =~= o + lines_json(t));
        }
        i = i + 1;
    }
    assert(ls@.take(ls@.len() as int) =~= ls@);
}

/// Append the human's cards.
fn push_you_cards(out: &mut Vec<char>, me: &PlayerState)
    ensures
        final(out)@ == old(out)@ + you_cards_json(*me),
{
    let ghost o = out@;
    push_str(out, ",\"you\":{\"hand\":");
    push_str(out, cards_json(me.hand.as_slice()).as_str());
    push_str(out, ",\"all\":");
    push_str(out, cards_json(me.all_cards().as_slice()).as_str());
    push_str(out, ",\"inPlay\":");
    push_str(out, cards_json(me.play.as_slice()).as_str());
    assert(out@ =~= o + you_cards_json(*me));
}

/// Append the human's counters, points and card count.
fn push_you_counts(out: &mut Vec<char>, me: &PlayerState)
    requires
        score_fits(*me),
    ensures
        final(out)@ == old(out)@ + you_counts_json(*me),
{
    let ghost o = out@;
    push_str(out, ",\"actions\":");
    push_decimal(out, me.actions as u64);
    push_str(out, ",\"buys\":");
    push_decimal(out, me.buys as u64);
    push_str(out, ",\"coins\":");
    push_decimal(out, me.coins as u64);
    push_str(out, ",\"vp\":");
    push_signed(out, me.score());
    push_str(out, ",\"cards\":");
    push_decimal(out, me.total_cards() as u64);
    push_str(out, "}");
    assert(out@ =~= o + you_counts_json(*me));
}

/// Append the human's side of the table.
fn push_you(out: &mut Vec<char>, me: &PlayerState)
    requires
        score_fits(*me),
    ensures
        final(out)@ == old(out)@ + you_json(*me),
{
    let ghost o = out@;
    push_you_cards(out, me);
    push_you_counts(out, me);
    assert(out@ =~= o + you_json(*me));
}

/// Append the AI's side of the table.
fn push_ai(out: &mut Vec<char>, them: &PlayerState)
    requires
        score_fits(*them),
    ensures
        final(out)@ == old(out)@ + ai_json(*them),
{
    let ghost o = out@;
    push_str(out, ",\"ai\":{\"all\":");
    push_str(out, cards_json(them.all_cards().as_slice()).as_str());
    push_str(out, ",\"vp\":");
    push_signed(out, them.score());
    push_str(out, ",\"cards\":");
    push_decimal(out, them.total_cards() as u64);
    push_str(out, "}");
    assert(out@ =~= o + ai_json(*them));
}

/// Everything the browser draws for a two-player game against the AI, as
/// one JSON object: whose move and what they may do, the supply, both
/// sides of the table, the scores, the AI's recent log and the number of
/// moves played.
pub fn state_json(s: &GameState, human: usize, last_ai: &Vec<String>, turns: usize) -> (r: String)
    requires
        s.players@.len() == 2,
        human < 2,
        !s.over ==> s.pending is Some,
        forall|i: int| 0 <= i < 2 ==> score_fits(#[trigger] s.players@[i]),
    ensures
        r@ == state_json_text(*s, human as nat, last_ai@, turns as nat),
{
    let me = &s.players[human];
    let them = &s.players[1 - human];
    let mut out: Vec<char> = Vec::new();
    push_turn(&mut out, s, human);
    push_str(&mut out, ",\"supply\":[");
    push_supply(&mut out, s);
    push_str(&mut out, "],\"emptyPiles\":");
    push_decimal(&mut out, s.empty_piles() as u64);
    push_you(&mut out, me);
    push_ai(&mut out, them);
    push_str(&mut out, ",\"scores\":{\"you\":");
    push_signed(&mut out, me.score());
    push_str(&mut out, ",\"ai\":");
    push_signed(&mut out, them.score());
    push_str(&mut out, "},\"aiLog\":[");
    push_lines(&mut out, last_ai);
    push_str(&mut out, "],\"turns\":");
    push_decimal(&mut out, turns as u64);
    push_str(&mut out, "}");
    assert(out@ =~= state_json_text(*s, human as nat, last_ai@, turns as nat));
    chars_to_string(&out)
}

} // verus!
