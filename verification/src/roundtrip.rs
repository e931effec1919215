//! The text form of a log reads back as the log it was written from.

use vstd::prelude::*;
use crate::card::{is_ascii_alnum, lemma_name_shape, lemma_parse_name, name_shape, Card};
use crate::log::{
    card_list, eq_ignore_case, first_ws, kingdom_tag, log_text, move_text, moves_tag, moves_text,
    names_joined, parse_line, parse_lines, players_tag, reads_as, seed_tag, spec_parse_log,
    spec_parse_move, LogDraft,
};
use crate::state::Move;
use crate::text::{
    comma_pieces, dec, has_prefix, is_ws, lacks, lemma_comma_pieces_after, lemma_comma_pieces_flat,
    lemma_dec, lemma_lines_concat, lemma_lines_one, lemma_parse_dec, lemma_trim_id, lemma_trim_leading,
    lemma_trim_trailing, lines, parse_uint, trim, trim_end,
};

verus! {

/// Letters and digits are not white space.
proof fn lemma_alnum_not_ws(ch: char)
    requires
        is_ascii_alnum(ch),
    ensures
        !is_ws(ch),
        ch != '#',
        ch != ' ',
{
}

/// A card name trims to itself.
proof fn lemma_trim_name(c: Card)
    ensures
        trim(c.name_chars()) == c.name_chars(),
        trim(seq![' '] + c.name_chars()) == c.name_chars(),
{
    lemma_name_shape(c);
    let n = c.name_chars();
    lemma_alnum_not_ws(n[0]);
    lemma_alnum_not_ws(n.last());
    lemma_trim_id(n);
    lemma_trim_leading(' ', n);
}

/// Reading continued from draft `d` over further lines.
pub open spec fn parse_more(d: LogDraft, ls: Seq<Seq<char>>) -> Option<LogDraft>
    decreases ls.len(),
{
    if ls.len() == 0 {
        Some(d)
    } else {
        match parse_more(d, ls.drop_last()) {
            None => None,
            Some(x) => parse_line(x, ls.last()),
        }
    }
}

/// Reading from the start is reading on from the empty draft.
proof fn lemma_parse_lines_more(ls: Seq<Seq<char>>)
    ensures
        parse_lines(ls) == parse_more((Seq::empty(), 2, 0, Seq::empty(), false), ls),
    decreases ls.len(),
{
    if ls.len() > 0 {
        lemma_parse_lines_more(ls.drop_last());
    }
}

/// Reading two runs of lines is reading the first, then the second.
proof fn lemma_parse_more_concat(d: LogDraft, a: Seq<Seq<char>>, b: Seq<Seq<char>>)
    ensures
        parse_more(d, a + b) == match parse_more(d, a) {
            None => None,
            Some(x) => parse_more(x, b),
        },
    decreases b.len(),
{
    if b.len() == 0 {
        assert(a + b =~= a);
    } else {
        lemma_parse_more_concat(d, a, b.drop_last());
        assert((a + b).drop_last() =~= a + b.drop_last());
        assert((a + b).last() == b.last());
    }
}

/// A prefix check fails on a differing character.
proof fn lemma_no_prefix(s: Seq<char>, p: Seq<char>, i: int)
    requires
        0 <= i < p.len(),
        i < s.len(),
        s[i] != p[i],
    ensures
        !has_prefix(s, p),
{
    if has_prefix(s, p) {
        assert(s.take(p.len() as int)[i] == s[i]);
    }
}

/// Names separated by `, ` and preceded by a space split at the commas into
/// the names, each with a leading space.
proof fn lemma_comma_names(k: Seq<Card>)
    requires
        k.len() > 0,
    ensures
        comma_pieces(seq![' '] + names_joined(k)) == k.map_values(|c: Card| seq![' '] + c.name_chars()),
    decreases k.len(),
{
    let target = k.map_values(|c: Card| seq![' '] + c.name_chars());
    let last = k.last();
    lemma_name_shape(last);
    let piece = seq![' '] + last.name_chars();
    assert(lacks(piece, ',')) by {
        assert forall|i: int| 0 <= i < piece.len() implies piece[i] != ',' by {
            if i > 0 {
                assert(piece[i] == last.name_chars()[i - 1]);
            }
        }
    }
    if k.len() == 1 {
        assert(names_joined(k) == k[0].name_chars());
        lemma_comma_pieces_flat(piece);
        assert(target =~= seq![piece]);
    } else {
        let k1 = k.drop_last();
        lemma_comma_names(k1);
        let s1 = seq![' '] + names_joined(k1);
        assert(seq![' '] + names_joined(k) =~= s1 + seq![','] + piece);
        lemma_comma_pieces_after(s1, piece);
        assert(target =~= k1.map_values(|c: Card| seq![' '] + c.name_chars()).push(piece));
    }
}

/// The names with leading spaces read back as the cards.
proof fn lemma_card_list_names(k: Seq<Card>)
    ensures
        card_list(k.map_values(|c: Card| seq![' '] + c.name_chars())) == Some(k),
    decreases k.len(),
{
    let ps = k.map_values(|c: Card| seq![' '] + c.name_chars());
    if k.len() > 0 {
        let k1 = k.drop_last();
        lemma_card_list_names(k1);
        assert(ps.drop_last() =~= k1.map_values(|c: Card| seq![' '] + c.name_chars()));
        lemma_trim_name(k.last());
        lemma_parse_name(k.last());
        lemma_name_shape(k.last());
        assert(k1.push(k.last()) =~= k);
    } else {
        assert(k =~= Seq::<Card>::empty());
    }
}

/// The kingdom line sets the kingdom.
proof fn lemma_kingdom_line(d: LogDraft, k: Seq<Card>)
    ensures
        parse_line(d, kingdom_tag() + seq![' '] + names_joined(k)) == Some((k, d.1, d.2, d.3, d.4)),
{
    let line = kingdom_tag() + seq![' '] + names_joined(k);
    if k.len() == 0 {
        assert(names_joined(k) =~= Seq::<char>::empty());
        assert(line =~= kingdom_tag() + seq![' ']);
        lemma_trim_trailing(kingdom_tag(), ' ');
        assert(trim_end(kingdom_tag()) == kingdom_tag());
        assert(trim(line) == kingdom_tag());
        assert(kingdom_tag()[0] == 'k');
        assert(kingdom_tag().take(8) =~= kingdom_tag());
        assert(kingdom_tag().skip(8) =~= Seq::<char>::empty());
        assert(comma_pieces(Seq::<char>::empty()) =~= seq![Seq::<char>::empty()]);
        assert(trim(Seq::<char>::empty()) =~= Seq::<char>::empty());
        assert(seq![Seq::<char>::empty()].drop_last() =~= Seq::<Seq<char>>::empty());
        assert(k =~= Seq::<Card>::empty());
        assert(has_prefix(trim(line), kingdom_tag()));
        let e = Seq::<char>::empty();
        let pe = comma_pieces(e);
        assert(pe.len() == 1);
        assert(pe.last() =~= e);
        assert(pe.drop_last() =~= Seq::<Seq<char>>::empty());
        assert(card_list(Seq::<Seq<char>>::empty()) == Some(Seq::<Card>::empty()));
        assert(trim(pe.last()).len() == 0);
        assert(card_list(pe) == Some(Seq::<Card>::empty()));
        assert(trim(line).skip(8) =~= e);
        assert(card_list(comma_pieces(trim(line).skip(8))) == Some(Seq::<Card>::empty()));
        assert(trim(line).len() != 0 && trim(line)[0] != '#');
    } else {
        lemma_name_shape(k.last());
        lemma_joined_ends(k);
        lemma_alnum_not_ws(line.last());
        assert(line[0] == 'k');
        lemma_trim_id(line);
        assert(line.take(8) =~= kingdom_tag());
        assert(line.skip(8) =~= seq![' '] + names_joined(k));
        lemma_comma_names(k);
        lemma_card_list_names(k);
        assert(has_prefix(trim(line), kingdom_tag()));
        assert(card_list(comma_pieces(trim(line).skip(8))) == Some(k));
        assert(trim(line).len() != 0 && trim(line)[0] != '#');
    }
}

/// The joined names end with the last name's last character.
proof fn lemma_joined_ends(k: Seq<Card>)
    requires
        k.len() > 0,
    ensures
        names_joined(k).len() > 0,
        names_joined(k).last() == k.last().name_chars().last(),
{
    lemma_name_shape(k.last());
    if k.len() == 1 {
        assert(names_joined(k) == k[0].name_chars());
    }
}

/// A number line (`tag` then a space and the number) reads the number.
proof fn lemma_number_line(tag: Seq<char>, n: nat, max: nat)
    requires
        n <= max,
        tag.len() > 0,
        !is_ws(tag[0]),
    ensures
        trim(tag + seq![' '] + dec(n)) == tag + seq![' '] + dec(n),
        parse_uint(trim((tag + seq![' '] + dec(n)).skip(tag.len() as int)), max) == Some(n),
{
    lemma_dec(n);
    let line = tag + seq![' '] + dec(n);
    assert(line[0] == tag[0]);
    assert(line.last() == dec(n).last());
    lemma_trim_id(line);
    assert(line.skip(tag.len() as int) =~= seq![' '] + dec(n));
    lemma_trim_leading(' ', dec(n));
    lemma_trim_id(dec(n));
    lemma_parse_dec(n, max);
}

/// The players line sets the player count.
proof fn lemma_players_line(d: LogDraft, n: nat)
    requires
        n <= usize::MAX,
    ensures
        parse_line(d, players_tag() + seq![' '] + dec(n)) == Some((d.0, n, d.2, d.3, d.4)),
{
    let line = players_tag() + seq![' '] + dec(n);
    lemma_number_line(players_tag(), n, usize::MAX as nat);
    lemma_no_prefix(line, kingdom_tag(), 0);
    lemma_dec(n);
    assert(line.take(8) =~= players_tag());
}

/// The seed line sets the seed.
proof fn lemma_seed_line(d: LogDraft, n: nat)
    requires
        n <= u64::MAX,
    ensures
        parse_line(d, seed_tag() + seq![' '] + dec(n)) == Some((d.0, d.1, n, d.3, d.4)),
{
    let line = seed_tag() + seq![' '] + dec(n);
    lemma_number_line(seed_tag(), n, u64::MAX as nat);
    lemma_dec(n);
    lemma_no_prefix(line, kingdom_tag(), 0);
    lemma_no_prefix(line, players_tag(), 0);
    assert(line.take(5) =~= seed_tag());
}

/// The `moves:` line opens the moves section.
proof fn lemma_moves_line(d: LogDraft)
    ensures
        parse_line(d, moves_tag()) == Some((d.0, d.1, d.2, d.3, true)),
{
    let line = moves_tag();
    lemma_trim_id(line);
    lemma_no_prefix(line, kingdom_tag(), 0);
    lemma_no_prefix(line, players_tag(), 0);
    lemma_no_prefix(line, seed_tag(), 0);
    assert(line.take(6) =~= moves_tag());
}

/// No white space in `v` means none to find.
proof fn lemma_first_ws_none(v: Seq<char>)
    requires
        forall|i: int| 0 <= i < v.len() ==> !is_ws(#[trigger] v[i]),
    ensures
        first_ws(v) is None,
    decreases v.len(),
{
    if v.len() > 0 {
        lemma_first_ws_none(v.drop_last());
    }
}

/// The first white space after a word without any.
proof fn lemma_first_ws_after(v: Seq<char>, rest: Seq<char>)
    requires
        forall|i: int| 0 <= i < v.len() ==> !is_ws(#[trigger] v[i]),
    ensures
        first_ws(v + seq![' '] + rest) == Some(v.len() as int),
    decreases rest.len(),
{
    let s = v + seq![' '] + rest;
    if rest.len() == 0 {
        assert(s =~= v + seq![' ']);
        assert(s.drop_last() =~= v);
        lemma_first_ws_none(v);
    } else {
        lemma_first_ws_after(v, rest.drop_last());
        assert(s.drop_last() =~= v + seq![' '] + rest.drop_last());
    }
}

/// A verb, a space and a card name read as that verb and that card.
proof fn lemma_verb_line(verb: Seq<char>, c: Card)
    requires
        verb.len() >= 3,
        forall|i: int| 0 <= i < verb.len() ==> is_ascii_alnum(#[trigger] verb[i]),
    ensures
        ({
            let t = verb + seq![' '] + c.name_chars();
            &&& trim(t) == t
            &&& first_ws(t) == Some(verb.len() as int)
            &&& t.take(verb.len() as int) == verb
            &&& trim(t.skip(verb.len() as int + 1)) == c.name_chars()
            &&& !eq_ignore_case(t, seq!['d', 'o', 'n', 'e'])
        }),
{
    let t = verb + seq![' '] + c.name_chars();
    lemma_name_shape(c);
    lemma_trim_name(c);
    assert forall|i: int| 0 <= i < verb.len() implies !is_ws(#[trigger] verb[i]) by {
        lemma_alnum_not_ws(verb[i]);
    }
    lemma_alnum_not_ws(verb[0]);
    lemma_alnum_not_ws(c.name_chars().last());
    assert(t[0] == verb[0]);
    assert(t.last() == c.name_chars().last());
    lemma_trim_id(t);
    lemma_first_ws_after(verb, c.name_chars());
    assert(t.take(verb.len() as int) =~= verb);
    assert(t.skip(verb.len() as int + 1) =~= c.name_chars());
}

/// Every move's text, as `move_to_text` writes it, is read back by `parse_move`
/// as that same move, and it carries no surrounding white space.
pub proof fn lemma_parse_move_text(m: Move)
    ensures
        spec_parse_move(move_text(m)) == Some(m),
        trim(move_text(m)) == move_text(m),
{
    match m {
        Move::Play(c) => {
            lemma_verb_line(seq!['p', 'l', 'a', 'y'], c);
            lemma_parse_name(c);
            assert(move_text(m) =~= seq!['p', 'l', 'a', 'y'] + seq![' '] + c.name_chars());
        },
        Move::Buy(c) => {
            lemma_verb_line(seq!['b', 'u', 'y'], c);
            lemma_parse_name(c);
            assert(move_text(m) =~= seq!['b', 'u', 'y'] + seq![' '] + c.name_chars());
        },
        Move::Select(c) => {
            lemma_verb_line(seq!['p', 'i', 'c', 'k'], c);
            lemma_parse_name(c);
            assert(move_text(m) =~= seq!['p', 'i', 'c', 'k'] + seq![' '] + c.name_chars());
            assert(crate::card::lower_code('i') != crate::card::lower_code('l'));
            assert(!eq_ignore_case(seq!['p', 'i', 'c', 'k'], seq!['p', 'l', 'a', 'y']));
        },
        Move::Done => {
            lemma_trim_id(move_text(m));
        },
    }
}

/// A move line (two spaces, then the move) adds the move.
proof fn lemma_move_line(d: LogDraft, m: Move)
    requires
        d.4,
    ensures
        parse_line(d, seq![' ', ' '] + move_text(m)) == Some((d.0, d.1, d.2, d.3.push(m), d.4)),
{
    let t = move_text(m);
    lemma_parse_move_text(m);
    assert(seq![' ', ' '] + t =~= seq![' '] + (seq![' '] + t));
    lemma_trim_leading(' ', seq![' '] + t);
    lemma_trim_leading(' ', t);
    match m {
        Move::Play(c) => {
            lemma_name_shape(c);
            lemma_no_prefix(t, kingdom_tag(), 0);
            lemma_no_prefix(t, players_tag(), 4);
            lemma_no_prefix(t, seed_tag(), 0);
            lemma_no_prefix(t, moves_tag(), 0);
        },
        Move::Buy(c) => {
            lemma_name_shape(c);
            lemma_no_prefix(t, kingdom_tag(), 0);
            lemma_no_prefix(t, players_tag(), 0);
            lemma_no_prefix(t, seed_tag(), 0);
            lemma_no_prefix(t, moves_tag(), 0);
        },
        Move::Select(c) => {
            lemma_name_shape(c);
            lemma_no_prefix(t, kingdom_tag(), 0);
            lemma_no_prefix(t, players_tag(), 1);
            lemma_no_prefix(t, seed_tag(), 0);
            lemma_no_prefix(t, moves_tag(), 0);
        },
        Move::Done => {
            lemma_no_prefix(t, kingdom_tag(), 0);
            lemma_no_prefix(t, players_tag(), 0);
            lemma_no_prefix(t, seed_tag(), 0);
            lemma_no_prefix(t, moves_tag(), 0);
        },
    }
}

/// The lines of the moves section: one per move.
proof fn lemma_moves_lines(ms: Seq<Move>)
    ensures
        lines(moves_text(ms)) == ms.map_values(|m: Move| seq![' ', ' '] + move_text(m)),
        moves_text(ms).len() == 0 || moves_text(ms).last() == '\n',
    decreases ms.len(),
{
    if ms.len() == 0 {
        assert(lines(moves_text(ms)) =~= Seq::<Seq<char>>::empty());
    } else {
        let ms1 = ms.drop_last();
        lemma_moves_lines(ms1);
        let x = seq![' ', ' '] + move_text(ms.last());
        lemma_move_text_shape(ms.last());
        assert(moves_text(ms) =~= moves_text(ms1) + (x + seq!['\n']));
        lemma_lines_concat(moves_text(ms1), x + seq!['\n']);
        lemma_lines_one(x);
        assert(ms.map_values(|m: Move| seq![' ', ' '] + move_text(m)) =~= ms1.map_values(
            |m: Move| seq![' ', ' '] + move_text(m),
        ).push(x));
    }
}

/// A move's text holds no line feed and does not end in a carriage return.
proof fn lemma_move_text_shape(m: Move)
    ensures
        lacks(seq![' ', ' '] + move_text(m), '\n'),
        (seq![' ', ' '] + move_text(m)).last() != '\r',
{
    let x = seq![' ', ' '] + move_text(m);
    match m {
        Move::Play(c) | Move::Buy(c) | Move::Select(c) => {
            lemma_name_shape(c);
            let n = c.name_chars();
            assert(x.last() == n.last());
            assert forall|i: int| 0 <= i < x.len() implies x[i] != '\n' by {
                if i >= x.len() - n.len() {
                    assert(x[i] == n[i - (x.len() - n.len())]);
                }
            }
        },
        Move::Done => {},
    }
}

/// Reading the move lines after the `moves:` line appends the moves.
proof fn lemma_parse_moves(d: LogDraft, ms: Seq<Move>)
    requires
        d.4,
    ensures
        parse_more(d, ms.map_values(|m: Move| seq![' ', ' '] + move_text(m))) == Some((d.0, d.1, d.2, d.3 + ms, d.4)),
    decreases ms.len(),
{
    let ls = ms.map_values(|m: Move| seq![' ', ' '] + move_text(m));
    if ms.len() == 0 {
        assert(d.3 + ms =~= d.3);
    } else {
        let ms1 = ms.drop_last();
        lemma_parse_moves(d, ms1);
        assert(ls.drop_last() =~= ms1.map_values(|m: Move| seq![' ', ' '] + move_text(m)));
        lemma_move_line((d.0, d.1, d.2, d.3 + ms1, d.4), ms.last());
        assert((d.3 + ms1).push(ms.last()) =~= d.3 + ms);
    }
}

/// A line without line feeds, written with a line feed, reads as itself.
proof fn lemma_text_line(x: Seq<char>)
    requires
        lacks(x, '\n'),
        x.len() > 0,
        x.last() != '\r',
    ensures
        lines(x + seq!['\n']) == seq![x],
{
    lemma_lines_one(x);
}

/// The lines of a log's text: the three header lines, `moves:`, then one
/// line per move.
proof fn lemma_log_lines(kingdom: Seq<Card>, players: nat, seed: nat, moves: Seq<Move>)
    ensures
        lines(log_text(kingdom, players, seed, moves)) == seq![
            kingdom_tag() + seq![' '] + names_joined(kingdom),
            players_tag() + seq![' '] + dec(players),
            seed_tag() + seq![' '] + dec(seed),
            moves_tag(),
        ] + moves.map_values(|m: Move| seq![' ', ' '] + move_text(m)),
{
    let kl = kingdom_tag() + seq![' '] + names_joined(kingdom);
    let pl = players_tag() + seq![' '] + dec(players);
    let sl = seed_tag() + seq![' '] + dec(seed);
    let ml = moves_tag();
    let mt = moves_text(moves);
    let text = log_text(kingdom, players, seed, moves);
    let x1 = kl + seq!['\n'];
    let x2 = pl + seq!['\n'];
    let x3 = sl + seq!['\n'];
    let x4 = ml + seq!['\n'];
    assert(text =~= x1 + (x2 + (x3 + (x4 + mt))));
    lemma_header_shapes(kingdom, players, seed);
    lemma_text_line(kl);
    lemma_text_line(pl);
    lemma_text_line(sl);
    lemma_text_line(ml);
    lemma_moves_lines(moves);
    lemma_lines_concat(x4, mt);
    lemma_lines_concat(x3, x4 + mt);
    lemma_lines_concat(x2, x3 + (x4 + mt));
    lemma_lines_concat(x1, x2 + (x3 + (x4 + mt)));
    let mls = moves.map_values(|m: Move| seq![' ', ' '] + move_text(m));
    assert(lines(text) =~= seq![kl, pl, sl, ml] + mls);
}

/// Reading the header lines fills in kingdom, players and seed, and opens
/// the moves section.
proof fn lemma_parse_header(kingdom: Seq<Card>, players: nat, seed: nat)
    requires
        players <= usize::MAX,
        seed <= u64::MAX,
    ensures
        parse_more(
            (Seq::empty(), 2, 0, Seq::empty(), false),
            seq![
                kingdom_tag() + seq![' '] + names_joined(kingdom),
                players_tag() + seq![' '] + dec(players),
                seed_tag() + seq![' '] + dec(seed),
                moves_tag(),
            ],
        ) == Some((kingdom, players, seed, Seq::<Move>::empty(), true)),
{
    let kl = kingdom_tag() + seq![' '] + names_joined(kingdom);
    let pl = players_tag() + seq![' '] + dec(players);
    let sl = seed_tag() + seq![' '] + dec(seed);
    let ml = moves_tag();
    let head = seq![kl, pl, sl, ml];
    let d0: LogDraft = (Seq::empty(), 2, 0, Seq::empty(), false);
    let d1: LogDraft = (kingdom, 2, 0, Seq::empty(), false);
    let d2: LogDraft = (kingdom, players, 0, Seq::empty(), false);
    let d3: LogDraft = (kingdom, players, seed, Seq::empty(), false);
    lemma_kingdom_line(d0, kingdom);
    lemma_players_line(d1, players);
    lemma_seed_line(d2, seed);
    lemma_moves_line(d3);
    let h1 = seq![kl];
    let h2 = seq![kl, pl];
    let h3 = seq![kl, pl, sl];
    assert(h1.drop_last() =~= Seq::<Seq<char>>::empty());
    assert(h2.drop_last() =~= h1);
    assert(h3.drop_last() =~= h2);
    assert(head.drop_last() =~= h3);
    assert(parse_more(d0, Seq::<Seq<char>>::empty()) == Some(d0));
    assert(parse_more(d0, h1) == Some(d1));
    assert(parse_more(d0, h2) == Some(d2));
    assert(parse_more(d0, h3) == Some(d3));
    assert(parse_more(d0, head) == Some((kingdom, players, seed, Seq::<Move>::empty(), true)));
}

/// A log written out as text reads back as the same log: the same kingdom,
/// player count, seed and moves.
pub proof fn lemma_log_text_round_trip(kingdom: Seq<Card>, players: usize, seed: u64, moves: Seq<Move>)
    ensures
        reads_as(
            spec_parse_log(log_text(kingdom, players as nat, seed as nat, moves)),
            kingdom,
            players as nat,
            seed as nat,
            moves,
        ),
{
    let text = log_text(kingdom, players as nat, seed as nat, moves);
    let head = seq![
        kingdom_tag() + seq![' '] + names_joined(kingdom),
        players_tag() + seq![' '] + dec(players as nat),
        seed_tag() + seq![' '] + dec(seed as nat),
        moves_tag(),
    ];
    let mls = moves.map_values(|m: Move| seq![' ', ' '] + move_text(m));
    lemma_log_lines(kingdom, players as nat, seed as nat, moves);
    let d0: LogDraft = (Seq::empty(), 2, 0, Seq::empty(), false);
    lemma_parse_lines_more(lines(text));
    lemma_parse_more_concat(d0, head, mls);
    lemma_parse_header(kingdom, players as nat, seed as nat);
    let d4: LogDraft = (kingdom, players as nat, seed as nat, Seq::empty(), true);
    lemma_parse_moves(d4, moves);
    assert(Seq::<Move>::empty() + moves =~= moves);
}

/// The header lines hold no line feeds and end in no carriage return.
proof fn lemma_header_shapes(kingdom: Seq<Card>, players: nat, seed: nat)
    ensures
        lacks(kingdom_tag() + seq![' '] + names_joined(kingdom), '\n'),
        (kingdom_tag() + seq![' '] + names_joined(kingdom)).last() != '\r',
        lacks(players_tag() + seq![' '] + dec(players), '\n'),
        (players_tag() + seq![' '] + dec(players)).last() != '\r',
        lacks(seed_tag() + seq![' '] + dec(seed), '\n'),
        (seed_tag() + seq![' '] + dec(seed)).last() != '\r',
        lacks(moves_tag(), '\n'),
        moves_tag().last() != '\r',
{
    lemma_joined_shape(kingdom);
    lemma_dec(players);
    lemma_dec(seed);
    let kl = kingdom_tag() + seq![' '] + names_joined(kingdom);
    assert forall|i: int| 0 <= i < kl.len() implies kl[i] != '\n' by {
        if i >= 9 {
            assert(kl[i] == names_joined(kingdom)[i - 9]);
        }
    }
    if kingdom.len() > 0 {
        lemma_joined_ends(kingdom);
        lemma_name_shape(kingdom.last());
        assert(kl.last() == names_joined(kingdom).last());
    } else {
        assert(names_joined(kingdom) =~= Seq::<char>::empty());
        assert(kl =~= kingdom_tag() + seq![' ']);
    }
    let pl = players_tag() + seq![' '] + dec(players);
    assert forall|i: int| 0 <= i < pl.len() implies pl[i] != '\n' by {
        if i >= 9 {
            assert(pl[i] == dec(players)[i - 9]);
        }
    }
    assert(pl.last() == dec(players).last());
    let sl = seed_tag() + seq![' '] + dec(seed);
    assert forall|i: int| 0 <= i < sl.len() implies sl[i] != '\n' by {
        if i >= 6 {
            assert(sl[i] == dec(seed)[i - 6]);
        }
    }
    assert(sl.last() == dec(seed).last());
}

/// The joined names hold no line feed.
proof fn lemma_joined_shape(k: Seq<Card>)
    ensures
        lacks(names_joined(k), '\n'),
    decreases k.len(),
{
    if k.len() == 1 {
        lemma_name_shape(k[0]);
    } else if k.len() > 1 {
        lemma_joined_shape(k.drop_last());
        lemma_name_shape(k.last());
        let a = names_joined(k.drop_last());
        let n = k.last().name_chars();
        let j = names_joined(k);
        assert(j =~= a + seq![',', ' '] + n);
        assert forall|i: int| 0 <= i < j.len() implies j[i] != '\n' by {
            if i < a.len() {
                assert(j[i] == a[i]);
            } else if i >= a.len() + 2 {
                assert(j[i] == n[i - a.len() - 2]);
            }
        }
    }
}

} // verus!
