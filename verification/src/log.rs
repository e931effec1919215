//! Game logs: record a game as a replayable value, and rebuild the state at
//! any point in it.
//!
//! The engine is deterministic given a seed and a move sequence, so a log is
//! just the kingdom, the player count, the seed and the moves answered.
//! Replaying a prefix rebuilds the position after those moves.
//!
//! The text format is plain so logs can be written by hand, diffed and
//! pasted around:
//!
//! ```text
//! kingdom: Cellar, Chapel, Moat, ...
//! players: 2
//! seed: 99
//! moves:
//!   play Copper
//!   buy Silver
//!   done
//! ```

use vstd::prelude::*;
use crate::card::{spec_parse_card, Card};
use crate::census::{census, settled, wf};
use crate::engine::{advanced, answered, initial_census, lemma_played_start, lemma_played_step, offered, played, move_step, started, valid_setup, EngineError, Game};
use crate::state::{GameState, Move};
use crate::text::{
    chars_to_string, comma_pieces, dec, has_prefix, is_ws, lines, parse_decimal, parse_uint,
    push_decimal, push_str, skip_chars, split_commas, split_lines, starts_with, to_chars,
    trim, trim_chars,
};

verus! {

/// A game as a replayable value.
#[derive(Clone, PartialEq, Eq, Debug)]
pub struct GameLog {
    pub kingdom: Vec<Card>,
    pub players: usize,
    pub seed: u64,
    /// Every move answered, in order. Moves the engine resolved by itself
    /// are not recorded, because the engine never asked for them.
    pub moves: Vec<Move>,
}

/// Why a log could not be used.
#[derive(Clone, PartialEq, Eq, Debug)]
pub enum LogError {
    Engine(EngineError),
    Parse(String),
    /// A recorded move was not legal at that point in the replay.
    Diverged { at: usize, mv: Move },
}

// ------------------------------------------------------------ the text form

/// `kingdom:`
pub open spec fn kingdom_tag() -> Seq<char> {
    seq!['k', 'i', 'n', 'g', 'd', 'o', 'm', ':']
}

/// `players:`
pub open spec fn players_tag() -> Seq<char> {
    seq!['p', 'l', 'a', 'y', 'e', 'r', 's', ':']
}

/// `seed:`
pub open spec fn seed_tag() -> Seq<char> {
    seq!['s', 'e', 'e', 'd', ':']
}

/// `moves:`
pub open spec fn moves_tag() -> Seq<char> {
    seq!['m', 'o', 'v', 'e', 's', ':']
}

/// How a move is written: `play Village`, `buy Silver`, `pick Estate`, `done`.
pub open spec fn move_text(m: Move) -> Seq<char> {
    match m {
        Move::Play(c) => seq!['p', 'l', 'a', 'y', ' '] + c.name_chars(),
        Move::Buy(c) => seq!['b', 'u', 'y', ' '] + c.name_chars(),
        Move::Select(c) => seq!['p', 'i', 'c', 'k', ' '] + c.name_chars(),
        Move::Done => seq!['d', 'o', 'n', 'e'],
    }
}

/// Card names separated by `, `.
pub open spec fn names_joined(k: Seq<Card>) -> Seq<char>
    decreases k.len(),
{
    if k.len() == 0 {
        Seq::empty()
    } else if k.len() == 1 {
        k[0].name_chars()
    } else {
        names_joined(k.drop_last()) + seq![',', ' '] + k.last().name_chars()
    }
}

/// One indented line per move.
pub open spec fn moves_text(ms: Seq<Move>) -> Seq<char>
    decreases ms.len(),
{
    if ms.len() == 0 {
        Seq::empty()
    } else {
        moves_text(ms.drop_last()) + seq![' ', ' '] + move_text(ms.last()) + seq!['\n']
    }
}

/// The text of a log.
pub open spec fn log_text(kingdom: Seq<Card>, players: nat, seed: nat, moves: Seq<Move>) -> Seq<char> {
    kingdom_tag() + seq![' '] + names_joined(kingdom) + seq!['\n'] + players_tag() + seq![' '] + dec(players)
        + seq!['\n'] + seed_tag() + seq![' '] + dec(seed) + seq!['\n'] + moves_tag() + seq!['\n']
        + moves_text(moves)
}

/// Whether `a` and `b` agree ignoring ASCII case.
pub open spec fn eq_ignore_case(a: Seq<char>, b: Seq<char>) -> bool {
    a.len() == b.len() && forall|i: int| 0 <= i < a.len() ==> crate::card::lower_code(#[trigger] a[i]) == crate::card::lower_code(b[i])
}

/// The position of the first white-space character.
pub open spec fn first_ws(s: Seq<char>) -> Option<int>
    decreases s.len(),
{
    if s.len() == 0 {
        None
    } else {
        match first_ws(s.drop_last()) {
            Some(i) => Some(i),
            None => if is_ws(s.last()) { Some(s.len() - 1) } else { None },
        }
    }
}

/// A move read from text: `done`, or a verb (`play`, `buy`, `pick` or
/// `select`, in any case) followed by white space and a card name, all after
/// trimming.
pub open spec fn spec_parse_move(s: Seq<char>) -> Option<Move> {
    let t = trim(s);
    if eq_ignore_case(t, seq!['d', 'o', 'n', 'e']) {
        Some(Move::Done)
    } else {
        match first_ws(t) {
            None => None,
            Some(j) => {
                let verb = t.take(j);
                match spec_parse_card(trim(t.skip(j + 1))) {
                    None => None,
                    Some(c) => if eq_ignore_case(verb, seq!['p', 'l', 'a', 'y']) {
                        Some(Move::Play(c))
                    } else if eq_ignore_case(verb, seq!['b', 'u', 'y']) {
                        Some(Move::Buy(c))
                    } else if eq_ignore_case(verb, seq!['p', 'i', 'c', 'k']) || eq_ignore_case(
                        verb,
                        seq!['s', 'e', 'l', 'e', 'c', 't'],
                    ) {
                        Some(Move::Select(c))
                    } else {
                        None
                    },
                }
            },
        }
    }
}

/// The cards of a comma list: each piece trimmed, empty pieces skipped,
/// every other piece naming a card.
pub open spec fn card_list(pieces: Seq<Seq<char>>) -> Option<Seq<Card>>
    decreases pieces.len(),
{
    if pieces.len() == 0 {
        Some(Seq::empty())
    } else {
        match card_list(pieces.drop_last()) {
            None => None,
            Some(k) => {
                let t = trim(pieces.last());
                if t.len() == 0 {
                    Some(k)
                } else {
                    match spec_parse_card(t) {
                        Some(c) => Some(k.push(c)),
                        None => None,
                    }
                }
            },
        }
    }
}

/// What a log text has said so far: kingdom, player count, seed, moves, and
/// whether the moves section has begun.
pub type LogDraft = (Seq<Card>, nat, nat, Seq<Move>, bool);

/// Read one line into the draft. Blank lines and `#` comments are skipped; a
/// `kingdom:`, `players:` or `seed:` line sets its field; `moves:` opens the
/// moves section, in which every other line is a move. Anything else is an
/// error.
pub open spec fn parse_line(d: LogDraft, raw: Seq<char>) -> Option<LogDraft> {
    let line = trim(raw);
    if line.len() == 0 || line[0] == '#' {
        Some(d)
    } else if has_prefix(line, kingdom_tag()) {
        match card_list(comma_pieces(line.skip(8))) {
            Some(k) => Some((k, d.1, d.2, d.3, d.4)),
            None => None,
        }
    } else if has_prefix(line, players_tag()) {
        match parse_uint(trim(line.skip(8)), usize::MAX as nat) {
            Some(n) => Some((d.0, n, d.2, d.3, d.4)),
            None => None,
        }
    } else if has_prefix(line, seed_tag()) {
        match parse_uint(trim(line.skip(5)), u64::MAX as nat) {
            Some(n) => Some((d.0, d.1, n, d.3, d.4)),
            None => None,
        }
    } else if has_prefix(line, moves_tag()) {
        Some((d.0, d.1, d.2, d.3, true))
    } else if d.4 {
        match spec_parse_move(line) {
            Some(m) => Some((d.0, d.1, d.2, d.3.push(m), d.4)),
            None => None,
        }
    } else {
        None
    }
}

/// Read lines in order, starting from two players, seed 0 and nothing else.
pub open spec fn parse_lines(ls: Seq<Seq<char>>) -> Option<LogDraft>
    decreases ls.len(),
{
    if ls.len() == 0 {
        Some((Seq::empty(), 2, 0, Seq::empty(), false))
    } else {
        match parse_lines(ls.drop_last()) {
            None => None,
            Some(d) => parse_line(d, ls.last()),
        }
    }
}

/// The log a text describes, if it is well formed.
pub open spec fn spec_parse_log(text: Seq<char>) -> Option<LogDraft> {
    parse_lines(lines(text))
}

// ------------------------------------------------------------ writing

/// Append the text of a move.
fn push_move(out: &mut Vec<char>, m: Move)
    ensures
        final(out)@ == old(out)@ + move_text(m),
{
    match m {
        Move::Play(c) => {
            let ghost o = out@;
            out.push('p');
            out.push('l');
            out.push('a');
            out.push('y');
            out.push(' ');
            push_str(out, c.name());
            assert(out@ =~= o + move_text(m));
        },
        Move::Buy(c) => {
            let ghost o = out@;
            out.push('b');
            out.push('u');
            out.push('y');
            out.push(' ');
            push_str(out, c.name());
            assert(out@ =~= o + move_text(m));
        },
        Move::Select(c) => {
            let ghost o = out@;
            out.push('p');
            out.push('i');
            out.push('c');
            out.push('k');
            out.push(' ');
            push_str(out, c.name());
            assert(out@ =~= o + move_text(m));
        },
        Move::Done => {
            let ghost o = out@;
            out.push('d');
            out.push('o');
            out.push('n');
            out.push('e');
            assert(out@ =~= o + move_text(m));
        },
    }
}

/// Append literal characters.
fn push_all(out: &mut Vec<char>, s: &[char])
    ensures
        final(out)@ == old(out)@ + s@,
{
    let mut i: usize = 0;
    let ghost o = out@;
    while i < s.len()
        invariant
            i <= s@.len(),
            out@ == o + s@.take(i as int),
        decreases s@.len() - i,
    {
        out.push(s[i]);
        assert(s@.take((i + 1) as int) =~= s@.take(i as int).push(s@[i as int]));
        i = i + 1;
    }
    assert(s@.take(s@.len() as int) =~= s@);
}

/// The text of a move, as the text format writes it.
pub fn move_to_text(m: Move) -> (r: String)
    ensures
        r@ == move_text(m),
{
    let mut out: Vec<char> = Vec::new();
    push_move(&mut out, m);
    assert(out@ =~= move_text(m));
    chars_to_string(&out)
}

impl GameLog {
    /// An empty log for a game about to start.
    pub fn new(kingdom: Vec<Card>, players: usize, seed: u64) -> (r: GameLog)
        ensures
            r.kingdom@ == kingdom@,
            r.players == players,
            r.seed == seed,
            r.moves@ == Seq::<Move>::empty(),
    {
        GameLog { kingdom, players, seed, moves: Vec::new() }
    }

    /// Rebuild the game after the first `n` recorded moves (all of them if
    /// the log is shorter), parked on the decision that follows. A setup the
    /// engine refuses is an engine error; a move that cannot be played where
    /// it stands (the game is over, or the move is not among the options) is
    /// a divergence at its position.
    pub fn replay_prefix(&self, n: usize) -> (r: Result<Game, LogError>)
        ensures
            (r matches Err(LogError::Engine(e))) <==> !valid_setup(self.kingdom@, self.players as nat),
            r matches Err(LogError::Engine(e)) ==> e is BadKingdom,
            r is Err ==> !(r matches Err(LogError::Parse(_))),
            r matches Err(LogError::Diverged { at, mv }) ==> at < n && at < self.moves@.len() && mv
                == self.moves@[at as int],
            r matches Err(LogError::Diverged { at, mv }) ==> exists|s: GameState| #[trigger] played(self.kingdom@,
                self.players as nat, self.seed, self.moves@.take(at as int), s) && !offered(s, mv),
            r matches Ok(g) ==> {
                &&& wf(g.state)
                &&& settled(g.state)
                &&& g.state.players@.len() == self.players
                &&& forall|c: Card| #[trigger] census(g.state, c) == initial_census(self.kingdom@, self.players as nat, c)
                &&& played(self.kingdom@, self.players as nat, self.seed,
                    self.moves@.take(if (n as int) < self.moves@.len() { n as int } else { self.moves@.len() as int }), g.state)
            },
    {
        let mut game = match Game::new(self.kingdom.as_slice(), self.players, self.seed) {
            Ok(g) => g,
            Err(e) => {
                return Err(LogError::Engine(e));
            },
        };
        let limit = if n < self.moves.len() { n } else { self.moves.len() };
        let ghost k = self.kingdom@;
        let ghost np = self.players as nat;
        let ghost ms = self.moves@;
        proof {
            lemma_played_start(k, np, self.seed, game.state);
            assert(ms.take(0) =~= Seq::<Move>::empty());
        }
        let mut i: usize = 0;
        while i < limit
            invariant
                limit <= n,
                limit <= self.moves@.len(),
                i <= limit,
                valid_setup(self.kingdom@, self.players as nat),
                wf(game.state),
                settled(game.state),
                game.state.players@.len() == self.players,
                forall|c: Card| #[trigger] census(game.state, c) == initial_census(self.kingdom@, self.players as nat, c),
                k == self.kingdom@,
                np == self.players as nat,
                ms == self.moves@,
                played(k, np, self.seed, ms.take(i as int), game.state),
            decreases limit - i,
        {
            let mv = self.moves[i];
            if game.is_over() {
                proof {
                    assert(!offered(game.state, mv));
                }
                return Err(LogError::Diverged { at: i, mv });
            }
            let ghost before = game.state;
            match game.apply(mv) {
                Ok(()) => {},
                Err(_) => {
                    proof {
                        assert(!offered(before, mv));
                    }
                    return Err(LogError::Diverged { at: i, mv });
                },
            }
            proof {
                assert forall|c: Card| #[trigger] census(game.state, c) == initial_census(self.kingdom@, self.players as nat, c) by {
                    assert(census(before, c) == census(game.state, c));
                }
                assert(move_step(before, mv, game.state));
                lemma_played_step(k, np, self.seed, ms.take(i as int), before, mv, game.state);
                assert(ms.take(i + 1) =~= ms.take(i as int).push(mv));
            }
            i = i + 1;
        }
        Ok(game)
    }

    /// Rebuild the game at the end of the log.
    pub fn replay(&self) -> (r: Result<Game, LogError>)
        ensures
            (r matches Err(LogError::Engine(e))) <==> !valid_setup(self.kingdom@, self.players as nat),
            r matches Err(LogError::Engine(e)) ==> e is BadKingdom,
            r is Err ==> !(r matches Err(LogError::Parse(_))),
            r matches Err(LogError::Diverged { at, mv }) ==> at < self.moves@.len() && mv == self.moves@[at as int],
            r matches Err(LogError::Diverged { at, mv }) ==> exists|s: GameState| #[trigger] played(self.kingdom@,
                self.players as nat, self.seed, self.moves@.take(at as int), s) && !offered(s, mv),
            r matches Ok(g) ==> {
                &&& wf(g.state)
                &&& settled(g.state)
                &&& g.state.players@.len() == self.players
                &&& forall|c: Card| #[trigger] census(g.state, c) == initial_census(self.kingdom@, self.players as nat, c)
                &&& played(self.kingdom@, self.players as nat, self.seed, self.moves@, g.state)
            },
    {
        let r = self.replay_prefix(self.moves.len());
        assert(self.moves@.take(self.moves@.len() as int) =~= self.moves@);
        r
    }

    /// The log in its text form.
    pub fn to_text(&self) -> (r: String)
        ensures
            r@ == log_text(self.kingdom@, self.players as nat, self.seed as nat, self.moves@),
    {
        let mut out: Vec<char> = Vec::new();
        push_all(&mut out, &['k', 'i', 'n', 'g', 'd', 'o', 'm', ':', ' ']);
        let ghost head = out@;
        let mut i: usize = 0;
        while i < self.kingdom.len()
            invariant
                i <= self.kingdom@.len(),
                out@ == head + names_joined(self.kingdom@.take(i as int)),
            decreases self.kingdom@.len() - i,
        {
            let ghost o = out@;
            if i > 0 {
                out.push(',');
                out.push(' ');
            }
            push_str(&mut out, self.kingdom[i].name());
            proof {
                let pre = self.kingdom@.take(i as int);
                let post = self.kingdom@.take((i + 1) as int);
                assert(post.drop_last() =~= pre);
                if i > 0 {
                    assert(names_joined(post) == names_joined(pre) + seq![',', ' '] + self.kingdom@[i as int].name_chars());
                } else {
                    assert(names_joined(post) == post[0].name_chars());
                    assert(names_joined(pre) =~= Seq::<char>::empty());
                }
                assert(out@ =~= head + names_joined(post));
            }
            i = i + 1;
        }
        assert(self.kingdom@.take(self.kingdom@.len() as int) =~= self.kingdom@);
        push_all(&mut out, &['\n', 'p', 'l', 'a', 'y', 'e', 'r', 's', ':', ' ']);
        push_decimal(&mut out, self.players as u64);
        push_all(&mut out, &['\n', 's', 'e', 'e', 'd', ':', ' ']);
        push_decimal(&mut out, self.seed);
        push_all(&mut out, &['\n', 'm', 'o', 'v', 'e', 's', ':', '\n']);
        let ghost body = out@;
        let mut j: usize = 0;
        while j < self.moves.len()
            invariant
                j <= self.moves@.len(),
                out@ == body + moves_text(self.moves@.take(j as int)),
            decreases self.moves@.len() - j,
        {
            let ghost o = out@;
            out.push(' ');
            out.push(' ');
            push_move(&mut out, self.moves[j]);
            out.push('\n');
            proof {
                let post = self.moves@.take((j + 1) as int);
                assert(post.drop_last() =~= self.moves@.take(j as int));
                assert(out@ =~= body + moves_text(post));
            }
            j = j + 1;
        }
        assert(self.moves@.take(self.moves@.len() as int) =~= self.moves@);
        proof {
            let k = self.kingdom@;
            let t = log_text(k, self.players as nat, self.seed as nat, self.moves@);
            assert(out@ =~= t);
        }
        chars_to_string(&out)
    }
}

// ------------------------------------------------------------ reading

/// A character's code with ASCII upper case folded to lower case.
fn lower(ch: char) -> (r: u32)
    ensures
        r == crate::card::lower_code(ch),
{
    let u = ch as u32;
    if 65 <= u && u <= 90 {
        u + 32
    } else {
        u
    }
}

/// Whether `a` spells `b` ignoring ASCII case.
fn same_ignoring_case(a: &Vec<char>, b: &[char]) -> (r: bool)
    ensures
        r == eq_ignore_case(a@, b@),
{
    if a.len() != b.len() {
        return false;
    }
    let mut i: usize = 0;
    while i < a.len()
        invariant
            a@.len() == b@.len(),
            i <= a@.len(),
            forall|j: int| 0 <= j < i ==> crate::card::lower_code(#[trigger] a@[j]) == crate::card::lower_code(b@[j]),
        decreases a@.len() - i,
    {
        if lower(a[i]) != lower(b[i]) {
            return false;
        }
        i = i + 1;
    }
    true
}

/// The position of the first white-space character.
fn find_ws(v: &Vec<char>) -> (r: Option<usize>)
    ensures
        match r {
            Some(j) => first_ws(v@) == Some(j as int),
            None => first_ws(v@) is None,
        },
{
    let mut i: usize = 0;
    while i < v.len()
        invariant
            i <= v@.len(),
            first_ws(v@.take(i as int)) is None,
        decreases v@.len() - i,
    {
        assert(v@.take((i + 1) as int).drop_last() =~= v@.take(i as int));
        if crate::text::is_whitespace(v[i]) {
            proof {
                lemma_first_ws_prefix(v@, (i + 1) as int);
            }
            return Some(i);
        }
        i = i + 1;
    }
    assert(v@.take(v@.len() as int) =~= v@);
    None
}

/// Once a prefix holds white space, the first in the whole text is its.
proof fn lemma_first_ws_prefix(s: Seq<char>, k: int)
    requires
        0 <= k <= s.len(),
        first_ws(s.take(k)) is Some,
    ensures
        first_ws(s) == first_ws(s.take(k)),
    decreases s.len() - k,
{
    if k < s.len() {
        assert(s.take(k + 1).drop_last() =~= s.take(k));
        lemma_first_ws_prefix(s, k + 1);
    } else {
        assert(s.take(k) =~= s);
    }
}

/// The first `k` characters.
fn take_chars(v: &Vec<char>, k: usize) -> (r: Vec<char>)
    requires
        k <= v@.len(),
    ensures
        r@ == v@.take(k as int),
{
    let mut r: Vec<char> = Vec::new();
    let mut i: usize = 0;
    while i < k
        invariant
            k <= v@.len(),
            i <= k,
            r@ == v@.take(i as int),
        decreases k - i,
    {
        r.push(v[i]);
        assert(v@.take((i + 1) as int) =~= v@.take(i as int).push(v@[i as int]));
        i = i + 1;
    }
    r
}

/// Read a move from characters.
fn parse_move_chars(v: &Vec<char>) -> (r: Option<Move>)
    ensures
        r == spec_parse_move(v@),
{
    let t = trim_chars(v);
    if same_ignoring_case(&t, &['d', 'o', 'n', 'e']) {
        return Some(Move::Done);
    }
    let j = match find_ws(&t) {
        None => {
            return None;
        },
        Some(j) => j,
    };
    proof {
        lemma_first_ws_in_range(t@);
    }
    let verb = take_chars(&t, j);
    let rest = trim_chars(&skip_chars(&t, j + 1));
    let card = match Card::parse_chars(&rest) {
        None => {
            return None;
        },
        Some(c) => c,
    };
    if same_ignoring_case(&verb, &['p', 'l', 'a', 'y']) {
        Some(Move::Play(card))
    } else if same_ignoring_case(&verb, &['b', 'u', 'y']) {
        Some(Move::Buy(card))
    } else if same_ignoring_case(&verb, &['p', 'i', 'c', 'k']) || same_ignoring_case(
        &verb,
        &['s', 'e', 'l', 'e', 'c', 't'],
    ) {
        Some(Move::Select(card))
    } else {
        None
    }
}

/// The first white space lies inside the text.
proof fn lemma_first_ws_in_range(s: Seq<char>)
    ensures
        first_ws(s) matches Some(j) ==> 0 <= j < s.len(),
    decreases s.len(),
{
    if s.len() > 0 {
        lemma_first_ws_in_range(s.drop_last());
    }
}

/// Parse a move in the form the text format writes it: `play Village`,
/// `buy Silver`, `pick Estate` (or `select Estate`), `done`, in any case and
/// with surrounding white space.
pub fn parse_move(s: &str) -> (r: Option<Move>)
    ensures
        r == spec_parse_move(s@),
{
    parse_move_chars(&to_chars(s))
}

/// The cards of a comma list.
fn parse_card_list(pieces: &Vec<Vec<char>>, Ghost(ps): Ghost<Seq<Seq<char>>>) -> (r: Option<Vec<Card>>)
    requires
        pieces@.len() == ps.len(),
        forall|i: int| 0 <= i < ps.len() ==> (#[trigger] pieces@[i])@ == ps[i],
    ensures
        match r {
            Some(k) => card_list(ps) == Some(k@),
            None => card_list(ps) is None,
        },
{
    let mut k: Vec<Card> = Vec::new();
    let mut i: usize = 0;
    while i < pieces.len()
        invariant
            pieces@.len() == ps.len(),
            forall|j: int| 0 <= j < ps.len() ==> (#[trigger] pieces@[j])@ == ps[j],
            i <= ps.len(),
            card_list(ps.take(i as int)) == Some(k@),
        decreases ps.len() - i,
    {
        assert(ps.take((i + 1) as int).drop_last() =~= ps.take(i as int));
        assert(ps.take((i + 1) as int).last() == ps[i as int]);
        let t = trim_chars(&pieces[i]);
        if t.len() > 0 {
            match Card::parse_chars(&t) {
                Some(c) => {
                    k.push(c);
                },
                None => {
                    proof {
                        lemma_card_list_none(ps, (i + 1) as int);
                    }
                    return None;
                },
            }
        }
        i = i + 1;
    }
    assert(ps.take(ps.len() as int) =~= ps);
    Some(k)
}

/// Once a prefix of the pieces fails, the whole list fails.
proof fn lemma_card_list_none(ps: Seq<Seq<char>>, k: int)
    requires
        0 <= k <= ps.len(),
        card_list(ps.take(k)) is None,
    ensures
        card_list(ps) is None,
    decreases ps.len() - k,
{
    if k < ps.len() {
        assert(ps.take(k + 1).drop_last() =~= ps.take(k));
        lemma_card_list_none(ps, k + 1);
    } else {
        assert(ps.take(k) =~= ps);
    }
}

/// The index of the first line that cannot be read.
pub open spec fn failing_line(ls: Seq<Seq<char>>) -> int
    decreases ls.len(),
{
    if ls.len() == 0 {
        -1
    } else if parse_lines(ls.drop_last()) is None {
        failing_line(ls.drop_last())
    } else {
        ls.len() - 1
    }
}

/// Once a prefix of the lines fails, the whole text fails at the same line.
proof fn lemma_parse_lines_none(ls: Seq<Seq<char>>, k: int)
    requires
        0 <= k <= ls.len(),
        parse_lines(ls.take(k)) is None,
    ensures
        parse_lines(ls) is None,
        failing_line(ls) == failing_line(ls.take(k)),
    decreases ls.len() - k,
{
    if k < ls.len() {
        assert(ls.take(k + 1).drop_last() =~= ls.take(k));
        lemma_parse_lines_none(ls, k + 1);
    } else {
        assert(ls.take(k) =~= ls);
    }
}

/// A string in the quoted form that std's `Debug` for `String` gives it
/// (`{:?}`). Nothing is stated of the result: std's documentation does not
/// fix the exact quoting and escaping, so callers only append it.
#[verifier::external_body]
fn debug_quoted(v: &Vec<char>) -> String {
    format!("{:?}", v.iter().collect::<String>())
}

/// A parse error on line `n` (counting from 1): `line n: ` then the reason.
fn line_error(n: usize, reason: &[char]) -> (r: LogError)
    ensures
        r matches LogError::Parse(m) && m@ == seq!['l', 'i', 'n', 'e', ' '] + dec(n as nat) + seq![':', ' '] + reason@,
{
    let mut out: Vec<char> = Vec::new();
    push_all(&mut out, &['l', 'i', 'n', 'e', ' ']);
    push_decimal(&mut out, n as u64);
    push_all(&mut out, &[':', ' ']);
    push_all(&mut out, reason);
    LogError::Parse(chars_to_string(&out))
}

/// A parse error on line `n` naming the offending text, quoted.
fn line_error_quoting(n: usize, reason: &[char], what: &Vec<char>) -> (r: LogError)
    ensures
        r matches LogError::Parse(m) && (seq!['l', 'i', 'n', 'e', ' '] + dec(n as nat) + seq![':', ' '] + reason@).is_prefix_of(m@),
{
    let mut out: Vec<char> = Vec::new();
    push_all(&mut out, &['l', 'i', 'n', 'e', ' ']);
    push_decimal(&mut out, n as u64);
    push_all(&mut out, &[':', ' ']);
    push_all(&mut out, reason);
    let ghost head = out@;
    let quoted = debug_quoted(what);
    push_str(&mut out, quoted.as_str());
    assert(head.is_prefix_of(out@)) by {
        assert(out@.take(head.len() as int) =~= head);
    }
    LogError::Parse(chars_to_string(&out))
}

/// A draft that was read through holds these fields.
pub open spec fn reads_as(d: Option<LogDraft>, kingdom: Seq<Card>, players: nat, seed: nat, moves: Seq<Move>) -> bool {
    match d {
        Some(x) => x.0 == kingdom && x.1 == players && x.2 == seed && x.3 == moves,
        None => false,
    }
}

/// The message a failing line gets starts with its number.
pub open spec fn parse_error_at(m: Seq<char>, line: int) -> bool {
    (seq!['l', 'i', 'n', 'e', ' '] + dec((line + 1) as nat) + seq![':', ' ']).is_prefix_of(m)
}

impl GameLog {
    /// Read a log from its text form. Blank lines and lines starting with
    /// `#` are ignored; missing fields default to two players and seed 0. A
    /// malformed line is a parse error whose message starts with
    /// `line N: `, N counting from 1.
    pub fn from_text(text: &str) -> (r: Result<GameLog, LogError>)
        ensures
            match r {
                Ok(log) => reads_as(spec_parse_log(text@), log.kingdom@, log.players as nat, log.seed as nat, log.moves@),
                Err(e) => spec_parse_log(text@) is None && (e matches LogError::Parse(m) && parse_error_at(
                    m@,
                    failing_line(lines(text@)),
                )),
            },
    {
        let chars = to_chars(text);
        let ls = split_lines(&chars);
        let ghost gl = lines(text@);
        let mut kingdom: Vec<Card> = Vec::new();
        let mut players: usize = 2;
        let mut seed: u64 = 0;
        let mut moves: Vec<Move> = Vec::new();
        let mut in_moves = false;
        let mut i: usize = 0;
        assert(gl.take(0) =~= Seq::<Seq<char>>::empty());
        assert(kingdom@ =~= Seq::<Card>::empty());
        assert(moves@ =~= Seq::<Move>::empty());
        while i < ls.len()
            invariant
                gl == lines(text@),
                ls@.len() == gl.len(),
                forall|j: int| 0 <= j < gl.len() ==> (#[trigger] ls@[j])@ == gl[j],
                i <= gl.len(),
                parse_lines(gl.take(i as int)) == Some(
                    (kingdom@, players as nat, seed as nat, moves@, in_moves),
                ),
            decreases gl.len() - i,
        {
            let ghost d = (kingdom@, players as nat, seed as nat, moves@, in_moves);
            assert(gl.take((i + 1) as int).drop_last() =~= gl.take(i as int));
            assert(gl.take((i + 1) as int).last() == gl[i as int]);
            let line = trim_chars(&ls[i]);
            let n = i + 1;
            if line.len() == 0 || line[0] == '#' {
            } else if starts_with(&line, &chars_of(&['k', 'i', 'n', 'g', 'd', 'o', 'm', ':'])) {
                let rest = skip_chars(&line, 8);
                let pieces = split_commas(&rest);
                match parse_card_list(&pieces, Ghost(comma_pieces(rest@))) {
                    Some(k) => {
                        kingdom = k;
                    },
                    None => {
                        proof {
                            lemma_parse_lines_none(gl, (i + 1) as int);
                        }
                        return Err(self::unknown_card_error(n, &pieces));
                    },
                }
            } else if starts_with(&line, &chars_of(&['p', 'l', 'a', 'y', 'e', 'r', 's', ':'])) {
                let rest = trim_chars(&skip_chars(&line, 8));
                match parse_decimal(&rest, usize::MAX as u64) {
                    Some(p) => {
                        players = p as usize;
                    },
                    None => {
                        proof {
                            lemma_parse_lines_none(gl, (i + 1) as int);
                        }
                        return Err(line_error(n, &['b', 'a', 'd', ' ', 'p', 'l', 'a', 'y', 'e', 'r', ' ', 'c', 'o', 'u', 'n', 't']));
                    },
                }
            } else if starts_with(&line, &chars_of(&['s', 'e', 'e', 'd', ':'])) {
                let rest = trim_chars(&skip_chars(&line, 5));
                match parse_decimal(&rest, u64::MAX) {
                    Some(x) => {
                        seed = x;
                    },
                    None => {
                        proof {
                            lemma_parse_lines_none(gl, (i + 1) as int);
                        }
                        return Err(line_error(n, &['b', 'a', 'd', ' ', 's', 'e', 'e', 'd']));
                    },
                }
            } else if starts_with(&line, &chars_of(&['m', 'o', 'v', 'e', 's', ':'])) {
                in_moves = true;
            } else if in_moves {
                match parse_move_chars(&line) {
                    Some(m) => {
                        moves.push(m);
                    },
                    None => {
                        proof {
                            lemma_parse_lines_none(gl, (i + 1) as int);
                        }
                        return Err(line_error_quoting(n, &['b', 'a', 'd', ' ', 'm', 'o', 'v', 'e', ' '], &line));
                    },
                }
            } else {
                proof {
                    lemma_parse_lines_none(gl, (i + 1) as int);
                }
                return Err(line_error(n, &['u', 'n', 'e', 'x', 'p', 'e', 'c', 't', 'e', 'd', ' ', 'l', 'i', 'n', 'e', ' ', 'o', 'u', 't', 's', 'i', 'd', 'e', ' ', 'a', 'n', 'y', ' ', 's', 'e', 'c', 't', 'i', 'o', 'n']));
            }
            i = i + 1;
        }
        assert(gl.take(gl.len() as int) =~= gl);
        Ok(GameLog { kingdom, players, seed, moves })
    }
}

/// The parse error for a kingdom line naming an unknown card: the first
/// piece that names no card is quoted.
fn unknown_card_error(n: usize, pieces: &Vec<Vec<char>>) -> (r: LogError)
    ensures
        r matches LogError::Parse(m) && (seq!['l', 'i', 'n', 'e', ' '] + dec(n as nat) + seq![':', ' ']
            + seq!['u', 'n', 'k', 'n', 'o', 'w', 'n', ' ', 'c', 'a', 'r', 'd', ' ']).is_prefix_of(m@),
{
    let mut i: usize = 0;
    while i < pieces.len()
        invariant
            i <= pieces@.len(),
        decreases pieces@.len() - i,
    {
        let t = trim_chars(&pieces[i]);
        if t.len() > 0 && Card::parse_chars(&t).is_none() {
            return line_error_quoting(n, &['u', 'n', 'k', 'n', 'o', 'w', 'n', ' ', 'c', 'a', 'r', 'd', ' '], &t);
        }
        i = i + 1;
    }
    let none: Vec<char> = Vec::new();
    line_error_quoting(n, &['u', 'n', 'k', 'n', 'o', 'w', 'n', ' ', 'c', 'a', 'r', 'd', ' '], &none)
}

/// The characters of a slice, as a vector.
fn chars_of(s: &[char]) -> (r: Vec<char>)
    ensures
        r@ == s@,
{
    let mut r: Vec<char> = Vec::new();
    push_all(&mut r, s);
    assert(r@ =~= s@);
    r
}

// ------------------------------------------------------------ recording

/// A game that records every move answered, so it can be replayed later.
pub struct RecordedGame {
    pub game: Game,
    pub log: GameLog,
}

impl RecordedGame {
    /// Start a recorded game; the engine's refusals are passed on.
    pub fn new(kingdom: &[Card], players: usize, seed: u64) -> (r: Result<RecordedGame, EngineError>)
        ensures
            r is Ok <==> valid_setup(kingdom@, players as nat),
            r matches Err(e) ==> e is BadKingdom,
            r matches Ok(rg) ==> {
                &&& rg.log.kingdom@ == kingdom@
                &&& rg.log.players == players
                &&& rg.log.seed == seed
                &&& rg.log.moves@ == Seq::<Move>::empty()
                &&& wf(rg.game.state)
                &&& settled(rg.game.state)
                &&& rg.game.state.players@.len() == players
                &&& forall|c: Card| #[trigger] census(rg.game.state, c) == initial_census(kingdom@, players as nat, c)
                &&& started(kingdom@, players as nat, seed, rg.game.state)
                &&& played(rg.log.kingdom@, rg.log.players as nat, rg.log.seed, rg.log.moves@, rg.game.state)
                &&& exists|d: GameState| #[trigger] crate::engine::opening_state(kingdom@, players as nat, seed, d)
                    && crate::engine::first_decision(d, rg.game.state)
            },
            !valid_setup(kingdom@, players as nat) ==> crate::engine::refusal_text(r) == Some(
                crate::compact::setup_refusal(kingdom@, players as nat),
            ),
    {
        proof {
            crate::compact::lemma_first_outside_none(kingdom@);
        }
        let game = match Game::new(kingdom, players, seed) {
            Ok(g) => g,
            Err(e) => {
                return Err(e);
            },
        };
        let mut k: Vec<Card> = Vec::new();
        let mut i: usize = 0;
        while i < kingdom.len()
            invariant
                i <= kingdom@.len(),
                k@ == kingdom@.take(i as int),
            decreases kingdom@.len() - i,
        {
            k.push(kingdom[i]);
            assert(kingdom@.take((i + 1) as int) =~= kingdom@.take(i as int).push(kingdom@[i as int]));
            i = i + 1;
        }
        assert(kingdom@.take(kingdom@.len() as int) =~= kingdom@);
        proof {
            lemma_played_start(kingdom@, players as nat, seed, game.state);
        }
        Ok(RecordedGame { game, log: GameLog::new(k, players, seed) })
    }

    /// Answer the pending decision; a move the game accepts is appended to
    /// the log, a refused one leaves both the game and the log as they were.
    pub fn apply(&mut self, mv: Move) -> (r: Result<(), EngineError>)
        requires
            wf(old(self).game.state),
        ensures
            wf(final(self).game.state),
            crate::census::conserved(old(self).game.state, final(self).game.state),
            r is Ok ==> settled(final(self).game.state),
            r is Ok <==> (old(self).game.state.pending matches Some(d) && d.options@.contains(mv)),
            r is Ok ==> final(self).log.moves@ == old(self).log.moves@.push(mv),
            r is Err ==> final(self).log.moves@ == old(self).log.moves@ && final(self).game.state
                == old(self).game.state,
            final(self).log.kingdom@ == old(self).log.kingdom@,
            final(self).log.players == old(self).log.players,
            final(self).log.seed == old(self).log.seed,
            old(self).game.state.pending is None ==> r == Err::<(), EngineError>(EngineError::NoPendingDecision),
            old(self).game.state.pending is Some && !old(self).game.state.pending.unwrap().options@.contains(mv)
                ==> (r matches Err(EngineError::IllegalMove { got, legal }) && got == mv && legal@
                == old(self).game.state.pending.unwrap().options@),
            r is Ok ==> advanced(answered(old(self).game.state, mv), final(self).game.state),
            played(old(self).log.kingdom@, old(self).log.players as nat, old(self).log.seed, old(self).log.moves@,
                old(self).game.state) ==> played(final(self).log.kingdom@, final(self).log.players as nat,
                final(self).log.seed, final(self).log.moves@, final(self).game.state),
    {
        let ghost before = self.game.state;
        match self.game.apply(mv) {
            Ok(()) => {},
            Err(e) => {
                return Err(e);
            },
        }
        self.log.moves.push(mv);
        proof {
            if played(old(self).log.kingdom@, old(self).log.players as nat, old(self).log.seed, old(self).log.moves@, before) {
                assert(move_step(before, mv, self.game.state));
                lemma_played_step(old(self).log.kingdom@, old(self).log.players as nat, old(self).log.seed,
                    old(self).log.moves@, before, mv, self.game.state);
            }
        }
        Ok(())
    }
}

} // verus!
