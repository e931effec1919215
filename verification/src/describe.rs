//! How engine errors read: the sentence an error prints, with moves in
//! their debugging form (`Play(ThroneRoom)`) where a list of them is shown.

use vstd::prelude::*;
use crate::card::Card;
use crate::engine::EngineError;
use crate::log::{move_text, move_to_text, LogError};
use crate::state::Move;
use crate::text::{chars_to_string, dec, push_decimal, push_str, to_chars};

verus! {

/// A card's identifier: its name without spaces.
pub open spec fn ident_chars(c: Card) -> Seq<char> {
    c.name_chars().filter(|ch: char| ch != ' ')
}

/// A move in its debugging form.
pub open spec fn move_debug(m: Move) -> Seq<char> {
    match m {
        Move::Play(c) => "Play("@ + ident_chars(c) + ")"@,
        Move::Buy(c) => "Buy("@ + ident_chars(c) + ")"@,
        Move::Select(c) => "Select("@ + ident_chars(c) + ")"@,
        Move::Done => "Done"@,
    }
}

/// Moves in their debugging form, separated by `, `.
pub open spec fn moves_debug(s: Seq<Move>) -> Seq<char>
    decreases s.len(),
{
    if s.len() == 0 {
        Seq::empty()
    } else if s.len() == 1 {
        move_debug(s[0])
    } else {
        moves_debug(s.drop_last()) + ", "@ + move_debug(s.last())
    }
}

/// What refusing a move says: the move, then the legal ones.
pub open spec fn illegal_text(got: Move, legal: Seq<Move>) -> Seq<char> {
    "illegal move "@ + move_text(got) + "; legal: ["@ + moves_debug(legal) + "]"@
}

/// What an engine error says.
pub open spec fn engine_error_text(e: EngineError) -> Seq<char> {
    match e {
        EngineError::NoPendingDecision => "no decision is pending"@,
        EngineError::IllegalMove { got, legal } => illegal_text(got, legal@),
        EngineError::BadKingdom(m) => "bad kingdom: "@ + m@,
    }
}

/// Append a card's identifier.
fn push_ident(out: &mut Vec<char>, c: Card)
    ensures
        final(out)@ == old(out)@ + ident_chars(c),
{
    let name = to_chars(c.name());
    proof {
        crate::card::lemma_name_chars(c);
    }
    let ghost pred = |ch: char| ch != ' ';
    let ghost o = out@;
    let mut i: usize = 0;
    while i < name.len()
        invariant
            i <= name@.len(),
            name@ == c.name_chars(),
            pred == (|ch: char| ch != ' '),
            out@ == o + name@.take(i as int).filter(pred),
        decreases name@.len() - i,
    {
        let ch = name[i];
        assert(name@.take((i + 1) as int).drop_last() =~= name@.take(i as int));
        assert(name@.take((i + 1) as int).last() == ch);
        proof {
            reveal_with_fuel(Seq::<_>::filter, 1);
        }
        if ch != ' ' {
            out.push(ch);
            assert(out@ =~= o + name@.take((i + 1) as int).filter(pred));
        } else {
            assert(out@ =~= o + name@.take((i + 1) as int).filter(pred));
        }
        i = i + 1;
    }
    assert(name@.take(name@.len() as int) =~= name@);
}

/// Append a move in its debugging form.
fn push_move_debug(out: &mut Vec<char>, m: Move)
    ensures
        final(out)@ == old(out)@ + move_debug(m),
{
    let ghost o = out@;
    match m {
        Move::Play(c) => {
            push_str(out, "Play(");
            push_ident(out, c);
            push_str(out, ")");
        },
        Move::Buy(c) => {
            push_str(out, "Buy(");
            push_ident(out, c);
            push_str(out, ")");
        },
        Move::Select(c) => {
            push_str(out, "Select(");
            push_ident(out, c);
            push_str(out, ")");
        },
        Move::Done => {
            push_str(out, "Done");
        },
    }
    assert(out@ =~= o + move_debug(m));
}

impl EngineError {
    /// The error as a sentence.
    pub fn message(&self) -> (r: String)
        ensures
            r@ == engine_error_text(*self),
    {
        let mut out: Vec<char> = Vec::new();
        match self {
            EngineError::NoPendingDecision => {
                push_str(&mut out, "no decision is pending");
            },
            EngineError::IllegalMove { got, legal } => {
                push_str(&mut out, "illegal move ");
                push_str(&mut out, move_to_text(*got).as_str());
                push_str(&mut out, "; legal: [");
                let ghost head = out@;
                let mut i: usize = 0;
                while i < legal.len()
                    invariant
                        i <= legal@.len(),
                        out@ == head + moves_debug(legal@.take(i as int)),
                    decreases legal@.len() - i,
                {
                    let ghost before = out@;
                    if i > 0 {
                        push_str(&mut out, ", ");
                    }
                    push_move_debug(&mut out, legal[i]);
                    proof {
                        let t = legal@.take((i + 1) as int);
                        assert(t.drop_last() =~= legal@.take(i as int));
                        assert(t.last() == legal@[i as int]);
                        if i == 0 {
                            assert(before =~= head + Seq::<char>::empty());
                        }
                        assert(out@ =~= head + moves_debug(t));
                    }
                    i = i + 1;
                }
                assert(legal@.take(legal@.len() as int) =~= legal@);
                push_str(&mut out, "]");
            },
            EngineError::BadKingdom(m) => {
                push_str(&mut out, "bad kingdom: ");
                push_str(&mut out, m.as_str());
            },
        }
        assert(out@ =~= engine_error_text(*self));
        chars_to_string(&out)
    }
}

/// What a log error says.
pub open spec fn log_error_text(e: LogError) -> Seq<char> {
    match e {
        LogError::Engine(inner) => engine_error_text(inner),
        LogError::Parse(m) => "parse error: "@ + m@,
        LogError::Diverged { at, mv } => "move "@ + dec(at as nat) + " ("@ + move_text(mv) + ") is not legal at that point"@,
    }
}

impl LogError {
    /// The error as a sentence.
    pub fn message(&self) -> (r: String)
        ensures
            r@ == log_error_text(*self),
    {
        match self {
            LogError::Engine(inner) => inner.message(),
            LogError::Parse(m) => {
                let mut out: Vec<char> = Vec::new();
                push_str(&mut out, "parse error: ");
                push_str(&mut out, m.as_str());
                chars_to_string(&out)
            },
            LogError::Diverged { at, mv } => {
                let mut out: Vec<char> = Vec::new();
                push_str(&mut out, "move ");
                push_decimal(&mut out, *at as u64);
                push_str(&mut out, " (");
                push_str(&mut out, move_to_text(*mv).as_str());
                push_str(&mut out, ") is not legal at that point");
                chars_to_string(&out)
            },
        }
    }
}

} // verus!
