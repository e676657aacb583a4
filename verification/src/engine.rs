//! The chess engine's answers, and the parser for its reply text. The
//! process plumbing that talks to the engine lives outside this crate; what
//! it reads back is handed to `parse_engine_reply` as plain text.

use vstd::prelude::*;

use crate::board::{DrawR, State};
use crate::text::{str_eq, tok_bounds, tok_split};

verus! {

/// A failure of the engine conversation.
#[derive(Debug)]
pub enum SFErrors {
    /// The engine process could not be started.
    CreationError,
    /// Its input pipe could not be taken.
    SFInCreation,
    /// Its output pipe could not be taken.
    SFOutCreation,
    /// The greeting did not match.
    SFTesting,
    /// Writing to the engine failed.
    SFInWriting,
    /// Reading from the engine failed.
    SFOutReading,
    /// The engine's output was not text.
    SFOutReadingParsing,
    /// The engine's output had an unexpected shape.
    SFProcessing,
    Other,
}

/// The engine's judgement: a best move, or the end of the game.
#[derive(Debug, PartialEq, Eq, PartialOrd, Ord)]
pub enum SFResults {
    /// The best move, in coordinate form.
    Normal(String),
    Stalemate,
    Mate,
}

/// The end of the game as the line before a `bestmove (none)` reply tells
/// it: its second-to-last token is `mate` for a mate, `cp` for a
/// stalemate.
pub open spec fn spec_engine_end(prev: Seq<char>) -> Result<SFResults, SFErrors> {
    let p = tok_split(prev);
    if p.len() >= 2 && p[p.len() - 2] == seq!['m', 'a', 't', 'e'] {
        Ok(SFResults::Mate)
    } else if p.len() >= 2 && p[p.len() - 2] == seq!['c', 'p'] {
        Ok(SFResults::Stalemate)
    } else {
        Err(SFErrors::SFProcessing)
    }
}

/// Whether `r` is `Normal` holding exactly the move text `m`.
pub open spec fn is_normal_move(r: Result<SFResults, SFErrors>, m: Seq<char>) -> bool {
    r matches Ok(n) && n matches SFResults::Normal(s) && s@ == m
}

/// Reads the engine's answer from its last output line and the line before
/// it: a `bestmove` line carries the move; `bestmove (none)` defers to the
/// preceding line, whose second-to-last token tells mate from stalemate.
pub fn parse_engine_reply(last: &str, prev: &str) -> (r: Result<SFResults, SFErrors>)
    ensures
        ({
            let t = tok_split(last@);
            if t.len() >= 2 && t[0] == seq!['b', 'e', 's', 't', 'm', 'o', 'v', 'e'] {
                if t[1] == seq!['(', 'n', 'o', 'n', 'e', ')'] {
                    r == spec_engine_end(prev@)
                } else {
                    is_normal_move(r, t[1])
                }
            } else {
                r == Err::<SFResults, SFErrors>(SFErrors::SFProcessing)
            }
        }),
{
    proof {
        reveal_strlit("bestmove");
        reveal_strlit("(none)");
        reveal_strlit("mate");
        reveal_strlit("cp");
        assert(("bestmove")@ =~= seq!['b', 'e', 's', 't', 'm', 'o', 'v', 'e']);
        assert(("(none)")@ =~= seq!['(', 'n', 'o', 'n', 'e', ')']);
        assert(("mate")@ =~= seq!['m', 'a', 't', 'e']);
        assert(("cp")@ =~= seq!['c', 'p']);
    }
    let toks = tok_bounds(last);
    if toks.len() < 2 {
        return Err(SFErrors::SFProcessing);
    }
    let t0 = last.substring_char(toks[0].0, toks[0].1);
    if !str_eq(t0, "bestmove") {
        return Err(SFErrors::SFProcessing);
    }
    let t1 = last.substring_char(toks[1].0, toks[1].1);
    if str_eq(t1, "(none)") {
        let ptoks = tok_bounds(prev);
        if ptoks.len() < 2 {
            return Err(SFErrors::SFProcessing);
        }
        let pi = ptoks.len() - 2;
        let ptok = prev.substring_char(ptoks[pi].0, ptoks[pi].1);
        if str_eq(ptok, "mate") {
            Ok(SFResults::Mate)
        } else if str_eq(ptok, "cp") {
            Ok(SFResults::Stalemate)
        } else {
            Err(SFErrors::SFProcessing)
        }
    } else {
        let m = String::from_str(t1);
        Ok(SFResults::Normal(m))
    }
}

/// Translates the engine's judgement into the game state after a move.
/// `colorw_after` is the side to move after the update; a mate the engine
/// reports then fell on that side, so the winner is the other one.
pub fn state_from_engine(r: &SFResults, colorw_after: bool) -> (s: State)
    ensures
        (s matches State::Normal) <==> (r is Normal),
        r is Stalemate ==> (s matches State::Draw(d) && d is Stalemate),
        r is Mate ==> (s matches State::Mate(w) && w == !colorw_after),
{
    match r {
        SFResults::Normal(_) => State::Normal,
        SFResults::Stalemate => State::Draw(DrawR::Stalemate),
        SFResults::Mate => State::Mate(!colorw_after),
    }
}

} // verus!
