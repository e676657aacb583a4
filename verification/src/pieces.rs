//! Chess pieces and their geometric move patterns.
//!
//! `check_field` is a pre-filter on coordinate strings such as `"e2"`: it
//! accepts exactly the moves whose shape fits the piece, without looking at
//! the board. Path obstruction and check are the engine's business, not
//! this crate's.

use vstd::prelude::*;

use crate::text::{parse_i32, spec_parse_i32, str_eq};

verus! {

/// A piece, parameterized by its colour: `true` is white. `Empty` is the
/// sentinel for a square with no piece on it.
#[derive(Debug, Clone, Copy, PartialEq, Eq, Hash, Structural)]
pub enum Piece {
    King(bool),
    Queen(bool),
    Rook(bool),
    Knight(bool),
    Bishop(bool),
    Pawn(bool),
    Empty,
}

/// The piece a FEN letter denotes, if any (uppercase is white).
pub open spec fn spec_from_char(chr: char) -> Option<Piece> {
    if chr == 'K' {
        Some(Piece::King(true))
    } else if chr == 'Q' {
        Some(Piece::Queen(true))
    } else if chr == 'R' {
        Some(Piece::Rook(true))
    } else if chr == 'N' {
        Some(Piece::Knight(true))
    } else if chr == 'B' {
        Some(Piece::Bishop(true))
    } else if chr == 'P' {
        Some(Piece::Pawn(true))
    } else if chr == 'k' {
        Some(Piece::King(false))
    } else if chr == 'q' {
        Some(Piece::Queen(false))
    } else if chr == 'r' {
        Some(Piece::Rook(false))
    } else if chr == 'n' {
        Some(Piece::Knight(false))
    } else if chr == 'b' {
        Some(Piece::Bishop(false))
    } else if chr == 'p' {
        Some(Piece::Pawn(false))
    } else {
        Option::None
    }
}

/// The FEN letter of a piece; the empty string for `None`.
pub open spec fn spec_letter(p: Piece) -> Seq<char> {
    match p {
        Piece::King(true) => seq!['K'],
        Piece::King(false) => seq!['k'],
        Piece::Queen(true) => seq!['Q'],
        Piece::Queen(false) => seq!['q'],
        Piece::Rook(true) => seq!['R'],
        Piece::Rook(false) => seq!['r'],
        Piece::Bishop(true) => seq!['B'],
        Piece::Bishop(false) => seq!['b'],
        Piece::Knight(true) => seq!['N'],
        Piece::Knight(false) => seq!['n'],
        Piece::Pawn(true) => seq!['P'],
        Piece::Pawn(false) => seq!['p'],
        Piece::Empty => Seq::empty(),
    }
}

/// The colour of a piece; the empty square counts as white.
pub open spec fn spec_color(p: Piece) -> bool {
    match p {
        Piece::King(b) => b,
        Piece::Queen(b) => b,
        Piece::Rook(b) => b,
        Piece::Bishop(b) => b,
        Piece::Knight(b) => b,
        Piece::Pawn(b) => b,
        Piece::Empty => true,
    }
}

/// The file value of a coordinate letter: `'a'` is 0, `'h'` is 7.
pub open spec fn letter_val(c: char) -> int {
    c as int - 97
}

/// The number a coordinate's rank part denotes, or 0 where it is not a
/// number (mirroring a failed parse).
pub open spec fn num_val(s: Seq<char>) -> int {
    match spec_parse_i32(s) {
        Some(v) => v as int,
        Option::None => 0,
    }
}

/// Whether the move `sf -> ef` fits the piece's geometric pattern. `sf` and
/// `ef` are coordinate strings: a file letter, then a rank number. Only the
/// shape is judged: obstruction and check are not. A pawn's two-square
/// advance is allowed only from its start rank, where a pawn is always
/// unmoved.
pub open spec fn spec_reaches(p: Piece, sf: Seq<char>, ef: Seq<char>) -> bool {
    let sl = sf[0];
    let el = ef[0];
    let sn = num_val(sf.skip(1));
    let en = num_val(ef.skip(1));
    match p {
        Piece::Empty => false,
        Piece::Rook(_) => sl == el || sf.skip(1) == ef.skip(1),
        Piece::Bishop(_) => (letter_val(sl) + sn) % 2 == (letter_val(el) + en) % 2,
        Piece::Queen(_) => ((letter_val(sl) + sn) % 2 == (letter_val(el) + en) % 2) || (sl == el
            || sf.skip(1) == ef.skip(1)),
        Piece::Knight(_) => (letter_val(sl) + sn) % 2 != (letter_val(el) + en) % 2 && !(sl == el
            || sf.skip(1) == ef.skip(1)),
        Piece::King(_) => -1 <= letter_val(sl) - letter_val(el) <= 1 && -1 <= sn - en <= 1,
        Piece::Pawn(true) => (letter_val(sl) == letter_val(el) && (en - sn == 1 || (en - sn == 2
            && sn == 2))) || (-1 <= letter_val(sl) - letter_val(el) <= 1 && en - sn == 1),
        Piece::Pawn(false) => (letter_val(sl) == letter_val(el) && (sn - en == 1 || (sn - en == 2
            && sn == 7))) || (-1 <= letter_val(sl) - letter_val(el) <= 1 && sn - en == 1),
    }
}

impl Piece {
    /// The piece a FEN letter denotes, if any.
    pub fn from_char(chr: char) -> (r: Option<Self>)
        ensures
            r == spec_from_char(chr),
    {
        match chr {
            'K' => Some(Piece::King(true)),
            'Q' => Some(Piece::Queen(true)),
            'R' => Some(Piece::Rook(true)),
            'N' => Some(Piece::Knight(true)),
            'B' => Some(Piece::Bishop(true)),
            'P' => Some(Piece::Pawn(true)),
            'k' => Some(Piece::King(false)),
            'q' => Some(Piece::Queen(false)),
            'r' => Some(Piece::Rook(false)),
            'n' => Some(Piece::Knight(false)),
            'b' => Some(Piece::Bishop(false)),
            'p' => Some(Piece::Pawn(false)),
            _ => Option::None,
        }
    }

    /// The FEN letter of the piece; the empty string for `None`.
    pub fn piece_to_letter(&self) -> (r: &str)
        ensures
            r@ == spec_letter(*self),
    {
        proof {
            reveal_strlit("K");
            reveal_strlit("k");
            reveal_strlit("Q");
            reveal_strlit("q");
            reveal_strlit("R");
            reveal_strlit("r");
            reveal_strlit("B");
            reveal_strlit("b");
            reveal_strlit("N");
            reveal_strlit("n");
            reveal_strlit("P");
            reveal_strlit("p");
            reveal_strlit("");
        }
        match self {
            Piece::King(true) => "K",
            Piece::King(false) => "k",
            Piece::Queen(true) => "Q",
            Piece::Queen(false) => "q",
            Piece::Rook(true) => "R",
            Piece::Rook(false) => "r",
            Piece::Bishop(true) => "B",
            Piece::Bishop(false) => "b",
            Piece::Knight(true) => "N",
            Piece::Knight(false) => "n",
            Piece::Pawn(true) => "P",
            Piece::Pawn(false) => "p",
            Piece::Empty => "",
        }
    }

    /// The colour of the piece; the empty square counts as white.
    pub fn piece_to_color(&self) -> (r: bool)
        ensures
            r == spec_color(*self),
    {
        match self {
            Piece::King(b) => *b,
            Piece::Queen(b) => *b,
            Piece::Rook(b) => *b,
            Piece::Bishop(b) => *b,
            Piece::Knight(b) => *b,
            Piece::Pawn(b) => *b,
            Piece::Empty => true,
        }
    }

    /// Whether the move from `startfield` to `endfield` fits this piece's
    /// geometric pattern.
    pub fn check_field(&self, startfield: &str, endfield: &str) -> (r: bool)
        requires
            startfield@.len() >= 1,
            endfield@.len() >= 1,
        ensures
            r == spec_reaches(*self, startfield@, endfield@),
    {
        let sn_str = startfield.substring_char(1, startfield.unicode_len());
        let en_str = endfield.substring_char(1, endfield.unicode_len());
        let sl = startfield.get_char(0);
        let el = endfield.get_char(0);
        let sn = to_int(sn_str) as i64;
        let en = to_int(en_str) as i64;
        let slv = sl as i64 - 97;
        let elv = el as i64 - 97;
        let sp = parity(slv + sn);
        let ep = parity(elv + en);
        proof {
            assert(startfield@.skip(1) == sn_str@);
            assert(endfield@.skip(1) == en_str@);
        }
        match self {
            Piece::Empty => false,
            Piece::Rook(_) => sl == el || str_eq(sn_str, en_str),
            Piece::Bishop(_) => sp == ep,
            Piece::Queen(_) => (sp == ep) || (sl == el || str_eq(
                sn_str,
                en_str,
            )),
            Piece::Knight(_) => sp != ep && !(sl == el || str_eq(
                sn_str,
                en_str,
            )),
            Piece::King(_) => -1 <= slv - elv && slv - elv <= 1 && -1 <= sn - en && sn - en <= 1,
            Piece::Pawn(true) => (slv == elv && (en - sn == 1 || (en - sn == 2 && sn == 2))) || (
            -1 <= slv - elv && slv - elv <= 1 && en - sn == 1),
            Piece::Pawn(false) => (slv == elv && (sn - en == 1 || (sn - en == 2 && sn == 7))) || (
            -1 <= slv - elv && slv - elv <= 1 && sn - en == 1),
        }
    }
}

/// The nonnegative parity of an integer.
fn parity(n: i64) -> (r: i64)
    requires
        i64::MIN < n,
    ensures
        r == (n as int) % 2,
{
    let m = n % 2;
    if m < 0 {
        m + 2
    } else {
        m
    }
}

/// The number a string denotes, or 0 where it is not a number.
pub fn to_int(s: &str) -> (r: i32)
    ensures
        r as int == num_val(s@),
{
    match parse_i32(s) {
        Some(i) => i,
        Option::None => 0,
    }
}

} // verus!
