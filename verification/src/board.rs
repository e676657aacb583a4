//! The board model: an 8x14 grid of pieces, the playing window in columns
//! 3..=10, and graveyard columns at both sides for captured pieces.
//!
//! Row 0 is rank 8, row 7 is rank 1. The state carries the side to move,
//! castling rights, the en-passant square, and the move counters; `to_fen`
//! and `from_fen` translate between this state and FEN text, and `update`
//! applies one validated move, producing the physical sub-moves the
//! pathfinder realizes.

use vstd::prelude::*;

use crate::pieces::{spec_color, spec_from_char, spec_letter, spec_reaches, Piece};
use crate::text::{
    append_dec_u32, count_char, countc, dec_seq, digit_val, is_digit, lemma_countc_contains,
    parse_u32, spec_parse_u32, str_eq, tok_bounds, tok_split,
};

verus! {

/// A rejected move or a rejected FEN.
#[derive(Debug)]
pub enum MoveError {
    /// A FEN field does not parse.
    FenParse,
    /// The source square holds no piece.
    NoFigurStart,
    /// The destination square holds a piece of the moving side.
    OwnFigurEnd,
    /// The move's shape does not fit the piece.
    MoveNotFitPiece(Piece),
    /// A coordinate's rank part does not parse.
    MoveParse,
    /// The source square holds a piece of the waiting side.
    WrongFigurStart,
    /// A coordinate lies outside the playing window.
    UnrightCoordinates,
    /// Castling this way is no longer allowed.
    UnallowedRochade,
    /// The position holds more pieces than the physical set.
    ImpossiblePosition,
    /// The graveyard cannot take another piece.
    CleaningError(CleaningError),
}

/// A failure while routing a captured piece to the graveyard.
#[derive(Debug, Clone, Copy)]
pub enum CleaningError {
    /// No graveyard cell is reserved for this piece.
    KingBeforeQueen,
    /// The graveyard rows for this piece are full.
    ImpossiblePosition,
}

/// One physical sub-move of a chess move.
#[derive(Debug, Clone, Copy)]
pub enum PFIType {
    /// A plain transport from one cell to another.
    NMove((usize, usize), (usize, usize)),
    /// A castling manoeuvre: king from/to, rook from/to.
    Rochade(Piece, [(usize, usize); 4]),
    /// An obstacle-aware transport, used for graveyard runs.
    Custom((usize, usize), (usize, usize)),
}

/// A failure of a whole move round.
#[derive(Debug)]
pub enum UpdateError {
    /// The move was rejected by validation.
    ImpossibleMove(MoveError),
    /// The en-passant capture found no pawn at the captured square.
    EnpassantMissing,
    /// The captured piece found no graveyard cell.
    CleaningError(CleaningError),
    /// The engine conversation failed.
    SFError(crate::engine::SFErrors),
    /// An internal dispatch error.
    Other,
}

/// A failure of the pathfinder.
#[derive(Debug)]
pub enum PFError {
    /// The sub-move's shape fits no planning case.
    MoveDoesNotFitType(PFIType),
    /// The castling planner met an impossible piece.
    Rochade(u32),
    /// Every route is blocked.
    Stuck,
}

/// The classification of a validated move.
#[derive(Debug, Clone, Copy)]
pub enum MoveType {
    /// A move onto an empty square.
    Normal(Piece),
    /// A capture: the mover, then the captured piece.
    Capturing(Piece, Piece),
    /// Castling, named by the king or queen whose side castles.
    Rochade(Piece),
    /// An en-passant capture; the cell of the captured pawn.
    EnPassant((usize, usize)),
}

/// The reason for a draw.
#[derive(Debug)]
pub enum DrawR {
    Repetition,
    FiftyMove,
    Stalemate,
}

/// The game state after a move, as the engine judges it.
#[derive(Debug)]
pub enum State {
    Normal,
    Mate(bool),
    Draw(DrawR),
    Resign(bool),
}

/// The grid as a sequence of rows of pieces.
pub open spec fn grid_view(f: [[Piece; 14]; 8]) -> Seq<Seq<Piece>> {
    f@.map_values(|row: [Piece; 14]| row@)
}

/// The grid with the cell `(r, c)` replaced by `p`.
pub open spec fn grid_set(g: Seq<Seq<Piece>>, r: int, c: int, p: Piece) -> Seq<Seq<Piece>> {
    g.update(r, g[r].update(c, p))
}

/// Where `coordinates_to_index` sends a coordinate string: the grid index
/// of a playing-window square, or the error that rejects the string.
pub open spec fn spec_coord_index(s: Seq<char>) -> Result<(usize, usize), MoveError> {
    let rest = if s.len() >= 1 {
        s.skip(1)
    } else {
        Seq::<char>::empty()
    };
    match spec_parse_u32(rest) {
        Option::None => Err(MoveError::MoveParse),
        Some(num) => if !(1 <= num <= 8) {
            Err(MoveError::UnrightCoordinates)
        } else {
            let row = 8 - num;
            let lett = s[0] as int - 94;
            if 3 <= lett < 11 {
                Ok((row as usize, lett as usize))
            } else {
                Err(MoveError::UnrightCoordinates)
            }
        },
    }
}

/// Translates a coordinate string such as `"e2"` to a grid index: the rank
/// becomes the row (rank 8 is row 0), the file the column (file a is
/// column 3).
pub fn coordinates_to_index(coordinate: &str) -> (r: Result<(usize, usize), MoveError>)
    ensures
        r == spec_coord_index(coordinate@),
{
    if coordinate.unicode_len() < 1 {
        return Err(MoveError::MoveParse);
    }
    let number = coordinate.substring_char(1, coordinate.unicode_len());
    proof {
        assert(number@ == coordinate@.skip(1));
    }
    let num: u32 = match parse_u32(number) {
        Some(n) => n,
        Option::None => {
            return Err(MoveError::MoveParse);
        },
    };
    if !(1 <= num && num <= 8) {
        return Err(MoveError::UnrightCoordinates);
    }
    let row = (8 - num) as usize;
    let c0 = coordinate.get_char(0);
    let lv = c0 as i64 - 94;
    if 3 <= lv && lv < 11 {
        Ok((row, lv as usize))
    } else {
        Err(MoveError::UnrightCoordinates)
    }
}

/// The first free cell of the white graveyard rows for pawns: rows 0..=3 of
/// columns 0 and 1, row by row.
pub open spec fn first_free_wp(g: Seq<Seq<Piece>>) -> Option<(usize, usize)> {
    if g[0][0] == Piece::Empty {
        Some((0usize, 0usize))
    } else if g[0][1] == Piece::Empty {
        Some((0usize, 1usize))
    } else if g[1][0] == Piece::Empty {
        Some((1usize, 0usize))
    } else if g[1][1] == Piece::Empty {
        Some((1usize, 1usize))
    } else if g[2][0] == Piece::Empty {
        Some((2usize, 0usize))
    } else if g[2][1] == Piece::Empty {
        Some((2usize, 1usize))
    } else if g[3][0] == Piece::Empty {
        Some((3usize, 0usize))
    } else if g[3][1] == Piece::Empty {
        Some((3usize, 1usize))
    } else {
        Option::None
    }
}

/// The first free cell of the black graveyard rows for pawns: rows 7 down
/// to 4 of columns 13 and 12, row by row.
pub open spec fn first_free_bp(g: Seq<Seq<Piece>>) -> Option<(usize, usize)> {
    if g[7][13] == Piece::Empty {
        Some((7usize, 13usize))
    } else if g[7][12] == Piece::Empty {
        Some((7usize, 12usize))
    } else if g[6][13] == Piece::Empty {
        Some((6usize, 13usize))
    } else if g[6][12] == Piece::Empty {
        Some((6usize, 12usize))
    } else if g[5][13] == Piece::Empty {
        Some((5usize, 13usize))
    } else if g[5][12] == Piece::Empty {
        Some((5usize, 12usize))
    } else if g[4][13] == Piece::Empty {
        Some((4usize, 13usize))
    } else if g[4][12] == Piece::Empty {
        Some((4usize, 12usize))
    } else {
        Option::None
    }
}

/// The graveyard home of a piece kind: its primary cell and, for the kinds
/// with two reserved cells, the fallback that is used when the primary cell
/// is taken.
pub open spec fn grave_cells(pce: Piece) -> Option<((usize, usize), Option<(usize, usize)>)> {
    match pce {
        Piece::Queen(true) => Some(((7usize, 0usize), Some((7usize, 1usize)))),
        Piece::Queen(false) => Some(((0usize, 13usize), Some((0usize, 12usize)))),
        Piece::King(true) => Some(((7usize, 2usize), Option::None)),
        Piece::King(false) => Some(((0usize, 11usize), Option::None)),
        Piece::Rook(true) => Some(((6usize, 0usize), Some((6usize, 1usize)))),
        Piece::Rook(false) => Some(((1usize, 13usize), Some((1usize, 12usize)))),
        Piece::Knight(true) => Some(((5usize, 0usize), Some((5usize, 1usize)))),
        Piece::Knight(false) => Some(((2usize, 13usize), Some((2usize, 12usize)))),
        Piece::Bishop(true) => Some(((4usize, 0usize), Some((4usize, 1usize)))),
        Piece::Bishop(false) => Some(((3usize, 13usize), Some((3usize, 12usize)))),
        _ => Option::None,
    }
}

/// Where `add_rest` puts the piece `pce` on the grid `g`: the chosen cell,
/// or the error. Kings and the fallback cells are taken unconditionally.
pub open spec fn spec_add_rest_cell(g: Seq<Seq<Piece>>, pce: Piece) -> Result<
    (usize, usize),
    CleaningError,
> {
    match pce {
        Piece::Pawn(true) => match first_free_wp(g) {
            Some(cell) => Ok(cell),
            Option::None => Err(CleaningError::ImpossiblePosition),
        },
        Piece::Pawn(false) => match first_free_bp(g) {
            Some(cell) => Ok(cell),
            Option::None => Err(CleaningError::ImpossiblePosition),
        },
        _ => match grave_cells(pce) {
            Some((primary, fallback)) => {
                if g[primary.0 as int][primary.1 as int] == Piece::Empty {
                    Ok(primary)
                } else {
                    match fallback {
                        Some(fb) => Ok(fb),
                        Option::None => Ok(primary),
                    }
                }
            },
            Option::None => Err(CleaningError::KingBeforeQueen),
        },
    }
}


/// The FEN emission of one row's playing window (columns 3..=10), from
/// column `j` on, with `empt` empty squares pending: runs of empty squares
/// become their count, pieces their letter.
pub open spec fn row_emit(row: Seq<Piece>, j: int, empt: int) -> Seq<char>
    decreases 11 - j,
{
    if j >= 11 {
        if empt > 0 {
            dec_seq(empt)
        } else {
            Seq::empty()
        }
    } else if row[j] == Piece::Empty {
        row_emit(row, j + 1, empt + 1)
    } else {
        (if empt > 0 {
            dec_seq(empt)
        } else {
            Seq::empty()
        }) + spec_letter(row[j]) + row_emit(row, j + 1, 0)
    }
}

/// The FEN emission of the rows from `i` on: each row's window, rows
/// separated by `/`, a space after the last.
pub open spec fn rows_emit(g: Seq<Seq<Piece>>, i: int) -> Seq<char>
    decreases 8 - i,
{
    if i >= 8 {
        Seq::empty()
    } else {
        row_emit(g[i], 3, 0) + (if i < 7 {
            seq!['/']
        } else {
            seq![' ']
        }) + rows_emit(g, i + 1)
    }
}

/// The FEN castling field: the letters of the remaining rights in `KQkq`
/// order, or `-` when none remain.
pub open spec fn castle_emit(ro: Seq<Piece>) -> Seq<char> {
    let s = spec_letter(ro[0]) + spec_letter(ro[1]) + spec_letter(ro[2]) + spec_letter(ro[3]);
    if s.len() == 0 {
        seq!['-']
    } else {
        s
    }
}

/// The FEN text of a position: placement, side to move, castling rights,
/// en-passant square, halfmove clock, and fullmove number.
pub open spec fn fen_of(p: Position) -> Seq<char> {
    rows_emit(grid_view(p.fields), 0) + (if p.colorw {
        seq!['w', ' ']
    } else {
        seq!['b', ' ']
    }) + castle_emit(p.rochade@) + seq![' '] + p.en_passant@ + seq![' '] + dec_seq(
        p.since_pawn_major as int,
    ) + seq![' '] + dec_seq(p.moves as int / 2 + 1)
}


/// An empty 8x14 grid.
pub open spec fn empty_grid() -> Seq<Seq<Piece>> {
    Seq::new(8, |i: int| Seq::new(14, |j: int| Piece::Empty))
}

/// One linear pass over a FEN placement text: `/` starts the next row at
/// the first playing column, a digit skips columns, a piece letter fills a
/// cell. A piece aimed outside the grid, or any other character, rejects
/// the text.
pub open spec fn place_all(g: Seq<Seq<Piece>>, cs: Seq<char>, k: int, i: int, j: int) -> Option<
    Seq<Seq<Piece>>,
>
    decreases cs.len() - k,
{
    if k >= cs.len() || k < 0 {
        Some(g)
    } else if cs[k] == '/' {
        place_all(g, cs, k + 1, i + 1, 3)
    } else {
        match spec_from_char(cs[k]) {
            Some(p) => if 0 <= i < 8 && 0 <= j < 14 {
                place_all(grid_set(g, i, j, p), cs, k + 1, i, j + 1)
            } else {
                Option::None
            },
            Option::None => if is_digit(cs[k]) {
                place_all(g, cs, k + 1, i, j + digit_val(cs[k]))
            } else {
                Option::None
            },
        }
    }
}

/// Whether the placement text stays within the piece inventory of the
/// physical set: one king and queen, two rooks, knights and bishops, and
/// eight pawns of each colour.
pub open spec fn inventory_ok(t: Seq<char>) -> bool {
    &&& countc(t, 'K') <= 1
    &&& countc(t, 'Q') <= 1
    &&& countc(t, 'R') <= 2
    &&& countc(t, 'N') <= 2
    &&& countc(t, 'B') <= 2
    &&& countc(t, 'P') <= 8
    &&& countc(t, 'k') <= 1
    &&& countc(t, 'q') <= 1
    &&& countc(t, 'r') <= 2
    &&& countc(t, 'n') <= 2
    &&& countc(t, 'b') <= 2
    &&& countc(t, 'p') <= 8
}

/// `n` graveyard placements of the piece `p`, in order; `None` when one of
/// them finds no cell.
pub open spec fn fill_piece(g: Seq<Seq<Piece>>, p: Piece, n: nat) -> Option<Seq<Seq<Piece>>>
    decreases n,
{
    if n == 0 {
        Some(g)
    } else {
        match fill_piece(g, p, (n - 1) as nat) {
            Option::None => Option::None,
            Some(g1) => match spec_add_rest_cell(g1, p) {
                Ok(c) => Some(grid_set(g1, c.0 as int, c.1 as int, p)),
                Err(_) => Option::None,
            },
        }
    }
}

/// `fill_piece` on the result of an earlier fill.
pub open spec fn then_fill(o: Option<Seq<Seq<Piece>>>, p: Piece, n: int) -> Option<
    Seq<Seq<Piece>>,
> {
    match o {
        Option::None => Option::None,
        Some(g) => if n >= 0 {
            fill_piece(g, p, n as nat)
        } else {
            Some(g)
        },
    }
}

/// The graveyard content after parsing: every piece of the inventory that
/// the placement text does not use is routed to its graveyard home, kind by
/// kind, white before black, and the two spare queens last.
pub open spec fn fill_after(g: Seq<Seq<Piece>>, t: Seq<char>) -> Option<Seq<Seq<Piece>>> {
    let o = then_fill(Some(g), Piece::King(true), 1 - countc(t, 'K'));
    let o = then_fill(o, Piece::Queen(true), 1 - countc(t, 'Q'));
    let o = then_fill(o, Piece::Rook(true), 2 - countc(t, 'R'));
    let o = then_fill(o, Piece::Knight(true), 2 - countc(t, 'N'));
    let o = then_fill(o, Piece::Bishop(true), 2 - countc(t, 'B'));
    let o = then_fill(o, Piece::Pawn(true), 8 - countc(t, 'P'));
    let o = then_fill(o, Piece::King(false), 1 - countc(t, 'k'));
    let o = then_fill(o, Piece::Queen(false), 1 - countc(t, 'q'));
    let o = then_fill(o, Piece::Rook(false), 2 - countc(t, 'r'));
    let o = then_fill(o, Piece::Knight(false), 2 - countc(t, 'n'));
    let o = then_fill(o, Piece::Bishop(false), 2 - countc(t, 'b'));
    let o = then_fill(o, Piece::Pawn(false), 8 - countc(t, 'p'));
    let o = then_fill(o, Piece::Queen(true), 1);
    then_fill(o, Piece::Queen(false), 1)
}

/// The castling rights a FEN castling field grants, in `KQkq` order.
pub open spec fn castle_parse(t: Seq<char>) -> Seq<Piece> {
    seq![
        if t.contains('K') {
            Piece::King(true)
        } else {
            Piece::Empty
        },
        if t.contains('Q') {
            Piece::Queen(true)
        } else {
            Piece::Empty
        },
        if t.contains('k') {
            Piece::King(false)
        } else {
            Piece::Empty
        },
        if t.contains('q') {
            Piece::Queen(false)
        } else {
            Piece::Empty
        },
    ]
}

/// What `from_fen` answers for a FEN text: rejection with the error the
/// text earns, or acceptance with every component the text denotes.
pub open spec fn from_fen_post(fen: Seq<char>, r: Result<Position, MoveError>) -> bool {
    let t = tok_split(fen);
    if t.len() < 6 {
        r == Err::<Position, MoveError>(MoveError::FenParse)
    } else {
        let colorw = t[1] == seq!['w'];
        match spec_parse_u32(t[5]) {
            Option::None => r == Err::<Position, MoveError>(MoveError::FenParse),
            Some(fm) => if fm == 0 || fm - 1 > (u32::MAX - 1) / 2 {
                r == Err::<Position, MoveError>(MoveError::FenParse)
            } else {
                match spec_parse_u32(t[4]) {
                    Option::None => r == Err::<Position, MoveError>(MoveError::FenParse),
                    Some(hm) => match place_all(empty_grid(), t[0], 0, 0, 3) {
                        Option::None => r == Err::<Position, MoveError>(MoveError::FenParse),
                        Some(g0) => if !inventory_ok(t[0]) {
                            r == Err::<Position, MoveError>(MoveError::ImpossiblePosition)
                        } else {
                            match fill_after(g0, t[0]) {
                                Option::None => r == Err::<Position, MoveError>(
                                    MoveError::ImpossiblePosition,
                                ),
                                Some(gf) => r matches Ok(b) && {
                                    &&& grid_view(b.fields) == gf
                                    &&& b.colorw == colorw
                                    &&& b.moves == (fm - 1) * 2 + (if colorw {
                                        0int
                                    } else {
                                        1int
                                    })
                                    &&& b.en_passant@ == t[3]
                                    &&& b.rochade@ == castle_parse(t[2])
                                    &&& b.since_pawn_major == hm
                                },
                            }
                        },
                    },
                }
            },
        }
    }
}

/// If one graveyard placement of `p` fails after `k` placements, every
/// longer fill fails too.
proof fn lemma_fill_fail(g: Seq<Seq<Piece>>, p: Piece, k: nat, m: nat)
    requires
        k < m,
        fill_piece(g, p, k) matches Some(gk) && spec_add_rest_cell(gk, p) is Err,
    ensures
        fill_piece(g, p, m) is None,
    decreases m,
{
    if m == k + 1 {
    } else {
        lemma_fill_fail(g, p, k, (m - 1) as nat);
    }
}


/// Puts `p` on the cell `(r, c)` of a bare grid.
fn grid_put(f: &mut [[Piece; 14]; 8], r: usize, c: usize, p: Piece)
    requires
        r < 8,
        c < 14,
    ensures
        grid_view(*final(f)) == grid_set(grid_view(*old(f)), r as int, c as int, p),
{
    let mut row = f[r];
    row.set(c, p);
    f.set(r, row);
    proof {
        assert(grid_view(*f) =~~= grid_set(grid_view(*old(f)), r as int, c as int, p));
    }
}

/// Runs `n` graveyard placements of `p` on the board; answers whether all
/// of them found a cell.
fn fill_kind(pos: &mut Position, p: Piece, n: u64) -> (r: bool)
    requires
        n <= 8,
    ensures
        r ==> Some(grid_view(final(pos).fields)) == fill_piece(
            grid_view(old(pos).fields),
            p,
            n as nat,
        ),
        !r ==> fill_piece(grid_view(old(pos).fields), p, n as nat) is None,
        final(pos).colorw == old(pos).colorw,
        final(pos).moves == old(pos).moves,
        final(pos).en_passant == old(pos).en_passant,
        final(pos).rochade == old(pos).rochade,
        final(pos).since_pawn_major == old(pos).since_pawn_major,
{
    let ghost g0 = grid_view(old(pos).fields);
    let mut k: u64 = 0;
    while k < n
        invariant
            k <= n,
            n <= 8,
            g0 == grid_view(old(pos).fields),
            fill_piece(g0, p, k as nat) == Some(grid_view(pos.fields)),
            pos.colorw == old(pos).colorw,
            pos.moves == old(pos).moves,
            pos.en_passant == old(pos).en_passant,
            pos.rochade == old(pos).rochade,
            pos.since_pawn_major == old(pos).since_pawn_major,
        decreases n - k,
    {
        let ghost cur = grid_view(pos.fields);
        match pos.add_rest(p) {
            Ok(c) => {
                proof {
                    assert(fill_piece(g0, p, (k + 1) as nat) == Some(grid_view(pos.fields)));
                }
            },
            Err(_) => {
                proof {
                    assert(spec_add_rest_cell(cur, p) is Err);
                    lemma_fill_fail(g0, p, k as nat, n as nat);
                    assert(fill_piece(g0, p, n as nat) is None);
                }
                return false;
            },
        }
        k += 1;
    }
    true
}


/// The grid cell of the pawn taken en passant, given the en-passant target
/// square: one rank toward the mover.
pub open spec fn ep_captured_cell(ind: (usize, usize)) -> Result<(usize, usize), MoveError> {
    if ind.0 == 2 {
        Ok(((ind.0 + 1) as usize, ind.1))
    } else if ind.0 >= 1 {
        Ok(((ind.0 - 1) as usize, ind.1))
    } else {
        Err(MoveError::UnrightCoordinates)
    }
}

/// What `validate_move_possibility` answers: the classification of the
/// move text against this position, or the error rejecting it. The four
/// literal castling strings dispatch on the castling rights and the rook's
/// home square; any other move is judged by the source piece, the side to
/// move, the en-passant square, the piece's geometry, and the destination.
pub open spec fn spec_validate(p: Position, s: Seq<char>) -> Result<MoveType, MoveError> {
    let g = grid_view(p.fields);
    if s == seq!['e', '1', 'g', '1'] {
        if p.rochade@[0] == Piece::King(true) && g[7][10] == Piece::Rook(true) {
            Ok(MoveType::Rochade(Piece::King(true)))
        } else {
            Err(MoveError::UnallowedRochade)
        }
    } else if s == seq!['e', '1', 'c', '1'] {
        if p.rochade@[1] == Piece::Queen(true) && g[7][3] == Piece::Rook(true) {
            Ok(MoveType::Rochade(Piece::Queen(true)))
        } else {
            Err(MoveError::UnallowedRochade)
        }
    } else if s == seq!['e', '8', 'g', '8'] {
        if p.rochade@[2] == Piece::King(false) && g[0][10] == Piece::Rook(false) {
            Ok(MoveType::Rochade(Piece::King(false)))
        } else {
            Err(MoveError::UnallowedRochade)
        }
    } else if s == seq!['e', '8', 'c', '8'] {
        if p.rochade@[3] == Piece::Queen(false) && g[0][3] == Piece::Rook(false) {
            Ok(MoveType::Rochade(Piece::Queen(false)))
        } else {
            Err(MoveError::UnallowedRochade)
        }
    } else if s.len() < 3 {
        Err(MoveError::MoveParse)
    } else {
        let start = s.take(2);
        let end = s.skip(2);
        match spec_coord_index(start) {
            Err(e) => Err(e),
            Ok(sc) => {
                let piece = g[sc.0 as int][sc.1 as int];
                if piece == Piece::Empty {
                    Err(MoveError::NoFigurStart)
                } else if p.colorw != spec_color(piece) {
                    Err(MoveError::WrongFigurStart)
                } else if p.en_passant@ != seq!['-'] && (piece matches Piece::Pawn(_)) && end
                    == p.en_passant@ {
                    match spec_coord_index(p.en_passant@) {
                        Err(e) => Err(e),
                        Ok(ind) => match ep_captured_cell(ind) {
                            Err(e) => Err(e),
                            Ok(bind) => Ok(MoveType::EnPassant(bind)),
                        },
                    }
                } else if !spec_reaches(piece, start, end) {
                    Err(MoveError::MoveNotFitPiece(piece))
                } else {
                    match spec_coord_index(end) {
                        Err(e) => Err(e),
                        Ok(ec) => {
                            let capt = g[ec.0 as int][ec.1 as int];
                            if capt == Piece::Empty {
                                Ok(MoveType::Normal(piece))
                            } else if spec_color(piece) == spec_color(capt) {
                                Err(MoveError::OwnFigurEnd)
                            } else {
                                Ok(MoveType::Capturing(piece, capt))
                            }
                        },
                    }
                }
            },
        }
    }
}


/// The castling rights after the piece on `sf` has moved: a king drops both
/// of its side's rights, a rook leaving a home corner drops that corner's.
pub open spec fn cleared_rochade(ro: Seq<Piece>, piece: Piece, sf: (usize, usize)) -> Seq<Piece> {
    match piece {
        Piece::King(true) => ro.update(0, Piece::Empty).update(1, Piece::Empty),
        Piece::King(false) => ro.update(2, Piece::Empty).update(3, Piece::Empty),
        Piece::Rook(_) => if sf == (0usize, 3usize) {
            ro.update(3, Piece::Empty)
        } else if sf == (0usize, 10usize) {
            ro.update(2, Piece::Empty)
        } else if sf == (7usize, 3usize) {
            ro.update(1, Piece::Empty)
        } else if sf == (7usize, 10usize) {
            ro.update(0, Piece::Empty)
        } else {
            ro
        },
        _ => ro,
    }
}

/// The en-passant field after a move: the square behind a two-square pawn
/// advance, written from the move text's file letter, and `-` after every
/// other move.
pub open spec fn new_ep(piece: Piece, ind: ((usize, usize), (usize, usize)), cmove: Seq<char>) -> Seq<
    char,
> {
    match piece {
        Piece::Pawn(true) => if ind.0.0 == 6 && ind.1.0 == 4 {
            seq![cmove[0], '3']
        } else {
            seq!['-']
        },
        Piece::Pawn(false) => if ind.0.0 == 1 && ind.1.0 == 3 {
            seq![cmove[0], '6']
        } else {
            seq!['-']
        },
        _ => seq!['-'],
    }
}

/// The four squares of a castling manoeuvre: king from/to, rook from/to.
pub open spec fn rochade_squares(p: Piece) -> Option<
    ((usize, usize), (usize, usize), (usize, usize), (usize, usize)),
> {
    match p {
        Piece::King(true) => Some(((7usize, 7usize), (7usize, 9usize), (7usize, 10usize), (7usize, 8usize))),
        Piece::Queen(true) => Some(((7usize, 7usize), (7usize, 5usize), (7usize, 3usize), (7usize, 6usize))),
        Piece::King(false) => Some(((0usize, 7usize), (0usize, 9usize), (0usize, 10usize), (0usize, 8usize))),
        Piece::Queen(false) => Some(((0usize, 7usize), (0usize, 5usize), (0usize, 3usize), (0usize, 6usize))),
        _ => Option::None,
    }
}

/// Whether the scalar state after an accepted move is right: the side to
/// move toggles, the half-move counter advances, the clock since the last
/// pawn move or capture is `since`, and the castling rights and en-passant
/// field follow the moved piece.
pub open spec fn scalars_post(
    o: Position,
    n: Position,
    piece: Piece,
    ind: ((usize, usize), (usize, usize)),
    cmove: Seq<char>,
    since: int,
) -> bool {
    &&& n.colorw == !o.colorw
    &&& n.moves == o.moves + 1
    &&& n.since_pawn_major == since
    &&& n.en_passant@ == new_ep(piece, ind, cmove)
    &&& n.rochade@ == cleared_rochade(o.rochade@, piece, ind.0)
}

/// What `update` does for one validated move: the board transition and the
/// ordered physical sub-moves, or the error; a failing move changes
/// nothing.
pub open spec fn update_post(
    o: Position,
    n: Position,
    ind: ((usize, usize), (usize, usize)),
    cmove: Seq<char>,
    r: Result<Vec<PFIType>, UpdateError>,
) -> bool {
    let g = grid_view(o.fields);
    let sf = ind.0;
    let ef = ind.1;
    match spec_validate(o, cmove) {
        Err(e) => r == Err::<Vec<PFIType>, UpdateError>(UpdateError::ImpossibleMove(e)) && n == o,
        Ok(mt) => {
            let piece = g[sf.0 as int][sf.1 as int];
            if piece == Piece::Empty {
                r == Err::<Vec<PFIType>, UpdateError>(UpdateError::Other) && n == o
            } else {
                let since = match piece {
                    Piece::Pawn(_) => 0int,
                    _ => o.since_pawn_major + 1,
                };
                match mt {
                    MoveType::Normal(p) => r matches Ok(v) && {
                        &&& v@ == seq![PFIType::NMove(sf, ef)]
                        &&& grid_view(n.fields) == grid_set(
                            grid_set(g, ef.0 as int, ef.1 as int, p),
                            sf.0 as int,
                            sf.1 as int,
                            Piece::Empty,
                        )
                        &&& scalars_post(o, n, piece, ind, cmove, since)
                    },
                    MoveType::Capturing(p, cp) => match spec_add_rest_cell(g, cp) {
                        Err(e) => r == Err::<Vec<PFIType>, UpdateError>(
                            UpdateError::CleaningError(e),
                        ) && n == o,
                        Ok(cell) => r matches Ok(v) && {
                            let g1 = grid_set(g, cell.0 as int, cell.1 as int, cp);
                            &&& v@ == seq![PFIType::Custom(ef, cell), PFIType::NMove(sf, ef)]
                            &&& grid_view(n.fields) == grid_set(
                                grid_set(g1, sf.0 as int, sf.1 as int, Piece::Empty),
                                ef.0 as int,
                                ef.1 as int,
                                p,
                            )
                            &&& scalars_post(o, n, piece, ind, cmove, 0)
                        },
                    },
                    MoveType::EnPassant(bind) => {
                        let beaten = g[bind.0 as int][bind.1 as int];
                        if beaten == Piece::Empty {
                            r == Err::<Vec<PFIType>, UpdateError>(UpdateError::EnpassantMissing)
                                && n == o
                        } else {
                            match spec_add_rest_cell(g, beaten) {
                                Err(e) => r == Err::<Vec<PFIType>, UpdateError>(
                                    UpdateError::CleaningError(e),
                                ) && n == o,
                                Ok(cell) => r matches Ok(v) && {
                                    let g1 = grid_set(g, cell.0 as int, cell.1 as int, beaten);
                                    &&& v@ == seq![
                                        PFIType::Custom(bind, cell),
                                        PFIType::NMove(sf, ef),
                                    ]
                                    &&& grid_view(n.fields) == grid_set(
                                        grid_set(
                                            grid_set(g1, bind.0 as int, bind.1 as int, Piece::Empty),
                                            sf.0 as int,
                                            sf.1 as int,
                                            Piece::Empty,
                                        ),
                                        ef.0 as int,
                                        ef.1 as int,
                                        Piece::Pawn(!spec_color(beaten)),
                                    )
                                    &&& scalars_post(o, n, piece, ind, cmove, since)
                                },
                            }
                        }
                    },
                    MoveType::Rochade(p) => match rochade_squares(p) {
                        Option::None => r == Err::<Vec<PFIType>, UpdateError>(UpdateError::Other)
                            && n == o,
                        Some((ks, ke, rs, re)) => r matches Ok(v) && {
                            &&& v@.len() == 1
                            &&& v@[0] matches PFIType::Rochade(pp, cc) && pp == p && cc@ == seq![
                                ks,
                                ke,
                                rs,
                                re,
                            ]
                            &&& grid_view(n.fields) == grid_set(
                                grid_set(
                                    grid_set(
                                        grid_set(g, ks.0 as int, ks.1 as int, Piece::Empty),
                                        ke.0 as int,
                                        ke.1 as int,
                                        Piece::King(spec_color(p)),
                                    ),
                                    rs.0 as int,
                                    rs.1 as int,
                                    Piece::Empty,
                                ),
                                re.0 as int,
                                re.1 as int,
                                Piece::Rook(spec_color(p)),
                            )
                            &&& scalars_post(o, n, piece, ind, cmove, since)
                        },
                    },
                }
            }
        },
    }
}

/// Going back restores the board: a plain move from `sf` to `ef` followed
/// by the move from `ef` back to `sf` leaves the grid exactly as it was.
/// Only the piece grid comes back; the side to move, the move counters and
/// any castling rights given up stay advanced, so the full FEN text does
/// not repeat.
pub proof fn lemma_move_round_trip(g: Seq<Seq<Piece>>, sf: (usize, usize), ef: (usize, usize), p: Piece)
    requires
        0 <= sf.0 < 8,
        0 <= sf.1 < 14,
        0 <= ef.0 < 8,
        0 <= ef.1 < 14,
        sf != ef,
        g.len() == 8,
        forall|i: int| 0 <= i < 8 ==> (#[trigger] g[i]).len() == 14,
        g[sf.0 as int][sf.1 as int] == p,
        g[ef.0 as int][ef.1 as int] == Piece::Empty,
    ensures
        grid_set(
            grid_set(
                grid_set(grid_set(g, ef.0 as int, ef.1 as int, p), sf.0 as int, sf.1 as int, Piece::Empty),
                sf.0 as int,
                sf.1 as int,
                p,
            ),
            ef.0 as int,
            ef.1 as int,
            Piece::Empty,
        ) == g,
{
    let g1 = grid_set(grid_set(g, ef.0 as int, ef.1 as int, p), sf.0 as int, sf.1 as int, Piece::Empty);
    let g2 = grid_set(grid_set(g1, sf.0 as int, sf.1 as int, p), ef.0 as int, ef.1 as int, Piece::Empty);
    assert(g2 =~~= g);
}

/// Two accepted plain moves there and back cancel on the grid: when a
/// move from `sf` to `ef` and then the move from `ef` back to `sf` both
/// pass as `Normal`, the second update restores every square to what it
/// held before the first. The counters, the side to move and any castling
/// rights given up stay advanced, so only the placement repeats; captures
/// and en-passant moves are not of this shape.
pub proof fn lemma_update_round_trip(
    b0: Position,
    b1: Position,
    b2: Position,
    sf: (usize, usize),
    ef: (usize, usize),
    m1: Seq<char>,
    m2: Seq<char>,
    r1: Result<Vec<PFIType>, UpdateError>,
    r2: Result<Vec<PFIType>, UpdateError>,
    p: Piece,
)
    requires
        sf.0 < 8,
        sf.1 < 14,
        ef.0 < 8,
        ef.1 < 14,
        sf != ef,
        spec_validate(b0, m1) == Ok::<MoveType, MoveError>(MoveType::Normal(p)),
        spec_validate(b1, m2) == Ok::<MoveType, MoveError>(MoveType::Normal(p)),
        update_post(b0, b1, (sf, ef), m1, r1),
        update_post(b1, b2, (ef, sf), m2, r2),
        r1 is Ok,
        r2 is Ok,
        grid_view(b0.fields)[sf.0 as int][sf.1 as int] == p,
        p != Piece::Empty,
        grid_view(b0.fields)[ef.0 as int][ef.1 as int] == Piece::Empty,
        grid_view(b0.fields).len() == 8,
        forall|i: int| 0 <= i < 8 ==> (#[trigger] grid_view(b0.fields)[i]).len() == 14,
    ensures
        grid_view(b2.fields) == grid_view(b0.fields),
{
    let g0 = grid_view(b0.fields);
    let g1 = grid_view(b1.fields);
    assert(g1 == grid_set(
        grid_set(g0, ef.0 as int, ef.1 as int, p),
        sf.0 as int,
        sf.1 as int,
        Piece::Empty,
    ));
    assert(g1[ef.0 as int][ef.1 as int] == p);
    assert(grid_view(b2.fields) == grid_set(
        grid_set(g1, sf.0 as int, sf.1 as int, p),
        ef.0 as int,
        ef.1 as int,
        Piece::Empty,
    ));
    lemma_move_round_trip(g0, sf, ef, p);
}

/// The chessboard state.
#[derive(Debug)]
pub struct Position {
    /// Whether white is to move.
    pub colorw: bool,
    /// The 8x14 grid: playing window in columns 3..=10, graveyards beside.
    pub fields: [[Piece; 14]; 8],
    /// Half-moves played since the game began.
    pub moves: u32,
    /// The en-passant target square in coordinate form, or `"-"`.
    pub en_passant: String,
    /// The castling rights, in FEN order `KQkq`: the slot holds the king or
    /// queen while the right stands, `Empty` once it is gone.
    pub rochade: [Piece; 4],
    /// Half-moves since the last pawn move or capture.
    pub since_pawn_major: u32,
}

impl Clone for Position {
    /// An exact copy of the state.
    fn clone(&self) -> (r: Self)
        ensures
            r == *self,
    {
        Position {
            colorw: self.colorw,
            fields: self.fields,
            moves: self.moves,
            en_passant: self.en_passant.clone(),
            rochade: self.rochade,
            since_pawn_major: self.since_pawn_major,
        }
    }
}

/// The starting grid: the standard chess position in the playing window,
/// and the two spare queens in their graveyard homes.
pub open spec fn start_grid() -> Seq<Seq<Piece>> {
    seq![
        seq![
            Piece::Empty,
            Piece::Empty,
            Piece::Empty,
            Piece::Rook(false),
            Piece::Knight(false),
            Piece::Bishop(false),
            Piece::Queen(false),
            Piece::King(false),
            Piece::Bishop(false),
            Piece::Knight(false),
            Piece::Rook(false),
            Piece::Empty,
            Piece::Empty,
            Piece::Queen(false),
        ],
        seq![
            Piece::Empty,
            Piece::Empty,
            Piece::Empty,
            Piece::Pawn(false),
            Piece::Pawn(false),
            Piece::Pawn(false),
            Piece::Pawn(false),
            Piece::Pawn(false),
            Piece::Pawn(false),
            Piece::Pawn(false),
            Piece::Pawn(false),
            Piece::Empty,
            Piece::Empty,
            Piece::Empty,
        ],
        seq![
            Piece::Empty,
            Piece::Empty,
            Piece::Empty,
            Piece::Empty,
            Piece::Empty,
            Piece::Empty,
            Piece::Empty,
            Piece::Empty,
            Piece::Empty,
            Piece::Empty,
            Piece::Empty,
            Piece::Empty,
            Piece::Empty,
            Piece::Empty,
        ],
        seq![
            Piece::Empty,
            Piece::Empty,
            Piece::Empty,
            Piece::Empty,
            Piece::Empty,
            Piece::Empty,
            Piece::Empty,
            Piece::Empty,
            Piece::Empty,
            Piece::Empty,
            Piece::Empty,
            Piece::Empty,
            Piece::Empty,
            Piece::Empty,
        ],
        seq![
            Piece::Empty,
            Piece::Empty,
            Piece::Empty,
            Piece::Empty,
            Piece::Empty,
            Piece::Empty,
            Piece::Empty,
            Piece::Empty,
            Piece::Empty,
            Piece::Empty,
            Piece::Empty,
            Piece::Empty,
            Piece::Empty,
            Piece::Empty,
        ],
        seq![
            Piece::Empty,
            Piece::Empty,
            Piece::Empty,
            Piece::Empty,
            Piece::Empty,
            Piece::Empty,
            Piece::Empty,
            Piece::Empty,
            Piece::Empty,
            Piece::Empty,
            Piece::Empty,
            Piece::Empty,
            Piece::Empty,
            Piece::Empty,
        ],
        seq![
            Piece::Empty,
            Piece::Empty,
            Piece::Empty,
            Piece::Pawn(true),
            Piece::Pawn(true),
            Piece::Pawn(true),
            Piece::Pawn(true),
            Piece::Pawn(true),
            Piece::Pawn(true),
            Piece::Pawn(true),
            Piece::Pawn(true),
            Piece::Empty,
            Piece::Empty,
            Piece::Empty,
        ],
        seq![
            Piece::Queen(true),
            Piece::Empty,
            Piece::Empty,
            Piece::Rook(true),
            Piece::Knight(true),
            Piece::Bishop(true),
            Piece::Queen(true),
            Piece::King(true),
            Piece::Bishop(true),
            Piece::Knight(true),
            Piece::Rook(true),
            Piece::Empty,
            Piece::Empty,
            Piece::Empty,
        ],
    ]
}

impl Position {
    /// The starting position, with every castling right and white to move.
    pub fn new_reset() -> (r: Self)
        ensures
            r.colorw == true,
            grid_view(r.fields) == start_grid(),
            r.moves == 0,
            r.en_passant@ == seq!['-'],
            r.rochade@ == seq![
                Piece::King(true),
                Piece::Queen(true),
                Piece::King(false),
                Piece::Queen(false),
            ],
            r.since_pawn_major == 0,
    {
        proof {
            reveal_strlit("-");
        }
        let fields: [[Piece; 14]; 8] = [
            [
                Piece::Empty,
                Piece::Empty,
                Piece::Empty,
                Piece::Rook(false),
                Piece::Knight(false),
                Piece::Bishop(false),
                Piece::Queen(false),
                Piece::King(false),
                Piece::Bishop(false),
                Piece::Knight(false),
                Piece::Rook(false),
                Piece::Empty,
                Piece::Empty,
                Piece::Queen(false),
            ],
            [
                Piece::Empty,
                Piece::Empty,
                Piece::Empty,
                Piece::Pawn(false),
                Piece::Pawn(false),
                Piece::Pawn(false),
                Piece::Pawn(false),
                Piece::Pawn(false),
                Piece::Pawn(false),
                Piece::Pawn(false),
                Piece::Pawn(false),
                Piece::Empty,
                Piece::Empty,
                Piece::Empty,
            ],
            [Piece::Empty; 14],
            [Piece::Empty; 14],
            [Piece::Empty; 14],
            [Piece::Empty; 14],
            [
                Piece::Empty,
                Piece::Empty,
                Piece::Empty,
                Piece::Pawn(true),
                Piece::Pawn(true),
                Piece::Pawn(true),
                Piece::Pawn(true),
                Piece::Pawn(true),
                Piece::Pawn(true),
                Piece::Pawn(true),
                Piece::Pawn(true),
                Piece::Empty,
                Piece::Empty,
                Piece::Empty,
            ],
            [
                Piece::Queen(true),
                Piece::Empty,
                Piece::Empty,
                Piece::Rook(true),
                Piece::Knight(true),
                Piece::Bishop(true),
                Piece::Queen(true),
                Piece::King(true),
                Piece::Bishop(true),
                Piece::Knight(true),
                Piece::Rook(true),
                Piece::Empty,
                Piece::Empty,
                Piece::Empty,
            ],
        ];
        let r = Position {
            colorw: true,
            fields,
            moves: 0,
            en_passant: String::from_str("-"),
            rochade: [Piece::King(true), Piece::Queen(true), Piece::King(false), Piece::Queen(
                false,
            )],
            since_pawn_major: 0,
        };
        proof {
            assert(grid_view(r.fields) =~~= start_grid());
            assert(r.rochade@ =~= seq![
                Piece::King(true),
                Piece::Queen(true),
                Piece::King(false),
                Piece::Queen(false),
            ]);
        }
        r
    }


    /// The FEN text of this position.
    pub fn to_fen(&self) -> (res: String)
        ensures
            res@ == fen_of(*self),
    {
        let ghost g = grid_view(self.fields);
        let mut res = String::new();
        let mut i: usize = 0;
        proof {
            assert(Seq::<char>::empty() + rows_emit(g, 0) =~= rows_emit(g, 0));
        }
        while i < 8
            invariant
                i <= 8,
                g == grid_view(self.fields),
                res@ + rows_emit(g, i as int) == rows_emit(g, 0),
            decreases 8 - i,
        {
            let row = self.fields[i];
            let ghost sep: Seq<char> = if i < 7 {
                seq!['/']
            } else {
                seq![' ']
            };
            proof {
                assert(row@ == g[i as int]);
                assert(rows_emit(g, i as int) == row_emit(g[i as int], 3, 0) + sep + rows_emit(
                    g,
                    i as int + 1,
                ));
                assert(res@ + (row_emit(g[i as int], 3, 0) + sep + rows_emit(g, i as int + 1))
                    =~= res@ + row_emit(g[i as int], 3, 0) + sep + rows_emit(g, i as int + 1));
            }
            let mut empty_counter: u32 = 0;
            let mut j: usize = 3;
            while j < 11
                invariant
                    3 <= j <= 11,
                    i < 8,
                    empty_counter <= j - 3,
                    g == grid_view(self.fields),
                    row@ == g[i as int],
                    sep == (if i < 7 {
                        seq!['/']
                    } else {
                        seq![' ']
                    }),
                    res@ + row_emit(g[i as int], j as int, empty_counter as int) + sep
                        + rows_emit(g, i as int + 1) == rows_emit(g, 0),
                decreases 11 - j,
            {
                let f = row[j];
                if f == Piece::Empty {
                    empty_counter += 1;
                } else {
                    let ghost pending: Seq<char> = if empty_counter > 0 {
                        dec_seq(empty_counter as int)
                    } else {
                        Seq::<char>::empty()
                    };
                    let ghost r0 = res@;
                    if empty_counter > 0 {
                        append_dec_u32(&mut res, empty_counter);
                    }
                    proof {
                        if empty_counter == 0 {
                            assert(res@ =~= r0 + pending);
                        }
                    }
                    res.append(f.piece_to_letter());
                    empty_counter = 0;
                    proof {
                        assert(res@ == r0 + pending + spec_letter(g[i as int][j as int]));
                        assert(row_emit(g[i as int], j as int, (empty_counter as int))
                            == row_emit(g[i as int], j as int, 0));
                        assert(r0 + (pending + spec_letter(g[i as int][j as int]) + row_emit(
                            g[i as int],
                            j as int + 1,
                            0,
                        )) + sep + rows_emit(g, i as int + 1) =~= r0 + pending + spec_letter(
                            g[i as int][j as int],
                        ) + row_emit(g[i as int], j as int + 1, 0) + sep + rows_emit(
                            g,
                            i as int + 1,
                        ));
                    }
                }
                j += 1;
            }
            let ghost r1 = res@;
            if empty_counter > 0 {
                append_dec_u32(&mut res, empty_counter);
            }
            proof {
                assert(row_emit(g[i as int], 11, empty_counter as int) == (if empty_counter > 0 {
                    dec_seq(empty_counter as int)
                } else {
                    Seq::<char>::empty()
                }));
                if empty_counter == 0 {
                    assert(res@ =~= r1 + row_emit(g[i as int], 11, empty_counter as int));
                }
            }
            if i < 7 {
                proof {
                    reveal_strlit("/");
                }
                res.append("/");
                proof {
                    assert(("/")@ =~= sep);
                }
            } else {
                proof {
                    reveal_strlit(" ");
                }
                res.append(" ");
                proof {
                    assert((" ")@ =~= sep);
                }
            }
            proof {
                assert(res@ =~= r1 + row_emit(g[i as int], 11, empty_counter as int) + sep);
                assert(res@ + rows_emit(g, i as int + 1) =~= r1 + row_emit(
                    g[i as int],
                    11,
                    empty_counter as int,
                ) + sep + rows_emit(g, i as int + 1));
            }
            i += 1;
        }
        proof {
            assert(rows_emit(g, 8) == Seq::<char>::empty());
            assert(res@ + rows_emit(g, 8) =~= res@);
            assert(res@ == rows_emit(g, 0));
        }
        let ghost r2 = res@;
        if self.colorw {
            proof {
                reveal_strlit("w ");
            }
            res.append("w ");
            proof {
                assert(("w ")@ =~= seq!['w', ' ']);
            }
        } else {
            proof {
                reveal_strlit("b ");
            }
            res.append("b ");
            proof {
                assert(("b ")@ =~= seq!['b', ' ']);
            }
        }
        let mut rochade_res = String::new();
        rochade_res.append(self.rochade[0].piece_to_letter());
        rochade_res.append(self.rochade[1].piece_to_letter());
        rochade_res.append(self.rochade[2].piece_to_letter());
        rochade_res.append(self.rochade[3].piece_to_letter());
        proof {
            assert(rochade_res@ =~= Seq::<char>::empty() + spec_letter(self.rochade@[0])
                + spec_letter(self.rochade@[1]) + spec_letter(self.rochade@[2]) + spec_letter(
                self.rochade@[3],
            ));
            assert(Seq::<char>::empty() + spec_letter(self.rochade@[0]) + spec_letter(
                self.rochade@[1],
            ) + spec_letter(self.rochade@[2]) + spec_letter(self.rochade@[3]) =~= spec_letter(
                self.rochade@[0],
            ) + spec_letter(self.rochade@[1]) + spec_letter(self.rochade@[2]) + spec_letter(
                self.rochade@[3],
            ));
        }
        let ghost r3 = res@;
        if rochade_res.as_str().unicode_len() == 0 {
            proof {
                reveal_strlit("-");
            }
            res.append("-");
            proof {
                assert(("-")@ =~= seq!['-']);
                assert(res@ == r3 + castle_emit(self.rochade@));
            }
        } else {
            res.append(rochade_res.as_str());
            proof {
                assert(res@ == r3 + castle_emit(self.rochade@));
            }
        }
        proof {
            reveal_strlit(" ");
            assert((" ")@ =~= seq![' ']);
        }
        res.append(" ");
        res.append(self.en_passant.as_str());
        res.append(" ");
        append_dec_u32(&mut res, self.since_pawn_major);
        res.append(" ");
        append_dec_u32(&mut res, self.moves / 2 + 1);
        proof {
            assert(self.moves as int / 2 + 1 == (self.moves / 2 + 1) as int);
            assert(res@ == fen_of(*self));
        }
        res
    }


    /// Builds a position from FEN text. The playing window is filled from
    /// the placement field; every piece of the physical set that the text
    /// does not use goes to its graveyard home, the two spare queens last.
    /// Malformed text is rejected with `FenParse`, text using more pieces
    /// than the set has with `ImpossiblePosition`.
    pub fn from_fen(fen: &str) -> (r: Result<Self, MoveError>)
        ensures
            from_fen_post(fen@, r),
    {
        let ghost t = tok_split(fen@);
        let toks = tok_bounds(fen);
        if toks.len() < 6 {
            return Err(MoveError::FenParse);
        }
        let (a1, b1) = (toks[1].0, toks[1].1);
        let t1s = fen.substring_char(a1, b1);
        proof {
            reveal_strlit("w");
            assert(("w")@ =~= seq!['w']);
            assert(t1s@ == t[1]);
        }
        let colorw = str_eq(t1s, "w");
        let (a5, b5) = (toks[5].0, toks[5].1);
        let t5s = fen.substring_char(a5, b5);
        proof {
            assert(t5s@ == t[5]);
        }
        let fm = match parse_u32(t5s) {
            Some(n) => n,
            Option::None => {
                return Err(MoveError::FenParse);
            },
        };
        if fm == 0 {
            return Err(MoveError::FenParse);
        }
        if fm - 1 > (u32::MAX - 1) / 2 {
            return Err(MoveError::FenParse);
        }
        let moves: u32 = if colorw {
            (fm - 1) * 2
        } else {
            (fm - 1) * 2 + 1
        };
        let (a4, b4) = (toks[4].0, toks[4].1);
        let t4s = fen.substring_char(a4, b4);
        proof {
            assert(t4s@ == t[4]);
        }
        let hm = match parse_u32(t4s) {
            Some(n) => n,
            Option::None => {
                return Err(MoveError::FenParse);
            },
        };
        let (a3, b3) = (toks[3].0, toks[3].1);
        let en_passant = String::from_str(fen.substring_char(a3, b3));
        proof {
            assert(en_passant@ == t[3]);
        }
        let (a2, b2) = (toks[2].0, toks[2].1);
        let ghost t2 = t[2];
        proof {
            assert(fen@.subrange(a2 as int, b2 as int) == t2);
            lemma_countc_contains(t2, 'K');
            lemma_countc_contains(t2, 'Q');
            lemma_countc_contains(t2, 'k');
            lemma_countc_contains(t2, 'q');
        }
        let ro0 = if count_char(fen, a2, b2, 'K') > 0 {
            Piece::King(true)
        } else {
            Piece::Empty
        };
        let ro1 = if count_char(fen, a2, b2, 'Q') > 0 {
            Piece::Queen(true)
        } else {
            Piece::Empty
        };
        let ro2 = if count_char(fen, a2, b2, 'k') > 0 {
            Piece::King(false)
        } else {
            Piece::Empty
        };
        let ro3 = if count_char(fen, a2, b2, 'q') > 0 {
            Piece::Queen(false)
        } else {
            Piece::Empty
        };
        let rochade = [ro0, ro1, ro2, ro3];
        proof {
            assert(rochade@ =~= castle_parse(t2));
        }
        let (a0, b0) = (toks[0].0, toks[0].1);
        let ghost t0 = t[0];
        proof {
            assert(fen@.subrange(a0 as int, b0 as int) == t0);
        }
        let mut fields: [[Piece; 14]; 8] = [[Piece::Empty; 14]; 8];
        proof {
            assert(grid_view(fields) =~~= empty_grid());
        }
        let mut k = a0;
        let mut i: u128 = 0;
        let mut j: u128 = 3;
        while k < b0
            invariant
                a0 <= k <= b0,
                b0 <= fen@.len(),
                t == tok_split(fen@),
                t.len() >= 6,
                t0 == t[0],
                t0 == fen@.subrange(a0 as int, b0 as int),
                spec_parse_u32(t[5]) matches Some(v) && v != 0 && v - 1 <= (u32::MAX - 1) / 2,
                spec_parse_u32(t[4]) is Some,
                i <= k - a0,
                j <= 3 + 9 * (k - a0),
                place_all(empty_grid(), t0, 0, 0, 3) == place_all(
                    grid_view(fields),
                    t0,
                    k - a0,
                    i as int,
                    j as int,
                ),
            decreases b0 - k,
        {
            let c = fen.get_char(k);
            proof {
                assert(t0[k - a0] == fen@[k as int]);
            }
            let ghost gcur = grid_view(fields);
            let ghost kk = k - a0;
            let ghost gi = i as int;
            let ghost gj = j as int;
            if c == '/' {
                i = i + 1;
                j = 3;
                proof {
                    assert(place_all(gcur, t0, kk as int, gi, gj) == place_all(
                        gcur,
                        t0,
                        kk + 1,
                        gi + 1,
                        3,
                    ));
                }
            } else {
                match Piece::from_char(c) {
                    Some(p) => {
                        if i < 8 && j < 14 {
                            grid_put(&mut fields, i as usize, j as usize, p);
                            j = j + 1;
                            proof {
                                assert(place_all(gcur, t0, kk as int, gi, gj) == place_all(
                                    grid_set(gcur, gi, gj, p),
                                    t0,
                                    kk + 1,
                                    gi,
                                    gj + 1,
                                ));
                            }
                        } else {
                            proof {
                                assert(place_all(gcur, t0, kk as int, gi, gj) is None);
                            }
                            return Err(MoveError::FenParse);
                        }
                    },
                    Option::None => {
                        let cv = c as u32;
                        if 48 <= cv && cv <= 57 {
                            j = j + (cv - 48) as u128;
                            proof {
                                assert(is_digit(t0[kk as int]));
                                assert(place_all(gcur, t0, kk as int, gi, gj) == place_all(
                                    gcur,
                                    t0,
                                    kk + 1,
                                    gi,
                                    gj + digit_val(t0[kk as int]),
                                ));
                            }
                        } else {
                            proof {
                                assert(!is_digit(t0[kk as int]));
                                assert(place_all(gcur, t0, kk as int, gi, gj) is None);
                            }
                            return Err(MoveError::FenParse);
                        }
                    },
                }
            }
            k += 1;
        }
        proof {
            assert(place_all(grid_view(fields), t0, t0.len() as int, i as int, j as int) == Some(
                grid_view(fields),
            ));
        }
        let ck = count_char(fen, a0, b0, 'K');
        let cq = count_char(fen, a0, b0, 'Q');
        let cr = count_char(fen, a0, b0, 'R');
        let cn = count_char(fen, a0, b0, 'N');
        let cb = count_char(fen, a0, b0, 'B');
        let cp = count_char(fen, a0, b0, 'P');
        let dk = count_char(fen, a0, b0, 'k');
        let dq = count_char(fen, a0, b0, 'q');
        let dr = count_char(fen, a0, b0, 'r');
        let dn = count_char(fen, a0, b0, 'n');
        let db = count_char(fen, a0, b0, 'b');
        let dp = count_char(fen, a0, b0, 'p');
        if ck > 1 || cq > 1 || cr > 2 || cn > 2 || cb > 2 || cp > 8 || dk > 1 || dq > 1 || dr > 2
            || dn > 2 || db > 2 || dp > 8 {
            return Err(MoveError::ImpossiblePosition);
        }
        let mut pos = Position { colorw, fields, moves, en_passant, rochade, since_pawn_major: hm };
        let ghost g0 = grid_view(pos.fields);
        if !fill_kind(&mut pos, Piece::King(true), 1 - ck) {
            return Err(MoveError::ImpossiblePosition);
        }
        if !fill_kind(&mut pos, Piece::Queen(true), 1 - cq) {
            return Err(MoveError::ImpossiblePosition);
        }
        if !fill_kind(&mut pos, Piece::Rook(true), 2 - cr) {
            return Err(MoveError::ImpossiblePosition);
        }
        if !fill_kind(&mut pos, Piece::Knight(true), 2 - cn) {
            return Err(MoveError::ImpossiblePosition);
        }
        if !fill_kind(&mut pos, Piece::Bishop(true), 2 - cb) {
            return Err(MoveError::ImpossiblePosition);
        }
        if !fill_kind(&mut pos, Piece::Pawn(true), 8 - cp) {
            return Err(MoveError::ImpossiblePosition);
        }
        if !fill_kind(&mut pos, Piece::King(false), 1 - dk) {
            return Err(MoveError::ImpossiblePosition);
        }
        if !fill_kind(&mut pos, Piece::Queen(false), 1 - dq) {
            return Err(MoveError::ImpossiblePosition);
        }
        if !fill_kind(&mut pos, Piece::Rook(false), 2 - dr) {
            return Err(MoveError::ImpossiblePosition);
        }
        if !fill_kind(&mut pos, Piece::Knight(false), 2 - dn) {
            return Err(MoveError::ImpossiblePosition);
        }
        if !fill_kind(&mut pos, Piece::Bishop(false), 2 - db) {
            return Err(MoveError::ImpossiblePosition);
        }
        if !fill_kind(&mut pos, Piece::Pawn(false), 8 - dp) {
            return Err(MoveError::ImpossiblePosition);
        }
        if !fill_kind(&mut pos, Piece::Queen(true), 1) {
            return Err(MoveError::ImpossiblePosition);
        }
        if !fill_kind(&mut pos, Piece::Queen(false), 1) {
            return Err(MoveError::ImpossiblePosition);
        }
        Ok(pos)
    }


    /// Classifies the move text against this position; see `spec_validate`
    /// for the exact rules. Nothing is changed.
    pub fn validate_move_possibility(&self, cmove: &str) -> (r: Result<MoveType, MoveError>)
        ensures
            r == spec_validate(*self, cmove@),
    {
        proof {
            reveal_strlit("e1g1");
            reveal_strlit("e1c1");
            reveal_strlit("e8g8");
            reveal_strlit("e8c8");
            reveal_strlit("-");
        }
        if str_eq(cmove, "e1g1") {
            proof {
                assert(cmove@ =~= seq!['e', '1', 'g', '1']);
            }
            return if self.rochade_at(0) == Piece::King(true) && !self.field_is_empty((7, 10))
                && self.fields[7][10] == Piece::Rook(true) {
                Ok(MoveType::Rochade(Piece::King(true)))
            } else {
                Err(MoveError::UnallowedRochade)
            };
        }
        if str_eq(cmove, "e1c1") {
            proof {
                assert(cmove@ =~= seq!['e', '1', 'c', '1']);
            }
            return if self.rochade_at(1) == Piece::Queen(true) && self.fields[7][3]
                == Piece::Rook(true) {
                Ok(MoveType::Rochade(Piece::Queen(true)))
            } else {
                Err(MoveError::UnallowedRochade)
            };
        }
        if str_eq(cmove, "e8g8") {
            proof {
                assert(cmove@ =~= seq!['e', '8', 'g', '8']);
            }
            return if self.rochade_at(2) == Piece::King(false) && self.fields[0][10]
                == Piece::Rook(false) {
                Ok(MoveType::Rochade(Piece::King(false)))
            } else {
                Err(MoveError::UnallowedRochade)
            };
        }
        if str_eq(cmove, "e8c8") {
            proof {
                assert(cmove@ =~= seq!['e', '8', 'c', '8']);
            }
            return if self.rochade_at(3) == Piece::Queen(false) && self.fields[0][3]
                == Piece::Rook(false) {
                Ok(MoveType::Rochade(Piece::Queen(false)))
            } else {
                Err(MoveError::UnallowedRochade)
            };
        }
        proof {
            assert(("e1g1")@ =~= seq!['e', '1', 'g', '1']);
            assert(("-")@ =~= seq!['-']);
            assert(("e1c1")@ =~= seq!['e', '1', 'c', '1']);
            assert(("e8g8")@ =~= seq!['e', '8', 'g', '8']);
            assert(("e8c8")@ =~= seq!['e', '8', 'c', '8']);
            assert(cmove@ != seq!['e', '1', 'g', '1']);
            assert(cmove@ != seq!['e', '1', 'c', '1']);
            assert(cmove@ != seq!['e', '8', 'g', '8']);
            assert(cmove@ != seq!['e', '8', 'c', '8']);
        }
        if cmove.unicode_len() < 3 {
            return Err(MoveError::MoveParse);
        }
        let start_field = cmove.substring_char(0, 2);
        let end_field = cmove.substring_char(2, cmove.unicode_len());
        proof {
            assert(start_field@ == cmove@.take(2));
            assert(end_field@ == cmove@.skip(2));
        }
        let sc = match coordinates_to_index(start_field) {
            Ok(c) => c,
            Err(e) => {
                return Err(e);
            },
        };
        proof {
            assert(spec_coord_index(start_field@) is Ok);
        }
        let piece = self.fields[sc.0][sc.1];
        if piece == Piece::Empty {
            return Err(MoveError::NoFigurStart);
        }
        if self.colorw != piece.piece_to_color() {
            return Err(MoveError::WrongFigurStart);
        }
        let is_pawn = match piece {
            Piece::Pawn(_) => true,
            _ => false,
        };
        if !str_eq(self.en_passant.as_str(), "-") && is_pawn && str_eq(
            end_field,
            self.en_passant.as_str(),
        ) {
            let ind = match coordinates_to_index(self.en_passant.as_str()) {
                Ok(c) => c,
                Err(e) => {
                    return Err(e);
                },
            };
            if ind.0 == 2 {
                return Ok(MoveType::EnPassant((ind.0 + 1, ind.1)));
            } else if ind.0 >= 1 {
                return Ok(MoveType::EnPassant((ind.0 - 1, ind.1)));
            } else {
                return Err(MoveError::UnrightCoordinates);
            }
        }
        if !piece.check_field(start_field, end_field) {
            return Err(MoveError::MoveNotFitPiece(piece));
        }
        let ec = match coordinates_to_index(end_field) {
            Ok(c) => c,
            Err(e) => {
                return Err(e);
            },
        };
        let capt = self.fields[ec.0][ec.1];
        if capt == Piece::Empty {
            Ok(MoveType::Normal(piece))
        } else if piece.piece_to_color() == capt.piece_to_color() {
            Err(MoveError::OwnFigurEnd)
        } else {
            Ok(MoveType::Capturing(piece, capt))
        }
    }

    /// One castling-rights slot.
    fn rochade_at(&self, k: usize) -> (r: Piece)
        requires
            k < 4,
        ensures
            r == self.rochade@[k as int],
    {
        self.rochade[k]
    }


    /// Applies one move: validates it, advances the whole state, and
    /// returns the ordered physical sub-moves that realize it. A rejected
    /// or failing move leaves the state untouched.
    pub fn update(&mut self, ind_move: ((usize, usize), (usize, usize)), coord_move: &str) -> (r:
        Result<Vec<PFIType>, UpdateError>)
        requires
            ind_move.0.0 < 8,
            ind_move.0.1 < 14,
            ind_move.1.0 < 8,
            ind_move.1.1 < 14,
            old(self).moves < u32::MAX,
            old(self).since_pawn_major < u32::MAX,
        ensures
            update_post(*old(self), *final(self), ind_move, coord_move@, r),
    {
        let mt = match self.validate_move_possibility(coord_move) {
            Err(rr) => {
                return Err(UpdateError::ImpossibleMove(rr));
            },
            Ok(mt) => mt,
        };
        let (sfr, sfs) = ind_move.0;
        let (efr, efs) = ind_move.1;
        let piece = self.fields[sfr][sfs];
        if piece == Piece::Empty {
            return Err(UpdateError::Other);
        }
        proof {
            assert(("e1g1")@ =~= seq!['e', '1', 'g', '1']) by {
                reveal_strlit("e1g1");
            }
            assert(("e1c1")@ =~= seq!['e', '1', 'c', '1']) by {
                reveal_strlit("e1c1");
            }
            assert(("e8g8")@ =~= seq!['e', '8', 'g', '8']) by {
                reveal_strlit("e8g8");
            }
            assert(("e8c8")@ =~= seq!['e', '8', 'c', '8']) by {
                reveal_strlit("e8c8");
            }
            assert(coord_move@.len() >= 3);
        }
        let mut next = self.clone();
        next.colorw = !next.colorw;
        next.moves = next.moves + 1;
        next.since_pawn_major = next.since_pawn_major + 1;
        match piece {
            Piece::King(c) => {
                if c {
                    next.rochade.set(0, Piece::Empty);
                    next.rochade.set(1, Piece::Empty);
                } else {
                    next.rochade.set(2, Piece::Empty);
                    next.rochade.set(3, Piece::Empty);
                }
            },
            Piece::Rook(_) => {
                if sfr == 0 && sfs == 3 {
                    next.rochade.set(3, Piece::Empty);
                } else if sfr == 0 && sfs == 10 {
                    next.rochade.set(2, Piece::Empty);
                } else if sfr == 7 && sfs == 3 {
                    next.rochade.set(1, Piece::Empty);
                } else if sfr == 7 && sfs == 10 {
                    next.rochade.set(0, Piece::Empty);
                }
            },
            _ => {},
        }
        proof {
            assert(next.rochade@ == cleared_rochade(old(self).rochade@, piece, ind_move.0));
            assert(("-")@ =~= seq!['-']) by {
                reveal_strlit("-");
            }
            assert(("3")@ =~= seq!['3']) by {
                reveal_strlit("3");
            }
            assert(("6")@ =~= seq!['6']) by {
                reveal_strlit("6");
            }
        }
        match piece {
            Piece::Pawn(c) => {
                next.since_pawn_major = 0;
                if c && sfr == 6 && efr == 4 {
                    next.en_passant = String::from_str(coord_move.substring_char(0, 1)).concat(
                        "3",
                    );
                    proof {
                        assert(next.en_passant@ =~= seq![coord_move@[0], '3']);
                    }
                } else if !c && sfr == 1 && efr == 3 {
                    next.en_passant = String::from_str(coord_move.substring_char(0, 1)).concat(
                        "6",
                    );
                    proof {
                        assert(next.en_passant@ =~= seq![coord_move@[0], '6']);
                    }
                } else {
                    next.en_passant = String::from_str("-");
                }
            },
            _ => {
                next.en_passant = String::from_str("-");
            },
        }
        proof {
            assert(next.en_passant@ == new_ep(piece, ind_move, coord_move@));
        }
        let mut moves_list: Vec<PFIType> = Vec::new();
        match mt {
            MoveType::Normal(p) => {
                next.set_cell(efr, efs, p);
                next.set_cell(sfr, sfs, Piece::Empty);
                moves_list.push(PFIType::NMove(ind_move.0, ind_move.1));
                proof {
                    assert(moves_list@ =~= seq![PFIType::NMove(ind_move.0, ind_move.1)]);
                }
            },
            MoveType::Capturing(p, cp) => {
                next.since_pawn_major = 0;
                let rest_ind = match next.add_rest(cp) {
                    Ok(t) => t,
                    Err(rr) => {
                        return Err(UpdateError::CleaningError(rr));
                    },
                };
                moves_list.push(PFIType::Custom(ind_move.1, rest_ind));
                next.set_cell(sfr, sfs, Piece::Empty);
                next.set_cell(efr, efs, p);
                moves_list.push(PFIType::NMove(ind_move.0, ind_move.1));
                proof {
                    assert(moves_list@ =~= seq![
                        PFIType::Custom(ind_move.1, rest_ind),
                        PFIType::NMove(ind_move.0, ind_move.1),
                    ]);
                }
            },
            MoveType::EnPassant(bind) => {
                proof {
                    assert(bind.0 < 8 && bind.1 < 14);
                }
                let beaten = match next.index_to_piece(bind) {
                    Some(i) => i,
                    Option::None => {
                        return Err(UpdateError::EnpassantMissing);
                    },
                };
                let rest_ind = match next.add_rest(beaten) {
                    Ok(t) => t,
                    Err(rr) => {
                        return Err(UpdateError::CleaningError(rr));
                    },
                };
                moves_list.push(PFIType::Custom(bind, rest_ind));
                next.set_cell(bind.0, bind.1, Piece::Empty);
                next.set_cell(sfr, sfs, Piece::Empty);
                next.set_cell(efr, efs, Piece::Pawn(!beaten.piece_to_color()));
                moves_list.push(PFIType::NMove(ind_move.0, ind_move.1));
                proof {
                    assert(moves_list@ =~= seq![
                        PFIType::Custom(bind, rest_ind),
                        PFIType::NMove(ind_move.0, ind_move.1),
                    ]);
                }
            },
            MoveType::Rochade(p) => {
                let (ks, ke, rs, re) = match p {
                    Piece::King(true) => (
                        (7usize, 7usize),
                        (7usize, 9usize),
                        (7usize, 10usize),
                        (7usize, 8usize),
                    ),
                    Piece::Queen(true) => (
                        (7usize, 7usize),
                        (7usize, 5usize),
                        (7usize, 3usize),
                        (7usize, 6usize),
                    ),
                    Piece::King(false) => (
                        (0usize, 7usize),
                        (0usize, 9usize),
                        (0usize, 10usize),
                        (0usize, 8usize),
                    ),
                    Piece::Queen(false) => (
                        (0usize, 7usize),
                        (0usize, 5usize),
                        (0usize, 3usize),
                        (0usize, 6usize),
                    ),
                    _ => {
                        return Err(UpdateError::Other);
                    },
                };
                let col = p.piece_to_color();
                next.set_cell(ks.0, ks.1, Piece::Empty);
                next.set_cell(ke.0, ke.1, Piece::King(col));
                next.set_cell(rs.0, rs.1, Piece::Empty);
                next.set_cell(re.0, re.1, Piece::Rook(col));
                moves_list.push(PFIType::Rochade(p, [ks, ke, rs, re]));
                proof {
                    assert(moves_list@.len() == 1);
                    assert(moves_list@[0] == PFIType::Rochade(p, [ks, ke, rs, re]));
                    let arr: [(usize, usize); 4] = [ks, ke, rs, re];
                    assert(arr@ =~= seq![ks, ke, rs, re]);
                }
            },
        }
        *self = next;
        Ok(moves_list)
    }

    /// Whether the cell holds no piece.
    pub fn field_is_empty(&self, field: (usize, usize)) -> (r: bool)
        requires
            field.0 < 8,
            field.1 < 14,
        ensures
            r == (grid_view(self.fields)[field.0 as int][field.1 as int] == Piece::Empty),
    {
        self.fields[field.0][field.1] == Piece::Empty
    }

    /// The piece at a cell, or `None` for an empty cell.
    pub fn index_to_piece(&self, ind: (usize, usize)) -> (r: Option<Piece>)
        requires
            ind.0 < 8,
            ind.1 < 14,
        ensures
            r == (if grid_view(self.fields)[ind.0 as int][ind.1 as int] == Piece::Empty {
                Option::<Piece>::None
            } else {
                Some(grid_view(self.fields)[ind.0 as int][ind.1 as int])
            }),
    {
        if self.field_is_empty(ind) {
            Option::None
        } else {
            Some(self.fields[ind.0][ind.1])
        }
    }

    /// The piece on the square a coordinate string names, or the error that
    /// rejects the string.
    pub fn coordinates_to_piece(&self, coord: &str) -> (r: Result<Option<Piece>, MoveError>)
        ensures
            r == (match spec_coord_index(coord@) {
                Ok(cell) => Ok::<Option<Piece>, MoveError>(
                    if grid_view(self.fields)[cell.0 as int][cell.1 as int] == Piece::Empty {
                        Option::<Piece>::None
                    } else {
                        Some(grid_view(self.fields)[cell.0 as int][cell.1 as int])
                    },
                ),
                Err(e) => Err(e),
            }),
    {
        let res = match coordinates_to_index(coord) {
            Ok(cell) => cell,
            Err(e) => {
                return Err(e);
            },
        };
        Ok(self.index_to_piece(res))
    }

    /// Routes a captured or left-over piece to its graveyard cell and
    /// returns the cell. Queens, rooks, knights and bishops fall back to
    /// their second cell when the first is taken; pawns take the first free
    /// cell of their graveyard rows; a full pawn graveyard is an error, as
    /// is routing the empty sentinel.
    pub fn add_rest(&mut self, pce: Piece) -> (r: Result<(usize, usize), CleaningError>)
        ensures
            r == spec_add_rest_cell(grid_view(old(self).fields), pce),
            match r {
                Ok(cell) => grid_view(final(self).fields) == grid_set(
                    grid_view(old(self).fields),
                    cell.0 as int,
                    cell.1 as int,
                    pce,
                ),
                Err(_) => *final(self) == *old(self),
            },
            final(self).colorw == old(self).colorw,
            final(self).moves == old(self).moves,
            final(self).en_passant == old(self).en_passant,
            final(self).rochade == old(self).rochade,
            final(self).since_pawn_major == old(self).since_pawn_major,
    {
        match pce {
            Piece::Pawn(true) => {
                let mut r: usize = 0;
                while r < 4
                    invariant
                        r <= 4,
                        pce == Piece::Pawn(true),
                        forall|k: int, s: int|
                            0 <= k < r && 0 <= s < 2 ==> #[trigger] grid_view(self.fields)[k][s]
                                != Piece::Empty,
                        *self == *old(self),
                    decreases 4 - r,
                {
                    let mut s: usize = 0;
                    while s < 2
                        invariant
                            r < 4,
                            s <= 2,
                            pce == Piece::Pawn(true),
                            forall|k: int, t: int|
                                0 <= k < r && 0 <= t < 2 ==> #[trigger] grid_view(
                                    self.fields,
                                )[k][t] != Piece::Empty,
                            forall|t: int|
                                0 <= t < s ==> grid_view(self.fields)[r as int][t] != Piece::Empty,
                            *self == *old(self),
                        decreases 2 - s,
                    {
                        if self.field_is_empty((r, s)) {
                            proof {
                                assert(first_free_wp(grid_view(old(self).fields)) == Some((r, s)));
                            }
                            self.set_cell(r, s, pce);
                            return Ok((r, s));
                        }
                        s += 1;
                    }
                    r += 1;
                }
                Err(CleaningError::ImpossiblePosition)
            },
            Piece::Pawn(false) => {
                let mut r: usize = 0;
                while r < 4
                    invariant
                        r <= 4,
                        pce == Piece::Pawn(false),
                        forall|k: int, t: int|
                            8 - r <= k < 8 && 12 <= t < 14 ==> #[trigger] grid_view(
                                self.fields,
                            )[k][t] != Piece::Empty,
                        *self == *old(self),
                    decreases 4 - r,
                {
                    let mut s: usize = 0;
                    while s < 2
                        invariant
                            r < 4,
                            s <= 2,
                            pce == Piece::Pawn(false),
                            forall|k: int, t: int|
                                8 - r <= k < 8 && 12 <= t < 14 ==> #[trigger] grid_view(
                                    self.fields,
                                )[k][t] != Piece::Empty,
                            forall|t: int|
                                14 - s <= t < 14 ==> #[trigger] grid_view(self.fields)[7 - r as int][t]
                                    != Piece::Empty,
                            *self == *old(self),
                        decreases 2 - s,
                    {
                        if self.field_is_empty((7 - r, 13 - s)) {
                            proof {
                                assert(first_free_bp(grid_view(old(self).fields)) == Some(
                                    ((7 - r) as usize, (13 - s) as usize),
                                ));
                            }
                            self.set_cell(7 - r, 13 - s, pce);
                            return Ok((7 - r, 13 - s));
                        }
                        s += 1;
                    }
                    r += 1;
                }
                Err(CleaningError::ImpossiblePosition)
            },
            Piece::Empty => Err(CleaningError::KingBeforeQueen),
            _ => {
                let (primary, fallback) = match pce {
                    Piece::Queen(true) => ((7usize, 0usize), Some((7usize, 1usize))),
                    Piece::Queen(false) => ((0usize, 13usize), Some((0usize, 12usize))),
                    Piece::King(true) => ((7usize, 2usize), Option::<(usize, usize)>::None),
                    Piece::King(false) => ((0usize, 11usize), Option::None),
                    Piece::Rook(true) => ((6usize, 0usize), Some((6usize, 1usize))),
                    Piece::Rook(false) => ((1usize, 13usize), Some((1usize, 12usize))),
                    Piece::Knight(true) => ((5usize, 0usize), Some((5usize, 1usize))),
                    Piece::Knight(false) => ((2usize, 13usize), Some((2usize, 12usize))),
                    Piece::Bishop(true) => ((4usize, 0usize), Some((4usize, 1usize))),
                    _ => ((3usize, 13usize), Some((3usize, 12usize))),
                };
                if self.field_is_empty(primary) {
                    self.set_cell(primary.0, primary.1, pce);
                    Ok(primary)
                } else {
                    match fallback {
                        Some(fb) => {
                            self.set_cell(fb.0, fb.1, pce);
                            Ok(fb)
                        },
                        Option::None => {
                            self.set_cell(primary.0, primary.1, pce);
                            Ok(primary)
                        },
                    }
                }
            },
        }
    }

    /// Puts `p` on the cell `(r, c)`.
    fn set_cell(&mut self, r: usize, c: usize, p: Piece)
        requires
            r < 8,
            c < 14,
        ensures
            grid_view(final(self).fields) == grid_set(grid_view(old(self).fields), r as int, c as int, p),
            final(self).colorw == old(self).colorw,
            final(self).moves == old(self).moves,
            final(self).en_passant == old(self).en_passant,
            final(self).rochade == old(self).rochade,
            final(self).since_pawn_major == old(self).since_pawn_major,
    {
        let mut row = self.fields[r];
        row.set(c, p);
        self.fields.set(r, row);
        proof {
            assert(grid_view(self.fields) =~~= grid_set(
                grid_view(old(self).fields),
                r as int,
                c as int,
                p,
            ));
        }
    }
}

} // verus!
