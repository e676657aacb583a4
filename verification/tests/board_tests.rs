//! Tests of the board model: FEN round-tripping, coordinates, move
//! validation, and the occupancy map.

use chess_firmware::bitlist::BitList;
use chess_firmware::board::{coordinates_to_index, MoveError, MoveType, Position};
use chess_firmware::coords::FieldUsize;
use chess_firmware::pieces::Piece;

fn get_position() -> Position {
    Position::from_fen("rnbqkbnr/1p2pppp/8/p1ppP3/P7/8/1PP1PPPP/RNBQKBNR w KQkq d6 0 6").unwrap()
}

#[test]
fn it_works() {
    let result = get_position().to_fen();
    assert_eq!(
        result,
        String::from("rnbqkbnr/1p2pppp/8/p1ppP3/P7/8/1PP1PPPP/RNBQKBNR w KQkq d6 0 6")
    );
}

#[test]
fn it_works1() {
    let result: &Result<Option<Piece>, MoveError> = &get_position().coordinates_to_piece("h1");
    assert_eq!(
        format!("{:?}", result),
        format!("{:?}", Ok::<Option<Piece>, MoveError>(Some(Piece::Rook(true))))
    );
}

#[test]
fn it_works2() {
    let result: &Result<MoveType, MoveError> = &get_position().validate_move_possibility("f1b5");
    assert_eq!(
        format!("{:?}", result),
        format!("{:?}", Ok::<MoveType, MoveError>(MoveType::Normal(Piece::Bishop(true))))
    );
}

#[test]
fn it_works3() {
    let (a, b) = match coordinates_to_index("f7") {
        Ok(b) => b,
        Err(_) => panic!(),
    };
    assert_eq!(a, 1 as usize);
    assert_eq!(b, 8 as usize);
}

#[test]
fn it_works4() {
    let rr = match coordinates_to_index("n9") {
        Ok(_) => panic!(),
        Err(rr) => rr,
    };
    assert_eq!(format!("{:?}", rr), format!("{:?}", MoveError::UnrightCoordinates));
}

#[test]
fn it_works5() {
    let result = &get_position().validate_move_possibility("g4g5");
    assert_eq!(
        format!("{:?}", result),
        format!("{:?}", Err::<MoveType, MoveError>(MoveError::NoFigurStart))
    );
}

#[test]
fn it_works6() {
    let result = &Piece::Bishop(false).check_field("a2", "d5");
    assert_eq!(*result, true);
}

#[test]
fn it_works7() {
    let result = BitList::from_pos(&get_position()).check_coords((3, 5));
    assert_eq!(result, true);
}

#[test]
fn it_works8() {
    let result = BitList::from_pos(&get_position()).count_area(FieldUsize(3, 7), FieldUsize(6, 4));
    assert_eq!(result, 6);
}

#[test]
fn fen_round_trip_start_position() {
    let fen = "rnbqkbnr/pppppppp/8/8/8/8/PPPPPPPP/RNBQKBNR w KQkq - 0 1";
    let pos = Position::from_fen(fen).unwrap();
    assert_eq!(pos.to_fen(), String::from(fen));
}

#[test]
fn fen_round_trip_twice() {
    let fen = "4k3/8/8/8/3p4/4P3/8/4K3 w - - 3 17";
    let pos = Position::from_fen(fen).unwrap();
    let emitted = pos.to_fen();
    assert_eq!(emitted, String::from(fen));
    let pos2 = Position::from_fen(emitted.as_str()).unwrap();
    assert_eq!(pos2.to_fen(), String::from(fen));
}

#[test]
fn fen_rejects_malformed() {
    assert!(matches!(Position::from_fen("not a fen"), Err(MoveError::FenParse)));
    assert!(matches!(Position::from_fen(""), Err(MoveError::FenParse)));
    assert!(matches!(
        Position::from_fen("rnbqkbnr/pppppppp/8/8/8/8/PPPPPPPP/RNBQKBNR w KQkq - 0 0"),
        Err(MoveError::FenParse)
    ));
}

#[test]
fn fen_rejects_over_inventory() {
    // nine white pawns exceed the physical set
    let fen = "rnbqkbnr/pppppppp/8/8/8/P7/PPPPPPPP/RNBQKBNR w KQkq - 0 1";
    assert!(matches!(Position::from_fen(fen), Err(MoveError::ImpossiblePosition)));
}

#[test]
fn validation_errors() {
    let start = Position::new_reset();
    assert!(matches!(
        start.validate_move_possibility("e7e5"),
        Err(MoveError::WrongFigurStart)
    ));
    assert!(matches!(start.validate_move_possibility("a1b3"), Err(MoveError::MoveNotFitPiece(_))));
    assert!(matches!(start.validate_move_possibility("a1a2"), Err(MoveError::OwnFigurEnd)));
    assert!(matches!(start.validate_move_possibility("e2"), Err(MoveError::MoveParse)));
    let no_rights =
        Position::from_fen("rnbqkbnr/pppppppp/8/8/8/8/PPPPPPPP/RNBQKBNR w - - 0 1").unwrap();
    assert!(matches!(
        no_rights.validate_move_possibility("e1g1"),
        Err(MoveError::UnallowedRochade)
    ));
}

#[test]
fn pawn_move_updates_state() {
    let mut pos = Position::new_reset();
    let moves = pos.update(((6, 7), (4, 7)), "e2e4").unwrap();
    assert_eq!(moves.len(), 1);
    assert!(matches!(moves[0], chess_firmware::board::PFIType::NMove((6, 7), (4, 7))));
    let fen = pos.to_fen();
    assert_eq!(
        fen,
        String::from("rnbqkbnr/pppppppp/8/8/4P3/8/PPPP1PPP/RNBQKBNR b KQkq e3 0 1")
    );
}

#[test]
fn capture_evacuates_first() {
    let mut pos = Position::from_fen("4k3/8/8/8/3p4/4P3/8/4K3 w - - 0 1").unwrap();
    let moves = pos.update(((5, 7), (4, 6)), "e3d4").unwrap();
    assert_eq!(moves.len(), 2);
    // seven black pawns were already routed to the graveyard while
    // parsing, so the captured one takes the next free cell
    assert!(matches!(moves[0], chess_firmware::board::PFIType::Custom((4, 6), (4, 12))));
    assert!(matches!(moves[1], chess_firmware::board::PFIType::NMove((5, 7), (4, 6))));
    // the capturing pawn stands on d4, the captured one in the graveyard
    assert_eq!(pos.index_to_piece((4, 6)), Some(Piece::Pawn(true)));
    assert_eq!(pos.index_to_piece((4, 12)), Some(Piece::Pawn(false)));
}

#[test]
fn en_passant_capture() {
    let mut pos = Position::from_fen("8/8/8/pP6/8/8/8/k6K w - a6 0 2").unwrap();
    let moves = pos.update(((3, 4), (2, 3)), "b5a6").unwrap();
    assert_eq!(moves.len(), 2);
    assert!(matches!(moves[0], chess_firmware::board::PFIType::Custom((3, 3), (4, 12))));
    assert!(matches!(moves[1], chess_firmware::board::PFIType::NMove((3, 4), (2, 3))));
    assert_eq!(pos.index_to_piece((3, 3)), None);
    assert_eq!(pos.index_to_piece((2, 3)), Some(Piece::Pawn(true)));
}

#[test]
fn castling_moves_both_pieces() {
    let mut pos = Position::from_fen("r3k2r/8/8/8/8/8/8/R3K2R w KQkq - 0 1").unwrap();
    let moves = pos.update(((7, 7), (7, 9)), "e1g1").unwrap();
    assert_eq!(moves.len(), 1);
    assert_eq!(pos.index_to_piece((7, 9)), Some(Piece::King(true)));
    assert_eq!(pos.index_to_piece((7, 8)), Some(Piece::Rook(true)));
    assert_eq!(pos.index_to_piece((7, 7)), None);
    assert_eq!(pos.index_to_piece((7, 10)), None);
    // both white rights are gone, the black ones stay
    assert_eq!(pos.rochade[0], Piece::Empty);
    assert_eq!(pos.rochade[1], Piece::Empty);
    assert_eq!(pos.rochade[2], Piece::King(false));
    assert_eq!(pos.rochade[3], Piece::Queen(false));
}

#[test]
fn knight_round_trip_restores_placement() {
    let start_fen = Position::new_reset().to_fen();
    let start_placement = String::from(start_fen.split_whitespace().next().unwrap());
    let mut pos = Position::new_reset();
    pos.update(((7, 9), (5, 8)), "g1f3").unwrap();
    pos.update(((0, 4), (2, 5)), "b8c6").unwrap();
    pos.update(((5, 8), (7, 9)), "f3g1").unwrap();
    pos.update(((2, 5), (0, 4)), "c6b8").unwrap();
    let after = pos.to_fen();
    let after_placement = String::from(after.split_whitespace().next().unwrap());
    assert_eq!(after_placement, start_placement);
    // the counters have moved on, so the full text does not repeat
    assert_ne!(after, start_fen);
}

#[test]
fn bitlist_counts_free_neighbors() {
    let pos = Position::new_reset();
    let bl = BitList::from_pos(&pos);
    // an empty cell in the middle of the empty zone keeps all eight
    assert_eq!(bl.check_field_num(FieldUsize(3, 7)), 8);
    // the cell in front of a pawn rank loses the three neighbours behind it
    assert_eq!(bl.check_field_num(FieldUsize(2, 7)), 5);
    // a cell at the board's edge has only five in-bounds neighbours
    assert_eq!(bl.check_field_num(FieldUsize(2, 0)), 5);
    assert!(bl.check_field(FieldUsize(6, 7)));
    assert!(!bl.check_field(FieldUsize(4, 7)));
}

#[test]
fn bitlist_update_ticks_and_promotes() {
    let mut bl = BitList::new();
    bl.update(vec![], vec![(3, 3)], vec![]);
    assert!(bl.check_coords((3, 3)));
    bl.update(vec![(3, 3)], vec![], vec![]);
    assert!(!bl.check_coords((3, 3)));
    // ticking down to zero promotes the cell to occupied
    let mut bl2 = BitList::new();
    for _ in 0..7 {
        bl2.update(vec![], vec![], vec![(2, 2)]);
    }
    assert!(!bl2.check_coords((2, 2)));
    assert_eq!(bl2.check_coords_num((2, 2)), 1);
    bl2.update(vec![], vec![], vec![(2, 2)]);
    assert!(bl2.check_coords((2, 2)));
    // out-of-bounds coordinates are silently ignored
    bl2.update(vec![(9, 20)], vec![(8, 14)], vec![(20, 9)]);
}

#[test]
fn update_surfaces_validation_and_state_errors() {
    let mut start = Position::new_reset();
    assert!(matches!(
        start.update(((6, 7), (4, 7)), "e7e5"),
        Err(chess_firmware::board::UpdateError::ImpossibleMove(MoveError::WrongFigurStart))
    ));
    // an en-passant square with no pawn behind it is an internal failure
    let mut ghostly = Position::from_fen("8/8/8/1P6/8/8/8/k6K w - a6 0 2").unwrap();
    assert!(matches!(
        ghostly.update(((3, 4), (2, 3)), "b5a6"),
        Err(chess_firmware::board::UpdateError::EnpassantMissing)
    ));
    // a rejected move leaves the state untouched
    assert_eq!(ghostly.to_fen(), String::from("8/8/8/1P6/8/8/8/k6K w - a6 0 2"));
}

#[test]
fn fen_rejects_overflowing_counters() {
    let fen = "4k3/8/8/8/8/8/8/4K3 w - - 0 4294967295";
    assert!(matches!(Position::from_fen(fen), Err(MoveError::FenParse)));
    let fine = "4k3/8/8/8/8/8/8/4K3 w - - 0 1000000";
    assert!(Position::from_fen(fine).is_ok());
}

#[test]
fn pawn_double_step_only_from_start_rank() {
    // from the start rank both lengths fit the pattern
    assert!(Piece::Pawn(true).check_field("e2", "e3"));
    assert!(Piece::Pawn(true).check_field("e2", "e4"));
    assert!(Piece::Pawn(false).check_field("e7", "e5"));
    // a pawn that has already advanced may not jump two squares again
    assert!(!Piece::Pawn(true).check_field("e4", "e6"));
    assert!(!Piece::Pawn(false).check_field("e5", "e3"));
    assert!(Piece::Pawn(true).check_field("e4", "e5"));
    let mid = Position::from_fen("4k3/8/8/8/4P3/8/8/4K3 w - - 0 1").unwrap();
    assert!(matches!(mid.validate_move_possibility("e4e6"), Err(MoveError::MoveNotFitPiece(_))));
}

#[test]
fn unit_steps_clamp_on_zero() {
    assert_eq!(FieldUsize(3, 1).edit_x(false), FieldUsize(3, 0));
    assert_eq!(FieldUsize(3, 0).edit_x(false), FieldUsize(3, 0));
    assert_eq!(FieldUsize(1, 5).edit_y(false), FieldUsize(0, 5));
    assert_eq!(FieldUsize(0, 5).edit_y(false), FieldUsize(0, 5));
    assert_eq!(FieldUsize(2, 7).sub_y(2), FieldUsize(0, 7));
}
