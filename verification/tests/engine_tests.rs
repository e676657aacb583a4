//! Tests of the engine reply parser and the state translation.

use chess_firmware::board::State;
use chess_firmware::engine::{parse_engine_reply, state_from_engine, SFErrors, SFResults};

#[test]
fn best_move_is_read_from_the_last_line()
{
    let r = parse_engine_reply("bestmove e2e4 ponder e7e5", "").unwrap();
    match r {
        SFResults::Normal(m) => assert_eq!(m, String::from("e2e4")),
        _ => panic!(),
    }
    let r = parse_engine_reply("bestmove f8d8", "info depth 1").unwrap();
    match r {
        SFResults::Normal(m) => assert_eq!(m, String::from("f8d8")),
        _ => panic!(),
    }
}

#[test]
fn none_defers_to_the_score_line()
{
    let mate = parse_engine_reply(
        "bestmove (none)",
        "info depth 10 seldepth 2 nodes 25 score mate 0",
    )
    .unwrap();
    assert_eq!(mate, SFResults::Mate);
    let stale = parse_engine_reply(
        "bestmove (none)",
        "info depth 10 seldepth 2 nodes 25 score cp 0",
    )
    .unwrap();
    assert_eq!(stale, SFResults::Stalemate);
}

#[test]
fn malformed_replies_are_errors()
{
    assert!(matches!(
        parse_engine_reply("uciok", ""),
        Err(SFErrors::SFProcessing)
    ));
    assert!(matches!(
        parse_engine_reply("bestmove (none)", "info depth"),
        Err(SFErrors::SFProcessing)
    ));
    assert!(matches!(
        parse_engine_reply("", ""),
        Err(SFErrors::SFProcessing)
    ));
}

#[test]
fn states_follow_the_engine_judgement()
{
    assert!(matches!(
        state_from_engine(&SFResults::Normal(String::from("e2e4")), false),
        State::Normal
    ));
    assert!(matches!(
        state_from_engine(&SFResults::Stalemate, false),
        State::Draw(_)
    ));
    // black is to move after the update, so a mate means white won
    assert!(matches!(state_from_engine(&SFResults::Mate, false), State::Mate(true)));
}
