//! Tests of the motor planner: step conversion, plan reversal and merging,
//! the head-position projection, and whole-move planning.

use chess_firmware::board::Position;
use chess_firmware::coords::{fields_to_steps, fields_to_steps_signed, Field, FieldUsize};
use chess_firmware::motor::{
    MotorInstructions, MotorMove, MotorMoveType, PosNow, Speeds,
};
use chess_firmware::path::OneFML;

fn mm(len: u32, dir: bool, magnet: bool) -> MotorMove {
    MotorMove::new_values(dir, len, true, Speeds::Transportspeed, magnet)
}

#[test]
fn steps_follow_the_formula() {
    // one cell is two half-cells: round(45.0 / 14.135 * 200) steps
    assert_eq!(fields_to_steps(2), 637);
    // two cells
    assert_eq!(fields_to_steps(4), 1273);
    assert_eq!(fields_to_steps_signed(-4), -1273);
    // a negative displacement yields no unsigned steps
    assert_eq!(fields_to_steps(-2), 0);
    assert_eq!(fields_to_steps(0), 0);
}

#[test]
fn projection_inverts_steps() {
    let p = PosNow::new_from_field(Field(1, -5));
    assert_eq!(p.sfh_to_field(), Field(1, -5));
    let q = PosNow::new();
    assert_eq!(q.sfh_to_field(), Field(0, 0));
}

#[test]
fn reverse_twice_restores_plan() {
    let plan = MotorInstructions {
        instructions: vec![
            MotorMoveType::StraightX(mm(100, true, true)),
            MotorMoveType::Diagonal(mm(40, false, false)),
            MotorMoveType::StraightY(mm(7, false, true)),
        ],
    };
    let back = plan.clone().reverse();
    let there = back.reverse();
    assert_eq!(format!("{:?}", there.instructions), format!("{:?}", plan.instructions));
}

#[test]
fn reverse_negates_both_directions() {
    let plan = MotorInstructions {
        instructions: vec![MotorMoveType::Diagonal(mm(40, true, true))],
    };
    let back = plan.reverse();
    match back.instructions[0] {
        MotorMoveType::Diagonal(m) => {
            assert!(!m.dir);
            assert!(!m.dir2);
            assert_eq!(m.len, 40);
            assert!(m.magnet);
        },
        _ => panic!(),
    }
}

#[test]
fn ease_merges_equal_attributes() {
    let mut plan = MotorInstructions {
        instructions: vec![
            MotorMoveType::StraightX(mm(100, true, true)),
            MotorMoveType::StraightX(mm(50, true, true)),
            MotorMoveType::StraightX(mm(25, false, true)),
            MotorMoveType::StraightY(mm(25, false, true)),
        ],
    };
    plan.ease();
    assert_eq!(plan.instructions.len(), 3);
    match plan.instructions[0] {
        MotorMoveType::StraightX(m) => {
            assert_eq!(m.len, 150);
            assert!(m.dir);
        },
        _ => panic!(),
    }
    // merging again changes nothing
    let once = format!("{:?}", plan.instructions);
    plan.ease();
    assert_eq!(format!("{:?}", plan.instructions), once);
}

#[test]
fn write_to_pos_accumulates() {
    let plan = MotorInstructions {
        instructions: vec![
            MotorMoveType::StraightX(mm(100, true, false)),
            MotorMoveType::Diagonal(mm(40, false, true)),
        ],
    };
    let mut pos = PosNow::new();
    let plan = plan.write_to_pos(&mut pos);
    assert_eq!(pos.xmtr, 60);
    assert_eq!(pos.ymtr, 40);
    assert_eq!(plan.instructions.len(), 2);
}

#[test]
fn pawn_move_plan_is_one_straight_segment() {
    let mut pos = Position::new_reset();
    let pre = pos.clone();
    let moves = pos.update(((6, 7), (4, 7)), "e2e4").unwrap();
    let mut head = PosNow::new();
    let plan = pre.pathfinding(&moves, &mut head).unwrap();
    // a no-magnet repositioning from home, then the single straight move
    let last = plan.instructions.last().unwrap();
    match last {
        MotorMoveType::StraightY(m) => {
            assert_eq!(m.len, 1273);
            assert!(m.magnet);
            assert!(matches!(m.speed, Speeds::NMovespeed));
        },
        _ => panic!("expected a straight y move, got {:?}", last),
    }
    for instr in plan.instructions.iter().take(plan.instructions.len() - 1) {
        let inner = match instr {
            MotorMoveType::StraightX(m) => m,
            MotorMoveType::StraightY(m) => m,
            MotorMoveType::Diagonal(m) => m,
        };
        assert!(!inner.magnet);
    }
}

#[test]
fn knight_move_plans_through_the_gap() {
    let mut pos = Position::new_reset();
    let pre = pos.clone();
    let moves = pos.update(((7, 9), (5, 8)), "g1f3").unwrap();
    let mut head = PosNow::new();
    let plan = pre.pathfinding(&moves, &mut head).unwrap();
    assert!(plan.instructions.len() >= 2);
}

#[test]
fn capture_plan_visits_graveyard_first() {
    let mut pos = Position::from_fen("4k3/8/8/8/3p4/4P3/8/4K3 w - - 0 1").unwrap();
    let pre = pos.clone();
    let moves = pos.update(((5, 7), (4, 6)), "e3d4").unwrap();
    let mut head = PosNow::new();
    let plan = pre.pathfinding(&moves, &mut head).unwrap();
    assert!(plan.instructions.len() >= 2);
    // the head ends at the move's destination d4 = (4, 6)
    let f = head.sfh_to_field();
    assert_eq!(f, Field(2 * 6 - 13, 7 - 2 * 4));
}

#[test]
fn castling_plan_is_bounded_manoeuvre() {
    let mut pos = Position::from_fen("r3k2r/8/8/8/8/8/8/R3K2R w KQkq - 0 1").unwrap();
    let pre = pos.clone();
    let moves = pos.update(((7, 7), (7, 9)), "e1g1").unwrap();
    let mut head = PosNow::new();
    let plan = pre.pathfinding(&moves, &mut head).unwrap();
    assert!(plan.instructions.len() >= 5);
}

#[test]
fn staircase_paths_reach_the_target() {
    let h = OneFML::pf_hf(FieldUsize(1, 11), FieldUsize(5, 9));
    assert_eq!(h.0[0], FieldUsize(1, 11));
    assert_eq!(*h.0.last().unwrap(), FieldUsize(5, 9));
    assert_eq!(h.0.len(), 7);
    let v = OneFML::pf_vf(FieldUsize(1, 11), FieldUsize(5, 9));
    assert_eq!(v.0[0], FieldUsize(1, 11));
    assert_eq!(*v.0.last().unwrap(), FieldUsize(5, 9));
    // horizontal-first and vertical-first visit different corners
    assert_ne!(format!("{:?}", h.0), format!("{:?}", v.0));
}

#[test]
fn path_ease_collapses_detours() {
    let mut p = OneFML::new();
    p.add(FieldUsize(4, 4));
    p.add(FieldUsize(4, 5));
    p.add(FieldUsize(4, 6));
    p.add(FieldUsize(5, 5));
    let eased = p.ease();
    assert_eq!(eased.0[0], FieldUsize(4, 4));
    assert_eq!(*eased.0.last().unwrap(), FieldUsize(5, 5));
    assert!(eased.0.len() <= 2);
}

#[test]
fn staircases_reach_the_first_row_and_column() {
    let h = OneFML::pf_hf(FieldUsize(3, 2), FieldUsize(0, 0));
    assert_eq!(h.0[0], FieldUsize(3, 2));
    assert_eq!(*h.0.last().unwrap(), FieldUsize(0, 0));
    assert_eq!(h.0.len(), 6);
    let v = OneFML::pf_vf(FieldUsize(3, 2), FieldUsize(0, 0));
    assert_eq!(*v.0.last().unwrap(), FieldUsize(0, 0));
    assert_eq!(v.0.len(), 6);
}

#[test]
fn offset_nudge_goes_out_and_back() {
    let n = MotorInstructions::offset_nudge(Some(true), None, 212, true);
    assert_eq!(n.instructions.len(), 2);
    match (&n.instructions[0], &n.instructions[1]) {
        (MotorMoveType::StraightX(a), MotorMoveType::StraightX(b)) => {
            assert!(a.dir && !b.dir);
            assert_eq!(a.len, 212);
            assert_eq!(b.len, 212);
            assert!(a.magnet && !b.magnet);
            assert!(matches!(a.speed, Speeds::Offsetspeed));
        },
        _ => panic!(),
    }
    let mut pos = PosNow::new();
    let n = n.write_to_pos(&mut pos);
    assert_eq!(pos.xmtr, 0);
    assert_eq!(pos.ymtr, 0);
    assert_eq!(n.instructions.len(), 2);
}
