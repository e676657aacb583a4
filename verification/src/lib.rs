//! Motion-planning core for an automated chess board: an electromagnet head
//! under an 8x14 extended board (8 playing files plus graveyard columns on
//! both sides) moves pieces by stepper-motor instructions. This crate holds
//! the verified logic: the board model with FEN round-tripping, the occupancy
//! map, the pathfinder, and the motor-instruction planner. Driving the pins
//! and talking to the chess engine happens outside.

pub mod coords;
pub mod motor;
pub mod bitlist;
pub mod board;
pub mod engine;
pub mod path;
pub mod pieces;
pub mod text;

use vstd::prelude::*;

verus! {

} // verus!
