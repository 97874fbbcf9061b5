//! Rules engine and input synchronisation for a two-player 9x9 stone game
//! driven by rollback networking.
use vstd::prelude::*;

pub mod board;
pub mod capture;
pub mod codec;
pub mod display;
pub mod game;
pub mod sync;

verus! {

} // verus!
