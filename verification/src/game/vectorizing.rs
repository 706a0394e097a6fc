//! The information set as it is fed to a network.
use vstd::prelude::*;
use crate::game::state::{Action, Street};

verus! {

/// A player's information set, in the form the encoder reads: hole cards, board, street, pot,
/// amount owed, raises left, position and the betting so far as (seat, action) pairs.
#[allow(dead_code)]
pub struct InfoSet {
    hole: [i32; 2],
    board: Vec<i32>,
    street: Street,
    pot: u32,
    to_call: u32,
    raises_left: u8,
    position: u8,
    betting_history: Option<Vec<(usize, Action)>>,
}

} // verus!
