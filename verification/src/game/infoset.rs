//! What one player knows at a decision.
use vstd::prelude::*;
use crate::game::state::{Action, Street};

verus! {

/// A player's information set: its hole cards, the board, the street, the pot, what it owes,
/// the raises left, its position and, when kept, the betting so far as (seat, action) pairs.
#[allow(dead_code)]
pub struct InfoSet {
    hole: [i32; 2],
    board: Vec<i32>,
    street: Street,
    pot: u32,
    to_call: u32,
    raises_left: u8,
    position: u8,
    betting_history: Option<Vec<(usize, Action)>>,
}

} // verus!
