//! Kinds of nodes in the game tree.
use vstd::prelude::*;

verus! {

/// A node of the game tree: a player's decision (with the seat to act), a chance node where
/// cards are dealt, or the end of the hand.
#[derive(Copy, Clone, Debug, PartialEq, Eq, Structural)]
pub enum NodeType {
    Player(usize),
    Chance,
    Terminal,
}

} // verus!
