//! Walking the game tree: what kind of node a state is, and moving past chance nodes.
use vstd::prelude::*;
use crate::game::node::NodeType;
use crate::game::state::{GameState, Street};
use crate::game::trns::{cards_for, round_complete, street_dealt};

verus! {

impl GameState {
    /// Moves past a finished betting round: unless the hand is over, when the betting is
    /// complete the next street is dealt.
    pub fn advance_state(&mut self)
        requires
            !old(self).terminal_spec() && round_complete(old(self).players@, old(self).current_bet)
                ==> cards_for(old(self).street) <= old(self).deck.len(),
        ensures
            if old(self).terminal_spec() || !round_complete(
                old(self).players@,
                old(self).current_bet,
            ) {
                final(self).same_as(*old(self))
            } else {
                street_dealt(*old(self), *final(self))
            },
    {
        if self.is_terminal() {
            return;
        }
        if self.betting_round_complete() {
            self.apply_street();
        }
    }

    /// The kind of node the state is: the end of the hand; a chance node when the betting is
    /// complete before the river; otherwise the decision of the player to act.
    pub fn node_type(&self) -> (r: NodeType)
        ensures
            r == if self.terminal_spec() {
                NodeType::Terminal
            } else if round_complete(self.players@, self.current_bet) && self.street != Street::River {
                NodeType::Chance
            } else {
                NodeType::Player(self.curr_idx)
            },
    {
        if self.is_terminal() {
            return NodeType::Terminal;
        } else if self.betting_round_complete() && self.street != Street::River {
            return NodeType::Chance;
        }
        NodeType::Player(self.curr_idx)
    }

    /// The state after the chance node: a copy with the next street dealt.
    pub fn sample(&self) -> (r: GameState)
        requires
            self.street != Street::River,
            cards_for(self.street) <= self.deck.len(),
        ensures
            street_dealt(*self, r),
    {
        let mut next_state: GameState = self.duplicate();
        next_state.apply_street();
        next_state
    }
}

} // verus!
