//! Constructors and updates for a seat.
use vstd::prelude::*;
use crate::game::state::PlayerState;

verus! {

impl PlayerState {
    /// A fresh seat: seat number 0, no cards (`[0, 0]`), 100 chips behind, nothing committed,
    /// not folded.
    pub fn default() -> (r: Self)
        ensures
            r == (PlayerState {
                idx: 0,
                hole: r.hole,
                money_behind: 100,
                money_committed_curr_round: 0,
                total_committed: 0,
                folded: false,
            }),
            r.hole@ == seq![0i32, 0],
    {
        let r = Self {
            idx: 0,
            hole: [0, 0],
            money_behind: 100,
            money_committed_curr_round: 0,
            total_committed: 0,
            folded: false,
        };
        assert(r.hole@ =~= seq![0i32, 0]);
        r
    }

    /// Gives the seat its two hole cards.
    pub fn set_hole_cards(&mut self, cards: [i32; 2])
        ensures
            *final(self) == (PlayerState { hole: cards, ..*old(self) }),
    {
        self.hole = cards;
    }

    /// Folds the seat's hand.
    pub fn fold(&mut self)
        ensures
            *final(self) == (PlayerState { folded: true, ..*old(self) }),
    {
        self.folded = true;
    }

    /// Sets the seat's number.
    pub fn set_position(&mut self, pos: u8)
        ensures
            *final(self) == (PlayerState { idx: pos, ..*old(self) }),
    {
        self.idx = pos;
    }
}

} // verus!
