//! The state of a hand of limit hold'em: streets, actions, seats, pots and cards.
use vstd::prelude::*;

verus! {

/// The betting round a hand is in.
#[derive(Copy, Clone, Debug, PartialEq, Eq, Structural)]
pub enum Street {
    Preflop,
    Flop,
    Turn,
    River,
}

/// A betting decision of the player to act.
#[derive(Copy, Clone, Debug, PartialEq, Eq, Structural)]
pub enum Action {
    Fold,
    Call,
    Raise,
    Check,
}

/// A (side) pot: how many chips it holds and the indices of the players who may win it.
#[derive(Clone, Debug)]
pub struct Pot {
    pub amnt: u32,
    pub eligible: Vec<u32>,
}

impl View for Pot {
    type V = (u32, Seq<u32>);

    open spec fn view(&self) -> (u32, Seq<u32>) {
        (self.amnt, self.eligible@)
    }
}

/// One seat at the table.
#[derive(Copy, Clone, Debug)]
pub struct PlayerState {
    pub idx: u8,
    pub hole: [i32; 2],
    pub money_behind: u32,
    pub money_committed_curr_round: u32,
    pub total_committed: u32,
    pub folded: bool,
}

/// The whole table: seats, whose turn it is, the betting round, the pots and the cards.
#[derive(Clone, Debug)]
pub struct GameState {
    pub players: Vec<PlayerState>,
    pub curr_idx: usize,
    pub street: Street,
    pub current_bet: u32,
    pub raises_left: u8,
    pub pot: u32,
    pub side_pots: Vec<Pot>,
    pub deck: Vec<i32>,
    pub board: Vec<i32>,
    pub hero_idx: usize,
}

/// The abstract contents of a list of pots.
pub open spec fn pots_view(pots: Seq<Pot>) -> Seq<(u32, Seq<u32>)> {
    pots.map_values(|p: Pot| p@)
}

/// A player who has not folded and still has chips behind.
pub open spec fn can_act(p: PlayerState) -> bool {
    !p.folded && p.money_behind > 0
}

/// A player who has not folded and has put chips into the hand.
pub open spec fn in_pot(p: PlayerState) -> bool {
    !p.folded && p.total_committed > 0
}

/// How many players of `ps` satisfy `pred`.
pub open spec fn count_where(ps: Seq<PlayerState>, pred: spec_fn(PlayerState) -> bool) -> nat
    decreases ps.len(),
{
    if ps.len() == 0 {
        0
    } else {
        count_where(ps.drop_last(), pred) + if pred(ps.last()) {
            1nat
        } else {
            0nat
        }
    }
}

/// How many players can still act.
pub open spec fn num_can_act(ps: Seq<PlayerState>) -> nat {
    count_where(ps, |p: PlayerState| can_act(p))
}

/// How many players have not folded.
pub open spec fn num_not_folded(ps: Seq<PlayerState>) -> nat {
    count_where(ps, |p: PlayerState| !p.folded)
}

/// The count is at most the number of seats, and zero exactly when no seat satisfies `pred`.
pub proof fn lemma_count_where_bounds(ps: Seq<PlayerState>, pred: spec_fn(PlayerState) -> bool)
    ensures
        count_where(ps, pred) <= ps.len(),
        count_where(ps, pred) == 0 <==> (forall|i: int| 0 <= i < ps.len() ==> !pred(#[trigger] ps[i])),
    decreases ps.len(),
{
    if ps.len() > 0 {
        lemma_count_where_bounds(ps.drop_last(), pred);
        if count_where(ps, pred) == 0 {
            assert forall|i: int| 0 <= i < ps.len() implies !pred(#[trigger] ps[i]) by {
                if i < ps.len() - 1 {
                    assert(ps[i] == ps.drop_last()[i]);
                }
            }
        }
        if forall|i: int| 0 <= i < ps.len() ==> !pred(#[trigger] ps[i]) {
            assert forall|i: int| 0 <= i < ps.drop_last().len() implies !pred(
                #[trigger] ps.drop_last()[i],
            ) by {
                assert(ps[i] == ps.drop_last()[i]);
            }
            assert(!pred(ps[ps.len() - 1]));
        }
    }
}

/// Counting over one more seat.
pub proof fn lemma_count_where_push(ps: Seq<PlayerState>, pred: spec_fn(PlayerState) -> bool, i: int)
    requires
        0 <= i < ps.len(),
    ensures
        count_where(ps.take(i + 1), pred) == count_where(ps.take(i), pred) + if pred(ps[i]) {
            1nat
        } else {
            0nat
        },
{
    assert(ps.take(i + 1).drop_last() =~= ps.take(i));
}

/// Counts the players who can still act.
pub(crate) fn count_can_act(ps: &Vec<PlayerState>) -> (n: usize)
    ensures
        n == num_can_act(ps@),
{
    let mut n: usize = 0;
    let mut i: usize = 0;
    while i < ps.len()
        invariant
            i <= ps.len(),
            n == count_where(ps@.take(i as int), |p: PlayerState| can_act(p)),
            n <= i,
        decreases ps.len() - i,
    {
        proof {
            lemma_count_where_push(ps@, |p: PlayerState| can_act(p), i as int);
        }
        if !ps[i].folded && ps[i].money_behind > 0 {
            n = n + 1;
        }
        i = i + 1;
    }
    assert(ps@.take(ps.len() as int) =~= ps@);
    n
}

/// Counts the players who have not folded.
pub(crate) fn count_not_folded(ps: &Vec<PlayerState>) -> (n: usize)
    ensures
        n == num_not_folded(ps@),
{
    let mut n: usize = 0;
    let mut i: usize = 0;
    while i < ps.len()
        invariant
            i <= ps.len(),
            n == count_where(ps@.take(i as int), |p: PlayerState| !p.folded),
            n <= i,
        decreases ps.len() - i,
    {
        proof {
            lemma_count_where_push(ps@, |p: PlayerState| !p.folded, i as int);
        }
        if !ps[i].folded {
            n = n + 1;
        }
        i = i + 1;
    }
    assert(ps@.take(ps.len() as int) =~= ps@);
    n
}

impl GameState {
    /// Two states hold the same values in every field.
    pub open spec fn same_as(self, other: GameState) -> bool {
        &&& self.players@ == other.players@
        &&& self.curr_idx == other.curr_idx
        &&& self.street == other.street
        &&& self.current_bet == other.current_bet
        &&& self.raises_left == other.raises_left
        &&& self.pot == other.pot
        &&& pots_view(self.side_pots@) == pots_view(other.side_pots@)
        &&& self.deck@ == other.deck@
        &&& self.board@ == other.board@
        &&& self.hero_idx == other.hero_idx
    }

    /// A field-by-field copy of the state.
    pub(crate) fn duplicate(&self) -> (r: GameState)
        ensures
            r.same_as(*self),
    {
        let mut pots: Vec<Pot> = Vec::new();
        let mut i: usize = 0;
        while i < self.side_pots.len()
            invariant
                i <= self.side_pots.len(),
                pots@.len() == i,
                forall|k: int| 0 <= k < i ==> #[trigger] pots@[k]@ == self.side_pots@[k]@,
            decreases self.side_pots.len() - i,
        {
            let src: &Pot = &self.side_pots[i];
            pots.push(Pot { amnt: src.amnt, eligible: src.eligible.clone() });
            i = i + 1;
        }
        assert(pots_view(pots@) =~= pots_view(self.side_pots@));
        GameState {
            players: self.players.clone(),
            curr_idx: self.curr_idx,
            street: self.street,
            current_bet: self.current_bet,
            raises_left: self.raises_left,
            pot: self.pot,
            side_pots: pots,
            deck: self.deck.clone(),
            board: self.board.clone(),
            hero_idx: self.hero_idx,
        }
    }
}

/// A two-seat table at the start of a hand: ten chips each, nothing bet, three raises allowed,
/// five cards left in the deck.
pub fn test_state() -> (s: GameState)
    ensures
        s.players@.len() == 2,
        s.players@[0] == (PlayerState {
            idx: 0,
            hole: s.players@[0].hole,
            money_behind: 10,
            money_committed_curr_round: 0,
            total_committed: 0,
            folded: false,
        }),
        s.players@[0].hole@ == seq![1i32, 2],
        s.players@[1] == (PlayerState {
            idx: 1,
            hole: s.players@[1].hole,
            money_behind: 10,
            money_committed_curr_round: 0,
            total_committed: 0,
            folded: false,
        }),
        s.players@[1].hole@ == seq![3i32, 4],
        s.curr_idx == 0,
        s.street == Street::Preflop,
        s.current_bet == 0,
        s.raises_left == 3,
        s.pot == 0,
        s.side_pots@.len() == 0,
        s.deck@ == seq![10i32, 11, 12, 13, 14],
        s.board@.len() == 0,
        s.hero_idx == 0,
{
    let mut players: Vec<PlayerState> = Vec::new();
    players.push(
        PlayerState {
            idx: 0,
            hole: [1, 2],
            money_behind: 10,
            money_committed_curr_round: 0,
            total_committed: 0,
            folded: false,
        },
    );
    players.push(
        PlayerState {
            idx: 1,
            hole: [3, 4],
            money_behind: 10,
            money_committed_curr_round: 0,
            total_committed: 0,
            folded: false,
        },
    );
    let mut deck: Vec<i32> = Vec::new();
    deck.push(10);
    deck.push(11);
    deck.push(12);
    deck.push(13);
    deck.push(14);
    let s = GameState {
        players,
        curr_idx: 0,
        street: Street::Preflop,
        current_bet: 0,
        raises_left: 3,
        pot: 0,
        side_pots: Vec::new(),
        deck,
        board: Vec::new(),
        hero_idx: 0,
    };
    proof {
        assert(s.players@[0].hole@ =~= seq![1i32, 2]);
        assert(s.players@[1].hole@ =~= seq![3i32, 4]);
        assert(s.deck@ =~= seq![10i32, 11, 12, 13, 14]);
    }
    s
}

} // verus!
