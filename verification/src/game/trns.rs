//! How a state moves on: legal actions, betting, turns, streets, side pots and the payoff.
use vstd::prelude::*;
use crate::game::handeval::{eval_7hand, eval_7hand_in_table, table_walk_ok, valid_card, valid_cards};
use crate::game::pots::{
    computed_eval, hero_winnings, lemma_eligible_fits, table_eval, lemma_max_strength_facts, lemma_strength_push, lemma_winnings_prefix,
    lemma_winnings_push, max_strength, strength, winners_with,
    contribution_levels, eligible_at, lemma_tier_prefix, tier_total, increasing, insert_level,
    is_contribution_levels, lemma_eligible_facts, lemma_eligible_push, lemma_levels_are,
    level_below, pot_amount, side_pots_fit, side_pots_for,
};
use crate::game::state::{
    in_pot, lemma_count_where_push, Pot,
    count_can_act, count_not_folded, num_not_folded, lemma_count_where_bounds, num_can_act, pots_view, can_act, Action, GameState,
    PlayerState, Street,
};

verus! {

/// `x % n` for `0 <= x < 2n`, without division.
proof fn lemma_wrap(x: int, n: int)
    requires
        0 < n,
        0 <= x < 2 * n,
    ensures
        x % n == if x < n {
            x
        } else {
            x - n
        },
{
    if x < n {
        vstd::arithmetic::div_mod::lemma_small_mod(x as nat, n as nat);
    } else {
        vstd::arithmetic::div_mod::lemma_mod_sub_multiples_vanish(x, n);
        vstd::arithmetic::div_mod::lemma_small_mod((x - n) as nat, n as nat);
    }
}

/// The seat `k` places after `start`, going round the table.
pub open spec fn seat_after(start: int, k: int, n: int) -> int {
    (start + k) % n
}

/// The first seat after `start` (at offset `k` or later, up to a full round) whose player
/// can act; `start` itself when there is none.
pub open spec fn scan_from(ps: Seq<PlayerState>, start: int, k: int) -> int
    decreases ps.len() + 1 - k,
{
    if k < 1 || k > ps.len() {
        start
    } else if can_act(ps[seat_after(start, k, ps.len() as int)]) {
        seat_after(start, k, ps.len() as int)
    } else {
        scan_from(ps, start, k + 1)
    }
}

/// Whose turn it is after the player in seat `curr` has acted.
pub open spec fn next_to_act(ps: Seq<PlayerState>, curr: int) -> int {
    if num_can_act(ps) <= 1 {
        curr
    } else {
        scan_from(ps, curr, 1)
    }
}

/// The amount still needed to match the current bet, floored at zero.
pub open spec fn owed(current_bet: u32, p: PlayerState) -> int {
    if p.money_committed_curr_round >= current_bet {
        0
    } else {
        current_bet - p.money_committed_curr_round
    }
}

/// The smaller of two integers.
pub open spec fn min_int(a: int, b: int) -> int {
    if a <= b {
        a
    } else {
        b
    }
}

/// Every player who has not folded and has chips left has matched the current bet.
pub open spec fn round_complete(ps: Seq<PlayerState>, current_bet: u32) -> bool {
    forall|i: int|
        0 <= i < ps.len() && !(#[trigger] ps[i]).folded && ps[i].money_behind > 0
            ==> ps[i].money_committed_curr_round == current_bet
}

/// A player after paying `amount` chips into the pot.
pub open spec fn pay(p: PlayerState, amount: int) -> PlayerState {
    PlayerState {
        money_behind: (p.money_behind - amount) as u32,
        money_committed_curr_round: (p.money_committed_curr_round + amount) as u32,
        total_committed: (p.total_committed + amount) as u32,
        ..p
    }
}

/// The board after `k` cards are dealt from the top (the end) of the deck.
pub open spec fn board_after_draw(board: Seq<i32>, deck: Seq<i32>, k: int) -> Seq<i32> {
    board + deck.subrange(deck.len() - k, deck.len() as int).reverse()
}

/// How many cards a street change deals.
pub open spec fn cards_for(street: Street) -> int {
    match street {
        Street::Preflop => 3,
        _ => 1,
    }
}

/// The street that follows `street`.
pub open spec fn next_street(street: Street) -> Street {
    match street {
        Street::Preflop => Street::Flop,
        Street::Flop => Street::Turn,
        _ => Street::River,
    }
}

/// `b` is `a` moved to the next street: this round's bets cleared, the bet reset, three raises
/// allowed again, and three cards (after the preflop) or one dealt from the top of the deck.
pub open spec fn street_dealt(a: GameState, b: GameState) -> bool {
    &&& b.players@.len() == a.players@.len()
    &&& forall|i: int|
        0 <= i < a.players@.len() ==> #[trigger] b.players@[i] == (PlayerState {
            money_committed_curr_round: 0,
            ..a.players@[i]
        })
    &&& b.street == next_street(a.street)
    &&& b.current_bet == 0
    &&& b.raises_left == 3
    &&& b.board@ == board_after_draw(a.board@, a.deck@, cards_for(a.street))
    &&& b.deck@ == a.deck@.take(a.deck@.len() - cards_for(a.street))
    &&& b.curr_idx == a.curr_idx
    &&& b.pot == a.pot
    &&& pots_view(b.side_pots@) == pots_view(a.side_pots@)
    &&& b.hero_idx == a.hero_idx
}

/// The contents of the hand-rank table handed in, if any.
pub open spec fn table_view(table: Option<&[i32]>) -> Option<Seq<i32>> {
    match table {
        Some(hr) => Some(hr@),
        None => None,
    }
}

/// The evaluator that ranks the hands: the walk of the given hand-rank table, or the crate's
/// own `hand_value` when there is none.
pub open spec fn evaluator(table: Option<Seq<i32>>) -> spec_fn(Seq<i32>) -> int {
    match table {
        Some(hr) => table_eval(hr),
        None => computed_eval(),
    }
}

/// The evaluator selected by `table` can rank the hand of `hole` with `board`: without a table,
/// every card is a card number; with one, its walk over the seven cards stays in the table.
pub open spec fn hand_rankable(table: Option<Seq<i32>>, hole: Seq<i32>, board: Seq<i32>) -> bool {
    match table {
        Some(hr) => table_walk_ok(hr, hole + board),
        None => valid_cards(hole) && valid_cards(board),
    }
}

impl GameState {
    /// Chips one raise adds: one on the first two streets, two on the last two.
    pub open spec fn raise_size_spec(&self) -> u32 {
        match self.street {
            Street::Preflop | Street::Flop => 1,
            Street::Turn | Street::River => 2,
        }
    }

    /// The player whose turn it is.
    pub open spec fn actor(&self) -> PlayerState {
        self.players@[self.curr_idx as int]
    }

    /// The actions the player to act may take, in the order they are offered.
    pub open spec fn legal_actions_spec(&self) -> Seq<Action> {
        let p = self.actor();
        let to_call = owed(self.current_bet, p);
        if p.folded || p.money_behind == 0 {
            seq![]
        } else if to_call == 0 {
            if self.raises_left > 0 {
                seq![Action::Check, Action::Raise]
            } else {
                seq![Action::Check]
            }
        } else if self.raises_left > 0 && p.money_behind > to_call {
            seq![Action::Fold, Action::Call, Action::Raise]
        } else {
            seq![Action::Fold, Action::Call]
        }
    }

    /// Chips the player to act puts in with action `a`.
    pub open spec fn paid(&self, a: Action) -> int {
        let p = self.actor();
        match a {
            Action::Call => min_int(self.current_bet - p.money_committed_curr_round, p.money_behind as int),
            Action::Raise => min_int(
                self.current_bet - p.money_committed_curr_round + self.raise_size_spec(),
                p.money_behind as int,
            ),
            _ => 0,
        }
    }

    /// The player to act after taking action `a` (before the turn moves on).
    pub open spec fn acted(&self, a: Action) -> PlayerState {
        let p = self.actor();
        match a {
            Action::Fold => PlayerState { folded: true, ..p },
            Action::Call | Action::Raise => pay(p, self.paid(a)),
            Action::Check => p,
        }
    }

    /// Action `a` can be applied without an arithmetic fault: the seat exists, a call or raise
    /// does not undercut chips already committed, no counter overflows, and a raise has a raise
    /// left to use.
    pub open spec fn action_fits(&self, a: Action) -> bool {
        let p = self.actor();
        &&& self.curr_idx < usize::MAX
        &&& a != Action::Check ==> self.curr_idx < self.players.len()
        &&& (a == Action::Call || a == Action::Raise) ==> {
            &&& p.money_committed_curr_round <= self.current_bet
            &&& p.money_committed_curr_round + self.paid(a) <= u32::MAX
            &&& p.total_committed + self.paid(a) <= u32::MAX
            &&& self.pot + self.paid(a) <= u32::MAX
        }
        &&& a == Action::Raise ==> {
            &&& self.current_bet - p.money_committed_curr_round + self.raise_size_spec() <= u32::MAX
            &&& self.current_bet + self.raise_size_spec() <= u32::MAX
            &&& self.raises_left >= 1
        }
    }

    /// The hand is over: at most one player has not folded, or the betting is complete and
    /// either it is the river or fewer than two players can still act.
    pub open spec fn terminal_spec(&self) -> bool {
        ||| num_not_folded(self.players@) <= 1
        ||| self.street == Street::River && round_complete(self.players@, self.current_bet)
        ||| num_can_act(self.players@) < 2 && round_complete(self.players@, self.current_bet)
    }

    /// Chips one raise adds on the current street.
    pub fn raise_size(&self) -> (r: u32)
        ensures
            r == self.raise_size_spec(),
    {
        match self.street {
            Street::Preflop | Street::Flop => 1,
            Street::Turn | Street::River => 2,
        }
    }

    /// The actions open to the player to act. None for a player who folded or is all in;
    /// check (and raise while raises remain) when nothing is owed; otherwise fold, call, and
    /// raise while raises remain and the player has more than the call.
    pub fn legal_actions(&self) -> (r: Vec<Action>)
        requires
            self.curr_idx < self.players.len(),
        ensures
            r@ == self.legal_actions_spec(),
    {
        let p: PlayerState = self.players[self.curr_idx];
        if p.folded || p.money_behind == 0 {
            return Vec::new();
        }
        let to_call: u32 = self.current_bet.saturating_sub(p.money_committed_curr_round);
        if to_call == 0 {
            let mut actions: Vec<Action> = Vec::new();
            actions.push(Action::Check);
            if self.raises_left > 0 && p.money_behind > 0 {
                actions.push(Action::Raise);
            }
            assert(actions@ =~= self.legal_actions_spec());
            return actions;
        }
        let mut actions: Vec<Action> = Vec::new();
        actions.push(Action::Fold);
        actions.push(Action::Call);
        if self.raises_left > 0 && p.money_behind > to_call {
            actions.push(Action::Raise);
        }
        assert(actions@ =~= self.legal_actions_spec());
        actions
    }

    /// Deals `amnt` cards from the top (the end) of the deck onto the board, one at a time.
    pub fn draw_cards(&mut self, amnt: usize)
        requires
            amnt <= old(self).deck.len(),
        ensures
            final(self).board@ == board_after_draw(old(self).board@, old(self).deck@, amnt as int),
            final(self).deck@ == old(self).deck@.take(old(self).deck.len() - amnt),
            final(self).players@ == old(self).players@,
            final(self).curr_idx == old(self).curr_idx,
            final(self).street == old(self).street,
            final(self).current_bet == old(self).current_bet,
            final(self).raises_left == old(self).raises_left,
            final(self).pot == old(self).pot,
            pots_view(final(self).side_pots@) == pots_view(old(self).side_pots@),
            final(self).hero_idx == old(self).hero_idx,
    {
        let ghost d0 = self.deck@;
        let ghost b0 = self.board@;
        let mut i: usize = 0;
        while i < amnt
            invariant
                i <= amnt,
                amnt <= d0.len(),
                self.deck@ == d0.take(d0.len() - i),
                self.board@ == board_after_draw(b0, d0, i as int),
                self.players@ == old(self).players@,
                self.curr_idx == old(self).curr_idx,
                self.street == old(self).street,
                self.current_bet == old(self).current_bet,
                self.raises_left == old(self).raises_left,
                self.pot == old(self).pot,
                pots_view(self.side_pots@) == pots_view(old(self).side_pots@),
                self.hero_idx == old(self).hero_idx,
            decreases amnt - i,
        {
            let card: i32 = self.deck.pop().unwrap();
            self.board.push(card);
            proof {
                assert(card == d0[d0.len() - i - 1]);
                assert(self.deck@ =~= d0.take(d0.len() - (i + 1)));
                assert(self.board@ =~= board_after_draw(b0, d0, i + 1));
            }
            i = i + 1;
        }
    }

    /// Whether the betting round is over: every player still in with chips behind has matched
    /// the current bet.
    pub fn betting_round_complete(&self) -> (r: bool)
        ensures
            r == round_complete(self.players@, self.current_bet),
    {
        let mut i: usize = 0;
        while i < self.players.len()
            invariant
                i <= self.players.len(),
                forall|j: int|
                    0 <= j < i && !(#[trigger] self.players@[j]).folded
                        && self.players@[j].money_behind > 0
                        ==> self.players@[j].money_committed_curr_round == self.current_bet,
            decreases self.players.len() - i,
        {
            let p: PlayerState = self.players[i];
            if !p.folded {
                if p.money_behind > 0 && p.money_committed_curr_round != self.current_bet {
                    return false;
                }
            }
            i = i + 1;
        }
        true
    }

    /// Passes the turn to the next player round the table who can act; leaves it where it is
    /// when at most one player can act.
    pub fn move_turn(&mut self)
        requires
            old(self).curr_idx < usize::MAX,
        ensures
            final(self).curr_idx == next_to_act(old(self).players@, old(self).curr_idx as int),
            final(self).players@ == old(self).players@,
            final(self).street == old(self).street,
            final(self).current_bet == old(self).current_bet,
            final(self).raises_left == old(self).raises_left,
            final(self).pot == old(self).pot,
            pots_view(final(self).side_pots@) == pots_view(old(self).side_pots@),
            final(self).deck@ == old(self).deck@,
            final(self).board@ == old(self).board@,
            final(self).hero_idx == old(self).hero_idx,
    {
        let n: usize = self.players.len();
        let players_able_to_act: usize = count_can_act(&self.players);
        if players_able_to_act <= 1 {
            return;
        }
        let ghost ps = self.players@;
        let ghost start = self.curr_idx as int;
        proof {
            lemma_count_where_bounds(ps, |p: PlayerState| can_act(p));
        }
        let ghost j = choose|j: int| 0 <= j < ps.len() && can_act(ps[j]);
        assert(can_act(ps[j]));
        // the offset of an able seat from the start, in 1..=n
        let ghost dj: int = if j > start % (n as int) {
            j - start % (n as int)
        } else {
            j - start % (n as int) + n
        };
        proof {
            vstd::arithmetic::div_mod::lemma_fundamental_div_mod(start, n as int);
            assert(0 <= start % (n as int) < n) by {
                vstd::arithmetic::div_mod::lemma_mod_bound(start, n as int);
            }
            assert(seat_after(start, dj, n as int) == j) by {
                let q: int = start / (n as int);
                let s0: int = start % (n as int);
                assert(start + dj == (n as int) * q + (s0 + dj));
                vstd::arithmetic::div_mod::lemma_mod_multiples_vanish(q, s0 + dj, n as int);
                lemma_wrap(s0 + dj, n as int);
            }
        }
        let ghost mut k: int = 0;
        loop
            invariant_except_break
                0 <= k < dj,
                k == 0 ==> self.curr_idx == start,
                k > 0 ==> self.curr_idx == seat_after(start, k, n as int),
                scan_from(ps, start, 1) == scan_from(ps, start, k + 1),
            invariant
                n == self.players.len(),
                n == ps.len(),
                n >= 2,
                self.players@ == ps,
                1 <= dj <= n,
                seat_after(start, dj, n as int) == j,
                can_act(ps[j]),
                0 <= j < n,
                self.street == old(self).street,
                self.current_bet == old(self).current_bet,
                self.raises_left == old(self).raises_left,
                self.pot == old(self).pot,
                pots_view(self.side_pots@) == pots_view(old(self).side_pots@),
                self.deck@ == old(self).deck@,
                self.board@ == old(self).board@,
                self.hero_idx == old(self).hero_idx,
                start == old(self).curr_idx,
                start < usize::MAX,
            ensures
                self.curr_idx == scan_from(ps, start, 1),
                self.players@ == ps,
                self.street == old(self).street,
                self.current_bet == old(self).current_bet,
                self.raises_left == old(self).raises_left,
                self.pot == old(self).pot,
                pots_view(self.side_pots@) == pots_view(old(self).side_pots@),
                self.deck@ == old(self).deck@,
                self.board@ == old(self).board@,
                self.hero_idx == old(self).hero_idx,
            decreases dj - k,
        {
            let prev: usize = self.curr_idx;
            self.curr_idx = (self.curr_idx + 1) % n;
            proof {
                if k > 0 {
                    vstd::arithmetic::div_mod::lemma_add_mod_noop(start + k, 1, n as int);
                    vstd::arithmetic::div_mod::lemma_mod_twice(start + k, n as int);
                    vstd::arithmetic::div_mod::lemma_small_mod(1, n as nat);
                    vstd::arithmetic::div_mod::lemma_mod_bound(start + k, n as int);
                    vstd::arithmetic::div_mod::lemma_add_mod_noop(prev as int, 1, n as int);
                }
                assert(self.curr_idx == seat_after(start, k + 1, n as int));
            }
            let p: PlayerState = self.players[self.curr_idx];
            if !p.folded && p.money_behind > 0 {
                assert(scan_from(ps, start, k + 1) == seat_after(start, k + 1, n as int));
                break;
            }
            proof {
                assert(k + 1 != dj);
                k = k + 1;
            }
        }
    }

    /// The state after the player to act takes action `a`: a fold marks the player folded; a
    /// call pays what is owed (or everything left); a raise pays what is owed plus one raise
    /// (or everything left), lifts the bet by one raise and uses up a raise; a check changes
    /// nothing. Chips paid go into the pot. Then the turn moves on.
    pub fn apply_action(&self, a: &Action) -> (r: GameState)
        requires
            self.action_fits(*a),
        ensures
            r.players@ == if *a == Action::Check {
                self.players@
            } else {
                self.players@.update(self.curr_idx as int, self.acted(*a))
            },
            r.curr_idx == next_to_act(r.players@, self.curr_idx as int),
            r.street == self.street,
            r.current_bet == self.current_bet + if *a == Action::Raise {
                self.raise_size_spec()
            } else {
                0
            },
            r.raises_left == self.raises_left - if *a == Action::Raise {
                1int
            } else {
                0
            },
            r.pot == self.pot + self.paid(*a),
            pots_view(r.side_pots@) == pots_view(self.side_pots@),
            r.deck@ == self.deck@,
            r.board@ == self.board@,
            r.hero_idx == self.hero_idx,
    {
        let mut next_state: GameState = self.duplicate();
        let idx: usize = next_state.curr_idx;
        match a {
            Action::Call => {
                let mut player: PlayerState = next_state.players[idx];
                let to_call: u32 = next_state.current_bet - player.money_committed_curr_round;
                let amount: u32 = if to_call <= player.money_behind {
                    to_call
                } else {
                    player.money_behind
                };
                player.money_behind = player.money_behind - amount;
                player.money_committed_curr_round = player.money_committed_curr_round + amount;
                player.total_committed = player.total_committed + amount;
                next_state.players.set(idx, player);
                next_state.pot = next_state.pot + amount;
            },
            Action::Fold => {
                let mut player: PlayerState = next_state.players[idx];
                player.folded = true;
                next_state.players.set(idx, player);
            },
            Action::Raise => {
                let raise_amount: u32 = next_state.raise_size();
                let mut player: PlayerState = next_state.players[idx];
                let to_call: u32 = next_state.current_bet - player.money_committed_curr_round;
                let total: u32 = to_call + raise_amount;
                let paid: u32 = if total <= player.money_behind {
                    total
                } else {
                    player.money_behind
                };
                player.money_behind = player.money_behind - paid;
                player.money_committed_curr_round = player.money_committed_curr_round + paid;
                player.total_committed = player.total_committed + paid;
                next_state.players.set(idx, player);
                next_state.current_bet = next_state.current_bet + raise_amount;
                next_state.raises_left = next_state.raises_left - 1;
                next_state.pot = next_state.pot + paid;
            },
            Action::Check => {},
        }
        next_state.move_turn();
        next_state
    }

    /// Moves the hand to the next street: clears this round's bets, resets the bet and the
    /// raises (to three) and deals three cards after the preflop, one after the flop and one
    /// after the turn.
    pub fn apply_street(&mut self)
        requires
            old(self).street != Street::River,
            cards_for(old(self).street) <= old(self).deck.len(),
        ensures
            street_dealt(*old(self), *final(self)),
    {
        let mut i: usize = 0;
        while i < self.players.len()
            invariant
                i <= self.players.len(),
                self.players@.len() == old(self).players@.len(),
                forall|k: int|
                    0 <= k < i ==> #[trigger] self.players@[k] == (PlayerState {
                        money_committed_curr_round: 0,
                        ..old(self).players@[k]
                    }),
                forall|k: int| i <= k < self.players@.len() ==> #[trigger] self.players@[k] == old(self).players@[k],
                self.street == old(self).street,
                self.deck@ == old(self).deck@,
                self.board@ == old(self).board@,
                self.curr_idx == old(self).curr_idx,
                self.pot == old(self).pot,
                pots_view(self.side_pots@) == pots_view(old(self).side_pots@),
                self.hero_idx == old(self).hero_idx,
            decreases self.players.len() - i,
        {
            let mut p: PlayerState = self.players[i];
            p.money_committed_curr_round = 0;
            self.players.set(i, p);
            i = i + 1;
        }
        self.current_bet = 0;
        self.raises_left = 3;
        match self.street {
            Street::Preflop => {
                self.draw_cards(3);
                self.street = Street::Flop;
            },
            Street::Flop => {
                self.draw_cards(1);
                self.street = Street::Turn;
            },
            Street::Turn => {
                self.draw_cards(1);
                self.street = Street::River;
            },
            Street::River => {},
        }
    }

    /// The seven cards of player `p`: the two hole cards, then the five board cards.
    pub fn get_cards(&self, p: usize) -> (r: [i32; 7])
        requires
            p < self.players.len(),
            self.board.len() == 5,
        ensures
            r@ == self.players@[p as int].hole@ + self.board@,
    {
        let h: [i32; 2] = self.players[p].hole;
        let result: [i32; 7] = [
            h[0],
            h[1],
            self.board[0],
            self.board[1],
            self.board[2],
            self.board[3],
            self.board[4],
        ];
        assert(result@ =~= self.players@[p as int].hole@ + self.board@);
        result
    }

    /// The hand is over when at most one player has not folded, when the river betting is
    /// complete, or when fewer than two players can still act and the betting is complete.
    pub fn is_terminal(&self) -> (r: bool)
        ensures
            r == self.terminal_spec(),
    {
        let active: usize = count_not_folded(&self.players);
        if active <= 1 {
            return true;
        }
        if self.street == Street::River && self.betting_round_complete() {
            return true;
        }
        let players_with_chips: usize = count_can_act(&self.players);
        if players_with_chips < 2 && self.betting_round_complete() {
            return true;
        }
        false
    }

    /// Rebuilds the side pots from what each player has committed in the hand. Each distinct
    /// total committed by a player still in the pot (not folded, something committed) is a
    /// level; taking the levels from lowest up, a pot holds what every player, folded ones
    /// included, committed between the previous level and this one (the top pot also takes
    /// anything committed above the highest level), and is open to the players still in the pot
    /// who reached the level. So folded players' chips stay in the pots.
    pub fn side_pot_builder(&mut self)
        requires
            side_pots_fit(old(self).players@),
        ensures
            pots_view(final(self).side_pots@) == side_pots_for(old(self).players@),
            final(self).players@ == old(self).players@,
            final(self).curr_idx == old(self).curr_idx,
            final(self).street == old(self).street,
            final(self).current_bet == old(self).current_bet,
            final(self).raises_left == old(self).raises_left,
            final(self).pot == old(self).pot,
            final(self).deck@ == old(self).deck@,
            final(self).board@ == old(self).board@,
            final(self).hero_idx == old(self).hero_idx,
    {
        self.side_pots.clear();
        let ghost ps = self.players@;
        let n: usize = self.players.len();
        let mut levels: Vec<u32> = Vec::new();
        let mut i: usize = 0;
        while i < n
            invariant
                i <= n,
                n == ps.len(),
                self.players@ == ps,
                increasing(levels@),
                forall|x: u32|
                    levels@.contains(x) <==> exists|j: int|
                        0 <= j < i && in_pot(#[trigger] ps[j]) && ps[j].total_committed == x,
            decreases n - i,
        {
            let p: PlayerState = self.players[i];
            let ghost before = levels@;
            if !p.folded && p.total_committed > 0 {
                insert_level(&mut levels, p.total_committed);
            }
            proof {
                assert forall|x: u32| levels@.contains(x) <==> exists|j: int|
                    0 <= j < i + 1 && in_pot(#[trigger] ps[j]) && ps[j].total_committed == x by {
                    if levels@.contains(x) && !before.contains(x) {
                        assert(in_pot(ps[i as int]) && ps[i as int].total_committed == x);
                    }
                    if exists|j: int| 0 <= j < i + 1 && in_pot(#[trigger] ps[j]) && ps[j].total_committed == x {
                        let j = choose|j: int| 0 <= j < i + 1 && in_pot(#[trigger] ps[j]) && ps[j].total_committed == x;
                        if j < i {
                            assert(before.contains(x));
                        }
                    }
                }
            }
            i = i + 1;
        }
        proof {
            lemma_levels_are(ps, levels@);
        }
        let ghost lv = levels@;
        let ghost target = side_pots_for(ps);
        let mut tier_prev: u32 = 0;
        let mut k: usize = 0;
        while k < levels.len()
            invariant
                k <= levels.len(),
                lv == levels@,
                lv == contribution_levels(ps),
                is_contribution_levels(ps, lv),
                target == side_pots_for(ps),
                side_pots_fit(ps),
                n == ps.len(),
                self.players@ == ps,
                tier_prev == level_below(lv, k as int),
                pots_view(self.side_pots@) == target.take(k as int),
                self.curr_idx == old(self).curr_idx,
                self.street == old(self).street,
                self.current_bet == old(self).current_bet,
                self.raises_left == old(self).raises_left,
                self.pot == old(self).pot,
                self.deck@ == old(self).deck@,
                self.board@ == old(self).board@,
                self.hero_idx == old(self).hero_idx,
            decreases levels.len() - k,
        {
            let level: u32 = levels[k];
            proof {
                assert(lv.contains(level));
                let j = choose|j: int| 0 <= j < ps.len() && in_pot(#[trigger] ps[j]) && ps[j].total_committed == level;
                assert(level > 0);
                if k > 0 {
                    assert(lv[k - 1] < lv[k as int]);
                }
                lemma_eligible_facts(ps, level as int);
                assert(in_pot(ps[j]) && ps[j].total_committed >= level);
                assert(eligible_at(ps, level as int).len() > 0);
                assert(pot_amount(ps, lv, k as int) <= u32::MAX);
                assert(pot_amount(ps, lv, k as int) == tier_total(ps, tier_prev as int, level as int, k + 1 == lv.len()));
            }
            let is_top: bool = k + 1 == levels.len();
            let ghost top = is_top;
            let mut eligible: Vec<u32> = Vec::new();
            let mut amnt: u32 = 0;
            let mut t: usize = 0;
            while t < n
                invariant
                    t <= n,
                    n == ps.len(),
                    self.players@ == ps,
                    0 <= tier_prev < level,
                    top == is_top,
                    eligible@ == eligible_at(ps.take(t as int), level as int),
                    amnt == tier_total(ps.take(t as int), tier_prev as int, level as int, top),
                    tier_total(ps, tier_prev as int, level as int, top) <= u32::MAX,
                decreases n - t,
            {
                proof {
                    lemma_eligible_push(ps, level as int, t as int);
                    lemma_tier_prefix(ps, tier_prev as int, level as int, top, t as int);
                    lemma_tier_prefix(ps, tier_prev as int, level as int, top, t + 1);
                }
                let p: PlayerState = self.players[t];
                if !p.folded && p.total_committed > 0 && p.total_committed >= level {
                    eligible.push(p.idx as u32);
                }
                let tc: u32 = p.total_committed;
                let below: u32 = if tc <= tier_prev {
                    tc
                } else {
                    tier_prev
                };
                let share: u32 = if is_top {
                    tc - below
                } else {
                    (if tc <= level {
                        tc
                    } else {
                        level
                    }) - below
                };
                amnt = amnt + share;
                t = t + 1;
            }
            proof {
                assert(ps.take(n as int) =~= ps);
                assert(lv[k as int] == level);
                assert(lv.contains(level));
                let j = choose|j: int| 0 <= j < ps.len() && in_pot(#[trigger] ps[j]) && ps[j].total_committed == level;
                lemma_eligible_facts(ps, level as int);
                assert(in_pot(ps[j]) && ps[j].total_committed >= level);
            }
            let ghost prev = self.side_pots@;
            assert(target.len() == lv.len());
            assert(pots_view(prev).len() == k);
            assert(prev.len() == k);
            assert(eligible@.len() > 0);
            if !eligible.is_empty() {
                self.side_pots.push(Pot { amnt, eligible });
            }
            proof {
                assert(eligible@ == eligible_at(ps, level as int));
                assert(target[k as int] == (pot_amount(ps, lv, k as int) as u32, eligible_at(ps, level as int)));
                assert(self.side_pots@.last()@ == target[k as int]);
                assert(self.side_pots@.len() == k + 1);
                assert forall|q: int| 0 <= q < k implies #[trigger] self.side_pots@[q]@ == target[q] by {
                    assert(self.side_pots@[q] == prev[q]);
                    assert(pots_view(prev)[q] == target.take(k as int)[q]);
                }
                assert(pots_view(self.side_pots@) =~= target.take(k + 1));
            }
            tier_prev = level;
            k = k + 1;
        }
        proof {
            assert(target.take(lv.len() as int) =~= target);
        }
    }

    /// The board once it is dealt out to five cards from the top of the deck.
    pub open spec fn filled_board(&self) -> Seq<i32> {
        board_after_draw(self.board@, self.deck@, 5 - self.board@.len())
    }

    /// The deck once the board is dealt out to five cards.
    pub open spec fn filled_deck(&self) -> Seq<i32> {
        self.deck@.take(self.deck@.len() - (5 - self.board@.len()))
    }

    /// The hero (seat `hero_idx`).
    pub open spec fn hero(&self) -> PlayerState {
        self.players@[self.hero_idx as int]
    }

    /// What the hero takes from the side pots of this table, with the board dealt out and the
    /// hands ranked by the crate's own evaluator.
    pub open spec fn hero_winnings_spec(&self) -> int {
        self.hero_winnings_by(None)
    }

    /// What the hero takes from the side pots of this table, with the board dealt out and the
    /// hands ranked by the evaluator that `table` selects.
    pub open spec fn hero_winnings_by(&self, table: Option<Seq<i32>>) -> int {
        hero_winnings(
            self.players@,
            self.filled_board(),
            evaluator(table),
            side_pots_for(self.players@),
            self.hero_idx as int,
        )
    }

    /// The payoff by the crate's own evaluator can be worked out without a fault.
    pub open spec fn payoff_fits(&self) -> bool {
        self.payoff_fits_by(None)
    }

    /// The payoff can be worked out without a fault: the board can be dealt out to five cards,
    /// the hero's seat exists, a folded hero's loss can be negated, and otherwise the side pots
    /// and the hero's winnings fit their counters, and the seats named in the pots exist with
    /// hands that the evaluator selected by `table` can rank.
    pub open spec fn payoff_fits_by(&self, table: Option<Seq<i32>>) -> bool {
        let ps = self.players@;
        &&& self.board@.len() <= 5
        &&& self.board@.len() + self.deck@.len() >= 5
        &&& self.hero_idx < ps.len()
        &&& self.hero().folded ==> self.hero().total_committed != 0x8000_0000
        &&& !self.hero().folded ==> {
            &&& side_pots_fit(ps)
            &&& forall|i: int|
                0 <= i < ps.len() && in_pot(#[trigger] ps[i]) ==> ps[i].idx < ps.len()
                    && hand_rankable(table, ps[ps[i].idx as int].hole@, self.filled_board())
            &&& self.hero_winnings_by(table) <= u32::MAX
        }
    }

    /// The hero's result for the hand. The board is first dealt out to five cards. A folded
    /// hero loses what it committed. Otherwise the side pots are rebuilt; each pot goes in equal
    /// shares (rounded down) to the eligible players whose seven cards get the highest value from
    /// `eval_7hand` (the strongest hands), and the hero's result is its shares minus what it
    /// committed, negative when it wins back less.
    pub fn payoff(&mut self) -> (r: i32)
        requires
            old(self).payoff_fits(),
        ensures
            final(self).board@ == old(self).filled_board(),
            final(self).deck@ == old(self).filled_deck(),
            final(self).players@ == old(self).players@,
            final(self).curr_idx == old(self).curr_idx,
            final(self).street == old(self).street,
            final(self).current_bet == old(self).current_bet,
            final(self).raises_left == old(self).raises_left,
            final(self).pot == old(self).pot,
            final(self).hero_idx == old(self).hero_idx,
            old(self).hero().folded ==> r as int == -((old(self).hero().total_committed as i32) as int)
                && pots_view(final(self).side_pots@) == pots_view(old(self).side_pots@),
            !old(self).hero().folded ==> pots_view(final(self).side_pots@) == side_pots_for(
                old(self).players@,
            ) && r == (old(self).hero_winnings_spec() - old(self).hero().total_committed) as i32,
    {
        self.payoff_by(None)
    }

    /// The hero's result for the hand, as `payoff` works it out, with each hand ranked by walking
    /// the hand-rank lookup table `hr` (`eval_7hand_in_table`): the highest entry reached wins.
    pub fn payoff_with_table(&mut self, hr: &[i32]) -> (r: i32)
        requires
            old(self).payoff_fits_by(Some(hr@)),
        ensures
            final(self).board@ == old(self).filled_board(),
            final(self).deck@ == old(self).filled_deck(),
            final(self).players@ == old(self).players@,
            final(self).curr_idx == old(self).curr_idx,
            final(self).street == old(self).street,
            final(self).current_bet == old(self).current_bet,
            final(self).raises_left == old(self).raises_left,
            final(self).pot == old(self).pot,
            final(self).hero_idx == old(self).hero_idx,
            old(self).hero().folded ==> r as int == -((old(self).hero().total_committed as i32) as int)
                && pots_view(final(self).side_pots@) == pots_view(old(self).side_pots@),
            !old(self).hero().folded ==> pots_view(final(self).side_pots@) == side_pots_for(
                old(self).players@,
            ) && r == (old(self).hero_winnings_by(Some(hr@)) - old(self).hero().total_committed) as i32,
    {
        self.payoff_by(Some(hr))
    }

    /// The payoff, with the hands ranked by the table when one is given and by `eval_7hand`
    /// otherwise.
    fn payoff_by(&mut self, table: Option<&[i32]>) -> (r: i32)
        requires
            old(self).payoff_fits_by(table_view(table)),
        ensures
            final(self).board@ == old(self).filled_board(),
            final(self).deck@ == old(self).filled_deck(),
            final(self).players@ == old(self).players@,
            final(self).curr_idx == old(self).curr_idx,
            final(self).street == old(self).street,
            final(self).current_bet == old(self).current_bet,
            final(self).raises_left == old(self).raises_left,
            final(self).pot == old(self).pot,
            final(self).hero_idx == old(self).hero_idx,
            old(self).hero().folded ==> r as int == -((old(self).hero().total_committed as i32) as int)
                && pots_view(final(self).side_pots@) == pots_view(old(self).side_pots@),
            !old(self).hero().folded ==> pots_view(final(self).side_pots@) == side_pots_for(
                old(self).players@,
            ) && r == (old(self).hero_winnings_by(table_view(table)) - old(self).hero().total_committed)
                as i32,
    {
        let ghost tv = table_view(table);
        let ghost ev = evaluator(tv);
        let ghost b0 = self.board@;
        let ghost d0 = self.deck@;
        while self.board.len() < 5
            invariant
                b0.len() <= self.board@.len() <= 5,
                b0.len() + d0.len() >= 5,
                self.board@ == board_after_draw(b0, d0, self.board@.len() - b0.len()),
                self.deck@ == d0.take(d0.len() - (self.board@.len() - b0.len())),
                self.players@ == old(self).players@,
                self.curr_idx == old(self).curr_idx,
                self.street == old(self).street,
                self.current_bet == old(self).current_bet,
                self.raises_left == old(self).raises_left,
                self.pot == old(self).pot,
                pots_view(self.side_pots@) == pots_view(old(self).side_pots@),
                self.hero_idx == old(self).hero_idx,
            decreases 5 - self.board@.len(),
        {
            let ghost i: int = self.board@.len() - b0.len();
            let card: i32 = self.deck.pop().unwrap();
            self.board.push(card);
            proof {
                assert(card == d0[d0.len() - i - 1]);
                assert(self.deck@ =~= d0.take(d0.len() - (i + 1)));
                assert(self.board@ =~= board_after_draw(b0, d0, i + 1));
            }
        }
        let hero: PlayerState = self.players[self.hero_idx];
        if hero.folded {
            assert(hero == old(self).hero());
            let tc: u32 = hero.total_committed;
            let v: i32 = #[verifier::truncate] (tc as i32);
            assert(v != i32::MIN) by (bit_vector)
                requires
                    tc != 0x8000_0000u32,
                    v == tc as i32,
            ;
            return -v;
        }
        let ghost ps = self.players@;
        let ghost board = self.board@;
        let ghost hero_seat: int = self.hero_idx as int;
        self.side_pot_builder();
        let ghost pots = side_pots_for(ps);
        let mut hero_profit: u32 = 0;
        let mut k: usize = 0;
        while k < self.side_pots.len()
            invariant
                k <= self.side_pots@.len(),
                pots_view(self.side_pots@) == pots,
                pots == side_pots_for(ps),
                self.players@ == ps,
                self.board@ == board,
                board.len() == 5,
                hero_seat == self.hero_idx,
                side_pots_fit(ps),
                tv == table_view(table),
                ev == evaluator(tv),
                forall|i: int|
                    0 <= i < ps.len() && in_pot(#[trigger] ps[i]) ==> ps[i].idx < ps.len()
                        && hand_rankable(tv, ps[ps[i].idx as int].hole@, board),
                hero_profit == hero_winnings(ps, board, ev, pots.take(k as int), hero_seat),
                hero_winnings(ps, board, ev, pots, hero_seat) <= u32::MAX,
            decreases self.side_pots@.len() - k,
        {
            let ghost elig = self.side_pots@[k as int].eligible@;
            proof {
                assert(pots_view(self.side_pots@)[k as int] == pots[k as int]);
                let lv = contribution_levels(ps);
                assert(pots[k as int].1 == eligible_at(ps, lv[k as int] as int));
                lemma_eligible_facts(ps, lv[k as int] as int);
                lemma_eligible_fits(ps, k as int);
            }
            let n_e: usize = self.side_pots[k].eligible.len();
            let mut strongest: i32 = i32::MIN;
            let mut winners: Vec<u32> = Vec::new();
            let mut t: usize = 0;
            while t < n_e
                invariant
                    t <= n_e,
                    n_e == elig.len(),
                    elig == self.side_pots@[k as int].eligible@,
                    k < self.side_pots@.len(),
                    self.players@ == ps,
                    self.board@ == board,
                    board.len() == 5,
                    tv == table_view(table),
                    ev == evaluator(tv),
                    forall|q: int|
                        #![trigger elig[q]]
                        0 <= q < elig.len() ==> elig[q] < ps.len() && hand_rankable(
                            tv,
                            ps[elig[q] as int].hole@,
                            board,
                        ),
                    strongest as int == max_strength(ps, board, ev, elig.take(t as int)),
                    winners@ == winners_with(ps, board, ev, elig.take(t as int), strongest as int),
                decreases n_e - t,
            {
                let player_idx: u32 = self.side_pots[k].eligible[t];
                let cards: [i32; 7] = self.get_cards(player_idx as usize);
                let hand_strength: i32 = match table {
                    None => {
                        proof {
                            assert forall|q: int| 0 <= q < cards@.len() implies valid_card(
                                #[trigger] cards@[q],
                            ) by {
                                if q < 2 {
                                    assert(cards@[q] == ps[player_idx as int].hole@[q]);
                                } else {
                                    assert(cards@[q] == board[q - 2]);
                                }
                            }
                        }
                        eval_7hand(cards)
                    },
                    Some(hr) => eval_7hand_in_table(hr, cards),
                };
                proof {
                    assert(hand_strength == strength(ps, board, ev, elig[t as int]));
                    lemma_strength_push(ps, board, ev, elig, t as int, strongest as int);
                    lemma_strength_push(ps, board, ev, elig, t as int, hand_strength as int);
                    lemma_max_strength_facts(ps, board, ev, elig.take(t as int), hand_strength as int);
                }
                if hand_strength > strongest {
                    strongest = hand_strength;
                    winners = Vec::new();
                    winners.push(player_idx);
                    proof {
                        assert forall|q: int| 0 <= q < elig.take(t as int).len() implies strength(
                            ps,
                            board,
                            ev,
                            #[trigger] elig.take(t as int)[q],
                        ) != hand_strength by {}
                        assert(winners@ =~= winners_with(ps, board, ev, elig.take(t + 1), strongest as int));
                    }
                } else if hand_strength == strongest {
                    winners.push(player_idx);
                }
                t = t + 1;
            }
            proof {
                assert(elig.take(n_e as int) =~= elig);
                lemma_max_strength_facts(ps, board, ev, elig, strongest as int);
                lemma_winnings_push(ps, board, ev, pots, hero_seat, k as int);
                lemma_winnings_prefix(ps, board, ev, pots, hero_seat, k + 1);
            }
            let mut has_hero: bool = false;
            let mut w: usize = 0;
            while w < winners.len()
                invariant
                    w <= winners@.len(),
                    has_hero == exists|q: int| 0 <= q < w && winners@[q] as int == hero_seat,
                    hero_seat == self.hero_idx,
                decreases winners@.len() - w,
            {
                if winners[w] as usize == self.hero_idx {
                    has_hero = true;
                }
                w = w + 1;
            }
            if has_hero {
                let share: u32 = self.side_pots[k].amnt / (winners.len() as u32);
                hero_profit = hero_profit + share;
            }
            k = k + 1;
        }
        proof {
            assert(pots.take(self.side_pots@.len() as int) =~= pots);
        }
        let result: i64 = hero_profit as i64 - hero.total_committed as i64;
        #[verifier::truncate]
        (result as i32)
    }
}

} // verus!
