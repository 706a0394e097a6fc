//! Properties of the game that hold across its operations.
use vstd::prelude::*;
use crate::game::state::{
    can_act, in_pot, lemma_count_where_bounds, num_can_act, Action, GameState, PlayerState, Street,
};
use crate::game::pots::{
    contribution_levels, eligible_at, increasing, lemma_eligible_facts, lemma_level_gap,
    lemma_levels_exist, lemma_tier_nonneg, lemma_tier_prefix, lemma_tier_share, level_below,
    pot_amount, side_pots_fit, side_pots_for, tier_total,
};
use crate::game::trns::{
    board_after_draw, cards_for, next_to_act, owed, round_complete, scan_from, seat_after, street_dealt,
};

verus! {

/// A player is never offered both a check and a call: a check exactly when nothing is owed,
/// a call exactly when something is.
pub proof fn law_check_or_call(s: GameState)
    requires
        s.curr_idx < s.players.len(),
    ensures
        s.legal_actions_spec().contains(Action::Check) ==> !s.legal_actions_spec().contains(Action::Call),
        s.legal_actions_spec().contains(Action::Check) ==> owed(s.current_bet, s.actor()) == 0,
        s.legal_actions_spec().contains(Action::Call) ==> owed(s.current_bet, s.actor()) > 0,
{
    let l = s.legal_actions_spec();
    if l.contains(Action::Check) {
        let q = choose|q: int| 0 <= q < l.len() && l[q] == Action::Check;
        assert(owed(s.current_bet, s.actor()) == 0);
    }
    if l.contains(Action::Call) {
        let q = choose|q: int| 0 <= q < l.len() && l[q] == Action::Call;
        assert(owed(s.current_bet, s.actor()) > 0);
    }
}

proof fn lemma_scan_finds(ps: Seq<PlayerState>, start: int, k: int, d: int)
    requires
        ps.len() > 0,
        1 <= k <= d <= ps.len(),
        can_act(ps[seat_after(start, d, ps.len() as int)]),
    ensures
        0 <= scan_from(ps, start, k) < ps.len(),
        can_act(ps[scan_from(ps, start, k)]),
    decreases d - k,
{
    vstd::arithmetic::div_mod::lemma_mod_bound(start + k, ps.len() as int);
    if !can_act(ps[seat_after(start, k, ps.len() as int)]) {
        lemma_scan_finds(ps, start, k + 1, d);
    }
}

/// When at least two players can act, the turn always passes to a seat whose player can act.
pub proof fn law_turn_goes_to_able_player(ps: Seq<PlayerState>, curr: int)
    requires
        num_can_act(ps) >= 2,
    ensures
        0 <= next_to_act(ps, curr) < ps.len(),
        can_act(ps[next_to_act(ps, curr)]),
{
    lemma_count_where_bounds(ps, |p: PlayerState| can_act(p));
    let j = choose|j: int| 0 <= j < ps.len() && can_act(ps[j]);
    let n = ps.len() as int;
    vstd::arithmetic::div_mod::lemma_fundamental_div_mod(curr, n);
    vstd::arithmetic::div_mod::lemma_mod_bound(curr, n);
    let s0 = curr % n;
    let d = if j > s0 {
        j - s0
    } else {
        j - s0 + n
    };
    assert(seat_after(curr, d, n) == j) by {
        let q = curr / n;
        assert(curr + d == n * q + (s0 + d));
        vstd::arithmetic::div_mod::lemma_mod_multiples_vanish(q, s0 + d, n);
        if s0 + d < n {
            vstd::arithmetic::div_mod::lemma_small_mod((s0 + d) as nat, n as nat);
        } else {
            vstd::arithmetic::div_mod::lemma_mod_sub_multiples_vanish(s0 + d, n);
            vstd::arithmetic::div_mod::lemma_small_mod((s0 + d - n) as nat, n as nat);
        }
    }
    lemma_scan_finds(ps, curr, 1, d);
}

/// The chips the players still have behind.
pub open spec fn chips_behind(ps: Seq<PlayerState>) -> int
    decreases ps.len(),
{
    if ps.len() == 0 {
        0
    } else {
        chips_behind(ps.drop_last()) + ps.last().money_behind
    }
}

/// The chips the players have committed over the hand.
pub open spec fn chips_committed(ps: Seq<PlayerState>) -> int
    decreases ps.len(),
{
    if ps.len() == 0 {
        0
    } else {
        chips_committed(ps.drop_last()) + ps.last().total_committed
    }
}

proof fn lemma_sums_update(ps: Seq<PlayerState>, i: int, p: PlayerState)
    requires
        0 <= i < ps.len(),
    ensures
        chips_behind(ps.update(i, p)) == chips_behind(ps) - ps[i].money_behind + p.money_behind,
        chips_committed(ps.update(i, p)) == chips_committed(ps) - ps[i].total_committed
            + p.total_committed,
    decreases ps.len(),
{
    let u = ps.update(i, p);
    assert(u.drop_last() =~= if i == ps.len() - 1 {
        ps.drop_last()
    } else {
        ps.drop_last().update(i, p)
    });
    if i < ps.len() - 1 {
        lemma_sums_update(ps.drop_last(), i, p);
    }
}

proof fn lemma_sums_same_chips(a: Seq<PlayerState>, b: Seq<PlayerState>)
    requires
        a.len() == b.len(),
        forall|i: int| 0 <= i < a.len() ==> (#[trigger] a[i]).money_behind == b[i].money_behind
            && a[i].total_committed == b[i].total_committed,
    ensures
        chips_behind(a) == chips_behind(b),
        chips_committed(a) == chips_committed(b),
    decreases a.len(),
{
    if a.len() > 0 {
        assert forall|i: int| 0 <= i < a.drop_last().len() implies (
        #[trigger] a.drop_last()[i]).money_behind == b.drop_last()[i].money_behind
            && a.drop_last()[i].total_committed == b.drop_last()[i].total_committed by {
            assert(a.drop_last()[i] == a[i] && b.drop_last()[i] == b[i]);
        }
        lemma_sums_same_chips(a.drop_last(), b.drop_last());
        assert(a.last() == a[a.len() - 1]);
    }
}

/// No action creates or destroys chips: what the players have behind plus the pot is the same
/// before and after any action, and the pot grows by exactly what the players' commitments grow.
pub proof fn law_action_conserves_chips(s: GameState, a: Action)
    requires
        s.action_fits(a),
    ensures
        ({
            let ps2 = if a == Action::Check {
                s.players@
            } else {
                s.players@.update(s.curr_idx as int, s.acted(a))
            };
            let pot2 = s.pot + s.paid(a);
            &&& chips_behind(ps2) + pot2 == chips_behind(s.players@) + s.pot
            &&& chips_committed(ps2) - chips_committed(s.players@) == pot2 - s.pot
        }),
{
    if a != Action::Check {
        lemma_sums_update(s.players@, s.curr_idx as int, s.acted(a));
    }
}

/// Moving to the next street moves no chips: the chips behind, the commitments over the hand and
/// the pot are unchanged, and no one has anything committed in the new round.
pub proof fn law_street_keeps_chips(a: GameState, b: GameState)
    requires
        street_dealt(a, b),
    ensures
        chips_behind(b.players@) == chips_behind(a.players@),
        chips_committed(b.players@) == chips_committed(a.players@),
        b.pot == a.pot,
        forall|i: int| 0 <= i < b.players@.len() ==> (#[trigger] b.players@[i]).money_committed_curr_round == 0,
{
    assert forall|i: int| 0 <= i < a.players@.len() implies (#[trigger] a.players@[i]).money_behind
        == b.players@[i].money_behind && a.players@[i].total_committed == b.players@[i].total_committed by {
        assert(b.players@[i] == (PlayerState { money_committed_curr_round: 0, ..a.players@[i] }));
    }
    lemma_sums_same_chips(a.players@, b.players@);
    assert forall|i: int| 0 <= i < b.players@.len() implies (#[trigger] b.players@[i]).money_committed_curr_round == 0 by {
        assert(b.players@[i] == (PlayerState { money_committed_curr_round: 0, ..a.players@[i] }));
    }
}

/// The chips held by a list of pots.
pub open spec fn pots_total(pots: Seq<(u32, Seq<u32>)>) -> int
    decreases pots.len(),
{
    if pots.len() == 0 {
        0
    } else {
        pots_total(pots.drop_last()) + pots.last().0
    }
}

/// What a commitment `t` counts for once the pots below level `k` are filled: all of it when
/// every pot is counted (`k` is the number of levels), otherwise up to the level below the
/// `k`-th.
pub open spec fn counted_up_to(t: int, lv: Seq<u32>, k: int) -> int {
    if k == lv.len() {
        t
    } else if t <= level_below(lv, k) {
        t
    } else {
        level_below(lv, k)
    }
}

/// `counted_up_to` summed over the players.
pub open spec fn counted_total(ps: Seq<PlayerState>, lv: Seq<u32>, k: int) -> int
    decreases ps.len(),
{
    if ps.len() == 0 {
        0
    } else {
        counted_total(ps.drop_last(), lv, k) + counted_up_to(ps.last().total_committed as int, lv, k)
    }
}

proof fn lemma_counted_step(ps: Seq<PlayerState>, lv: Seq<u32>, k: int)
    requires
        increasing(lv),
        0 <= k < lv.len(),
    ensures
        counted_total(ps, lv, k + 1) - counted_total(ps, lv, k) == tier_total(
            ps,
            level_below(lv, k),
            lv[k] as int,
            k == lv.len() - 1,
        ),
    decreases ps.len(),
{
    if ps.len() > 0 {
        lemma_counted_step(ps.drop_last(), lv, k);
    }
}

proof fn lemma_counted_start(ps: Seq<PlayerState>, lv: Seq<u32>)
    requires
        lv.len() > 0,
    ensures
        counted_total(ps, lv, 0) == 0,
    decreases ps.len(),
{
    if ps.len() > 0 {
        lemma_counted_start(ps.drop_last(), lv);
    }
}

proof fn lemma_counted_all(ps: Seq<PlayerState>, lv: Seq<u32>)
    ensures
        counted_total(ps, lv, lv.len() as int) == chips_committed(ps),
    decreases ps.len(),
{
    if ps.len() > 0 {
        lemma_counted_all(ps.drop_last(), lv);
    }
}

proof fn lemma_pots_total_prefix(ps: Seq<PlayerState>, k: int)
    requires
        side_pots_fit(ps),
        0 < contribution_levels(ps).len(),
        0 <= k <= contribution_levels(ps).len(),
    ensures
        pots_total(side_pots_for(ps).take(k)) == counted_total(ps, contribution_levels(ps), k),
    decreases k,
{
    let lv = contribution_levels(ps);
    let pots = side_pots_for(ps);
    if k == 0 {
        assert(pots.take(0) =~= Seq::<(u32, Seq<u32>)>::empty());
        lemma_counted_start(ps, lv);
    } else {
        lemma_pots_total_prefix(ps, k - 1);
        lemma_level_gap(ps, k - 1);
        assert(pots.take(k).drop_last() =~= pots.take(k - 1));
        assert(pots.take(k).last() == pots[k - 1]);
        assert(pot_amount(ps, lv, k - 1) <= u32::MAX);
        lemma_tier_nonneg(ps, level_below(lv, k - 1), lv[k - 1] as int, k - 1 == lv.len() - 1);
        lemma_counted_step(ps, lv, k - 1);
    }
}

/// The side pots keep every chip committed: when some player still in the hand has committed
/// anything, the pots together hold exactly what all players, folded ones included, committed;
/// otherwise there are no pots.
pub proof fn law_side_pots_total(ps: Seq<PlayerState>)
    requires
        side_pots_fit(ps),
    ensures
        contribution_levels(ps).len() > 0 ==> pots_total(side_pots_for(ps)) == chips_committed(ps),
        contribution_levels(ps).len() == 0 <==> side_pots_for(ps).len() == 0,
        contribution_levels(ps).len() == 0 <==> (forall|i: int|
            0 <= i < ps.len() ==> !in_pot(#[trigger] ps[i])),
{
    lemma_levels_exist(ps);
    let lv = contribution_levels(ps);
    if lv.len() > 0 {
        lemma_pots_total_prefix(ps, lv.len() as int);
        assert(side_pots_for(ps).take(lv.len() as int) =~= side_pots_for(ps));
        lemma_counted_all(ps, lv);
        assert(lv.contains(lv[0]));
    } else {
        assert forall|i: int| 0 <= i < ps.len() implies !in_pot(#[trigger] ps[i]) by {
            if in_pot(ps[i]) {
                assert(lv.contains(ps[i].total_committed));
            }
        }
    }
}

/// Dealing only moves cards: the board and the deck together hold the same cards, as a multiset,
/// before and after `k` cards are dealt.
pub proof fn law_dealing_keeps_cards(board: Seq<i32>, deck: Seq<i32>, k: int)
    requires
        0 <= k <= deck.len(),
    ensures
        (board_after_draw(board, deck, k) + deck.take(deck.len() - k)).to_multiset() == (board
            + deck).to_multiset(),
{
    let head = deck.take(deck.len() - k);
    let tail = deck.subrange(deck.len() - k, deck.len() as int);
    assert(deck =~= head + tail);
    tail.lemma_reverse_to_multiset();
    vstd::seq_lib::lemma_multiset_commutative(board + tail.reverse(), head);
    vstd::seq_lib::lemma_multiset_commutative(board, tail.reverse());
    vstd::seq_lib::lemma_multiset_commutative(board, deck);
    vstd::seq_lib::lemma_multiset_commutative(head, tail);
    broadcast use vstd::multiset::group_multiset_axioms;
    assert((board_after_draw(board, deck, k) + head).to_multiset() =~= (board + deck).to_multiset());
}

proof fn lemma_eligible_nested(ps: Seq<PlayerState>, lo: int, hi: int)
    requires
        lo <= hi,
    ensures
        forall|x: u32| eligible_at(ps, hi).contains(x) ==> eligible_at(ps, lo).contains(x),
        eligible_at(ps, hi).len() <= eligible_at(ps, lo).len(),
        (exists|i: int| 0 <= i < ps.len() && in_pot(#[trigger] ps[i]) && lo <= ps[i].total_committed < hi)
            ==> eligible_at(ps, hi).len() < eligible_at(ps, lo).len(),
    decreases ps.len(),
{
    if ps.len() > 0 {
        let d = ps.drop_last();
        lemma_eligible_nested(d, lo, hi);
        let eh = eligible_at(ps, hi);
        let el = eligible_at(ps, lo);
        assert forall|x: u32| eh.contains(x) implies el.contains(x) by {
            let q = choose|q: int| 0 <= q < eh.len() && eh[q] == x;
            if q < eligible_at(d, hi).len() {
                assert(eligible_at(d, hi)[q] == x);
                assert(eligible_at(d, hi).contains(x));
                let q2 = choose|q2: int| 0 <= q2 < eligible_at(d, lo).len() && eligible_at(d, lo)[q2] == x;
                assert(el[q2] == x);
            } else {
                assert(el[el.len() - 1] == x);
            }
        }
        if exists|i: int| 0 <= i < ps.len() && in_pot(#[trigger] ps[i]) && lo <= ps[i].total_committed < hi {
            let i = choose|i: int| 0 <= i < ps.len() && in_pot(#[trigger] ps[i]) && lo <= ps[i].total_committed < hi;
            if i < ps.len() - 1 {
                assert(d[i] == ps[i]);
            } else {
                assert(ps[i] == ps.last());
            }
        }
    }
}

/// Every side pot holds chips and is open to at least one player; the pots come in order of
/// strictly rising contribution levels, and each pot is open to fewer players than the one
/// before, every one of whom may also win the earlier pots.
pub proof fn law_side_pots_shape(ps: Seq<PlayerState>)
    ensures
        forall|k: int|
            0 <= k < side_pots_for(ps).len() ==> #[trigger] side_pots_for(ps)[k].1.len() > 0
                && pot_amount(ps, contribution_levels(ps), k) >= 1,
        forall|k1: int, k2: int, x: u32|
            0 <= k1 < k2 < side_pots_for(ps).len() && #[trigger] side_pots_for(ps)[k2].1.contains(x)
                ==> #[trigger] side_pots_for(ps)[k1].1.contains(x),
        forall|k1: int, k2: int|
            0 <= k1 < k2 < side_pots_for(ps).len() ==> #[trigger] side_pots_for(ps)[k2].1.len()
                < #[trigger] side_pots_for(ps)[k1].1.len(),
        increasing(contribution_levels(ps)),
{
    lemma_levels_exist(ps);
    let lv = contribution_levels(ps);
    let sp = side_pots_for(ps);
    assert forall|k: int| 0 <= k < sp.len() implies #[trigger] sp[k].1.len() > 0 && pot_amount(ps, lv, k) >= 1 by {
        lemma_level_gap(ps, k);
        assert(lv.contains(lv[k]));
        let j = choose|j: int| 0 <= j < ps.len() && in_pot(#[trigger] ps[j]) && ps[j].total_committed == lv[k];
        lemma_eligible_facts(ps, lv[k] as int);
        assert(in_pot(ps[j]) && ps[j].total_committed >= lv[k]);
        let lo = level_below(lv, k);
        let top = k == lv.len() - 1;
        lemma_tier_prefix(ps, lo, lv[k] as int, top, j);
        lemma_tier_prefix(ps, lo, lv[k] as int, top, j + 1);
        lemma_tier_share(ps[j].total_committed as int, lo, lv[k] as int, top);
    }
    assert forall|k1: int, k2: int, x: u32|
        0 <= k1 < k2 < sp.len() && #[trigger] sp[k2].1.contains(x) implies #[trigger] sp[k1].1.contains(x) by {
        assert(lv[k1] < lv[k2]);
        lemma_eligible_nested(ps, lv[k1] as int, lv[k2] as int);
    }
    assert forall|k1: int, k2: int| 0 <= k1 < k2 < sp.len() implies #[trigger] sp[k2].1.len()
        < #[trigger] sp[k1].1.len() by {
        assert(lv[k1] < lv[k2]);
        assert(lv.contains(lv[k1]));
        let j = choose|j: int| 0 <= j < ps.len() && in_pot(#[trigger] ps[j]) && ps[j].total_committed == lv[k1];
        lemma_eligible_nested(ps, lv[k1] as int, lv[k2] as int);
    }
}

/// A raise lifts the bet by one chip on the preflop and the flop and by two on the turn and the
/// river. A raiser who has the chips pays what it owes plus that step, and its commitment this
/// round then stands exactly at the new bet.
pub proof fn law_raise_step(s: GameState)
    ensures
        s.street == Street::Preflop || s.street == Street::Flop ==> s.current_bet + s.raise_size_spec()
            == s.current_bet + 1,
        s.street == Street::Turn || s.street == Street::River ==> s.current_bet + s.raise_size_spec()
            == s.current_bet + 2,
        ({
            let p = s.actor();
            let step: int = if s.street == Street::Preflop || s.street == Street::Flop {
                1
            } else {
                2
            };
            p.money_committed_curr_round <= s.current_bet && s.current_bet + step <= u32::MAX
                && p.money_behind >= s.current_bet
                - p.money_committed_curr_round + step ==> s.paid(Action::Raise) == s.current_bet
                - p.money_committed_curr_round + step && s.acted(Action::Raise).money_committed_curr_round
                == s.current_bet + step && s.acted(Action::Raise).money_behind == p.money_behind - (
            s.current_bet - p.money_committed_curr_round + step)
        }),
{
}

/// A player who is all in never keeps a betting round open: once every player who has not
/// folded and still has chips behind has matched the bet, the round is complete, whatever the
/// all-in players put in; on the river the hand is then over.
pub proof fn law_all_in_need_not_match(s: GameState)
    requires
        forall|i: int|
            0 <= i < s.players@.len() && !(#[trigger] s.players@[i]).folded && s.players@[i].money_behind
                > 0 ==> s.players@[i].money_committed_curr_round == s.current_bet,
    ensures
        round_complete(s.players@, s.current_bet),
        s.street == Street::River ==> s.terminal_spec(),
{
}

/// Putting any player all in (nothing behind), whatever it has committed, never reopens a
/// complete betting round.
pub proof fn law_going_all_in_keeps_round_complete(
    ps: Seq<PlayerState>,
    current_bet: u32,
    i: int,
    p: PlayerState,
)
    requires
        round_complete(ps, current_bet),
        0 <= i < ps.len(),
        p.money_behind == 0,
    ensures
        round_complete(ps.update(i, p), current_bet),
{
    assert forall|j: int|
        0 <= j < ps.update(i, p).len() && !(#[trigger] ps.update(i, p)[j]).folded && ps.update(i, p)[j].money_behind
            > 0 implies ps.update(i, p)[j].money_committed_curr_round == current_bet by {
        assert(j != i);
        assert(ps.update(i, p)[j] == ps[j]);
    }
}

/// A street change starts a fresh betting round: three raises allowed again and nothing bet,
/// whatever the street and the raises used before; the preflop moves to the flop with three
/// cards dealt, the flop to the turn and the turn to the river with one.
pub proof fn law_new_street_fresh_round(a: GameState, b: GameState)
    requires
        street_dealt(a, b),
        cards_for(a.street) <= a.deck@.len(),
    ensures
        b.raises_left == 3,
        b.current_bet == 0,
        forall|i: int| 0 <= i < b.players@.len() ==> (#[trigger] b.players@[i]).money_committed_curr_round == 0,
        a.street == Street::Preflop ==> b.street == Street::Flop && b.board@.len() == a.board@.len() + 3,
        a.street == Street::Flop ==> b.street == Street::Turn && b.board@.len() == a.board@.len() + 1,
        a.street == Street::Turn ==> b.street == Street::River && b.board@.len() == a.board@.len() + 1,
{
    assert forall|i: int| 0 <= i < b.players@.len() implies (#[trigger] b.players@[i]).money_committed_curr_round
        == 0 by {
        assert(b.players@[i] == (PlayerState { money_committed_curr_round: 0, ..a.players@[i] }));
    }
}

} // verus!
