use poker_cfr::game::handeval::eval_7hand;
use poker_cfr::game::helpers::card_to_string;
use poker_cfr::game::node::NodeType;
use poker_cfr::game::state::{test_state, Action, GameState, PlayerState, Street};

fn seat(idx: u8, hole: [i32; 2], behind: u32, total: u32, folded: bool) -> PlayerState {
    PlayerState {
        idx,
        hole,
        money_behind: behind,
        money_committed_curr_round: 0,
        total_committed: total,
        folded,
    }
}

fn chips(s: &GameState) -> u64 {
    s.players.iter().map(|p| p.money_behind as u64).sum::<u64>() + s.pot as u64
}

#[test]
fn legal_actions_without_raises_left() {
    let mut state = test_state();
    state.raises_left = 0;
    assert_eq!(state.legal_actions(), vec![Action::Check]);
    state.current_bet = 3;
    assert_eq!(state.legal_actions(), vec![Action::Fold, Action::Call]);
}

#[test]
fn legal_actions_short_stack_cannot_raise() {
    let mut state = test_state();
    state.current_bet = 12;
    assert_eq!(state.legal_actions(), vec![Action::Fold, Action::Call]);
    state.current_bet = 9;
    assert_eq!(state.legal_actions(), vec![Action::Fold, Action::Call, Action::Raise]);
}

#[test]
fn legal_actions_folded_player_has_none() {
    let mut state = test_state();
    state.players[0].folded = true;
    assert!(state.legal_actions().is_empty());
}

#[test]
fn raise_pays_call_plus_raise_and_uses_a_raise() {
    let mut state = test_state();
    state.street = Street::Turn;
    state.current_bet = 3;
    let next = state.apply_action(&Action::Raise);
    assert_eq!(next.players[0].money_behind, 5);
    assert_eq!(next.players[0].money_committed_curr_round, 5);
    assert_eq!(next.players[0].total_committed, 5);
    assert_eq!(next.current_bet, 5);
    assert_eq!(next.raises_left, 2);
    assert_eq!(next.pot, 5);
    assert_eq!(next.curr_idx, 1);
    assert_eq!(state.raise_size(), 2);
}

#[test]
fn call_for_less_goes_all_in() {
    let mut state = test_state();
    state.current_bet = 15;
    let next = state.apply_action(&Action::Call);
    assert_eq!(next.players[0].money_behind, 0);
    assert_eq!(next.players[0].money_committed_curr_round, 10);
    assert_eq!(next.pot, 10);
    // only one player can still act, so the turn stays
    assert_eq!(next.curr_idx, 0);
}

#[test]
fn actions_conserve_chips() {
    let state = test_state();
    let before = chips(&state);
    let a = state.apply_action(&Action::Raise);
    assert_eq!(chips(&a), before);
    let b = a.apply_action(&Action::Raise);
    assert_eq!(chips(&b), before);
    let c = b.apply_action(&Action::Call);
    assert_eq!(chips(&c), before);
    let d = c.apply_action(&Action::Fold);
    assert_eq!(chips(&d), before);
    assert_eq!(d.pot, 4);
}

#[test]
fn turn_skips_folded_and_all_in_players() {
    let mut state = test_state();
    state.players.push(seat(2, [5, 6], 10, 0, false));
    state.players.push(seat(3, [7, 8], 0, 10, false));
    state.players[1].folded = true;
    state.move_turn();
    assert_eq!(state.curr_idx, 2);
    state.move_turn();
    assert_eq!(state.curr_idx, 0);
}

#[test]
fn turn_stays_with_one_able_player() {
    let mut state = test_state();
    state.players[1].folded = true;
    state.curr_idx = 0;
    state.move_turn();
    assert_eq!(state.curr_idx, 0);
}

#[test]
fn draw_deals_from_the_end_of_the_deck() {
    let mut state = test_state();
    state.draw_cards(2);
    assert_eq!(state.board, vec![14, 13]);
    assert_eq!(state.deck, vec![10, 11, 12]);
}

#[test]
fn street_change_resets_the_round() {
    let mut state = test_state();
    state = state.apply_action(&Action::Raise);
    state = state.apply_action(&Action::Call);
    assert!(state.betting_round_complete());
    state.apply_street();
    assert_eq!(state.street, Street::Flop);
    assert_eq!(state.board, vec![14, 13, 12]);
    assert_eq!(state.deck, vec![10, 11]);
    assert_eq!(state.current_bet, 0);
    assert_eq!(state.raises_left, 3);
    assert_eq!(state.players[0].money_committed_curr_round, 0);
    assert_eq!(state.players[0].total_committed, 1);
    assert_eq!(state.pot, 2);
}

#[test]
fn round_incomplete_while_bet_unmatched() {
    let state = test_state().apply_action(&Action::Raise);
    assert!(!state.betting_round_complete());
    assert!(!state.is_terminal());
}

#[test]
fn get_cards_puts_hole_before_board() {
    let mut state = test_state();
    state.board = vec![20, 21, 22, 23, 24];
    assert_eq!(state.get_cards(1), [3, 4, 20, 21, 22, 23, 24]);
}

#[test]
fn side_pots_keep_folded_money_between_levels() {
    let mut state = test_state();
    state.players.push(seat(2, [5, 6], 0, 20, true));
    state.players[0].total_committed = 10;
    state.players[1].total_committed = 30;
    state.side_pot_builder();
    assert_eq!(state.side_pots.len(), 2);
    assert_eq!(state.side_pots[0].amnt, 30);
    assert_eq!(state.side_pots[0].eligible, vec![0, 1]);
    assert_eq!(state.side_pots[1].amnt, 30);
    assert_eq!(state.side_pots[1].eligible, vec![1]);
}

#[test]
fn side_pots_keep_folded_money_below_the_first_level() {
    let mut state = test_state();
    state.players[0].total_committed = 5;
    state.players[0].folded = true;
    state.players[1].total_committed = 10;
    state.side_pot_builder();
    assert_eq!(state.side_pots.len(), 1);
    assert_eq!(state.side_pots[0].amnt, 15);
    assert_eq!(state.side_pots[0].eligible, vec![1]);
}

#[test]
fn side_pots_keep_folded_money_above_the_top_level() {
    let mut state = test_state();
    state.players.push(seat(2, [5, 6], 0, 40, true));
    state.players[0].total_committed = 10;
    state.players[1].total_committed = 25;
    state.side_pot_builder();
    assert_eq!(state.side_pots.len(), 2);
    assert_eq!(state.side_pots[0].amnt, 30);
    assert_eq!(state.side_pots[1].amnt, 45);
}

#[test]
fn side_pots_without_folds_hold_everything() {
    let mut state = test_state();
    state.players.push(seat(2, [5, 6], 0, 70, false));
    state.players[0].total_committed = 25;
    state.players[1].total_committed = 40;
    state.side_pot_builder();
    let total: u32 = state.side_pots.iter().map(|p| p.amnt).sum();
    assert_eq!(total, 135);
    assert_eq!(state.side_pots[0].amnt, 75);
    assert_eq!(state.side_pots[1].amnt, 30);
    assert_eq!(state.side_pots[2].amnt, 30);
    assert_eq!(state.side_pots[2].eligible, vec![2]);
}

#[test]
fn side_pots_empty_when_nothing_committed() {
    let mut state = test_state();
    state.side_pot_builder();
    assert!(state.side_pots.is_empty());
}

#[test]
fn payoff_of_folded_hero_is_its_loss() {
    let mut state = test_state();
    state.players[0].total_committed = 7;
    state.players[0].folded = true;
    assert_eq!(state.payoff(), -7);
    assert_eq!(state.board.len(), 5);
    assert!(state.deck.is_empty());
}

fn heads_up(hero: usize, hole0: [i32; 2], hole1: [i32; 2], board: Vec<i32>) -> GameState {
    let mut state = test_state();
    state.pot = 100;
    state.board = board;
    state.players[0].hole = hole0;
    state.players[1].hole = hole1;
    state.players[0].total_committed = 50;
    state.players[1].total_committed = 50;
    state.hero_idx = hero;
    state
}

#[test]
fn payoff_goes_to_the_strongest_hand() {
    let board = vec![1, 22, 31, 40, 45];
    let mut loser = heads_up(0, [10, 15], [49, 50], board.clone());
    assert_eq!(loser.payoff(), -50);
    assert_eq!(loser.side_pots.len(), 1);
    assert_eq!(loser.side_pots[0].amnt, 100);
    let mut winner = heads_up(1, [10, 15], [49, 50], board);
    assert_eq!(winner.payoff(), 50);
}

// A hand-rank table whose walk carries the first card through six layers and ends on
// `value(first card)`.
fn layered_table(value: impl Fn(i32) -> i32) -> Vec<i32> {
    let layer = 64 * 53;
    let base = |k: usize| 200 + (k - 2) * layer;
    let mut hr = vec![0i32; base(7) + layer];
    for c0 in 1..=52usize {
        hr[53 + c0] = (base(2) + 64 * c0) as i32;
        for k in 2..=6usize {
            for x in 0..64usize {
                hr[base(k) + 64 * c0 + x] = (base(k + 1) + 64 * c0) as i32;
            }
        }
        for x in 0..64usize {
            hr[base(7) + 64 * c0 + x] = value(c0 as i32);
        }
    }
    hr
}

#[test]
fn table_payoff_ranks_hands_by_the_table() {
    let hr = layered_table(|c| 100 - c);
    let board = vec![1, 22, 31, 40, 45];
    let mut hero = heads_up(0, [10, 15], [49, 50], board.clone());
    assert_eq!(hero.payoff_with_table(&hr), 50);
    assert_eq!(hero.board, board);
    assert_eq!(hero.side_pots.len(), 1);
    assert_eq!(hero.side_pots[0].amnt, 100);
    let mut other = heads_up(1, [10, 15], [49, 50], board.clone());
    assert_eq!(other.payoff_with_table(&hr), -50);
    let mut computed = heads_up(0, [10, 15], [49, 50], board);
    assert_eq!(computed.payoff(), -50);
}

#[test]
fn table_payoff_splits_equal_entries() {
    let hr = layered_table(|_| 7);
    let mut state = heads_up(0, [10, 15], [49, 50], vec![1, 22, 31, 40, 45]);
    assert_eq!(state.payoff_with_table(&hr), 0);
}

#[test]
fn table_payoff_deals_the_board_first() {
    let hr = layered_table(|c| c);
    let mut state = heads_up(1, [10, 15], [49, 50], vec![1, 22, 31]);
    state.deck = vec![3, 40, 45];
    assert_eq!(state.payoff_with_table(&hr), 50);
    assert_eq!(state.board, vec![1, 22, 31, 45, 40]);
    assert_eq!(state.deck, vec![3]);
}

#[test]
fn four_aces_beat_aces_full() {
    let mut state = heads_up(0, [52, 2], [1, 5], vec![49, 50, 51, 45, 46]);
    assert_eq!(state.payoff(), 50);
    assert_eq!(state.side_pots.len(), 1);
    assert_eq!(state.side_pots[0].amnt, 100);
    assert_eq!(state.side_pots[0].eligible, vec![0, 1]);
}

#[test]
fn payoffs_over_all_seats_sum_to_zero() {
    let mut base = test_state();
    base.players.push(seat(2, [7, 8], 0, 30, false));
    base.players.push(seat(3, [20, 24], 0, 12, true));
    base.players[0].hole = [52, 2];
    base.players[0].total_committed = 30;
    base.players[1].hole = [1, 5];
    base.players[1].total_committed = 18;
    base.board = vec![49, 50, 51, 45, 46];
    let mut sum = 0;
    for h in 0..base.players.len() {
        let mut s = base.clone();
        s.hero_idx = h;
        sum += s.payoff();
    }
    assert_eq!(sum, 0);
}

#[test]
fn eval_exact_values() {
    assert_eq!(eval_7hand([52, 48, 44, 40, 36, 1, 5]), 9 * 4096 + 12);
    assert_eq!(eval_7hand([49, 50, 51, 52, 45, 46, 1]), 8 * 4096 + 167);
    assert_eq!(eval_7hand([49, 50, 51, 45, 46, 1, 5]), 7 * 4096 + 167);
    assert_eq!(eval_7hand([3, 15, 27, 39, 47, 5, 10]), 6 * 4096 + 611);
    assert_eq!(eval_7hand([49, 2, 7, 12, 13, 29, 38]), 5 * 4096 + 3);
    assert_eq!(eval_7hand([21, 22, 23, 45, 42, 4, 5]), 4 * 4096 + 455);
    assert_eq!(eval_7hand([45, 46, 41, 42, 1, 15, 32]), 3 * 4096 + 1996);
    assert_eq!(eval_7hand([49, 50, 1, 10, 23, 32, 37]), 2 * 4096 + 3542);
    assert_eq!(eval_7hand([21, 14, 11, 8, 1, 38, 32]), 4096 + 176);
}

#[test]
fn eval_ignores_card_order() {
    assert_eq!(eval_7hand([1, 5, 36, 40, 44, 48, 52]), eval_7hand([52, 48, 44, 40, 36, 1, 5]));
    assert_eq!(eval_7hand([32, 1, 45, 15, 42, 41, 46]), eval_7hand([45, 46, 41, 42, 1, 15, 32]));
}

#[test]
fn higher_category_has_higher_value() {
    let pair = eval_7hand([49, 50, 1, 10, 23, 32, 37]);
    let trips = eval_7hand([21, 22, 23, 45, 42, 4, 5]);
    let high = eval_7hand([21, 14, 11, 8, 1, 38, 32]);
    assert!(high < pair && pair < trips);
}

#[test]
fn card_names() {
    assert_eq!(card_to_string(1), "2c");
    assert_eq!(card_to_string(14), "5d");
    assert_eq!(card_to_string(39), "Jh");
    assert_eq!(card_to_string(52), "As");
}

#[test]
fn player_state_updates() {
    let mut p = PlayerState::default();
    assert_eq!(p.money_behind, 100);
    assert_eq!(p.hole, [0, 0]);
    assert!(!p.folded);
    p.set_hole_cards([7, 9]);
    p.set_position(4);
    p.fold();
    assert_eq!(p.hole, [7, 9]);
    assert_eq!(p.idx, 4);
    assert!(p.folded);
    assert_eq!(p.money_behind, 100);
}

#[test]
fn node_types_along_a_hand() {
    // with nothing bet, the round counts as complete before anyone acts
    assert_eq!(test_state().node_type(), NodeType::Chance);
    let state = test_state().apply_action(&Action::Raise);
    assert_eq!(state.node_type(), NodeType::Player(1));
    let state = state.apply_action(&Action::Call);
    assert_eq!(state.node_type(), NodeType::Chance);
    let mut river = state.clone();
    river.street = Street::River;
    assert_eq!(river.node_type(), NodeType::Terminal);
    let folded = test_state().apply_action(&Action::Fold);
    assert_eq!(folded.node_type(), NodeType::Terminal);
}

#[test]
fn sample_and_advance_deal_the_next_street() {
    let state = test_state()
        .apply_action(&Action::Check)
        .apply_action(&Action::Check);
    let sampled = state.sample();
    assert_eq!(sampled.street, Street::Flop);
    assert_eq!(sampled.board, vec![14, 13, 12]);
    assert_eq!(state.street, Street::Preflop);
    let mut advanced = state.clone();
    advanced.advance_state();
    assert_eq!(advanced.street, Street::Flop);
    assert_eq!(advanced.board, vec![14, 13, 12]);
    let mut open = test_state();
    open.current_bet = 2;
    open.advance_state();
    assert_eq!(open.street, Street::Preflop);
}
