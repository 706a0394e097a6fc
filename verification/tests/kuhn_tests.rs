use poker_cfr::kuhn::{
    calc_utility_at_terminal_node, get_ancestral_infoset_strs, get_deciding_player_for_infoset_str,
    get_descendant_infoset_strs, get_possible_opponent_pockets, infoset_keys, player_one_pocket_is_higher,
    terminal_action,
};

#[test]
fn deciding_player_alternates() {
    assert_eq!(get_deciding_player_for_infoset_str("K"), 0);
    assert_eq!(get_deciding_player_for_infoset_str("Kb"), 1);
    assert_eq!(get_deciding_player_for_infoset_str("Kpb"), 0);
    assert_eq!(get_deciding_player_for_infoset_str(""), 1);
}

#[test]
fn terminal_histories() {
    for h in ["pp", "bb", "bp", "pbb", "pbp"] {
        assert!(terminal_action(h));
    }
    for h in ["", "p", "b", "pb", "ppp", "bpb"] {
        assert!(!terminal_action(h));
    }
}

#[test]
fn opponent_pockets() {
    assert_eq!(get_possible_opponent_pockets('K'), vec!['Q', 'J']);
    assert_eq!(get_possible_opponent_pockets('Q'), vec!['K', 'J']);
    assert_eq!(get_possible_opponent_pockets('J'), vec!['K', 'Q']);
}

#[test]
fn ancestors_and_descendants() {
    assert_eq!(get_ancestral_infoset_strs("Kpb"), vec!["Qp".to_string(), "Jp".to_string()]);
    assert_eq!(get_ancestral_infoset_strs("Qb"), vec!["K".to_string(), "J".to_string()]);
    assert_eq!(get_descendant_infoset_strs("Kp", 'b'), vec!["Qpb".to_string(), "Jpb".to_string()]);
    assert_eq!(get_descendant_infoset_strs("J", 'p'), vec!["Kp".to_string(), "Qp".to_string()]);
}

#[test]
fn pocket_order() {
    assert!(player_one_pocket_is_higher('K', 'Q'));
    assert!(player_one_pocket_is_higher('Q', 'J'));
    assert!(!player_one_pocket_is_higher('Q', 'K'));
    assert!(!player_one_pocket_is_higher('J', 'Q'));
}

#[test]
fn utilities() {
    assert_eq!(calc_utility_at_terminal_node('Q', 'J', "pp"), (1, -1));
    assert_eq!(calc_utility_at_terminal_node('J', 'K', "bb"), (-2, 2));
    assert_eq!(calc_utility_at_terminal_node('Q', 'K', "pbb"), (-2, 2));
    assert_eq!(calc_utility_at_terminal_node('K', 'J', "pbp"), (-1, 1));
    assert_eq!(calc_utility_at_terminal_node('J', 'K', "bp"), (1, -1));
}

#[test]
fn utilities_are_zero_sum() {
    let cards = ['K', 'Q', 'J'];
    for &a in &cards {
        for &b in &cards {
            if a == b {
                continue;
            }
            for h in ["pp", "bb", "bp", "pbb", "pbp"] {
                let (u1, u2) = calc_utility_at_terminal_node(a, b, h);
                assert_eq!(u1 + u2, 0);
            }
        }
    }
}

#[test]
fn infoset_keys_in_solver_order() {
    let keys = infoset_keys();
    let expected = ["K", "Q", "J", "Kp", "Qp", "Jp", "Kb", "Qb", "Jb", "Kpb", "Qpb", "Jpb"];
    assert_eq!(keys.len(), expected.len());
    for (k, e) in keys.iter().zip(expected.iter()) {
        assert_eq!(k, e);
    }
}
